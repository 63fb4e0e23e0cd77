use bitarchive::configure_thread_pool;

#[test]
fn sequential_pool_needs_no_hardware_count() {
    assert_eq!(configure_thread_pool(false, 12, None), Ok(1));
    assert_eq!(rayon::current_num_threads(), 1);
}
