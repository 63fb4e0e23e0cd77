use bitarchive::{configure_thread_pool, CodecError};

#[test]
fn pool_is_set_up_once_with_the_chosen_size() {
    assert_eq!(configure_thread_pool(true, 3, Some(8)), Ok(3));
    assert_eq!(rayon::current_num_threads(), 3);
    assert_eq!(configure_thread_pool(true, 3, Some(8)), Err(CodecError::WorkerPool));
    assert_eq!(configure_thread_pool(false, 3, None), Err(CodecError::WorkerPool));
    assert_eq!(rayon::current_num_threads(), 3);
}
