use bitarchive::{pool_outcome, CodecError};

#[test]
fn pool_outcome_follows_the_builder() {
    assert_eq!(pool_outcome(4, Ok(())), Ok(4));
    assert_eq!(pool_outcome(1, Ok(())), Ok(1));
    rayon::ThreadPoolBuilder::new().num_threads(2).build_global().unwrap();
    let refused = rayon::ThreadPoolBuilder::new().num_threads(2).build_global();
    assert!(refused.is_err());
    assert_eq!(pool_outcome(2, refused), Err(CodecError::WorkerPool));
}
