use nostdb_core::generation::Generation;
use nostdb_core::generation::GenerationError;

#[test]
fn a_new_database_starts_at_one() {
    assert_eq!(Generation::initial().get(), 1);
}

#[test]
fn generations_advance_and_order() {
    let first = Generation::initial();
    let second = first.next().unwrap();
    let third = second.next().unwrap();
    assert_eq!(second.get(), 2);
    assert!(first < second);
    assert!(second < third);
}

#[test]
fn advancing_never_wraps() {
    let last = Generation::from_raw(u64::MAX);
    assert_eq!(last.next(), Err(GenerationError::Exhausted));
}
