use fake_db::identifier::{Identifier, Sequence};

#[test]
fn test_sequence() {
    let mut sequence = Sequence::new();

    assert_eq!(sequence.new_id(&()), 1);
    assert_eq!(sequence.new_id(&()), 2);
    assert_eq!(sequence.new_id(&()), 3);
    assert!(!Identifier::<()>::is_autogenerated(&sequence));
}

#[test]
fn test_sequence_default_starts_at_one() {
    let mut sequence = Sequence::default();

    assert_eq!(sequence.new_id(&"a"), 1);
    assert_eq!(sequence.new_id(&"b"), 2);
}

#[test]
fn test_sequence_ignores_the_value() {
    let mut first = Sequence::new();
    let mut second = Sequence::new();

    assert_eq!(first.new_id(&1_000_u64), second.new_id(&7_u64));
    assert_eq!(first.new_id(&0_u64), 2);
}
