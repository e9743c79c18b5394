use starfield::mailbox::Mailbox;

#[test]
fn only_the_latest_value_is_taken() {
    let mut m = Mailbox::new();
    assert!(m.is_empty());
    assert_eq!(m.take(), None::<u32>);
    m.put(1);
    m.put(2);
    m.put(3);
    assert!(!m.is_empty());
    assert_eq!(m.take(), Some(3));
    assert_eq!(m.take(), None);
}
