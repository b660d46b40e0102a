use dogged::cell::DCell;

#[test]
fn cell_put_read_take() {
    let mut c = DCell::new();
    assert!(c.is_empty());
    c.put(7);
    assert!(!c.is_empty());
    assert_eq!(c.read(|x| *x), 7);
    assert_eq!(c.take(), 7);
    assert!(c.is_empty());
}

#[test]
fn cell_can_be_refilled() {
    let mut c = DCell::new();
    c.put(String::from("one"));
    assert_eq!(c.take(), "one");
    c.put(String::from("two"));
    assert_eq!(c.read(|s| s.len()), 3);
    assert!(!c.is_empty());
}
