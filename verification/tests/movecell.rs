use zuffy::movecell::MoveCell;

#[test]
fn test_copy() {
    let mut x = MoveCell::from_value(10u32);

    assert_eq!(x.take().unwrap(), 10u32);
    assert!(x.take().is_none());
    assert!(x.empty());

    assert!(x.put(15u32).is_none());
    assert_eq!(x.take().unwrap(), 15u32);
    assert!(x.take().is_none());
    assert!(x.empty());
}

#[test]
fn test_nocopy() {
    let mut x = MoveCell::from_value("a".to_string());

    assert_eq!(x.take().unwrap().as_str(), "a");
    assert!(x.take().is_none());
    assert!(x.empty());

    assert!(x.put("b".to_string()).is_none());
    assert_eq!(x.take().unwrap().as_str(), "b");
    assert!(x.take().is_none());
    assert!(x.empty());
}

#[test]
fn test_empty_new() {
    let mut x = MoveCell::<String>::new();
    assert!(x.empty());
    assert!(x.put("a".to_string()).is_none());
    assert_eq!(x.take().unwrap().as_str(), "a");
    assert!(x.take().is_none());
    assert!(x.empty());
}

#[test]
fn put_displaces_the_held_value() {
    let mut x = MoveCell::from_value(1u8);
    assert_eq!(x.put(2), Some(1));
    assert_eq!(x.put(3), Some(2));
    assert!(!x.empty());
    assert_eq!(x.take(), Some(3));
}

#[test]
fn get_ref_leaves_the_value_in_place() {
    let mut x = MoveCell::from_value("kept".to_string());
    assert_eq!(x.get_ref().map(|s| s.as_str()), Some("kept"));
    assert_eq!(x.get_ref().map(|s| s.len()), Some(4));
    assert!(!x.empty());
    assert_eq!(x.take().unwrap(), "kept");
    assert!(x.get_ref().is_none());
}
