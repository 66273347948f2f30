use seedcracker::random::mcversion::{v1_16_5, MCVersion};

#[test]
fn test_from_string() {
    let v = MCVersion::from_string("1.16.5").unwrap();
    assert_eq!(v.get_release(), 16);
    assert_eq!(v.get_sub_version(), 5);
    assert!(MCVersion::from_string("2.0").is_none());
}

#[test]
fn test_newer_older() {
    let v = MCVersion::from_string("1.16.5").unwrap();
    assert_eq!(v.newer().unwrap().name, "1.17");
    assert_eq!(v.older().unwrap().name, "1.16.4");
    assert!(MCVersion::latest().newer().is_none());
    assert!(MCVersion::oldest().older().is_none());
}

#[test]
fn test_version_order_within_release() {
    let a = MCVersion::new("1.16.4", 16, 4);
    let b = v1_16_5();
    assert!(b.is_newer_than(&a));
    assert!(a.is_older_than(&b));
    assert!(b.is_newer_or_equal_to(&b));
    assert!(b.is_between(&a, &MCVersion::new("1.17", 17, 0)));
}
