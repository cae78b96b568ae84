use probable_fiesta::kvpair::KVPair;
use std::cmp::Ordering;

#[test]
fn pairs_equal_by_key() {
    let a = KVPair::new("k", "1");
    let b = KVPair::new("k", "2");
    let c = KVPair::new("j", "1");
    assert!(a == b);
    assert!(a != c);
}

#[test]
fn pairs_order_by_key_then_value() {
    let a = KVPair::new("k", "1");
    let b = KVPair::new("k", "2");
    let c = KVPair::new("j", "9");
    assert_eq!(a.partial_cmp(&b), Some(Ordering::Less));
    assert_eq!(b.partial_cmp(&a), Some(Ordering::Greater));
    assert_eq!(c.partial_cmp(&a), Some(Ordering::Less));
    assert_eq!(a.partial_cmp(&KVPair::new("k", "1")), Some(Ordering::Equal));
}

#[test]
fn pair_description() {
    let a = KVPair::new("foo", "bar");
    assert_eq!(a.describe(), "key: foo, value: bar");
    assert_eq!(a.key, "foo");
    assert_eq!(a.value, "bar");
}
