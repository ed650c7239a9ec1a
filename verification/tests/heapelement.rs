use std::cmp::Ordering;

use graphsearch::heapelement::HeapElement;

#[test]
fn smaller_cost_compares_greater() {
    let costly = HeapElement::new("expensive", 5);
    let cheap = HeapElement::new("cheap", 2);
    assert!(cheap > costly);
    assert!(costly < cheap);
    assert_eq!(costly.partial_cmp(&cheap), Some(Ordering::Less));
    assert_eq!(cheap.partial_cmp(&costly), Some(Ordering::Greater));
}

#[test]
fn equal_cost_means_equal_whatever_the_payload() {
    let a = HeapElement::new("first", 3);
    let b = HeapElement::new("second", 3);
    assert!(a == b);
    assert_eq!(a.partial_cmp(&b), Some(Ordering::Equal));
}

#[test]
fn payload_is_returned_unchanged() {
    let e = HeapElement::new(41_u64, -7);
    assert_eq!(*e.node(), 41);
    let s = HeapElement::new(String::from("payload"), 0);
    assert_eq!(s.node(), "payload");
}
