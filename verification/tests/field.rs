use dns_wire::field::{Field, FieldIter};

#[test]
fn iter_hands_out_fields_in_order() {
    let a = Field::Word(1);
    let b = Field::Byte(2, 3);
    let c = Field::Label(vec![String::from("x")]);
    let mut it: FieldIter = vec![&a, &b, &c].into();
    assert_eq!(it.len(), 3);
    assert_eq!(it.get(2), Some(&c));
    assert_eq!(it.get(3), None);
    assert_eq!(it.next(), Some(&a));
    assert_eq!(it.len(), 2);
    assert_eq!(it.get(0), Some(&b));
    assert_eq!(it.get(2), None);
    assert_eq!(it.next(), Some(&b));
    assert_eq!(it.next(), Some(&c));
    assert_eq!(it.len(), 0);
    assert_eq!(it.next(), None);
    assert_eq!(it.next(), None);
}

#[test]
fn iter_over_nothing_is_empty() {
    let mut it = FieldIter::from(Vec::new());
    assert_eq!(it.len(), 0);
    assert_eq!(it.next(), None);
}
