use boolean_inference::domain::DomainMask;

#[test]
fn domain_mask_semantics() {
    assert!(DomainMask::D0.is_fixed());
    assert!(DomainMask::D1.is_fixed());
    assert!(!DomainMask::BOTH.is_fixed());
    assert!(!DomainMask::NONE.is_fixed());

    assert!(DomainMask::D0.has0() && !DomainMask::D0.has1());
    assert!(!DomainMask::D1.has0() && DomainMask::D1.has1());
    assert!(DomainMask::BOTH.has0() && DomainMask::BOTH.has1());

    assert_eq!(DomainMask::D0.value(), Some(false));
    assert_eq!(DomainMask::D1.value(), Some(true));
    assert_eq!(DomainMask::BOTH.value(), None);
}
