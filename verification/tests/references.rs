use unsync::bi_rc::BiRc;
use unsync::broad_rc::BroadRc;
use unsync::broad_ref::BroadRef;
use unsync::utils::checked_increment;

#[test]
fn two_references_share_a_value() {
    let (mut inner, a, b) = BiRc::new(1);
    let (value, both) = a.get_mut_unchecked(&mut inner);
    *value += 1;
    assert!(both);
    a.release(&mut inner);
    let (value, both) = b.get_mut_unchecked(&mut inner);
    assert_eq!((*value, both), (2, false));
    b.release(&mut inner);
}

#[test]
fn strong_reference_sees_weak_ones() {
    let (mut inner, strong) = BroadRc::new(1);
    assert!(!strong.get_mut_unchecked(&mut inner).1);
    let weak = strong.weak(&mut inner);
    *weak.get_mut_unchecked(&mut inner).0 = 5;
    let (value, present) = strong.get_mut_unchecked(&mut inner);
    assert_eq!((*value, present), (5, true));
    strong.release(&mut inner);
    let (value, present) = weak.get_mut_unchecked(&mut inner);
    assert_eq!((*value, present), (5, false));
    weak.release(&mut inner);
}

#[test]
fn broad_reference_sees_weak_ones() {
    let (mut inner, strong) = BroadRef::new(1);
    assert!(!strong.load(&mut inner).1);
    let weak1 = strong.weak(&mut inner);
    let weak2 = strong.weak(&mut inner);
    *weak1.load(&mut inner).0 = 5;
    weak1.release(&mut inner);
    let (value, present) = strong.load(&mut inner);
    assert_eq!((*value, present), (5, true));
    weak2.release(&mut inner);
    assert!(!strong.load(&mut inner).1);
    strong.release(&mut inner);
}

#[test]
fn increments() {
    assert_eq!(checked_increment(0), 1);
    assert_eq!(checked_increment(usize::MAX - 1), usize::MAX);
}
