//! The size-accounting algebra: combination and raw-length rules.

use drax::size::Size;

#[test]
fn combine_constants() {
    assert_eq!(Size::Constant(4).combine(Size::Constant(2)), Size::Constant(6));
}

#[test]
fn combine_with_dynamic_is_dynamic() {
    assert_eq!(Size::Dynamic(4).combine(Size::Dynamic(2)), Size::Dynamic(6));
    assert_eq!(Size::Dynamic(4).combine(Size::Constant(2)), Size::Dynamic(6));
    assert_eq!(Size::Constant(4).combine(Size::Dynamic(2)), Size::Dynamic(6));
}

#[test]
fn combine_is_commutative_on_counts() {
    let a = Size::Constant(3);
    let b = Size::Dynamic(9);
    assert_eq!(a.combine(b).count(), b.combine(a).count());
    assert_eq!(a.combine(b), b.combine(a));
}

#[test]
fn add_bytes_is_always_dynamic() {
    assert_eq!(Size::Constant(4).add_bytes(3), Size::Dynamic(7));
    assert_eq!(Size::Dynamic(4).add_bytes(3), Size::Dynamic(7));
}
