use dogeis_powder::element::{Element, StateOfMatter};

#[test]
fn element_kinds() {
    assert_eq!(Element::Sand.kind(), StateOfMatter::Powder);
    assert_eq!(Element::Water.kind(), StateOfMatter::Liquid);
    assert_eq!(Element::Wood.kind(), StateOfMatter::Solid);
    assert_eq!(Element::Ice.kind(), StateOfMatter::Solid);
}

#[test]
fn element_colors() {
    assert_eq!(Element::Sand.color().value, 0xFFFF_E57D);
    assert_eq!(Element::Water.color().value, 0xFF24_74FF);
    assert_eq!(Element::Wood.color().value, 0xFF59_4B33);
    assert_eq!(Element::Ice.color().value, 0xFF80_B9FF);
}

#[test]
fn element_brightness_vary() {
    assert_eq!(Element::Sand.brightness_vary(), 10);
    assert_eq!(Element::Water.brightness_vary(), 0);
    assert_eq!(Element::Wood.brightness_vary(), 5);
    assert_eq!(Element::Ice.brightness_vary(), 0);
}

#[test]
fn element_only_wood_burns() {
    assert!(!Element::Sand.flammable());
    assert!(!Element::Water.flammable());
    assert!(Element::Wood.flammable());
    assert!(!Element::Ice.flammable());
}

#[test]
fn element_density_order() {
    assert_eq!(Element::Sand.density_per_mille(), 1500);
    assert_eq!(Element::Water.density_per_mille(), 1000);
    assert_eq!(Element::Wood.density_per_mille(), 750);
    assert_eq!(Element::Ice.density_per_mille(), 934);
    assert!(Element::Ice.density_per_mille() < Element::Water.density_per_mille());
}
