use dogeis_powder::element::Element;
use dogeis_powder::particle::{decorate, decoration, shift_channel, Particle};
use dogeis_powder::color::Color;

#[test]
fn particle_shift_channel_clamps() {
    assert_eq!(shift_channel(250, 10), 255);
    assert_eq!(shift_channel(5, -10), 0);
    assert_eq!(shift_channel(100, -3), 97);
}

#[test]
fn particle_decorate_shifts_rgb_only() {
    let c = decorate(Color { value: 0x80FF_0010 }, 5, 5, -20);
    assert_eq!(c.value, 0x80FF_0500);
}

#[test]
fn particle_decoration_without_variation_is_base() {
    assert_eq!(decoration(Element::Water).value, Element::Water.color().value);
    assert_eq!(decoration(Element::Ice).value, Element::Ice.color().value);
}

#[test]
fn particle_decoration_stays_near_base() {
    for _ in 0..200 {
        let c = decoration(Element::Sand);
        assert_eq!(c.a(), 255);
        assert!(245 <= c.r());
        assert!(219 <= c.g() && c.g() < 239);
        assert!(115 <= c.b() && c.b() < 135);
        let w = decoration(Element::Wood);
        assert!(84 <= w.r() && w.r() < 94);
        assert!(70 <= w.g() && w.g() < 80);
        assert!(46 <= w.b() && w.b() < 56);
    }
}

#[test]
fn particle_new_fields() {
    let p = Particle::new(Element::Water, 3, 4, 42u32);
    assert_eq!(p.element, Element::Water);
    assert_eq!(p.decoration, Element::Water.color());
    assert_eq!(p.sub_type, None);
    assert!(!p.is_dead);
    assert_eq!((p.get_grid_x(), p.get_grid_y()), (3, 4));
    assert_eq!(p.body, 42);
}
