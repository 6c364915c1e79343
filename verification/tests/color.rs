use dogeis_powder::color::Color;

#[test]
fn color_new_packs_argb() {
    assert_eq!(Color::new(1, 2, 3, Some(4)).value, 0x0401_0203);
    assert_eq!(Color::new(0x12, 0x34, 0x56, Some(0x78)).value, 0x7812_3456);
}

#[test]
fn color_new_without_alpha_is_opaque() {
    assert_eq!(Color::new(1, 2, 3, None).value, 0xFF01_0203);
    assert_eq!(Color::new(0, 0, 0, None).a(), 255);
}

#[test]
fn color_reads_channels() {
    let c = Color { value: 0x1122_3344 };
    assert_eq!(c.a(), 0x11);
    assert_eq!(c.r(), 0x22);
    assert_eq!(c.g(), 0x33);
    assert_eq!(c.b(), 0x44);
}

#[test]
fn color_new_reads_back() {
    let c = Color::new(200, 100, 50, Some(25));
    assert_eq!((c.r(), c.g(), c.b(), c.a()), (200, 100, 50, 25));
}

#[test]
fn color_setters_change_one_channel() {
    let mut c = Color { value: 0x1122_3344 };
    c.set_a(0xAA);
    assert_eq!(c.value, 0xAA22_3344);
    c.set_r(0xBB);
    assert_eq!(c.value, 0xAABB_3344);
    c.set_g(0xCC);
    assert_eq!(c.value, 0xAABB_CC44);
    c.set_b(0xDD);
    assert_eq!(c.value, 0xAABB_CCDD);
}

#[test]
fn color_setting_own_channel_changes_nothing() {
    let mut c = Color { value: 0x8040_2010 };
    let r = c.r();
    c.set_r(r);
    assert_eq!(c.value, 0x8040_2010);
}

#[test]
fn color_invert_keeps_or_flips_alpha() {
    let c = Color { value: 0xFF10_2030 };
    assert_eq!(c.invert(true).value, 0xFFEF_DFCF);
    assert_eq!(c.invert(false).value, 0x00EF_DFCF);
}

#[test]
fn color_invert_twice_is_identity() {
    let c = Color { value: 0x5A6B_7C8D };
    assert_eq!(c.invert(true).invert(true), c);
    assert_eq!(c.invert(false).invert(false), c);
}
