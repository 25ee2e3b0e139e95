use rmapbash::color::{blend_alpha_color, multiply_color, RGBA};

fn rgba(r: u8, g: u8, b: u8, a: u8) -> RGBA {
    RGBA { r, g, b, a }
}

#[test]
fn blend_keeps_an_opaque_top() {
    let top = rgba(10, 20, 30, 255);
    let bottom = rgba(200, 100, 50, 128);
    assert_eq!(blend_alpha_color(&top, &bottom), top);
}

#[test]
fn blend_keeps_the_top_over_nothing() {
    let top = rgba(10, 20, 30, 77);
    let bottom = rgba(200, 100, 50, 0);
    assert_eq!(blend_alpha_color(&top, &bottom), top);
}

#[test]
fn blend_keeps_the_bottom_under_nothing() {
    let top = rgba(10, 20, 30, 0);
    let bottom = rgba(200, 100, 50, 128);
    assert_eq!(blend_alpha_color(&top, &bottom), bottom);
}

#[test]
fn blend_of_two_transparent_colours_is_the_top() {
    let top = rgba(1, 2, 3, 0);
    let bottom = rgba(4, 5, 6, 0);
    assert_eq!(blend_alpha_color(&top, &bottom), top);
}

#[test]
fn blend_changes_nothing_once_opaque() {
    let first = blend_alpha_color(&rgba(10, 20, 30, 128), &rgba(200, 100, 50, 255));
    assert_eq!(first.a, 255);
    assert_eq!(blend_alpha_color(&first, &rgba(9, 9, 9, 255)), first);
    assert_eq!(blend_alpha_color(&first, &rgba(9, 9, 9, 17)), first);
}

#[test]
fn blend_weighs_by_opacity() {
    // Weights: top 128 * 255 = 32640, bottom 255 * 127 = 32385.
    let out = blend_alpha_color(&rgba(100, 0, 255, 128), &rgba(200, 255, 0, 255));
    assert_eq!(out, rgba(149, 127, 128, 255));
    // Weights: top 64 * 255 = 16320, bottom 64 * 191 = 12224; alpha 28544 / 255 = 111.
    let out = blend_alpha_color(&rgba(255, 0, 0, 64), &rgba(0, 0, 255, 64));
    assert_eq!(out, rgba(145, 0, 109, 111));
}

#[test]
fn blend_is_never_less_opaque_than_its_parts() {
    for ta in [1u8, 17, 128, 254] {
        for ba in [1u8, 50, 200, 255] {
            let out = blend_alpha_color(&rgba(1, 2, 3, ta), &rgba(4, 5, 6, ba));
            assert!(out.a >= ta && out.a >= ba);
        }
    }
}

#[test]
fn multiply_scales_each_channel() {
    let out = multiply_color(&rgba(255, 128, 0, 200), &rgba(128, 128, 255, 10));
    assert_eq!(out, rgba(128, 64, 0, 200));
    let out = multiply_color(&rgba(255, 255, 255, 1), &rgba(255, 1, 0, 2));
    assert_eq!(out, rgba(255, 1, 0, 1));
}
