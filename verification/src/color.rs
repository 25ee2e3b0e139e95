use vstd::prelude::*;

verus! {

/// A colour with 8 bits a channel; `a` is the opacity, 255 being opaque.
#[derive(Clone, Copy, Debug, Default, PartialEq, Eq)]
pub struct RGBA {
    pub r: u8,
    pub g: u8,
    pub b: u8,
    pub a: u8,
}

/// The product of two channel values, both read as fractions of 255.
pub open spec fn spec_multiply_channel(c1: u8, c2: u8) -> u8 {
    (c1 as int * c2 as int / 255) as u8
}

/// `color1` tinted by `color2`, channel by channel; the opacity is that of
/// `color1`.
pub open spec fn spec_multiply_color(color1: RGBA, color2: RGBA) -> RGBA {
    RGBA {
        r: spec_multiply_channel(color1.r, color2.r),
        g: spec_multiply_channel(color1.g, color2.g),
        b: spec_multiply_channel(color1.b, color2.b),
        a: color1.a,
    }
}

/// The weight of the upper colour in a blend, in units of 1/255 of its
/// opacity.
pub open spec fn blend_top_weight(top_a: u8) -> int {
    top_a as int * 255
}

/// The weight of the lower colour in a blend: its opacity times what the
/// upper colour lets through.
pub open spec fn blend_bottom_weight(top_a: u8, bottom_a: u8) -> int {
    bottom_a as int * (255 - top_a as int)
}

/// One channel of a blend: the mean of the two values by their weights,
/// rounded down.
pub open spec fn spec_blend_channel(top: u8, bottom: u8, top_a: u8, bottom_a: u8) -> u8 {
    ((top as int * blend_top_weight(top_a) + bottom as int * blend_bottom_weight(top_a, bottom_a))
        / (blend_top_weight(top_a) + blend_bottom_weight(top_a, bottom_a))) as u8
}

/// The opacity of a blend: that of the upper colour plus what the lower one
/// adds through it, rounded down.
pub open spec fn spec_blend_alpha(top_a: u8, bottom_a: u8) -> u8 {
    ((blend_top_weight(top_a) + blend_bottom_weight(top_a, bottom_a)) / 255) as u8
}

/// `top` laid over `bottom`. An opaque `top`, or a `bottom` that is fully
/// transparent, gives `top`; a fully transparent `top` gives `bottom`.
pub open spec fn spec_blend_alpha_color(top: RGBA, bottom: RGBA) -> RGBA {
    if top.a == 255 || bottom.a == 0 {
        top
    } else if top.a == 0 {
        bottom
    } else {
        RGBA {
            r: spec_blend_channel(top.r, bottom.r, top.a, bottom.a),
            g: spec_blend_channel(top.g, bottom.g, top.a, bottom.a),
            b: spec_blend_channel(top.b, bottom.b, top.a, bottom.a),
            a: spec_blend_alpha(top.a, bottom.a),
        }
    }
}

fn multiply_channel(c1: u8, c2: u8) -> (r: u8)
    ensures
        r == spec_multiply_channel(c1, c2),
{
    assert((c1 as int) * (c2 as int) <= 255 * 255 && (c1 as int) * (c2 as int) / 255 <= 255)
        by (nonlinear_arith)
        requires
            c1 <= 255,
            c2 <= 255,
    ;
    let p: u16 = (c1 as u16) * (c2 as u16) / 255;
    p as u8
}

pub fn multiply_color(color1: &RGBA, color2: &RGBA) -> (r: RGBA)
    ensures
        r == spec_multiply_color(*color1, *color2),
{
    RGBA {
        r: multiply_channel(color1.r, color2.r),
        g: multiply_channel(color1.g, color2.g),
        b: multiply_channel(color1.b, color2.b),
        a: color1.a,
    }
}

/// A mean of two channel values by positive weights is a channel value.
proof fn lemma_weighted_mean_bound(t: int, b: int, wt: int, wb: int)
    requires
        0 <= t <= 255,
        0 <= b <= 255,
        0 <= wt,
        0 <= wb,
        0 < wt + wb,
    ensures
        0 <= (t * wt + b * wb) / (wt + wb) <= 255,
{
    assert(0 <= t * wt + b * wb <= 255 * (wt + wb)) by (nonlinear_arith)
        requires
            0 <= t <= 255,
            0 <= b <= 255,
            0 <= wt,
            0 <= wb,
    ;
    assert((t * wt + b * wb) / (wt + wb) <= 255) by (nonlinear_arith)
        requires
            0 <= t * wt + b * wb <= 255 * (wt + wb),
            0 < wt + wb,
    ;
    assert(0 <= (t * wt + b * wb) / (wt + wb)) by (nonlinear_arith)
        requires
            0 <= t * wt + b * wb,
            0 < wt + wb,
    ;
}

fn blend_channel(top: u8, bottom: u8, top_a: u8, bottom_a: u8) -> (r: u8)
    requires
        0 < top_a < 255,
        0 < bottom_a,
    ensures
        r == spec_blend_channel(top, bottom, top_a, bottom_a),
{
    assert(0 < (bottom_a as int) * (255 - top_a as int) <= 255 * 254) by (nonlinear_arith)
        requires
            0 < top_a < 255,
            0 < bottom_a <= 255,
    ;
    let wt: u32 = (top_a as u32) * 255;
    let wb: u32 = (bottom_a as u32) * (255 - top_a as u32);
    assert((top as int) * (wt as int) <= 255 * 64770 && (bottom as int) * (wb as int) <= 255
        * 64770) by (nonlinear_arith)
        requires
            top <= 255,
            bottom <= 255,
            0 <= wt <= 64770,
            0 <= wb <= 64770,
    ;
    proof {
        lemma_weighted_mean_bound(top as int, bottom as int, wt as int, wb as int);
    }
    let v: u32 = ((top as u32) * wt + (bottom as u32) * wb) / (wt + wb);
    v as u8
}

pub fn blend_alpha_color(top: &RGBA, bottom: &RGBA) -> (r: RGBA)
    ensures
        r == spec_blend_alpha_color(*top, *bottom),
        top.a == 255 || bottom.a == 0 ==> r == *top,
        top.a == 0 && bottom.a != 0 ==> r == *bottom,
{
    if top.a == 255 || bottom.a == 0 {
        return *top;
    }
    if top.a == 0 {
        return *bottom;
    }
    assert(0 < (bottom.a as int) * (255 - top.a as int) <= 255 * (255 - top.a)) by (nonlinear_arith)
        requires
            0 < top.a < 255,
            0 < bottom.a <= 255,
    ;
    let wt: u32 = (top.a as u32) * 255;
    let wb: u32 = (bottom.a as u32) * (255 - top.a as u32);
    let alpha: u32 = (wt + wb) / 255;
    RGBA {
        r: blend_channel(top.r, bottom.r, top.a, bottom.a),
        g: blend_channel(top.g, bottom.g, top.a, bottom.a),
        b: blend_channel(top.b, bottom.b, top.a, bottom.a),
        a: alpha as u8,
    }
}

/// An opaque upper colour or a fully transparent lower one leaves the upper
/// colour as it is; a fully transparent upper colour over a lower one that is
/// not fully transparent leaves the lower one as it is; and once a blend is
/// opaque, laying it over anything changes nothing.
pub proof fn lemma_blend_identity(top: RGBA, bottom: RGBA, below: RGBA)
    ensures
        top.a == 255 || bottom.a == 0 ==> spec_blend_alpha_color(top, bottom) == top,
        top.a == 0 && bottom.a != 0 ==> spec_blend_alpha_color(top, bottom) == bottom,
        spec_blend_alpha_color(top, bottom).a == 255 ==> spec_blend_alpha_color(
            spec_blend_alpha_color(top, bottom),
            below,
        ) == spec_blend_alpha_color(top, bottom),
{
}

/// A blend is never less opaque than either of its two colours.
pub proof fn lemma_blend_opacity(top: RGBA, bottom: RGBA)
    ensures
        spec_blend_alpha_color(top, bottom).a >= top.a,
        spec_blend_alpha_color(top, bottom).a >= bottom.a,
{
    if top.a == 255 || bottom.a == 0 || top.a == 0 {
    } else {
        let wt = blend_top_weight(top.a);
        let wb = blend_bottom_weight(top.a, bottom.a);
        let ta = top.a as int;
        let ba = bottom.a as int;
        assert(wt + wb >= 255 * ta && wt + wb >= 255 * ba && wt + wb <= 255 * 255)
            by (nonlinear_arith)
            requires
                wt == ta * 255,
                wb == ba * (255 - ta),
                0 < ta < 255,
                0 < ba <= 255,
        ;
        assert((wt + wb) / 255 >= ta && (wt + wb) / 255 >= ba && (wt + wb) / 255 <= 255)
            by (nonlinear_arith)
            requires
                wt + wb >= 255 * ta,
                wt + wb >= 255 * ba,
                wt + wb <= 255 * 255,
        ;
    }
}

} // verus!
