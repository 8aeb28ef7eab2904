//! Colours that depend on the state of what is drawn.

use crate::coord::{clamped, product, whole, whole_byte, Coord};
use vstd::prelude::*;

verus! {

/// A colour as the painter takes it: the three channels are multiplied by the opacity.
#[derive(Clone, Copy, Debug, PartialEq, Eq, Structural)]
pub struct Shade {
    pub r: u8,
    pub g: u8,
    pub b: u8,
    pub a: u8,
}

/// A channel at the opacity `a` out of 255, to the nearest whole number.
pub open spec fn channel_at(v: u8, a: u8) -> u8 {
    ((2 * v * a + 255) / 510) as u8
}

/// A colour at the opacity `a` out of 255.
pub open spec fn shade_at(r: u8, g: u8, b: u8, a: u8) -> Shade {
    Shade { r: channel_at(r, a), g: channel_at(g, a), b: channel_at(b, a), a }
}

/// `egui::Color32::from_rgba_unmultiplied`, read out by `r`, `g`, `b` and `a`: the
/// opacity is kept, and each channel becomes the whole number nearest to its product
/// with the opacity, divided by 255.
#[verifier::external_body]
fn blend(r: u8, g: u8, b: u8, a: u8) -> (c: Shade)
    ensures
        c == shade_at(r, g, b, a),
{
    let c = egui::Color32::from_rgba_unmultiplied(r, g, b, a);
    Shade { r: c.r(), g: c.g(), b: c.b(), a: c.a() }
}

/// The opacity, out of 255, of something faded to `t`.
pub open spec fn opacity(t: Coord) -> u8 {
    whole_byte(product(clamped(t, whole(0), whole(1)), whole(255)))
}

/// A colour faded to `t`, 1 being all there and 0 all gone.
pub fn fade(c: Shade, t: Coord) -> (r: Shade)
    ensures
        r == shade_at(c.r, c.g, c.b, opacity(t)),
{
    let a = t.clamp(Coord::from_points(0), Coord::from_points(1)).times(
        Coord::from_points(255),
    ).to_byte();
    blend(c.r, c.g, c.b, a)
}

/// What is laid over the counter: a little white under the pointer.
pub fn counter_highlight(hovered: bool) -> (r: Option<Shade>)
    ensures
        r == if hovered {
            Some(shade_at(255, 255, 255, 12))
        } else {
            None
        },
{
    if hovered {
        Some(blend(255, 255, 255, 12))
    } else {
        None
    }
}

/// What is laid over a row: a little white under the pointer, and more while the row is
/// dragged.
pub fn row_highlight(dragging: bool, hovered: bool) -> (r: Option<Shade>)
    ensures
        r == if dragging {
            Some(shade_at(255, 255, 255, 18))
        } else if hovered {
            Some(shade_at(255, 255, 255, 10))
        } else {
            None
        },
{
    if dragging {
        Some(blend(255, 255, 255, 18))
    } else if hovered {
        Some(blend(255, 255, 255, 10))
    } else {
        None
    }
}

} // verus!
