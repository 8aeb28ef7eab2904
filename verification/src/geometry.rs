//! Where the window goes, and how big things in it are.

use crate::coord::{
    at_most, clamped, difference, distance, half, larger, less, opposite, point, product, same,
    smaller, sum, whole, Coord,
};
use crate::laws::coord::{
    a_share_is_nearly_exact, apart_by, exact_sum, half_a_point_is_half,
    the_opposite_has_the_opposite_value, whole_is_a_number,
};
use crate::model::{Pair, QueueModel};
use crate::queue::TaskQueue;
use crate::storage::WindowState;
use vstd::arithmetic::power2::pow2;
use vstd::prelude::*;

verus! {

/// Width of the handle.
pub const HANDLE_W: u32 = 36;

/// Height of the handle.
pub const HANDLE_H: u32 = 36;

/// Width of the circle at the front of a row.
pub const BULLET_W: u32 = 20;

/// Least height of a row.
pub const ROW_MIN_H: u32 = 26;

/// Space above and below the text of a row, taken together.
pub const ROW_PAD: u32 = 12;

/// Greatest height of the list of tasks.
pub const MAX_LIST_H: u32 = 500;

/// Least height of the open window.
pub const MIN_WIN_H: u32 = 56;

/// Greatest height of the open window.
pub const MAX_WIN_H: u32 = 600;

/// Space above and below the panel, taken together.
pub const PANEL_PAD: u32 = 12;

/// Where a kept position stops being one.
pub const SANE_LIMIT: u32 = 32_000;

/// What the window system reports of the window.
#[derive(Clone, Copy, Debug)]
pub struct Viewport {
    /// The top left corner of the window on the screen.
    pub outer: Option<Pair>,
    /// The size of the window's inside.
    pub inner: Option<Pair>,
    /// The size of the monitor.
    pub monitor: Option<Pair>,
}

/// An order to the window system.
#[derive(Clone, Copy, Debug)]
pub enum WindowCommand {
    /// Give the window's inside this size.
    InnerSize(Pair),
    /// Put the window's top left corner here.
    OuterPosition(Pair),
}

/// What the window shows in a frame.
#[derive(Clone, Copy, Debug, PartialEq, Eq, Structural)]
pub enum Shape {
    /// The handle.
    Handle,
    /// Nothing yet: the window has still to widen.
    Opening,
    /// The board.
    Panel,
}

/// Less than half a point apart.
pub open spec fn near(a: Coord, b: Coord) -> bool {
    less(distance(difference(a, b)), half())
}

/// More than half a point apart.
pub open spec fn apart(a: Coord, b: Coord) -> bool {
    less(half(), distance(difference(a, b)))
}

/// The window is closed and has the size of the handle: nothing is moving.
pub open spec fn steady(q: QueueModel, inner: Pair) -> bool {
    !q.expanded && near(inner.x, whole(HANDLE_W as nat)) && near(inner.y, whole(HANDLE_H as nat))
}

/// The size of the monitor, if the reading can be trusted: the window is steady, and the
/// frame before gave the same.
pub open spec fn trusted(q: QueueModel, inner: Pair, monitor: Option<Pair>) -> Option<Pair> {
    match (monitor, q.last_monitor) {
        (Some(m), Some(last)) => if steady(q, inner) && same(m.x, last.x) && same(m.y, last.y) {
            Some(m)
        } else {
            None
        },
        _ => None,
    }
}

/// The place of the handle on a monitor: at its right edge, and not beyond its lower one.
pub open spec fn handle_place(q: QueueModel, m: Pair) -> Pair {
    Pair {
        x: difference(m.x, whole(HANDLE_W as nat)),
        y: clamped(
            q.handle_y,
            whole(0),
            larger(difference(m.y, whole(HANDLE_H as nat)), whole(0)),
        ),
    }
}

/// The handle brought to its place on a trusted monitor, unless it is there already.
pub open spec fn docked(q: QueueModel, m: Pair) -> QueueModel {
    let place = handle_place(q, m);
    let q = QueueModel { screen_h: m.y, ..q };
    if apart(place.x, q.handle_x) || apart(place.y, q.handle_y) {
        QueueModel { handle_x: place.x, handle_y: place.y, dirty: true, ..q }
    } else {
        q
    }
}

/// What a report of the window system does to the queue.
pub open spec fn measured(q: QueueModel, inner: Pair, monitor: Option<Pair>) -> QueueModel {
    let r = QueueModel { last_monitor: monitor, ..q };
    match trusted(q, inner, monitor) {
        Some(m) => docked(r, m),
        None => r,
    }
}

/// The size that the window is to have.
pub open spec fn wanted_size(q: QueueModel, content_h: Coord) -> Pair {
    if q.expanded {
        Pair {
            x: q.width,
            y: clamped(content_h, whole(MIN_WIN_H as nat), whole(MAX_WIN_H as nat)),
        }
    } else {
        Pair { x: whole(HANDLE_W as nat), y: whole(HANDLE_H as nat) }
    }
}

/// The place that the window is to have: its right edge where the handle's is, and its
/// lower edge on the screen.
pub open spec fn wanted_place(q: QueueModel, size: Pair) -> Pair {
    Pair {
        x: difference(sum(q.handle_x, whole(HANDLE_W as nat)), size.x),
        y: smaller(q.handle_y, larger(difference(q.screen_h, size.y), whole(0))),
    }
}

/// The order for a size, if the window does not have it.
pub open spec fn size_order(inner: Pair, size: Pair) -> Seq<WindowCommand> {
    if apart(inner.x, size.x) || apart(inner.y, size.y) {
        seq![WindowCommand::InnerSize(size)]
    } else {
        seq![]
    }
}

/// The order for a place, if the window is not there.
pub open spec fn place_order(outer: Pair, place: Pair) -> Seq<WindowCommand> {
    if apart(outer.x, place.x) || apart(outer.y, place.y) {
        seq![WindowCommand::OuterPosition(place)]
    } else {
        seq![]
    }
}

/// The orders that bring a window from one place and size to another: a window that
/// widens moves first, one that narrows shrinks first, so that in between it never
/// reaches over the right edge.
pub open spec fn orders(outer: Pair, inner: Pair, place: Pair, size: Pair) -> Seq<WindowCommand> {
    if at_most(size.x, inner.x) {
        size_order(inner, size) + place_order(outer, place)
    } else {
        place_order(outer, place) + size_order(inner, size)
    }
}

/// What the window shows.
pub open spec fn shape_of(q: QueueModel, inner_width: Option<Coord>) -> Shape {
    if !q.expanded {
        Shape::Handle
    } else if inner_width matches Some(w) && less(w, difference(q.width, whole(1))) {
        Shape::Opening
    } else {
        Shape::Panel
    }
}

/// Whether the two are more than half a point apart.
fn differ(a: Coord, b: Coord) -> (r: bool)
    ensures
        r == apart(a, b),
{
    Coord::half_point().lt(a.minus(b).abs())
}

/// Whether the two are less than half a point apart.
fn agree(a: Coord, b: Coord) -> (r: bool)
    ensures
        r == near(a, b),
{
    a.minus(b).abs().lt(Coord::half_point())
}

impl TaskQueue {
    /// What the window shows in this frame.
    pub fn shape(&self, inner_width: Option<Coord>) -> (r: Shape)
        ensures
            r == shape_of(self@, inner_width),
    {
        if !self.expanded {
            return Shape::Handle;
        }
        if let Some(w) = inner_width {
            if w.lt(self.width.minus(Coord::from_points(1))) {
                return Shape::Opening;
            }
        }
        Shape::Panel
    }

    /// Takes a report of the window system in, and says what to order from it.
    pub fn apply_geometry(&mut self, view: Viewport, content_h: Coord) -> (r: Vec<WindowCommand>)
        ensures
            match (view.outer, view.inner) {
                (Some(outer), Some(inner)) => {
                    let q = measured(old(self)@, inner, view.monitor);
                    let size = wanted_size(q, content_h);
                    &&& final(self)@ == q
                    &&& r@ == orders(outer, inner, wanted_place(q, size), size)
                },
                _ => final(self)@ == old(self)@ && r@.len() == 0,
            },
    {
        let mut commands: Vec<WindowCommand> = Vec::new();
        let (outer, inner) = match (view.outer, view.inner) {
            (Some(outer), Some(inner)) => (outer, inner),
            _ => {
                return commands;
            },
        };
        let zero = Coord::from_points(0);
        let handle_w = Coord::from_points(HANDLE_W);
        let handle_h = Coord::from_points(HANDLE_H);

        let steady = !self.expanded && agree(inner.x, handle_w) && agree(inner.y, handle_h);
        let repeated = match (view.monitor, self.last_monitor) {
            (Some(m), Some(last)) => m.x.equals(last.x) && m.y.equals(last.y),
            _ => false,
        };
        self.last_monitor = view.monitor;
        if let Some(m) = view.monitor {
            if steady && repeated {
                self.screen_h = m.y;
                let x = m.x.minus(handle_w);
                let y = self.handle_y.clamp(zero, m.y.minus(handle_h).max(zero));
                if differ(x, self.handle_x) || differ(y, self.handle_y) {
                    self.handle_x = x;
                    self.handle_y = y;
                    self.dirty = true;
                }
            }
        }
        assert(self@ == measured(old(self)@, inner, view.monitor));

        let size = if self.expanded {
            Pair {
                x: self.width,
                y: content_h.clamp(Coord::from_points(MIN_WIN_H), Coord::from_points(MAX_WIN_H)),
            }
        } else {
            Pair { x: handle_w, y: handle_h }
        };
        let place = Pair {
            x: self.handle_x.plus(handle_w).minus(size.x),
            y: self.handle_y.min(self.screen_h.minus(size.y).max(zero)),
        };
        let resize = differ(inner.x, size.x) || differ(inner.y, size.y);
        let reposition = differ(outer.x, place.x) || differ(outer.y, place.y);
        let shrink_first = size.x.le(inner.x);
        if shrink_first && resize {
            commands.push(WindowCommand::InnerSize(size));
        }
        if reposition {
            commands.push(WindowCommand::OuterPosition(place));
        }
        if !shrink_first && resize {
            commands.push(WindowCommand::InnerSize(size));
        }
        assert(commands@ == orders(outer, inner, place, size));
        commands
    }
}

/// The height that the window's content needs.
pub fn content_height(shape: Shape, panel_h: Coord) -> (h: Coord)
    ensures
        h == (match shape {
            Shape::Handle => whole(HANDLE_H as nat),
            Shape::Opening => whole(MIN_WIN_H as nat),
            Shape::Panel => sum(panel_h, whole(PANEL_PAD as nat)),
        }),
        shape == Shape::Handle ==> h.units() == 36 * point(),
        shape == Shape::Opening ==> h.units() == 56 * point(),
        shape == Shape::Panel && exact_sum(panel_h, whole(12)) ==> h.units() == panel_h.units() + 12
            * point(),
{
    proof {
        whole_is_a_number(12);
        whole_is_a_number(36);
        whole_is_a_number(56);
    }
    match shape {
        Shape::Handle => Coord::from_points(HANDLE_H),
        Shape::Opening => Coord::from_points(MIN_WIN_H),
        Shape::Panel => panel_h.plus(Coord::from_points(PANEL_PAD)),
    }
}

/// The height that the panel needs: its head, from `top` to `list_top`, and the list, as
/// far as it is not scrolled.
pub fn panel_height(top: Coord, list_top: Coord, list_h: Coord) -> (h: Coord)
    ensures
        h == sum(difference(list_top, top), smaller(list_h, whole(MAX_LIST_H as nat))),
        top.is_finite() && exact_sum(list_top, opposite(top)) && list_h.is_finite() && exact_sum(
            difference(list_top, top),
            smaller(list_h, whole(500)),
        ) ==> h.units() == list_top.units() - top.units() + if list_h.units() <= 500 * point() {
            list_h.units()
        } else {
            500int * point()
        },
{
    proof {
        whole_is_a_number(500);
        if top.is_finite() {
            the_opposite_has_the_opposite_value(top);
        }
    }
    list_top.minus(top).plus(list_h.min(Coord::from_points(MAX_LIST_H)))
}

/// The height of a row whose text is `text_h` high, faded to `fade`.
pub fn row_height(text_h: Coord, fade: Coord) -> (h: Coord)
    ensures
        h == product(larger(sum(text_h, whole(ROW_PAD as nat)), whole(ROW_MIN_H as nat)), fade),
        exact_sum(text_h, whole(12)) && 0 <= text_h.units() + 12 * point() < pow2(171)
            && fade.is_finite() && 0 <= fade.units() <= point() ==> {
            let full = if text_h.units() + 12 * point() >= 26 * point() {
                text_h.units() + 12 * point()
            } else {
                26int * point()
            };
            &&& h.is_finite()
            &&& 8 * apart_by(h.units() * point(), full * fade.units()) <= point() * point()
            &&& fade.units() == point() ==> h.units() == full
            &&& fade.units() == 0 ==> h.units() == 0
        },
{
    proof {
        whole_is_a_number(12);
        whole_is_a_number(26);
        let full = larger(sum(text_h, whole(12)), whole(26));
        vstd::arithmetic::power2::lemma_pow2_adds(22, 149);
        assert(pow2(22) == 0x40_0000) by {
            vstd::arithmetic::power2::lemma2_to64();
        }
        if exact_sum(text_h, whole(12)) && 0 <= text_h.units() + 12 * point() < pow2(171)
            && fade.is_finite() && 0 <= fade.units() <= point() {
            a_share_is_nearly_exact(full, fade);
        }
    }
    text_h.plus(Coord::from_points(ROW_PAD)).max(Coord::from_points(ROW_MIN_H)).times(fade)
}

/// Whether a row of this height is drawn and can be used.
pub fn row_shown(height: Coord) -> (r: bool)
    ensures
        r <==> !less(height, half()),
        r <==> height.is_nan() || 2 * height.units() >= point(),
{
    proof {
        half_a_point_is_half();
    }
    !height.lt(Coord::half_point())
}

/// The width at which the text of a row is wrapped.
pub fn wrap_width(width: Coord) -> (w: Coord)
    ensures
        w == larger(difference(difference(width, whole(BULLET_W as nat)), whole(4)), whole(40)),
        exact_sum(width, opposite(whole(20))) && exact_sum(
            difference(width, whole(20)),
            opposite(whole(4)),
        ) ==> w.units() == if width.units() >= 64 * point() {
            width.units() - 24 * point()
        } else {
            40int * point()
        },
{
    proof {
        whole_is_a_number(20);
        whole_is_a_number(4);
        whole_is_a_number(40);
        the_opposite_has_the_opposite_value(whole(20));
        the_opposite_has_the_opposite_value(whole(4));
    }
    width.minus(Coord::from_points(BULLET_W)).minus(Coord::from_points(4)).max(
        Coord::from_points(40),
    )
}

/// The width of the input line beside the counter.
pub fn input_width(head_w: Coord) -> (w: Coord)
    ensures
        w == larger(difference(difference(head_w, whole(HANDLE_W as nat)), whole(6)), whole(40)),
        exact_sum(head_w, opposite(whole(36))) && exact_sum(
            difference(head_w, whole(36)),
            opposite(whole(6)),
        ) ==> w.units() == if head_w.units() >= 82 * point() {
            head_w.units() - 42 * point()
        } else {
            40int * point()
        },
{
    proof {
        whole_is_a_number(36);
        whole_is_a_number(6);
        whole_is_a_number(40);
        the_opposite_has_the_opposite_value(whole(36));
        the_opposite_has_the_opposite_value(whole(6));
    }
    head_w.minus(Coord::from_points(HANDLE_W)).minus(Coord::from_points(6)).max(
        Coord::from_points(40),
    )
}

/// The top left corner of the counter in a head that ends at `right` and `top`.
pub fn counter_place(right: Coord, top: Coord) -> (p: Pair)
    ensures
        p.x == difference(right, whole(HANDLE_W as nat)),
        p.y == difference(top, whole(2)),
        exact_sum(right, opposite(whole(36))) ==> p.x.units() + 36 * point() == right.units(),
        exact_sum(top, opposite(whole(2))) ==> p.y.units() + 2 * point() == top.units(),
{
    proof {
        whole_is_a_number(36);
        whole_is_a_number(2);
        the_opposite_has_the_opposite_value(whole(36));
        the_opposite_has_the_opposite_value(whole(2));
    }
    Pair {
        x: right.minus(Coord::from_points(HANDLE_W)),
        y: top.minus(Coord::from_points(2)),
    }
}

/// A coordinate that can be one of the screen.
pub open spec fn sane(c: Coord) -> bool {
    c.is_finite() && at_most(whole(0), c) && less(c, whole(SANE_LIMIT as nat))
}

/// Where the window is first put: where it was, if that can be a place on the screen.
pub fn start_place(window: Option<WindowState>) -> (r: Option<Pair>)
    ensures
        match r {
            Some(p) => window matches Some(w) && sane(w.x) && sane(w.y) && p.x == w.x && p.y == w.y,
            None => window matches Some(w) ==> !sane(w.x) || !sane(w.y),
        },
{
    match window {
        Some(w) => if is_sane(w.x) && is_sane(w.y) {
            Some(Pair { x: w.x, y: w.y })
        } else {
            None
        },
        None => None,
    }
}

fn is_sane(c: Coord) -> (r: bool)
    ensures
        r == sane(c),
{
    c.finite() && Coord::from_points(0).le(c) && c.lt(Coord::from_points(SANE_LIMIT))
}

} // verus!
