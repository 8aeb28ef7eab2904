//! Laws of the window: where it goes and in what order.

use crate::coord::{
    at_most, clamped, difference, larger, less, opposite, point, same, sum, whole, Coord,
};
use crate::geometry::{
    apart, docked, handle_place, measured, near, orders, place_order, sane, shape_of, size_order,
    wanted_place, wanted_size, Shape, WindowCommand, HANDLE_H, HANDLE_W, MAX_WIN_H, MIN_WIN_H,
};
use crate::laws::coord::{
    a_sum_is_nearly_exact, apart_by, exact_sum, half_a_point_is_half, whole_is_a_number,
};
use crate::model::{Pair, QueueModel};
use vstd::arithmetic::power2::{lemma_pow2_adds, lemma_pow2_unfold, pow2};
use vstd::prelude::*;

verus! {

/// While the board is open, or the window has not the size of the handle, or the reading
/// is not the one of the frame before, the handle stays and the screen's height is kept.
pub proof fn an_untrusted_reading_moves_nothing(q: QueueModel, inner: Pair, monitor: Option<Pair>)
    requires
        q.expanded || !near(inner.x, whole(HANDLE_W as nat)) || !near(
            inner.y,
            whole(HANDLE_H as nat),
        ) || monitor is None || q.last_monitor is None || !same(
            monitor.unwrap().x,
            q.last_monitor.unwrap().x,
        ) || !same(monitor.unwrap().y, q.last_monitor.unwrap().y),
    ensures
        measured(q, inner, monitor) == (QueueModel { last_monitor: monitor, ..q }),
{
}

/// Nothing is apart from itself.
proof fn lemma_not_apart(a: Coord)
    ensures
        !apart(a, a),
{
    crate::laws::coord::a_coordinate_less_itself_is_nothing(a);
}

/// Once the handle stands at its place on a monitor, the same reading leaves it there:
/// the window comes to rest.
pub proof fn docking_comes_to_rest(q: QueueModel, m: Pair)
    ensures
        docked(docked(q, m), m) == docked(q, m),
{
    let place = handle_place(q, m);
    let d = docked(q, m);
    let high = larger(difference(m.y, whole(HANDLE_H as nat)), whole(0));
    whole_is_a_number(0);
    lemma_not_apart(place.x);
    lemma_not_apart(place.y);
    assert(!less(high, whole(0)));
    assert(clamped(place.y, whole(0), high) == place.y);
}

/// A trusted reading leaves the handle within half a point of its place: at the right
/// edge of the monitor, and on it.
pub proof fn docking_puts_the_handle_at_its_place(q: QueueModel, m: Pair)
    ensures
        docked(q, m).screen_h == m.y,
        !apart(handle_place(q, m).x, docked(q, m).handle_x),
        !apart(handle_place(q, m).y, docked(q, m).handle_y),
        docked(q, m).handle_x != q.handle_x || docked(q, m).handle_y != q.handle_y ==> docked(
            q,
            m,
        ).dirty,
{
    lemma_not_apart(handle_place(q, m).x);
    lemma_not_apart(handle_place(q, m).y);
}

/// The handle's place is on the monitor: not above it, and its lower edge not below it
/// unless the monitor is lower than the handle.
pub proof fn the_handle_place_is_on_the_monitor(q: QueueModel, m: Pair)
    requires
        !q.handle_y.is_nan(),
    ensures
        at_most(whole(0), handle_place(q, m).y),
        at_most(
            handle_place(q, m).y,
            larger(difference(m.y, whole(HANDLE_H as nat)), whole(0)),
        ),
{
    whole_is_a_number(0);
}

/// Open or closed, the window's right edge is where the handle's is, if the sums need no
/// rounding.
pub proof fn both_shapes_share_the_right_edge(q: QueueModel, content_h: Coord)
    requires
        exact_sum(q.handle_x, whole(HANDLE_W as nat)),
        exact_sum(
            sum(q.handle_x, whole(HANDLE_W as nat)),
            opposite(wanted_size(q, content_h).x),
        ),
    ensures
        ({
            let size = wanted_size(q, content_h);
            wanted_place(q, size).x.units() + size.x.units() == q.handle_x.units() + HANDLE_W
                * point()
        }),
{
    whole_is_a_number(HANDLE_W as nat);
}

/// Open or closed, below 2^22 points the window's right edge is at most half a point from
/// the handle's, and less if the handle's is below 2^22 points too.
pub proof fn both_shapes_nearly_share_the_right_edge(q: QueueModel, content_h: Coord)
    requires
        q.handle_x.is_finite(),
        -pow2(171) < q.handle_x.units() < pow2(171),
        wanted_size(q, content_h).x.is_finite(),
        0 <= wanted_size(q, content_h).x.units() < pow2(171),
    ensures
        ({
            let size = wanted_size(q, content_h);
            let place = wanted_place(q, size);
            &&& place.x.is_finite()
            &&& 2 * apart_by(
                place.x.units() + size.x.units(),
                q.handle_x.units() + HANDLE_W * point(),
            ) <= point()
            &&& -pow2(171) < q.handle_x.units() + HANDLE_W * point() < pow2(171) ==> 2 * apart_by(
                place.x.units() + size.x.units(),
                q.handle_x.units() + HANDLE_W * point(),
            ) < point()
        }),
{
    let w = wanted_size(q, content_h).x;
    let handle = whole(HANDLE_W as nat);
    whole_is_a_number(HANDLE_W as nat);
    half_a_point_is_half();
    lemma_pow2_unfold(172);
    lemma_pow2_adds(22, 149);
    assert(pow2(22) == 0x40_0000) by {
        vstd::arithmetic::power2::lemma2_to64();
    }
    assert(pow2(171) == 0x40_0000 * point());
    a_sum_is_nearly_exact(q.handle_x, handle, 148);
    if -pow2(171) < q.handle_x.units() + handle.units() < pow2(171) {
        lemma_pow2_unfold(148);
        a_sum_is_nearly_exact(q.handle_x, handle, 147);
    }
    let edge = sum(q.handle_x, handle);
    let o = opposite(w);
    crate::laws::coord::the_opposite_has_the_opposite_value(w);
    a_sum_is_nearly_exact(edge, o, 148);
}

/// Below 2^22 points the window's lower edge is less than half a point below the
/// screen's, if the window is no higher than the screen.
pub proof fn the_window_hardly_leaves_the_screen(q: QueueModel, size: Pair)
    requires
        at_most(whole(0), q.handle_y),
        at_most(whole(0), size.y),
        at_most(size.y, q.screen_h),
        q.screen_h.is_finite(),
        q.screen_h.units() < pow2(171),
    ensures
        at_most(whole(0), wanted_place(q, size).y),
        2 * (wanted_place(q, size).y.units() + size.y.units() - q.screen_h.units()) < point(),
        at_most(wanted_place(q, size).y, q.handle_y),
{
    whole_is_a_number(0);
    half_a_point_is_half();
    lemma_pow2_unfold(148);
    crate::laws::coord::what_is_below_a_finite_one_is_finite(size.y, q.screen_h);
    crate::laws::coord::the_opposite_has_the_opposite_value(size.y);
    a_sum_is_nearly_exact(q.screen_h, opposite(size.y), 147);
}

/// The whole window is on the screen: its lower edge is not below the screen's if it is
/// no higher than the screen, and its upper edge not above it; if the difference of the
/// heights needs no rounding.
pub proof fn the_window_stays_on_the_screen(q: QueueModel, size: Pair)
    requires
        at_most(whole(0), q.handle_y),
        at_most(size.y, q.screen_h),
        exact_sum(q.screen_h, opposite(size.y)),
    ensures
        at_most(whole(0), wanted_place(q, size).y),
        wanted_place(q, size).y.units() + size.y.units() <= q.screen_h.units(),
        at_most(wanted_place(q, size).y, q.handle_y),
{
    whole_is_a_number(0);
}

/// Before the screen's height is known the window opens at the handle's height.
pub proof fn an_unknown_screen_holds_nothing_up(q: QueueModel, size: Pair)
    requires
        q.screen_h == crate::coord::infinity(),
        size.y.is_finite(),
        !q.handle_y.is_nan(),
    ensures
        wanted_place(q, size).y == q.handle_y,
{
    crate::laws::coord::infinity_is_above_all(q.handle_y);
}

/// The open window is between its least and its greatest height.
pub proof fn the_open_window_has_bounds(q: QueueModel, content_h: Coord)
    requires
        q.expanded,
        !content_h.is_nan(),
    ensures
        at_most(whole(MIN_WIN_H as nat), wanted_size(q, content_h).y),
        at_most(wanted_size(q, content_h).y, whole(MAX_WIN_H as nat)),
{
    whole_is_a_number(MIN_WIN_H as nat);
    whole_is_a_number(MAX_WIN_H as nat);
    let u = point();
    assert(MIN_WIN_H as nat * u <= MAX_WIN_H as nat * u) by (nonlinear_arith)
        requires
            MIN_WIN_H == 56,
            MAX_WIN_H == 600,
    ;
}

/// A window: its place and its inner size.
pub struct Frame {
    pub place: Pair,
    pub size: Pair,
}

/// The window after an order.
pub open spec fn obeyed(w: Frame, c: WindowCommand) -> Frame {
    match c {
        WindowCommand::InnerSize(size) => Frame { size, ..w },
        WindowCommand::OuterPosition(place) => Frame { place, ..w },
    }
}

/// The window after the first `n` orders.
pub open spec fn obeyed_all(w: Frame, commands: Seq<WindowCommand>, n: int) -> Frame
    decreases n,
{
    if n <= 0 {
        w
    } else {
        obeyed(obeyed_all(w, commands, n - 1), commands[n - 1])
    }
}

/// The window's right edge, in units.
pub open spec fn right_edge(w: Frame) -> int {
    w.place.x.units() + w.size.x.units()
}

/// On the way from one place and size to another the window never reaches further right
/// than at the start or at the end.
pub proof fn the_way_never_reaches_over_the_right_edge(w: Frame, place: Pair, size: Pair, n: int)
    requires
        !w.size.x.is_nan(),
        !size.x.is_nan(),
        0 <= n <= orders(w.place, w.size, place, size).len(),
    ensures
        ({
            let all = orders(w.place, w.size, place, size);
            let now = right_edge(obeyed_all(w, all, n));
            now <= right_edge(w) || now <= right_edge(obeyed_all(w, all, all.len() as int))
        }),
{
    let all = orders(w.place, w.size, place, size);
    reveal_with_fuel(obeyed_all, 3);
    assert(all.len() <= 2);
}

/// The orders bring the window to within half a point of where and how big it is to be.
pub proof fn the_orders_suffice(w: Frame, place: Pair, size: Pair)
    ensures
        ({
            let all = orders(w.place, w.size, place, size);
            let end = obeyed_all(w, all, all.len() as int);
            &&& !apart(end.size.x, size.x) && !apart(end.size.y, size.y)
            &&& !apart(end.place.x, place.x) && !apart(end.place.y, place.y)
        }),
{
    reveal_with_fuel(obeyed_all, 3);
    lemma_not_apart(size.x);
    lemma_not_apart(size.y);
    lemma_not_apart(place.x);
    lemma_not_apart(place.y);
    let all = orders(w.place, w.size, place, size);
    let a = size_order(w.size, size);
    let b = place_order(w.place, place);
    assert(all == a + b || all == b + a);
    assert(all.len() == a.len() + b.len());
}

/// A window that is where and as big as it is to be gets no orders.
pub proof fn a_window_in_place_is_left_alone(place: Pair, size: Pair)
    ensures
        orders(place, size, place, size).len() == 0,
{
    lemma_not_apart(size.x);
    lemma_not_apart(size.y);
    lemma_not_apart(place.x);
    lemma_not_apart(place.y);
}

/// A finite coordinate below 2^22 points, either way.
pub open spec fn on_a_desk(c: Coord) -> bool {
    c.is_finite() && -pow2(171) < c.units() < pow2(171)
}

/// 36 points and their like are far below 2^22 points.
proof fn lemma_desk(k: nat)
    requires
        k <= 0x1_0000,
    ensures
        on_a_desk(whole(k)),
        whole(k).units() == k * point(),
        whole(0).is_finite(),
        0 <= k * point() < pow2(170),
        pow2(171) == 2 * pow2(170),
        pow2(172) == 2 * pow2(171),
        point() == 8 * pow2(146),
        point() == 4 * pow2(147),
        pow2(146) > 0,
{
    whole_is_a_number(k);
    whole_is_a_number(0);
    half_a_point_is_half();
    lemma_pow2_unfold(148);
    lemma_pow2_unfold(147);
    lemma_pow2_unfold(171);
    lemma_pow2_unfold(172);
    vstd::arithmetic::power2::lemma_pow2_pos(146);
    lemma_pow2_adds(21, 149);
    assert(pow2(21) == 0x20_0000) by {
        vstd::arithmetic::power2::lemma2_to64();
    }
    let u = point();
    assert(0 <= k * u < 0x20_0000 * u) by (nonlinear_arith)
        requires
            k <= 0x1_0000,
            u > 0,
    ;
}

/// A difference of coordinates on a desk: finite, off by at most an eighth of a point if it
/// is below 2^22 points, by at most a quarter in any case, and past no coordinate that the
/// true one is not past.
proof fn lemma_difference(a: Coord, b: Coord, c: Coord)
    requires
        on_a_desk(a),
        on_a_desk(b),
        c.is_finite(),
    ensures
        difference(a, b).is_finite(),
        4 * apart_by(difference(a, b).units(), a.units() - b.units()) <= point(),
        -pow2(171) < a.units() - b.units() < pow2(171) ==> 8 * apart_by(
            difference(a, b).units(),
            a.units() - b.units(),
        ) <= point(),
        a.units() - b.units() <= c.units() ==> difference(a, b).units() <= c.units(),
        a.units() - b.units() >= c.units() ==> difference(a, b).units() >= c.units(),
{
    lemma_desk(0);
    crate::laws::coord::the_opposite_has_the_opposite_value(b);
    a_sum_is_nearly_exact(a, opposite(b), 148);
    if -pow2(171) < a.units() - b.units() < pow2(171) {
        a_sum_is_nearly_exact(a, opposite(b), 147);
    }
    crate::laws::coord::a_sum_passes_no_coordinate(a, opposite(b), c);
    half_a_point_is_half();
}

/// Values at most half a point apart are not told apart, and those further apart by the least
/// step are; values less than half a point apart, by the least step, are near, and no others.
pub proof fn what_is_apart_and_what_is_near(a: Coord, b: Coord)
    requires
        a.is_finite(),
        b.is_finite(),
    ensures
        apart_by(a.units(), b.units()) <= pow2(148) ==> !apart(a, b),
        apart_by(a.units(), b.units()) >= pow2(148) + pow2(125) ==> apart(a, b),
        apart_by(a.units(), b.units()) >= pow2(148) ==> !near(a, b),
        apart_by(a.units(), b.units()) <= pow2(148) - pow2(124) ==> near(a, b),
{
    crate::laws::coord::half_a_point_tells_apart(a, b);
    if apart_by(a.units(), b.units()) <= pow2(148) {
        crate::laws::coord::what_is_near_is_not_apart(a, b);
    }
}

/// On a trusted monitor the handle's right edge is the monitor's, if the difference needs
/// no rounding.
pub proof fn the_handle_docks_at_the_right_edge(q: QueueModel, m: Pair)
    requires
        exact_sum(m.x, opposite(whole(HANDLE_W as nat))),
    ensures
        handle_place(q, m).x.is_finite(),
        handle_place(q, m).x.units() + HANDLE_W * point() == m.x.units(),
{
    whole_is_a_number(HANDLE_W as nat);
    crate::laws::coord::the_opposite_has_the_opposite_value(whole(HANDLE_W as nat));
}

/// On a trusted monitor of less than 2^22 points the handle's right edge is within an eighth
/// of a point of the monitor's.
pub proof fn the_handle_docks_close_to_the_right_edge(q: QueueModel, m: Pair)
    requires
        m.x.is_finite(),
        0 <= m.x.units() < pow2(171),
    ensures
        handle_place(q, m).x.is_finite(),
        8 * apart_by(handle_place(q, m).x.units() + HANDLE_W * point(), m.x.units()) <= point(),
{
    lemma_desk(HANDLE_W as nat);
    lemma_difference(m.x, whole(HANDLE_W as nat), whole(0));
}

/// The handle's height on a monitor: kept where the handle is wholly on it; at the upper
/// edge where it was above; at the lower edge, to within an eighth of a point, where it
/// reached below; and at the upper edge of a monitor that is lower than the handle.
pub proof fn the_handle_keeps_its_height_on_the_monitor(q: QueueModel, m: Pair)
    requires
        !q.handle_y.is_nan(),
        m.y.is_finite(),
        0 <= m.y.units() < pow2(171),
    ensures
        ({
            let y = q.handle_y.units();
            let low = y + HANDLE_H * point();
            let place = handle_place(q, m).y;
            &&& place.is_finite()
            &&& 0 <= y && low <= m.y.units() ==> place == q.handle_y
            &&& y < 0 ==> place.units() == 0
            &&& 0 <= y && low > m.y.units() && m.y.units() >= HANDLE_H * point() ==> 8 * apart_by(
                place.units() + HANDLE_H * point(),
                m.y.units(),
            ) <= point()
            &&& m.y.units() < HANDLE_H * point() ==> place.units() == 0
        }),
{
    let h = whole(HANDLE_H as nat);
    lemma_desk(HANDLE_H as nat);
    lemma_desk(0);
    assert(0 * point() == 0) by (nonlinear_arith);
    lemma_difference(m.y, h, whole(0));
    if q.handle_y.is_finite() {
        lemma_difference(m.y, h, q.handle_y);
    } else {
        lemma_infinite(q.handle_y, difference(m.y, h));
        lemma_infinite(q.handle_y, m.y);
        lemma_infinite(q.handle_y, whole(0));
    }
}

/// What is infinite is beyond all that is finite.
proof fn lemma_infinite(a: Coord, b: Coord)
    requires
        a.is_infinite(),
        b.is_finite(),
    ensures
        a.is_negative() ==> a.units() < b.units(),
        !a.is_negative() ==> a.units() > b.units(),
{
    crate::rounding::lemma_mag_order(b.mag(), a.mag());
    crate::rounding::lemma_mag_order(0, b.mag());
}

/// A reading that can be trusted (the board is closed, the window has the handle's size, and
/// the frame before gave the same) is taken for the screen's height, and puts the handle's
/// right edge at the monitor's.  A handle that is a point or more off is moved there, to
/// within an eighth of a point; one that is off by less than three quarters may stay, and
/// one that is in its place does.
pub proof fn a_trusted_reading_docks_the_handle(q: QueueModel, inner: Pair, m: Pair, last: Pair)
    requires
        !q.expanded,
        near(inner.x, whole(HANDLE_W as nat)),
        near(inner.y, whole(HANDLE_H as nat)),
        q.last_monitor == Some(last),
        same(m.x, last.x),
        same(m.y, last.y),
        on_a_desk(m.x),
        on_a_desk(m.y),
        m.x.units() >= 0,
        m.y.units() >= 0,
        !q.handle_x.is_nan(),
        !q.handle_y.is_nan(),
    ensures
        ({
            let r = measured(q, inner, Some(m));
            let was = q.handle_x.units() + HANDLE_W * point();
            let now = r.handle_x.units() + HANDLE_W * point();
            let low = q.handle_y.units() + HANDLE_H * point();
            &&& r.screen_h == m.y
            &&& r.last_monitor == Some(m)
            &&& r.handle_x.is_finite()
            &&& 4 * apart_by(now, m.x.units()) < 3 * point()
            &&& apart_by(was, m.x.units()) >= point() ==> 8 * apart_by(now, m.x.units())
                <= point() && r.dirty
            &&& 4 * apart_by(was, m.x.units()) <= point() && 0 <= q.handle_y.units() && low
                <= m.y.units() ==> r.handle_x == q.handle_x && r.handle_y == q.handle_y && r.dirty
                == q.dirty
        }),
{
    let place = handle_place(q, m);
    let w = whole(HANDLE_W as nat);
    lemma_desk(HANDLE_W as nat);
    half_a_point_is_half();
    lemma_difference(m.x, w, whole(0));
    the_handle_docks_close_to_the_right_edge(q, m);
    the_handle_keeps_its_height_on_the_monitor(q, m);
    lemma_not_apart(place.x);
    lemma_not_apart(place.y);
    vstd::arithmetic::power2::lemma_pow2_strictly_increases(125, 146);
    // The place is no further left than the handle's width beyond the monitor's left edge.
    assert(on_a_desk(place.x));
    let off = apart_by(place.x.units(), q.handle_x.units());
    if q.handle_x.is_finite() {
        crate::laws::coord::half_a_point_tells_apart(place.x, q.handle_x);
        if off <= pow2(148) {
            crate::laws::coord::what_is_near_is_not_apart(place.x, q.handle_x);
        }
    } else {
        lemma_infinite_is_apart(place.x, q.handle_x);
        // It is further off than 2^23 points, either way.
        let far = whole(0x80_0000);
        whole_is_a_number(0x80_0000);
        crate::laws::coord::the_opposite_has_the_opposite_value(far);
        lemma_pow2_adds(23, 149);
        assert(pow2(23) == 0x80_0000) by {
            vstd::arithmetic::power2::lemma2_to64();
        }
        lemma_infinite(q.handle_x, far);
        lemma_infinite(q.handle_x, opposite(far));
    }
}

/// What is infinite is apart from all that is finite.
proof fn lemma_infinite_is_apart(a: Coord, b: Coord)
    requires
        a.is_finite(),
        b.is_infinite(),
    ensures
        apart(a, b),
{
    half_a_point_is_half();
    let d = difference(a, b);
    assert(d.is_infinite());
    assert(crate::coord::distance(d).is_infinite());
    lemma_infinite(crate::coord::distance(d), crate::coord::half());
}

/// The height of the handle after a trusted reading: within less than three quarters of a
/// point on the monitor, and where it was if it was on it.
pub proof fn a_trusted_reading_keeps_the_handle_on_the_monitor(
    q: QueueModel,
    inner: Pair,
    m: Pair,
    last: Pair,
)
    requires
        !q.expanded,
        near(inner.x, whole(HANDLE_W as nat)),
        near(inner.y, whole(HANDLE_H as nat)),
        q.last_monitor == Some(last),
        same(m.x, last.x),
        same(m.y, last.y),
        on_a_desk(m.y),
        m.y.units() >= HANDLE_H * point(),
        !q.handle_y.is_nan(),
    ensures
        ({
            let r = measured(q, inner, Some(m));
            let y = r.handle_y.units();
            let low = y + HANDLE_H * point();
            &&& r.handle_y.is_finite()
            &&& -3 * point() < 4 * y
            &&& 4 * (low - m.y.units()) < 3 * point()
            &&& 0 <= q.handle_y.units() && q.handle_y.units() + HANDLE_H * point() <= m.y.units()
                ==> r.handle_y == q.handle_y
        }),
{
    let place = handle_place(q, m);
    lemma_desk(HANDLE_H as nat);
    lemma_desk(0);
    assert(0 * point() == 0) by (nonlinear_arith);
    half_a_point_is_half();
    the_handle_keeps_its_height_on_the_monitor(q, m);
    lemma_not_apart(place.y);
    vstd::arithmetic::power2::lemma_pow2_strictly_increases(125, 146);
    if q.handle_y.is_finite() {
        crate::laws::coord::half_a_point_tells_apart(place.y, q.handle_y);
    } else {
        lemma_infinite_is_apart(place.y, q.handle_y);
    }
}

/// A report of the window system touches only the handle, the screen's height, the last
/// reading and the mark for saving.
pub proof fn a_report_leaves_the_rest_alone(q: QueueModel, inner: Pair, monitor: Option<Pair>)
    ensures
        ({
            let r = measured(q, inner, monitor);
            &&& r.tasks == q.tasks
            &&& r.next_id == q.next_id
            &&& r.input == q.input
            &&& r.drag == q.drag
            &&& r.expanded == q.expanded
            &&& r.width == q.width
            &&& r.grab_dy == q.grab_dy
            &&& r.saw_focus == q.saw_focus
            &&& r.focus_input == q.focus_input
            &&& r.watching == q.watching
            &&& r.autostart == q.autostart
            &&& r.last_monitor == monitor
            &&& r.dirty && !q.dirty ==> r.handle_x != q.handle_x || r.handle_y != q.handle_y
        }),
{
    if let Some(m) = monitor {
        lemma_not_apart(handle_place(q, m).x);
        lemma_not_apart(handle_place(q, m).y);
    }
}

/// The size of the window: closed, the handle's; open, as wide as the board, and as high as
/// its content, from 56 to 600 points.
pub proof fn the_window_fits_its_content(q: QueueModel, content_h: Coord)
    requires
        !content_h.is_nan(),
    ensures
        ({
            let size = wanted_size(q, content_h);
            let h = content_h.units();
            &&& !q.expanded ==> {
                &&& size.x.is_finite() && size.x.units() == 36 * point()
                &&& size.y.is_finite() && size.y.units() == 36 * point()
            }
            &&& q.expanded ==> {
                &&& size.x == q.width
                &&& 56 * point() <= h <= 600 * point() ==> size.y == content_h
                &&& h < 56 * point() ==> size.y.is_finite() && size.y.units() == 56 * point()
                &&& h > 600 * point() ==> size.y.is_finite() && size.y.units() == 600 * point()
            }
        }),
{
    lemma_desk(36);
    lemma_desk(56);
    lemma_desk(600);
}

/// The window's height on the screen: the handle's, where the window then ends on the screen;
/// else raised until its lower edge is the screen's, to within an eighth of a point; and at
/// the upper edge of a screen that is lower than the window.  A handle above the screen is
/// followed there.
pub proof fn the_window_rises_only_as_far_as_it_must(q: QueueModel, size: Pair)
    requires
        on_a_desk(q.handle_y),
        on_a_desk(size.y),
        on_a_desk(q.screen_h),
        0 <= size.y.units(),
        0 <= q.screen_h.units(),
    ensures
        ({
            let low = q.handle_y.units() + size.y.units();
            let place = wanted_place(q, size).y;
            &&& low <= q.screen_h.units() ==> place == q.handle_y
            &&& low > q.screen_h.units() && size.y.units() <= q.screen_h.units() ==> 8 * apart_by(
                place.units() + size.y.units(),
                q.screen_h.units(),
            ) <= point()
            &&& size.y.units() > q.screen_h.units() && q.handle_y.units() >= 0 ==> place.units()
                == 0
            &&& q.handle_y.units() < 0 ==> place == q.handle_y
        }),
{
    lemma_desk(0);
    assert(0 * point() == 0) by (nonlinear_arith);
    lemma_difference(q.screen_h, size.y, whole(0));
    lemma_difference(q.screen_h, size.y, q.handle_y);
}

/// The window is ordered to its size exactly if one side is more than half a point off, and
/// to its place likewise; each at most once, and nothing else is ordered.
pub proof fn what_is_ordered(outer: Pair, inner: Pair, place: Pair, size: Pair)
    ensures
        ({
            let all = orders(outer, inner, place, size);
            let resize = apart(inner.x, size.x) || apart(inner.y, size.y);
            let reposition = apart(outer.x, place.x) || apart(outer.y, place.y);
            &&& all.contains(WindowCommand::InnerSize(size)) <==> resize
            &&& all.contains(WindowCommand::OuterPosition(place)) <==> reposition
            &&& all.len() == (if resize {
                1int
            } else {
                0
            }) + (if reposition {
                1int
            } else {
                0
            })
            &&& forall|i: int|
                0 <= i < all.len() ==> #[trigger] all[i] == WindowCommand::InnerSize(size)
                    || all[i] == WindowCommand::OuterPosition(place)
        }),
{
    let all = orders(outer, inner, place, size);
    let a = size_order(inner, size);
    let b = place_order(outer, place);
    assert(all == a + b || all == b + a);
    if apart(inner.x, size.x) || apart(inner.y, size.y) {
        assert(a[0] == WindowCommand::InnerSize(size));
        assert(all[0] == a[0] || all[b.len() as int] == a[0]);
    }
    if apart(outer.x, place.x) || apart(outer.y, place.y) {
        assert(b[0] == WindowCommand::OuterPosition(place));
        assert(all[0] == b[0] || all[a.len() as int] == b[0]);
    }
}

/// What the window shows: closed, the handle; open, the board, but for a window that is
/// still more than a point narrower than the board.
pub proof fn what_the_window_shows(q: QueueModel, w: Coord)
    requires
        on_a_desk(q.width),
        w.is_finite(),
    ensures
        !q.expanded ==> shape_of(q, Some(w)) == Shape::Handle && shape_of(q, None) == Shape::Handle,
        q.expanded ==> shape_of(q, None) == Shape::Panel,
        q.expanded && w.units() + point() >= q.width.units() ==> shape_of(q, Some(w))
            == Shape::Panel,
        q.expanded && w.units() + point() < q.width.units() && exact_sum(
            q.width,
            opposite(whole(1)),
        ) ==> shape_of(q, Some(w)) == Shape::Opening,
        q.expanded && 4 * w.units() + 5 * point() < 4 * q.width.units() ==> shape_of(q, Some(w))
            == Shape::Opening,
{
    lemma_desk(1);
    lemma_difference(q.width, whole(1), w);
    crate::laws::coord::the_opposite_has_the_opposite_value(whole(1));
}

/// A kept coordinate can be one of the screen exactly if it is a number from 0 up to, but not
/// including, 32000 points.
pub proof fn what_can_be_on_a_screen(c: Coord)
    ensures
        sane(c) <==> c.is_finite() && 0 <= c.units() < 32_000 * point(),
{
    lemma_desk(0);
    lemma_desk(32_000);
    assert(0 * point() == 0) by (nonlinear_arith);
}

} // verus!
