use desktop_task_queue::coord::Coord;
use desktop_task_queue::geometry::{
    content_height, counter_place, input_width, panel_height, row_height, row_shown, start_place,
    wrap_width, Shape, Viewport, WindowCommand,
};
use desktop_task_queue::model::Pair;
use desktop_task_queue::paint::{counter_highlight, fade, row_highlight, Shade};
use desktop_task_queue::queue::TaskQueue;
use desktop_task_queue::storage::{AppState, WindowState};

fn c(v: f32) -> Coord {
    Coord::from_bits(v.to_bits())
}

fn f(c: Coord) -> f32 {
    f32::from_bits(c.bits)
}

fn pair(x: f32, y: f32) -> Pair {
    Pair { x: c(x), y: c(y) }
}

fn queue(x: f32, y: f32) -> TaskQueue {
    TaskQueue::new(
        AppState { tasks: vec![], window: Some(WindowState { x: c(x), y: c(y), width: c(320.0) }) },
        false,
    )
}

fn view(outer: (f32, f32), inner: (f32, f32), monitor: Option<(f32, f32)>) -> Viewport {
    Viewport {
        outer: Some(pair(outer.0, outer.1)),
        inner: Some(pair(inner.0, inner.1)),
        monitor: monitor.map(|(x, y)| pair(x, y)),
    }
}

/// Orders as text, such as `size 36 36`.
fn orders(commands: Vec<WindowCommand>) -> Vec<String> {
    commands
        .into_iter()
        .map(|c| match c {
            WindowCommand::InnerSize(p) => format!("size {} {}", f(p.x), f(p.y)),
            WindowCommand::OuterPosition(p) => format!("place {} {}", f(p.x), f(p.y)),
        })
        .collect()
}

const MONITOR: Option<(f32, f32)> = Some((1920.0, 1080.0));

#[test]
fn two_equal_readings_dock_the_handle() {
    let mut q = queue(100.0, 200.0);
    let v = view((100.0, 200.0), (36.0, 36.0), MONITOR);
    assert_eq!(orders(q.apply_geometry(v, c(36.0))), Vec::<String>::new());
    assert_eq!(f(q.handle_x), 100.0);
    assert_eq!(f(q.screen_h), f32::INFINITY);
    assert_eq!(orders(q.apply_geometry(v, c(36.0))), vec!["place 1884 200"]);
    assert_eq!((f(q.handle_x), f(q.handle_y)), (1884.0, 200.0));
    assert_eq!(f(q.screen_h), 1080.0);
    assert!(q.dirty);
}

#[test]
fn a_docked_handle_is_left_alone() {
    let mut q = queue(1884.0, 200.0);
    let v = view((1884.0, 200.0), (36.0, 36.0), MONITOR);
    for _ in 0..5 {
        assert!(q.apply_geometry(v, c(36.0)).is_empty());
    }
    assert!(!q.dirty);
    assert_eq!(f(q.screen_h), 1080.0);
}

#[test]
fn a_single_odd_reading_is_not_trusted() {
    let mut q = queue(1884.0, 200.0);
    for m in [1920.0, 1280.0, 1920.0, 1706.7] {
        q.apply_geometry(view((1884.0, 200.0), (36.0, 36.0), Some((m, 1080.0))), c(36.0));
        assert_eq!(f(q.handle_x), 1884.0);
    }
    q.apply_geometry(view((1884.0, 200.0), (36.0, 36.0), None), c(36.0));
    assert!(q.last_monitor.is_none());
    assert_eq!(f(q.screen_h), f32::INFINITY);
}

#[test]
fn an_open_or_resizing_window_trusts_no_reading() {
    let mut q = queue(100.0, 200.0);
    q.expand();
    let open = view((100.0, 200.0), (36.0, 36.0), MONITOR);
    q.apply_geometry(open, c(300.0));
    q.apply_geometry(open, c(300.0));
    assert_eq!(f(q.handle_x), 100.0);
    q.collapse();
    let wide = view((100.0, 200.0), (320.0, 300.0), MONITOR);
    q.apply_geometry(wide, c(36.0));
    q.apply_geometry(wide, c(36.0));
    assert_eq!(f(q.handle_x), 100.0);
    let half_off = view((100.0, 200.0), (36.5, 36.0), MONITOR);
    q.apply_geometry(half_off, c(36.0));
    assert_eq!(f(q.handle_x), 100.0);
}

#[test]
fn a_reading_that_is_no_number_is_not_trusted() {
    let mut q = queue(100.0, 200.0);
    let v = view((100.0, 200.0), (36.0, 36.0), Some((f32::NAN, 1080.0)));
    q.apply_geometry(v, c(36.0));
    q.apply_geometry(v, c(36.0));
    assert_eq!(f(q.handle_x), 100.0);
}

#[test]
fn without_a_window_nothing_happens() {
    let mut q = queue(100.0, 200.0);
    let v = Viewport { outer: None, ..view((0.0, 0.0), (36.0, 36.0), MONITOR) };
    assert!(q.apply_geometry(v, c(36.0)).is_empty());
    assert!(q.last_monitor.is_none());
    let v = Viewport { inner: None, ..view((0.0, 0.0), (36.0, 36.0), MONITOR) };
    assert!(q.apply_geometry(v, c(36.0)).is_empty());
    assert!(q.last_monitor.is_none());
}

#[test]
fn the_handle_is_kept_on_the_monitor() {
    let mut q = queue(1884.0, 2000.0);
    let v = view((1884.0, 2000.0), (36.0, 36.0), MONITOR);
    q.apply_geometry(v, c(36.0));
    q.apply_geometry(v, c(36.0));
    assert_eq!(f(q.handle_y), 1044.0);
    // On a monitor lower than the handle it stands at the top.
    let mut q = queue(1884.0, 50.0);
    let v = view((1884.0, 50.0), (36.0, 36.0), Some((1920.0, 20.0)));
    q.apply_geometry(v, c(36.0));
    q.apply_geometry(v, c(36.0));
    assert_eq!(f(q.handle_y), 0.0);
}

#[test]
fn a_widening_window_moves_first() {
    let mut q = queue(1884.0, 200.0);
    q.expand();
    let v = view((1884.0, 200.0), (36.0, 36.0), MONITOR);
    assert_eq!(orders(q.apply_geometry(v, c(300.0))), vec!["place 1600 200", "size 320 300"]);
}

#[test]
fn a_narrowing_window_shrinks_first() {
    let mut q = queue(1884.0, 200.0);
    let v = view((1600.0, 200.0), (320.0, 300.0), MONITOR);
    assert_eq!(orders(q.apply_geometry(v, c(36.0))), vec!["size 36 36", "place 1884 200"]);
}

#[test]
fn half_a_point_is_let_be() {
    let mut q = queue(1884.0, 200.0);
    q.expand();
    assert!(q.apply_geometry(view((1600.5, 199.5), (320.5, 299.5), MONITOR), c(300.0)).is_empty());
    assert_eq!(
        orders(q.apply_geometry(view((1600.75, 200.0), (320.0, 300.0), MONITOR), c(300.0))),
        vec!["place 1600 200"]
    );
    assert_eq!(
        orders(q.apply_geometry(view((1600.0, 200.0), (320.0, 301.0), MONITOR), c(300.0))),
        vec!["size 320 300"]
    );
}

#[test]
fn the_open_window_has_bounds_and_stays_on_the_screen() {
    let mut q = queue(1884.0, 900.0);
    let v = view((1884.0, 900.0), (36.0, 36.0), MONITOR);
    q.apply_geometry(v, c(36.0));
    q.apply_geometry(v, c(36.0));
    q.expand();
    assert_eq!(orders(q.apply_geometry(v, c(5000.0))), vec!["place 1600 480", "size 320 600"]);
    assert_eq!(orders(q.apply_geometry(v, c(10.0))), vec!["place 1600 900", "size 320 56"]);
    // The handle itself stays where it was.
    assert_eq!(f(q.handle_y), 900.0);
}

#[test]
fn before_the_screen_is_known_nothing_holds_the_window_up() {
    let mut q = queue(1884.0, 5000.0);
    q.expand();
    let v = view((1884.0, 5000.0), (36.0, 36.0), None);
    assert_eq!(orders(q.apply_geometry(v, c(300.0))), vec!["place 1600 5000", "size 320 300"]);
}

#[test]
fn what_the_window_shows() {
    let mut q = queue(0.0, 0.0);
    assert_eq!(q.shape(Some(c(320.0))), Shape::Handle);
    q.expand();
    assert_eq!(q.shape(Some(c(318.9))), Shape::Opening);
    assert_eq!(q.shape(Some(c(319.0))), Shape::Panel);
    assert_eq!(q.shape(None), Shape::Panel);
}

#[test]
fn heights_and_widths() {
    assert_eq!(f(content_height(Shape::Handle, c(1.0))), 36.0);
    assert_eq!(f(content_height(Shape::Opening, c(1.0))), 56.0);
    assert_eq!(f(content_height(Shape::Panel, c(100.0))), 112.0);
    assert_eq!(f(panel_height(c(6.0), c(40.0), c(120.0))), 154.0);
    assert_eq!(f(panel_height(c(6.0), c(40.0), c(1200.0))), 534.0);
    assert_eq!(f(row_height(c(18.0), c(1.0))), 30.0);
    assert_eq!(f(row_height(c(10.0), c(0.5))), 13.0);
    assert_eq!(f(row_height(c(18.0), c(0.0))), 0.0);
    assert!(row_shown(c(0.5)) && !row_shown(c(0.4)));
    assert_eq!(f(wrap_width(c(300.0))), 276.0);
    assert_eq!(f(wrap_width(c(30.0))), 40.0);
    assert_eq!(f(input_width(c(300.0))), 258.0);
    assert_eq!(f(input_width(c(50.0))), 40.0);
    let p = counter_place(c(310.0), c(6.0));
    assert_eq!((f(p.x), f(p.y)), (274.0, 4.0));
}

const GRAY: Shade = Shade { r: 214, g: 150, b: 52, a: 255 };

#[test]
fn opacity_of_a_fade() {
    let opacity = |t: f32| fade(GRAY, c(t)).a;
    assert_eq!(opacity(1.0), 255);
    assert_eq!(opacity(0.5), 127);
    assert_eq!(opacity(0.0), 0);
    assert_eq!(opacity(-3.0), 0);
    assert_eq!(opacity(7.0), 255);
    for i in 0..1000 {
        let a = i as f32 / 777.0;
        assert_eq!(opacity(a), (a.clamp(0.0, 1.0) * 255.0) as u8);
    }
}

#[test]
fn a_fade_is_a_colour_of_the_painter() {
    assert_eq!(fade(GRAY, c(1.0)), GRAY);
    assert_eq!(fade(GRAY, c(0.5)), Shade { r: 107, g: 75, b: 26, a: 127 });
    assert_eq!(fade(GRAY, c(0.0)), Shade { r: 0, g: 0, b: 0, a: 0 });
    for v in 0..=255u8 {
        for step in 0..=255u8 {
            let t = step as f32 / 255.0;
            let a = (t.clamp(0.0, 1.0) * 255.0) as u8;
            let s = fade(Shade { r: v, g: 255 - v, b: v / 2, a: 255 }, c(t));
            let drawn = egui::Color32::from_rgba_unmultiplied(v, 255 - v, v / 2, a);
            assert_eq!(egui::Color32::from_rgba_premultiplied(s.r, s.g, s.b, s.a), drawn);
            // Each channel is the nearest whole number.
            let exact = v as u32 * a as u32;
            assert!((s.r as u32 * 255).abs_diff(exact) * 2 <= 255);
        }
    }
}

#[test]
fn what_lights_up_under_the_pointer() {
    let white = |a| Some(Shade { r: a, g: a, b: a, a });
    assert_eq!(row_highlight(false, false), None);
    assert_eq!(row_highlight(false, true), white(10));
    assert_eq!(row_highlight(true, false), white(18));
    assert_eq!(row_highlight(true, true), white(18));
    assert_eq!(counter_highlight(true), white(12));
    assert_eq!(counter_highlight(false), None);
}

#[test]
fn a_kept_position_must_be_sane() {
    let at = |x: f32, y: f32| start_place(Some(WindowState { x: c(x), y: c(y), width: c(320.0) }));
    let p = at(1884.0, 0.0).unwrap();
    assert_eq!((f(p.x), f(p.y)), (1884.0, 0.0));
    assert!(at(31_999.9, 5.0).is_some());
    assert!(at(32_000.0, 5.0).is_none());
    assert!(at(-1.0, 5.0).is_none());
    assert!(at(5.0, f32::NAN).is_none());
    assert!(at(5.0, f32::INFINITY).is_none());
    assert!(start_place(None).is_none());
}

#[test]
fn both_shapes_share_the_right_edge() {
    for x in [0.0f32, 1884.0, 1670.5, 3804.0] {
        let mut q = queue(x, 100.0);
        let closed = q.apply_geometry(view((-5.0, 0.0), (500.0, 500.0), None), c(36.0));
        q.expand();
        let open = q.apply_geometry(view((-5.0, 0.0), (1.0, 1.0), None), c(300.0));
        for commands in [closed, open] {
            let mut right = 0.0;
            for command in commands {
                match command {
                    WindowCommand::InnerSize(p) => right += f(p.x),
                    WindowCommand::OuterPosition(p) => right += f(p.x),
                }
            }
            assert_eq!(right, x + 36.0);
        }
    }
}

#[test]
fn the_way_never_reaches_over_the_right_edge() {
    for (outer, inner, expanded) in
        [((1884.0, 200.0), (36.0, 36.0), true), ((1600.0, 200.0), (320.0, 300.0), false)]
    {
        let mut q = queue(1884.0, 200.0);
        if expanded {
            q.expand();
        }
        let (mut left, mut width) = (outer.0, inner.0);
        for command in q.apply_geometry(view(outer, inner, MONITOR), c(300.0)) {
            match command {
                WindowCommand::InnerSize(p) => width = f(p.x),
                WindowCommand::OuterPosition(p) => left = f(p.x),
            }
            assert!(left + width <= 1920.0);
        }
        assert_eq!(left + width, 1920.0);
    }
}

#[test]
fn both_shapes_nearly_share_the_right_edge() {
    for (x, width) in [(1670.6667f32, 320.3333f32), (0.1, 333.3), (4_000_000.3, 320.7)] {
        let kept = WindowState { x: c(x), y: c(100.0), width: c(width) };
        let mut q = TaskQueue::new(AppState { tasks: vec![], window: Some(kept) }, false);
        let closed = q.apply_geometry(view((-5.0, 0.0), (500.0, 500.0), None), c(36.0));
        q.expand();
        let open = q.apply_geometry(view((-5.0, 0.0), (1.0, 1.0), None), c(300.0));
        for commands in [closed, open] {
            let mut right = 0.0;
            for command in commands {
                match command {
                    WindowCommand::InnerSize(p) => right += f(p.x) as f64,
                    WindowCommand::OuterPosition(p) => right += f(p.x) as f64,
                }
            }
            assert!((right - (x as f64 + 36.0)).abs() <= 0.5);
        }
    }
}

#[test]
fn the_window_hardly_leaves_the_screen() {
    for (height, content) in [(853.3333f32, 300.1f32), (1066.6667, 599.9), (600.1, 600.0)] {
        let mut q = queue(1884.0, 840.0);
        let v = view((1884.0, 840.0), (36.0, 36.0), Some((1920.0, height)));
        q.apply_geometry(v, c(36.0));
        q.apply_geometry(v, c(36.0));
        q.expand();
        let (mut top, mut size) = (0.0, 0.0);
        for command in q.apply_geometry(v, c(content)) {
            match command {
                WindowCommand::InnerSize(p) => size = f(p.y) as f64,
                WindowCommand::OuterPosition(p) => top = f(p.y) as f64,
            }
        }
        assert!(top >= 0.0 && size > 0.0);
        assert!(top + size - (height as f64) < 0.5);
    }
}
