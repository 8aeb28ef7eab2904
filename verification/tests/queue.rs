use desktop_task_queue::coord::Coord;
use desktop_task_queue::model::{HandleReply, PanelReply, RowReply};
use desktop_task_queue::queue::{Autosave, TaskQueue, SAVE_DELAY_NANOS};
use desktop_task_queue::storage::{AppState, StoredTask, WindowState};

fn c(v: f32) -> Coord {
    Coord::from_bits(v.to_bits())
}

fn f(c: Coord) -> f32 {
    f32::from_bits(c.bits)
}

fn state(tasks: &[(u64, &str)]) -> AppState {
    AppState {
        tasks: tasks
            .iter()
            .map(|(id, text)| StoredTask { id: *id, text: text.to_string() })
            .collect(),
        window: None,
    }
}

fn queue(tasks: &[(u64, &str)]) -> TaskQueue {
    TaskQueue::new(state(tasks), false)
}

fn ids(q: &TaskQueue) -> Vec<u64> {
    q.tasks.iter().map(|t| t.id).collect()
}

fn texts(s: &AppState) -> Vec<(u64, String)> {
    s.tasks.iter().map(|t| (t.id, t.text.clone())).collect()
}

const PLAIN: PanelReply =
    PanelReply { want_autostart: false, autostart_written: false, entered: false, collapse: false };

/// Rows of 26 points each, from the top down, with nothing happening in them.
fn rows(n: usize) -> Vec<RowReply> {
    (0..n)
        .map(|i| RowReply {
            fade: c(1.0),
            height: c(26.0),
            center: c(26.0 * i as f32 + 13.0),
            clicked: false,
            drag_started: false,
        })
        .collect()
}

#[test]
fn starts_closed_with_the_kept_tasks() {
    let q = queue(&[(7, "a"), (3, "b")]);
    assert_eq!(ids(&q), vec![7, 3]);
    assert_eq!(q.next_id, 8);
    assert!(q.tasks.iter().all(|t| !t.done));
    assert!(!q.expanded && !q.dirty && !q.saw_focus && !q.focus_input && !q.watching);
    assert_eq!(q.drag, None);
    assert_eq!(q.input, "");
    assert_eq!(f(q.screen_h), f32::INFINITY);
    assert_eq!((f(q.handle_x), f(q.handle_y), f(q.width)), (0.0, 200.0, 320.0));
    assert!(q.last_monitor.is_none());
    assert_eq!(f(q.grab_dy), 0.0);
}

#[test]
fn first_task_ever_gets_id_one() {
    let q = queue(&[]);
    assert_eq!(q.next_id, 1);
    assert_eq!(q.pending(), 0);
}

#[test]
fn next_id_after_a_task_with_id_zero() {
    assert_eq!(queue(&[(0, "a")]).next_id, 1);
    assert_eq!(queue(&[(u64::MAX - 1, "a"), (5, "b")]).next_id, u64::MAX);
}

#[test]
fn kept_window_is_taken_over() {
    let mut s = state(&[]);
    s.window = Some(WindowState { x: c(1500.0), y: c(-20.0), width: c(400.0) });
    let q = TaskQueue::new(s, true);
    assert_eq!((f(q.handle_x), f(q.handle_y), f(q.width)), (1500.0, 0.0, 400.0));
    assert!(q.autostart);
}

#[test]
fn enter_adds_a_trimmed_task_at_the_end() {
    let mut q = queue(&[(4, "a")]);
    q.input = " \t buy milk \n".to_string();
    assert!(q.panel(PanelReply { entered: true, ..PLAIN }));
    assert_eq!(ids(&q), vec![4, 5]);
    assert_eq!(q.tasks[1].text, "buy milk");
    assert!(!q.tasks[1].done);
    assert!(q.dirty);
    assert_eq!(q.input, "");
    assert_eq!(q.next_id, 6);
    assert_eq!(q.pending(), 2);
}

#[test]
fn blank_input_adds_nothing() {
    let mut q = queue(&[(4, "a")]);
    q.input = " \u{3000}\t".to_string();
    assert!(q.panel(PanelReply { entered: true, ..PLAIN }));
    assert_eq!(ids(&q), vec![4]);
    assert!(!q.dirty);
    assert_eq!(q.input, "");
    assert_eq!(q.next_id, 5);
}

#[test]
fn white_space_is_the_same_for_every_character() {
    // One queue, one character at a time: a task appears exactly if the character is no
    // white space.
    let mut q = queue(&[]);
    let mut n = 0;
    for ch in '\0'..=char::MAX {
        q.input.push(ch);
        q.submit();
        if !ch.is_whitespace() {
            n += 1;
            assert_eq!(q.tasks.last().unwrap().text, ch.to_string());
        }
        assert_eq!(q.tasks.len(), n, "{:?}", ch);
    }
}

#[test]
fn inner_white_space_stays() {
    let mut q = queue(&[]);
    q.input = "  a  b  ".to_string();
    q.submit();
    assert_eq!(q.tasks[0].text, "a  b");
}

#[test]
fn the_input_line_gets_the_focus_once() {
    let mut q = queue(&[]);
    q.expand();
    assert!(q.expanded && q.focus_input && !q.saw_focus);
    assert!(q.panel(PLAIN));
    assert!(!q.focus_input);
    assert!(!q.panel(PLAIN));
}

#[test]
fn autostart_follows_only_the_registry() {
    let mut q = queue(&[]);
    assert!(q.autostart_differs(true));
    q.panel(PanelReply { want_autostart: true, autostart_written: false, ..PLAIN });
    assert!(!q.autostart);
    q.panel(PanelReply { want_autostart: true, autostart_written: true, ..PLAIN });
    assert!(q.autostart);
    assert!(!q.autostart_differs(true));
    q.panel(PanelReply { want_autostart: false, autostart_written: true, ..PLAIN });
    assert!(!q.autostart);
}

#[test]
fn clicking_the_counter_closes_the_board() {
    let mut q = queue(&[(1, "a")]);
    q.expand();
    q.drag = Some(1);
    q.saw_focus = true;
    q.panel(PanelReply { collapse: true, ..PLAIN });
    assert!(!q.expanded && !q.saw_focus);
    assert_eq!(q.drag, None);
}

#[test]
fn a_click_finishes_a_task_and_names_it_for_the_record() {
    let mut q = queue(&[(1, "a"), (2, "b"), (3, "c")]);
    let mut r = rows(3);
    r[1].clicked = true;
    assert_eq!(q.rows(&r, None, false), Some("b".to_string()));
    assert!(q.tasks[1].done && !q.tasks[0].done && !q.tasks[2].done);
    assert!(q.dirty);
    assert_eq!(q.pending(), 2);
    assert_eq!(texts(&q.save_now()), vec![(1, "a".to_string()), (3, "c".to_string())]);
    assert_eq!(q.tasks.len(), 3);
}

#[test]
fn the_last_of_two_clicks_counts() {
    let mut q = queue(&[(1, "a"), (2, "b")]);
    let mut r = rows(2);
    r[0].clicked = true;
    r[1].clicked = true;
    assert_eq!(q.rows(&r, None, false), Some("b".to_string()));
    assert!(!q.tasks[0].done);
}

#[test]
fn a_row_too_low_to_be_seen_is_not_used() {
    let mut q = queue(&[(1, "a")]);
    let mut r = rows(1);
    r[0].clicked = true;
    r[0].drag_started = true;
    r[0].height = c(0.49);
    assert_eq!(q.rows(&r, None, true), None);
    assert!(!q.tasks[0].done);
    assert_eq!(q.drag, None);
    r[0].height = c(0.5);
    assert_eq!(q.rows(&r, None, true), Some("a".to_string()));
    assert_eq!(q.drag, Some(1));
}

#[test]
fn a_finished_task_is_not_used_again() {
    let mut q = queue(&[(1, "a"), (2, "b")]);
    let mut r = rows(2);
    r[0].clicked = true;
    assert_eq!(q.rows(&r, None, true), Some("a".to_string()));
    q.saved(true);
    // The row still fades: a click or a drag on it does nothing.
    r[0].drag_started = true;
    r[0].fade = c(0.7);
    assert_eq!(q.rows(&r, Some(c(100.0)), true), None);
    assert_eq!(ids(&q), vec![1, 2]);
    assert!(!q.dirty);
    assert_eq!(q.drag, None);
    // Nor does it stand in the way of another row.
    r[1].clicked = true;
    r[1].drag_started = true;
    assert_eq!(q.rows(&r, None, true), Some("b".to_string()));
    assert_eq!(q.drag, Some(2));
}

#[test]
fn what_is_recorded_was_to_do() {
    let mut q = queue(&[(1, "a"), (2, "b"), (3, "c")]);
    let mut r = rows(3);
    for row in &mut r {
        row.clicked = true;
    }
    let recorded: Vec<String> = (0..5).filter_map(|_| q.rows(&r, None, false)).collect();
    assert_eq!(recorded, vec!["c", "b", "a"]);
}

#[test]
fn the_rows_keep_ids() {
    let mut q = queue(&[(4, "a"), (2, "b"), (9, "c")]);
    // Whatever the next id is.
    q.next_id = 0;
    let mut r = rows(3);
    r[2].drag_started = true;
    q.rows(&r, Some(c(0.0)), true);
    assert_eq!(ids(&q), vec![9, 4, 2]);
}

#[test]
fn a_finished_task_goes_when_it_has_faded() {
    let mut q = queue(&[(1, "a"), (2, "b")]);
    let mut r = rows(2);
    r[0].clicked = true;
    q.rows(&r, None, false);
    r[0].clicked = false;
    r[0].fade = c(0.3);
    q.dirty = false;
    q.rows(&r, None, false);
    assert_eq!(ids(&q), vec![1, 2]);
    r[0].fade = c(0.0);
    r[0].height = c(0.0);
    q.rows(&r, None, false);
    assert_eq!(ids(&q), vec![2]);
    assert!(!q.dirty);
}

#[test]
fn an_unfinished_task_never_goes() {
    let mut q = queue(&[(1, "a"), (2, "b")]);
    let mut r = rows(2);
    r[0].fade = c(0.0);
    r[1].fade = c(-1.0);
    q.rows(&r, None, false);
    assert_eq!(ids(&q), vec![1, 2]);
}

#[test]
fn a_task_finished_in_this_frame_stays_for_the_next() {
    let mut q = queue(&[(1, "a")]);
    let mut r = rows(1);
    r[0].clicked = true;
    r[0].fade = c(0.0);
    q.rows(&r, None, false);
    assert_eq!(ids(&q), vec![1]);
    assert!(q.tasks[0].done);
}

#[test]
fn a_fade_that_is_no_number_keeps_the_task() {
    let mut q = queue(&[(1, "a")]);
    q.tasks[0].done = true;
    let mut r = rows(1);
    r[0].fade = c(f32::NAN);
    q.rows(&r, None, false);
    assert_eq!(ids(&q), vec![1]);
}

#[test]
fn dragging_down_goes_all_the_way_in_one_frame() {
    let mut q = queue(&[(1, "a"), (2, "b"), (3, "c"), (4, "d")]);
    let mut r = rows(4);
    r[0].drag_started = true;
    q.rows(&r, Some(c(80.0)), true);
    // Past the middles at 39 and 65, not past the one at 91.
    assert_eq!(ids(&q), vec![2, 3, 1, 4]);
    assert_eq!(q.drag, Some(1));
    assert!(q.dirty);
}

#[test]
fn dragging_up_goes_all_the_way_in_one_frame() {
    let mut q = queue(&[(1, "a"), (2, "b"), (3, "c"), (4, "d")]);
    let mut r = rows(4);
    r[3].drag_started = true;
    q.rows(&r, Some(c(5.0)), true);
    assert_eq!(ids(&q), vec![4, 1, 2, 3]);
}

#[test]
fn a_dragged_task_comes_to_rest() {
    let mut q = queue(&[(1, "a"), (2, "b"), (3, "c")]);
    let mut r = rows(3);
    r[0].drag_started = true;
    q.rows(&r, Some(c(50.0)), true);
    assert_eq!(ids(&q), vec![2, 1, 3]);
    r[0].drag_started = false;
    q.dirty = false;
    q.rows(&r, Some(c(50.0)), true);
    assert_eq!(ids(&q), vec![2, 1, 3]);
    assert!(!q.dirty);
}

#[test]
fn exactly_on_the_middle_nothing_moves() {
    let mut q = queue(&[(1, "a"), (2, "b")]);
    let mut r = rows(2);
    r[0].drag_started = true;
    q.rows(&r, Some(c(39.0)), true);
    assert_eq!(ids(&q), vec![1, 2]);
    assert!(!q.dirty);
}

#[test]
fn letting_go_ends_a_drag() {
    let mut q = queue(&[(1, "a"), (2, "b")]);
    let mut r = rows(2);
    r[0].drag_started = true;
    q.rows(&r, Some(c(100.0)), false);
    assert_eq!(q.drag, None);
    assert_eq!(ids(&q), vec![1, 2]);
    r[0].drag_started = false;
    q.drag = Some(1);
    q.rows(&r, Some(c(100.0)), false);
    assert_eq!(ids(&q), vec![1, 2]);
}

#[test]
fn a_drag_without_a_pointer_moves_nothing() {
    let mut q = queue(&[(1, "a"), (2, "b")]);
    q.drag = Some(1);
    q.rows(&rows(2), None, true);
    assert_eq!(ids(&q), vec![1, 2]);
    assert_eq!(q.drag, Some(1));
}

#[test]
fn a_drag_of_a_task_that_is_gone_moves_nothing() {
    let mut q = queue(&[(1, "a"), (2, "b")]);
    q.drag = Some(9);
    q.rows(&rows(2), Some(c(100.0)), true);
    assert_eq!(ids(&q), vec![1, 2]);
    assert!(!q.dirty);
}

#[test]
fn dragging_only_reorders() {
    let mut q = queue(&[(1, "a"), (2, "b"), (3, "c"), (4, "d"), (5, "e")]);
    let r = rows(5);
    for (id, y) in [(3u64, 0.0f32), (1, 200.0), (5, 40.0), (2, 91.5)] {
        q.drag = Some(id);
        q.rows(&r, Some(c(y)), true);
        let mut sorted = ids(&q);
        sorted.sort();
        assert_eq!(sorted, vec![1, 2, 3, 4, 5]);
    }
}

#[test]
fn the_handle_follows_the_pointer() {
    let mut q = queue(&[]);
    let grab = HandleReply {
        pointer_y: Some(c(10.0)),
        drag_started: true,
        dragged: true,
        clicked: false,
        window_top: Some(c(200.0)),
    };
    assert!(!q.handle_ui(grab));
    // No jump in the frame in which it is grabbed.
    assert_eq!(f(q.handle_y), 200.0);
    assert_eq!(f(q.grab_dy), 10.0);
    assert!(q.dirty);
    q.handle_ui(HandleReply { pointer_y: Some(c(25.0)), drag_started: false, ..grab });
    assert_eq!(f(q.handle_y), 215.0);
    q.handle_ui(HandleReply { window_top: None, drag_started: false, ..grab });
    assert_eq!(f(q.handle_y), 0.0);
}

#[test]
fn grabbing_the_handle_hardly_moves_it() {
    for (top, pointer) in [(133.3333f32, 10.6667f32), (0.1, 35.9), (4_000_000.3, 7.7)] {
        let mut q = queue(&[]);
        q.handle_ui(HandleReply {
            pointer_y: Some(c(pointer)),
            drag_started: true,
            dragged: true,
            clicked: false,
            window_top: Some(c(top)),
        });
        assert!((f(q.handle_y) as f64 - top as f64).abs() < 0.5);
    }
}

#[test]
fn the_handle_stays_without_a_drag() {
    let mut q = queue(&[]);
    let idle = HandleReply {
        pointer_y: Some(c(10.0)),
        drag_started: false,
        dragged: false,
        clicked: false,
        window_top: Some(c(5.0)),
    };
    q.handle_ui(idle);
    q.handle_ui(HandleReply { pointer_y: None, dragged: true, drag_started: true, ..idle });
    assert_eq!(f(q.handle_y), 200.0);
    assert!(!q.dirty);
}

#[test]
fn a_click_on_the_handle_opens_the_board() {
    let mut q = queue(&[]);
    let click = HandleReply {
        pointer_y: None,
        drag_started: false,
        dragged: false,
        clicked: true,
        window_top: None,
    };
    assert!(q.handle_ui(click));
    assert!(q.expanded && q.focus_input);
}

#[test]
fn a_board_waits_for_its_first_focus() {
    let mut q = queue(&[]);
    q.expand();
    q.ui(false, Some(false));
    q.ui(false, None);
    assert!(q.expanded);
    q.ui(false, Some(true));
    assert!(q.expanded && q.saw_focus);
    q.ui(false, None);
    assert!(!q.expanded && !q.saw_focus);
}

#[test]
fn escape_closes_the_board() {
    let mut q = queue(&[]);
    q.expand();
    q.ui(true, Some(true));
    assert!(!q.expanded);
    q.ui(true, Some(false));
    assert!(!q.expanded);
}

#[test]
fn the_watchdog_is_set_once() {
    let mut q = queue(&[]);
    assert_eq!(q.logic(None), None);
    assert!(!q.watching);
    assert_eq!(q.logic(Some(77)), Some(77));
    assert!(q.watching);
    assert_eq!(q.logic(Some(77)), None);
}

#[test]
fn saving_waits_its_turn() {
    let mut q = queue(&[]);
    assert_eq!(q.autosave(false, 10_000_000_000), Autosave::Idle);
    q.dirty = true;
    assert_eq!(q.autosave(true, 10_000_000_000), Autosave::Idle);
    assert_eq!(q.autosave(false, 0), Autosave::Wait { nanos: 400_000_000 });
    assert_eq!(q.autosave(false, 399_999_999), Autosave::Wait { nanos: 1 });
    assert_eq!(q.autosave(false, 400_000_000), Autosave::Save);
    assert_eq!(q.autosave(false, u128::MAX), Autosave::Save);
    assert_eq!(SAVE_DELAY_NANOS, 400_000_000);
}

#[test]
fn a_failed_save_is_tried_again() {
    let mut q = queue(&[]);
    q.dirty = true;
    q.saved(false);
    assert!(q.dirty);
    q.saved(true);
    assert!(!q.dirty);
    q.saved(false);
    assert!(!q.dirty);
}

#[test]
fn the_window_is_saved_in_whole_points() {
    let mut q = queue(&[]);
    q.handle_x = c(1670.6667);
    q.handle_y = c(100.5);
    q.width = c(319.5);
    let w = q.save_now().window.unwrap();
    assert_eq!((f(w.x), f(w.y), f(w.width)), (1671.0, 101.0, 320.0));
}

#[test]
fn restart_keeps_what_is_to_do() {
    let mut q = queue(&[(1, "a"), (2, "b"), (3, "c")]);
    let mut r = rows(3);
    r[0].clicked = true;
    q.rows(&r, None, false);
    let kept = q.save_now();
    let again = TaskQueue::new(kept.clone(), false);
    assert_eq!(ids(&again), vec![2, 3]);
    assert!(again.tasks.iter().all(|t| !t.done));
    assert_eq!(again.pending(), kept.tasks.len());
    // Saving again changes nothing.
    let kept_again = again.save_now();
    assert_eq!(texts(&kept_again), texts(&kept));
    assert!(kept_again.window == kept.window);
}

#[test]
fn ids_are_never_given_twice() {
    let mut q = queue(&[(5, "a"), (9, "b")]);
    for text in ["x", " ", "y", "z"] {
        q.input = text.to_string();
        q.submit();
    }
    assert_eq!(ids(&q), vec![5, 9, 10, 11, 12]);
    assert!(q.tasks.iter().all(|t| t.id < q.next_id));
}

#[test]
fn whatever_changes_what_is_saved_is_marked() {
    let mut q = queue(&[(1, "a"), (2, "b"), (3, "c")]);
    q.tasks[2].done = true;
    let r = rows(3);
    let mut gone = r.clone();
    gone[2].fade = c(0.0);
    let mut clicked = r.clone();
    clicked[0].clicked = true;
    let before = texts(&q.save_now());
    q.rows(&gone, None, false);
    assert_eq!(texts(&q.save_now()), before);
    assert!(!q.dirty);
    clicked.pop();
    q.rows(&clicked, None, false);
    assert_ne!(texts(&q.save_now()), before);
    assert!(q.dirty);
    // A change that is yet to be saved stays so.
    q.rows(&rows(2), None, false);
    q.ui(true, None);
    assert!(q.dirty);
}

#[test]
fn what_is_saved_can_be_started_from() {
    let mut q = queue(&[(u64::MAX - 2, "a")]);
    q.input = "b".to_string();
    q.submit();
    assert_eq!(q.next_id, u64::MAX);
    let again = TaskQueue::new(q.save_now(), false);
    assert_eq!(ids(&again), vec![u64::MAX - 2, u64::MAX - 1]);
}
