use desktop_task_queue::coord::Coord;
use desktop_task_queue::fonts::{
    fallback_families, fallback_name, set_fonts, with_fallback, Family,
};
use desktop_task_queue::storage::{
    file_name, load, log_done, save, state_file, AppState, ReadOutcome, SaveStep, StoreFile,
    StoredTask, WindowState,
};
use desktop_task_queue::win::{
    autostart_enabled, autostart_write, claim_single_instance, instance_name, is_window,
    keep_on_top, local_now, open_run_key, renew_autostart, run_subkey, run_value, set_autostart,
    system_busy, watch_topmost, wide, AutostartWrite, Clock, InstanceReply, WatchStep,
};

fn units(s: &str) -> Vec<u16> {
    s.encode_utf16().chain(std::iter::once(0)).collect()
}

#[test]
fn wide_text_is_utf16_with_a_nul() {
    for s in ["", "a", "任务", "a\u{10ffff}b\u{10000}", "\u{d7ff}\u{e000}\u{ffff}", "x y"] {
        assert_eq!(wide(s), units(s));
    }
    assert_eq!(wide("A\u{1f600}"), vec![0x41, 0xd83d, 0xde00, 0]);
    let long: String = ('\u{1}'..='\u{3000}').collect();
    assert_eq!(wide(&long), units(&long));
}

#[test]
fn a_text_ends_at_its_only_nul() {
    let w = wide("Local\\name");
    assert_eq!(w.iter().position(|u| *u == 0), Some(w.len() - 1));
}

#[test]
fn utf16_tells_texts_apart() {
    assert_ne!(wide("ab"), wide("ba"));
    assert_ne!(wide("\u{10000}"), wide("\u{10001}"));
}

#[test]
fn names_for_the_system() {
    assert_eq!(instance_name(), units(r"Local\desktop-task-queue-single-instance"));
    assert_eq!(run_subkey(), units(r"Software\Microsoft\Windows\CurrentVersion\Run"));
    assert_eq!(run_value(), units("desktop-task-queue"));
}

#[test]
fn only_an_existing_instance_is_in_the_way() {
    assert!(claim_single_instance(None));
    assert!(claim_single_instance(Some(InstanceReply { handle: 0, error: 183 })));
    assert!(claim_single_instance(Some(InstanceReply { handle: 8, error: 0 })));
    assert!(!claim_single_instance(Some(InstanceReply { handle: 8, error: 183 })));
}

#[test]
fn registry_answers() {
    assert_eq!(open_run_key(0, 44), Some(44));
    assert_eq!(open_run_key(5, 44), None);
    assert!(autostart_enabled(Some(0)));
    assert!(!autostart_enabled(Some(2)));
    assert!(!autostart_enabled(None));
    assert!(set_autostart(true, Some(0)) && set_autostart(false, Some(0)));
    assert!(set_autostart(false, Some(2)));
    assert!(!set_autostart(true, Some(2)));
    assert!(!set_autostart(false, Some(5)));
    assert!(!set_autostart(true, None) && !set_autostart(false, None));
}

#[test]
fn a_registration_found_at_start_is_renewed() {
    assert_eq!(renew_autostart(true), Some(true));
    assert_eq!(renew_autostart(false), None);
}

#[test]
fn the_registered_command_is_quoted() {
    match autostart_write(true, Some(r"C:\My Apps\queue.exe")) {
        AutostartWrite::Store { data, size } => {
            assert_eq!(data, units("\"C:\\My Apps\\queue.exe\""));
            assert_eq!(size as usize, 2 * data.len());
        }
        _ => panic!("nothing to store"),
    }
    assert!(matches!(autostart_write(true, None), AutostartWrite::Skip));
    assert!(matches!(autostart_write(false, Some("x")), AutostartWrite::Delete));
    assert!(matches!(autostart_write(false, None), AutostartWrite::Delete));
}

#[test]
fn the_watchdog_gives_way_and_ends() {
    assert_eq!(watch_topmost(None, false), WatchStep::Stop);
    assert_eq!(watch_topmost(None, true), WatchStep::Stop);
    assert_eq!(watch_topmost(Some(false), false), WatchStep::Stop);
    assert_eq!(watch_topmost(Some(false), true), WatchStep::Stop);
    assert_eq!(watch_topmost(Some(true), true), WatchStep::Rest);
    assert_eq!(watch_topmost(Some(true), false), WatchStep::Raise);
    assert!(is_window(1) && is_window(-1) && !is_window(0));
}

#[test]
fn busy_states() {
    for state in 0..8 {
        assert_eq!(system_busy(0, state), [2, 3, 4].contains(&state));
        assert!(!system_busy(-1, state));
    }
}

#[test]
fn raising_leaves_focus_place_and_size() {
    assert_eq!(keep_on_top(), 0x0001 | 0x0002 | 0x0010 | 0x4000);
}

#[test]
fn time_stamps() {
    let t = |year, month, day, hour, minute| {
        local_now(Clock::Local { year, month, day, hour, minute })
    };
    assert_eq!(t(2024, 3, 9, 7, 5), "2024-03-09 07:05");
    assert_eq!(t(1999, 12, 31, 23, 59), "1999-12-31 23:59");
    assert_eq!(t(7, 0, 0, 0, 0), "0007-00-00 00:00");
    assert_eq!(t(65535, 123, 4, 5, 6), "65535-123-04 05:06");
    assert_eq!(local_now(Clock::Unix { seconds: 0 }), "0");
    assert_eq!(local_now(Clock::Unix { seconds: 1_700_000_000 }), "1700000000");
    assert_eq!(local_now(Clock::Unix { seconds: u64::MAX }), u64::MAX.to_string());
    assert_eq!(local_now(Clock::Unset), "?");
}

#[test]
fn records_are_json_lines() {
    assert_eq!(
        log_done("2024-03-09 07:05", "buy milk"),
        "{\"done_at\":\"2024-03-09 07:05\",\"text\":\"buy milk\"}\n"
    );
    assert_eq!(
        log_done("?", "a\"b\\c\u{8}\t\n\u{c}\r\u{1}\u{1f}\u{7f}/任"),
        "{\"done_at\":\"?\",\"text\":\"a\\\"b\\\\c\\b\\t\\n\\f\\r\\u0001\\u001f\u{7f}/任\"}\n"
    );
}

#[test]
fn a_record_is_one_line_and_is_read_back() {
    for ch in ('\0'..='\u{ff}').chain(['\u{2028}', '任', '\u{10ffff}']) {
        let text = format!("x{ch}y");
        let line = log_done("2024-03-09 07:05", &text);
        assert_eq!(line.matches('\n').count(), 1);
        assert!(line.ends_with('\n'));
        let value: serde_json::Value = serde_json::from_str(&line).unwrap();
        assert_eq!(value["text"], serde_json::Value::String(text));
        assert_eq!(value["done_at"], serde_json::Value::String("2024-03-09 07:05".to_string()));
    }
}

#[test]
fn where_the_files_are() {
    assert_eq!(
        state_file(Some("D:\\data".to_string()), StoreFile::State),
        vec!["D:\\data", "desktop-task-queue", "state.json"]
    );
    assert_eq!(state_file(None, StoreFile::Done), vec![".", "desktop-task-queue", "done.jsonl"]);
    assert_eq!(file_name(StoreFile::Draft), "state.json.tmp");
    assert_eq!(file_name(StoreFile::Broken), "state.json.broken");
    // The names are those that changing the state file's extension gives.
    let state = std::path::PathBuf::from(file_name(StoreFile::State));
    assert_eq!(state.with_extension("json.tmp").to_str(), Some(file_name(StoreFile::Draft)));
    assert_eq!(state.with_extension("json.broken").to_str(), Some(file_name(StoreFile::Broken)));
}

#[test]
fn the_files_have_different_names() {
    let all = [StoreFile::State, StoreFile::Draft, StoreFile::Broken, StoreFile::Done];
    for a in all {
        for b in all {
            assert_eq!(a == b, file_name(a) == file_name(b));
        }
    }
}

#[test]
fn loading_starts_afresh_when_it_must() {
    let (state, aside) = load(ReadOutcome::Unreadable);
    assert!(state.tasks.is_empty() && state.window.is_none() && !aside);
    let (state, aside) = load(ReadOutcome::Broken);
    assert!(state.tasks.is_empty() && state.window.is_none() && aside);
    let kept = AppState {
        tasks: vec![StoredTask { id: 3, text: "a".to_string() }],
        window: Some(WindowState::default()),
    };
    let (state, aside) = load(ReadOutcome::Parsed(kept));
    assert!(!aside);
    assert_eq!(state.tasks[0].id, 3);
    assert_eq!(state.tasks[0].text, "a");
    assert!(state.window == Some(WindowState::default()));
}

#[test]
fn default_window() {
    let w = WindowState::default();
    assert_eq!(w.x.bits, 0.0f32.to_bits());
    assert_eq!(w.y.bits, 200.0f32.to_bits());
    assert_eq!(w.width.bits, 320.0f32.to_bits());
    let nan = Coord::from_bits(f32::NAN.to_bits());
    assert!(w == w);
    assert!(w != WindowState { x: nan, ..w });
    assert!(w == WindowState { x: Coord::from_bits((-0.0f32).to_bits()), ..w });
}

#[test]
fn a_save_replaces_only_with_a_whole_draft() {
    for bits in 0..8 {
        let ok = [bits & 1 != 0, bits & 2 != 0, bits & 4 != 0];
        let mut step = SaveStep::MakeDirectory;
        let mut replaced = false;
        for went_well in ok {
            if step == SaveStep::Replace {
                assert!(ok[0] && ok[1]);
                replaced = went_well;
            }
            step = save(step, went_well);
        }
        assert_eq!(step == SaveStep::Saved, ok == [true; 3]);
        assert_eq!(step == SaveStep::Failed, ok != [true; 3]);
        assert_eq!(replaced, ok == [true; 3]);
    }
    assert_eq!(save(SaveStep::Saved, false), SaveStep::Saved);
    assert_eq!(save(SaveStep::Failed, true), SaveStep::Failed);
}

#[test]
fn fonts_in_order() {
    let tried: Vec<&str> = (0..9).map_while(set_fonts).collect();
    assert_eq!(
        tried,
        vec![
            "C:/Windows/Fonts/msyh.ttc",
            "C:/Windows/Fonts/Deng.ttf",
            "C:/Windows/Fonts/simhei.ttf",
            "C:/Windows/Fonts/simsun.ttc",
        ]
    );
    assert_eq!(fallback_name(), "cjk");
}

#[test]
fn the_fallback_stands_behind_the_other_fonts() {
    assert_eq!(fallback_families(), vec![Family::Proportional, Family::Monospace]);
    assert_eq!(with_fallback(vec![]), vec!["cjk"]);
    let fonts = vec!["Hack".to_string(), "emoji".to_string()];
    assert_eq!(with_fallback(fonts), vec!["Hack", "emoji", "cjk"]);
}
