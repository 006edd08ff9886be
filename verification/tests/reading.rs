use chrono::NaiveDateTime;
use cs2_binds::engine::reader::{scan_log, select_bind, shown_value, value_pattern, LogUpdate};
use cs2_binds::engine::utils::CommandError;
use cs2_binds::model::{Bind, CycleBind, IntervalBind, RepeatSayBind, ToggleBind};
use cs2_binds::reader::report_values;

fn stamp(text: &str) -> (i64, u32) {
    let dt = NaiveDateTime::parse_from_str(text, "%Y/%m/%d %H:%M:%S").unwrap();
    (dt.and_utc().timestamp(), dt.and_utc().timestamp_subsec_nanos())
}

fn music() -> Bind {
    Bind::Interval(IntervalBind {
        name: "music".to_string(),
        step: 500_000_000,
        up_key: "f7".to_string(),
        down_key: "f8".to_string(),
        min: 0,
        max: 1_000_000_000,
        console: "snd_musicvolume".to_string(),
        default: 500_000_000,
    })
}

fn echo() -> Bind {
    Bind::RepeatSay(RepeatSayBind {
        name: "echo".to_string(),
        user: "bob".to_string(),
        filename: "say.cfg".to_string(),
        fullpath: "/tmp".to_string(),
        record_key: "f2".to_string(),
        send_key: "f3".to_string(),
    })
}

#[test]
fn select_bind_by_alias_name() {
    let binds = vec![
        Bind::Cycle(CycleBind {
            name: "music".to_string(),
            bind_names: vec![],
            key: "f4".to_string(),
            default: 0,
        }),
        Bind::Toggle(ToggleBind {
            name: "walk".to_string(),
            console_activate: "+forward".to_string(),
            console_deactivate: "-forward".to_string(),
            key: "f9".to_string(),
        }),
        music(),
    ];
    assert_eq!(select_bind(&binds, " music "), Ok(2));
    assert_eq!(select_bind(&binds, "walk"), Ok(1));
    assert_eq!(
        select_bind(&binds, "jump"),
        Err(CommandError::ArgumentError("Invalid bind name:jump".to_string()))
    );
}

#[test]
fn invalid_pattern_is_refused() {
    assert!(value_pattern("set_a(b").is_none());
    assert!(value_pattern("set_music").is_some());
}

#[test]
fn scan_reports_dated_lines_only() {
    let pattern = value_pattern("set_music").unwrap();
    let content = "05/12 20:00:01 set_music_0_5 done\n\
                   garbage set_music_1\n\
                   05/12 20:00:02 nothing here\n\
                   05/12 20:00:03 [Console] set_music_1\n";
    let updates = scan_log(&music(), &pattern, content, 2024, stamp("2024/05/12 20:00:09"));
    let values: Vec<String> = updates
        .into_iter()
        .map(|u| match u {
            LogUpdate::Captured(v) => v,
            LogUpdate::Said { .. } => panic!("an interval says nothing"),
        })
        .collect();
    assert_eq!(values, vec!["0_5".to_string(), "1".to_string()]);
}

#[test]
fn scan_needs_a_valid_date() {
    let pattern = value_pattern("set_music").unwrap();
    let content = "13/40 20:00:01 set_music_0_5\n02/30 10:00:00 set_music_1";
    let updates = scan_log(&music(), &pattern, content, 2024, stamp("2024/05/12 20:00:09"));
    assert!(updates.is_empty());
}

#[test]
fn scan_finds_chat_line_to_say_again() {
    let pattern = value_pattern("set_echo").unwrap();
    let content = "05/12 20:00:05 bob: hello there\n05/12 20:00:06 set_echo_record";
    let updates = scan_log(&echo(), &pattern, content, 2024, stamp("2024/05/12 20:00:08"));
    assert_eq!(updates.len(), 1);
    match &updates[0] {
        LogUpdate::Said { text, file, command } => {
            assert_eq!(text, "hello there");
            assert_eq!(file, "/tmp/say.cfg");
            assert_eq!(command, "say hello there");
        }
        LogUpdate::Captured(_) => panic!("a repeat-say bind says"),
    }
}

#[test]
fn scan_ignores_old_chat_lines() {
    let pattern = value_pattern("set_echo").unwrap();
    let content = "05/12 19:59:00 bob: too old\n05/12 20:00:06 set_echo_record";
    let updates = scan_log(&echo(), &pattern, content, 2024, stamp("2024/05/12 20:00:08"));
    assert!(updates.is_empty());
}

#[test]
fn scan_takes_the_last_chat_line_of_the_user() {
    let pattern = value_pattern("set_echo").unwrap();
    let content = "05/12 20:00:01 bob: first\n05/12 20:00:02 alice: other\n05/12 20:00:03 bob: second: part\n05/12 20:00:04 set_echo_record";
    let updates = scan_log(&echo(), &pattern, content, 2024, stamp("2024/05/12 20:00:05"));
    assert_eq!(updates.len(), 1);
    match &updates[0] {
        LogUpdate::Said { text, .. } => assert_eq!(text, "second"),
        LogUpdate::Captured(_) => panic!("a repeat-say bind says"),
    }
}

#[test]
fn first_form_reports_every_line() {
    let pattern = value_pattern("set_music").unwrap();
    let content = "05/12 20:00:01 set_music_0_5 done\ngarbage set_music_1\nset_music_";
    let values = report_values(&pattern, content);
    assert_eq!(values, vec!["0_5".to_string(), "1".to_string()]);
}

fn walk() -> Bind {
    Bind::Toggle(ToggleBind {
        name: "walk".to_string(),
        console_activate: "+forward".to_string(),
        console_deactivate: "-forward".to_string(),
        key: "f9".to_string(),
    })
}

#[test]
fn shown_value_is_na_without_updates() {
    assert_eq!(shown_value(&walk(), &vec![], &vec![]), Ok("NA".to_string()));
}

#[test]
fn shown_value_is_the_last_display() {
    let updates = vec![LogUpdate::Captured("on".to_string()), LogUpdate::Captured("off".to_string())];
    assert_eq!(shown_value(&walk(), &updates, &vec![]), Ok("OFF".to_string()));
}

#[test]
fn shown_value_of_interval_uses_given_display() {
    let updates = vec![LogUpdate::Captured("0_5".to_string()), LogUpdate::Captured("1".to_string())];
    let shown = vec![Ok("50.0%".to_string()), Ok("100.0%".to_string())];
    assert_eq!(shown_value(&music(), &updates, &shown), Ok("100.0%".to_string()));
    let failing = vec![Err(CommandError::ProcessError("first".to_string())), Ok("100.0%".to_string())];
    assert_eq!(
        shown_value(&music(), &updates, &failing),
        Err(CommandError::ProcessError("first".to_string()))
    );
}

#[test]
fn shown_value_of_repeat_say_is_the_said_text() {
    let updates = vec![LogUpdate::Said {
        text: "hello".to_string(),
        file: "/tmp/say.cfg".to_string(),
        command: "say hello".to_string(),
    }];
    assert_eq!(shown_value(&echo(), &updates, &vec![]), Ok("hello".to_string()));
}
