use cs2_binds::model::{
    bind_kind, BindKind, ExecuteBind, ParseValue, RepeatSayBind, ToggleBind,
};

fn toggle() -> ToggleBind {
    ToggleBind {
        name: "walk".to_string(),
        console_activate: "+forward".to_string(),
        console_deactivate: "-forward".to_string(),
        key: "f9".to_string(),
    }
}

#[test]
fn toggle_reads_on_off_na() {
    let t = toggle();
    assert_eq!(t.console_value("on").unwrap(), "ON");
    assert_eq!(t.console_value("off").unwrap(), "OFF");
    assert_eq!(t.console_value("record").unwrap(), "NA");
    assert_eq!(t.console_value("").unwrap(), "NA");
}

#[test]
fn toggle_prefers_on() {
    let t = toggle();
    assert_eq!(t.console_value("on_off").unwrap(), "ON");
    assert_eq!(t.console_value("xoffx").unwrap(), "OFF");
}

#[test]
fn execute_and_repeat_say_report_as_is() {
    let e = ExecuteBind { name: "buy".to_string(), commands: vec![], key: "f1".to_string() };
    assert_eq!(e.console_value("0_5").unwrap(), "0_5");
    let r = RepeatSayBind {
        name: "echo".to_string(),
        user: "bob".to_string(),
        filename: "say.cfg".to_string(),
        fullpath: "/tmp".to_string(),
        record_key: "f2".to_string(),
        send_key: "f3".to_string(),
    };
    assert_eq!(r.console_value("record").unwrap(), "record");
}

#[test]
fn bind_kind_known_types() {
    assert_eq!(bind_kind(Some("execute"), "{}"), Ok(BindKind::Execute));
    assert_eq!(bind_kind(Some("repeat_say"), "{}"), Ok(BindKind::RepeatSay));
    assert_eq!(bind_kind(Some("toggle"), "{}"), Ok(BindKind::Toggle));
    assert_eq!(bind_kind(Some("interval"), "{}"), Ok(BindKind::Interval));
}

#[test]
fn bind_kind_unknown_type() {
    assert_eq!(
        bind_kind(Some("cycle"), "{}"),
        Err("Unknown bind type: cycle".to_string())
    );
    assert_eq!(
        bind_kind(Some("Toggle"), "{}"),
        Err("Unknown bind type: Toggle".to_string())
    );
}

#[test]
fn bind_kind_missing_type() {
    assert_eq!(
        bind_kind(None, "Object {\"name\": String(\"x\")}"),
        Err("Couldn't find \"name\" key for: Object {\"name\": String(\"x\")}".to_string())
    );
}
