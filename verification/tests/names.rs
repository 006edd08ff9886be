use cs2_binds::commands::{cmd_name, name_to_cmd, process_say};
use cs2_binds::engine::commands::clean_key;
use cs2_binds::engine::utils::{get_arg, CommandError};

#[test]
fn cmd_name_trims_and_joins_words() {
    assert_eq!(cmd_name("  music volume \t"), "set_music_volume");
    assert_eq!(cmd_name("a  b"), "set_a__b");
    assert_eq!(cmd_name(""), "set_");
}

#[test]
fn cmd_name_keeps_inner_tabs() {
    assert_eq!(cmd_name("a\tb"), "set_a\tb");
}

#[test]
fn name_to_cmd_appends_suffix() {
    assert_eq!(name_to_cmd(" walk ", "on"), "set_walk_on");
    assert_eq!(name_to_cmd("walk", "_on"), "set_walk__on");
    assert_eq!(name_to_cmd("crosshair size", "0_5"), "set_crosshair_size_0_5");
}

#[test]
fn clean_key_names_semicolon() {
    assert_eq!(clean_key(" ; "), "semicolon");
    assert_eq!(clean_key(";"), "semicolon");
    assert_eq!(clean_key(" f9 "), "f9");
    assert_eq!(clean_key(";;"), ";;");
    assert_eq!(clean_key("   "), "");
}

#[test]
fn clean_key_twice_is_clean_key_once() {
    for key in [" ; ", "f9", " mouse1\n", ";;", "semicolon"] {
        let once = clean_key(key).to_string();
        assert_eq!(clean_key(&once), once);
    }
}

#[test]
fn cmd_name_never_holds_spaces() {
    for name in ["a b c", "  lead", "trail  ", " x  y "] {
        assert!(!cmd_name(name).contains(' '));
    }
}

#[test]
fn process_say_succeeds() {
    assert!(process_say().is_ok());
}

#[test]
fn get_arg_present() {
    let args = vec!["prog".to_string(), "read".to_string(), "music".to_string()];
    assert_eq!(get_arg(&args, 2, "bind_name"), Ok("music".to_string()));
    assert_eq!(get_arg(&args, 1, "reading"), Ok("read".to_string()));
}

#[test]
fn get_arg_missing() {
    let args = vec!["prog".to_string()];
    assert_eq!(
        get_arg(&args, 1, "reading"),
        Err(CommandError::ExpectedArgument("reading".to_string(), 1))
    );
}

#[test]
fn aliases_start_with_cmd_name() {
    for (name, suffix) in [(" a b ", "on"), ("x", ""), ("m", "0_5")] {
        let alias = name_to_cmd(name, suffix);
        assert!(alias.starts_with(&format!("{}_", cmd_name(name))));
    }
}
