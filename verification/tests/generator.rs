use cs2_binds::commands;
use cs2_binds::engine::commands::generate_binds;
use cs2_binds::engine::ladder::{ladder_check, ladder_values as ladder_values_in};
use cs2_binds::engine::utils::CommandError;
use cs2_binds::model::{
    Bind, CycleBind, ExecuteBind, IntervalBind, RepeatSayBind, ToggleBind,
};

fn execute() -> Bind {
    Bind::Execute(ExecuteBind {
        name: "buy".to_string(),
        commands: vec!["buy ak47".to_string(), "buy vest".to_string()],
        key: " f1 ".to_string(),
    })
}

fn toggle() -> Bind {
    Bind::Toggle(ToggleBind {
        name: "walk fwd".to_string(),
        console_activate: "+forward".to_string(),
        console_deactivate: "-forward".to_string(),
        key: ";".to_string(),
    })
}

fn repeat_say() -> Bind {
    Bind::RepeatSay(RepeatSayBind {
        name: "echo".to_string(),
        user: "bob".to_string(),
        filename: "say.cfg".to_string(),
        fullpath: "/tmp".to_string(),
        record_key: "f2".to_string(),
        send_key: "f3".to_string(),
    })
}

/// Settings are counted in billionths; these helpers speak in thousandths.
const THOUSANDTH: i64 = 1_000_000;

fn interval_exact(name: &str, min: i64, max: i64, step: i64, default: i64) -> IntervalBind {
    IntervalBind {
        name: name.to_string(),
        step: step * THOUSANDTH,
        up_key: "f7".to_string(),
        down_key: "f8".to_string(),
        min: min * THOUSANDTH,
        max: max * THOUSANDTH,
        console: "snd_musicvolume".to_string(),
        default: default * THOUSANDTH,
    }
}

/// An interval with its settings given in hundredths.
fn interval(name: &str, min: i64, max: i64, step: i64, default: i64) -> IntervalBind {
    interval_exact(name, min * 10, max * 10, step * 10, default * 10)
}

/// The current ladder, in hundredths.
fn ladder_values(b: &IntervalBind) -> Vec<i64> {
    ladder_values_in(b, true).iter().map(|v| v / (10 * THOUSANDTH)).collect()
}

fn cycle(names: &[&str], default: usize) -> Bind {
    Bind::Cycle(CycleBind {
        name: "modes".to_string(),
        bind_names: names.iter().map(|s| s.to_string()).collect(),
        key: "f4".to_string(),
        default,
    })
}

#[test]
fn ladder_steps_to_max() {
    assert_eq!(ladder_values(&interval("m", 0, 100, 25, 50)), vec![0, 25, 50, 75, 100]);
}

#[test]
fn ladder_lands_on_default() {
    assert_eq!(ladder_values(&interval("m", 0, 100, 30, 50)), vec![0, 30, 50, 80, 100]);
}

#[test]
fn ladder_clamps_last_step_to_max() {
    assert_eq!(ladder_values(&interval("m", 10, 100, 40, 0)), vec![10, 50, 90, 100]);
}

#[test]
fn ladder_without_room() {
    assert_eq!(ladder_values(&interval("m", 100, 50, 0, 0)), vec![100, 50]);
    assert_eq!(ladder_values(&interval("m", 70, 70, 10, 70)), vec![70, 70]);
}

#[test]
fn ladder_laws_on_values() {
    let b = interval("m", -35, 120, 20, 47);
    let v = ladder_values(&b);
    assert_eq!(v[0], -35);
    assert_eq!(*v.last().unwrap(), 120);
    for w in v.windows(2) {
        assert!(w[0] < w[1] && w[1] - w[0] <= 20);
    }
    assert!(v.contains(&47));
}

#[test]
fn generates_each_kind() {
    let binds = vec![
        cycle(&["buy", "music"], 1),
        execute(),
        toggle(),
        repeat_say(),
        Bind::Interval(interval("music", 0, 100, 50, 50)),
    ];
    let expected = [
        "bind f1 \"buy ak47;buy vest\"",
        "bind semicolon set_walk_fwd_on",
        "\nalias set_walk_fwd_on \"+forward;bind semicolon set_walk_fwd_off\"",
        "\nalias set_walk_fwd_off \"-forward;bind semicolon set_walk_fwd_on\"",
        "alias set_echo_record \"echo READ_LAST;bind f2 set_echo_record\"",
        "bind f2 set_echo_record",
        "bind f3 \"exec say.cfg\"",
        "alias set_music_0 \"snd_musicvolume 0; bind f7 set_music_0_5; bind f8 set_music_0\"",
        "alias set_music_0_5 \"snd_musicvolume 0.5; bind f7 set_music_1; bind f8 set_music_0\"",
        "alias set_music_1 \"snd_musicvolume 1; bind f7 set_music_1; bind f8 set_music_0_5\"",
        "set_music_0_5",
        "alias set_modes_0 \"bind f1 \"buy ak47;buy vest\"; \"bind f4 set_modes_1\"\"",
        "alias set_modes_1 \"set_music_0_5; \"bind f4 set_modes_0\"\"",
        "bind f4 set_modes_1",
    ]
    .join("\n");
    assert_eq!(generate_binds(&binds), Ok(expected));
}

#[test]
fn cycle_runs_joined_lines_of_a_toggle() {
    let binds = vec![toggle(), cycle(&["walk fwd"], 0)];
    let text = generate_binds(&binds).unwrap();
    let entry = "bind semicolon set_walk_fwd_on\n\nalias set_walk_fwd_on \"+forward;bind semicolon set_walk_fwd_off\"\n\nalias set_walk_fwd_off \"-forward;bind semicolon set_walk_fwd_on\"";
    assert!(text.ends_with(&format!(
        "alias set_modes_0 \"{}; \"bind f4 set_modes_0\"\"\nbind f4 set_modes_0",
        entry
    )));
}

#[test]
fn later_bind_of_same_name_wins() {
    let second = Bind::Execute(ExecuteBind {
        name: "buy".to_string(),
        commands: vec!["buy m4a1".to_string()],
        key: "f5".to_string(),
    });
    let binds = vec![execute(), second, cycle(&["buy"], 0)];
    let text = generate_binds(&binds).unwrap();
    assert!(text.contains("alias set_modes_0 \"bind f5 \"buy m4a1\"; \"bind f4 set_modes_0\"\""));
}

#[test]
fn cycle_with_missing_bind_fails() {
    let binds = vec![execute(), cycle(&["buy", "jump", "nade"], 0)];
    assert_eq!(
        generate_binds(&binds),
        Err(CommandError::ProcessError("Bind name 'jump' does not exist!".to_string()))
    );
}

#[test]
fn cycle_cannot_run_another_cycle() {
    let other = Bind::Cycle(CycleBind {
        name: "other".to_string(),
        bind_names: vec!["buy".to_string()],
        key: "f6".to_string(),
        default: 0,
    });
    let binds = vec![execute(), other, cycle(&["other"], 0)];
    assert_eq!(
        generate_binds(&binds),
        Err(CommandError::ProcessError("Bind name 'other' does not exist!".to_string()))
    );
}

#[test]
fn empty_configuration_is_empty_text() {
    assert_eq!(generate_binds(&vec![]), Ok(String::new()));
}

#[test]
fn interval_default_off_ladder_starts_at_min() {
    let binds = vec![Bind::Interval(interval("vol", 0, 100, 50, 130))];
    let text = generate_binds(&binds).unwrap();
    assert_eq!(text.lines().last(), Some("set_vol_0"));
}

#[test]
fn interval_negative_and_hundredths() {
    let binds = vec![Bind::Interval(interval("v", -5, 5, 5, 0))];
    let expected = [
        "alias set_v_-0_05 \"snd_musicvolume -0.05; bind f7 set_v_0; bind f8 set_v_-0_05\"",
        "alias set_v_0 \"snd_musicvolume 0; bind f7 set_v_0_05; bind f8 set_v_-0_05\"",
        "alias set_v_0_05 \"snd_musicvolume 0.05; bind f7 set_v_0_05; bind f8 set_v_0\"",
        "set_v_0",
    ]
    .join("\n");
    assert_eq!(generate_binds(&binds), Ok(expected));
}

#[test]
fn interval_whole_and_tenths() {
    let binds = vec![Bind::Interval(interval("sens", 150, 250, 50, 150))];
    let text = generate_binds(&binds).unwrap();
    assert!(text.starts_with("alias set_sens_1_5 \"snd_musicvolume 1.5; bind f7 set_sens_2;"));
    assert!(text.contains("alias set_sens_2_5 \"snd_musicvolume 2.5; bind f7 set_sens_2_5; bind f8 set_sens_2\""));
    assert!(text.ends_with("\nset_sens_1_5"));
}

#[test]
fn first_form_generates_toggles_and_intervals_only() {
    let binds = vec![
        execute(),
        toggle(),
        repeat_say(),
        Bind::Interval(interval("music", 0, 100, 50, 50)),
    ];
    let expected = [
        "bind ; set_walk_fwd__on\nalias set_walk_fwd__on \"+forward;bind ; set_walk_fwd__off\"\nalias set_walk_fwd__off \"-forward;bind ; set_walk_fwd__on\"",
        "alias set_music_0 \"snd_musicvolume 0; bind f7 set_music_0_5; bind f8 set_music_0\"",
        "alias set_music_0_5 \"snd_musicvolume 0.5; bind f7 set_music_1; bind f8 set_music_0\"",
        "alias set_music_1 \"snd_musicvolume 1; bind f7 set_music_1; bind f8 set_music_0_5\"",
        "bind f7 set_music_0_5",
        "bind f8 set_music_0_5",
    ]
    .join("\n");
    assert_eq!(commands::generate_binds(&binds), expected);
}

#[test]
fn configuration_without_cycles_always_generates() {
    let binds = vec![execute(), toggle(), repeat_say(), Bind::Interval(interval("m", 0, 100, 10, 33))];
    assert!(generate_binds(&binds).is_ok());
}

#[test]
fn interval_aliases_are_distinct() {
    let binds = vec![Bind::Interval(interval("m", -250, 250, 7, 3))];
    let text = generate_binds(&binds).unwrap();
    let aliases: Vec<&str> = text
        .lines()
        .filter_map(|l| l.strip_prefix("alias "))
        .map(|l| l.split(' ').next().unwrap())
        .collect();
    let mut sorted = aliases.clone();
    sorted.sort();
    sorted.dedup();
    assert_eq!(sorted.len(), aliases.len());
    assert_eq!(aliases.len(), ladder_values(&interval("m", -250, 250, 7, 3)).len());
}

#[test]
fn ladder_keeps_unrounded_min_and_default() {
    let b = interval_exact("m", 333, 1000, 250, 500);
    assert_eq!(
        ladder_values_in(&b, true),
        vec![333 * THOUSANDTH, 500 * THOUSANDTH, 750 * THOUSANDTH, 1000 * THOUSANDTH]
    );
    let text = generate_binds(&vec![Bind::Interval(b)]).unwrap();
    let expected = [
        "alias set_m_0_333 \"snd_musicvolume 0.333; bind f7 set_m_0_5; bind f8 set_m_0_333\"",
        "alias set_m_0_5 \"snd_musicvolume 0.5; bind f7 set_m_0_75; bind f8 set_m_0_333\"",
        "alias set_m_0_75 \"snd_musicvolume 0.75; bind f7 set_m_1; bind f8 set_m_0_5\"",
        "alias set_m_1 \"snd_musicvolume 1; bind f7 set_m_1; bind f8 set_m_0_75\"",
        "set_m_0_5",
    ]
    .join("\n");
    assert_eq!(text, expected);
}

#[test]
fn ladder_rounds_steps_but_lands_on_unrounded_default() {
    let b = interval_exact("m", 100, 500, 100, 333);
    assert_eq!(
        ladder_values_in(&b, true),
        [100, 200, 300, 333, 430, 500].iter().map(|v| v * THOUSANDTH).collect::<Vec<i64>>()
    );
    let text = generate_binds(&vec![Bind::Interval(b)]).unwrap();
    assert!(text.ends_with("\nset_m_0_333"));
}

#[test]
fn first_form_shows_values_rounded() {
    let b = interval_exact("m", 100, 500, 100, 333);
    assert_eq!(
        ladder_values_in(&b, false),
        [100, 200, 300, 333, 433, 500].iter().map(|v| v * THOUSANDTH).collect::<Vec<i64>>()
    );
    let text = commands::generate_binds(&vec![Bind::Interval(b)]);
    assert!(text.contains("alias set_m_0_33 \"snd_musicvolume 0.33; bind f7 set_m_0_43; bind f8 set_m_0_3\""));
    assert!(text.ends_with("bind f7 set_m_0_33\nbind f8 set_m_0_33"));
}

#[test]
fn ladder_check_finds_stalled_ladders() {
    assert!(ladder_check(&interval("m", 0, 100, 50, 50), true, 1000));
    assert!(!ladder_check(&interval_exact("m", 0, 1000, 1, 0), true, 1000));
    assert!(ladder_check(&interval_exact("m", 0, 1000, 1, 0), false, 2000));
    assert!(!ladder_check(&interval("m", 0, 100, 0, 0), false, 1000));
}
