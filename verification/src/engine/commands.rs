//! The generator of the bind configuration: the console lines for each bind
//! of a configuration.
use vstd::prelude::*;
pub use crate::commands::{cmd_name, name_to_cmd};
use crate::commands::{cmd_name_spec, name_to_cmd_spec};
use crate::engine::ladder::{
    hundredth, ladder, ladder_finishes, ladder_fits, ladder_values, law_ladder_climbs, round_hundredth,
    round_hundredth_exec,
};
use crate::engine::utils::CommandError;
use crate::model::{Bind, CycleBind, ExecuteBind, IntervalBind, RepeatSayBind, ToggleBind};
use crate::text::{
    append_replaced, chars_of, decimal_text, int_text, join, join_exec, push_decimal, push_nat,
    is_white_space, law_decimal_text_injective, law_replace_char_injective, law_trim_idempotent,
    lemma_decimal_text_no_underscore, replace_char, same_text, trim, trim_bounds,
};

verus! {

// ---------------------------------------------------------------------------
// Keys
// ---------------------------------------------------------------------------

/// The key name as the console expects it: without surrounding white
/// space, and `semicolon` for the key `;`.
pub open spec fn clean_key_spec(key: Seq<char>) -> Seq<char> {
    if trim(key) == seq![';'] {
        "semicolon"@
    } else {
        trim(key)
    }
}

/// The key name as the console expects it.
pub fn clean_key(key: &str) -> (res: &str)
    ensures
        res@ == clean_key_spec(key@),
{
    let v = chars_of(key);
    let (lo, hi) = trim_bounds(&v);
    if hi - lo == 1 && v[lo] == ';' {
        assert(v@.subrange(lo as int, hi as int) =~= seq![';']);
        "semicolon"
    } else {
        proof {
            let t = v@.subrange(lo as int, hi as int);
            if t == seq![';'] {
                assert(t.len() == 1);
                assert(t[0] == ';');
                assert(t[0] == v@[lo as int]);
            }
        }
        key.substring_char(lo, hi)
    }
}

// ---------------------------------------------------------------------------
// What each kind of bind generates
// ---------------------------------------------------------------------------

/// The line of an execute bind: the key runs the commands joined by `;`.
pub open spec fn execute_line(b: ExecuteBind) -> Seq<char> {
    "bind "@ + clean_key_spec(b.key@) + " \""@ + join(b.commands.deep_view(), ";"@) + "\""@
}

/// The alias that a repeat-say bind's record key runs.
pub open spec fn record_alias(b: RepeatSayBind) -> Seq<char> {
    name_to_cmd_spec(b.name@, "record"@)
}

/// The lines of a repeat-say bind: the record alias, the record key, and
/// the send key that executes the file of the said line.
pub open spec fn repeat_say_lines(b: RepeatSayBind) -> Seq<Seq<char>> {
    let alias = record_alias(b);
    let record = clean_key_spec(b.record_key@);
    seq![
        "alias "@ + alias + " \"echo READ_LAST;bind "@ + record + " "@ + alias + "\""@,
        "bind "@ + record + " "@ + alias,
        "bind "@ + clean_key_spec(b.send_key@) + " \"exec "@ + b.filename@ + "\""@,
    ]
}

/// The lines of a toggle bind: the key starts on the `on` alias, and each of
/// the `on` and `off` aliases runs its command and rebinds the key to the
/// other one.
pub open spec fn toggle_lines(b: ToggleBind) -> Seq<Seq<char>> {
    let on = name_to_cmd_spec(b.name@, "on"@);
    let off = name_to_cmd_spec(b.name@, "off"@);
    let key = clean_key_spec(b.key@);
    seq![
        "bind "@ + key + " "@ + on,
        "\nalias "@ + on + " \""@ + b.console_activate@ + ";bind "@ + key + " "@ + off + "\""@,
        "\nalias "@ + off + " \""@ + b.console_deactivate@ + ";bind "@ + key + " "@ + on + "\""@,
    ]
}

/// The alias of an interval bind for the setting `v` (in billionths): the
/// setting's decimal notation with `_` for the decimal point.
pub open spec fn interval_alias(b: IntervalBind, v: int) -> Seq<char> {
    name_to_cmd_spec(b.name@, replace_char(decimal_text(v), '.', '_'))
}

/// The console command that sets an interval bind's setting to `v`.
pub open spec fn interval_command(b: IntervalBind, v: int) -> Seq<char> {
    b.console@ + " "@ + decimal_text(v)
}

/// The setting shown for a ladder value: as it stands where the steps are
/// rounded (the current form), rounded to a hundredth where they are not
/// (the first form).
pub open spec fn shown_setting(v: int, rounds_steps: bool) -> int {
    if rounds_steps {
        v
    } else {
        round_hundredth(v)
    }
}

/// The position after `i` on a ladder of `n` values, staying on the last.
pub open spec fn next_position(i: int, n: int) -> int {
    if i + 1 < n { i + 1 } else { n - 1 }
}

/// The position before `i`, staying on the first.
pub open spec fn prev_position(i: int) -> int {
    if i == 0 { 0 } else { i - 1 }
}

/// The alias of the `i`-th value of the ladder.
pub open spec fn ladder_alias(b: IntervalBind, rounds_steps: bool, i: int) -> Seq<char> {
    interval_alias(b, shown_setting(ladder(b, rounds_steps)[i], rounds_steps))
}

/// The command of the `i`-th value of the ladder.
pub open spec fn ladder_command(b: IntervalBind, rounds_steps: bool, i: int) -> Seq<char> {
    interval_command(b, shown_setting(ladder(b, rounds_steps)[i], rounds_steps))
}

/// The alias line for the `i`-th value of the ladder, with the key names
/// `up` and `down`: it sets the value, binds the up key to the next alias
/// and the down key to the previous one.
pub open spec fn ladder_line(b: IntervalBind, up: Seq<char>, down: Seq<char>, rounds_steps: bool, i: int) -> Seq<char> {
    let n = ladder(b, rounds_steps).len() as int;
    "alias "@ + ladder_alias(b, rounds_steps, i) + " \""@ + ladder_command(b, rounds_steps, i)
        + "; bind "@ + up + " "@ + ladder_alias(b, rounds_steps, next_position(i, n))
        + "; bind "@ + down + " "@ + ladder_alias(b, rounds_steps, prev_position(i)) + "\""@
}

/// The alias line for the `i`-th value of the current ladder, with the keys
/// cleaned.
pub open spec fn interval_line(b: IntervalBind, i: int) -> Seq<char> {
    ladder_line(b, clean_key_spec(b.up_key@), clean_key_spec(b.down_key@), true, i)
}

/// The alias an interval bind starts on: that of `default` when the ladder
/// visits it, else that of the first value.
pub open spec fn ladder_initial(b: IntervalBind, rounds_steps: bool) -> Seq<char> {
    if ladder(b, rounds_steps).contains(b.default as int) {
        interval_alias(b, shown_setting(b.default as int, rounds_steps))
    } else {
        ladder_alias(b, rounds_steps, 0)
    }
}

/// The alias an interval bind starts on in the current form.
pub open spec fn interval_initial(b: IntervalBind) -> Seq<char> {
    ladder_initial(b, true)
}

/// The lines of an interval bind: one alias per value of the ladder, then
/// the initial alias, which puts the bind in its starting state.
pub open spec fn interval_lines(b: IntervalBind) -> Seq<Seq<char>> {
    Seq::new(ladder(b, true).len(), |i: int| interval_line(b, i)).push(interval_initial(b))
}

/// The ladder of an interval can be generated: it ends, and its values fit
/// the settings' integer type.
pub open spec fn ladder_generates(b: IntervalBind, rounds_steps: bool) -> bool {
    ladder_finishes(b, rounds_steps) && ladder_fits(b, rounds_steps)
}

/// The lines a bind other than a cycle generates (a cycle's come later).
pub open spec fn own_lines(b: Bind) -> Seq<Seq<char>> {
    match b {
        Bind::Execute(x) => seq![execute_line(x)],
        Bind::RepeatSay(x) => repeat_say_lines(x),
        Bind::Toggle(x) => toggle_lines(x),
        Bind::Interval(x) => interval_lines(x),
        Bind::Cycle(_) => Seq::empty(),
    }
}

/// What a cycle runs for a bind other than a cycle: an execute bind's line,
/// the other kinds' lines joined by line breaks, an interval's initial
/// alias.
pub open spec fn bind_entry(b: Bind) -> Seq<char> {
    match b {
        Bind::Execute(x) => execute_line(x),
        Bind::RepeatSay(x) => join(repeat_say_lines(x), "\n"@),
        Bind::Toggle(x) => join(toggle_lines(x), "\n"@),
        Bind::Interval(x) => interval_initial(x),
        Bind::Cycle(_) => Seq::empty(),
    }
}

// ---------------------------------------------------------------------------
// The whole configuration
// ---------------------------------------------------------------------------

/// The lines of all binds other than cycles, in the configuration's order.
pub open spec fn plain_lines(binds: Seq<Bind>) -> Seq<Seq<char>>
    decreases binds.len(),
{
    if binds.len() == 0 {
        Seq::empty()
    } else {
        plain_lines(binds.drop_last()) + own_lines(binds.last())
    }
}

/// The (name, entry) pairs of the binds other than cycles, in order.
pub open spec fn registry(binds: Seq<Bind>) -> Seq<(Seq<char>, Seq<char>)>
    decreases binds.len(),
{
    if binds.len() == 0 {
        Seq::empty()
    } else {
        let r = registry(binds.drop_last());
        match binds.last() {
            Bind::Cycle(_) => r,
            b => r.push((b.name_spec(), bind_entry(b))),
        }
    }
}

/// The entry registered last under `key`: a later bind of the same name
/// replaces an earlier one.
pub open spec fn lookup(reg: Seq<(Seq<char>, Seq<char>)>, key: Seq<char>) -> Option<Seq<char>>
    decreases reg.len(),
{
    if reg.len() == 0 {
        None
    } else if reg.last().0 == key {
        Some(reg.last().1)
    } else {
        lookup(reg.drop_last(), key)
    }
}

/// The alias of a cycle for its `i`-th position.
pub open spec fn cycle_alias(c: CycleBind, i: int) -> Seq<char> {
    name_to_cmd_spec(c.name@, int_text(i))
}

/// The first position at or after `i` whose bind name has no entry.
pub open spec fn first_missing(names: Seq<Seq<char>>, reg: Seq<(Seq<char>, Seq<char>)>, i: int) -> Option<int>
    decreases names.len() - i,
{
    if i < 0 || i >= names.len() {
        None
    } else if lookup(reg, names[i]) is None {
        Some(i)
    } else {
        first_missing(names, reg, i + 1)
    }
}

/// The alias line of a cycle for its `i`-th position: it runs that bind's
/// entry and rebinds the key to the next position, the last to the first.
pub open spec fn cycle_line(c: CycleBind, reg: Seq<(Seq<char>, Seq<char>)>, i: int) -> Seq<char> {
    let n = c.bind_names@.len() as int;
    "alias "@ + cycle_alias(c, i) + " \""@ + lookup(reg, c.bind_names@[i]@)->0 + "; \"bind "@
        + clean_key_spec(c.key@) + " "@ + cycle_alias(c, if i + 1 == n { 0 } else { i + 1 })
        + "\"\""@
}

/// The lines of a cycle, or the message that names the first of its bind
/// names that has no entry.
pub open spec fn cycle_result(c: CycleBind, reg: Seq<(Seq<char>, Seq<char>)>) -> Result<
    Seq<Seq<char>>,
    Seq<char>,
> {
    let names = c.bind_names.deep_view();
    match first_missing(names, reg, 0) {
        Some(i) => Err("Bind name '"@ + names[i] + "' does not exist!"@),
        None => Ok(
            Seq::new(names.len(), |i: int| cycle_line(c, reg, i)).push(
                "bind "@ + clean_key_spec(c.key@) + " "@ + cycle_alias(c, c.default as int),
            ),
        ),
    }
}

/// The lines of the cycles, in order, or the message of the first cycle
/// that names a missing bind.
pub open spec fn cycle_lines(binds: Seq<Bind>, reg: Seq<(Seq<char>, Seq<char>)>) -> Result<
    Seq<Seq<char>>,
    Seq<char>,
>
    decreases binds.len(),
{
    if binds.len() == 0 {
        Ok(Seq::empty())
    } else {
        match cycle_lines(binds.drop_last(), reg) {
            Err(m) => Err(m),
            Ok(ls) => match binds.last() {
                Bind::Cycle(c) => match cycle_result(c, reg) {
                    Ok(l) => Ok(ls + l),
                    Err(m) => Err(m),
                },
                _ => Ok(ls),
            },
        }
    }
}

/// Every cycle that the generator reaches with all its bind names known
/// starts at one of its positions.
pub open spec fn cycles_start_in_range(binds: Seq<Bind>, reg: Seq<(Seq<char>, Seq<char>)>) -> bool
    decreases binds.len(),
{
    if binds.len() == 0 {
        true
    } else {
        &&& cycles_start_in_range(binds.drop_last(), reg)
        &&& match binds.last() {
            Bind::Cycle(c) => (cycle_lines(binds.drop_last(), reg) is Ok && first_missing(
                c.bind_names.deep_view(),
                reg,
                0,
            ) is None) ==> c.default < c.bind_names@.len(),
            _ => true,
        }
    }
}

/// The configuration can be generated: every interval's ladder finishes,
/// and every cycle reached starts at one of its positions.
pub open spec fn generation_defined(binds: Seq<Bind>) -> bool {
    &&& forall|i: int| 0 <= i < binds.len() ==> (#[trigger] binds[i] matches Bind::Interval(x)
        ==> ladder_generates(x, true))
    &&& cycles_start_in_range(binds, registry(binds))
}

/// All generated lines: those of the binds other than cycles, in order,
/// then those of the cycles, which run the entries of the others; or the
/// message of the first cycle that names a missing bind.
pub open spec fn generated_lines(binds: Seq<Bind>) -> Result<Seq<Seq<char>>, Seq<char>> {
    match cycle_lines(binds, registry(binds)) {
        Ok(cl) => Ok(plain_lines(binds) + cl),
        Err(m) => Err(m),
    }
}

// ---------------------------------------------------------------------------
// Executable generation
// ---------------------------------------------------------------------------

fn execute_line_exec(b: &ExecuteBind) -> (res: String)
    ensures
        res@ == execute_line(*b),
{
    let mut res = String::new();
    res.append("bind ");
    res.append(clean_key(b.key.as_str()));
    res.append(" \"");
    res.append(join_exec(&b.commands, ";").as_str());
    res.append("\"");
    res
}

fn repeat_say_lines_exec(b: &RepeatSayBind) -> (res: Vec<String>)
    ensures
        res.deep_view() == repeat_say_lines(*b),
{
    let alias = name_to_cmd(b.name.as_str(), "record");
    let record = clean_key(b.record_key.as_str());
    let mut l1 = String::new();
    l1.append("alias ");
    l1.append(alias.as_str());
    l1.append(" \"echo READ_LAST;bind ");
    l1.append(record);
    l1.append(" ");
    l1.append(alias.as_str());
    l1.append("\"");
    let mut l2 = String::new();
    l2.append("bind ");
    l2.append(record);
    l2.append(" ");
    l2.append(alias.as_str());
    let mut l3 = String::new();
    l3.append("bind ");
    l3.append(clean_key(b.send_key.as_str()));
    l3.append(" \"exec ");
    l3.append(b.filename.as_str());
    l3.append("\"");
    let res = vec![l1, l2, l3];
    assert(res.deep_view() =~= repeat_say_lines(*b));
    res
}

fn toggle_lines_exec(b: &ToggleBind) -> (res: Vec<String>)
    ensures
        res.deep_view() == toggle_lines(*b),
{
    let on = name_to_cmd(b.name.as_str(), "on");
    let off = name_to_cmd(b.name.as_str(), "off");
    let key = clean_key(b.key.as_str());
    let mut l1 = String::new();
    l1.append("bind ");
    l1.append(key);
    l1.append(" ");
    l1.append(on.as_str());
    let mut l2 = String::new();
    l2.append("\nalias ");
    l2.append(on.as_str());
    l2.append(" \"");
    l2.append(b.console_activate.as_str());
    l2.append(";bind ");
    l2.append(key);
    l2.append(" ");
    l2.append(off.as_str());
    l2.append("\"");
    let mut l3 = String::new();
    l3.append("\nalias ");
    l3.append(off.as_str());
    l3.append(" \"");
    l3.append(b.console_deactivate.as_str());
    l3.append(";bind ");
    l3.append(key);
    l3.append(" ");
    l3.append(on.as_str());
    l3.append("\"");
    let res = vec![l1, l2, l3];
    assert(res.deep_view() =~= toggle_lines(*b));
    res
}


/// Moves the lines of `more` to the end of `lines`.
pub(crate) fn append_lines(lines: &mut Vec<String>, more: Vec<String>)
    ensures
        final(lines).deep_view() == old(lines).deep_view() + more.deep_view(),
{
    let ghost start = lines.deep_view();
    let mut i: usize = 0;
    while i < more.len()
        invariant
            i <= more.len(),
            lines.deep_view() == start + more.deep_view().take(i as int),
        decreases more.len() - i,
    {
        let ghost before = lines.deep_view();
        let item = more[i].clone();
        assert(item@ == more.deep_view()[i as int]);
        lines.push(item);
        assert(lines.deep_view() =~= before.push(item@));
        assert(more.deep_view().take(i + 1) =~= more.deep_view().take(i as int).push(item@));
        i = i + 1;
    }
    assert(more.deep_view().take(more.len() as int) =~= more.deep_view());
}

/// The decimal notation of `v` billionths with `_` for the decimal point.
fn decimal_suffix(v: i128) -> (res: String)
    requires
        -0x1_0000_0000_0000_0000 <= v <= 0x1_0000_0000_0000_0000,
    ensures
        res@ == replace_char(decimal_text(v as int), '.', '_'),
{
    let mut text = String::new();
    push_decimal(&mut text, v);
    let cs = chars_of(text.as_str());
    let mut res = String::new();
    append_replaced(&mut res, &cs, 0, cs.len(), '.', '_');
    assert(cs@.subrange(0, cs@.len() as int) =~= cs@);
    assert(res@ =~= replace_char(decimal_text(v as int), '.', '_'));
    res
}

pub(crate) fn interval_alias_exec(b: &IntervalBind, v: i128) -> (res: String)
    requires
        -0x1_0000_0000_0000_0000 <= v <= 0x1_0000_0000_0000_0000,
    ensures
        res@ == interval_alias(*b, v as int),
{
    let suffix = decimal_suffix(v);
    name_to_cmd(b.name.as_str(), suffix.as_str())
}

/// The aliases and commands of the ladder of `b`, value by value, and the
/// alias the bind starts on.
pub(crate) fn ladder_texts(b: &IntervalBind, rounds_steps: bool) -> (res: (Vec<String>, Vec<String>, String))
    requires
        ladder_generates(*b, rounds_steps),
    ensures
        res.0@.len() == res.1@.len() == ladder(*b, rounds_steps).len() >= 1,
        forall|j: int| 0 <= j < res.0@.len() ==> #[trigger] res.0@[j]@ == ladder_alias(*b, rounds_steps, j),
        forall|j: int| 0 <= j < res.1@.len() ==> #[trigger] res.1@[j]@ == ladder_command(*b, rounds_steps, j),
        res.2@ == ladder_initial(*b, rounds_steps),
{
    let values = ladder_values(b, rounds_steps);
    let ghost s = ladder(*b, rounds_steps);
    let n = values.len();
    assert(s.len() >= 1 && s[0] == b.min as int) by {
        let f = crate::engine::ladder::ladder_length_bound(*b, rounds_steps);
        assert(f > 0);
    }
    let mut aliases: Vec<String> = Vec::new();
    let mut commands: Vec<String> = Vec::new();
    let mut default_alias: Option<String> = None;
    for i in 0..n
        invariant
            n == values@.len() == s.len(),
            s == ladder(*b, rounds_steps),
            forall|j: int| 0 <= j < n ==> values@[j] as int == #[trigger] s[j],
            aliases@.len() == i,
            commands@.len() == i,
            forall|j: int| 0 <= j < i ==> #[trigger] aliases@[j]@ == ladder_alias(*b, rounds_steps, j),
            forall|j: int| 0 <= j < i ==> #[trigger] commands@[j]@ == ladder_command(*b, rounds_steps, j),
            default_alias is Some <==> s.take(i as int).contains(b.default as int),
            default_alias matches Some(d) ==> d@ == interval_alias(*b, shown_setting(b.default as int, rounds_steps)),
    {
        let v = values[i];
        let shown: i128 = if rounds_steps {
            v as i128
        } else {
            round_hundredth_exec(v as i128)
        };
        proof {
            crate::engine::ladder::lemma_round_hundredth(v as int);
        }
        let mut command = String::new();
        command.append(b.console.as_str());
        command.append(" ");
        push_decimal(&mut command, shown);
        let alias = interval_alias_exec(b, shown);
        proof {
            assert(s.take(i + 1) =~= s.take(i as int).push(s[i as int]));
        }
        if v == b.default {
            default_alias = Some(alias.clone());
        }
        proof {
            let d = b.default as int;
            let t1 = s.take(i + 1);
            if v == b.default {
                assert(t1[i as int] == d);
            } else if t1.contains(d) {
                let k = choose|k: int| 0 <= k < t1.len() && t1[k] == d;
                assert(k < i);
                assert(s.take(i as int)[k] == d);
            }
            if s.take(i as int).contains(d) {
                let k = choose|k: int| 0 <= k < i && s.take(i as int)[k] == d;
                assert(t1[k] == d);
            }
        }
        aliases.push(alias);
        commands.push(command);
    }
    assert(s.take(n as int) =~= s);
    let initial = match default_alias {
        Some(d) => d,
        None => aliases[0].clone(),
    };
    (aliases, commands, initial)
}

/// The alias lines of the ladder of `b`, with the key names `up` and `down`.
pub(crate) fn ladder_lines(
    b: &IntervalBind,
    rounds_steps: bool,
    aliases: &Vec<String>,
    commands: &Vec<String>,
    up: &str,
    down: &str,
) -> (res: Vec<String>)
    requires
        aliases@.len() == commands@.len() == ladder(*b, rounds_steps).len() >= 1,
        forall|j: int| 0 <= j < aliases@.len() ==> #[trigger] aliases@[j]@ == ladder_alias(*b, rounds_steps, j),
        forall|j: int| 0 <= j < commands@.len() ==> #[trigger] commands@[j]@ == ladder_command(*b, rounds_steps, j),
    ensures
        res.deep_view() == Seq::new(
            ladder(*b, rounds_steps).len(),
            |i: int| ladder_line(*b, up@, down@, rounds_steps, i),
        ),
{
    let n = aliases.len();
    let mut lines: Vec<String> = Vec::new();
    for i in 0..n
        invariant
            n == ladder(*b, rounds_steps).len() == aliases@.len() == commands@.len(),
            n >= 1,
            forall|j: int| 0 <= j < n ==> #[trigger] aliases@[j]@ == ladder_alias(*b, rounds_steps, j),
            forall|j: int| 0 <= j < n ==> #[trigger] commands@[j]@ == ladder_command(*b, rounds_steps, j),
            lines.deep_view() =~= Seq::new(i as nat, |j: int| ladder_line(*b, up@, down@, rounds_steps, j)),
    {
        let next = if i + 1 < n { i + 1 } else { n - 1 };
        let prev = if i == 0 { 0 } else { i - 1 };
        let mut line = String::new();
        line.append("alias ");
        line.append(aliases[i].as_str());
        line.append(" \"");
        line.append(commands[i].as_str());
        line.append("; bind ");
        line.append(up);
        line.append(" ");
        line.append(aliases[next].as_str());
        line.append("; bind ");
        line.append(down);
        line.append(" ");
        line.append(aliases[prev].as_str());
        line.append("\"");
        proof {
            assert(next as int == next_position(i as int, n as int));
            assert(prev as int == prev_position(i as int));
            assert(aliases@[next as int]@ == ladder_alias(*b, rounds_steps, next as int));
            assert(aliases@[prev as int]@ == ladder_alias(*b, rounds_steps, prev as int));
            assert(aliases@[i as int]@ == ladder_alias(*b, rounds_steps, i as int));
            assert(commands@[i as int]@ == ladder_command(*b, rounds_steps, i as int));
            assert(line@ =~= ladder_line(*b, up@, down@, rounds_steps, i as int));
        }
        let ghost before = lines.deep_view();
        lines.push(line);
        assert(lines.deep_view() =~= before.push(ladder_line(*b, up@, down@, rounds_steps, i as int)));
    }
    lines
}

/// The lines of an interval bind and the alias it starts on.
fn interval_output(b: &IntervalBind) -> (res: (Vec<String>, String))
    requires
        ladder_generates(*b, true),
    ensures
        res.0.deep_view() == interval_lines(*b),
        res.1@ == interval_initial(*b),
{
    let (aliases, commands, initial) = ladder_texts(b, true);
    let up = clean_key(b.up_key.as_str());
    let down = clean_key(b.down_key.as_str());
    let mut lines = ladder_lines(b, true, &aliases, &commands, up, down);
    assert(Seq::new(ladder(*b, true).len(), |i: int| ladder_line(*b, up@, down@, true, i)) =~= Seq::new(
        ladder(*b, true).len(),
        |i: int| interval_line(*b, i),
    ));
    lines.push(initial.clone());
    assert(lines.deep_view() =~= interval_lines(*b));
    (lines, initial)
}

/// The position in `reg` of the entry registered last under `key`.
fn lookup_exec(reg: &Vec<(String, String)>, key: &str) -> (res: Option<usize>)
    ensures
        match res {
            Some(j) => j < reg@.len() && lookup(reg.deep_view(), key@) == Some(
                reg.deep_view()[j as int].1,
            ),
            None => lookup(reg.deep_view(), key@) is None,
        },
{
    let ghost all = reg.deep_view();
    let mut j = reg.len();
    assert(all.take(j as int) =~= all);
    while j > 0
        invariant
            j <= reg@.len(),
            all == reg.deep_view(),
            lookup(all, key@) == lookup(all.take(j as int), key@),
        decreases j,
    {
        let ghost t = all.take(j as int);
        assert(t.last() == all[j - 1]);
        if same_text(reg[j - 1].0.as_str(), key) {
            return Some(j - 1);
        }
        assert(t.drop_last() =~= all.take(j - 1));
        j = j - 1;
    }
    None
}

/// The lines of a cycle, or the error that names its first missing bind.
fn cycle_output(c: &CycleBind, reg: &Vec<(String, String)>) -> (res: Result<Vec<String>, CommandError>)
    requires
        first_missing(c.bind_names.deep_view(), reg.deep_view(), 0) is None ==> c.default
            < c.bind_names@.len(),
    ensures
        match (res, cycle_result(*c, reg.deep_view())) {
            (Ok(ls), Ok(l)) => ls.deep_view() == l,
            (Err(e), Err(m)) => e matches CommandError::ProcessError(x) && x@ == m,
            _ => false,
        },
{
    let ghost names = c.bind_names.deep_view();
    let ghost r = reg.deep_view();
    let n = c.bind_names.len();
    let mut alias_names: Vec<String> = Vec::new();
    for i in 0..n
        invariant
            n == c.bind_names@.len(),
            alias_names@.len() == i,
            forall|j: int| 0 <= j < i ==> #[trigger] alias_names@[j]@ == cycle_alias(*c, j),
    {
        let mut index = String::new();
        push_nat(&mut index, i as u128);
        alias_names.push(name_to_cmd(c.name.as_str(), index.as_str()));
    }
    let key = clean_key(c.key.as_str());
    let mut cmds: Vec<String> = Vec::new();
    for i in 0..n
        invariant
            n == c.bind_names@.len() == names.len() == alias_names@.len(),
            names == c.bind_names.deep_view(),
            r == reg.deep_view(),
            key@ == clean_key_spec(c.key@),
            forall|j: int| 0 <= j < n ==> #[trigger] alias_names@[j]@ == cycle_alias(*c, j),
            first_missing(names, r, 0) == first_missing(names, r, i as int),
            cmds.deep_view() =~= Seq::new(i as nat, |j: int| cycle_line(*c, r, j)),
    {
        let name = &c.bind_names[i];
        assert(names[i as int] == name@);
        match lookup_exec(reg, name.as_str()) {
            None => {
                let mut msg = String::new();
                msg.append("Bind name '");
                msg.append(name.as_str());
                msg.append("' does not exist!");
                return Err(CommandError::ProcessError(msg));
            },
            Some(j) => {
                let next_index = if i + 1 == n { 0 } else { i + 1 };
                let mut cmd = String::new();
                cmd.append("alias ");
                cmd.append(alias_names[i].as_str());
                cmd.append(" \"");
                cmd.append(reg[j].1.as_str());
                cmd.append("; \"bind ");
                cmd.append(key);
                cmd.append(" ");
                cmd.append(alias_names[next_index].as_str());
                cmd.append("\"\"");
                proof {
                    assert(alias_names@[next_index as int]@ == cycle_alias(*c, next_index as int));
                    assert(cmd@ == cycle_line(*c, r, i as int));
                }
                let ghost before = cmds.deep_view();
                cmds.push(cmd);
                assert(cmds.deep_view() =~= before.push(cycle_line(*c, r, i as int)));
            },
        }
    }
    assert(first_missing(names, r, n as int) is None);
    let mut last = String::new();
    last.append("bind ");
    last.append(key);
    last.append(" ");
    last.append(alias_names[c.default].as_str());
    cmds.push(last);
    assert(cmds.deep_view() =~= Seq::new(n as nat, |j: int| cycle_line(*c, r, j)).push(
        "bind "@ + clean_key_spec(c.key@) + " "@ + cycle_alias(*c, c.default as int),
    ));
    Ok(cmds)
}


proof fn lemma_cycles_start_in_range_prefix(binds: Seq<Bind>, reg: Seq<(Seq<char>, Seq<char>)>, k: int)
    requires
        0 <= k <= binds.len(),
        cycles_start_in_range(binds, reg),
    ensures
        cycles_start_in_range(binds.take(k), reg),
    decreases binds.len() - k,
{
    if k < binds.len() {
        lemma_cycles_start_in_range_prefix(binds.drop_last(), reg, k);
        assert(binds.drop_last().take(k) =~= binds.take(k));
    } else {
        assert(binds.take(k) =~= binds);
    }
}

/// The bind configuration: every generated line, separated by line breaks;
/// or the error of the first cycle that names a bind that does not exist.
pub fn generate_binds(binds: &Vec<Bind>) -> (res: Result<String, CommandError>)
    requires
        generation_defined(binds@),
    ensures
        match (res, generated_lines(binds@)) {
            (Ok(text), Ok(lines)) => text@ == join(lines, "\n"@),
            (Err(e), Err(m)) => e matches CommandError::ProcessError(x) && x@ == m,
            _ => false,
        },
{
    let ghost all = binds@;
    let n = binds.len();
    let mut lines: Vec<String> = Vec::new();
    let mut reg: Vec<(String, String)> = Vec::new();
    for i in 0..n
        invariant
            n == all.len(),
            all == binds@,
            generation_defined(all),
            lines.deep_view() == plain_lines(all.take(i as int)),
            reg.deep_view() == registry(all.take(i as int)),
    {
        let ghost prefix = all.take(i as int);
        assert(all.take(i + 1).drop_last() =~= prefix);
        assert(all.take(i + 1).last() == all[i as int]);
        let ghost before = reg.deep_view();
        match &binds[i] {
            Bind::Execute(b) => {
                let line = execute_line_exec(b);
                reg.push((b.name.clone(), line.clone()));
                append_lines(&mut lines, vec![line]);
            },
            Bind::RepeatSay(b) => {
                let own = repeat_say_lines_exec(b);
                let entry = join_exec(&own, "\n");
                reg.push((b.name.clone(), entry));
                append_lines(&mut lines, own);
            },
            Bind::Toggle(b) => {
                let own = toggle_lines_exec(b);
                let entry = join_exec(&own, "\n");
                reg.push((b.name.clone(), entry));
                append_lines(&mut lines, own);
            },
            Bind::Interval(b) => {
                assert(all[i as int] matches Bind::Interval(x) ==> ladder_generates(x, true));
                let (own, initial) = interval_output(b);
                reg.push((b.name.clone(), initial));
                append_lines(&mut lines, own);
            },
            Bind::Cycle(_) => {},
        }
        assert(reg.deep_view() =~= registry(all.take(i + 1)));
        assert(lines.deep_view() =~= plain_lines(all.take(i + 1)));
    }
    assert(all.take(n as int) =~= all);
    let ghost r = registry(all);
    let mut cycle_out: Vec<String> = Vec::new();
    assert(all.take(0) =~= Seq::<Bind>::empty());
    assert(cycle_out.deep_view() =~= Seq::<Seq<char>>::empty());
    for i in 0..n
        invariant
            n == all.len(),
            all == binds@,
            r == registry(all),
            reg.deep_view() == r,
            cycles_start_in_range(all, r),
            cycle_lines(all.take(i as int), r) == Ok::<Seq<Seq<char>>, Seq<char>>(
                cycle_out.deep_view(),
            ),
    {
        let ghost prefix = all.take(i as int);
        proof {
            assert(all.take(i + 1).drop_last() =~= prefix);
            assert(all.take(i + 1).last() == all[i as int]);
            lemma_cycles_start_in_range_prefix(all, r, i + 1);
        }
        if let Bind::Cycle(c) = &binds[i] {
            match cycle_output(c, &reg) {
                Ok(own) => {
                    append_lines(&mut cycle_out, own);
                },
                Err(e) => {
                    proof {
                        lemma_cycle_error_stays(all, r, i + 1);
                    }
                    return Err(e);
                },
            }
        }
        assert(cycle_lines(all.take(i + 1), r) == Ok::<Seq<Seq<char>>, Seq<char>>(
            cycle_out.deep_view(),
        ));
    }
    append_lines(&mut lines, cycle_out);
    Ok(join_exec(&lines, "\n"))
}

/// Once the cycles of a prefix give an error, the cycles of the whole
/// configuration give the same error.
proof fn lemma_cycle_error_stays(binds: Seq<Bind>, reg: Seq<(Seq<char>, Seq<char>)>, k: int)
    requires
        0 <= k <= binds.len(),
        cycle_lines(binds.take(k), reg) is Err,
    ensures
        cycle_lines(binds, reg) == cycle_lines(binds.take(k), reg),
    decreases binds.len() - k,
{
    if k < binds.len() {
        assert(binds.drop_last().take(k) =~= binds.take(k));
        lemma_cycle_error_stays(binds.drop_last(), reg, k);
    } else {
        assert(binds.take(k) =~= binds);
    }
}


// ---------------------------------------------------------------------------
// Laws
// ---------------------------------------------------------------------------

/// Cleaning a key name that is already clean leaves it as it is.
pub proof fn law_clean_key_idempotent(key: Seq<char>)
    ensures
        clean_key_spec(clean_key_spec(key)) == clean_key_spec(key),
{
    law_trim_idempotent(key);
    if trim(key) == seq![';'] {
        reveal_strlit("semicolon");
        let w = "semicolon"@;
        assert(!is_white_space(w[0]));
        assert(!is_white_space(w.last()));
        assert(trim(w) == w);
        assert(w != seq![';']) by {
            assert(w.len() != 1);
        }
    }
}

/// A cleaned key name is never the raw `;` and has no surrounding white
/// space, so the console reads it as the key.
pub proof fn law_clean_key_is_clean(key: Seq<char>)
    ensures
        clean_key_spec(key) != seq![';'],
        trim(clean_key_spec(key)) == clean_key_spec(key),
{
    law_clean_key_idempotent(key);
    law_trim_idempotent(key);
    reveal_strlit("semicolon");
    if trim(key) == seq![';'] {
        let w = "semicolon"@;
        assert(w.len() != 1);
        assert(!is_white_space(w[0]));
        assert(!is_white_space(w.last()));
        assert(trim(w) == w);
    }
}

/// The alias line of the `i`-th value of an interval sets that value with
/// the bind's console command, binds the cleaned up key to the alias of the
/// next value (the last stays on itself) and the cleaned down key to the
/// alias of the previous value (the first stays on itself); after the alias
/// lines comes the starting alias.
pub proof fn law_interval_lines_step_with_clean_keys(b: IntervalBind, i: int)
    requires
        0 <= i < ladder(b, true).len(),
    ensures
        ({
            let s = ladder(b, true);
            let n = s.len() as int;
            &&& interval_lines(b).len() == n + 1
            &&& interval_lines(b)[n] == interval_initial(b)
            &&& interval_lines(b)[i] == "alias "@ + name_to_cmd_spec(
                b.name@,
                replace_char(decimal_text(s[i]), '.', '_'),
            ) + " \""@ + b.console@ + " "@ + decimal_text(s[i]) + "; bind "@ + clean_key_spec(
                b.up_key@,
            ) + " "@ + name_to_cmd_spec(
                b.name@,
                replace_char(decimal_text(s[if i + 1 < n { i + 1 } else { i }]), '.', '_'),
            ) + "; bind "@ + clean_key_spec(b.down_key@) + " "@ + name_to_cmd_spec(
                b.name@,
                replace_char(decimal_text(s[if i > 0 { i - 1 } else { 0 }]), '.', '_'),
            ) + "\""@
        }),
{
}

/// The alias line of position `i` of a cycle of `n` binds runs that bind's
/// entry and rebinds the cleaned key to the alias of position `(i + 1) mod
/// n`, so that from any start the key visits every position in turn.
pub proof fn law_cycle_steps_to_next_position(c: CycleBind, reg: Seq<(Seq<char>, Seq<char>)>, i: int)
    requires
        0 <= i < c.bind_names@.len(),
    ensures
        cycle_line(c, reg, i) == "alias "@ + name_to_cmd_spec(c.name@, int_text(i)) + " \""@
            + lookup(reg, c.bind_names@[i]@)->0 + "; \"bind "@ + clean_key_spec(c.key@) + " "@
            + name_to_cmd_spec(c.name@, int_text((i + 1) % (c.bind_names@.len() as int))) + "\"\""@,
{
    let n = c.bind_names@.len() as int;
    if i + 1 == n {
        assert((i + 1) % n == 0) by (nonlinear_arith)
            requires
                i + 1 == n,
                n > 0,
        ;
    } else {
        assert((i + 1) % n == i + 1) by (nonlinear_arith)
            requires
                0 <= i + 1 < n,
        ;
    }
}

/// A cycle fails exactly when one of its bind names has no entry, and then
/// its message names the first such bind.
pub proof fn law_cycle_fails_on_first_missing_name(c: CycleBind, reg: Seq<(Seq<char>, Seq<char>)>)
    ensures
        cycle_result(c, reg) is Err <==> exists|i: int|
            0 <= i < c.bind_names@.len() && lookup(reg, #[trigger] c.bind_names@[i]@) is None,
        cycle_result(c, reg) is Err ==> exists|k: int|
            0 <= k < c.bind_names@.len() && lookup(reg, #[trigger] c.bind_names@[k]@) is None
                && (forall|j: int| 0 <= j < k ==> lookup(reg, #[trigger] c.bind_names@[j]@) is Some)
                && cycle_result(c, reg)->Err_0 == "Bind name '"@ + c.bind_names@[k]@
                + "' does not exist!"@,
{
    let names = c.bind_names.deep_view();
    assert(names.len() == c.bind_names@.len());
    assert forall|i: int| 0 <= i < names.len() implies names[i] == c.bind_names@[i]@ by {}
    lemma_first_missing(names, reg, 0);
    if cycle_result(c, reg) is Err {
        let k = first_missing(names, reg, 0)->0;
        assert(names[k] == c.bind_names@[k]@);
        assert(lookup(reg, c.bind_names@[k]@) is None);
        assert forall|j: int| 0 <= j < k implies lookup(reg, #[trigger] c.bind_names@[j]@) is Some by {
            assert(names[j] == c.bind_names@[j]@);
        }
        assert(cycle_result(c, reg)->Err_0 == "Bind name '"@ + c.bind_names@[k]@ + "' does not exist!"@);
    } else {
        assert forall|i: int| 0 <= i < c.bind_names@.len() implies lookup(reg, #[trigger] c.bind_names@[i]@) is Some by {
            assert(names[i] == c.bind_names@[i]@);
        }
    }
}

proof fn lemma_first_missing(names: Seq<Seq<char>>, reg: Seq<(Seq<char>, Seq<char>)>, i: int)
    requires
        0 <= i,
    ensures
        first_missing(names, reg, i) matches Some(k) ==> i <= k < names.len() && lookup(reg, names[k]) is None
            && forall|j: int| i <= j < k ==> lookup(reg, #[trigger] names[j]) is Some,
        first_missing(names, reg, i) is None ==> forall|j: int|
            i <= j < names.len() ==> lookup(reg, #[trigger] names[j]) is Some,
    decreases names.len() - i,
{
    if i < names.len() && lookup(reg, names[i]) is Some {
        lemma_first_missing(names, reg, i + 1);
    }
}

/// Registering an entry under a name makes it the one found for that name,
/// and leaves what is found for every other name as it was.
pub proof fn law_lookup_finds_latest_entry(
    reg: Seq<(Seq<char>, Seq<char>)>,
    name: Seq<char>,
    entry: Seq<char>,
    other: Seq<char>,
)
    requires
        other != name,
    ensures
        lookup(reg.push((name, entry)), name) == Some(entry),
        lookup(reg.push((name, entry)), other) == lookup(reg, other),
{
    assert(reg.push((name, entry)).drop_last() =~= reg);
}

/// A toggle binds its cleaned key to its `on` alias, and the `on` and `off`
/// aliases run their commands and rebind the key to each other.
pub proof fn law_toggle_aliases_alternate(b: ToggleBind)
    ensures
        ({
            let on = cmd_name_spec(b.name@) + "_on"@;
            let off = cmd_name_spec(b.name@) + "_off"@;
            let key = clean_key_spec(b.key@);
            toggle_lines(b) == seq![
                "bind "@ + key + " "@ + on,
                "\nalias "@ + on + " \""@ + b.console_activate@ + ";bind "@ + key + " "@ + off + "\""@,
                "\nalias "@ + off + " \""@ + b.console_deactivate@ + ";bind "@ + key + " "@ + on + "\""@,
            ]
        }),
{
    reveal_strlit("_on");
    reveal_strlit("_off");
    reveal_strlit("_");
    reveal_strlit("on");
    reveal_strlit("off");
    assert(cmd_name_spec(b.name@) + "_on"@ =~= name_to_cmd_spec(b.name@, "on"@));
    assert(cmd_name_spec(b.name@) + "_off"@ =~= name_to_cmd_spec(b.name@, "off"@));
}

/// An interval starts on the alias of its default where the ladder visits
/// the default, else on the alias of its `min`, the ladder's first value.
pub proof fn law_interval_initial(b: IntervalBind)
    requires
        crate::engine::ladder::ladder_finishes(b, true),
    ensures
        ladder(b, true)[0] == b.min,
        interval_initial(b) == name_to_cmd_spec(
            b.name@,
            replace_char(
                decimal_text(
                    if ladder(b, true).contains(b.default as int) {
                        b.default as int
                    } else {
                        b.min as int
                    },
                ),
                '.',
                '_',
            ),
        ),
{
    let f = crate::engine::ladder::ladder_length_bound(b, true);
    assert(f > 0);
}

/// A cycle whose bind names all have entries gives one line per position,
/// in order, then the line that binds the cleaned key to the alias of the
/// default position.
pub proof fn law_cycle_result_lines(c: CycleBind, reg: Seq<(Seq<char>, Seq<char>)>)
    requires
        cycle_result(c, reg) is Ok,
    ensures
        ({
            let ls = cycle_result(c, reg)->Ok_0;
            let n = c.bind_names@.len() as int;
            &&& ls.len() == n + 1
            &&& forall|i: int| 0 <= i < n ==> #[trigger] ls[i] == cycle_line(c, reg, i)
            &&& ls[n] == "bind "@ + clean_key_spec(c.key@) + " "@ + name_to_cmd_spec(
                c.name@,
                int_text(c.default as int),
            )
        }),
{
}

/// An interval whose default lies on its ladder starts on the default's
/// alias; one whose ladder climbs from `min` below `max` always has its
/// default on the ladder when the default lies between `min` and `max`.
pub proof fn law_interval_starts_at_default(b: IntervalBind)
    requires
        b.step >= hundredth(),
        b.min < b.max,
        b.min <= b.default <= b.max,
    ensures
        interval_initial(b) == interval_alias(b, b.default as int),
{
    law_ladder_climbs(b, true);
}

/// Different values of an interval get different aliases, so the up and
/// down keys of each alias lead to exactly one value.
pub proof fn law_interval_aliases_distinct(b: IntervalBind, v: int, w: int)
    requires
        interval_alias(b, v) == interval_alias(b, w),
    ensures
        v == w,
{
    let p = cmd_name_spec(b.name@) + "_"@;
    let x = replace_char(decimal_text(v), '.', '_');
    let y = replace_char(decimal_text(w), '.', '_');
    assert((p + x).skip(p.len() as int) =~= x);
    assert((p + y).skip(p.len() as int) =~= y);
    lemma_decimal_text_no_underscore(v);
    lemma_decimal_text_no_underscore(w);
    law_replace_char_injective(decimal_text(v), decimal_text(w), '.', '_');
    law_decimal_text_injective(v, w);
}

proof fn lemma_no_cycles_no_cycle_lines(binds: Seq<Bind>, reg: Seq<(Seq<char>, Seq<char>)>)
    requires
        forall|i: int| 0 <= i < binds.len() ==> !(#[trigger] binds[i] is Cycle),
    ensures
        cycle_lines(binds, reg) == Ok::<Seq<Seq<char>>, Seq<char>>(Seq::empty()),
    decreases binds.len(),
{
    if binds.len() > 0 {
        let p = binds.drop_last();
        assert forall|i: int| 0 <= i < p.len() implies !(#[trigger] p[i] is Cycle) by {
            assert(p[i] == binds[i]);
        }
        lemma_no_cycles_no_cycle_lines(p, reg);
        assert(!(binds[binds.len() - 1] is Cycle));
    }
}

/// A configuration without cycles always generates: its lines are those of
/// its binds, in order.
pub proof fn law_generation_without_cycles(binds: Seq<Bind>)
    requires
        forall|i: int| 0 <= i < binds.len() ==> !(#[trigger] binds[i] is Cycle),
    ensures
        generated_lines(binds) == Ok::<Seq<Seq<char>>, Seq<char>>(plain_lines(binds)),
{
    lemma_no_cycles_no_cycle_lines(binds, registry(binds));
    assert(plain_lines(binds) + Seq::<Seq<char>>::empty() =~= plain_lines(binds));
}

proof fn lemma_cycle_error_has_cause(binds: Seq<Bind>, reg: Seq<(Seq<char>, Seq<char>)>)
    requires
        cycle_lines(binds, reg) is Err,
    ensures
        exists|i: int|
            0 <= i < binds.len() && (#[trigger] binds[i] matches Bind::Cycle(c) && first_missing(
                c.bind_names.deep_view(),
                reg,
                0,
            ) is Some),
    decreases binds.len(),
{
    let p = binds.drop_last();
    if cycle_lines(p, reg) is Err {
        lemma_cycle_error_has_cause(p, reg);
        let i = choose|i: int|
            0 <= i < p.len() && (#[trigger] p[i] matches Bind::Cycle(c) && first_missing(
                c.bind_names.deep_view(),
                reg,
                0,
            ) is Some);
        assert(binds[i] == p[i]);
    } else {
        let k = binds.len() - 1;
        assert(binds[k] == binds.last());
    }
}

/// Generation fails only where some cycle names a bind that no bind other
/// than a cycle defines.
pub proof fn law_generation_fails_only_on_missing_names(binds: Seq<Bind>)
    requires
        generated_lines(binds) is Err,
    ensures
        exists|i: int|
            0 <= i < binds.len() && (#[trigger] binds[i] matches Bind::Cycle(c) && first_missing(
                c.bind_names.deep_view(),
                registry(binds),
                0,
            ) is Some),
{
    lemma_cycle_error_has_cause(binds, registry(binds));
}

} // verus!
