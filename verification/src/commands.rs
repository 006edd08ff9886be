//! Console command names derived from bind names, and the first form of the
//! bind generator, which knows toggles and intervals.
use vstd::prelude::*;
use crate::text::{append_replaced, chars_of, replace_char, trim, trim_bounds};
use crate::engine::commands::{
    append_lines, ladder_generates, ladder_initial, ladder_line, ladder_lines, ladder_texts,
};
use crate::engine::ladder::ladder;
use crate::engine::utils::ValueResult;
use crate::model::{Bind, IntervalBind, ToggleBind};
use crate::text::{join, join_exec};

verus! {

/// The console alias name for a bind called `name`: `set_` followed by the
/// name without surrounding white space and with each space turned into `_`.
pub open spec fn cmd_name_spec(name: Seq<char>) -> Seq<char> {
    "set_"@ + replace_char(trim(name), ' ', '_')
}

/// The alias name of the bind `name` for the state `suffix`.
pub open spec fn name_to_cmd_spec(name: Seq<char>, suffix: Seq<char>) -> Seq<char> {
    cmd_name_spec(name) + "_"@ + suffix
}

/// An alias name holds no space, so the console reads it as one word.
pub proof fn law_cmd_name_has_no_spaces(name: Seq<char>)
    ensures
        forall|i: int| 0 <= i < cmd_name_spec(name).len() ==> #[trigger] cmd_name_spec(name)[i] != ' ',
{
    reveal_strlit("set_");
    let r = replace_char(trim(name), ' ', '_');
    assert forall|i: int| 0 <= i < cmd_name_spec(name).len() implies #[trigger] cmd_name_spec(name)[i] != ' ' by {
        if i >= 4 {
            assert(cmd_name_spec(name)[i] == r[i - 4]);
        }
    }
}

/// Every alias of a bind starts with the bind's alias name and `_`, which is
/// what the log reader looks for.
pub proof fn law_aliases_extend_cmd_name(name: Seq<char>, suffix: Seq<char>)
    ensures
        name_to_cmd_spec(name, suffix).take((cmd_name_spec(name).len() + 1) as int) == cmd_name_spec(name) + "_"@,
{
    reveal_strlit("_");
    assert(name_to_cmd_spec(name, suffix).take((cmd_name_spec(name).len() + 1) as int) =~= cmd_name_spec(name) + "_"@);
}

/// The console alias name for a bind called `name`.
pub fn cmd_name(name: &str) -> (res: String)
    ensures
        res@ == cmd_name_spec(name@),
{
    let v = chars_of(name);
    let (lo, hi) = trim_bounds(&v);
    let mut res = String::new();
    res.append("set_");
    append_replaced(&mut res, &v, lo, hi, ' ', '_');
    res
}

/// The alias name of the bind `name` for the state `suffix`:
/// `cmd_name(name)`, `_`, then `suffix`.
pub fn name_to_cmd(name: &str, suffix: &str) -> (res: String)
    ensures
        res@ == name_to_cmd_spec(name@, suffix@),
{
    let mut res = cmd_name(name);
    res.append("_");
    res.append(suffix);
    res
}

/// Generating the say configuration has nothing to do yet: it succeeds.
pub fn process_say() -> (res: ValueResult<()>)
    ensures
        res is Ok,
{
    Ok(())
}


/// The command of a toggle bind in the first form: one text that binds the
/// key to the `_on` alias and defines the `_on` and `_off` aliases, which
/// rebind the key to each other.
pub open spec fn toggle_command(b: ToggleBind) -> Seq<char> {
    let on = name_to_cmd_spec(b.name@, "_on"@);
    let off = name_to_cmd_spec(b.name@, "_off"@);
    "bind "@ + b.key@ + " "@ + on + "\nalias "@ + on + " \""@ + b.console_activate@ + ";bind "@
        + b.key@ + " "@ + off + "\""@ + "\nalias "@ + off + " \""@ + b.console_deactivate@
        + ";bind "@ + b.key@ + " "@ + on + "\""@
}

/// The lines of an interval bind in the first form: the alias of each value
/// of the unrounded ladder, shown rounded to a hundredth, then the up and
/// down keys bound to the starting alias.
pub open spec fn interval_lines(b: IntervalBind) -> Seq<Seq<char>> {
    Seq::new(ladder(b, false).len(), |i: int| ladder_line(b, b.up_key@, b.down_key@, false, i)).push(
        "bind "@ + b.up_key@ + " "@ + ladder_initial(b, false),
    ).push("bind "@ + b.down_key@ + " "@ + ladder_initial(b, false))
}

/// The lines of one bind in the first form; it generates nothing for the
/// kinds it does not know.
pub open spec fn bind_lines(b: Bind) -> Seq<Seq<char>> {
    match b {
        Bind::Toggle(x) => seq![toggle_command(x)],
        Bind::Interval(x) => interval_lines(x),
        _ => Seq::empty(),
    }
}

/// The lines of all binds in the first form, in order.
pub open spec fn config_lines(binds: Seq<Bind>) -> Seq<Seq<char>>
    decreases binds.len(),
{
    if binds.len() == 0 {
        Seq::empty()
    } else {
        config_lines(binds.drop_last()) + bind_lines(binds.last())
    }
}

fn toggle_command_exec(b: &ToggleBind) -> (res: String)
    ensures
        res@ == toggle_command(*b),
{
    let on = name_to_cmd(b.name.as_str(), "_on");
    let off = name_to_cmd(b.name.as_str(), "_off");
    let mut res = String::new();
    res.append("bind ");
    res.append(b.key.as_str());
    res.append(" ");
    res.append(on.as_str());
    res.append("\nalias ");
    res.append(on.as_str());
    res.append(" \"");
    res.append(b.console_activate.as_str());
    res.append(";bind ");
    res.append(b.key.as_str());
    res.append(" ");
    res.append(off.as_str());
    res.append("\"");
    res.append("\nalias ");
    res.append(off.as_str());
    res.append(" \"");
    res.append(b.console_deactivate.as_str());
    res.append(";bind ");
    res.append(b.key.as_str());
    res.append(" ");
    res.append(on.as_str());
    res.append("\"");
    res
}

fn interval_lines_exec(b: &IntervalBind) -> (res: Vec<String>)
    requires
        ladder_generates(*b, false),
    ensures
        res.deep_view() == interval_lines(*b),
{
    let (aliases, commands, initial) = ladder_texts(b, false);
    let mut lines = ladder_lines(b, false, &aliases, &commands, b.up_key.as_str(), b.down_key.as_str());
    let mut up = String::new();
    up.append("bind ");
    up.append(b.up_key.as_str());
    up.append(" ");
    up.append(initial.as_str());
    let mut down = String::new();
    down.append("bind ");
    down.append(b.down_key.as_str());
    down.append(" ");
    down.append(initial.as_str());
    lines.push(up);
    lines.push(down);
    assert(lines.deep_view() =~= interval_lines(*b));
    lines
}

/// The bind configuration in the first form: the lines of the toggles and
/// intervals, in order, separated by line breaks.
pub fn generate_binds(binds: &Vec<Bind>) -> (res: String)
    requires
        forall|i: int| 0 <= i < binds@.len() ==> (#[trigger] binds@[i] matches Bind::Interval(x)
            ==> ladder_generates(x, false)),
    ensures
        res@ == join(config_lines(binds@), "\n"@),
{
    let ghost all = binds@;
    let mut lines: Vec<String> = Vec::new();
    for i in 0..binds.len()
        invariant
            all == binds@,
            forall|j: int| 0 <= j < all.len() ==> (#[trigger] all[j] matches Bind::Interval(x)
                ==> ladder_generates(x, false)),
            lines.deep_view() == config_lines(all.take(i as int)),
    {
        assert(all.take(i + 1).drop_last() =~= all.take(i as int));
        assert(all.take(i + 1).last() == all[i as int]);
        match &binds[i] {
            Bind::Toggle(b) => {
                let command = toggle_command_exec(b);
                append_lines(&mut lines, vec![command]);
            },
            Bind::Interval(b) => {
                assert(all[i as int] matches Bind::Interval(x) ==> ladder_generates(x, false));
                append_lines(&mut lines, interval_lines_exec(b));
            },
            _ => {},
        }
        assert(lines.deep_view() =~= config_lines(all.take(i + 1)));
    }
    assert(all.take(binds@.len() as int) =~= all);
    join_exec(&lines, "\n")
}

} // verus!
