//! The bind descriptions a configuration holds, how the kind of each entry
//! is told apart, and how each kind of bind renders a value it reports.
use vstd::prelude::*;
use crate::engine::utils::ValueResult;
use crate::text::{chars_of, contains, contains_exec, same_text};

verus! {

/// Turns the value that a bind reports in the console log into the text
/// shown to the user.
pub trait ParseValue {
    fn console_value(&self, value: &str) -> (res: ValueResult<String>);
}

/// A key that runs a fixed list of console commands.
#[derive(Debug, Clone, PartialEq, Eq)]
pub struct ExecuteBind {
    pub name: String,
    pub commands: Vec<String>,
    pub key: String,
}

impl ParseValue for ExecuteBind {
    /// The reported value as it stands.
    fn console_value(&self, value: &str) -> (res: ValueResult<String>)
        ensures
            res matches Ok(s) && s@ == value@,
    {
        Ok(String::from_str(value))
    }
}

/// A pair of keys that record the last chat line of a user and say it
/// again from a file of console commands.
#[derive(Debug, Clone, PartialEq, Eq)]
pub struct RepeatSayBind {
    pub name: String,
    pub user: String,
    pub filename: String,
    pub fullpath: String,
    pub record_key: String,
    pub send_key: String,
}

impl ParseValue for RepeatSayBind {
    /// The reported value as it stands.
    fn console_value(&self, value: &str) -> (res: ValueResult<String>)
        ensures
            res matches Ok(s) && s@ == value@,
    {
        Ok(String::from_str(value))
    }
}

/// A key that switches between two console commands.
#[derive(Debug, Clone, PartialEq, Eq)]
pub struct ToggleBind {
    pub name: String,
    pub console_activate: String,
    pub console_deactivate: String,
    pub key: String,
}

/// What a toggle shows for a reported value: `ON` where it holds `on`,
/// else `OFF` where it holds `off`, else `NA`.
pub open spec fn toggle_display(value: Seq<char>) -> Seq<char> {
    if contains(value, "on"@) {
        "ON"@
    } else if contains(value, "off"@) {
        "OFF"@
    } else {
        "NA"@
    }
}

impl ParseValue for ToggleBind {
    /// `ON`, `OFF` or `NA`, as `toggle_display` says.
    fn console_value(&self, value: &str) -> (res: ValueResult<String>)
        ensures
            res matches Ok(s) && s@ == toggle_display(value@),
    {
        let v = chars_of(value);
        let val = if contains_exec(&v, &chars_of("on")) {
            "ON"
        } else if contains_exec(&v, &chars_of("off")) {
            "OFF"
        } else {
            "NA"
        };
        Ok(String::from_str(val))
    }
}

/// A pair of keys that step a console setting up and down a ladder of
/// values from `min` to `max`.
///
/// The numbers `step`, `min`, `max` and `default` are counted in
/// billionths: the setting `0.25` is held as `250_000_000`.
#[derive(Debug, Clone, PartialEq, Eq)]
pub struct IntervalBind {
    pub name: String,
    pub step: i64,
    pub up_key: String,
    pub down_key: String,
    pub min: i64,
    pub max: i64,
    pub console: String,
    pub default: i64,
}

/// A key that cycles through the commands of other, already generated
/// binds, starting at the one at position `default`.
#[derive(Debug, Clone, PartialEq, Eq)]
pub struct CycleBind {
    pub name: String,
    pub bind_names: Vec<String>,
    pub key: String,
    pub default: usize,
}

/// One bind of the configuration.
#[derive(Debug, Clone, PartialEq, Eq)]
pub enum Bind {
    RepeatSay(RepeatSayBind),
    Execute(ExecuteBind),
    Toggle(ToggleBind),
    Interval(IntervalBind),
    Cycle(CycleBind),
}

impl Bind {
    /// The name the configuration gives this bind.
    pub open spec fn name_spec(self) -> Seq<char> {
        match self {
            Bind::RepeatSay(b) => b.name@,
            Bind::Execute(b) => b.name@,
            Bind::Toggle(b) => b.name@,
            Bind::Interval(b) => b.name@,
            Bind::Cycle(b) => b.name@,
        }
    }

    /// The name the configuration gives this bind.
    pub fn name(&self) -> (res: &String)
        ensures
            res@ == self.name_spec(),
    {
        match self {
            Bind::RepeatSay(b) => &b.name,
            Bind::Execute(b) => &b.name,
            Bind::Toggle(b) => &b.name,
            Bind::Interval(b) => &b.name,
            Bind::Cycle(b) => &b.name,
        }
    }
}

/// The tool's configuration: where the game writes its console log, and
/// the binds to generate.
#[derive(Debug, Clone, PartialEq, Eq)]
pub struct Config {
    pub cs2_console_path: String,
    pub binds: Vec<Bind>,
}

/// The kinds of bind a configuration entry can describe.
#[derive(Debug, Clone, Copy, PartialEq, Eq)]
pub enum BindKind {
    Execute,
    RepeatSay,
    Toggle,
    Interval,
}

/// The kind that a configuration entry's `type` field names, or the message
/// that rejects the entry: `type_field` is the entry's `type` when it is a
/// string, and `entry` the entry as the configuration reader prints it.
pub open spec fn bind_kind_spec(type_field: Option<Seq<char>>, entry: Seq<char>) -> Result<
    BindKind,
    Seq<char>,
> {
    match type_field {
        None => Err("Couldn't find \"name\" key for: "@ + entry),
        Some(t) => if t == "execute"@ {
            Ok(BindKind::Execute)
        } else if t == "repeat_say"@ {
            Ok(BindKind::RepeatSay)
        } else if t == "toggle"@ {
            Ok(BindKind::Toggle)
        } else if t == "interval"@ {
            Ok(BindKind::Interval)
        } else {
            Err("Unknown bind type: "@ + t)
        },
    }
}

/// Decides which kind of bind a configuration entry describes, from its
/// `type` field, as `bind_kind_spec` says.
pub fn bind_kind(type_field: Option<&str>, entry: &str) -> (res: Result<BindKind, String>)
    ensures
        match (res, bind_kind_spec(
            match type_field {
                Some(t) => Some(t@),
                None => None,
            },
            entry@,
        )) {
            (Ok(k), Ok(k2)) => k == k2,
            (Err(m), Err(m2)) => m@ == m2,
            _ => false,
        },
{
    match type_field {
        None => {
            let mut msg = String::new();
            msg.append("Couldn't find \"name\" key for: ");
            msg.append(entry);
            Err(msg)
        },
        Some(t) => {
            if same_text(t, "execute") {
                Ok(BindKind::Execute)
            } else if same_text(t, "repeat_say") {
                Ok(BindKind::RepeatSay)
            } else if same_text(t, "toggle") {
                Ok(BindKind::Toggle)
            } else if same_text(t, "interval") {
                Ok(BindKind::Interval)
            } else {
                let mut msg = String::new();
                msg.append("Unknown bind type: ");
                msg.append(t);
                Err(msg)
            }
        },
    }
}

} // verus!
