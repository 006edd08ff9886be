//! Reading back, from the game's console log, the values that the generated
//! binds report.
use vstd::prelude::*;
use chrono::NaiveDateTime;
use regex::Regex;
use crate::commands::{cmd_name, cmd_name_spec};
use crate::engine::utils::{CommandError, ValueResult};
use crate::model::{toggle_display, Bind, ParseValue, RepeatSayBind};
use crate::text::{
    append_chars, chars_of, contains, contains_exec, int_text, push_int, split, split_exec,
    string_of,
};

verus! {

// ---------------------------------------------------------------------------
// The outside matchers
// ---------------------------------------------------------------------------

#[verifier::external_type_specification]
#[verifier::external_body]
pub struct ExRegex(Regex);

/// Whether `regex::Regex::new` accepts `pattern`.
pub uninterp spec fn regex_accepts(pattern: Seq<char>) -> bool;

/// The text of the capture group named `group` in the first match of the
/// regular expression `pattern` in `haystack`, if there is a match and the
/// group took part in it.
pub uninterp spec fn regex_named_group(pattern: Seq<char>, haystack: Seq<char>, group: Seq<char>) -> Option<Seq<char>>;

/// The seconds since 1970-01-01 00:00:00 and the nanoseconds of the date and
/// time that `chrono::NaiveDateTime::parse_from_str` reads from `text` in
/// `format`, or `None` where it rejects the text.
pub uninterp spec fn naive_datetime_parse(text: Seq<char>, format: Seq<char>) -> Option<(i64, u32)>;

/// A compiled regular expression together with its source. Only
/// `compile_pattern` makes one, so `re` is always compiled from `source`.
pub struct LinePattern {
    re: Regex,
    source: String,
}

impl LinePattern {
    /// The regular expression this pattern was compiled from.
    pub closed spec fn source(&self) -> Seq<char> {
        self.source@
    }
}

/// Compiles `pattern` with `regex::Regex::new`. Claimed: the result is
/// present exactly where `regex_accepts` holds, and then holds `pattern`
/// as its source. Which patterns the regex crate accepts is left unsaid.
#[verifier::external_body]
fn compile_pattern(pattern: &str) -> (res: Option<LinePattern>)
    ensures
        res is Some <==> regex_accepts(pattern@),
        res matches Some(p) ==> p.source() == pattern@,
{
    match Regex::new(pattern) {
        Ok(re) => Some(LinePattern { re, source: pattern.to_string() }),
        Err(_) => None,
    }
}

/// Runs `regex::Regex::captures` on `haystack` and takes the text of the
/// group `group` (`Captures::name`, `Match::as_str`). Claimed: the result is
/// `regex_named_group` of the pattern's source, the haystack and the group
/// name; what the regex crate matches is left unsaid.
#[verifier::external_body]
fn named_group(p: &LinePattern, haystack: &str, group: &str) -> (res: Option<String>)
    ensures
        match res {
            Some(s) => regex_named_group(p.source(), haystack@, group@) == Some(s@),
            None => regex_named_group(p.source(), haystack@, group@) is None,
        },
{
    match p.re.captures(haystack) {
        Some(caps) => match caps.name(group) {
            Some(m) => Some(m.as_str().to_string()),
            None => None,
        },
        None => None,
    }
}

/// Parses a date and time with `chrono::NaiveDateTime::parse_from_str` and
/// gives its seconds since 1970-01-01 00:00:00 (`timestamp`) and its
/// nanoseconds (`timestamp_subsec_nanos`), taken as UTC. Claimed: the result
/// is `naive_datetime_parse` of the text and the format; the calendar rules
/// of chrono are left unsaid.
#[verifier::external_body]
fn parse_datetime(text: &str, format: &str) -> (res: Option<(i64, u32)>)
    ensures
        res == naive_datetime_parse(text@, format@),
{
    match NaiveDateTime::parse_from_str(text, format) {
        Ok(dt) => Some((dt.and_utc().timestamp(), dt.and_utc().timestamp_subsec_nanos())),
        Err(_) => None,
    }
}

// ---------------------------------------------------------------------------
// Which bind to read
// ---------------------------------------------------------------------------

/// The binds the reader knows: all but cycles.
pub open spec fn readable(b: Bind) -> bool {
    !(b is Cycle)
}

/// `b` is the bind the user named: the alias names agree.
pub open spec fn selects(b: Bind, bind_name: Seq<char>) -> bool {
    readable(b) && cmd_name_spec(b.name_spec()) == cmd_name_spec(bind_name)
}

/// Every bind but a cycle is found by its alias name: a bind is selected by
/// `bind_name` exactly when it is not a cycle and its alias name equals
/// that of `bind_name`.
pub proof fn law_selects_every_kind_but_cycles(b: Bind, bind_name: Seq<char>)
    ensures
        selects(b, bind_name) <==> (!(b is Cycle) && cmd_name_spec(b.name_spec()) == cmd_name_spec(
            bind_name,
        )),
{
}

/// The position of the first bind whose alias name is that of `bind_name`,
/// or `ArgumentError` where there is none.
pub fn select_bind(binds: &Vec<Bind>, bind_name: &str) -> (res: Result<usize, CommandError>)
    ensures
        match res {
            Ok(i) => {
                &&& i < binds@.len()
                &&& selects(binds@[i as int], bind_name@)
                &&& forall|j: int| 0 <= j < i ==> !selects(#[trigger] binds@[j], bind_name@)
            },
            Err(e) => {
                &&& forall|j: int| 0 <= j < binds@.len() ==> !selects(#[trigger] binds@[j], bind_name@)
                &&& e matches CommandError::ArgumentError(m) && m@ == "Invalid bind name:"@ + bind_name@
            },
        },
{
    let resolve_name = cmd_name(bind_name);
    let mut i: usize = 0;
    while i < binds.len()
        invariant
            i <= binds@.len(),
            resolve_name@ == cmd_name_spec(bind_name@),
            forall|j: int| 0 <= j < i ==> !selects(#[trigger] binds@[j], bind_name@),
        decreases binds@.len() - i,
    {
        let b = &binds[i];
        let is_cycle = match b {
            Bind::Cycle(_) => true,
            _ => false,
        };
        if !is_cycle && cmd_name(b.name().as_str()) == resolve_name {
            return Ok(i);
        }
        i = i + 1;
    }
    let mut msg = String::new();
    msg.append("Invalid bind name:");
    msg.append(bind_name);
    Err(CommandError::ArgumentError(msg))
}

// ---------------------------------------------------------------------------
// The pattern of a bind's reports
// ---------------------------------------------------------------------------

/// The regular expression that finds a report of the bind with alias name
/// `resolve_name`: the alias name, `_`, then the reported value as the group
/// `value` of word characters.
pub open spec fn value_pattern_spec(resolve_name: Seq<char>) -> Seq<char> {
    resolve_name + "_(?<value>[\\w_]+)"@
}

/// Compiles the report pattern of the alias name `resolve_name`; `None`
/// where the regex crate rejects it.
pub fn value_pattern(resolve_name: &str) -> (res: Option<LinePattern>)
    ensures
        res is Some <==> regex_accepts(value_pattern_spec(resolve_name@)),
        res matches Some(p) ==> p.source() == value_pattern_spec(resolve_name@),
{
    let mut source = String::new();
    source.append(resolve_name);
    source.append("_(?<value>[\\w_]+)");
    compile_pattern(source.as_str())
}

/// The reported value in `line`, if the pattern finds one.
pub fn reported_value(p: &LinePattern, line: &str) -> (res: Option<String>)
    ensures
        match res {
            Some(s) => regex_named_group(p.source(), line@, "value"@) == Some(s@),
            None => regex_named_group(p.source(), line@, "value"@) is None,
        },
{
    named_group(p, line, "value")
}

// ---------------------------------------------------------------------------
// Scanning the log
// ---------------------------------------------------------------------------

/// A date and time: seconds since 1970-01-01 00:00:00 and nanoseconds.
pub type Stamp = (i64, u32);

/// What a log line tells the reader.
pub enum LogEvent {
    /// A report of the bind's value, as the log writes it.
    Captured(Seq<char>),
    /// A chat line that a repeat-say bind is to say again.
    Said(Seq<char>),
}

/// The layout of the date and time at the start of a log line, after the
/// year that the reader puts in front.
pub open spec fn date_format() -> Seq<char> {
    "%Y/%m/%d %H:%M:%S"@
}

/// The date and time of a log line: its first two space-separated words,
/// read as month/day and time of the year `year`.
pub open spec fn line_stamp(line: Seq<char>, year: int) -> Option<Stamp> {
    let words = split(line, " "@);
    if words.len() < 2 {
        None
    } else {
        naive_datetime_parse(int_text(year) + "/"@ + words[0] + " "@ + words[1], date_format())
    }
}

/// `(a0, a1)` comes strictly before `(b0, b1)`.
pub open spec fn earlier(a0: int, a1: int, b0: int, b1: int) -> bool {
    a0 < b0 || (a0 == b0 && a1 < b1)
}

/// `t` lies within the ten seconds before `now`, both ends excluded.
pub open spec fn in_last_ten_seconds(t: Stamp, now: Stamp) -> bool {
    earlier(now.0 - 10, now.1 as int, t.0 as int, t.1 as int) && earlier(
        t.0 as int,
        t.1 as int,
        now.0 as int,
        now.1 as int,
    )
}

/// What a chat line says: the text between its first `: ` and the next.
pub open spec fn said_part(line: Seq<char>) -> Option<Seq<char>> {
    let parts = split(line, ": "@);
    if parts.len() > 1 {
        Some(parts[1])
    } else {
        None
    }
}

/// What the last line of the last ten seconds that holds `user` says, among
/// the dated lines `reads` read so far.
pub open spec fn said_text(reads: Seq<(Stamp, Seq<char>)>, user: Seq<char>, now: Stamp) -> Option<Seq<char>>
    decreases reads.len(),
{
    if reads.len() == 0 {
        None
    } else if in_last_ten_seconds(reads.last().0, now) && contains(reads.last().1, user) {
        said_part(reads.last().1)
    } else {
        said_text(reads.drop_last(), user, now)
    }
}

/// The dated lines among `lines`, and what they tell the reader of the bind
/// `b`: for each dated line in which the pattern finds a report, the report
/// itself, or for a repeat-say bind the text it is to say again, where
/// there is one.
pub open spec fn scan(b: Bind, pattern: Seq<char>, lines: Seq<Seq<char>>, year: int, now: Stamp) -> (
    Seq<(Stamp, Seq<char>)>,
    Seq<LogEvent>,
)
    decreases lines.len(),
{
    if lines.len() == 0 {
        (Seq::empty(), Seq::empty())
    } else {
        let (reads, events) = scan(b, pattern, lines.drop_last(), year, now);
        let line = lines.last();
        match line_stamp(line, year) {
            None => (reads, events),
            Some(t) => {
                let reads2 = reads.push((t, line));
                match regex_named_group(pattern, line, "value"@) {
                    None => (reads2, events),
                    Some(v) => match b {
                        Bind::RepeatSay(r) => match said_text(reads2, r.user@, now) {
                            Some(said) => (reads2, events.push(LogEvent::Said(said))),
                            None => (reads2, events),
                        },
                        _ => (reads2, events.push(LogEvent::Captured(v))),
                    },
                }
            },
        }
    }
}

/// The events of the log `content`, read line by line.
pub open spec fn log_events(b: Bind, pattern: Seq<char>, content: Seq<char>, year: int, now: Stamp) -> Seq<LogEvent> {
    scan(b, pattern, split(content, "\n"@), year, now).1
}

/// The values that the pattern finds in the dated lines among `lines`, in
/// order.
pub open spec fn dated_reports(pattern: Seq<char>, lines: Seq<Seq<char>>, year: int) -> Seq<Seq<char>>
    decreases lines.len(),
{
    if lines.len() == 0 {
        Seq::empty()
    } else {
        let line = lines.last();
        dated_reports(pattern, lines.drop_last(), year) + if line_stamp(line, year) is Some
            && regex_named_group(pattern, line, "value"@) is Some {
            seq![regex_named_group(pattern, line, "value"@)->0]
        } else {
            Seq::empty()
        }
    }
}

proof fn lemma_scan_reports(b: Bind, pattern: Seq<char>, lines: Seq<Seq<char>>, year: int, now: Stamp)
    requires
        !(b is RepeatSay),
    ensures
        scan(b, pattern, lines, year, now).1 == dated_reports(pattern, lines, year).map_values(
            |v: Seq<char>| LogEvent::Captured(v),
        ),
    decreases lines.len(),
{
    if lines.len() > 0 {
        lemma_scan_reports(b, pattern, lines.drop_last(), year, now);
        let prev = dated_reports(pattern, lines.drop_last(), year);
        let line = lines.last();
        if line_stamp(line, year) is Some && regex_named_group(pattern, line, "value"@) is Some {
            let v = regex_named_group(pattern, line, "value"@)->0;
            assert((prev + seq![v]).map_values(|v: Seq<char>| LogEvent::Captured(v)) =~= prev.map_values(
                |v: Seq<char>| LogEvent::Captured(v),
            ).push(LogEvent::Captured(v)));
        } else {
            assert(prev + Seq::<Seq<char>>::empty() =~= prev);
        }
    }
}

/// For every bind but a repeat-say one, the reader's events are the reports
/// of all dated lines, in order, each carrying the value the pattern finds,
/// however long ago the line was written.
pub proof fn law_reports_are_dated_matches(b: Bind, pattern: Seq<char>, content: Seq<char>, year: int, now: Stamp)
    requires
        !(b is RepeatSay),
    ensures
        log_events(b, pattern, content, year, now) == dated_reports(pattern, split(content, "\n"@), year).map_values(
            |v: Seq<char>| LogEvent::Captured(v),
        ),
{
    lemma_scan_reports(b, pattern, split(content, "\n"@), year, now);
}

/// For every bind but a repeat-say one, the time of reading does not change
/// what the log reports.
pub proof fn law_reports_ignore_reading_time(b: Bind, pattern: Seq<char>, content: Seq<char>, year: int, now1: Stamp, now2: Stamp)
    requires
        !(b is RepeatSay),
    ensures
        log_events(b, pattern, content, year, now1) == log_events(b, pattern, content, year, now2),
{
    law_reports_are_dated_matches(b, pattern, content, year, now1);
    law_reports_are_dated_matches(b, pattern, content, year, now2);
}

/// The file that a repeat-say bind's send key executes.
pub open spec fn say_file(r: RepeatSayBind) -> Seq<char> {
    r.fullpath@ + "/"@ + r.filename@
}

/// A value read from the log, or a line to say again together with the file
/// that must hold the command `command` for the send key to say it.
pub enum LogUpdate {
    Captured(String),
    Said { text: String, file: String, command: String },
}

/// `u` carries the event `e` for the bind `b`.
pub open spec fn update_carries(u: LogUpdate, e: LogEvent, b: Bind) -> bool {
    match (u, e) {
        (LogUpdate::Captured(s), LogEvent::Captured(v)) => s@ == v,
        (LogUpdate::Said { text, file, command }, LogEvent::Said(v)) => {
            &&& text@ == v
            &&& command@ == "say "@ + v
            &&& (b matches Bind::RepeatSay(r) && file@ == say_file(r))
        },
        _ => false,
    }
}


/// The dated lines that `reads` points to in `lines`.
pub open spec fn reads_view(reads: Seq<(i64, u32, usize)>, lines: Seq<Seq<char>>) -> Seq<(Stamp, Seq<char>)> {
    reads.map_values(|r: (i64, u32, usize)| ((r.0, r.1), lines[r.2 as int]))
}

fn in_last_ten_seconds_exec(t: (i64, u32), now: (i64, u32)) -> (res: bool)
    ensures
        res == in_last_ten_seconds(t, now),
{
    let before: i128 = now.0 as i128 - 10;
    let after_before = before < t.0 as i128 || (before == t.0 as i128 && now.1 < t.1);
    let before_now = t.0 < now.0 || (t.0 == now.0 && t.1 < now.1);
    after_before && before_now
}

/// What the chat line `line` says, as `said_part` defines it.
fn said_part_exec(line: &Vec<char>) -> (res: Option<String>)
    ensures
        match res {
            Some(s) => said_part(line@) == Some(s@),
            None => said_part(line@) is None,
        },
{
    proof {
        reveal_strlit(": ");
    }
    let parts = split_exec(line, &chars_of(": "));
    if parts.len() > 1 {
        assert(parts.deep_view()[1] == parts@[1]@);
        Some(string_of(&parts[1], 0, parts[1].len()))
    } else {
        None
    }
}

/// The text that a repeat-say bind is to say again, among the dated lines
/// read so far.
fn said_text_exec(reads: &Vec<(i64, u32, usize)>, lines: &Vec<Vec<char>>, user: &Vec<char>, now: (i64, u32)) -> (res: Option<String>)
    requires
        forall|j: int| 0 <= j < reads@.len() ==> (#[trigger] reads@[j]).2 < lines@.len(),
    ensures
        match res {
            Some(s) => said_text(reads_view(reads@, lines.deep_view()), user@, now) == Some(s@),
            None => said_text(reads_view(reads@, lines.deep_view()), user@, now) is None,
        },
{
    let ghost rv = reads_view(reads@, lines.deep_view());
    let mut said: Option<String> = None;
    let mut j: usize = 0;
    assert(rv.take(0) =~= Seq::<(Stamp, Seq<char>)>::empty());
    while j < reads.len()
        invariant
            j <= reads@.len() == rv.len(),
            rv == reads_view(reads@, lines.deep_view()),
            forall|i: int| 0 <= i < reads@.len() ==> (#[trigger] reads@[i]).2 < lines@.len(),
            match said {
                Some(s) => said_text(rv.take(j as int), user@, now) == Some(s@),
                None => said_text(rv.take(j as int), user@, now) is None,
            },
        decreases reads@.len() - j,
    {
        let (secs, nanos, k) = reads[j];
        let line = &lines[k];
        proof {
            let t = rv.take(j + 1);
            assert(t.drop_last() =~= rv.take(j as int));
            assert(t.last() == rv[j as int]);
            assert(rv[j as int] == ((secs, nanos), lines.deep_view()[k as int]));
            assert(lines.deep_view()[k as int] == line@);
        }
        if in_last_ten_seconds_exec((secs, nanos), now) && contains_exec(line, user) {
            said = said_part_exec(line);
        }
        j = j + 1;
    }
    assert(rv.take(reads@.len() as int) =~= rv);
    said
}

/// What the log `content` tells the reader of the bind `b`, line by line:
/// the reports the pattern finds in lines dated in `year`, or for a
/// repeat-say bind the chat lines it is to say again, with the file and
/// command that say them.
pub fn scan_log(b: &Bind, p: &LinePattern, content: &str, year: i32, now: (i64, u32)) -> (res: Vec<LogUpdate>)
    ensures
        res@.len() == log_events(*b, p.source(), content@, year as int, now).len(),
        forall|i: int|
            0 <= i < res@.len() ==> update_carries(
                #[trigger] res@[i],
                log_events(*b, p.source(), content@, year as int, now)[i],
                *b,
            ),
{
    let text = chars_of(content);
    proof {
        reveal_strlit("\n");
        reveal_strlit(" ");
    }
    let lines = split_exec(&text, &chars_of("\n"));
    let ghost lv = lines.deep_view();
    let ghost pat = p.source();
    let space = chars_of(" ");
    let user: Vec<char> = match b {
        Bind::RepeatSay(r) => chars_of(r.user.as_str()),
        _ => Vec::new(),
    };
    let mut reads: Vec<(i64, u32, usize)> = Vec::new();
    let mut updates: Vec<LogUpdate> = Vec::new();
    assert(lv.take(0) =~= Seq::<Seq<char>>::empty());
    assert(reads_view(reads@, lv) =~= Seq::<(Stamp, Seq<char>)>::empty());
    for k in 0..lines.len()
        invariant
            lv == lines.deep_view(),
            lv.len() == lines@.len(),
            pat == p.source(),
            space@ == " "@,
            space@.len() == 1,
            b matches Bind::RepeatSay(r) ==> user@ == r.user@,
            forall|j: int| 0 <= j < reads@.len() ==> (#[trigger] reads@[j]).2 < k,
            reads_view(reads@, lv) == scan(*b, pat, lv.take(k as int), year as int, now).0,
            updates@.len() == scan(*b, pat, lv.take(k as int), year as int, now).1.len(),
            forall|i: int|
                0 <= i < updates@.len() ==> update_carries(
                    #[trigger] updates@[i],
                    scan(*b, pat, lv.take(k as int), year as int, now).1[i],
                    *b,
                ),
    {
        let line = &lines[k];
        let ghost before = scan(*b, pat, lv.take(k as int), year as int, now);
        proof {
            assert(lv.take(k + 1).drop_last() =~= lv.take(k as int));
            assert(lv.take(k + 1).last() == lv[k as int]);
            assert(lv[k as int] == line@);
        }
        let words = split_exec(line, &space);
        if words.len() >= 2 {
            let mut date = String::new();
            push_int(&mut date, year as i64);
            date.append("/");
            append_chars(&mut date, &words[0], 0, words[0].len());
            date.append(" ");
            append_chars(&mut date, &words[1], 0, words[1].len());
            proof {
                assert(words.deep_view()[0] == words@[0]@);
                assert(words.deep_view()[1] == words@[1]@);
                assert(words@[0]@.subrange(0, words@[0]@.len() as int) =~= words@[0]@);
                assert(words@[1]@.subrange(0, words@[1]@.len() as int) =~= words@[1]@);
                assert(date@ == int_text(year as int) + "/"@ + words.deep_view()[0] + " "@
                    + words.deep_view()[1]);
            }
            if let Some(stamp) = parse_datetime(date.as_str(), "%Y/%m/%d %H:%M:%S") {
                let ghost old_reads = reads@;
                reads.push((stamp.0, stamp.1, k));
                proof {
                    assert(reads_view(reads@, lv) =~= reads_view(old_reads, lv).push((stamp, line@)));
                }
                let line_text = string_of(line, 0, line.len());
                assert(line@.subrange(0, line@.len() as int) =~= line@);
                if let Some(value) = reported_value(p, line_text.as_str()) {
                    match b {
                        Bind::RepeatSay(r) => {
                            if let Some(said) = said_text_exec(&reads, &lines, &user, now) {
                                let mut file = String::new();
                                file.append(r.fullpath.as_str());
                                file.append("/");
                                file.append(r.filename.as_str());
                                let mut command = String::new();
                                command.append("say ");
                                command.append(said.as_str());
                                let ghost old_updates = updates@;
                                updates.push(LogUpdate::Said { text: said, file, command });
                                assert(updates@ == old_updates.push(updates@.last()));
                            }
                        },
                        _ => {
                            updates.push(LogUpdate::Captured(value));
                        },
                    }
                }
            }
        }
    }
    assert(lv.take(lines@.len() as int) =~= lv);
    updates
}


// ---------------------------------------------------------------------------
// The value shown to the user
// ---------------------------------------------------------------------------

/// What the bind `b` shows for the `i`-th update: a report through the
/// bind's own display (an interval's display is given in `interval_shown`,
/// one entry per update), a line to say again as it stands.
pub open spec fn shown_for(b: Bind, u: LogUpdate, interval_shown: ValueResult<String>) -> Result<Seq<char>, CommandError> {
    match u {
        LogUpdate::Said { text, .. } => Ok(text@),
        LogUpdate::Captured(v) => match b {
            Bind::Interval(_) => match interval_shown {
                Ok(s) => Ok(s@),
                Err(e) => Err(e),
            },
            Bind::Toggle(_) => Ok(toggle_display(v@)),
            _ => Ok(v@),
        },
    }
}

/// The value shown after the updates `updates`: `NA` when there is none,
/// else what the last one shows; the first display that fails stops the
/// reading with its error.
pub open spec fn shown_value_spec(b: Bind, updates: Seq<LogUpdate>, interval_shown: Seq<ValueResult<String>>) -> Result<Seq<char>, CommandError>
    decreases updates.len(),
{
    if updates.len() == 0 {
        Ok("NA"@)
    } else {
        match shown_value_spec(b, updates.drop_last(), interval_shown) {
            Err(e) => Err(e),
            Ok(_) => shown_for(b, updates.last(), interval_shown[updates.len() - 1]),
        }
    }
}

fn copy_error(e: &CommandError) -> (res: CommandError)
    ensures
        res == *e,
{
    match e {
        CommandError::ProcessError(m) => CommandError::ProcessError(m.clone()),
        CommandError::ExpectedArgument(m, p) => CommandError::ExpectedArgument(m.clone(), *p),
        CommandError::ArgumentError(m) => CommandError::ArgumentError(m.clone()),
        CommandError::ConfigError(m) => CommandError::ConfigError(m.clone()),
    }
}

/// The value the reader prints for the bind `b` after the updates of its
/// log, as `shown_value_spec` says. An interval's display of each update is
/// computed by the caller and given in `interval_shown`.
pub fn shown_value(b: &Bind, updates: &Vec<LogUpdate>, interval_shown: &Vec<ValueResult<String>>) -> (res: ValueResult<String>)
    requires
        b is Interval ==> interval_shown@.len() == updates@.len(),
    ensures
        match (res, shown_value_spec(*b, updates@, interval_shown@)) {
            (Ok(s), Ok(t)) => s@ == t,
            (Err(e), Err(f)) => e == f,
            _ => false,
        },
{
    let mut current = String::from_str("NA");
    let mut i: usize = 0;
    assert(updates@.take(0) =~= Seq::<LogUpdate>::empty());
    while i < updates.len()
        invariant
            i <= updates@.len(),
            b is Interval ==> interval_shown@.len() == updates@.len(),
            shown_value_spec(*b, updates@.take(i as int), interval_shown@) == Ok::<Seq<char>, CommandError>(current@),
        decreases updates@.len() - i,
    {
        proof {
            assert(updates@.take(i + 1).drop_last() =~= updates@.take(i as int));
            assert(updates@.take(i + 1).last() == updates@[i as int]);
        }
        let shown: ValueResult<String> = match &updates[i] {
            LogUpdate::Said { text, .. } => Ok(text.clone()),
            LogUpdate::Captured(v) => match b {
                Bind::Interval(_) => match &interval_shown[i] {
                    Ok(s) => Ok(s.clone()),
                    Err(e) => Err(copy_error(e)),
                },
                Bind::Toggle(t) => t.console_value(v.as_str()),
                Bind::Execute(x) => x.console_value(v.as_str()),
                Bind::RepeatSay(r) => r.console_value(v.as_str()),
                Bind::Cycle(_) => Ok(v.clone()),
            },
        };
        match shown {
            Ok(s) => {
                current = s;
            },
            Err(e) => {
                proof {
                    lemma_shown_error_stays(*b, updates@, interval_shown@, i + 1);
                }
                return Err(e);
            },
        }
        i = i + 1;
    }
    assert(updates@.take(updates@.len() as int) =~= updates@);
    Ok(current)
}

proof fn lemma_shown_error_stays(b: Bind, updates: Seq<LogUpdate>, interval_shown: Seq<ValueResult<String>>, k: int)
    requires
        0 <= k <= updates.len(),
        shown_value_spec(b, updates.take(k), interval_shown) is Err,
    ensures
        shown_value_spec(b, updates, interval_shown) == shown_value_spec(b, updates.take(k), interval_shown),
    decreases updates.len() - k,
{
    if k < updates.len() {
        assert(updates.drop_last().take(k) =~= updates.take(k));
        lemma_shown_error_stays(b, updates.drop_last(), interval_shown, k);
    } else {
        assert(updates.take(k) =~= updates);
    }
}

} // verus!
