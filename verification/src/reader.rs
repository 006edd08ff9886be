//! The first form of the log reader: every report of the bind in the log,
//! whatever the date of its line.
use vstd::prelude::*;
use crate::engine::reader::{regex_named_group, reported_value, LinePattern};
use crate::text::{chars_of, split, split_exec, string_of};

verus! {

/// The reports the pattern finds in `lines`, in order.
pub open spec fn reports(pattern: Seq<char>, lines: Seq<Seq<char>>) -> Seq<Seq<char>>
    decreases lines.len(),
{
    if lines.len() == 0 {
        Seq::empty()
    } else {
        reports(pattern, lines.drop_last()) + match regex_named_group(
            pattern,
            lines.last(),
            "value"@,
        ) {
            Some(v) => seq![v],
            None => Seq::empty(),
        }
    }
}

/// The reports the pattern finds in the lines of the log `content`, in
/// order; the last one is the bind's current value.
pub fn report_values(p: &LinePattern, content: &str) -> (res: Vec<String>)
    ensures
        res.deep_view() == reports(p.source(), split(content@, "\n"@)),
{
    let text = chars_of(content);
    proof {
        reveal_strlit("\n");
    }
    let lines = split_exec(&text, &chars_of("\n"));
    let ghost lv = lines.deep_view();
    let mut values: Vec<String> = Vec::new();
    assert(lv.take(0) =~= Seq::<Seq<char>>::empty());
    assert(values.deep_view() =~= Seq::<Seq<char>>::empty());
    for k in 0..lines.len()
        invariant
            lv == lines.deep_view(),
            lv.len() == lines@.len(),
            values.deep_view() == reports(p.source(), lv.take(k as int)),
    {
        let line = &lines[k];
        proof {
            assert(lv.take(k + 1).drop_last() =~= lv.take(k as int));
            assert(lv.take(k + 1).last() == lv[k as int]);
            assert(lv[k as int] == line@);
            assert(line@.subrange(0, line@.len() as int) =~= line@);
        }
        let line_text = string_of(line, 0, line.len());
        let ghost before = values.deep_view();
        if let Some(v) = reported_value(p, line_text.as_str()) {
            values.push(v);
            assert(values.deep_view() =~= before + seq![v@]);
        } else {
            assert(before + Seq::<Seq<char>>::empty() =~= before);
        }
    }
    assert(lv.take(lines@.len() as int) =~= lv);
    values
}

} // verus!
