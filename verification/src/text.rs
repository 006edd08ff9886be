//! Character-level text operations that the bind generator and the log
//! reader are built from, each with its mathematical definition.
use vstd::prelude::*;

verus! {

// ---------------------------------------------------------------------------
// Definitions
// ---------------------------------------------------------------------------

/// The Unicode `White_Space` property, the set of characters that
/// `str::trim` removes.
pub open spec fn is_white_space(c: char) -> bool {
    ||| ('\u{9}' <= c && c <= '\u{d}')
    ||| c == ' '
    ||| c == '\u{85}'
    ||| c == '\u{a0}'
    ||| c == '\u{1680}'
    ||| ('\u{2000}' <= c && c <= '\u{200a}')
    ||| c == '\u{2028}'
    ||| c == '\u{2029}'
    ||| c == '\u{202f}'
    ||| c == '\u{205f}'
    ||| c == '\u{3000}'
}

/// `s` without its leading white space.
pub open spec fn trim_start(s: Seq<char>) -> Seq<char>
    decreases s.len(),
{
    if s.len() > 0 && is_white_space(s[0]) {
        trim_start(s.drop_first())
    } else {
        s
    }
}

/// `s` without its trailing white space.
pub open spec fn trim_end(s: Seq<char>) -> Seq<char>
    decreases s.len(),
{
    if s.len() > 0 && is_white_space(s.last()) {
        trim_end(s.drop_last())
    } else {
        s
    }
}

/// `s` without leading and trailing white space.
pub open spec fn trim(s: Seq<char>) -> Seq<char> {
    trim_end(trim_start(s))
}

/// Every occurrence of `from` in `s` replaced by `to`.
pub open spec fn replace_char(s: Seq<char>, from: char, to: char) -> Seq<char> {
    s.map_values(|c: char| if c == from { to } else { c })
}

/// The parts joined with `sep` between each two neighbours.
pub open spec fn join(parts: Seq<Seq<char>>, sep: Seq<char>) -> Seq<char>
    decreases parts.len(),
{
    if parts.len() == 0 {
        Seq::empty()
    } else if parts.len() == 1 {
        parts[0]
    } else {
        join(parts.drop_last(), sep) + sep + parts.last()
    }
}

/// The decimal digit for `d` (a number below ten).
pub open spec fn digit_char(d: nat) -> char {
    if d == 0 { '0' }
    else if d == 1 { '1' }
    else if d == 2 { '2' }
    else if d == 3 { '3' }
    else if d == 4 { '4' }
    else if d == 5 { '5' }
    else if d == 6 { '6' }
    else if d == 7 { '7' }
    else if d == 8 { '8' }
    else { '9' }
}

/// The decimal notation of `n`, without leading zeros.
pub open spec fn nat_text(n: nat) -> Seq<char>
    decreases n,
{
    if n < 10 {
        seq![digit_char(n)]
    } else {
        nat_text(n / 10).push(digit_char(n % 10))
    }
}

/// The decimal notation of `i`, with a leading `-` when it is negative.
pub open spec fn int_text(i: int) -> Seq<char> {
    if i < 0 {
        seq!['-'] + nat_text((-i) as nat)
    } else {
        nat_text(i as nat)
    }
}

/// The number of units in one: settings are counted in billionths.
pub open spec fn units_per_one() -> int {
    1_000_000_000
}

/// The last `k` decimal digits of `f`, with leading zeros.
pub open spec fn fixed_digits(f: nat, k: nat) -> Seq<char>
    decreases k,
{
    if k == 0 {
        Seq::empty()
    } else {
        fixed_digits(f / 10, (k - 1) as nat).push(digit_char(f % 10))
    }
}

/// `s` without its trailing zeros.
pub open spec fn strip_zeros(s: Seq<char>) -> Seq<char>
    decreases s.len(),
{
    if s.len() > 0 && s.last() == '0' {
        strip_zeros(s.drop_last())
    } else {
        s
    }
}

/// The digits after the decimal point of the fraction `f` billionths.
pub open spec fn fraction_text(f: nat) -> Seq<char> {
    strip_zeros(fixed_digits(f, 9))
}

/// The shortest decimal notation of the number `v` billionths: an optional
/// `-`, the whole part, then `.` and the fraction's digits only where the
/// fraction is not zero (`1_500_000_000` gives `1.5`, `-333_000_000` gives
/// `-0.333`, `2_000_000_000` gives `2`).
pub open spec fn decimal_text(v: int) -> Seq<char> {
    let a = if v < 0 { -v } else { v };
    let whole = nat_text((a / units_per_one()) as nat);
    let frac = a % units_per_one();
    let body = if frac == 0 {
        whole
    } else {
        whole + seq!['.'] + fraction_text(frac as nat)
    };
    if v < 0 {
        seq!['-'] + body
    } else {
        body
    }
}

/// `pat` stands in `s` at position `i`.
pub open spec fn occurs_at(s: Seq<char>, pat: Seq<char>, i: int) -> bool {
    0 <= i && i + pat.len() <= s.len() && s.subrange(i, i + pat.len()) == pat
}

/// `pat` stands somewhere in `s`.
pub open spec fn contains(s: Seq<char>, pat: Seq<char>) -> bool {
    exists|i: int| occurs_at(s, pat, i)
}

/// The first position at or after `i` where `pat` stands in `s`.
pub open spec fn first_occurrence_from(s: Seq<char>, pat: Seq<char>, i: int) -> Option<int>
    decreases s.len() - i,
{
    if i + pat.len() > s.len() {
        None
    } else if pat.len() == 0 || occurs_at(s, pat, i) {
        Some(i)
    } else {
        first_occurrence_from(s, pat, i + 1)
    }
}

/// The pieces of `s` between the non-overlapping occurrences of `sep`,
/// found from the left, as `str::split` gives them for a non-empty
/// separator.
pub open spec fn split(s: Seq<char>, sep: Seq<char>) -> Seq<Seq<char>>
    decreases s.len(),
{
    if sep.len() == 0 {
        seq![s]
    } else {
        match first_occurrence_from(s, sep, 0) {
            None => seq![s],
            Some(i) => {
                proof {
                    lemma_first_occurrence_bounds(s, sep, 0);
                }
                seq![s.take(i)] + split(s.skip(i + sep.len()), sep)
            },
        }
    }
}

// ---------------------------------------------------------------------------
// Lemmas
// ---------------------------------------------------------------------------

proof fn lemma_trim_start_skip(s: Seq<char>, k: int)
    requires
        0 <= k < s.len(),
        is_white_space(s[k]),
        forall|j: int| 0 <= j < k ==> is_white_space(s[j]),
    ensures
        trim_start(s) == trim_start(s.skip(k + 1)),
    decreases k,
{
    if k == 0 {
        assert(s.drop_first() =~= s.skip(1));
    } else {
        let t = s.drop_first();
        assert(forall|j: int| 0 <= j < k - 1 ==> t[j] == s[j + 1]);
        lemma_trim_start_skip(t, k - 1);
        assert(t.skip(k) =~= s.skip(k + 1));
    }
}

proof fn lemma_trim_end_take(s: Seq<char>, k: int)
    requires
        0 < k <= s.len(),
        forall|j: int| k - 1 <= j < s.len() ==> is_white_space(s[j]),
    ensures
        trim_end(s) == trim_end(s.take(k - 1)),
    decreases s.len() - k,
{
    if k == s.len() {
        assert(s.drop_last() =~= s.take(k - 1));
    } else {
        let t = s.drop_last();
        lemma_trim_end_take(t, k);
        assert(t.take(k - 1) =~= s.take(k - 1));
    }
}

pub proof fn lemma_first_occurrence_bounds(s: Seq<char>, pat: Seq<char>, i: int)
    requires
        0 <= i,
        pat.len() > 0,
    ensures
        first_occurrence_from(s, pat, i) matches Some(k) ==> i <= k && occurs_at(s, pat, k),
        first_occurrence_from(s, pat, i) matches Some(k) ==> forall|j: int|
            i <= j < k ==> !occurs_at(s, pat, j),
        first_occurrence_from(s, pat, i) is None ==> forall|j: int|
            i <= j ==> !occurs_at(s, pat, j),
    decreases s.len() - i,
{
    if i + pat.len() > s.len() {
    } else if occurs_at(s, pat, i) {
    } else {
        lemma_first_occurrence_bounds(s, pat, i + 1);
    }
}

/// Positions where `pat` stands carry over from a suffix of `s` to `s`.
proof fn lemma_occurs_skip(s: Seq<char>, pat: Seq<char>, k: int, j: int)
    requires
        0 <= k <= s.len(),
    ensures
        occurs_at(s.skip(k), pat, j) <==> (0 <= j && occurs_at(s, pat, j + k)),
{
    if 0 <= j && j + pat.len() <= s.len() - k {
        assert(s.skip(k).subrange(j, j + pat.len()) =~= s.subrange(j + k, j + k + pat.len()));
    }
}

proof fn lemma_first_occurrence_unique(s: Seq<char>, pat: Seq<char>, k: int)
    requires
        occurs_at(s, pat, k),
        forall|j: int| 0 <= j < k ==> !occurs_at(s, pat, j),
        pat.len() > 0,
    ensures
        first_occurrence_from(s, pat, 0) == Some(k),
{
    lemma_first_occurrence_bounds(s, pat, 0);
}

proof fn lemma_first_occurrence_none(s: Seq<char>, pat: Seq<char>)
    requires
        forall|j: int| 0 <= j ==> !occurs_at(s, pat, j),
        pat.len() > 0,
    ensures
        first_occurrence_from(s, pat, 0) is None,
{
    lemma_first_occurrence_bounds(s, pat, 0);
}

proof fn lemma_join_push(parts: Seq<Seq<char>>, sep: Seq<char>, p: Seq<char>)
    ensures
        join(parts.push(p), sep) == if parts.len() == 0 {
            p
        } else {
            join(parts, sep) + sep + p
        },
{
    assert(parts.push(p).drop_last() =~= parts);
}

/// What `trim_start` leaves is empty or starts with a character that is not
/// white space.
proof fn lemma_trim_start_shape(s: Seq<char>)
    ensures
        trim_start(s).len() == 0 || !is_white_space(trim_start(s)[0]),
        trim_start(s).len() <= s.len(),
        trim_start(s) == s.skip(s.len() - trim_start(s).len()),
    decreases s.len(),
{
    if s.len() > 0 && is_white_space(s[0]) {
        lemma_trim_start_shape(s.drop_first());
        let t = trim_start(s.drop_first());
        assert(s.drop_first().skip(s.drop_first().len() - t.len()) =~= s.skip(s.len() - t.len()));
    } else {
        assert(s.skip(0) =~= s);
    }
}

/// What `trim_end` leaves is a prefix of `s` that is empty or ends with a
/// character that is not white space.
proof fn lemma_trim_end_shape(s: Seq<char>)
    ensures
        trim_end(s).len() == 0 || !is_white_space(trim_end(s).last()),
        trim_end(s).len() <= s.len(),
        trim_end(s) == s.take(trim_end(s).len() as int),
    decreases s.len(),
{
    if s.len() > 0 && is_white_space(s.last()) {
        lemma_trim_end_shape(s.drop_last());
        let t = trim_end(s.drop_last());
        assert(s.drop_last().take(t.len() as int) =~= s.take(t.len() as int));
    } else {
        assert(s.take(s.len() as int) =~= s);
    }
}

/// Trimming twice trims no more than trimming once.
pub proof fn law_trim_idempotent(s: Seq<char>)
    ensures
        trim(trim(s)) == trim(s),
{
    let a = trim_start(s);
    lemma_trim_start_shape(s);
    let u = trim_end(a);
    lemma_trim_end_shape(a);
    if u.len() > 0 {
        assert(u[0] == a[0]);
    }
    assert(trim_start(u) == u);
    lemma_trim_end_shape(u);
    if u.len() > 0 {
        assert(trim_end(u) == u);
    }
}

/// A decimal digit character.
pub open spec fn is_digit(c: char) -> bool {
    '0' <= c && c <= '9'
}

proof fn lemma_digit_char(d: nat)
    requires
        d < 10,
    ensures
        is_digit(digit_char(d)),
        forall|e: nat| e < 10 && digit_char(e) == digit_char(d) ==> e == d,
{
}

proof fn lemma_nat_text_digits(n: nat)
    ensures
        nat_text(n).len() >= 1,
        n >= 10 ==> nat_text(n).len() >= 2,
        forall|i: int| 0 <= i < nat_text(n).len() ==> is_digit(#[trigger] nat_text(n)[i]),
    decreases n,
{
    if n < 10 {
        lemma_digit_char(n);
    } else {
        lemma_nat_text_digits(n / 10);
        lemma_digit_char(n % 10);
        let t = nat_text(n);
        assert forall|i: int| 0 <= i < t.len() implies is_digit(#[trigger] t[i]) by {
            if i < t.len() - 1 {
                assert(t[i] == nat_text(n / 10)[i]);
            }
        }
    }
}

/// Different numbers have different decimal notations.
proof fn lemma_nat_text_injective(a: nat, b: nat)
    requires
        nat_text(a) == nat_text(b),
    ensures
        a == b,
    decreases a + b,
{
    lemma_nat_text_digits(a);
    lemma_nat_text_digits(b);
    if a < 10 && b < 10 {
        lemma_digit_char(a);
        assert(nat_text(a) == seq![digit_char(a)]);
        assert(nat_text(b) == seq![digit_char(b)]);
        assert(nat_text(a)[0] == digit_char(a));
        assert(nat_text(b)[0] == digit_char(b));
    } else if a >= 10 && b >= 10 {
        let ta = nat_text(a);
        assert(ta.last() == digit_char(a % 10));
        assert(nat_text(b).last() == digit_char(b % 10));
        lemma_digit_char(a % 10);
        assert(digit_char(b % 10) == digit_char(a % 10));
        assert(a % 10 == b % 10);
        assert(ta.drop_last() =~= nat_text(a / 10));
        assert(nat_text(b).drop_last() =~= nat_text(b / 10));
        lemma_nat_text_injective(a / 10, b / 10);
    } else {
        assert(nat_text(a).len() != nat_text(b).len());
    }
}

/// Ten to the power `k`.
pub open spec fn pow10(k: nat) -> nat
    decreases k,
{
    if k == 0 {
        1
    } else {
        10 * pow10((k - 1) as nat)
    }
}

proof fn lemma_fixed_digits(f: nat, k: nat)
    ensures
        fixed_digits(f, k).len() == k,
        forall|i: int| 0 <= i < k ==> is_digit(#[trigger] fixed_digits(f, k)[i]),
    decreases k,
{
    if k > 0 {
        lemma_fixed_digits(f / 10, (k - 1) as nat);
        lemma_digit_char(f % 10);
        let t = fixed_digits(f, k);
        assert forall|i: int| 0 <= i < k implies is_digit(#[trigger] t[i]) by {
            if i < k - 1 {
                assert(t[i] == fixed_digits(f / 10, (k - 1) as nat)[i]);
            }
        }
    }
}

proof fn lemma_fixed_digits_injective(f: nat, g: nat, k: nat)
    requires
        f < pow10(k),
        g < pow10(k),
        fixed_digits(f, k) == fixed_digits(g, k),
    ensures
        f == g,
    decreases k,
{
    if k > 0 {
        let tf = fixed_digits(f, k);
        let tg = fixed_digits(g, k);
        lemma_digit_char(f % 10);
        assert(tf.last() == digit_char(f % 10));
        assert(tg.last() == digit_char(g % 10));
        assert(f % 10 == g % 10);
        assert(tf.drop_last() =~= fixed_digits(f / 10, (k - 1) as nat));
        assert(tg.drop_last() =~= fixed_digits(g / 10, (k - 1) as nat));
        lemma_fixed_digits_injective(f / 10, g / 10, (k - 1) as nat);
    }
}

proof fn lemma_strip_zeros(s: Seq<char>)
    ensures
        strip_zeros(s).len() <= s.len(),
        strip_zeros(s) == s.take(strip_zeros(s).len() as int),
        forall|i: int| strip_zeros(s).len() <= i < s.len() ==> #[trigger] s[i] == '0',
    decreases s.len(),
{
    if s.len() > 0 && s.last() == '0' {
        lemma_strip_zeros(s.drop_last());
        let t = strip_zeros(s.drop_last());
        assert(s.drop_last().take(t.len() as int) =~= s.take(t.len() as int));
        assert forall|i: int| t.len() <= i < s.len() implies #[trigger] s[i] == '0' by {
            if i < s.len() - 1 {
                assert(s[i] == s.drop_last()[i]);
            }
        }
    } else {
        assert(s.take(s.len() as int) =~= s);
    }
}

proof fn lemma_fraction_text(f: nat)
    ensures
        fraction_text(f).len() <= 9,
        forall|i: int| 0 <= i < fraction_text(f).len() ==> is_digit(#[trigger] fraction_text(f)[i]),
{
    lemma_fixed_digits(f, 9);
    lemma_strip_zeros(fixed_digits(f, 9));
    let d = fixed_digits(f, 9);
    let t = fraction_text(f);
    assert forall|i: int| 0 <= i < t.len() implies is_digit(#[trigger] t[i]) by {
        assert(t[i] == d[i]);
    }
}

proof fn lemma_fraction_text_injective(f: nat, g: nat)
    requires
        f < 1_000_000_000,
        g < 1_000_000_000,
        fraction_text(f) == fraction_text(g),
    ensures
        f == g,
{
    let df = fixed_digits(f, 9);
    let dg = fixed_digits(g, 9);
    lemma_fixed_digits(f, 9);
    lemma_fixed_digits(g, 9);
    lemma_strip_zeros(df);
    lemma_strip_zeros(dg);
    let t = fraction_text(f);
    assert forall|i: int| 0 <= i < 9 implies df[i] == dg[i] by {
        if i < t.len() {
            assert(df[i] == t[i]);
            assert(dg[i] == t[i]);
        }
    }
    assert(df =~= dg);
    assert(pow10(9) == 1_000_000_000) by {
        reveal_with_fuel(pow10, 10);
    }
    lemma_fixed_digits_injective(f, g, 9);
}

proof fn lemma_decimal_text_parts(v: int)
    ensures
        ({
            let a = if v < 0 { -v } else { v };
            let whole = nat_text((a / units_per_one()) as nat);
            let frac = a % units_per_one();
            let t = decimal_text(v);
            let body = if v < 0 { t.drop_first() } else { t };
            &&& (v < 0 <==> (t.len() > 0 && t[0] == '-'))
            &&& body.take(whole.len() as int) == whole
            &&& (frac == 0 <==> body.len() == whole.len())
            &&& frac != 0 ==> body[whole.len() as int] == '.' && body.skip(whole.len() + 1int)
                == fraction_text(frac as nat)
            &&& forall|i: int| 0 <= i < t.len() ==> #[trigger] t[i] != '_'
        }),
{
    let a = if v < 0 { -v } else { v };
    lemma_nat_text_digits((a / units_per_one()) as nat);
    let whole = nat_text((a / units_per_one()) as nat);
    let frac = a % units_per_one();
    lemma_fraction_text(frac as nat);
    let ft = fraction_text(frac as nat);
    let t = decimal_text(v);
    let body = if v < 0 { t.drop_first() } else { t };
    if v < 0 {
        assert(body =~= t.drop_first());
    }
    assert(body.take(whole.len() as int) =~= whole);
    if frac != 0 {
        assert(body.skip(whole.len() + 1int) =~= ft);
    }
    assert forall|i: int| 0 <= i < t.len() implies #[trigger] t[i] != '_' by {
        if v < 0 && i > 0 {
            assert(t[i] == body[i - 1]);
        }
        if v >= 0 || i > 0 {
            let j = if v < 0 { i - 1 } else { i };
            assert(body[j] == t[i]);
            if j < whole.len() {
                assert(body[j] == whole[j]);
            } else if j > whole.len() {
                assert(body[j] == ft[j - whole.len() - 1]);
            }
        }
    }
}

/// Different numbers of billionths have different decimal notations.
pub proof fn law_decimal_text_injective(v: int, w: int)
    requires
        decimal_text(v) == decimal_text(w),
    ensures
        v == w,
{
    lemma_decimal_text_parts(v);
    lemma_decimal_text_parts(w);
    let av = if v < 0 { -v } else { v };
    let aw = if w < 0 { -w } else { w };
    let t = decimal_text(v);
    let body = if v < 0 { t.drop_first() } else { t };
    let wv = nat_text((av / units_per_one()) as nat);
    let ww = nat_text((aw / units_per_one()) as nat);
    lemma_nat_text_digits((av / units_per_one()) as nat);
    lemma_nat_text_digits((aw / units_per_one()) as nat);
    assert((v < 0) == (w < 0));
    if wv.len() < ww.len() {
        if av % units_per_one() == 0 {
            assert(false);
        } else {
            assert(body[wv.len() as int] == '.');
            assert(body[wv.len() as int] == ww[wv.len() as int]);
            assert(is_digit(ww[wv.len() as int]));
            assert(false);
        }
    }
    if ww.len() < wv.len() {
        if aw % units_per_one() == 0 {
            assert(false);
        } else {
            assert(body[ww.len() as int] == '.');
            assert(body[ww.len() as int] == wv[ww.len() as int]);
            assert(is_digit(wv[ww.len() as int]));
            assert(false);
        }
    }
    assert(wv =~= ww);
    lemma_nat_text_injective((av / units_per_one()) as nat, (aw / units_per_one()) as nat);
    if av % units_per_one() != 0 && aw % units_per_one() != 0 {
        lemma_fraction_text_injective((av % units_per_one()) as nat, (aw % units_per_one()) as nat);
    }
}

/// A decimal notation holds no `_`.
pub proof fn lemma_decimal_text_no_underscore(v: int)
    ensures
        forall|i: int| 0 <= i < decimal_text(v).len() ==> #[trigger] decimal_text(v)[i] != '_',
{
    lemma_decimal_text_parts(v);
}

/// Replacing a character that the texts do not hold does not merge them.
pub proof fn law_replace_char_injective(x: Seq<char>, y: Seq<char>, from: char, to: char)
    requires
        forall|i: int| 0 <= i < x.len() ==> #[trigger] x[i] != to,
        forall|i: int| 0 <= i < y.len() ==> #[trigger] y[i] != to,
        replace_char(x, from, to) == replace_char(y, from, to),
    ensures
        x == y,
{
    assert(x.len() == replace_char(x, from, to).len());
    assert(y.len() == replace_char(y, from, to).len());
    assert forall|i: int| 0 <= i < x.len() implies x[i] == y[i] by {
        assert(x[i] != to && y[i] != to);
        assert(i < y.len());
        assert(replace_char(x, from, to)[i] == (if x[i] == from { to } else { x[i] }));
        assert(replace_char(y, from, to)[i] == (if y[i] == from { to } else { y[i] }));
    }
    assert(x =~= y);
}

// ---------------------------------------------------------------------------
// Executable operations
// ---------------------------------------------------------------------------

/// Appends one character to a string.
#[verifier::external_body]
pub(crate) fn push_char(s: &mut String, c: char)
    ensures
        final(s)@ == old(s)@.push(c),
{
    s.push(c);
}

/// The characters of a string slice, in order.
pub fn chars_of(s: &str) -> (res: Vec<char>)
    ensures
        res@ == s@,
{
    let mut res: Vec<char> = Vec::new();
    for c in it: s.chars()
        invariant
            res@ == it.seq().take(it.index() as int),
    {
        res.push(c);
    }
    res
}

/// The string made of `v[lo..hi]`.
pub fn string_of(v: &Vec<char>, lo: usize, hi: usize) -> (res: String)
    requires
        lo <= hi <= v.len(),
    ensures
        res@ == v@.subrange(lo as int, hi as int),
{
    let mut res = String::new();
    let mut i = lo;
    while i < hi
        invariant
            lo <= i <= hi <= v.len(),
            res@ == v@.subrange(lo as int, i as int),
        decreases hi - i,
    {
        push_char(&mut res, v[i]);
        i = i + 1;
        assert(res@ =~= v@.subrange(lo as int, i as int));
    }
    res
}

/// Appends the characters `v[lo..hi]` to `s`.
pub fn append_chars(s: &mut String, v: &Vec<char>, lo: usize, hi: usize)
    requires
        lo <= hi <= v.len(),
    ensures
        final(s)@ == old(s)@ + v@.subrange(lo as int, hi as int),
{
    let mut i = lo;
    while i < hi
        invariant
            lo <= i <= hi <= v.len(),
            s@ == old(s)@ + v@.subrange(lo as int, i as int),
        decreases hi - i,
    {
        push_char(s, v[i]);
        i = i + 1;
        assert(s@ =~= old(s)@ + v@.subrange(lo as int, i as int));
    }
}

/// Whether two strings hold the same characters.
pub fn same_text(a: &str, b: &str) -> (res: bool)
    ensures
        res == (a@ == b@),
{
    let x = String::from_str(a);
    let y = String::from_str(b);
    x == y
}

/// Whether `c` has the Unicode `White_Space` property.
pub fn is_white_space_char(c: char) -> (res: bool)
    ensures
        res == is_white_space(c),
{
    ('\u{9}' <= c && c <= '\u{d}') || c == ' ' || c == '\u{85}' || c == '\u{a0}' || c
        == '\u{1680}' || ('\u{2000}' <= c && c <= '\u{200a}') || c == '\u{2028}' || c
        == '\u{2029}' || c == '\u{202f}' || c == '\u{205f}' || c == '\u{3000}'
}

/// The bounds `(lo, hi)` of the trimmed part of `v`.
pub fn trim_bounds(v: &Vec<char>) -> (res: (usize, usize))
    ensures
        res.0 <= res.1 <= v.len(),
        v@.subrange(res.0 as int, res.1 as int) == trim(v@),
{
    let n = v.len();
    let mut lo: usize = 0;
    assert(v@.skip(0) =~= v@);
    while lo < n && is_white_space_char(v[lo])
        invariant
            lo <= n == v.len(),
            trim_start(v@) == trim_start(v@.skip(lo as int)),
            forall|j: int| 0 <= j < lo ==> is_white_space(v@[j]),
        decreases n - lo,
    {
        proof {
            lemma_trim_start_skip(v@, lo as int);
        }
        lo = lo + 1;
    }
    proof {
        let t = v@.skip(lo as int);
        if t.len() > 0 {
            assert(t[0] == v@[lo as int]);
        }
        assert(trim_start(v@) == t);
    }
    let mut hi: usize = n;
    while hi > lo && is_white_space_char(v[hi - 1])
        invariant
            lo <= hi <= n == v.len(),
            trim_start(v@) == v@.skip(lo as int),
            trim_end(v@.skip(lo as int)) == trim_end(v@.subrange(lo as int, hi as int)),
        decreases hi - lo,
    {
        proof {
            let t = v@.subrange(lo as int, hi as int);
            assert(t.last() == v@[hi - 1]);
            assert(t.drop_last() =~= v@.subrange(lo as int, hi - 1));
        }
        hi = hi - 1;
    }
    proof {
        let t = v@.subrange(lo as int, hi as int);
        if t.len() > 0 {
            assert(t.last() == v@[hi - 1]);
        }
        assert(trim_end(t) == t);
    }
    (lo, hi)
}


/// Appends `v[lo..hi]` to `s` with every `from` turned into `to`.
pub fn append_replaced(s: &mut String, v: &Vec<char>, lo: usize, hi: usize, from: char, to: char)
    requires
        lo <= hi <= v.len(),
    ensures
        final(s)@ == old(s)@ + replace_char(v@.subrange(lo as int, hi as int), from, to),
{
    let mut i = lo;
    while i < hi
        invariant
            lo <= i <= hi <= v.len(),
            s@ == old(s)@ + replace_char(v@.subrange(lo as int, i as int), from, to),
        decreases hi - i,
    {
        let c = v[i];
        if c == from {
            push_char(s, to);
        } else {
            push_char(s, c);
        }
        i = i + 1;
        assert(s@ =~= old(s)@ + replace_char(v@.subrange(lo as int, i as int), from, to));
    }
}

/// Whether `pat` stands in `v` at position `i`.
pub fn occurs_at_exec(v: &Vec<char>, pat: &Vec<char>, i: usize) -> (res: bool)
    ensures
        res == occurs_at(v@, pat@, i as int),
{
    let n = v.len();
    let m = pat.len();
    if i > n || m > n - i {
        return false;
    }
    let mut k: usize = 0;
    while k < m
        invariant
            i + m <= n == v.len(),
            m == pat.len(),
            k <= m,
            forall|j: int| 0 <= j < k ==> v@[i + j] == pat@[j],
        decreases m - k,
    {
        if v[i + k] != pat[k] {
            assert(v@.subrange(i as int, i + m)[k as int] != pat@[k as int]);
            return false;
        }
        k = k + 1;
    }
    assert(v@.subrange(i as int, i + m) =~= pat@);
    true
}

/// Whether `pat` stands somewhere in `v`.
pub fn contains_exec(v: &Vec<char>, pat: &Vec<char>) -> (res: bool)
    ensures
        res == contains(v@, pat@),
{
    let n = v.len();
    let m = pat.len();
    if m > n {
        assert forall|j: int| !occurs_at(v@, pat@, j) by {}
        return false;
    }
    let mut i: usize = 0;
    while i < n - m
        invariant
            m <= n == v.len(),
            m == pat.len(),
            i <= n - m,
            forall|j: int| 0 <= j < i ==> !occurs_at(v@, pat@, j),
        decreases n - m - i,
    {
        if occurs_at_exec(v, pat, i) {
            return true;
        }
        i = i + 1;
    }
    if occurs_at_exec(v, pat, i) {
        return true;
    }
    assert forall|j: int| !occurs_at(v@, pat@, j) by {}
    false
}

/// The pieces of `v` between the occurrences of the non-empty `sep`.
pub fn split_exec(v: &Vec<char>, sep: &Vec<char>) -> (res: Vec<Vec<char>>)
    requires
        sep.len() > 0,
    ensures
        res.deep_view() == split(v@, sep@),
{
    let n = v.len();
    let m = sep.len();
    let mut res: Vec<Vec<char>> = Vec::new();
    let mut start: usize = 0;
    let mut i: usize = 0;
    assert(v@.skip(0) =~= v@);
    while i <= n && m <= n - i
        invariant
            n == v.len(),
            m == sep.len() > 0,
            start <= i <= n,
            res.deep_view() + split(v@.skip(start as int), sep@) == split(v@, sep@),
            forall|j: int| start <= j < i ==> !occurs_at(v@, sep@, j),
        decreases n - i,
    {
        if occurs_at_exec(v, sep, i) {
            let ghost t = v@.skip(start as int);
            proof {
                assert forall|j: int| 0 <= j < i - start implies !occurs_at(t, sep@, j) by {
                    lemma_occurs_skip(v@, sep@, start as int, j);
                }
                lemma_occurs_skip(v@, sep@, start as int, i - start);
                lemma_first_occurrence_unique(t, sep@, i - start);
                assert(t.take(i - start) =~= v@.subrange(start as int, i as int));
                assert(t.skip(i - start + m) =~= v@.skip(i + m));
            }
            let mut piece: Vec<char> = Vec::new();
            let mut k = start;
            while k < i
                invariant
                    start <= k <= i <= n == v.len(),
                    piece@ == v@.subrange(start as int, k as int),
                decreases i - k,
            {
                piece.push(v[k]);
                k = k + 1;
                assert(piece@ =~= v@.subrange(start as int, k as int));
            }
            let ghost before = res.deep_view();
            assert(piece.deep_view() =~= piece@);
            res.push(piece);
            proof {
                assert(res.deep_view() =~= before.push(v@.subrange(start as int, i as int)));
                assert(split(t, sep@) == seq![t.take(i - start)] + split(
                    t.skip(i - start + m),
                    sep@,
                ));
                assert(res.deep_view() + split(v@.skip(i + m), sep@) =~= before + split(t, sep@));
            }
            start = i + m;
            i = start;
        } else {
            i = i + 1;
        }
    }
    let ghost t = v@.skip(start as int);
    proof {
        assert forall|j: int| 0 <= j implies !occurs_at(t, sep@, j) by {
            lemma_occurs_skip(v@, sep@, start as int, j);
        }
        lemma_first_occurrence_none(t, sep@);
    }
    let mut piece: Vec<char> = Vec::new();
    let mut k = start;
    while k < n
        invariant
            start <= k <= n == v.len(),
            piece@ == v@.subrange(start as int, k as int),
        decreases n - k,
    {
        piece.push(v[k]);
        k = k + 1;
        assert(piece@ =~= v@.subrange(start as int, k as int));
    }
    let ghost before = res.deep_view();
    assert(piece.deep_view() =~= piece@);
    assert(piece@ =~= t);
    res.push(piece);
    proof {
        assert(res.deep_view() =~= before.push(t));
        assert(split(t, sep@) == seq![t]);
    }
    res
}

/// The decimal digit for `d`.
pub fn digit_exec(d: u128) -> (res: char)
    requires
        d < 10,
    ensures
        res == digit_char(d as nat),
{
    if d == 0 { '0' }
    else if d == 1 { '1' }
    else if d == 2 { '2' }
    else if d == 3 { '3' }
    else if d == 4 { '4' }
    else if d == 5 { '5' }
    else if d == 6 { '6' }
    else if d == 7 { '7' }
    else if d == 8 { '8' }
    else { '9' }
}

/// Appends the decimal notation of `n` to `s`.
pub fn push_nat(s: &mut String, n: u128)
    ensures
        final(s)@ == old(s)@ + nat_text(n as nat),
    decreases n,
{
    if n < 10 {
        push_char(s, digit_exec(n));
        assert(final(s)@ =~= old(s)@ + nat_text(n as nat)) by {
            assert(s@ == old(s)@.push(digit_char(n as nat)));
        }
    } else {
        push_nat(s, n / 10);
        push_char(s, digit_exec(n % 10));
        assert(s@ =~= old(s)@ + nat_text(n as nat));
    }
}

/// Appends the decimal notation of `i` to `s`.
pub fn push_int(s: &mut String, i: i64)
    ensures
        final(s)@ == old(s)@ + int_text(i as int),
{
    if i < 0 {
        push_char(s, '-');
        let m: u128 = (-(i as i128)) as u128;
        push_nat(s, m);
        assert(s@ =~= old(s)@ + int_text(i as int));
    } else {
        push_nat(s, i as u128);
    }
}

/// The parts joined with `sep`.
pub fn join_exec(parts: &Vec<String>, sep: &str) -> (res: String)
    ensures
        res@ == join(parts.deep_view(), sep@),
{
    let mut res = String::new();
    let ghost all = parts.deep_view();
    let mut i: usize = 0;
    while i < parts.len()
        invariant
            i <= parts.len(),
            all == parts.deep_view(),
            res@ == join(all.take(i as int), sep@),
        decreases parts.len() - i,
    {
        proof {
            lemma_join_push(all.take(i as int), sep@, all[i as int]);
            assert(all.take(i + 1) =~= all.take(i as int).push(all[i as int]));
        }
        if i > 0 {
            res.append(sep);
        }
        res.append(parts[i].as_str());
        i = i + 1;
    }
    assert(all.take(parts.len() as int) =~= all);
    res
}

} // verus!

verus! {

/// The last `k` decimal digits of `f`, with leading zeros.
fn fixed_digits_exec(f: u128, k: u64) -> (res: Vec<char>)
    ensures
        res@ == fixed_digits(f as nat, k as nat),
    decreases k,
{
    if k == 0 {
        Vec::new()
    } else {
        let mut res = fixed_digits_exec(f / 10, k - 1);
        res.push(digit_exec(f % 10));
        res
    }
}

/// Appends the decimal notation of the number `v` billionths to `s`.
pub fn push_decimal(s: &mut String, v: i128)
    requires
        -0x1_0000_0000_0000_0000 <= v <= 0x1_0000_0000_0000_0000,
    ensures
        final(s)@ == old(s)@ + decimal_text(v as int),
{
    let a: u128 = if v < 0 { (-v) as u128 } else { v as u128 };
    if v < 0 {
        push_char(s, '-');
    }
    push_nat(s, a / 1_000_000_000);
    let frac = a % 1_000_000_000;
    if frac != 0 {
        push_char(s, '.');
        let digits = fixed_digits_exec(frac, 9);
        let mut end = digits.len();
        assert(digits@.take(end as int) =~= digits@);
        while end > 0 && digits[end - 1] == '0'
            invariant
                end <= digits@.len(),
                strip_zeros(digits@) == strip_zeros(digits@.take(end as int)),
            decreases end,
        {
            proof {
                let t = digits@.take(end as int);
                assert(t.last() == digits@[end - 1]);
                assert(t.drop_last() =~= digits@.take(end - 1));
            }
            end = end - 1;
        }
        proof {
            let t = digits@.take(end as int);
            if end > 0 {
                assert(t.last() == digits@[end - 1]);
            }
            assert(strip_zeros(t) == t);
            assert(digits@.subrange(0, end as int) =~= t);
        }
        append_chars(s, &digits, 0, end);
    }
    assert(s@ =~= old(s)@ + decimal_text(v as int));
}

} // verus!
