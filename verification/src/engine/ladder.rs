//! The ladder of values an interval bind steps through, and what always
//! holds of it.
use vstd::prelude::*;
use crate::model::IntervalBind;

verus! {

/// One hundredth, in the units settings are counted in (billionths).
pub open spec fn hundredth() -> int {
    10_000_000
}

/// `x` rounded to the nearest hundredth, halves away from zero.
pub open spec fn round_hundredth(x: int) -> int {
    if x >= 0 {
        ((x + 5_000_000) / 10_000_000) * 10_000_000
    } else {
        -(((-x + 5_000_000) / 10_000_000) * 10_000_000)
    }
}

/// Rounding moves a value by at most half a hundredth.
pub proof fn lemma_round_hundredth(x: int)
    ensures
        x - 5_000_000 <= round_hundredth(x) <= x + 5_000_000,
{
    if x >= 0 {
        let q = (x + 5_000_000) / 10_000_000;
        assert(q * 10_000_000 <= x + 5_000_000 < q * 10_000_000 + 10_000_000);
    } else {
        let q = (-x + 5_000_000) / 10_000_000;
        assert(q * 10_000_000 <= -x + 5_000_000 < q * 10_000_000 + 10_000_000);
    }
}

/// The value after `value`: `value + step`, rounded to a hundredth when
/// `rounds_steps`, or `default` where that step would pass over it.
pub open spec fn ladder_next(value: int, step: int, default: int, rounds_steps: bool) -> int {
    let stepped = if rounds_steps {
        round_hundredth(value + step)
    } else {
        value + step
    };
    if value < default && default < stepped {
        default
    } else {
        stepped
    }
}

/// The values visited from `value` on, if they end within `fuel` steps:
/// each next value is `ladder_next`, the first that reaches `max` or beyond
/// is replaced by `max` itself, and the ladder ends once the value after
/// that `max` again reaches `max`. `at_max` says that `value` is that
/// `max`.
pub open spec fn ladder_fuel(
    value: int,
    at_max: bool,
    step: int,
    default: int,
    max: int,
    rounds_steps: bool,
    fuel: nat,
) -> Option<Seq<int>>
    decreases fuel,
{
    if fuel == 0 {
        None
    } else {
        let next = ladder_next(value, step, default, rounds_steps);
        if next >= max {
            if at_max {
                Some(seq![value])
            } else {
                match ladder_fuel(max, true, step, default, max, rounds_steps, (fuel - 1) as nat) {
                    Some(r) => Some(seq![value] + r),
                    None => None,
                }
            }
        } else {
            match ladder_fuel(next, at_max, step, default, max, rounds_steps, (fuel - 1) as nat) {
                Some(r) => Some(seq![value] + r),
                None => None,
            }
        }
    }
}

/// The ladder of `b` from `min`, within `fuel` steps.
pub open spec fn ladder_within(b: IntervalBind, rounds_steps: bool, fuel: nat) -> Option<Seq<int>> {
    ladder_fuel(
        b.min as int,
        false,
        b.step as int,
        b.default as int,
        b.max as int,
        rounds_steps,
        fuel,
    )
}

/// The ladder of `b` ends: the stepping reaches `max` twice.
pub open spec fn ladder_finishes(b: IntervalBind, rounds_steps: bool) -> bool {
    exists|fuel: nat| #[trigger] ladder_within(b, rounds_steps, fuel) is Some
}

/// A number of steps within which the ladder of `b` ends, where it ends.
pub open spec fn ladder_length_bound(b: IntervalBind, rounds_steps: bool) -> nat {
    choose|fuel: nat| #[trigger] ladder_within(b, rounds_steps, fuel) is Some
}

/// The values of an interval bind, from `min` to `max` (where the ladder
/// ends). The current generator rounds each step to a hundredth
/// (`rounds_steps`); the first form steps without rounding.
pub open spec fn ladder(b: IntervalBind, rounds_steps: bool) -> Seq<int> {
    ladder_within(b, rounds_steps, ladder_length_bound(b, rounds_steps))->0
}

/// Every value of the ladder of `b` fits the settings' integer type.
pub open spec fn ladder_fits(b: IntervalBind, rounds_steps: bool) -> bool {
    forall|i: int| 0 <= i < ladder(b, rounds_steps).len() ==> i64::MIN <= #[trigger] ladder(b, rounds_steps)[i]
}

/// The steps make progress: at least a hundredth when they are rounded, at
/// least one unit otherwise.
pub open spec fn steps_climb(step: int, rounds_steps: bool) -> bool {
    if rounds_steps {
        step >= hundredth()
    } else {
        step > 0
    }
}

proof fn lemma_ladder_next_climbs(value: int, step: int, default: int, rounds_steps: bool)
    requires
        steps_climb(step, rounds_steps),
    ensures
        ladder_next(value, step, default, rounds_steps) > value,
        ladder_next(value, step, default, rounds_steps) - value <= step + if rounds_steps {
            5_000_000int
        } else {
            0int
        },
{
    if rounds_steps {
        lemma_round_hundredth(value + step);
    }
}

/// From a state below `max`, or from the final `max`, a climbing ladder ends
/// within the given fuel, rises strictly from `value` to `max` in steps of
/// at most the step plus the rounding, and visits `default` when it lies
/// between `value` and `max`.
proof fn lemma_ladder_climbs_from(
    value: int,
    at_max: bool,
    step: int,
    default: int,
    max: int,
    rounds_steps: bool,
    fuel: nat,
)
    requires
        steps_climb(step, rounds_steps),
        at_max ==> value == max && fuel >= 1,
        !at_max ==> value < max && fuel >= max - value + 2,
    ensures
        ladder_fuel(value, at_max, step, default, max, rounds_steps, fuel) is Some,
        ({
            let s = ladder_fuel(value, at_max, step, default, max, rounds_steps, fuel)->0;
            let gap = step + if rounds_steps { 5_000_000int } else { 0int };
            &&& s.len() >= 1
            &&& s[0] == value
            &&& s.last() == max
            &&& forall|i: int, j: int| 0 <= i < j < s.len() ==> s[i] < s[j]
            &&& forall|i: int| 0 <= i < s.len() ==> value <= #[trigger] s[i] <= max
            &&& forall|i: int| 0 <= i < s.len() - 1 ==> #[trigger] s[i + 1] - s[i] <= gap
            &&& value <= default <= max ==> s.contains(default)
        }),
    decreases fuel,
{
    let gap = step + if rounds_steps { 5_000_000int } else { 0int };
    lemma_ladder_next_climbs(value, step, default, rounds_steps);
    let stepped = if rounds_steps { round_hundredth(value + step) } else { value + step };
    let next = ladder_next(value, step, default, rounds_steps);
    let s = ladder_fuel(value, at_max, step, default, max, rounds_steps, fuel)->0;
    if next >= max {
        if at_max {
            assert(s =~= seq![value]);
            if value <= default <= max {
                assert(s[0] == default);
            }
        } else {
            lemma_ladder_climbs_from(max, true, step, default, max, rounds_steps, (fuel - 1) as nat);
            let r = ladder_fuel(max, true, step, default, max, rounds_steps, (fuel - 1) as nat)->0;
            lemma_ladder_next_climbs(max, step, default, rounds_steps);
            assert(r =~= seq![max]);
            assert(s =~= seq![value, max]);
            if value <= default <= max {
                if default == value {
                    assert(s[0] == default);
                } else {
                    assert(default == max);
                    assert(s[1] == default);
                }
            }
        }
    } else {
        lemma_ladder_climbs_from(next, at_max, step, default, max, rounds_steps, (fuel - 1) as nat);
        let r = ladder_fuel(next, at_max, step, default, max, rounds_steps, (fuel - 1) as nat)->0;
        assert(s =~= seq![value] + r);
        assert forall|i: int| 0 <= i < s.len() - 1 implies #[trigger] s[i + 1] - s[i] <= gap by {
            if i > 0 {
                assert(s[i] == r[i - 1] && s[i + 1] == r[i]);
                assert(r[(i - 1) + 1] - r[i - 1] <= gap);
            } else {
                assert(s[1] == r[0]);
                assert(r[0] == next);
            }
        }
        assert forall|i: int, j: int| 0 <= i < j < s.len() implies s[i] < s[j] by {
            if i > 0 {
                assert(s[i] == r[i - 1] && s[j] == r[j - 1]);
            } else {
                assert(s[j] == r[j - 1]);
            }
        }
        assert forall|i: int| 0 <= i < s.len() implies value <= #[trigger] s[i] <= max by {
            if i > 0 {
                assert(s[i] == r[i - 1]);
            }
        }
        if value <= default <= max {
            if default == value {
                assert(s[0] == default);
            } else {
                assert(next <= default);
                let k = choose|k: int| 0 <= k < r.len() && r[k] == default;
                assert(s[k + 1] == default);
            }
        }
    }
}

/// The ladder of an interval bind that starts below its `max` and climbs
/// (by at least a hundredth when steps are rounded) ends; it begins at
/// `min`, ends at `max`, rises strictly in steps of at most the step (plus
/// half a hundredth when rounded), stays between `min` and `max`, and holds
/// `default` whenever `default` lies between `min` and `max`.
pub proof fn law_ladder_climbs(b: IntervalBind, rounds_steps: bool)
    requires
        steps_climb(b.step as int, rounds_steps),
        b.min < b.max,
    ensures
        ladder_finishes(b, rounds_steps),
        ({
            let s = ladder(b, rounds_steps);
            let gap = b.step + if rounds_steps { 5_000_000int } else { 0int };
            &&& s.len() >= 1
            &&& s[0] == b.min
            &&& s.last() == b.max
            &&& forall|i: int, j: int| 0 <= i < j < s.len() ==> s[i] < s[j]
            &&& forall|i: int| 0 <= i < s.len() ==> b.min <= #[trigger] s[i] <= b.max
            &&& forall|i: int| 0 <= i < s.len() - 1 ==> #[trigger] s[i + 1] - s[i] <= gap
            &&& b.min <= b.default <= b.max ==> s.contains(b.default as int)
        }),
{
    let fuel = (b.max - b.min + 2) as nat;
    lemma_ladder_climbs_from(
        b.min as int,
        false,
        b.step as int,
        b.default as int,
        b.max as int,
        rounds_steps,
        fuel,
    );
    assert(ladder_within(b, rounds_steps, fuel) is Some);
    let n = ladder_length_bound(b, rounds_steps);
    lemma_ladder_fuel_agrees(
        b.min as int,
        false,
        b.step as int,
        b.default as int,
        b.max as int,
        rounds_steps,
        fuel,
        n,
    );
}

/// Two amounts of fuel that both suffice give the same ladder.
proof fn lemma_ladder_fuel_agrees(
    value: int,
    at_max: bool,
    step: int,
    default: int,
    max: int,
    rounds_steps: bool,
    f1: nat,
    f2: nat,
)
    requires
        ladder_fuel(value, at_max, step, default, max, rounds_steps, f1) is Some,
        ladder_fuel(value, at_max, step, default, max, rounds_steps, f2) is Some,
    ensures
        ladder_fuel(value, at_max, step, default, max, rounds_steps, f1) == ladder_fuel(
            value,
            at_max,
            step,
            default,
            max,
            rounds_steps,
            f2,
        ),
    decreases f1,
{
    let next = ladder_next(value, step, default, rounds_steps);
    if next >= max {
        if !at_max {
            lemma_ladder_fuel_agrees(max, true, step, default, max, rounds_steps, (f1 - 1) as nat, (f2 - 1) as nat);
        }
    } else {
        lemma_ladder_fuel_agrees(next, at_max, step, default, max, rounds_steps, (f1 - 1) as nat, (f2 - 1) as nat);
    }
}

/// A ladder whose `min` is at or above its `max` and whose steps do not go
/// down (at least a hundredth when rounded) is `min` followed by `max`.
pub proof fn law_ladder_without_room(b: IntervalBind, rounds_steps: bool)
    requires
        b.min >= b.max,
        if rounds_steps { b.step >= hundredth() } else { b.step >= 0 },
    ensures
        ladder_finishes(b, rounds_steps),
        ladder(b, rounds_steps) == seq![b.min as int, b.max as int],
{
    if rounds_steps {
        lemma_round_hundredth(b.min + b.step);
        lemma_round_hundredth(b.max + b.step);
    }
    let w = ladder_within(b, rounds_steps, 2);
    assert(ladder_next(b.min as int, b.step as int, b.default as int, rounds_steps) >= b.max);
    assert(ladder_next(b.max as int, b.step as int, b.default as int, rounds_steps) >= b.max);
    let r = ladder_fuel(b.max as int, true, b.step as int, b.default as int, b.max as int, rounds_steps, 1);
    assert(r == Some(seq![b.max as int]));
    assert(w == Some(seq![b.min as int] + seq![b.max as int]));
    assert(ladder_within(b, rounds_steps, 2) is Some);
    let n = ladder_length_bound(b, rounds_steps);
    lemma_ladder_fuel_agrees(
        b.min as int,
        false,
        b.step as int,
        b.default as int,
        b.max as int,
        rounds_steps,
        2,
        n,
    );
    assert(seq![b.min as int] + seq![b.max as int] =~= seq![b.min as int, b.max as int]);
}

/// The values of the ladder of `b`, in order.
pub fn ladder_values(b: &IntervalBind, rounds_steps: bool) -> (res: Vec<i64>)
    requires
        ladder_finishes(*b, rounds_steps),
        ladder_fits(*b, rounds_steps),
    ensures
        res@.len() == ladder(*b, rounds_steps).len(),
        forall|i: int| 0 <= i < res@.len() ==> res@[i] as int == #[trigger] ladder(*b, rounds_steps)[i],
{
    let ghost full = ladder(*b, rounds_steps);
    let ghost step = b.step as int;
    let ghost default = b.default as int;
    let ghost max = b.max as int;
    let ghost mut fuel: nat = ladder_length_bound(*b, rounds_steps);
    let mut values: Vec<i64> = Vec::new();
    let mut value: i64 = b.min;
    let mut at_max = false;
    loop
        invariant_except_break
            ladder_fuel(value as int, at_max, step, default, max, rounds_steps, fuel) is Some,
            values@.len() + ladder_fuel(value as int, at_max, step, default, max, rounds_steps, fuel)->0.len() == full.len(),
            forall|i: int| 0 <= i < values@.len() ==> values@[i] as int == #[trigger] full[i],
            forall|i: int|
                0 <= i < ladder_fuel(value as int, at_max, step, default, max, rounds_steps, fuel)->0.len() ==>
                #[trigger] ladder_fuel(value as int, at_max, step, default, max, rounds_steps, fuel)->0[i]
                    == full[values@.len() + i],
        invariant
            step == b.step,
            default == b.default,
            max == b.max,
            full == ladder(*b, rounds_steps),
            ladder_fits(*b, rounds_steps),
        ensures
            values@.len() == full.len(),
            forall|i: int| 0 <= i < values@.len() ==> values@[i] as int == #[trigger] full[i],
        decreases fuel,
    {
        let ghost rest = ladder_fuel(value as int, at_max, step, default, max, rounds_steps, fuel)->0;
        let sum: i128 = value as i128 + b.step as i128;
        let stepped: i128 = if rounds_steps {
            round_hundredth_exec(sum)
        } else {
            sum
        };
        let next: i128 = if (value as i128) < (b.default as i128) && (b.default as i128) < stepped {
            b.default as i128
        } else {
            stepped
        };
        assert(next == ladder_next(value as int, step, default, rounds_steps));
        let ghost old_len = values@.len();
        assert(rest[0] == value as int);
        assert(rest[0] == full[old_len as int]);
        values.push(value);
        if next >= b.max as i128 {
            if at_max {
                assert(rest =~= seq![value as int]);
                assert(values@[old_len as int] as int == full[old_len as int]);
                break;
            }
            proof {
                let r = ladder_fuel(max, true, step, default, max, rounds_steps, (fuel - 1) as nat)->0;
                assert(rest =~= seq![value as int] + r);
                assert forall|i: int| 0 <= i < r.len() implies #[trigger] r[i] == full[values@.len() + i] by {
                    assert(r[i] == rest[i + 1]);
                }
                fuel = (fuel - 1) as nat;
            }
            value = b.max;
            at_max = true;
        } else {
            proof {
                let r = ladder_fuel(next as int, at_max, step, default, max, rounds_steps, (fuel - 1) as nat)->0;
                assert(rest =~= seq![value as int] + r);
                assert forall|i: int| 0 <= i < r.len() implies #[trigger] r[i] == full[values@.len() + i] by {
                    assert(r[i] == rest[i + 1]);
                }
                assert(r[0] == next);
                assert(full[values@.len() as int] == next);
                assert(i64::MIN <= full[values@.len() as int]);
                fuel = (fuel - 1) as nat;
            }
            value = next as i64;
        }
    }
    values
}

/// `x` rounded to the nearest hundredth, halves away from zero.
pub(crate) fn round_hundredth_exec(x: i128) -> (res: i128)
    requires
        -0x1000_0000_0000_0000_0000_0000 <= x <= 0x1000_0000_0000_0000_0000_0000,
    ensures
        res == round_hundredth(x as int),
{
    if x >= 0 {
        ((x + 5_000_000) / 10_000_000) * 10_000_000
    } else {
        -(((-x + 5_000_000) / 10_000_000) * 10_000_000)
    }
}

/// The ladder of `b` ends within `fuel` steps and every value fits the
/// settings' integer type.
pub open spec fn ladder_fits_within(b: IntervalBind, rounds_steps: bool, fuel: nat) -> bool {
    &&& ladder_within(b, rounds_steps, fuel) is Some
    &&& forall|i: int|
        0 <= i < ladder_within(b, rounds_steps, fuel)->0.len() ==> i64::MIN
            <= #[trigger] ladder_within(b, rounds_steps, fuel)->0[i]
}

/// The ladder of `b` ends within at most `k` steps, every value fitting.
pub open spec fn ladder_ends_within(b: IntervalBind, rounds_steps: bool, k: nat) -> bool {
    exists|f: nat| f <= k && #[trigger] ladder_fits_within(b, rounds_steps, f)
}

/// More fuel than enough gives the same ladder.
proof fn lemma_ladder_fuel_monotone(
    value: int,
    at_max: bool,
    step: int,
    default: int,
    max: int,
    rounds_steps: bool,
    f: nat,
    g: nat,
)
    requires
        ladder_fuel(value, at_max, step, default, max, rounds_steps, f) is Some,
        f <= g,
    ensures
        ladder_fuel(value, at_max, step, default, max, rounds_steps, g) == ladder_fuel(
            value,
            at_max,
            step,
            default,
            max,
            rounds_steps,
            f,
        ),
    decreases f,
{
    let next = ladder_next(value, step, default, rounds_steps);
    if next >= max {
        if !at_max {
            lemma_ladder_fuel_monotone(max, true, step, default, max, rounds_steps, (f - 1) as nat, (g - 1) as nat);
        }
    } else {
        lemma_ladder_fuel_monotone(next, at_max, step, default, max, rounds_steps, (f - 1) as nat, (g - 1) as nat);
    }
}

/// A climbing ladder from below `max` ends within `max - min + 2` steps with
/// every value between `min` and `max`.
pub proof fn law_climbing_ladder_ends_within(b: IntervalBind, rounds_steps: bool)
    requires
        steps_climb(b.step as int, rounds_steps),
        b.min < b.max,
    ensures
        ladder_ends_within(b, rounds_steps, (b.max - b.min + 2) as nat),
{
    let f = (b.max - b.min + 2) as nat;
    lemma_ladder_climbs_from(b.min as int, false, b.step as int, b.default as int, b.max as int, rounds_steps, f);
    let s = ladder_within(b, rounds_steps, f)->0;
    assert forall|i: int| 0 <= i < s.len() implies i64::MIN <= #[trigger] s[i] by {
        assert(b.min <= s[i]);
    }
    assert(ladder_fits_within(b, rounds_steps, f));
}

/// Whether the ladder of `b` ends within `max_steps` steps with every value
/// fitting the settings' integer type: it says so exactly when that holds,
/// and then the ladder can be generated.
pub fn ladder_check(b: &IntervalBind, rounds_steps: bool, max_steps: u64) -> (res: bool)
    ensures
        res ==> ladder_finishes(*b, rounds_steps) && ladder_fits(*b, rounds_steps),
        ladder_ends_within(*b, rounds_steps, max_steps as nat) ==> res,
        steps_climb(b.step as int, rounds_steps) && b.min < b.max && b.max - b.min + 2 <= max_steps
            ==> res,
{
    proof {
        if steps_climb(b.step as int, rounds_steps) && b.min < b.max && b.max - b.min + 2 <= max_steps {
            law_climbing_ladder_ends_within(*b, rounds_steps);
            let f = choose|f: nat| f <= (b.max - b.min + 2) as nat && #[trigger] ladder_fits_within(*b, rounds_steps, f);
            assert(f <= max_steps as nat && ladder_fits_within(*b, rounds_steps, f));
        }
    }
    let ghost complete = ladder_ends_within(*b, rounds_steps, max_steps as nat);
    proof {
        if complete {
            let f = choose|f: nat| f <= max_steps as nat && #[trigger] ladder_fits_within(*b, rounds_steps, f);
            lemma_ladder_fuel_monotone(b.min as int, false, b.step as int, b.default as int, b.max as int, rounds_steps, f, max_steps as nat);
        }
    }
    let ghost step = b.step as int;
    let ghost default = b.default as int;
    let ghost max = b.max as int;
    let mut value: i128 = b.min as i128;
    let mut at_max = false;
    let mut steps: u64 = 0;
    // The ladder from the current state, once it ends within the remaining
    // fuel, extends the values seen so far (all of which fit) to the whole.
    let ghost mut seen: Seq<int> = Seq::empty();
    while steps < max_steps
        invariant
            i64::MIN <= value <= i64::MAX,
            forall|i: int| 0 <= i < seen.len() ==> i64::MIN <= #[trigger] seen[i],
            forall|f: nat| #[trigger] ladder_fuel(value as int, at_max, step, default, max, rounds_steps, f) is Some
                ==> ladder_within(*b, rounds_steps, f + seen.len()) == Some(
                    seen + ladder_fuel(value as int, at_max, step, default, max, rounds_steps, f)->0,
                ),
            step == b.step,
            default == b.default,
            max == b.max,
            steps <= max_steps,
            complete == ladder_ends_within(*b, rounds_steps, max_steps as nat),
            complete ==> ladder_fuel(value as int, at_max, step, default, max, rounds_steps, (max_steps - steps) as nat) is Some,
            complete ==> forall|i: int|
                0 <= i < ladder_fuel(value as int, at_max, step, default, max, rounds_steps, (max_steps - steps) as nat)->0.len()
                    ==> i64::MIN <= #[trigger] ladder_fuel(value as int, at_max, step, default, max, rounds_steps, (max_steps - steps) as nat)->0[i],
        decreases max_steps - steps,
    {
        let stepped: i128 = if rounds_steps {
            round_hundredth_exec(value + b.step as i128)
        } else {
            value + b.step as i128
        };
        let next: i128 = if value < (b.default as i128) && (b.default as i128) < stepped {
            b.default as i128
        } else {
            stepped
        };
        assert(next == ladder_next(value as int, step, default, rounds_steps));
        if next >= b.max as i128 {
            if at_max {
                proof {
                    let f: nat = 1;
                    assert(ladder_fuel(value as int, at_max, step, default, max, rounds_steps, f) == Some(seq![value as int]));
                    let whole = seen + seq![value as int];
                    assert(ladder_within(*b, rounds_steps, f + seen.len()) == Some(whole));
                    assert(ladder_finishes(*b, rounds_steps));
                    let n = ladder_length_bound(*b, rounds_steps);
                    lemma_ladder_fuel_agrees(b.min as int, false, step, default, max, rounds_steps, f + seen.len(), n);
                    assert(ladder(*b, rounds_steps) == whole);
                    assert forall|i: int| 0 <= i < whole.len() implies i64::MIN <= #[trigger] whole[i] by {
                        if i < seen.len() {
                            assert(whole[i] == seen[i]);
                        }
                    }
                }
                return true;
            }
            proof {
                if complete {
                    let rem = (max_steps - steps) as nat;
                    let lf = ladder_fuel(value as int, at_max, step, default, max, rounds_steps, rem)->0;
                    let r = ladder_fuel(max, true, step, default, max, rounds_steps, (rem - 1) as nat);
                    assert(r is Some);
                    assert(lf == seq![value as int] + r->0);
                    assert forall|i: int| 0 <= i < r->0.len() implies i64::MIN <= #[trigger] r->0[i] by {
                        assert(r->0[i] == lf[i + 1]);
                    }
                }
                assert forall|f: nat| #[trigger] ladder_fuel(max, true, step, default, max, rounds_steps, f) is Some
                    implies ladder_within(*b, rounds_steps, f + seen.push(value as int).len()) == Some(
                        seen.push(value as int) + ladder_fuel(max, true, step, default, max, rounds_steps, f)->0,
                    ) by {
                    let g = f + 1;
                    assert(ladder_fuel(value as int, false, step, default, max, rounds_steps, g) == Some(
                        seq![value as int] + ladder_fuel(max, true, step, default, max, rounds_steps, f)->0,
                    ));
                    assert(seen + (seq![value as int] + ladder_fuel(max, true, step, default, max, rounds_steps, f)->0)
                        =~= seen.push(value as int) + ladder_fuel(max, true, step, default, max, rounds_steps, f)->0);
                }
                assert forall|i: int| 0 <= i < seen.push(value as int).len() implies i64::MIN
                    <= #[trigger] seen.push(value as int)[i] by {
                    if i < seen.len() {
                        assert(seen.push(value as int)[i] == seen[i]);
                    }
                }
                seen = seen.push(value as int);
            }
            value = b.max as i128;
            at_max = true;
        } else {
            proof {
                if complete {
                    let rem = (max_steps - steps) as nat;
                    let lf = ladder_fuel(value as int, at_max, step, default, max, rounds_steps, rem)->0;
                    let r = ladder_fuel(next as int, at_max, step, default, max, rounds_steps, (rem - 1) as nat);
                    assert(r is Some);
                    assert(lf == seq![value as int] + r->0);
                    assert(r->0[0] == next);
                    assert(lf[1] == next);
                    assert forall|i: int| 0 <= i < r->0.len() implies i64::MIN <= #[trigger] r->0[i] by {
                        assert(r->0[i] == lf[i + 1]);
                    }
                }
            }
            if next < i64::MIN as i128 {
                return false;
            }
            proof {
                assert forall|f: nat| #[trigger] ladder_fuel(next as int, at_max, step, default, max, rounds_steps, f) is Some
                    implies ladder_within(*b, rounds_steps, f + seen.push(value as int).len()) == Some(
                        seen.push(value as int) + ladder_fuel(next as int, at_max, step, default, max, rounds_steps, f)->0,
                    ) by {
                    let g = f + 1;
                    assert(ladder_fuel(value as int, at_max, step, default, max, rounds_steps, g) == Some(
                        seq![value as int] + ladder_fuel(next as int, at_max, step, default, max, rounds_steps, f)->0,
                    ));
                    assert(seen + (seq![value as int] + ladder_fuel(next as int, at_max, step, default, max, rounds_steps, f)->0)
                        =~= seen.push(value as int) + ladder_fuel(next as int, at_max, step, default, max, rounds_steps, f)->0);
                }
                assert forall|i: int| 0 <= i < seen.push(value as int).len() implies i64::MIN
                    <= #[trigger] seen.push(value as int)[i] by {
                    if i < seen.len() {
                        assert(seen.push(value as int)[i] == seen[i]);
                    }
                }
                seen = seen.push(value as int);
            }
            value = next;
        }
        steps = steps + 1;
    }
    false
}

} // verus!
