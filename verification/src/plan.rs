//! Study plans: a book's active words split into one unit per day.

use vstd::prelude::*;
use crate::num::magnitude;
use crate::rows::WordRow;

verus! {

/// `a / b` rounded up (toward positive infinity).
pub open spec fn ceil_quot(a: int, b: int) -> int
    recommends
        b != 0,
{
    if b > 0 {
        -((-a) / b)
    } else {
        -(a / (-b))
    }
}

/// Divides `a` by `b`, rounding the quotient up.
pub fn ceil_div(a: i64, b: i64) -> (r: i64)
    requires
        b != 0,
        !(a == i64::MIN && b == -1),
    ensures
        r == ceil_quot(a as int, b as int),
        b > 0 ==> (r - 1) * b < a <= r * b,
        b < 0 ==> r * b <= a < (r - 1) * b,
{
    let ua = magnitude(a);
    let ub = magnitude(b);
    let q = ua / ub;
    let m = ua % ub;
    proof {
        vstd::arithmetic::div_mod::lemma_fundamental_div_mod(ua as int, ub as int);
        assert(q <= ua) by (nonlinear_arith)
            requires
                ub >= 1,
                q == (ua as int) / (ub as int),
        ;
        if ub == 1 {
            assert(q == ua) by (nonlinear_arith)
                requires
                    ub == 1,
                    ua == ub * q + m,
                    0 <= m < ub,
            ;
        } else {
            assert(q as int * 2 <= ua) by (nonlinear_arith)
                requires
                    ub >= 2,
                    ua == ub * q + m,
                    m >= 0,
            ;
        }
    }
    let same_sign = (a >= 0) == (b > 0);
    let r: i64 = if same_sign {
        if m != 0 {
            (q as i64) + 1
        } else {
            q as i64
        }
    } else if q == 9223372036854775808u64 {
        i64::MIN
    } else {
        -(q as i64)
    };
    proof {
        let ai = a as int;
        let bi = b as int;
        let qi = q as int;
        let mi = m as int;
        let uai = ua as int;
        let ubi = ub as int;
        assert(uai == ubi * qi + mi);
        assert(0 <= mi < ubi);
        if b > 0 {
            assert((r - 1) * bi < ai <= r * bi) by (nonlinear_arith)
                requires
                    bi > 0,
                    ubi == bi,
                    uai == ubi * qi + mi,
                    0 <= mi < ubi,
                    ai >= 0 ==> uai == ai,
                    ai < 0 ==> uai == -ai,
                    ai >= 0 ==> r == (if mi != 0 { qi + 1 } else { qi }),
                    ai < 0 ==> r == -qi,
            ;
            assert(-((-ai) / bi) == r) by (nonlinear_arith)
                requires
                    bi > 0,
                    (r - 1) * bi < ai <= r * bi,
            ;
        } else {
            assert(r * bi <= ai < (r - 1) * bi) by (nonlinear_arith)
                requires
                    bi < 0,
                    ubi == -bi,
                    uai == ubi * qi + mi,
                    0 <= mi < ubi,
                    ai >= 0 ==> uai == ai,
                    ai < 0 ==> uai == -ai,
                    ai < 0 ==> r == (if mi != 0 { qi + 1 } else { qi }),
                    ai >= 0 ==> r == -qi,
            ;
            assert(-(ai / (-bi)) == r) by (nonlinear_arith)
                requires
                    bi < 0,
                    r * bi <= ai < (r - 1) * bi,
            ;
        }
    }
    r
}

/// The number of days (units) of a plan asked for `days` days: at least one.
pub open spec fn plan_days(days: i64) -> int {
    if days < 1 {
        1
    } else {
        days as int
    }
}

/// Words per unit for `n` words over `days` days: `n / days` rounded up, at least one.
pub open spec fn plan_words_per_day(n: int, days: i64) -> int {
    let c = ceil_quot(n, plan_days(days));
    if c < 1 {
        1
    } else {
        c
    }
}

/// Where unit `i` starts among `n` words taken `w` at a time.
pub open spec fn unit_start(n: int, w: int, i: int) -> int {
    if i * w < n {
        i * w
    } else {
        n
    }
}

/// One unit of a plan to be stored: its number, the `seq` range it covers and
/// the ids of its words, in order.
pub struct PlannedUnit {
    pub unit_no: i64,
    pub start_seq: i64,
    pub end_seq: i64,
    pub word_ids: Vec<i64>,
}

/// A plan to be stored: its day count, words per day and units.
pub struct PlanLayout {
    pub days: i64,
    pub words_per_day: i64,
    pub units: Vec<PlannedUnit>,
}

pub open spec fn word_ids(words: Seq<WordRow>) -> Seq<i64> {
    words.map_values(|r: WordRow| r.id)
}

/// Unit `i` (from 0) of a plan over `words` with `w` words per unit: the words
/// `words[start(i)..start(i + 1)]`; an empty unit records `start + 1 .. start` as its range.
pub open spec fn unit_is(u: PlannedUnit, words: Seq<WordRow>, w: int, i: int) -> bool {
    let n = words.len() as int;
    let lo = unit_start(n, w, i);
    let hi = unit_start(n, w, i + 1);
    &&& u.unit_no == i + 1
    &&& u.word_ids@ == word_ids(words.subrange(lo, hi))
    &&& u.start_seq == (if lo < hi {
        words[lo].seq as int
    } else {
        lo + 1
    })
    &&& u.end_seq == (if lo < hi {
        words[hi - 1].seq as int
    } else {
        lo
    })
}

/// The plan that splits `words` (a book's active words, in `seq` order) over `days` days.
pub open spec fn layout_is(l: PlanLayout, words: Seq<WordRow>, days: i64) -> bool {
    &&& l.days == plan_days(days)
    &&& l.words_per_day == plan_words_per_day(words.len() as int, days)
    &&& l.units@.len() == l.days
    &&& forall|i: int| 0 <= i < l.units@.len() ==> unit_is(#[trigger] l.units@[i], words, l.words_per_day as int, i)
}

proof fn lemma_unit_start_step(n: int, w: int, k: int)
    requires
        n >= 0,
        w >= 1,
        k >= 0,
    ensures
        unit_start(n, w, k + 1) == (if n - unit_start(n, w, k) < w {
            n
        } else {
            unit_start(n, w, k) + w
        }),
        0 <= unit_start(n, w, k) <= unit_start(n, w, k + 1) <= n,
        unit_start(n, w, k + 1) - unit_start(n, w, k) <= w,
{
    assert((k + 1) * w == k * w + w) by (nonlinear_arith);
    assert(k * w >= 0) by (nonlinear_arith)
        requires
            k >= 0,
            w >= 1,
    ;
}

/// The ids of `words[lo..hi]`.
fn ids_between(words: &Vec<WordRow>, lo: usize, hi: usize) -> (r: Vec<i64>)
    requires
        lo <= hi <= words.len(),
    ensures
        r@ == word_ids(words@.subrange(lo as int, hi as int)),
{
    let mut ids: Vec<i64> = Vec::new();
    let mut j = lo;
    while j < hi
        invariant
            lo <= j <= hi <= words.len(),
            ids@ == word_ids(words@.subrange(lo as int, j as int)),
        decreases hi - j,
    {
        ids.push(words[j].id);
        assert(words@.subrange(lo as int, j + 1) =~= words@.subrange(lo as int, j as int).push(
            words@[j as int],
        ));
        assert(word_ids(words@.subrange(lo as int, j + 1)) =~= ids@);
        j = j + 1;
    }
    ids
}

/// Splits a book's active words (in `seq` order) into a plan of `days` days:
/// `max(1, days)` units of `max(1, ceil(n / days))` consecutive words each,
/// the last ones possibly short or empty. A book without active words has no plan.
pub fn plan_layout(words: &Vec<WordRow>, days: i64) -> (r: Result<PlanLayout, String>)
    requires
        words.len() < i64::MAX,
    ensures
        r is Err <==> words.len() == 0,
        r matches Err(e) ==> e@ == "这个词书还没有可学习的单词"@,
        r matches Ok(l) ==> layout_is(l, words@, days),
{
    if words.len() == 0 {
        return Err(String::from_str("这个词书还没有可学习的单词"));
    }
    let n = words.len();
    let days = if days < 1 {
        1
    } else {
        days
    };
    let per = ceil_div(n as i64, days);
    let per = if per < 1 {
        1
    } else {
        per
    };
    proof {
        assert(per <= n) by (nonlinear_arith)
            requires
                days >= 1,
                n >= 1,
                per >= 1,
                per == 1 || (per - 1) * days < n,
        ;
    }
    let w = per as usize;
    let mut units: Vec<PlannedUnit> = Vec::new();
    let mut pos: usize = 0;
    let mut k: i64 = 0;
    while k < days
        invariant
            1 <= w <= n == words.len() < i64::MAX,
            w == per,
            days >= 1,
            0 <= k <= days,
            pos == unit_start(n as int, w as int, k as int),
            units@.len() == k,
            forall|i: int| 0 <= i < k ==> unit_is(#[trigger] units@[i], words@, w as int, i),
        decreases days - k,
    {
        proof {
            lemma_unit_start_step(n as int, w as int, k as int);
        }
        let end = if n - pos < w {
            n
        } else {
            pos + w
        };
        let start_seq = if pos < end {
            words[pos].seq
        } else {
            (pos as i64) + 1
        };
        let end_seq = if pos < end {
            words[end - 1].seq
        } else {
            pos as i64
        };
        let unit = PlannedUnit {
            unit_no: k + 1,
            start_seq,
            end_seq,
            word_ids: ids_between(words, pos, end),
        };
        assert(unit_is(unit, words@, w as int, k as int));
        units.push(unit);
        pos = end;
        k = k + 1;
    }
    Ok(PlanLayout { days, words_per_day: per, units })
}

/// The word ids of `units`, unit after unit.
pub open spec fn planned_ids(units: Seq<PlannedUnit>) -> Seq<i64>
    decreases units.len(),
{
    if units.len() == 0 {
        Seq::empty()
    } else {
        planned_ids(units.drop_last()) + units.last().word_ids@
    }
}

proof fn lemma_planned_prefix(l: PlanLayout, words: Seq<WordRow>, days: i64, k: int)
    requires
        layout_is(l, words, days),
        0 <= k <= l.units@.len(),
    ensures
        planned_ids(l.units@.take(k)) == word_ids(
            words.subrange(0, unit_start(words.len() as int, l.words_per_day as int, k)),
        ),
    decreases k,
{
    let n = words.len() as int;
    let w = l.words_per_day as int;
    assert(w >= 1);
    if k == 0 {
        assert(0 * w == 0);
        assert(l.units@.take(0) =~= Seq::<PlannedUnit>::empty());
        assert(word_ids(words.subrange(0, 0)) =~= Seq::<i64>::empty());
    } else {
        lemma_planned_prefix(l, words, days, k - 1);
        lemma_unit_start_step(n, w, k - 1);
        let lo = unit_start(n, w, k - 1);
        let hi = unit_start(n, w, k);
        assert(l.units@.take(k).drop_last() =~= l.units@.take(k - 1));
        assert(unit_is(l.units@[k - 1], words, w, k - 1));
        assert(words.subrange(0, hi) =~= words.subrange(0, lo) + words.subrange(lo, hi));
        assert(word_ids(words.subrange(0, hi)) =~= word_ids(words.subrange(0, lo)) + word_ids(
            words.subrange(lo, hi),
        ));
    }
}

/// Every active word of the book lands in exactly one unit of its plan, and
/// the units keep the book's order: their words, read unit after unit, are the
/// book's active words.
pub proof fn plan_covers_every_word_once(l: PlanLayout, words: Seq<WordRow>, days: i64)
    requires
        layout_is(l, words, days),
    ensures
        planned_ids(l.units@) == word_ids(words),
{
    let n = words.len() as int;
    let w = l.words_per_day as int;
    let d = l.days as int;
    lemma_planned_prefix(l, words, days, d);
    assert(l.units@.take(d) =~= l.units@);
    let q = (-n) / d;
    let m = (-n) % d;
    vstd::arithmetic::div_mod::lemma_fundamental_div_mod(-n, d);
    vstd::arithmetic::div_mod::lemma_mod_bound(-n, d);
    assert(d * w >= n) by (nonlinear_arith)
        requires
            d >= 1,
            w >= -q,
            -n == d * q + m,
            0 <= m < d,
    ;
    assert(words.subrange(0, n) =~= words);
}

/// No unit of a plan holds more than the plan's words per day.
pub proof fn plan_units_hold_at_most_words_per_day(l: PlanLayout, words: Seq<WordRow>, days: i64)
    requires
        layout_is(l, words, days),
    ensures
        forall|i: int| 0 <= i < l.units@.len() ==> (#[trigger] l.units@[i]).word_ids@.len() <= l.words_per_day,
{
    assert forall|i: int| 0 <= i < l.units@.len() implies (#[trigger] l.units@[i]).word_ids@.len()
        <= l.words_per_day by {
        assert(unit_is(l.units@[i], words, l.words_per_day as int, i));
        lemma_unit_start_step(words.len() as int, l.words_per_day as int, i);
    }
}

/// A unit's recorded range runs from the `seq` of its first word to the `seq`
/// of its last word; a unit without words records an empty range (its start
/// one past its end).
pub proof fn plan_unit_ranges_match_words(l: PlanLayout, words: Seq<WordRow>, days: i64, i: int)
    requires
        layout_is(l, words, days),
        0 <= i < l.units@.len(),
    ensures
        ({
            let u = l.units@[i];
            let ids = u.word_ids@;
            &&& ids.len() > 0 ==> exists|k: int|
                0 <= k && k + ids.len() <= words.len() && #[trigger] words[k].id == ids[0]
                    && words[k].seq == u.start_seq && words[k + ids.len() - 1].id == ids.last()
                    && words[k + ids.len() - 1].seq == u.end_seq
            &&& ids.len() == 0 ==> u.start_seq == u.end_seq + 1
        }),
{
    let u = l.units@[i];
    let w = l.words_per_day as int;
    let n = words.len() as int;
    assert(unit_is(u, words, w, i));
    lemma_unit_start_step(n, w, i);
    let lo = unit_start(n, w, i);
    let hi = unit_start(n, w, i + 1);
    if lo < hi {
        assert(u.word_ids@[0] == words[lo].id);
        assert(u.word_ids@.last() == words[hi - 1].id);
        assert(words[lo].id == u.word_ids@[0]);
    }
}

} // verus!
