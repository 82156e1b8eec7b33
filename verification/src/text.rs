//! Character-level helpers over the `Seq<char>` view of strings: Unicode
//! whitespace, trimming, searching and slicing by character index.

use vstd::prelude::*;

verus! {

broadcast use vstd::string::group_string_axioms;

/// Unicode `White_Space`, the set that `char::is_whitespace` and `str::trim` use.
pub open spec fn is_ws(c: char) -> bool {
    ||| ('\u{9}' <= c && c <= '\u{d}')
    ||| c == ' '
    ||| c == '\u{85}'
    ||| c == '\u{a0}'
    ||| c == '\u{1680}'
    ||| ('\u{2000}' <= c && c <= '\u{200a}')
    ||| c == '\u{2028}'
    ||| c == '\u{2029}'
    ||| c == '\u{202f}'
    ||| c == '\u{205f}'
    ||| c == '\u{3000}'
}

/// Number of whitespace characters at the start of `s`.
pub open spec fn lead_ws(s: Seq<char>) -> nat
    decreases s.len(),
{
    if s.len() > 0 && is_ws(s[0]) {
        1 + lead_ws(s.drop_first())
    } else {
        0
    }
}

/// Number of whitespace characters at the end of `s`.
pub open spec fn trail_ws(s: Seq<char>) -> nat
    decreases s.len(),
{
    if s.len() > 0 && is_ws(s.last()) {
        1 + trail_ws(s.drop_last())
    } else {
        0
    }
}

/// `s` without its leading and trailing whitespace (what `str::trim` returns).
pub open spec fn trim(s: Seq<char>) -> Seq<char> {
    let t = s.skip(lead_ws(s) as int);
    t.take(t.len() - trail_ws(t))
}

/// Index of the first `c` in `s`, or `s.len()` when `c` does not occur.
pub open spec fn find_char(s: Seq<char>, c: char) -> nat
    decreases s.len(),
{
    if s.len() == 0 {
        0
    } else if s[0] == c {
        0
    } else {
        1 + find_char(s.drop_first(), c)
    }
}

/// Index of the first two consecutive spaces in `s`, or `s.len()` when there are none.
pub open spec fn find_double_space(s: Seq<char>) -> nat
    decreases s.len(),
{
    if s.len() < 2 {
        s.len()
    } else if s[0] == ' ' && s[1] == ' ' {
        0
    } else {
        1 + find_double_space(s.drop_first())
    }
}

proof fn lemma_lead_ws_is(s: Seq<char>, k: int)
    requires
        0 <= k <= s.len(),
        forall|j: int| 0 <= j < k ==> is_ws(#[trigger] s[j]),
        k == s.len() || !is_ws(s[k]),
    ensures
        lead_ws(s) == k,
    decreases k,
{
    if k > 0 {
        let t = s.drop_first();
        assert forall|j: int| 0 <= j < k - 1 implies is_ws(#[trigger] t[j]) by {
            assert(t[j] == s[j + 1]);
        }
        if k < s.len() {
            assert(t[k - 1] == s[k]);
        }
        lemma_lead_ws_is(t, k - 1);
    }
}

proof fn lemma_trail_ws_is(s: Seq<char>, k: int)
    requires
        0 <= k <= s.len(),
        forall|j: int| s.len() - k <= j < s.len() ==> is_ws(#[trigger] s[j]),
        k == s.len() || !is_ws(s[s.len() - k - 1]),
    ensures
        trail_ws(s) == k,
    decreases k,
{
    if k > 0 {
        let t = s.drop_last();
        assert forall|j: int| t.len() - (k - 1) <= j < t.len() implies is_ws(#[trigger] t[j]) by {
            assert(t[j] == s[j]);
        }
        if k < s.len() {
            assert(t[t.len() - (k - 1) - 1] == s[s.len() - k - 1]);
        }
        assert(is_ws(s[s.len() - 1]));
        lemma_trail_ws_is(t, k - 1);
    }
}

pub proof fn lemma_find_char_is(s: Seq<char>, c: char, k: int)
    requires
        0 <= k <= s.len(),
        forall|j: int| 0 <= j < k ==> #[trigger] s[j] != c,
        k == s.len() || s[k] == c,
    ensures
        find_char(s, c) == k,
    decreases k,
{
    if k > 0 {
        let t = s.drop_first();
        assert forall|j: int| 0 <= j < k - 1 implies #[trigger] t[j] != c by {
            assert(t[j] == s[j + 1]);
        }
        if k < s.len() {
            assert(t[k - 1] == s[k]);
        }
        assert(s[0] != c);
        lemma_find_char_is(t, c, k - 1);
    }
}

pub proof fn lemma_find_double_space_is(s: Seq<char>, k: int)
    requires
        0 <= k <= s.len(),
        forall|j: int| 0 <= j < k && j + 1 < s.len() ==> !(#[trigger] s[j] == ' ' && s[j + 1] == ' '),
        k == s.len() || (k + 1 < s.len() && s[k] == ' ' && s[k + 1] == ' '),
        k == s.len() ==> s.len() < 2 || !(s[s.len() - 2] == ' ' && s[s.len() - 1] == ' '),
    ensures
        find_double_space(s) == k,
    decreases k,
{
    if s.len() < 2 {
    } else if k > 0 {
        let t = s.drop_first();
        assert(!(s[0] == ' ' && s[1] == ' '));
        assert forall|j: int| 0 <= j < k - 1 && j + 1 < t.len() implies !(#[trigger] t[j] == ' '
            && t[j + 1] == ' ') by {
            assert(t[j] == s[j + 1]);
            assert(t[j + 1] == s[j + 2]);
        }
        if k < s.len() {
            assert(t[k - 1] == s[k]);
            assert(t[k] == s[k + 1]);
        } else if t.len() >= 2 {
            assert(t[t.len() - 2] == s[s.len() - 2]);
            assert(t[t.len() - 1] == s[s.len() - 1]);
        }
        lemma_find_double_space_is(t, k - 1);
    }
}

pub fn is_whitespace_char(c: char) -> (r: bool)
    ensures
        r == is_ws(c),
{
    ('\u{9}' <= c && c <= '\u{d}') || c == ' ' || c == '\u{85}' || c == '\u{a0}' || c
        == '\u{1680}' || ('\u{2000}' <= c && c <= '\u{200a}') || c == '\u{2028}' || c
        == '\u{2029}' || c == '\u{202f}' || c == '\u{205f}' || c == '\u{3000}'
}

/// The characters of `s`, in order.
pub fn chars_of(s: &str) -> (cs: Vec<char>)
    ensures
        cs@ == s@,
{
    let mut cs: Vec<char> = Vec::new();
    for c in it: s.chars()
        invariant
            it.seq() == s@,
            cs@ == it.seq().take(it.index()),
    {
        cs.push(c);
    }
    cs
}

/// `String::push`: appends one character to the string.
#[verifier::external_body]
pub(crate) fn push_char(s: &mut String, c: char)
    ensures
        final(s)@ == old(s)@.push(c),
{
    s.push(c);
}

/// The string made of `cs[lo..hi]`.
pub fn string_of(cs: &Vec<char>, lo: usize, hi: usize) -> (r: String)
    requires
        lo <= hi <= cs.len(),
    ensures
        r@ == cs@.subrange(lo as int, hi as int),
{
    let mut r = String::new();
    let mut i = lo;
    while i < hi
        invariant
            lo <= i <= hi <= cs.len(),
            r@ == cs@.subrange(lo as int, i as int),
        decreases hi - i,
    {
        push_char(&mut r, cs[i]);
        assert(cs@.subrange(lo as int, i + 1) == cs@.subrange(lo as int, i as int).push(cs@[i as int]));
        i = i + 1;
    }
    r
}

/// Bounds of `trim(cs[lo..hi])` inside `cs`.
pub fn trim_range(cs: &Vec<char>, lo: usize, hi: usize) -> (r: (usize, usize))
    requires
        lo <= hi <= cs.len(),
    ensures
        lo <= r.0 <= r.1 <= hi,
        cs@.subrange(r.0 as int, r.1 as int) == trim(cs@.subrange(lo as int, hi as int)),
{
    let ghost s = cs@.subrange(lo as int, hi as int);
    let mut a = lo;
    while a < hi && is_whitespace_char(cs[a])
        invariant
            lo <= a <= hi <= cs.len(),
            s == cs@.subrange(lo as int, hi as int),
            forall|j: int| lo <= j < a ==> is_ws(#[trigger] cs@[j]),
        decreases hi - a,
    {
        a = a + 1;
    }
    let mut b = hi;
    while b > a && is_whitespace_char(cs[b - 1])
        invariant
            lo <= a <= b <= hi <= cs.len(),
            forall|j: int| b <= j < hi ==> is_ws(#[trigger] cs@[j]),
        decreases b - a,
    {
        b = b - 1;
    }
    proof {
        assert forall|j: int| 0 <= j < a - lo implies is_ws(#[trigger] s[j]) by {
            assert(s[j] == cs@[lo + j]);
        }
        if a < hi {
            assert(s[a - lo] == cs@[a as int]);
        }
        lemma_lead_ws_is(s, a - lo);
        let t = s.skip(lead_ws(s) as int);
        assert(t == cs@.subrange(a as int, hi as int));
        assert forall|j: int| t.len() - (hi - b) <= j < t.len() implies is_ws(#[trigger] t[j]) by {
            assert(t[j] == cs@[a + j]);
        }
        if b > a {
            assert(t[t.len() - (hi - b) - 1] == cs@[b - 1]);
        }
        lemma_trail_ws_is(t, hi - b);
        assert(t.take(t.len() - trail_ws(t)) == cs@.subrange(a as int, b as int));
    }
    (a, b)
}

/// Position of the first `c` in `cs[lo..hi]`, or `hi` when there is none.
pub fn find_char_in(cs: &Vec<char>, lo: usize, hi: usize, c: char) -> (r: usize)
    requires
        lo <= hi <= cs.len(),
    ensures
        lo <= r <= hi,
        r - lo == find_char(cs@.subrange(lo as int, hi as int), c),
        r < hi ==> cs@[r as int] == c,
{
    let ghost s = cs@.subrange(lo as int, hi as int);
    let mut i = lo;
    while i < hi && cs[i] != c
        invariant
            lo <= i <= hi <= cs.len(),
            forall|j: int| lo <= j < i ==> #[trigger] cs@[j] != c,
        decreases hi - i,
    {
        i = i + 1;
    }
    proof {
        assert forall|j: int| 0 <= j < i - lo implies #[trigger] s[j] != c by {
            assert(s[j] == cs@[lo + j]);
        }
        if i < hi {
            assert(s[i - lo] == cs@[i as int]);
        }
        lemma_find_char_is(s, c, i - lo);
    }
    i
}

/// Position of the first two consecutive spaces in `cs[lo..hi]`, or `hi` when there are none.
pub fn find_double_space_in(cs: &Vec<char>, lo: usize, hi: usize) -> (r: usize)
    requires
        lo <= hi <= cs.len(),
    ensures
        lo <= r <= hi,
        r - lo == find_double_space(cs@.subrange(lo as int, hi as int)),
        r < hi ==> r + 1 < hi,
{
    let ghost s = cs@.subrange(lo as int, hi as int);
    if hi - lo < 2 {
        return hi;
    }
    let mut i = lo;
    while i + 1 < hi && !(cs[i] == ' ' && cs[i + 1] == ' ')
        invariant
            lo <= i < hi <= cs.len(),
            forall|j: int| lo <= j < i ==> !(#[trigger] cs@[j] == ' ' && cs@[j + 1] == ' '),
        decreases hi - i,
    {
        i = i + 1;
    }
    let r = if i + 1 < hi { i } else { hi };
    proof {
        assert forall|j: int| 0 <= j < r - lo && j + 1 < s.len() implies !(#[trigger] s[j] == ' '
            && s[j + 1] == ' ') by {
            assert(s[j] == cs@[lo + j]);
            assert(s[j + 1] == cs@[lo + j + 1]);
        }
        if r < hi {
            assert(s[r - lo] == cs@[r as int]);
            assert(s[r - lo + 1] == cs@[r + 1]);
        } else {
            assert(s[s.len() - 2] == cs@[hi - 2]);
            assert(s[s.len() - 1] == cs@[hi - 1]);
        }
        lemma_find_double_space_is(s, r - lo);
    }
    r
}

/// `t` has no whitespace at either end.
pub open spec fn is_trimmed(t: Seq<char>) -> bool {
    t.len() == 0 || (!is_ws(t[0]) && !is_ws(t.last()))
}

proof fn lemma_lead_ws_stops(s: Seq<char>)
    ensures
        lead_ws(s) <= s.len(),
        lead_ws(s) < s.len() ==> !is_ws(s[lead_ws(s) as int]),
    decreases s.len(),
{
    if s.len() > 0 && is_ws(s[0]) {
        lemma_lead_ws_stops(s.drop_first());
    }
}

proof fn lemma_trail_ws_stops(s: Seq<char>)
    ensures
        trail_ws(s) <= s.len(),
        trail_ws(s) < s.len() ==> !is_ws(s[s.len() - trail_ws(s) - 1]),
    decreases s.len(),
{
    if s.len() > 0 && is_ws(s.last()) {
        lemma_trail_ws_stops(s.drop_last());
    }
}

/// What `trim` returns has no whitespace at either end.
pub proof fn lemma_trim_is_trimmed(s: Seq<char>)
    ensures
        is_trimmed(trim(s)),
{
    lemma_lead_ws_stops(s);
    let u = s.skip(lead_ws(s) as int);
    lemma_trail_ws_stops(u);
    let t = trim(s);
    if t.len() > 0 {
        assert(t[0] == u[0]);
        assert(u[0] == s[lead_ws(s) as int]);
        assert(t.last() == u[u.len() - trail_ws(u) - 1]);
    }
}

proof fn lemma_trail_ws_all(s: Seq<char>)
    ensures
        trail_ws(s) <= s.len(),
        forall|j: int| s.len() - trail_ws(s) <= j < s.len() ==> is_ws(#[trigger] s[j]),
    decreases s.len(),
{
    if s.len() > 0 && is_ws(s.last()) {
        let t = s.drop_last();
        lemma_trail_ws_all(t);
        assert forall|j: int| s.len() - trail_ws(s) <= j < s.len() implies is_ws(#[trigger] s[j]) by {
            if j < s.len() - 1 {
                assert(s[j] == t[j]);
            }
        }
    }
}

/// Trimming text that starts with a non-whitespace character leaves it non-empty.
pub proof fn lemma_trim_keeps_first(s: Seq<char>)
    requires
        s.len() > 0,
        !is_ws(s[0]),
    ensures
        trim(s).len() > 0,
{
    assert(lead_ws(s) == 0);
    assert(s.skip(0) =~= s);
    lemma_trail_ws_all(s);
    if trail_ws(s) == s.len() {
        assert(is_ws(s[0]));
    }
}

proof fn lemma_lead_ws_all(s: Seq<char>)
    ensures
        lead_ws(s) <= s.len(),
        forall|j: int| 0 <= j < lead_ws(s) ==> is_ws(#[trigger] s[j]),
    decreases s.len(),
{
    if s.len() > 0 && is_ws(s[0]) {
        let t = s.drop_first();
        lemma_lead_ws_all(t);
        assert forall|j: int| 0 <= j < lead_ws(s) implies is_ws(#[trigger] s[j]) by {
            if j > 0 {
                assert(s[j] == t[j - 1]);
            }
        }
    }
}

/// `trim` keeps a contiguous middle part of the text, removes only
/// whitespace before and after it, and leaves no whitespace at its ends.
pub proof fn trim_law(s: Seq<char>)
    ensures
        exists|a: int, b: int|
            #![trigger s.subrange(a, b)]
            0 <= a <= b <= s.len() && trim(s) == s.subrange(a, b) && (forall|j: int|
                0 <= j < a ==> is_ws(#[trigger] s[j])) && (forall|j: int|
                b <= j < s.len() ==> is_ws(#[trigger] s[j])),
        is_trimmed(trim(s)),
{
    lemma_lead_ws_all(s);
    let a = lead_ws(s) as int;
    let u = s.skip(a);
    lemma_trail_ws_all(u);
    let b = a + u.len() - trail_ws(u);
    assert(trim(s) =~= s.subrange(a, b));
    assert forall|j: int| b <= j < s.len() implies is_ws(#[trigger] s[j]) by {
        assert(s[j] == u[j - a]);
    }
    lemma_trim_is_trimmed(s);
}

} // verus!
