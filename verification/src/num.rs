//! Integer helpers: magnitudes, truncating division and decimal notation.

use vstd::prelude::*;
use crate::text::push_char;

verus! {

/// `|x|` as an unsigned integer.
pub fn magnitude(x: i64) -> (r: u64)
    ensures
        r as int == if x >= 0 {
            x as int
        } else {
            -(x as int)
        },
{
    if x >= 0 {
        x as u64
    } else {
        ((-(x + 1)) as u64) + 1
    }
}

/// `a / b` rounded toward zero, as Rust's `/` on signed integers computes it.
pub open spec fn trunc_quot(a: int, b: int) -> int
    recommends
        b != 0,
{
    let q = (if a >= 0 { a } else { -a }) / (if b >= 0 { b } else { -b });
    if (a >= 0) == (b >= 0) {
        q
    } else {
        -q
    }
}

/// Rust's signed division `a / b`, which rounds toward zero.
pub fn trunc_div(a: i64, b: i64) -> (r: i64)
    requires
        b != 0,
        !(a == i64::MIN && b == -1),
    ensures
        r == trunc_quot(a as int, b as int),
{
    let ua = magnitude(a);
    let ub = magnitude(b);
    let q = ua / ub;
    proof {
        assert(q <= ua) by (nonlinear_arith)
            requires
                ub >= 1,
                q == (ua as int) / (ub as int),
        ;
        if ub == 1 {
            vstd::arithmetic::div_mod::lemma_fundamental_div_mod(ua as int, ub as int);
            vstd::arithmetic::div_mod::lemma_mod_bound(ua as int, ub as int);
            assert(q == ua) by (nonlinear_arith)
                requires
                    ub == 1,
                    ua == ub * q + (ua as int) % (ub as int),
                    0 <= (ua as int) % (ub as int) < ub,
            ;
        } else {
            assert(q as int * 2 <= ua) by (nonlinear_arith)
                requires
                    ub >= 2,
                    q == (ua as int) / (ub as int),
            {
                vstd::arithmetic::div_mod::lemma_fundamental_div_mod(ua as int, ub as int);
                vstd::arithmetic::div_mod::lemma_mod_bound(ua as int, ub as int);
            }
        }
    }
    if (a >= 0) == (b >= 0) {
        q as i64
    } else if q == 9223372036854775808u64 {
        i64::MIN
    } else {
        -(q as i64)
    }
}

/// The character of the decimal digit `d`.
pub open spec fn digit_char(d: int) -> char {
    seq!['0', '1', '2', '3', '4', '5', '6', '7', '8', '9'][d]
}

/// Decimal digits of `n`, most significant first, without leading zeros.
pub open spec fn digits(n: nat) -> Seq<char>
    decreases n,
{
    if n < 10 {
        seq![digit_char(n as int)]
    } else {
        digits(n / 10).push(digit_char((n % 10) as int))
    }
}

/// `n` in decimal notation, as `Display` writes integers: a `-` sign, then the digits.
pub open spec fn decimal(n: int) -> Seq<char> {
    if n < 0 {
        seq!['-'] + digits((-n) as nat)
    } else {
        digits(n as nat)
    }
}

spec fn digits_or_empty(n: nat) -> Seq<char> {
    if n == 0 {
        Seq::empty()
    } else {
        digits(n)
    }
}

fn digit_of(d: u64) -> (c: char)
    requires
        d < 10,
    ensures
        c == digit_char(d as int),
{
    let table = ['0', '1', '2', '3', '4', '5', '6', '7', '8', '9'];
    assert(table@ =~= seq!['0', '1', '2', '3', '4', '5', '6', '7', '8', '9']);
    table[d as usize]
}

/// Writes `n` in decimal, as `n.to_string()` does.
pub fn decimal_string(n: i64) -> (r: String)
    ensures
        r@ == decimal(n as int),
{
    let mag = magnitude(n);
    let mut acc: Vec<char> = Vec::new();
    if mag == 0 {
        acc.push('0');
        assert(acc@ =~= digits(0));
    } else {
        let mut m = mag;
        while m > 0
            invariant
                digits(mag as nat) == digits_or_empty(m as nat) + acc@,
            decreases m,
        {
            let d = m % 10;
            let c = digit_of(d);
            proof {
                if m < 10 {
                    assert(m / 10 == 0);
                    assert(digits(m as nat) =~= seq![c]);
                } else {
                    assert(digits(m as nat) == digits((m / 10) as nat).push(c));
                }
                assert(digits_or_empty(m as nat) + acc@ =~= digits_or_empty((m / 10) as nat) + (
                seq![c] + acc@));
            }
            let ghost before = acc@;
            acc.insert(0, c);
            assert(acc@ =~= seq![c] + before);
            m = m / 10;
        }
        assert(acc@ =~= digits(mag as nat));
    }
    let mut r = String::new();
    if n < 0 {
        push_char(&mut r, '-');
    }
    let ghost prefix = r@;
    let mut i: usize = 0;
    while i < acc.len()
        invariant
            0 <= i <= acc.len(),
            acc@ == digits(mag as nat),
            r@ == prefix + acc@.take(i as int),
        decreases acc.len() - i,
    {
        push_char(&mut r, acc[i]);
        assert(acc@.take(i + 1) =~= acc@.take(i as int).push(acc@[i as int]));
        i = i + 1;
    }
    assert(acc@.take(acc.len() as int) =~= acc@);
    proof {
        if n < 0 {
            assert(prefix =~= seq!['-']);
        } else {
            assert(prefix =~= Seq::<char>::empty());
        }
    }
    r
}

/// The number a string of decimal digits denotes.
pub open spec fn digits_value(ds: Seq<char>) -> int
    decreases ds.len(),
{
    if ds.len() == 0 {
        0
    } else {
        digits_value(ds.drop_last()) * 10 + (ds.last() as int - '0' as int)
    }
}

proof fn lemma_digit_char_value(d: int)
    requires
        0 <= d < 10,
    ensures
        digit_char(d) as int - '0' as int == d,
        '0' <= digit_char(d) <= '9',
{
    let t = seq!['0', '1', '2', '3', '4', '5', '6', '7', '8', '9'];
    assert(t[0] == '0' && t[1] == '1' && t[2] == '2' && t[3] == '3' && t[4] == '4');
    assert(t[5] == '5' && t[6] == '6' && t[7] == '7' && t[8] == '8' && t[9] == '9');
}

proof fn lemma_digits_value(n: nat)
    ensures
        digits_value(digits(n)) == n,
        digits(n).len() > 0,
        digits(n).len() == 1 <==> n < 10,
        digits(n).len() > 1 ==> digits(n)[0] != '0',
    decreases n,
{
    if n < 10 {
        lemma_digit_char_value(n as int);
        let ds = digits(n);
        assert(ds == seq![digit_char(n as int)]);
        assert(ds.drop_last() =~= Seq::<char>::empty());
        assert(ds.last() == digit_char(n as int));
        assert(digits_value(ds) == digits_value(ds.drop_last()) * 10 + (ds.last() as int - '0' as int));
    } else {
        lemma_digits_value(n / 10);
        lemma_digit_char_value((n % 10) as int);
        let ds = digits(n);
        assert(ds == digits(n / 10).push(digit_char((n % 10) as int)));
        assert(ds.drop_last() =~= digits(n / 10));
        assert(ds.last() == digit_char((n % 10) as int));
        assert(ds[0] == digits(n / 10)[0]);
        vstd::arithmetic::div_mod::lemma_fundamental_div_mod(n as int, 10);
        assert(digits_value(ds) == digits_value(ds.drop_last()) * 10 + (ds.last() as int - '0' as int));
        if digits(n / 10).len() == 1 {
            lemma_digit_char_value((n / 10) as int);
            assert(digits(n / 10)[0] == digit_char((n / 10) as int));
        }
    }
}

/// Decimal notation reads back as the number: a non-negative number is its
/// digits, with no leading zero; a negative one is `-` and the digits of its
/// magnitude.
pub proof fn decimal_reads_back(n: int)
    ensures
        n >= 0 ==> digits_value(decimal(n)) == n,
        n < 0 ==> decimal(n)[0] == '-' && digits_value(decimal(n).drop_first()) == -n,
        n >= 0 && decimal(n).len() > 1 ==> decimal(n)[0] != '0',
        n < 0 && decimal(n).len() > 2 ==> decimal(n)[1] != '0',
{
    if n >= 0 {
        lemma_digits_value(n as nat);
    } else {
        lemma_digits_value((-n) as nat);
        assert(decimal(n).drop_first() =~= digits((-n) as nat));
    }
}

} // verus!
