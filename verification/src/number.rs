//! Runs of digits as numbers: the order of two runs, which looks at lengths
//! and bytes only, is the order of the numbers that the runs stand for.

use crate::atom::{lex_order, numeric_order, strip_zeros, NINE, ZERO};
use crate::order::nat_order;
use vstd::prelude::*;

verus! {

/// Every byte of `s` is a decimal digit.
pub open spec fn is_digits(s: Seq<u8>) -> bool {
    forall|i: int| 0 <= i < s.len() ==> ZERO <= #[trigger] s[i] <= NINE
}

/// The number that one digit stands for.
pub open spec fn digit(b: u8) -> nat {
    (b - ZERO) as nat
}

/// The number that a run of digits stands for in decimal notation. The empty
/// run stands for zero.
pub open spec fn decimal_value(s: Seq<u8>) -> nat
    decreases s.len(),
{
    if s.len() == 0 {
        0
    } else {
        10 * decimal_value(s.drop_last()) + digit(s.last())
    }
}

/// Ten to the power of `n`.
spec fn pow10(n: nat) -> nat
    decreases n,
{
    if n == 0 {
        1
    } else {
        10 * pow10((n - 1) as nat)
    }
}

/// The weight of the first digit of a run that is not empty.
spec fn weight(s: Seq<u8>) -> nat {
    pow10((s.len() - 1) as nat)
}

/// Powers of ten grow with the exponent.
proof fn lemma_pow10_grows(m: nat, n: nat)
    requires
        m <= n,
    ensures
        1 <= pow10(m) <= pow10(n),
    decreases n,
{
    if n > 0 {
        if m < n {
            lemma_pow10_grows(m, (n - 1) as nat);
        } else {
            lemma_pow10_grows((m - 1) as nat, (n - 1) as nat);
        }
    }
}

/// The value of a run of digits is the first digit times its weight plus the
/// value of the rest, and the value of the rest is below that weight.
proof fn lemma_value_front(s: Seq<u8>)
    requires
        is_digits(s),
        s.len() > 0,
    ensures
        decimal_value(s) == digit(s[0]) * weight(s) + decimal_value(s.drop_first()),
        decimal_value(s.drop_first()) < weight(s),
        is_digits(s.drop_first()),
    decreases s.len(),
{
    let t = s.drop_first();
    assert forall|i: int| 0 <= i < t.len() implies ZERO <= #[trigger] t[i] <= NINE by {
        assert(t[i] == s[i + 1]);
    }
    if s.len() == 1 {
        assert(s.drop_last().len() == 0);
        assert(decimal_value(s.drop_last()) == 0);
        assert(decimal_value(t) == 0);
        assert(weight(s) == 1);
        assert(digit(s[0]) * 1 == digit(s[0])) by (nonlinear_arith);
    } else {
        let u = s.drop_last();
        assert forall|i: int| 0 <= i < u.len() implies ZERO <= #[trigger] u[i] <= NINE by {
            assert(u[i] == s[i]);
        }
        lemma_value_front(u);
        assert(u.drop_first() =~= t.drop_last());
        assert(t.last() == s.last());
        assert(u[0] == s[0]);
        assert(weight(s) == 10 * weight(u));
        let d = digit(s[0]);
        let w = weight(u);
        let v = decimal_value(u.drop_first());
        assert(decimal_value(s) == 10 * (d * w + v) + digit(s.last()));
        assert(decimal_value(t) == 10 * v + digit(t.last()));
        assert(10 * (d * w + v) == d * (10 * w) + 10 * v) by (nonlinear_arith);
        assert(digit(s.last()) <= 9);
    }
}

/// Zeros at the start of a run of digits do not change its value, and what
/// is left without them is a run of digits that does not start with a zero.
proof fn lemma_strip_zeros_value(s: Seq<u8>)
    requires
        is_digits(s),
    ensures
        is_digits(strip_zeros(s)),
        decimal_value(strip_zeros(s)) == decimal_value(s),
        strip_zeros(s).len() > 0 ==> strip_zeros(s)[0] != ZERO,
    decreases s.len(),
{
    if s.len() > 0 && s[0] == ZERO {
        lemma_value_front(s);
        lemma_strip_zeros_value(s.drop_first());
        assert(digit(s[0]) * weight(s) == 0) by (nonlinear_arith)
            requires
                digit(s[0]) == 0,
        ;
    }
}

/// A run of digits that does not start with a zero stands for a larger
/// number than every shorter run of digits.
proof fn lemma_longer_is_larger(a: Seq<u8>, b: Seq<u8>)
    requires
        is_digits(a),
        is_digits(b),
        a.len() < b.len(),
        b[0] != ZERO,
    ensures
        decimal_value(a) < decimal_value(b),
{
    lemma_value_front(b);
    assert(decimal_value(b) >= weight(b)) by (nonlinear_arith)
        requires
            decimal_value(b) == digit(b[0]) * weight(b) + decimal_value(b.drop_first()),
            digit(b[0]) >= 1,
    ;
    if a.len() > 0 {
        lemma_value_front(a);
        lemma_pow10_grows(a.len(), (b.len() - 1) as nat);
        assert(pow10(a.len()) == 10 * weight(a));
        assert(decimal_value(a) < 10 * weight(a)) by (nonlinear_arith)
            requires
                decimal_value(a) == digit(a[0]) * weight(a) + decimal_value(a.drop_first()),
                decimal_value(a.drop_first()) < weight(a),
                digit(a[0]) <= 9,
        ;
    }
}

/// Of two runs of digits of one length, the first digits decide which stands
/// for the larger number; where they are the same, the rest decides.
proof fn lemma_value_by_front(a: Seq<u8>, b: Seq<u8>)
    requires
        is_digits(a),
        is_digits(b),
        a.len() == b.len(),
        a.len() > 0,
    ensures
        a[0] < b[0] ==> decimal_value(a) < decimal_value(b),
        a[0] > b[0] ==> decimal_value(a) > decimal_value(b),
        a[0] == b[0] ==> decimal_value(a) - decimal_value(b) == decimal_value(a.drop_first())
            - decimal_value(b.drop_first()),
        is_digits(a.drop_first()),
        is_digits(b.drop_first()),
{
    lemma_value_front(a);
    lemma_value_front(b);
    let w = weight(a);
    assert(weight(b) == w);
    let x = digit(a[0]);
    let y = digit(b[0]);
    if x < y {
        assert(x * w + w <= y * w) by (nonlinear_arith)
            requires
                x < y,
        ;
    }
    if x > y {
        assert(y * w + w <= x * w) by (nonlinear_arith)
            requires
                y < x,
        ;
    }
}

/// Of two runs of digits of one length, the plain order is the order of the
/// numbers they stand for.
proof fn lemma_lex_order_is_value_order(a: Seq<u8>, b: Seq<u8>)
    requires
        is_digits(a),
        is_digits(b),
        a.len() == b.len(),
    ensures
        lex_order(a, b) == nat_order(decimal_value(a), decimal_value(b)),
    decreases a.len(),
{
    if a.len() > 0 {
        lemma_value_by_front(a, b);
        if a[0] == b[0] {
            lemma_lex_order_is_value_order(a.drop_first(), b.drop_first());
        }
    }
}

/// The order of two runs of digits is the order of the numbers they stand
/// for, however long the runs are.
pub proof fn lemma_numeric_order_is_value_order(l: Seq<u8>, r: Seq<u8>)
    requires
        is_digits(l),
        is_digits(r),
    ensures
        numeric_order(l, r) == nat_order(decimal_value(l), decimal_value(r)),
{
    let a = strip_zeros(l);
    let b = strip_zeros(r);
    lemma_strip_zeros_value(l);
    lemma_strip_zeros_value(r);
    if a.len() < b.len() {
        lemma_longer_is_larger(a, b);
    } else if b.len() < a.len() {
        lemma_longer_is_larger(b, a);
    } else {
        lemma_lex_order_is_value_order(a, b);
    }
}

} // verus!
