//! Choosing the simplest decimal between two bounds, digit by digit.
use vstd::prelude::*;
use vstd::arithmetic::div_mod::{lemma_div_denominator, lemma_fundamental_div_mod, lemma_div_pos_is_pos};

verus! {

/// How many decimal digits the round-number search works with.
pub const NUM_DECIMALS: usize = 16;

/// `10` to the power `k`.
pub open spec fn pow10(k: nat) -> nat
    decreases k,
{
    if k == 0 {
        1
    } else {
        10 * pow10((k - 1) as nat)
    }
}

/// Digit `i` (most significant first) of `v` written with sixteen digits.
pub open spec fn digit_at(v: nat, i: int) -> nat {
    (v / pow10((15 - i) as nat)) % 10
}

/// The number sixteen decimal digits (or fewer) spell, most significant
/// first.
pub open spec fn decimal_value(s: Seq<u8>) -> nat
    decreases s.len(),
{
    if s.len() == 0 {
        0
    } else {
        (decimal_value(s.drop_last()) * 10 + s.last()) as nat
    }
}

pub proof fn lemma_pow10_pos(k: nat)
    ensures
        pow10(k) >= 1,
    decreases k,
{
    if k > 0 {
        lemma_pow10_pos((k - 1) as nat);
    }
}

/// The midpoint of two small numbers, rounded down.
pub fn u8_midpoint(a: u8, b: u8) -> (m: u8)
    ensures
        m == (a + b) / 2,
{
    ((a as u16 + b as u16) / 2) as u8
}

/// `v` as its sixteen lowest decimal digits, most significant first.
pub fn to_decimal_string(v: u64) -> (r: [u8; 16])
    ensures
        forall|i: int| 0 <= i < 16 ==> #[trigger] r@[i] == digit_at(v as nat, i),
{
    let mut ret = [0u8; 16];
    let mut value = v;
    let mut k: usize = 16;
    assert(pow10((16 - k) as nat) == 1);
    assert(v as nat / 1 == v as nat);
    while k > 0
        invariant
            k <= 16,
            value == v as nat / pow10((16 - k) as nat),
            forall|j: int| k <= j < 16 ==> #[trigger] ret@[j] == digit_at(v as nat, j),
        decreases k,
    {
        k -= 1;
        proof {
            lemma_pow10_pos((15 - k) as nat);
            assert(pow10((16 - k) as nat) == 10 * pow10((15 - k) as nat));
            assert(value == v as nat / pow10((15 - k) as nat));
            lemma_div_denominator(v as int, pow10((15 - k) as nat) as int, 10);
            assert(pow10((15 - k) as nat) * 10 == pow10((16 - k) as nat));
        }
        ret[k] = (value % 10) as u8;
        value = value / 10;
    }
    ret
}

/// The number the digits of `s` spell, most significant first.
pub fn from_decimal_string(s: [u8; 16]) -> (v: u64)
    requires
        forall|i: int| 0 <= i < 16 ==> #[trigger] s@[i] <= 9,
    ensures
        v == decimal_value(s@),
{
    let mut value: u64 = 0;
    let mut i: usize = 0;
    proof {
        assert(pow10(0) == 1);
        lemma_pow10_pos(16);
        assert(s@.take(0) =~= Seq::<u8>::empty());
    }
    while i < 16
        invariant
            i <= 16,
            s@.len() == 16,
            forall|j: int| 0 <= j < 16 ==> #[trigger] s@[j] <= 9,
            value == decimal_value(s@.take(i as int)),
            value < pow10(i as nat),
            pow10(i as nat) <= pow10(16),
        decreases 16 - i,
    {
        let c = s[i];
        proof {
            assert(s@.take(i + 1).drop_last() =~= s@.take(i as int));
            assert(s@.take(i + 1).last() == c);
            assert(pow10((i + 1) as nat) == 10 * pow10(i as nat));
            assert(pow10(16) == 10000000000000000nat) by {
                reveal_with_fuel(pow10, 17);
            }
            assert(value * 10 + c < 10 * pow10(i as nat)) by (nonlinear_arith)
                requires
                    value < pow10(i as nat),
                    c <= 9,
            ;
            if i < 15 {
                lemma_pow10_mono((i + 1) as nat, 16);
            }
        }
        value = value * 10 + c as u64;
        i += 1;
    }
    assert(s@.take(16) =~= s@);
    value
}

pub proof fn lemma_pow10_mono(a: nat, b: nat)
    requires
        a <= b,
    ensures
        pow10(a) <= pow10(b),
    decreases b,
{
    if a < b {
        lemma_pow10_mono(a, (b - 1) as nat);
        lemma_pow10_pos((b - 1) as nat);
    }
}

/// Reading back the sixteen digits of a number below `10^16` gives the
/// number.
pub proof fn lemma_decimal_round_trip(v: nat, s: Seq<u8>)
    requires
        v < pow10(16),
        s.len() == 16,
        forall|i: int| 0 <= i < 16 ==> #[trigger] s[i] == digit_at(v, i),
    ensures
        decimal_value(s) == v,
{
    assert forall|k: int| 0 <= k <= 16 implies decimal_value(#[trigger] s.take(k)) == v / pow10(
        (16 - k) as nat,
    ) by {
        lemma_prefix_value(v, s, k);
    }
    assert(s.take(16) =~= s);
    assert(decimal_value(s.take(16)) == v / pow10(0));
    assert(pow10(0) == 1);
    assert(v / 1 == v);
}

proof fn lemma_prefix_value(v: nat, s: Seq<u8>, k: int)
    requires
        v < pow10(16),
        s.len() == 16,
        forall|i: int| 0 <= i < 16 ==> #[trigger] s[i] == digit_at(v, i),
        0 <= k <= 16,
    ensures
        decimal_value(s.take(k)) == v / pow10((16 - k) as nat),
    decreases k,
{
    if k == 0 {
        assert(s.take(0) =~= Seq::<u8>::empty());
        lemma_pow10_pos(16);
        assert(v / pow10(16) == 0) by (nonlinear_arith)
            requires
                v < pow10(16),
                v >= 0,
        ;
    } else {
        lemma_prefix_value(v, s, k - 1);
        assert(s.take(k).drop_last() =~= s.take(k - 1));
        assert(s.take(k).last() == s[k - 1]);
        let p = pow10((16 - k) as nat);
        lemma_pow10_pos((16 - k) as nat);
        assert(pow10((17 - k) as nat) == 10 * p);
        let q = v / p;
        lemma_div_denominator(v as int, p as int, 10);
        assert(p * 10 == 10 * p);
        lemma_fundamental_div_mod(q as int, 10);
        assert(s[k - 1] == q % 10);
        assert(v / pow10((17 - k) as nat) == q / 10);
        assert(q == 10 * (q / 10) + q % 10);
    }
}

/// Whether every digit of `s` from `i` on is zero.
pub open spec fn rest_zero(s: Seq<u8>, i: int) -> bool {
    forall|j: int| i <= j < s.len() ==> #[trigger] s[j] == 0
}

/// The digit chosen where the digits of the low end `a` and the high end `b`
/// first differ (at `i`): the low digit, raised by one when more nonzero
/// digits follow it; zero if that is zero; else 5 when the range allows it;
/// else the midpoint of the two.
pub open spec fn deciding_digit(a: Seq<u8>, b: Seq<u8>, i: int) -> u8 {
    let lo: int = if rest_zero(a, i + 1) { a[i] as int } else { a[i] + 1 };
    if lo == 0 {
        0
    } else if lo <= 5 && 5 <= b[i] {
        5
    } else {
        ((lo + b[i]) / 2) as u8
    }
}

/// The roundest sixteen-digit number between the digit strings `a` and `b`:
/// their common leading digits, the deciding digit where they first differ,
/// then zeros; nothing when they are equal.
pub open spec fn round_digits(a: Seq<u8>, b: Seq<u8>) -> Option<Seq<u8>> {
    if exists|i: int| 0 <= i < 16 && a[i] != b[i] {
        let i = choose|i: int| 0 <= i < 16 && a[i] != b[i] && forall|j: int| 0 <= j < i ==> a[j] == b[j];
        Some(Seq::new(16, |j: int| if j < i { a[j] } else if j == i { deciding_digit(a, b, i) } else { 0u8 }))
    } else {
        None
    }
}

fn rest_is_zero(s: &[u8; 16], from: usize) -> (r: bool)
    requires
        from <= 16,
    ensures
        r == rest_zero(s@, from as int),
{
    let mut j = from;
    while j < 16
        invariant
            from <= j <= 16,
            s@.len() == 16,
            forall|k: int| from <= k < j ==> #[trigger] s@[k] == 0,
        decreases 16 - j,
    {
        if s[j] != 0 {
            return false;
        }
        j += 1;
    }
    true
}

/// The digits of the roundest number between two sixteen-digit strings of
/// decimal digits (low end `a`, high end `b`), or nothing when they agree.
pub fn smart_digits(a: &[u8; 16], b: &[u8; 16]) -> (r: Option<[u8; 16]>)
    requires
        forall|i: int| 0 <= i < 16 ==> #[trigger] a@[i] <= 9,
    ensures
        match round_digits(a@, b@) {
            Some(d) => r is Some && r->0@ == d,
            None => r is None,
        },
{
    let mut ret = [0u8; 16];
    let mut i: usize = 0;
    while i < 16
        invariant
            i <= 16,
            a@.len() == 16,
            b@.len() == 16,
            forall|k: int| 0 <= k < 16 ==> #[trigger] a@[k] <= 9,
            forall|j: int| 0 <= j < i ==> #[trigger] a@[j] == b@[j],
            forall|j: int| 0 <= j < i ==> #[trigger] ret@[j] == a@[j],
            forall|j: int| i <= j < 16 ==> #[trigger] ret@[j] == 0,
        decreases 16 - i,
    {
        if a[i] == b[i] {
            ret[i] = a[i];
        } else {
            let mut lo = a[i];
            let zero_tail = rest_is_zero(a, i + 1);
            if !zero_tail {
                lo = lo + 1;
            }
            let digit = if lo == 0 {
                0
            } else if lo <= 5 && 5 <= b[i] {
                5
            } else {
                u8_midpoint(lo, b[i])
            };
            ret[i] = digit;
            proof {
                let w = choose|w: int| 0 <= w < 16 && a@[w] != b@[w] && forall|j: int| 0 <= j < w ==> a@[j] == b@[j];
                assert(0 <= i < 16 && a@[i as int] != b@[i as int] && forall|j: int| 0 <= j < i ==> a@[j] == b@[j]);
                if w < i {
                    assert(a@[w] == b@[w]);
                } else if w > i {
                    assert(a@[i as int] == b@[i as int]);
                }
                assert(w == i);
                let want = Seq::new(16, |j: int| if j < i { a@[j] } else if j == i as int { deciding_digit(a@, b@, i as int) } else { 0u8 });
                assert(ret@ =~= want);
            }
            return Some(ret);
        }
        i += 1;
    }
    proof {
        assert(!exists|w: int| 0 <= w < 16 && a@[w] != b@[w]);
    }
    None
}

} // verus!
