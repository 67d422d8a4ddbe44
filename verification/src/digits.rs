//! Decimal digits, powers of ten and the like.

use vstd::prelude::*;

verus! {

/// Ten to the power of `n`.
pub open spec fn pow10(n: nat) -> nat
    decreases n,
{
    if n == 0 {
        1
    } else {
        10 * pow10((n - 1) as nat)
    }
}

/// Powers of ten grow with the exponent.
pub proof fn lemma_pow10_grows(i: nat, j: nat)
    requires
        i <= j,
    ensures
        0 < pow10(i) <= pow10(j),
    decreases j,
{
    if i < j {
        lemma_pow10_grows(i, (j - 1) as nat);
    } else if i > 0 {
        lemma_pow10_grows((i - 1) as nat, (i - 1) as nat);
    }
}

/// The number of decimal digits of `n`, less one.
pub open spec fn log10_floor(n: nat) -> nat
    decreases n,
{
    if n < 10 {
        0
    } else {
        1 + log10_floor(n / 10)
    }
}

/// The decimal digits of `n`, most significant first.
pub open spec fn digits_of(n: nat) -> Seq<u8>
    decreases n,
{
    if n < 10 {
        seq![n as u8]
    } else {
        digits_of(n / 10).push((n % 10) as u8)
    }
}

/// A number has one digit more than its logarithm says, and lies between
/// the powers of ten around it.
pub proof fn lemma_log10_floor(n: nat)
    ensures
        digits_of(n).len() == log10_floor(n) + 1,
        n > 0 ==> pow10(log10_floor(n)) <= n < pow10(log10_floor(n) + 1),
    decreases n,
{
    if n >= 10 {
        lemma_log10_floor(n / 10);
    }
}

/// A power of ten with the sum of two exponents is the product of the
/// powers.
pub proof fn lemma_pow10_add(a: nat, b: nat)
    ensures
        pow10(a + b) == pow10(a) * pow10(b),
    decreases b,
{
    if b == 0 {
        assert(pow10(a) * 1 == pow10(a)) by (nonlinear_arith);
    } else {
        lemma_pow10_add(a, (b - 1) as nat);
        let x = pow10(a);
        let y = pow10((b - 1) as nat);
        assert(pow10(a + b) == 10 * pow10((a + b - 1) as nat));
        assert(10 * (x * y) == x * (10 * y)) by (nonlinear_arith);
    }
}

/// A greater exponent gives a greater power of ten.
pub proof fn lemma_pow10_strict(i: nat, j: nat)
    requires
        i < j,
    ensures
        pow10(i) < pow10(j),
{
    lemma_pow10_grows(i + 1, j);
    lemma_pow10_grows(0, i);
}

/// A number between two neighbouring powers of ten has the lesser exponent
/// as its logarithm.
pub proof fn lemma_log10_is(n: nat, l: nat)
    requires
        pow10(l) <= n < pow10(l + 1),
    ensures
        log10_floor(n) == l,
{
    lemma_pow10_grows(0, l);
    lemma_log10_floor(n);
    let k = log10_floor(n);
    if k < l {
        lemma_pow10_grows(k + 1, l);
    } else if l < k {
        lemma_pow10_grows(l + 1, k);
    }
}

/// A greater number has no lesser logarithm.
pub proof fn lemma_log10_grows(a: nat, b: nat)
    requires
        0 < a <= b,
    ensures
        log10_floor(a) <= log10_floor(b),
{
    lemma_log10_floor(a);
    lemma_log10_floor(b);
    if log10_floor(b) < log10_floor(a) {
        lemma_pow10_grows(log10_floor(b) + 1, log10_floor(a));
    }
}

/// Writing `b` behind `a` gives the digits of `a` and then those of `b`.
pub proof fn lemma_digits_concat(a: nat, b: nat)
    requires
        a >= 1,
    ensures
        digits_of(a * pow10(digits_of(b).len()) + b) == digits_of(a) + digits_of(b),
    decreases b,
{
    if b < 10 {
        assert(pow10(1) == 10) by {
            reveal_with_fuel(pow10, 2);
        }
        let n = a * 10 + b;
        assert(n >= 10 && n / 10 == a && n % 10 == b);
        assert(digits_of(a).push(b as u8) =~= digits_of(a) + seq![b as u8]);
    } else {
        let rest = b / 10;
        let last = b % 10;
        lemma_digits_concat(a, rest);
        let k = digits_of(rest).len();
        let p = pow10(k);
        lemma_pow10_grows(0, k);
        assert(digits_of(b).len() == k + 1);
        let n = a * pow10(k + 1) + b;
        assert(pow10(k + 1) == 10 * p);
        assert(a * (10 * p) + b == (a * p + rest) * 10 + last) by (nonlinear_arith)
            requires
                b == rest * 10 + last,
        ;
        assert(a * p >= 1) by (nonlinear_arith)
            requires
                a >= 1,
                p >= 1,
        ;
        assert(n >= 10 && n / 10 == a * p + rest && n % 10 == last);
        assert((digits_of(a) + digits_of(rest)).push(last as u8) =~= digits_of(a) + digits_of(
            rest,
        ).push(last as u8));
    }
}

/// The number of decimal digits of `n`, less one.
pub fn ilog10(n: u64) -> (r: u32)
    ensures
        r == log10_floor(n as nat),
        r <= 19,
{
    let mut rest: u64 = n;
    let mut r: u32 = 0;
    proof {
        assert(rest * pow10(0) == n) by (nonlinear_arith)
            requires
                rest == n,
                pow10(0) == 1,
        ;
    }
    while rest >= 10
        invariant
            log10_floor(n as nat) == r + log10_floor(rest as nat),
            r <= 19,
            rest * pow10(r as nat) <= n,
        decreases rest,
    {
        proof {
            assert(pow10((r + 1) as nat) == 10 * pow10(r as nat));
            assert((rest / 10) * (10 * pow10(r as nat)) <= rest * pow10(r as nat))
                by (nonlinear_arith)
                requires
                    pow10(r as nat) >= 0,
                    rest >= 0,
            ;
            if r == 19 {
                assert(pow10(20) == 100_000_000_000_000_000_000) by {
                    reveal_with_fuel(pow10, 21);
                }
                assert((rest / 10) * pow10(20) >= pow10(20)) by (nonlinear_arith)
                    requires
                        rest / 10 >= 1,
                        pow10(20) >= 0,
                ;
            }
        }
        rest = rest / 10;
        r = r + 1;
    }
    r
}

/// Ten to the power of `k`, where it fits 64 bits.
pub fn power_of_ten(k: u32) -> (r: Option<u64>)
    ensures
        r == if pow10(k as nat) <= u64::MAX {
            Some(pow10(k as nat) as u64)
        } else {
            None
        },
{
    let mut value: u64 = 1;
    let mut i: u32 = 0;
    while i < k
        invariant
            i <= k,
            value == pow10(i as nat),
        decreases k - i,
    {
        proof {
            lemma_pow10_grows((i + 1) as nat, k as nat);
        }
        match value.checked_mul(10) {
            Some(next) => {
                value = next;
            },
            None => {
                return None;
            },
        }
        i = i + 1;
    }
    Some(value)
}

/// The decimal digits of `n`, most significant first.
pub fn decimal_digits(n: u64) -> (digits: Vec<u8>)
    ensures
        digits@ == digits_of(n as nat),
{
    let mut reversed: Vec<u8> = Vec::new();
    let mut rest: u64 = n;
    while rest >= 10
        invariant
            digits_of(n as nat) == digits_of(rest as nat) + reversed@.reverse(),
        decreases rest,
    {
        let ghost before = reversed@;
        reversed.push((rest % 10) as u8);
        proof {
            let d = (rest % 10) as u8;
            assert(reversed@.reverse() =~= seq![d] + before.reverse());
            assert(digits_of(rest as nat) == digits_of((rest / 10) as nat).push(d));
            assert(digits_of((rest / 10) as nat).push(d) + before.reverse() =~= digits_of(
                (rest / 10) as nat,
            ) + (seq![d] + before.reverse()));
        }
        rest = rest / 10;
    }
    let ghost before = reversed@;
    reversed.push(rest as u8);
    proof {
        assert(reversed@.reverse() =~= seq![rest as u8] + before.reverse());
    }
    let mut digits: Vec<u8> = Vec::new();
    let mut i: usize = reversed.len();
    while i > 0
        invariant
            i <= reversed.len(),
            digits@ == reversed@.reverse().take(reversed.len() - i),
        decreases i,
    {
        i = i - 1;
        digits.push(reversed[i]);
        proof {
            let target = reversed@.reverse();
            assert(target.take(reversed.len() - i) =~= target.take(reversed.len() - i - 1).push(
                reversed@[i as int],
            ));
        }
    }
    proof {
        assert(reversed@.reverse().take(reversed.len() as int) == reversed@.reverse());
    }
    digits
}

} // verus!
