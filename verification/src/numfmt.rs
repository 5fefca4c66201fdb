//! Decimal formatting of integers and of micro-unit measurements.
//!
//! A decoded measurement is held as a signed count of micro-units
//! (the raw sample times its channel scale); it is rendered as a
//! decimal number with exactly six fractional digits, which is the
//! value times `1e-6`.

use vstd::prelude::*;

verus! {

/// The decimal digits of `n`, most significant first, as ASCII bytes.
pub open spec fn spec_digits(n: nat) -> Seq<u8>
    decreases n,
{
    if n < 10 {
        seq![(48 + n) as u8]
    } else {
        spec_digits((n / 10) as nat) + seq![(48 + n % 10) as u8]
    }
}

/// Ten to the `k`.
pub open spec fn pow10(k: nat) -> nat
    decreases k,
{
    if k == 0 {
        1
    } else {
        10 * pow10((k - 1) as nat)
    }
}

pub proof fn lemma_pow10_pos(k: nat)
    ensures
        pow10(k) >= 1,
    decreases k,
{
    if k > 0 {
        lemma_pow10_pos((k - 1) as nat);
    }
}

/// A number in `[10^(k-1), 10^k)` has exactly `k` decimal digits.
pub proof fn lemma_digits_len(n: nat, k: nat)
    requires
        k >= 1,
        pow10((k - 1) as nat) <= n,
        n < pow10(k),
    ensures
        spec_digits(n).len() == k,
    decreases k,
{
    if k == 1 {
        assert(pow10(1) == 10 * pow10(0));
    } else {
        lemma_pow10_pos((k - 2) as nat);
        assert(pow10((k - 1) as nat) == 10 * pow10((k - 2) as nat));
        assert(pow10(k) == 10 * pow10((k - 1) as nat));
        assert(n / 10 >= pow10((k - 2) as nat)) by (nonlinear_arith)
            requires
                n >= 10 * pow10((k - 2) as nat),
        ;
        assert(n / 10 < pow10((k - 1) as nat)) by (nonlinear_arith)
            requires
                n < 10 * pow10((k - 1) as nat),
        ;
        lemma_digits_len((n / 10) as nat, (k - 1) as nat);
        assert(spec_digits(n) == spec_digits((n / 10) as nat) + seq![(48 + n % 10) as u8]);
    }
}

/// The six-digit zero-padded fractional part of `f` micro-units.
pub open spec fn spec_frac6(f: nat) -> Seq<u8>
    recommends
        f < 1000000,
{
    spec_digits((f + 1000000) as nat).subrange(1, 7)
}

/// The decimal rendering of `m` micro-units: an optional sign, the
/// integer part, a dot, and six fractional digits.
pub open spec fn spec_micro(m: int) -> Seq<u8> {
    let a = (if m < 0 {
        -m
    } else {
        m
    }) as nat;
    let sign: Seq<u8> = if m < 0 {
        seq![45u8]
    } else {
        seq![]
    };
    sign + spec_digits((a / 1000000) as nat) + seq![46u8] + spec_frac6((a % 1000000) as nat)
}

/// Appends the decimal digits of `n` to `out`.
pub fn push_digits(n: u64, out: &mut Vec<u8>)
    ensures
        final(out)@ == old(out)@ + spec_digits(n as nat),
    decreases n,
{
    if n >= 10 {
        push_digits(n / 10, out);
        let d: u8 = (n % 10) as u8;
        out.push(48 + d);
        assert(out@ =~= old(out)@ + spec_digits(n as nat));
    } else {
        let d: u8 = n as u8;
        out.push(48 + d);
        assert(out@ =~= old(out)@ + spec_digits(n as nat));
    }
}

/// Appends the digits of `x + pad` with the leading digit dropped:
/// with `pad` a power of ten above `x`, that is `x` zero-padded to
/// the width of `pad`'s trailing zeros.
pub fn push_padded(x: u64, pad: u64, out: &mut Vec<u8>)
    requires
        x < pad,
        pad <= 0x8000_0000_0000_0000,
    ensures
        final(out)@ == old(out)@ + spec_digits((x + pad) as nat).subrange(
            1,
            spec_digits((x + pad) as nat).len() as int,
        ),
{
    let mut digits: Vec<u8> = Vec::new();
    push_digits(x + pad, &mut digits);
    let mut i: usize = 1;
    while i < digits.len()
        invariant
            1 <= i <= digits@.len(),
            digits@ == spec_digits((x + pad) as nat),
            out@ == old(out)@ + digits@.subrange(1, i as int),
        decreases digits@.len() - i,
    {
        let b = digits[i];
        out.push(b);
        proof {
            assert(digits@.subrange(1, i + 1) =~= digits@.subrange(1, i as int) + seq![
                digits@[i as int],
            ]);
            assert(out@ =~= old(out)@ + digits@.subrange(1, i + 1));
        }
        i = i + 1;
    }
    proof {
        lemma_pow10_pos(0);
        assert(digits@.len() >= 1);
        assert(out@ =~= old(out)@ + digits@.subrange(1, digits@.len() as int));
    }
}

pub proof fn lemma_pow10_vals()
    ensures
        pow10(2) == 100,
        pow10(3) == 1000,
        pow10(4) == 10000,
        pow10(5) == 100000,
        pow10(6) == 1000000,
        pow10(7) == 10000000,
{
    assert(pow10(0) == 1);
    assert(pow10(1) == 10);
    assert(pow10(2) == 100);
    assert(pow10(3) == 1000);
    assert(pow10(4) == 10000);
    assert(pow10(5) == 100000);
    assert(pow10(6) == 1000000);
    assert(pow10(7) == 10000000);
}

/// Appends exactly six digits, the zero-padded rendering of `f < 1000000`.
fn push_frac6(f: u64, out: &mut Vec<u8>)
    requires
        f < 1000000,
    ensures
        final(out)@ == old(out)@ + spec_frac6(f as nat),
{
    proof {
        lemma_pow10_vals();
        lemma_digits_len((f + 1000000) as nat, 7);
    }
    push_padded(f, 1000000, out);
    assert(out@ =~= old(out)@ + spec_frac6(f as nat));
}

/// Appends the decimal rendering of `m` micro-units to `out`.
pub fn push_micro(m: i64, out: &mut Vec<u8>)
    requires
        -0x4000_0000_0000 <= m <= 0x4000_0000_0000,
    ensures
        final(out)@ == old(out)@ + spec_micro(m as int),
{
    let a: u64 = if m < 0 {
        out.push(45);
        (-m) as u64
    } else {
        m as u64
    };
    push_digits(a / 1000000, out);
    out.push(46);
    push_frac6(a % 1000000, out);
    assert(out@ =~= old(out)@ + spec_micro(m as int));
}

} // verus!
