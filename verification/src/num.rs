//! Decimal digit printing for the fixed-point values the protocol carries.
//!
//! Values are held as integers scaled by `SCALE`, so four fractional digits
//! survive the trip through the tokenizer and back out of the serializer.

use vstd::prelude::*;

verus! {

/// Fixed-point scale: one unit of a word value is `1 / SCALE`.
pub const SCALE: i64 = 10000;

/// Number of fractional digits that `SCALE` preserves.
pub const FRAC_DIGITS: u32 = 4;

/// Decimal digit bytes of `n`, most significant first (`"0"` for zero).
pub open spec fn spec_digits(n: nat) -> Seq<u8>
    decreases n,
{
    if n < 10 {
        seq![(0x30 + n) as u8]
    } else {
        spec_digits(n / 10).push((0x30 + n % 10) as u8)
    }
}

/// `10 ^ k`.
pub open spec fn pow10(k: nat) -> nat
    decreases k,
{
    if k == 0 {
        1
    } else {
        10 * pow10((k - 1) as nat)
    }
}

/// The four fractional digit bytes of `f`, which must lie below `SCALE`.
pub open spec fn spec_frac4(f: nat) -> Seq<u8> {
    seq![
        (0x30 + f / 1000 % 10) as u8,
        (0x30 + f / 100 % 10) as u8,
        (0x30 + f / 10 % 10) as u8,
        (0x30 + f % 10) as u8,
    ]
}

/// `s` with every trailing `'0'` byte removed.
pub open spec fn trim_zeros(s: Seq<u8>) -> Seq<u8>
    decreases s.len(),
{
    if s.len() > 0 && s.last() == 0x30u8 {
        trim_zeros(s.drop_last())
    } else {
        s
    }
}

/// Fractional digit bytes of `f` as they are serialized: four digits with
/// the trailing zeros dropped (empty for `f == 0`).
pub open spec fn spec_frac_digits(f: nat) -> Seq<u8> {
    trim_zeros(spec_frac4(f))
}

/// The handful of `pow10` values the tokenizer works with.
pub proof fn lemma_pow10_small()
    ensures
        pow10(0) == 1,
        pow10(1) == 10,
        pow10(2) == 100,
        pow10(3) == 1000,
        pow10(4) == 10000,
{
    assert(pow10(0) == 1);
    assert(pow10(1) == 10 * pow10(0));
    assert(pow10(2) == 10 * pow10(1));
    assert(pow10(3) == 10 * pow10(2));
    assert(pow10(4) == 10 * pow10(3));
}

/// Powers of ten are positive.
pub proof fn lemma_pow10_pos(k: nat)
    ensures
        pow10(k) >= 1,
    decreases k,
{
    if k > 0 {
        lemma_pow10_pos((k - 1) as nat);
    }
}

/// `pow10` turns addition into multiplication.
pub proof fn lemma_pow10_adds(a: nat, b: nat)
    ensures
        pow10(a + b) == pow10(a) * pow10(b),
    decreases a,
{
    if a == 0 {
        assert(pow10(a) == 1);
        assert(a + b == b);
        assert(pow10(a + b) == 1 * pow10(b)) by (nonlinear_arith)
            requires
                pow10(a + b) == pow10(b),
        ;
    } else {
        lemma_pow10_adds((a - 1) as nat, b);
        let x = pow10((a - 1) as nat);
        let y = pow10(b);
        assert(pow10(a + b) == 10 * pow10((a - 1 + b) as nat));
        assert(pow10(a) == 10 * x);
        assert(pow10((a - 1 + b) as nat) == x * y);
        assert(pow10(a + b) == pow10(a) * pow10(b)) by (nonlinear_arith)
            requires
                pow10(a + b) == 10 * (x * y),
                pow10(a) == 10 * x,
                pow10(b) == y,
        ;
    }
}

/// Appends the decimal digits of `n` to `out`, most significant first.
pub fn push_dec_u64(out: &mut Vec<u8>, n: u64)
    ensures
        final(out)@ == old(out)@ + spec_digits(n as nat),
    decreases n,
{
    if n >= 10 {
        push_dec_u64(out, n / 10);
    }
    out.push(0x30 + (n % 10) as u8);
}

/// Appends the serialized fractional digits of `f` (`f < SCALE`) to `out`.
pub fn push_frac(out: &mut Vec<u8>, f: u64)
    requires
        f < 10000,
    ensures
        final(out)@ == old(out)@ + spec_frac_digits(f as nat),
{
    let d: [u8; 4] = [
        0x30 + (f / 1000 % 10) as u8,
        0x30 + (f / 100 % 10) as u8,
        0x30 + (f / 10 % 10) as u8,
        0x30 + (f % 10) as u8,
    ];
    let ghost full = spec_frac4(f as nat);
    proof {
        assert(full == d@);
        assert(full.take(4) == full);
    }
    let mut keep: usize = 4;
    while keep > 0 && d[keep - 1] == 0x30
        invariant
            keep <= 4,
            full == d@,
            trim_zeros(full.take(keep as int)) == trim_zeros(full),
        decreases keep,
    {
        proof {
            assert(full.take(keep as int).drop_last() == full.take(keep as int - 1));
        }
        keep = keep - 1;
    }
    let mut i: usize = 0;
    proof {
        assert(trim_zeros(full.take(keep as int)) == full.take(keep as int));
    }
    while i < keep
        invariant
            i <= keep,
            keep <= 4,
            full == d@,
            out@ == old(out)@ + full.take(i as int),
        decreases keep - i,
    {
        out.push(d[i]);
        i = i + 1;
    }
    proof {
        assert(trim_zeros(full.take(keep as int)) == trim_zeros(full));
        assert(out@ == old(out)@ + spec_frac_digits(f as nat));
    }
}

} // verus!
