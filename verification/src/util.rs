//! Small text helpers: space padding and decimal formatting of line numbers.

use vstd::prelude::*;

verus! {

/// `n` space bytes.
pub open spec fn spaces_seq(n: nat) -> Seq<u8> {
    Seq::new(n, |i: int| 32u8)
}

/// Number of decimal digits of `n` (1 for 0).
pub open spec fn n_digits(n: nat) -> nat
    decreases n,
{
    if n < 10 {
        1
    } else {
        1 + n_digits(n / 10)
    }
}

/// The decimal digit bytes of `n`, most significant first.
pub open spec fn dec_seq(n: nat) -> Seq<u8>
    decreases n,
{
    if n < 10 {
        seq![(48 + n) as u8]
    } else {
        dec_seq(n / 10).push((48 + n % 10) as u8)
    }
}

/// `n` rendered in decimal, right-aligned with spaces to `width` digits,
/// followed by one space.
pub open spec fn padded_number(n: nat, width: nat) -> Seq<u8> {
    spaces_seq((width - n_digits(n)) as nat) + dec_seq(n) + seq![32u8]
}

pub proof fn lemma_n_digits_le(n: nat)
    ensures
        n_digits(n) <= n + 1,
    decreases n,
{
    if n >= 10 {
        lemma_n_digits_le(n / 10);
    }
}

/// More digits never come from a smaller number.
pub proof fn lemma_n_digits_mono(a: nat, b: nat)
    requires
        a <= b,
    ensures
        n_digits(a) <= n_digits(b),
    decreases b,
{
    if a >= 10 {
        lemma_n_digits_mono(a / 10, b / 10);
    }
}

/// Number of decimal digits of `n`.
pub fn num_digits(n: usize) -> (r: usize)
    ensures
        r == n_digits(n as nat),
    decreases n,
{
    if n < 10 {
        1
    } else {
        let sub = num_digits(n / 10);
        proof {
            lemma_n_digits_le((n / 10) as nat);
        }
        sub + 1
    }
}

/// Appends `n` space bytes to `out`.
pub fn push_spaces(out: &mut Vec<u8>, n: usize)
    ensures
        final(out)@ == old(out)@ + spaces_seq(n as nat),
{
    let mut i: usize = 0;
    while i < n
        invariant
            i <= n,
            out@ == old(out)@ + spaces_seq(i as nat),
        decreases n - i,
    {
        out.push(32u8);
        proof {
            assert(spaces_seq((i + 1) as nat) =~= spaces_seq(i as nat).push(32u8));
        }
        i = i + 1;
    }
    proof {
        assert(out@ =~= old(out)@ + spaces_seq(n as nat));
    }
}

/// Appends the decimal digits of `n` to `out`, most significant first.
pub fn push_decimal(out: &mut Vec<u8>, n: usize)
    ensures
        final(out)@ == old(out)@ + dec_seq(n as nat),
    decreases n,
{
    if n < 10 {
        out.push(48 + n as u8);
        proof {
            assert(out@ =~= old(out)@ + dec_seq(n as nat));
        }
    } else {
        push_decimal(out, n / 10);
        out.push(48 + (n % 10) as u8);
        proof {
            assert(out@ =~= old(out)@ + dec_seq(n as nat));
        }
    }
}

} // verus!
