//! Decimal rendering of machine integers, used when field values are
//! echoed back as JSON or written into the movie container.
use vstd::prelude::*;

verus! {

/// The decimal digits of a non-negative number, most significant first.
pub open spec fn dec_repr(n: nat) -> Seq<u8>
    decreases n,
{
    if n < 10 {
        seq![(48 + n) as u8]
    } else {
        dec_repr(n / 10).push((48 + n % 10) as u8)
    }
}

/// The decimal text of a signed number: a minus sign before the digits of
/// its magnitude.
pub open spec fn dec_repr_signed(v: int) -> Seq<u8> {
    if v < 0 {
        seq![45u8] + dec_repr((-v) as nat)
    } else {
        dec_repr(v as nat)
    }
}

/// Append the decimal digits of `n`.
pub fn push_u64_dec(out: &mut Vec<u8>, n: u64)
    ensures
        final(out)@ == old(out)@ + dec_repr(n as nat),
    decreases n,
{
    if n < 10 {
        out.push(48 + (n as u8));
        proof {
            assert(final(out)@ =~= old(out)@ + dec_repr(n as nat));
        }
    } else {
        push_u64_dec(out, n / 10);
        out.push(48 + ((n % 10) as u8));
        proof {
            assert(final(out)@ =~= old(out)@ + dec_repr(n as nat));
        }
    }
}

/// Append the decimal text of `v`.
pub fn push_i64_dec(out: &mut Vec<u8>, v: i64)
    ensures
        final(out)@ == old(out)@ + dec_repr_signed(v as int),
{
    if v < 0 {
        out.push(45);
        let m: u64 = if v == i64::MIN {
            0x8000_0000_0000_0000u64
        } else {
            (-v) as u64
        };
        push_u64_dec(out, m);
        proof {
            assert(final(out)@ =~= old(out)@ + dec_repr_signed(v as int));
        }
    } else {
        push_u64_dec(out, v as u64);
    }
}

} // verus!
