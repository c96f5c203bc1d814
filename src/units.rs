//! Human-readable data sizes.

use vstd::prelude::*;
use vstd::string::StringExecFns;

use crate::step::{digit, digits, push_digits};

verus! {

/// `n / d` rounded to the nearest integer, ties to the even neighbour.
pub open spec fn round_half_even(n: nat, d: nat) -> nat
    recommends
        d > 0,
{
    let q = n / d;
    let r = n % d;
    if 2 * r > d || (2 * r == d && q % 2 == 1) {
        q + 1
    } else {
        q
    }
}

/// A count of hundredths written with two decimal places.
pub open spec fn two_places(h: nat) -> Seq<char> {
    digits(h / 100) + seq!['.', digit(((h / 10) % 10) as int), digit((h % 10) as int)]
}

/// Human-readable size: whole bytes below a KiB, otherwise the largest unit up to TB with two
/// decimal places.
pub open spec fn size_text(size: nat) -> Seq<char> {
    if size < 0x400 {
        digits(size) + " B"@
    } else if size < 0x10_0000 {
        two_places(round_half_even(size * 100, 0x400)) + " KB"@
    } else if size < 0x4000_0000 {
        two_places(round_half_even(size * 100, 0x10_0000)) + " MB"@
    } else if size < 0x100_0000_0000 {
        two_places(round_half_even(size * 100, 0x4000_0000)) + " GB"@
    } else {
        two_places(round_half_even(size * 100, 0x100_0000_0000)) + " TB"@
    }
}

fn push_two_places(out: &mut String, size: u64, unit: u64)
    requires
        unit >= 0x400,
    ensures
        final(out)@ == old(out)@ + two_places(round_half_even((size * 100) as nat, unit as nat)),
{
    let n: u128 = size as u128 * 100;
    let d: u128 = unit as u128;
    let q: u128 = n / d;
    let r: u128 = n % d;
    let h: u128 = if 2 * r > d || (2 * r == d && q % 2 == 1) { q + 1 } else { q };
    assert(q <= n) by (nonlinear_arith)
        requires
            q == n / d,
            d >= 1,
    ;
    assert(h / 100 <= size as int) by (nonlinear_arith)
        requires
            h <= n + 1,
            n == size * 100,
    ;
    push_digits(out, (h / 100) as u64);
    let tenths = ((h / 10) % 10) as u64;
    let last = (h % 10) as u64;
    proof {
        reveal_strlit(".");
    }
    out.append(".");
    out.append(crate::step::digit_text(tenths));
    out.append(crate::step::digit_text(last));
}

/// Human-readable size, as used in progress messages.
pub fn data_size(size: usize) -> (r: String)
    ensures
        r@ == size_text(size as nat),
{
    let s = size as u64;
    let mut out = String::from_str("");
    proof {
        reveal_strlit("");
        reveal_strlit(" B");
        reveal_strlit(" KB");
        reveal_strlit(" MB");
        reveal_strlit(" GB");
        reveal_strlit(" TB");
    }
    if s < 0x400 {
        push_digits(&mut out, s);
        out.append(" B");
    } else if s < 0x10_0000 {
        push_two_places(&mut out, s, 0x400);
        out.append(" KB");
    } else if s < 0x4000_0000 {
        push_two_places(&mut out, s, 0x10_0000);
        out.append(" MB");
    } else if s < 0x100_0000_0000 {
        push_two_places(&mut out, s, 0x4000_0000);
        out.append(" GB");
    } else {
        push_two_places(&mut out, s, 0x100_0000_0000);
        out.append(" TB");
    }
    out
}

} // verus!
