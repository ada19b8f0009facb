use vstd::prelude::*;

use crate::naming::{append_decimal, decimal, digit_char};

verus! {

/// One kibibyte.
pub const KB: u64 = 1024;

/// One mebibyte.
pub const MB: u64 = 1048576;

/// One gibibyte.
pub const GB: u64 = 1073741824;

/// `num / den` rounded to the nearest integer, ties to the even neighbour.
pub open spec fn round_half_even(num: nat, den: nat) -> nat
    recommends
        den > 0,
{
    let q = num / den;
    let r = num % den;
    if 2 * r > den || (2 * r == den && q % 2 == 1) {
        q + 1
    } else {
        q
    }
}

/// `bytes / unit` written with exactly two decimals.
pub open spec fn two_decimals(bytes: nat, unit: nat) -> Seq<char> {
    let h = round_half_even(bytes * 100, unit);
    decimal(h / 100) + seq!['.', digit_char((h % 100) / 10), digit_char(h % 10)]
}

/// The human-readable text of a byte count: the largest binary unit that is
/// at most the count, with two decimals, or the plain count below one KB.
pub open spec fn size_text(bytes: nat) -> Seq<char> {
    if bytes >= GB {
        two_decimals(bytes, GB as nat) + seq![' ', 'G', 'B']
    } else if bytes >= MB {
        two_decimals(bytes, MB as nat) + seq![' ', 'M', 'B']
    } else if bytes >= KB {
        two_decimals(bytes, KB as nat) + seq![' ', 'K', 'B']
    } else {
        decimal(bytes) + seq![' ', 'B']
    }
}

fn append_two_decimals(s: &mut String, bytes: u64, unit: u64)
    requires
        unit >= KB,
    ensures
        final(s)@ == old(s)@ + two_decimals(bytes as nat, unit as nat),
{
    let num: u128 = bytes as u128 * 100;
    let q: u128 = num / unit as u128;
    let r: u128 = num % unit as u128;
    let h: u128 = if 2 * r > unit as u128 || (2 * r == unit as u128 && q % 2 == 1) {
        q + 1
    } else {
        q
    };
    assert(h / 100 <= u64::MAX) by (nonlinear_arith)
        requires
            h <= q + 1,
            q == num / (unit as u128),
            unit >= 1024,
            num == bytes * 100,
            bytes <= u64::MAX,
    {
        assert(q <= num / 1024) by {
            vstd::arithmetic::div_mod::lemma_div_is_ordered_by_denominator(num as int, 1024, unit as int);
        }
    }
    append_decimal(s, (h / 100) as u64);
    proof {
        reveal_strlit(".");
    }
    s.append(".");
    let tens: u64 = ((h % 100) / 10) as u64;
    let ones: u64 = (h % 10) as u64;
    append_decimal(s, tens);
    append_decimal(s, ones);
    assert(final(s)@ =~= old(s)@ + two_decimals(bytes as nat, unit as nat));
}

/// Formats a byte count for people: `"512 B"`, `"1.50 KB"`, `"25.00 MB"`,
/// `"2.00 GB"`. The two decimals are rounded exactly from the byte count.
pub fn format_size(bytes: u64) -> (r: String)
    ensures
        r@ == size_text(bytes as nat),
{
    let mut s = String::new();
    proof {
        reveal_strlit(" GB");
        reveal_strlit(" MB");
        reveal_strlit(" KB");
        reveal_strlit(" B");
    }
    if bytes >= GB {
        append_two_decimals(&mut s, bytes, GB);
        s.append(" GB");
    } else if bytes >= MB {
        append_two_decimals(&mut s, bytes, MB);
        s.append(" MB");
    } else if bytes >= KB {
        append_two_decimals(&mut s, bytes, KB);
        s.append(" KB");
    } else {
        append_decimal(&mut s, bytes);
        s.append(" B");
    }
    assert(s@ =~= size_text(bytes as nat));
    s
}

} // verus!
