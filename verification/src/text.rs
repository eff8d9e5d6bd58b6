//! Textual form of numbers and addresses: decimal integers, dotted-quad
//! v4 addresses, and canonical colon-hex v6 addresses (lowercase hex,
//! no leading zeros, the leftmost longest run of two or more zero groups
//! shortened to `::`).

use crate::addr::Ip;
use vstd::prelude::*;
use vstd::string::StringExecFns;

verus! {

/// The character of one decimal or hex digit value.
pub open spec fn digit(d: int) -> Seq<char> {
    if d == 0 {
        "0"@
    } else if d == 1 {
        "1"@
    } else if d == 2 {
        "2"@
    } else if d == 3 {
        "3"@
    } else if d == 4 {
        "4"@
    } else if d == 5 {
        "5"@
    } else if d == 6 {
        "6"@
    } else if d == 7 {
        "7"@
    } else if d == 8 {
        "8"@
    } else if d == 9 {
        "9"@
    } else if d == 10 {
        "a"@
    } else if d == 11 {
        "b"@
    } else if d == 12 {
        "c"@
    } else if d == 13 {
        "d"@
    } else if d == 14 {
        "e"@
    } else {
        "f"@
    }
}

/// The decimal form of a number, most significant digit first.
pub open spec fn dec_of(n: int) -> Seq<char>
    recommends
        n >= 0,
    decreases n,
{
    if n < 10 {
        digit(n)
    } else {
        dec_of(n / 10) + digit(n % 10)
    }
}

/// The lowercase hex form of a number, without leading zeros.
pub open spec fn hex_of(n: int) -> Seq<char>
    recommends
        n >= 0,
    decreases n,
{
    if n < 16 {
        digit(n)
    } else {
        hex_of(n / 16) + digit(n % 16)
    }
}

fn digit_str(d: u64) -> (r: &'static str)
    requires
        d < 16,
    ensures
        r@ == digit(d as int),
{
    if d == 0 {
        "0"
    } else if d == 1 {
        "1"
    } else if d == 2 {
        "2"
    } else if d == 3 {
        "3"
    } else if d == 4 {
        "4"
    } else if d == 5 {
        "5"
    } else if d == 6 {
        "6"
    } else if d == 7 {
        "7"
    } else if d == 8 {
        "8"
    } else if d == 9 {
        "9"
    } else if d == 10 {
        "a"
    } else if d == 11 {
        "b"
    } else if d == 12 {
        "c"
    } else if d == 13 {
        "d"
    } else if d == 14 {
        "e"
    } else {
        "f"
    }
}

/// The decimal form of `n`.
pub fn fmt_u64(n: u64) -> (s: String)
    ensures
        s@ == dec_of(n as int),
    decreases n,
{
    if n < 10 {
        String::from_str(digit_str(n))
    } else {
        let mut s = fmt_u64(n / 10);
        s.append(digit_str(n % 10));
        s
    }
}

fn fmt_hex(n: u64) -> (s: String)
    ensures
        s@ == hex_of(n as int),
    decreases n,
{
    if n < 16 {
        String::from_str(digit_str(n))
    } else {
        let mut s = fmt_hex(n / 16);
        s.append(digit_str(n % 16));
        s
    }
}

/// The dotted-quad form of a v4 address.
pub open spec fn v4_text(a: u32) -> Seq<char> {
    dec_of((a >> 24u32) as int) + "."@ + dec_of(((a >> 16u32) & 0xFFu32) as int) + "."@ + dec_of(
        ((a >> 8u32) & 0xFFu32) as int,
    ) + "."@ + dec_of((a & 0xFFu32) as int)
}

fn fmt_v4(a: u32) -> (s: String)
    ensures
        s@ == v4_text(a),
{
    let mut s = fmt_u64((a >> 24u32) as u64);
    s.append(".");
    s.append(fmt_u64(((a >> 16u32) & 0xFFu32) as u64).as_str());
    s.append(".");
    s.append(fmt_u64(((a >> 8u32) & 0xFFu32) as u64).as_str());
    s.append(".");
    s.append(fmt_u64((a & 0xFFu32) as u64).as_str());
    s
}

/// The 16-bit group `i` (0 is the most significant) of a v6 address.
pub open spec fn group(a: u128, i: int) -> int {
    ((a >> (((7 - i) * 16) as u128)) & 0xFFFFu128) as int
}

/// How many consecutive zero groups start at position `i`.
pub open spec fn zero_run(a: u128, i: int) -> int
    decreases 8 - i,
{
    if i < 0 || i >= 8 {
        0
    } else if group(a, i) != 0 {
        0
    } else {
        1 + zero_run(a, i + 1)
    }
}

/// The leftmost longest zero run at or after position `i`, as a
/// (start, length) pair; (8, 0) when every group from `i` on is nonzero.
pub open spec fn best_zero_run(a: u128, i: int) -> (int, int)
    decreases 8 - i,
{
    if i < 0 || i >= 8 {
        (8, 0)
    } else {
        let rest = best_zero_run(a, i + 1);
        if zero_run(a, i) >= rest.1 {
            (i, zero_run(a, i))
        } else {
            rest
        }
    }
}

/// The hex groups `i..j` joined with `:`.
pub open spec fn groups_text(a: u128, i: int, j: int) -> Seq<char>
    decreases j - i,
{
    if j <= i {
        Seq::<char>::empty()
    } else if j == i + 1 {
        hex_of(group(a, i))
    } else {
        groups_text(a, i, j - 1) + ":"@ + hex_of(group(a, j - 1))
    }
}

/// The canonical colon-hex form of a v6 address.
pub open spec fn v6_text(a: u128) -> Seq<char> {
    let best = best_zero_run(a, 0);
    if best.1 < 2 {
        groups_text(a, 0, 8)
    } else if best.1 == 8 {
        "::"@
    } else {
        groups_text(a, 0, best.0) + "::"@ + groups_text(a, best.0 + best.1, 8)
    }
}

fn group_at(a: u128, i: usize) -> (g: u64)
    requires
        i < 8,
    ensures
        g as int == group(a, i as int),
        g <= 0xFFFF,
{
    let sh: u128 = ((7 - i) * 16) as u128;
    proof {
        assert((a >> sh) & 0xFFFFu128 <= 0xFFFF) by (bit_vector);
    }
    ((a >> sh) & 0xFFFFu128) as u64
}

fn zero_run_at(a: u128, i: usize) -> (l: usize)
    requires
        i <= 8,
    ensures
        l as int == zero_run(a, i as int),
        l <= 8 - i,
    decreases 8 - i,
{
    if i >= 8 {
        0
    } else if group_at(a, i) != 0 {
        0
    } else {
        1 + zero_run_at(a, i + 1)
    }
}

fn best_zero_run_at(a: u128, i: usize) -> (r: (usize, usize))
    requires
        i <= 8,
    ensures
        (r.0 as int, r.1 as int) == best_zero_run(a, i as int),
        r.0 <= 8,
        r.0 + r.1 <= 8,
    decreases 8 - i,
{
    if i >= 8 {
        (8, 0)
    } else {
        let rest = best_zero_run_at(a, i + 1);
        let run = zero_run_at(a, i);
        if run >= rest.1 {
            (i, run)
        } else {
            rest
        }
    }
}

fn fmt_groups(a: u128, i: usize, j: usize) -> (s: String)
    requires
        i <= j <= 8,
    ensures
        s@ == groups_text(a, i as int, j as int),
{
    let mut s = String::new();
    let mut k: usize = i;
    while k < j
        invariant
            i <= k <= j <= 8,
            s@ == groups_text(a, i as int, k as int),
        decreases j - k,
    {
        if k > i {
            s.append(":");
        }
        s.append(fmt_hex(group_at(a, k)).as_str());
        k = k + 1;
    }
    s
}

fn fmt_v6(a: u128) -> (s: String)
    ensures
        s@ == v6_text(a),
{
    let best = best_zero_run_at(a, 0);
    if best.1 < 2 {
        fmt_groups(a, 0, 8)
    } else if best.1 == 8 {
        String::from_str("::")
    } else {
        let mut s = fmt_groups(a, 0, best.0);
        s.append("::");
        s.append(fmt_groups(a, best.0 + best.1, 8).as_str());
        s
    }
}

/// The textual form of an address, appropriate to its family.
pub open spec fn ip_text(x: Ip) -> Seq<char> {
    match x {
        Ip::V4(a) => v4_text(a),
        Ip::V6(a) => v6_text(a),
    }
}

/// Render an address in the textual form of its family.
pub fn fmt_ip(x: &Ip) -> (s: String)
    ensures
        s@ == ip_text(*x),
{
    match x {
        Ip::V4(a) => fmt_v4(*a),
        Ip::V6(a) => fmt_v6(*a),
    }
}

} // verus!
