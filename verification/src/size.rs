//! Human-readable sizes (`1.5 KB`), computed exactly in integers.
//!
//! The tree viewer prints `bytes as f64` divided by 1024 while it is at least
//! 1024 (up to TB), with one decimal. Dividing by 1024 is exact in binary
//! floating point, so the printed number is the rounding, half to even, of
//! `10 * float(bytes) / 1024^unit` to an integer number of tenths, where
//! `float(bytes)` is `bytes` rounded to the nearest double.

use vstd::prelude::*;
use crate::text::string_of;

verus! {

/// The distance between neighbouring doubles around `b` (1 below 2^53).
pub open spec fn f64_spacing(b: u64) -> nat {
    if b < 0x20_0000_0000_0000 {
        1
    } else if b < 0x40_0000_0000_0000 {
        2
    } else if b < 0x80_0000_0000_0000 {
        4
    } else if b < 0x100_0000_0000_0000 {
        8
    } else if b < 0x200_0000_0000_0000 {
        16
    } else if b < 0x400_0000_0000_0000 {
        32
    } else if b < 0x800_0000_0000_0000 {
        64
    } else if b < 0x1000_0000_0000_0000 {
        128
    } else if b < 0x2000_0000_0000_0000 {
        256
    } else if b < 0x4000_0000_0000_0000 {
        512
    } else if b < 0x8000_0000_0000_0000 {
        1024
    } else {
        2048
    }
}

/// `n / d` rounded to the nearest integer, ties to the even one.
pub open spec fn round_half_even_div(n: nat, d: nat) -> nat
    recommends
        d > 0,
{
    let q = n / d;
    let r = n % d;
    if 2 * r > d || (2 * r == d && q % 2 == 1) {
        q + 1
    } else {
        q
    }
}

/// `b as f64`, as an integer: the nearest multiple of the spacing, ties to even.
pub open spec fn as_f64(b: u64) -> nat {
    round_half_even_div(b as nat, f64_spacing(b)) * f64_spacing(b)
}

pub open spec fn pow1024(u: nat) -> nat
    decreases u,
{
    if u == 0 {
        1
    } else {
        1024 * pow1024((u - 1) as nat)
    }
}

/// The unit: the largest power of 1024 (at most 1024^4) not above the value.
pub open spec fn size_unit(v: nat) -> nat {
    if v >= pow1024(4) {
        4
    } else if v >= pow1024(3) {
        3
    } else if v >= pow1024(2) {
        2
    } else if v >= pow1024(1) {
        1
    } else {
        0
    }
}

/// The size in tenths of its unit, as `{:.1}` prints it.
pub open spec fn size_tenths(b: u64) -> nat {
    round_half_even_div(10 * as_f64(b), pow1024(size_unit(as_f64(b))))
}

pub open spec fn digit_char(d: nat) -> char {
    if d == 0 {
        '0'
    } else if d == 1 {
        '1'
    } else if d == 2 {
        '2'
    } else if d == 3 {
        '3'
    } else if d == 4 {
        '4'
    } else if d == 5 {
        '5'
    } else if d == 6 {
        '6'
    } else if d == 7 {
        '7'
    } else if d == 8 {
        '8'
    } else {
        '9'
    }
}

/// Decimal digits of `n`, without leading zeros.
pub open spec fn decimal(n: nat) -> Seq<char>
    decreases n,
{
    if n < 10 {
        seq![digit_char(n)]
    } else {
        decimal(n / 10) + seq![digit_char(n % 10)]
    }
}

pub open spec fn unit_name(u: nat) -> Seq<char> {
    if u == 0 {
        seq!['B']
    } else if u == 1 {
        seq!['K', 'B']
    } else if u == 2 {
        seq!['M', 'B']
    } else if u == 3 {
        seq!['G', 'B']
    } else {
        seq!['T', 'B']
    }
}

/// `format!("{:.1} {}", value, unit)`.
pub open spec fn spec_human_size(b: u64) -> Seq<char> {
    let t = size_tenths(b);
    decimal(t / 10) + seq!['.', digit_char(t % 10), ' '] + unit_name(size_unit(as_f64(b)))
}

fn digit_char_exec(d: u128) -> (c: char)
    requires
        d < 10,
    ensures
        c == digit_char(d as nat),
{
    if d == 0 {
        '0'
    } else if d == 1 {
        '1'
    } else if d == 2 {
        '2'
    } else if d == 3 {
        '3'
    } else if d == 4 {
        '4'
    } else if d == 5 {
        '5'
    } else if d == 6 {
        '6'
    } else if d == 7 {
        '7'
    } else if d == 8 {
        '8'
    } else {
        '9'
    }
}

pub fn decimal_chars(n: u128) -> (r: Vec<char>)
    ensures
        r@ == decimal(n as nat),
    decreases n,
{
    if n < 10 {
        let mut r: Vec<char> = Vec::new();
        r.push(digit_char_exec(n));
        assert(r@ =~= decimal(n as nat));
        r
    } else {
        let mut r = decimal_chars(n / 10);
        r.push(digit_char_exec(n % 10));
        assert(r@ =~= decimal(n as nat));
        r
    }
}

fn f64_spacing_exec(b: u64) -> (s: u128)
    ensures
        s == f64_spacing(b),
        1 <= s <= 2048,
        b < 0x20_0000_0000_0000 * s,
        0x20_0000_0000_0000 * s <= 0x1_0000_0000_0000_0000,
{
    if b < 0x20_0000_0000_0000 {
        1
    } else if b < 0x40_0000_0000_0000 {
        2
    } else if b < 0x80_0000_0000_0000 {
        4
    } else if b < 0x100_0000_0000_0000 {
        8
    } else if b < 0x200_0000_0000_0000 {
        16
    } else if b < 0x400_0000_0000_0000 {
        32
    } else if b < 0x800_0000_0000_0000 {
        64
    } else if b < 0x1000_0000_0000_0000 {
        128
    } else if b < 0x2000_0000_0000_0000 {
        256
    } else if b < 0x4000_0000_0000_0000 {
        512
    } else if b < 0x8000_0000_0000_0000 {
        1024
    } else {
        2048
    }
}

fn round_half_even_div_exec(n: u128, d: u128) -> (r: u128)
    requires
        0 < d <= 0x1_0000_0000_0000_0000_0000,
        n < 0x1_0000_0000_0000_0000_0000_0000,
    ensures
        r == round_half_even_div(n as nat, d as nat),
        r <= n / d + 1,
{
    let q = n / d;
    let rem = n % d;
    assert(q <= n) by (nonlinear_arith)
        requires
            d > 0,
            q == n / d,
    ;
    assert(rem < d) by (nonlinear_arith)
        requires
            d > 0,
            rem == n % d,
    ;
    if 2 * rem > d || (2 * rem == d && q % 2 == 1) {
        q + 1
    } else {
        q
    }
}

/// `bytes as f64`, exactly, as an integer.
pub fn as_f64_exec(b: u64) -> (r: u128)
    ensures
        r == as_f64(b),
        r <= 0x1_0000_0000_0000_0000,
{
    let s = f64_spacing_exec(b);
    let q = round_half_even_div_exec(b as u128, s);
    proof {
        let bb = b as int;
        let ss = s as int;
        let qq = q as int;
        assert(bb / ss < 0x20_0000_0000_0000) by (nonlinear_arith)
            requires
                ss >= 1,
                bb >= 0,
                bb < 0x20_0000_0000_0000 * ss,
        ;
        assert(qq * ss <= 0x20_0000_0000_0000 * ss) by (nonlinear_arith)
            requires
                qq <= 0x20_0000_0000_0000,
                ss >= 1,
        ;
    }
    q * s
}


proof fn lemma_pow1024_values()
    ensures
        pow1024(0) == 1,
        pow1024(1) == 0x400,
        pow1024(2) == 0x10_0000,
        pow1024(3) == 0x4000_0000,
        pow1024(4) == 0x100_0000_0000,
{
    assert(pow1024(0) == 1);
    assert(pow1024(1) == 0x400);
    assert(pow1024(2) == 0x10_0000);
    assert(pow1024(3) == 0x4000_0000);
    assert(pow1024(4) == 0x100_0000_0000);
}

/// Formats a byte count as the tree viewer shows it: the value in B, KB, MB,
/// GB or TB (the largest unit it reaches), with one decimal.
pub fn human_size(bytes: u64) -> (r: String)
    ensures
        r@ == spec_human_size(bytes),
{
    proof {
        lemma_pow1024_values();
    }
    let v = as_f64_exec(bytes);
    let (unit, div): (u128, u128) = if v >= 0x100_0000_0000 {
        (4, 0x100_0000_0000)
    } else if v >= 0x4000_0000 {
        (3, 0x4000_0000)
    } else if v >= 0x10_0000 {
        (2, 0x10_0000)
    } else if v >= 0x400 {
        (1, 0x400)
    } else {
        (0, 1)
    };
    assert(unit == size_unit(as_f64(bytes)));
    assert(div == pow1024(unit as nat));
    let t = round_half_even_div_exec(10 * v, div);
    assert(t == size_tenths(bytes));
    let mut out = decimal_chars(t / 10);
    out.push('.');
    out.push(digit_char_exec(t % 10));
    out.push(' ');
    let name: Vec<char> = if unit == 0 {
        vec!['B']
    } else if unit == 1 {
        vec!['K', 'B']
    } else if unit == 2 {
        vec!['M', 'B']
    } else if unit == 3 {
        vec!['G', 'B']
    } else {
        vec!['T', 'B']
    };
    assert(name@ =~= unit_name(unit as nat));
    let ghost before = out@;
    for k in 0..name.len()
        invariant
            out@ == before + name@.take(k as int),
    {
        out.push(name[k]);
        assert(out@ =~= before + name@.take(k + 1));
    }
    assert(name@.take(name.len() as int) =~= name@);
    assert(out@ =~= spec_human_size(bytes));
    string_of(&out)
}

} // verus!

verus! {

/// Law: below 2^53 bytes the conversion to a double is exact.
pub proof fn law_exact_below_2_pow_53(b: u64)
    requires
        b < 0x20_0000_0000_0000,
    ensures
        as_f64(b) == b,
{
    assert(f64_spacing(b) == 1);
    assert((b as nat) / 1 == b as nat && (b as nat) % 1 == 0) by (nonlinear_arith);
}

/// Law: sizes below 1024 are shown in bytes with a zero decimal.
pub proof fn law_small_sizes_in_bytes(b: u64)
    requires
        b < 1024,
    ensures
        spec_human_size(b) == decimal(b as nat) + seq!['.', '0', ' ', 'B'],
{
    law_exact_below_2_pow_53(b);
    lemma_pow1024_values();
    assert(size_unit(as_f64(b)) == 0);
    let n = 10 * (b as nat);
    assert(n / 1 == n && n % 1 == 0) by (nonlinear_arith);
    assert(size_tenths(b) == n);
    assert(n / 10 == b as nat && n % 10 == 0) by (nonlinear_arith)
        requires
            n == 10 * (b as nat),
    ;
    assert(spec_human_size(b) =~= decimal(b as nat) + seq!['.', '0', ' ', 'B']);
}

} // verus!
