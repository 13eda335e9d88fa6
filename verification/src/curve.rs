//! The gamma curve builder: turns a negotiated ramp size, an 8-bit RGB
//! triple and a brightness fraction per ramp index into the 16-bit ramp
//! table that the compositor consumes.
//!
//! A fraction is carried as 16-bit fixed point with denominator 65535,
//! so the value 65535 stands for 1 and 0 for 0. The table holds the
//! three channel segments contiguously: red, then green, then blue.
use vstd::prelude::*;
use vstd::arithmetic::div_mod::{
    lemma_div_is_ordered, lemma_div_multiples_vanish_fancy, lemma_div_pos_is_pos,
};

verus! {

/// Expand an 8-bit channel value to the 16-bit range by byte
/// duplication: both bytes of the result hold the 8-bit value, so 0xFF
/// expands to 0xFFFF exactly. Numerically this is multiplication by 257.
pub open spec fn expand8(v: u8) -> u16 {
    (v * 257) as u16
}

/// One ramp entry: the channel's 16-bit value scaled by the fraction
/// `q / 65535`, rounded to the nearest integer (half away from zero).
pub open spec fn scaled(v16: int, q: int) -> int {
    (2 * v16 * q + 65535) / 131070
}

/// The brightness fraction of ramp index `i` for the identity (gamma 1)
/// curve over a ramp of `n` entries: `i / (n - 1)`, rounded to the
/// nearest 16-bit fixed-point step.
pub open spec fn linear_fraction(i: int, n: int) -> int {
    (131070 * i + (n - 1)) / (2 * (n - 1))
}

proof fn lemma_scaled_bounds(v16: int, q: int)
    requires
        0 <= v16 <= 65535,
        0 <= q <= 65535,
    ensures
        0 <= scaled(v16, q) <= v16,
        q == 0 ==> scaled(v16, q) == 0,
        q == 65535 ==> scaled(v16, q) == v16,
{
    assert(2 * v16 * q + 65535 >= 0) by (nonlinear_arith)
        requires
            0 <= v16 && 0 <= q,
    ;
    lemma_div_pos_is_pos(2 * v16 * q + 65535, 131070);
    assert(2 * v16 * q + 65535 <= 131070 * v16 + 65535) by (nonlinear_arith)
        requires
            0 <= v16 && 0 <= q <= 65535,
    ;
    lemma_div_is_ordered(2 * v16 * q + 65535, 131070 * v16 + 65535, 131070);
    lemma_div_multiples_vanish_fancy(v16, 65535, 131070);
    assert((131070 * v16 + 65535) / 131070 == v16);
    if q == 0 {
        assert(2 * v16 * 0 + 65535 == 65535) by (nonlinear_arith);
        assert(scaled(v16, 0) == 65535int / 131070);
    }
    if q == 65535 {
        assert(2 * v16 * 65535 + 65535 == 131070 * v16 + 65535) by (nonlinear_arith);
    }
}

proof fn lemma_scaled_monotone(v16: int, q1: int, q2: int)
    requires
        0 <= v16,
        0 <= q1 <= q2,
    ensures
        scaled(v16, q1) <= scaled(v16, q2),
{
    assert(2 * v16 * q1 <= 2 * v16 * q2) by (nonlinear_arith)
        requires
            0 <= v16 && 0 <= q1 <= q2,
    ;
    lemma_div_is_ordered(2 * v16 * q1 + 65535, 2 * v16 * q2 + 65535, 131070);
}

/// Exec counterpart of `expand8`, written in the duplication form.
pub fn expand_channel(v: u8) -> (r: u16)
    ensures
        r == expand8(v),
{
    let r: u16 = (v as u16) | ((v as u16) << 8);
    proof {
        assert(r == (v * 257) as u16) by (bit_vector)
            requires
                r == (v as u16) | ((v as u16) << 8),
        ;
    }
    r
}

/// Exec counterpart of `scaled` for in-range arguments.
fn scale(v16: u16, q: u16) -> (r: u16)
    ensures
        r == scaled(v16 as int, q as int),
{
    proof {
        lemma_scaled_bounds(v16 as int, q as int);
    }
    ((2 * (v16 as u64) * (q as u64) + 65535) / 131070) as u16
}

pub proof fn lemma_linear_fraction_bounds(i: int, n: int)
    requires
        n >= 2,
        0 <= i <= n - 1,
    ensures
        0 <= linear_fraction(i, n) <= 65535,
        i == 0 ==> linear_fraction(i, n) == 0,
        i == n - 1 ==> linear_fraction(i, n) == 65535,
{
    let d = 2 * (n - 1);
    assert(131070 * i >= 0) by (nonlinear_arith)
        requires
            i >= 0,
    ;
    lemma_div_pos_is_pos(131070 * i + (n - 1), d);
    assert(131070 * i + (n - 1) <= d * 65535 + (n - 1)) by (nonlinear_arith)
        requires
            0 <= i <= n - 1 && d == 2 * (n - 1),
    ;
    lemma_div_is_ordered(131070 * i + (n - 1), d * 65535 + (n - 1), d);
    lemma_div_multiples_vanish_fancy(65535, n - 1, d);
    if i == 0 {
        assert(131070 * 0 + (n - 1) == n - 1) by (nonlinear_arith);
        lemma_div_multiples_vanish_fancy(0, n - 1, d);
        assert(d * 0 + (n - 1) == n - 1) by (nonlinear_arith);
    }
    if i == n - 1 {
        assert(131070 * (n - 1) + (n - 1) == d * 65535 + (n - 1)) by (nonlinear_arith)
            requires
                d == 2 * (n - 1),
        ;
    }
}

pub proof fn lemma_linear_fraction_monotone(i: int, j: int, n: int)
    requires
        n >= 2,
        0 <= i <= j,
    ensures
        linear_fraction(i, n) <= linear_fraction(j, n),
{
    assert(131070 * i <= 131070 * j) by (nonlinear_arith)
        requires
            i <= j,
    ;
    lemma_div_is_ordered(131070 * i + (n - 1), 131070 * j + (n - 1), 2 * (n - 1));
}

/// The identity-curve fraction table: entry `i` is `i / (n - 1)` in
/// 16-bit fixed point. This is the fraction table of gamma exponent 1.
pub open spec fn linear_fractions_spec(n: int) -> Seq<u16> {
    Seq::new(n as nat, |i: int| linear_fraction(i, n) as u16)
}

/// Build the identity-curve fraction table for a ramp of `ramp_size`
/// entries.
pub fn linear_fractions(ramp_size: u32) -> (r: Vec<u16>)
    requires
        ramp_size >= 2,
    ensures
        r@ == linear_fractions_spec(ramp_size as int),
{
    let n = ramp_size as u64;
    let d: u64 = 2 * (n - 1);
    let mut r: Vec<u16> = Vec::new();
    let mut i: u64 = 0;
    while i < n
        invariant
            2 <= n <= u32::MAX,
            d == 2 * (n - 1),
            0 <= i <= n,
            r@.len() == i,
            forall|k: int| 0 <= k < i ==> r@[k] == linear_fraction(k, n as int) as u16,
        decreases n - i,
    {
        proof {
            lemma_linear_fraction_bounds(i as int, n as int);
        }
        let q: u64 = (131070 * i + (n - 1)) / d;
        r.push(q as u16);
        i = i + 1;
    }
    proof {
        assert(r@ =~= linear_fractions_spec(ramp_size as int));
    }
    r
}

/// One entry of the ramp table: 8-bit channel value `v8`, expanded to
/// 16 bits, scaled by the fraction `q / 65535`.
pub open spec fn ramp_entry(v8: u8, q: u16) -> u16 {
    scaled(expand8(v8) as int, q as int) as u16
}

/// The whole ramp table for one output: three segments of `fracs.len()`
/// entries each, red then green then blue, each segment the channel's
/// expanded value scaled by the per-index fraction.
pub open spec fn ramp_table_spec(rgb: (u8, u8, u8), fracs: Seq<u16>) -> Seq<u16> {
    let n = fracs.len() as int;
    Seq::new((3 * n) as nat, |i: int|
        if i < n {
            ramp_entry(rgb.0, fracs[i])
        } else if i < 2 * n {
            ramp_entry(rgb.1, fracs[i - n])
        } else {
            ramp_entry(rgb.2, fracs[i - 2 * n])
        }
    )
}

/// Fill one channel segment: append `scale(v16, q)` for each fraction.
fn push_segment(table: &mut Vec<u16>, v8: u8, fracs: &Vec<u16>)
    ensures
        final(table)@.len() == old(table)@.len() + fracs@.len(),
        forall|k: int| 0 <= k < old(table)@.len() ==> final(table)@[k] == old(table)@[k],
        forall|k: int|
            0 <= k < fracs@.len() ==> final(table)@[old(table)@.len() + k] == ramp_entry(
                v8,
                fracs@[k],
            ),
{
    let v16 = expand_channel(v8);
    let mut i: usize = 0;
    while i < fracs.len()
        invariant
            0 <= i <= fracs@.len(),
            v16 == expand8(v8),
            table@.len() == old(table)@.len() + i,
            forall|k: int| 0 <= k < old(table)@.len() ==> table@[k] == old(table)@[k],
            forall|k: int|
                0 <= k < i ==> table@[old(table)@.len() + k] == ramp_entry(v8, fracs@[k]),
        decreases fracs@.len() - i,
    {
        let e = scale(v16, fracs[i]);
        table.push(e);
        i = i + 1;
    }
}

/// Build the ramp table for one output from its 8-bit RGB triple and a
/// fraction table with one entry per ramp index.
pub fn build_ramp_table(rgb: (u8, u8, u8), fracs: &Vec<u16>) -> (r: Vec<u16>)
    ensures
        r@ == ramp_table_spec(rgb, fracs@),
{
    let mut table: Vec<u16> = Vec::new();
    push_segment(&mut table, rgb.0, fracs);
    push_segment(&mut table, rgb.1, fracs);
    push_segment(&mut table, rgb.2, fracs);
    proof {
        assert(table@ =~= ramp_table_spec(rgb, fracs@));
    }
    table
}

/// The 8-bit RGB triple that the color-temperature conversion assigns
/// to a temperature in Kelvin; a function of the temperature alone.
pub uninterp spec fn rgb_of_temperature(kelvin: u32) -> (u8, u8, u8);

/// Relies on tempergb::rgb_from_temperature: a pure conversion from a
/// temperature in Kelvin to an 8-bit RGB triple (inputs outside
/// [1000, 40000] are clamped by the crate itself).
#[verifier::external_body]
fn temperature_rgb(kelvin: u32) -> (r: (u8, u8, u8))
    ensures
        r == rgb_of_temperature(kelvin),
{
    let color = tempergb::rgb_from_temperature(kelvin);
    (color.r(), color.g(), color.b())
}

/// Build the ramp table for one output straight from a temperature in
/// Kelvin and a fraction table.
pub fn ramp_table_for(kelvin: u32, fracs: &Vec<u16>) -> (r: Vec<u16>)
    ensures
        r@ == ramp_table_spec(rgb_of_temperature(kelvin), fracs@),
{
    let rgb = temperature_rgb(kelvin);
    build_ramp_table(rgb, fracs)
}

/// The raw bytes of a ramp table: each 16-bit entry in little-endian
/// order, low byte first.
pub open spec fn table_bytes_spec(t: Seq<u16>) -> Seq<u8> {
    Seq::new(2 * t.len(), |i: int|
        if i % 2 == 0 {
            (t[i / 2] as int % 256) as u8
        } else {
            (t[i / 2] as int / 256) as u8
        }
    )
}

/// Serialize a ramp table to the byte region handed to the compositor:
/// each entry as two bytes, low byte first.
pub fn ramp_bytes(table: &Vec<u16>) -> (r: Vec<u8>)
    ensures
        r@ == table_bytes_spec(table@),
{
    let mut r: Vec<u8> = Vec::new();
    let mut i: usize = 0;
    while i < table.len()
        invariant
            0 <= i <= table@.len(),
            r@.len() == 2 * i,
            forall|k: int|
                0 <= k < 2 * i ==> r@[k] == #[trigger] table_bytes_spec(table@)[k],
        decreases table@.len() - i,
    {
        let x = table[i];
        r.push((x % 256) as u8);
        r.push((x / 256) as u8);
        proof {
            assert(forall|k: int|
                0 <= k < 2 * (i + 1) ==> r@[k] == #[trigger] table_bytes_spec(table@)[k]);
        }
        i = i + 1;
    }
    proof {
        assert(r@ =~= table_bytes_spec(table@));
    }
    r
}

/// The curve builder's endpoints for the identity (gamma 1) curve: the
/// table has exactly three times the ramp size in entries; each channel
/// segment starts at 0 and ends at the channel's full 16-bit-expanded
/// value.
pub proof fn lemma_curve_endpoints(rgb: (u8, u8, u8), n: int)
    requires
        n >= 2,
    ensures
        ({
            let t = ramp_table_spec(rgb, linear_fractions_spec(n));
            &&& t.len() == 3 * n
            &&& t[0] == 0
            &&& t[n] == 0
            &&& t[2 * n] == 0
            &&& t[n - 1] == expand8(rgb.0)
            &&& t[2 * n - 1] == expand8(rgb.1)
            &&& t[3 * n - 1] == expand8(rgb.2)
        }),
{
    let fracs = linear_fractions_spec(n);
    lemma_linear_fraction_bounds(0, n);
    lemma_linear_fraction_bounds(n - 1, n);
    lemma_scaled_bounds(expand8(rgb.0) as int, 0);
    lemma_scaled_bounds(expand8(rgb.1) as int, 0);
    lemma_scaled_bounds(expand8(rgb.2) as int, 0);
    lemma_scaled_bounds(expand8(rgb.0) as int, 65535);
    lemma_scaled_bounds(expand8(rgb.1) as int, 65535);
    lemma_scaled_bounds(expand8(rgb.2) as int, 65535);
}

/// Monotonicity of the curve for the identity (gamma 1) curve: within
/// each channel segment, the ramp is non-decreasing in the index.
pub proof fn lemma_curve_monotone(rgb: (u8, u8, u8), n: int, i: int, j: int)
    requires
        n >= 2,
        0 <= i <= j < n,
    ensures
        ({
            let t = ramp_table_spec(rgb, linear_fractions_spec(n));
            &&& t[i] <= t[j]
            &&& t[n + i] <= t[n + j]
            &&& t[2 * n + i] <= t[2 * n + j]
        }),
{
    lemma_linear_fraction_bounds(i, n);
    lemma_linear_fraction_bounds(j, n);
    lemma_linear_fraction_monotone(i, j, n);
    lemma_scaled_bounds(expand8(rgb.0) as int, linear_fraction(i, n));
    lemma_scaled_bounds(expand8(rgb.1) as int, linear_fraction(i, n));
    lemma_scaled_bounds(expand8(rgb.2) as int, linear_fraction(i, n));
    lemma_scaled_bounds(expand8(rgb.0) as int, linear_fraction(j, n));
    lemma_scaled_bounds(expand8(rgb.1) as int, linear_fraction(j, n));
    lemma_scaled_bounds(expand8(rgb.2) as int, linear_fraction(j, n));
    lemma_scaled_monotone(expand8(rgb.0) as int, linear_fraction(i, n), linear_fraction(j, n));
    lemma_scaled_monotone(expand8(rgb.1) as int, linear_fraction(i, n), linear_fraction(j, n));
    lemma_scaled_monotone(expand8(rgb.2) as int, linear_fraction(i, n), linear_fraction(j, n));
}

} // verus!
