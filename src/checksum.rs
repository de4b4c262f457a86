//! The BCH checksum over GF(32): prefix expansion, polynomial reduction,
//! checksum creation and verification.
use vstd::prelude::*;
use crate::ascii::{lower, lower_byte, lower_of};

verus! {

pub const GEN_0: u32 = 0x3b6a57b2;

pub const GEN_1: u32 = 0x26508e6d;

pub const GEN_2: u32 = 0x1ea119fa;

pub const GEN_3: u32 = 0x3d4233dd;

pub const GEN_4: u32 = 0x2a1462b3;

/// The generator term selected by bit `i` of `top`.
pub open spec fn gen_term(top: u32, i: u32, g: u32) -> u32 {
    if (top >> i) & 1u32 == 1u32 {
        g
    } else {
        0u32
    }
}

/// One step of the reduction: shift symbol `v` into the register `chk`.
pub open spec fn poly_step(chk: u32, v: u8) -> u32 {
    let top = chk >> 25u32;
    ((chk & 0x1ffffffu32) << 5u32) ^ (v as u32) ^ gen_term(top, 0, 0x3b6a57b2u32) ^ gen_term(
        top,
        1,
        0x26508e6du32,
    ) ^ gen_term(top, 2, 0x1ea119fau32) ^ gen_term(top, 3, 0x3d4233ddu32) ^ gen_term(
        top,
        4,
        0x2a1462b3u32,
    )
}

/// The register after shifting in all of `vals`, starting from 1.
pub open spec fn residue(vals: Seq<u8>) -> u32
    decreases vals.len(),
{
    if vals.len() == 0 {
        1
    } else {
        poly_step(residue(vals.drop_last()), vals.last())
    }
}

/// The prefix as symbols: the high 3 bits of each lowercased byte, a zero,
/// then the low 5 bits of each lowercased byte.
pub open spec fn expansion(hrp: Seq<u8>) -> Seq<u8> {
    let h = lower(hrp);
    h.map_values(|c: u8| c >> 5u8) + seq![0u8] + h.map_values(|c: u8| c & 31u8)
}

/// The checksum symbols for `data` under prefix `hrp`: the residue of the
/// expansion, the data and six zeros, XOR 1, split into six 5-bit groups,
/// most significant first.
pub open spec fn checksum(hrp: Seq<u8>, data: Seq<u8>) -> Seq<u8> {
    let m = residue(expansion(hrp) + data + seq![0u8, 0u8, 0u8, 0u8, 0u8, 0u8]) ^ 1u32;
    seq![
        ((m >> 25u32) & 31u32) as u8,
        ((m >> 20u32) & 31u32) as u8,
        ((m >> 15u32) & 31u32) as u8,
        ((m >> 10u32) & 31u32) as u8,
        ((m >> 5u32) & 31u32) as u8,
        (m & 31u32) as u8,
    ]
}

/// Whether `data` (payload symbols then checksum) carries a valid checksum
/// under prefix `hrp`.
pub open spec fn checksum_valid(hrp: Seq<u8>, data: Seq<u8>) -> bool {
    residue(expansion(hrp) + data) == 1
}

/// Shifting a symbol into a register that differs from another in its low
/// 25 bits alone: the difference moves up five bits and takes in the symbol.
proof fn lemma_step_shift(a: u32, x: u32, v: u32)
    by (bit_vector)
    requires
        x < 0x2000000u32,
        v < 32u32,
    ensures
        poly_step(a ^ x, v as u8) == poly_step(a, 0u8) ^ ((x << 5u32) ^ v),
{
}

/// A step always leaves a 30-bit register.
proof fn lemma_step_bound(a: u32, v: u8)
    by (bit_vector)
    ensures
        poly_step(a, v) < 0x40000000u32,
{
}

/// A 30-bit value is put back together from its six 5-bit groups.
proof fn lemma_groups_rejoin(m: u32)
    by (bit_vector)
    requires
        m < 0x40000000u32,
    ensures
        ((m >> 25u32) & 31u32) < 32u32,
        ((m >> 20u32) & 31u32) < 32u32,
        ((m >> 15u32) & 31u32) < 32u32,
        ((m >> 10u32) & 31u32) < 32u32,
        ((m >> 5u32) & 31u32) < 32u32,
        (m & 31u32) < 32u32,
        (((m >> 25u32) & 31u32) << 5u32) ^ ((m >> 20u32) & 31u32) < 0x400u32,
        (((((m >> 25u32) & 31u32) << 5u32) ^ ((m >> 20u32) & 31u32)) << 5u32) ^ ((m >> 15u32)
            & 31u32) < 0x8000u32,
        (((((((m >> 25u32) & 31u32) << 5u32) ^ ((m >> 20u32) & 31u32)) << 5u32) ^ ((m >> 15u32)
            & 31u32)) << 5u32) ^ ((m >> 10u32) & 31u32) < 0x100000u32,
        (((((((((m >> 25u32) & 31u32) << 5u32) ^ ((m >> 20u32) & 31u32)) << 5u32) ^ ((m
            >> 15u32) & 31u32)) << 5u32) ^ ((m >> 10u32) & 31u32)) << 5u32) ^ ((m >> 5u32)
            & 31u32) < 0x2000000u32,
        (((((((((((m >> 25u32) & 31u32) << 5u32) ^ ((m >> 20u32) & 31u32)) << 5u32) ^ ((m
            >> 15u32) & 31u32)) << 5u32) ^ ((m >> 10u32) & 31u32)) << 5u32) ^ ((m >> 5u32)
            & 31u32)) << 5u32) ^ (m & 31u32) == m,
{
}

/// Appending one symbol is one more step.
proof fn lemma_polymod_push(x: Seq<u8>, c: Seq<u8>, k: int)
    requires
        0 <= k < c.len(),
    ensures
        residue(x + c.take(k + 1)) == poly_step(residue(x + c.take(k)), c[k]),
{
    assert((x + c.take(k + 1)).drop_last() =~= x + c.take(k));
}

/// The register after six more symbols.
proof fn lemma_polymod_six(x: Seq<u8>, c: Seq<u8>)
    requires
        c.len() == 6,
    ensures
        residue(x + c) == poly_step(
            poly_step(
                poly_step(poly_step(poly_step(poly_step(residue(x), c[0]), c[1]), c[2]), c[3]),
                c[4],
            ),
            c[5],
        ),
{
    assert(x + c.take(0) =~= x);
    assert(x + c.take(6) =~= x + c);
    lemma_polymod_push(x, c, 0);
    lemma_polymod_push(x, c, 1);
    lemma_polymod_push(x, c, 2);
    lemma_polymod_push(x, c, 3);
    lemma_polymod_push(x, c, 4);
    lemma_polymod_push(x, c, 5);
}

/// The checksum that `checksum` computes makes the data verify.
pub proof fn lemma_checksum_valid(hrp: Seq<u8>, data: Seq<u8>)
    ensures
        checksum_valid(hrp, data + checksum(hrp, data)),
        checksum(hrp, data).len() == 6,
        forall|i: int| 0 <= i < 6 ==> #[trigger] checksum(hrp, data)[i] < 32,
{
    let x = expansion(hrp) + data;
    let zeros = seq![0u8, 0u8, 0u8, 0u8, 0u8, 0u8];
    let cs = checksum(hrp, data);
    assert(expansion(hrp) + (data + cs) =~= x + cs);
    assert(expansion(hrp) + data + zeros =~= x + zeros);
    lemma_polymod_six(x, zeros);
    lemma_polymod_six(x, cs);
    let s = residue(x);
    let z1 = poly_step(s, 0u8);
    let z2 = poly_step(z1, 0u8);
    let z3 = poly_step(z2, 0u8);
    let z4 = poly_step(z3, 0u8);
    let z5 = poly_step(z4, 0u8);
    let z6 = poly_step(z5, 0u8);
    lemma_step_bound(z5, 0u8);
    let m = z6 ^ 1u32;
    assert(m < 0x40000000u32) by (bit_vector)
        requires
            z6 < 0x40000000u32,
            m == z6 ^ 1u32,
    ;
    lemma_groups_rejoin(m);
    let e0 = (m >> 25u32) & 31u32;
    let e1 = (m >> 20u32) & 31u32;
    let e2 = (m >> 15u32) & 31u32;
    let e3 = (m >> 10u32) & 31u32;
    let e4 = (m >> 5u32) & 31u32;
    let e5 = m & 31u32;
    let x1 = e0;
    let x2 = (x1 << 5u32) ^ e1;
    let x3 = (x2 << 5u32) ^ e2;
    let x4 = (x3 << 5u32) ^ e3;
    let x5 = (x4 << 5u32) ^ e4;
    let x6 = (x5 << 5u32) ^ e5;
    assert(s ^ 0u32 == s) by (bit_vector);
    assert((0u32 << 5u32) ^ e0 == e0) by (bit_vector);
    lemma_step_shift(s, 0u32, e0);
    lemma_step_shift(z1, x1, e1);
    lemma_step_shift(z2, x2, e2);
    lemma_step_shift(z3, x3, e3);
    lemma_step_shift(z4, x4, e4);
    lemma_step_shift(z5, x5, e5);
    assert(cs[0] as u32 == e0 && cs[1] as u32 == e1 && cs[2] as u32 == e2);
    assert(cs[3] as u32 == e3 && cs[4] as u32 == e4 && cs[5] as u32 == e5);
    assert(z6 ^ m == 1u32) by (bit_vector)
        requires
            m == z6 ^ 1u32,
    ;
}

/// Two registers stepped with two symbols differ by the step of their
/// difference and the difference of the symbols.
proof fn lemma_step_linear(a: u32, b: u32, v: u8, w: u8)
    by (bit_vector)
    ensures
        poly_step(a, v) ^ poly_step(b, w) == poly_step(a ^ b, 0u8) ^ ((v as u32) ^ (w as u32)),
{
}

/// A non-zero 30-bit register never steps to zero without a symbol.
proof fn lemma_step_nonzero(d: u32)
    by (bit_vector)
    requires
        d != 0u32,
        d < 0x40000000u32,
    ensures
        poly_step(d, 0u8) != 0u32,
{
}

/// Once two runs differ, their registers stay different.
proof fn lemma_difference_persists(x: Seq<u8>, y: Seq<u8>, k: int, t: int)
    requires
        x.len() == y.len(),
        0 <= k < t <= x.len(),
        x[k] != y[k],
        forall|j: int| 0 <= j < x.len() && j != k ==> #[trigger] x[j] == y[j],
    ensures
        residue(x.take(t)) ^ residue(y.take(t)) != 0u32,
        residue(x.take(t)) ^ residue(y.take(t)) < 0x40000000u32,
    decreases t,
{
    let a = residue(x.take(t - 1));
    let b = residue(y.take(t - 1));
    let v = x[t - 1];
    let w = y[t - 1];
    assert(x.take(t).drop_last() =~= x.take(t - 1));
    assert(y.take(t).drop_last() =~= y.take(t - 1));
    lemma_step_linear(a, b, v, w);
    let d = a ^ b;
    lemma_step_bound(d, 0u8);
    if t - 1 == k {
        assert(x.take(k) =~= y.take(k));
        assert(a ^ a == 0u32) by (bit_vector);
        assert(poly_step(0u32, 0u8) == 0u32) by (bit_vector);
        assert((v as u32) ^ (w as u32) != 0u32 && (v as u32) ^ (w as u32) < 0x100u32)
            by (bit_vector)
            requires
                v != w,
        ;
        assert(0u32 ^ ((v as u32) ^ (w as u32)) == (v as u32) ^ (w as u32)) by (bit_vector);
    } else {
        lemma_difference_persists(x, y, k, t - 1);
        assert(v == w);
        assert((v as u32) ^ (v as u32) == 0u32) by (bit_vector);
        lemma_step_nonzero(d);
        let n = poly_step(d, 0u8);
        assert(n ^ 0u32 == n) by (bit_vector);
    }
}

/// A single changed symbol always changes the register: two sequences of
/// one length that differ in exactly one position reduce differently.
pub proof fn lemma_single_change(x: Seq<u8>, y: Seq<u8>, k: int)
    requires
        x.len() == y.len(),
        0 <= k < x.len(),
        x[k] != y[k],
        forall|j: int| 0 <= j < x.len() && j != k ==> #[trigger] x[j] == y[j],
    ensures
        residue(x) != residue(y),
{
    lemma_difference_persists(x, y, k, x.len() as int);
    assert(x.take(x.len() as int) =~= x);
    assert(y.take(y.len() as int) =~= y);
    let a = residue(x);
    let b = residue(y);
    assert(a ^ b != 0u32 ==> a != b) by (bit_vector);
}

fn poly_step_exec(chk: u32, v: u8) -> (r: u32)
    ensures
        r == poly_step(chk, v),
{
    let top: u32 = chk >> 25;
    let t0: u32 = if (top >> 0) & 1 == 1 { GEN_0 } else { 0 };
    let t1: u32 = if (top >> 1) & 1 == 1 { GEN_1 } else { 0 };
    let t2: u32 = if (top >> 2) & 1 == 1 { GEN_2 } else { 0 };
    let t3: u32 = if (top >> 3) & 1 == 1 { GEN_3 } else { 0 };
    let t4: u32 = if (top >> 4) & 1 == 1 { GEN_4 } else { 0 };
    ((chk & 0x1ffffff) << 5) ^ (v as u32) ^ t0 ^ t1 ^ t2 ^ t3 ^ t4
}

/// Runs the reduction over `values`.
pub fn polymod(values: &Vec<u8>) -> (r: u32)
    ensures
        r == residue(values@),
{
    let mut chk: u32 = 1;
    let mut i: usize = 0;
    assert(values@.take(0) =~= Seq::<u8>::empty());
    while i < values.len()
        invariant
            i <= values.len(),
            chk == residue(values@.take(i as int)),
        decreases values.len() - i,
    {
        assert(values@.take(i as int + 1).drop_last() =~= values@.take(i as int));
        chk = poly_step_exec(chk, values[i]);
        i += 1;
    }
    assert(values@.take(values.len() as int) =~= values@);
    chk
}

/// Expands the prefix into the symbols that start every checksum.
pub fn hrp_expand(hrp: &Vec<u8>) -> (r: Vec<u8>)
    ensures
        r@ == expansion(hrp@),
{
    let ghost h = lower(hrp@);
    let mut ret: Vec<u8> = Vec::new();
    let mut i: usize = 0;
    while i < hrp.len()
        invariant
            i <= hrp.len(),
            h == lower(hrp@),
            ret@ =~= h.map_values(|c: u8| c >> 5u8).take(i as int),
        decreases hrp.len() - i,
    {
        ret.push(lower_of(hrp[i]) >> 5);
        i += 1;
    }
    ret.push(0);
    let ghost first = ret@;
    assert(first =~= h.map_values(|c: u8| c >> 5u8) + seq![0u8]);
    let mut j: usize = 0;
    while j < hrp.len()
        invariant
            j <= hrp.len(),
            h == lower(hrp@),
            ret@ =~= first + h.map_values(|c: u8| c & 31u8).take(j as int),
        decreases hrp.len() - j,
    {
        ret.push(lower_of(hrp[j]) & 31);
        j += 1;
    }
    assert(h.map_values(|c: u8| c & 31u8).take(hrp.len() as int) =~= h.map_values(
        |c: u8| c & 31u8,
    ));
    ret
}

/// Whether `data` carries a valid checksum under prefix `hrp`.
pub fn verify_checksum(hrp: &Vec<u8>, data: &Vec<u8>) -> (r: bool)
    ensures
        r == checksum_valid(hrp@, data@),
{
    let mut values: Vec<u8> = hrp_expand(hrp);
    let ghost start = values@;
    let mut i: usize = 0;
    while i < data.len()
        invariant
            i <= data.len(),
            values@ =~= start + data@.take(i as int),
        decreases data.len() - i,
    {
        values.push(data[i]);
        i += 1;
    }
    assert(data@.take(data.len() as int) =~= data@);
    polymod(&values) == 1
}

/// The six checksum symbols for `data` under prefix `hrp`.
pub fn create_checksum(hrp: &Vec<u8>, data: &Vec<u8>) -> (r: Vec<u8>)
    ensures
        r@ == checksum(hrp@, data@),
{
    let mut values: Vec<u8> = hrp_expand(hrp);
    let ghost start = values@;
    let mut i: usize = 0;
    while i < data.len()
        invariant
            i <= data.len(),
            values@ =~= start + data@.take(i as int),
        decreases data.len() - i,
    {
        values.push(data[i]);
        i += 1;
    }
    assert(data@.take(data.len() as int) =~= data@);
    let mut k: usize = 0;
    while k < 6
        invariant
            k <= 6,
            values@ =~= start + data@ + Seq::new(k as nat, |x: int| 0u8),
        decreases 6 - k,
    {
        values.push(0);
        k += 1;
    }
    assert(Seq::new(6, |x: int| 0u8) =~= seq![0u8, 0u8, 0u8, 0u8, 0u8, 0u8]);
    let m: u32 = polymod(&values) ^ 1;
    let mut ret: Vec<u8> = Vec::new();
    ret.push(((m >> 25) & 31) as u8);
    ret.push(((m >> 20) & 31) as u8);
    ret.push(((m >> 15) & 31) as u8);
    ret.push(((m >> 10) & 31) as u8);
    ret.push(((m >> 5) & 31) as u8);
    ret.push((m & 31) as u8);
    assert(ret@ =~= checksum(hrp@, data@));
    ret
}

} // verus!
