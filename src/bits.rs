//! Regrouping of a big-endian bit stream between group widths.
use vstd::prelude::*;
use vstd::arithmetic::power2::*;
use vstd::arithmetic::div_mod::*;
use vstd::bits::*;

verus! {

/// The number that a sequence of `width`-bit groups spells when read as one
/// bit stream, most significant bit first.
pub open spec fn stream_value(s: Seq<u8>, width: nat) -> nat
    decreases s.len(),
{
    if s.len() == 0 {
        0
    } else {
        stream_value(s.drop_last(), width) * pow2(width) + s.last() as nat
    }
}

/// Every element of `s` fits in `width` bits.
pub open spec fn fits(s: Seq<u8>, width: nat) -> bool {
    forall|i: int| 0 <= i < s.len() ==> (#[trigger] s[i]) < pow2(width)
}

/// The `len` lowest `width`-bit groups of `v`, most significant first.
pub open spec fn groups(v: nat, width: nat, len: nat) -> Seq<u8>
    decreases len,
{
    if len == 0 {
        Seq::empty()
    } else {
        groups(v / pow2(width), width, (len - 1) as nat).push((v % pow2(width)) as u8)
    }
}

/// Number of `to`-bit groups needed to hold `n` groups of `from` bits, the
/// last one zero-filled.
pub open spec fn padded_len(n: nat, from: nat, to: nat) -> nat {
    ((n * from + to - 1) / (to as int)) as nat
}

/// Number of whole `to`-bit groups in `n` groups of `from` bits.
pub open spec fn whole_len(n: nat, from: nat, to: nat) -> nat {
    (n * from) / to
}

/// Bits left over after the whole `to`-bit groups of `n` groups of `from` bits.
pub open spec fn leftover(n: nat, from: nat, to: nat) -> nat {
    (n * from) % to
}

/// The regrouping of `data` from `from`-bit to `to`-bit groups. With `pad`,
/// the trailing bits are zero-filled into a last group. Without it, fewer than
/// `from` bits may be left over and they must all be zero. `None` where an
/// input group does not fit in `from` bits or the padding is refused.
pub open spec fn regroup(data: Seq<u8>, from: nat, to: nat, pad: bool) -> Option<Seq<u8>> {
    let v = stream_value(data, from);
    if !fits(data, from) {
        None
    } else if pad {
        let len = padded_len(data.len(), from, to);
        Some(groups(v * pow2((len * to - data.len() * from) as nat), to, len))
    } else {
        let rem = leftover(data.len(), from, to);
        if rem >= from || v % pow2(rem) != 0 {
            None
        } else {
            Some(groups(v / pow2(rem), to, whole_len(data.len(), from, to)))
        }
    }
}

/// A sequence of groups that fit is the group decomposition of its own value.
pub proof fn lemma_groups_of_value(s: Seq<u8>, width: nat)
    requires
        1 <= width <= 8,
        fits(s, width),
    ensures
        groups(stream_value(s, width), width, s.len()) == s,
    decreases s.len(),
{
    if s.len() > 0 {
        let init = s.drop_last();
        assert(fits(init, width)) by {
            assert forall|i: int| 0 <= i < init.len() implies (#[trigger] init[i]) < pow2(width) by {
                assert(init[i] == s[i]);
            }
        }
        lemma_groups_of_value(init, width);
        let p = pow2(width);
        lemma_pow2_pos(width);
        assert(s.last() < p) by {
            assert(s[s.len() - 1] < p);
        }
        let v = stream_value(s, width);
        lemma_fundamental_div_mod_converse(
            v as int,
            p as int,
            stream_value(init, width) as int,
            s.last() as int,
        );
        assert(groups(v, width, s.len()) =~= s);
    }
}

/// The value of groups that fit is below the stream's capacity.
pub proof fn lemma_value_bound(s: Seq<u8>, width: nat)
    requires
        fits(s, width),
    ensures
        stream_value(s, width) < pow2(width * s.len()),
    decreases s.len(),
{
    if s.len() == 0 {
        lemma_pow2_pos(0);
    } else {
        let init = s.drop_last();
        assert(fits(init, width)) by {
            assert forall|i: int| 0 <= i < init.len() implies (#[trigger] init[i]) < pow2(width) by {
                assert(init[i] == s[i]);
            }
        }
        lemma_value_bound(init, width);
        assert(s[s.len() - 1] < pow2(width));
        let a = stream_value(init, width);
        let big = pow2(width * init.len());
        let p = pow2(width);
        lemma_pow2_adds(width * init.len(), width);
        assert(width * init.len() + width == width * s.len()) by (nonlinear_arith)
            requires
                init.len() + 1 == s.len(),
        ;
        assert(a * p + s.last() < big * p) by (nonlinear_arith)
            requires
                a < big,
                s.last() < p,
        ;
    }
}

/// The value of a group decomposition, and that its groups fit.
pub proof fn lemma_groups_value(v: nat, width: nat, len: nat)
    requires
        1 <= width <= 8,
    ensures
        fits(groups(v, width, len), width),
        groups(v, width, len).len() == len,
        stream_value(groups(v, width, len), width) == v % pow2(width * len),
    decreases len,
{
    let g = groups(v, width, len);
    lemma_pow2_pos(width);
    lemma2_to64();
    if len == 0 {
        assert(pow2(0) == 1);
        assert(width * len == 0);
    } else {
        let p = pow2(width);
        let q = v / p;
        let r = v % p;
        lemma_groups_value(q, width, (len - 1) as nat);
        let init = groups(q, width, (len - 1) as nat);
        assert(p <= 256) by {
            if width < 8 {
                lemma_pow2_strictly_increases(width, 8);
            }
        }
        assert(r < p);
        assert(g.drop_last() =~= init);
        assert(fits(g, width)) by {
            assert forall|i: int| 0 <= i < g.len() implies (#[trigger] g[i]) < pow2(width) by {
                if i < len - 1 {
                    assert(g[i] == init[i]);
                }
            }
        }
        let m = pow2(width * (len - 1) as nat);
        lemma_pow2_adds(width * (len - 1) as nat, width);
        assert(width * (len - 1) as nat + width == width * len) by (nonlinear_arith)
            requires
                len >= 1,
        ;
        lemma_pow2_pos(width * (len - 1) as nat);
        // v = q * p + r, and q % m taken in the higher groups.
        lemma_fundamental_div_mod(v as int, p as int);
        lemma_fundamental_div_mod(q as int, m as int);
        let hi = q / m;
        let lo = q % m;
        assert(0 <= lo * p + r < m * p) by (nonlinear_arith)
            requires
                0 <= lo < m,
                0 <= r < p,
        ;
        assert(v == hi * (m * p) + (lo * p + r)) by (nonlinear_arith)
            requires
                v == p * q + r,
                q == m * hi + lo,
        ;
        lemma_fundamental_div_mod_converse(
            v as int,
            (m * p) as int,
            (q / m) as int,
            ((q % m) * p + r) as int,
        );
        assert(g.drop_last() =~= init);
        assert(stream_value(g, width) == (q % m) * p + r);
    }
}

/// Regrouping bytes into 5-bit groups with padding, then back without it,
/// gives the bytes again.
pub proof fn lemma_regroup_round_trip(data: Seq<u8>)
    ensures
        match regroup(data, 8, 5, true) {
            Some(syms) => syms.len() == padded_len(data.len(), 8, 5) && fits(syms, 5) && regroup(
                syms,
                5,
                8,
                false,
            ) == Some(data),
            None => false,
        },
{
    let n = data.len();
    let m = padded_len(n, 8, 5);
    lemma2_to64();
    assert(fits(data, 8)) by {
        assert forall|i: int| 0 <= i < data.len() implies (#[trigger] data[i]) < pow2(8) by {}
    }
    let v = stream_value(data, 8);
    lemma_value_bound(data, 8);
    lemma_fundamental_div_mod((n * 8 + 4) as int, 5);
    let p = (m * 5 - n * 8) as nat;
    assert(0 <= m * 5 - n * 8 < 5);
    let w = v * pow2(p);
    lemma_pow2_adds(8 * n, p);
    lemma_pow2_pos(p);
    assert(8 * n + p == 5 * m);
    assert(w < pow2(8 * n) * pow2(p)) by (nonlinear_arith)
        requires
            v < pow2(8 * n),
            pow2(p) > 0,
            w == v * pow2(p),
    ;
    lemma_pow2_pos(5 * m);
    lemma_small_mod(w, pow2(5 * m));
    lemma_groups_value(w, 5, m);
    let syms = groups(w, 5, m);
    assert(regroup(data, 8, 5, true) == Some(syms));
    lemma_fundamental_div_mod_converse((m * 5) as int, 8, n as int, p as int);
    assert(leftover(m, 5, 8) == p);
    assert(whole_len(m, 5, 8) == n);
    lemma_mod_multiples_basic(v as int, pow2(p) as int);
    lemma_div_by_multiple(v as int, pow2(p) as int);
    lemma_groups_of_value(data, 8);
    assert(regroup(syms, 5, 8, false) == Some(data));
}

/// Absorbing one input group of `from` bits into an accumulator of `bits` bits.
proof fn lemma_absorb(prev: nat, acc: nat, bits: nat, v: nat, from: nat)
    requires
        acc < pow2(bits),
        v < pow2(from),
    ensures
        (prev * pow2(bits) + acc) * pow2(from) + v == prev * pow2(bits + from) + (acc * pow2(from) + v),
        acc * pow2(from) + v < pow2(bits + from),
{
    let p = pow2(bits);
    let q = pow2(from);
    lemma_pow2_adds(bits, from);
    assert((prev * p + acc) * q + v == prev * (p * q) + (acc * q + v)) by (nonlinear_arith);
    assert(acc * q + v < p * q) by (nonlinear_arith)
        requires
            acc < p,
            v < q,
    ;
}

/// Emitting the top `to` bits of an accumulator of `rest + to` bits.
proof fn lemma_emit(prev: nat, acc: nat, rest: nat, to: nat)
    requires
        acc < pow2(rest + to),
    ensures
        acc / pow2(rest) < pow2(to),
        acc % pow2(rest) < pow2(rest),
        (prev * pow2(to) + acc / pow2(rest)) * pow2(rest) + acc % pow2(rest) == prev * pow2(rest
            + to) + acc,
{
    let p = pow2(rest);
    let t = pow2(to);
    lemma_pow2_pos(rest);
    lemma_pow2_adds(rest, to);
    lemma_fundamental_div_mod(acc as int, p as int);
    let d = acc / p;
    let m = acc % p;
    assert(d < t) by (nonlinear_arith)
        requires
            acc == p * d + m,
            0 <= m,
            acc < p * t,
            p > 0,
    ;
    assert((prev * t + d) * p + m == prev * (p * t) + acc) by (nonlinear_arith)
        requires
            acc == p * d + m,
    ;
}

/// `1 << n` is 2 to the power `n`, for small `n`.
proof fn lemma_unit(n: u32)
    requires
        n < 31,
    ensures
        (1u32 << n) == pow2(n as nat),
        pow2(n as nat) < 0x8000_0000,
{
    lemma_u32_pow2_no_overflow(n as nat);
    lemma_u32_shl_is_mul(1, n);
    lemma_pow2_strictly_increases(n as nat, 31);
    lemma2_to64();
}

/// Repacks `data`, a stream of `from`-bit groups, into `to`-bit groups, read
/// most significant bit first. Fails where a group does not fit in `from`
/// bits or, without `pad`, where the leftover bits are too many or not zero.
pub fn convert_bits(data: &Vec<u8>, from: u8, to: u8, pad: bool) -> (r: Option<Vec<u8>>)
    requires
        1 <= from <= 8,
        1 <= to <= 8,
    ensures
        match r {
            Some(out) => regroup(data@, from as nat, to as nat, pad) == Some(out@),
            None => regroup(data@, from as nat, to as nat, pad) is None,
        },
{
    let mut ret: Vec<u8> = Vec::new();
    let mut acc: u32 = 0;
    let mut bits: u8 = 0;
    proof {
        lemma_unit(from as u32);
        lemma_pow2_pos(0);
        lemma2_to64();
        assert(data@.take(0) =~= Seq::<u8>::empty());
        assert(0 * (to as int) + 0 == 0 * (from as int));
    }
    let unit: u32 = 1u32 << (from as u32);
    let mut i: usize = 0;
    while i < data.len()
        invariant
            1 <= from <= 8,
            1 <= to <= 8,
            i <= data.len(),
            unit == pow2(from as nat),
            bits < to,
            acc < pow2(bits as nat),
            ret.len() as int * to as int + bits as int == i as int * from as int,
            stream_value(ret@, to as nat) * pow2(bits as nat) + acc == stream_value(
                data@.take(i as int),
                from as nat,
            ),
            fits(ret@, to as nat),
            fits(data@.take(i as int), from as nat),
        decreases data.len() - i,
    {
        let value: u8 = data[i];
        if value as u32 >= unit {
            proof {
                assert(data@[i as int] >= pow2(from as nat));
            }
            return None;
        }
        proof {
            let prev = stream_value(ret@, to as nat);
            lemma_absorb(prev, acc as nat, bits as nat, value as nat, from as nat);
            lemma_unit((bits + from) as u32);
            let next = data@.take(i as int + 1);
            assert(next.drop_last() =~= data@.take(i as int));
            assert(fits(next, from as nat)) by {
                assert forall|k: int| 0 <= k < next.len() implies (#[trigger] next[k]) < pow2(
                    from as nat,
                ) by {
                    if k < i {
                        assert(next[k] == data@.take(i as int)[k]);
                    }
                }
            }
            assert(acc * unit <= acc * unit + value);
            assert((i + 1) as int * from as int == i as int * from as int + from as int)
                by (nonlinear_arith);
        }
        acc = acc * unit + value as u32;
        bits = bits + from;
        while bits >= to
            invariant
                1 <= from <= 8,
                1 <= to <= 8,
                i < data.len(),
                bits < to + from,
                acc < pow2(bits as nat),
                ret.len() as int * to as int + bits as int == (i + 1) as int * from as int,
                stream_value(ret@, to as nat) * pow2(bits as nat) + acc == stream_value(
                    data@.take(i + 1),
                    from as nat,
                ),
                fits(ret@, to as nat),
            decreases bits,
        {
            bits = bits - to;
            proof {
                lemma_unit(bits as u32);
                lemma_emit(stream_value(ret@, to as nat), acc as nat, bits as nat, to as nat);
                lemma2_to64();
            }
            let scale: u32 = 1u32 << (bits as u32);
            let digit: u8 = (acc / scale) as u8;
            proof {
                assert(pow2(to as nat) <= 256) by {
                    if to < 8 {
                        lemma_pow2_strictly_increases(to as nat, 8);
                    }
                }
                assert((ret.len() + 1) as int * to as int == ret.len() as int * to as int
                    + to as int) by (nonlinear_arith);
                let old_ret = ret@;
                assert(old_ret.push(digit).drop_last() =~= old_ret);
                assert(fits(old_ret.push(digit), to as nat)) by {
                    let n = old_ret.push(digit);
                    assert forall|k: int| 0 <= k < n.len() implies (#[trigger] n[k]) < pow2(
                        to as nat,
                    ) by {
                        if k < old_ret.len() {
                            assert(n[k] == old_ret[k]);
                        }
                    }
                }
            }
            ret.push(digit);
            acc = acc % scale;
        }
        i += 1;
    }
    proof {
        assert(data@.take(data.len() as int) =~= data@);
    }
    let ghost n = data.len() as nat;
    let ghost l = ret.len() as nat;
    let ghost sv = stream_value(data@, from as nat);
    if pad {
        if bits > 0 {
            let shift: u8 = to - bits;
            proof {
                lemma_unit(shift as u32);
                lemma_pow2_adds(bits as nat, shift as nat);
                lemma_pow2_pos(shift as nat);
                assert(acc * pow2(shift as nat) < pow2(bits as nat) * pow2(shift as nat))
                    by (nonlinear_arith)
                    requires
                        acc < pow2(bits as nat),
                        pow2(shift as nat) > 0,
                ;
                assert(pow2(to as nat) <= 256) by {
                    if to < 8 {
                        lemma_pow2_strictly_increases(to as nat, 8);
                    }
                }
            }
            let scale: u32 = 1u32 << (shift as u32);
            let last: u8 = (acc * scale) as u8;
            proof {
                let prev = stream_value(ret@, to as nat);
                let out = ret@.push(last);
                assert(out.drop_last() =~= ret@);
                assert(fits(out, to as nat)) by {
                    assert forall|k: int| 0 <= k < out.len() implies (#[trigger] out[k]) < pow2(
                        to as nat,
                    ) by {
                        if k < l {
                            assert(out[k] == ret@[k]);
                        }
                    }
                }
                let p = pow2(bits as nat);
                let q = pow2(shift as nat);
                assert(prev * (p * q) + acc * q == (prev * p + acc) * q) by (nonlinear_arith);
                assert(n * from + to - 1 == (l + 1) * to + (bits - 1)) by (nonlinear_arith)
                    requires
                        l * to + bits == n * from,
                ;
                lemma_fundamental_div_mod_converse(
                    (n * from + to - 1) as int,
                    to as int,
                    (l + 1) as int,
                    (bits - 1) as int,
                );
                assert((l + 1) * to - n * from == shift) by (nonlinear_arith)
                    requires
                        l * to + bits == n * from,
                        shift == to - bits,
                ;
                assert(stream_value(out, to as nat) == prev * pow2(to as nat) + last);
                assert(last == acc * q);
                assert(pow2(to as nat) == p * q);
                assert(stream_value(out, to as nat) == sv * q);
                lemma_groups_of_value(out, to as nat);
                assert(padded_len(n, from as nat, to as nat) == l + 1);
            }
            ret.push(last);
            proof {
                assert(regroup(data@, from as nat, to as nat, pad) == Some(ret@));
            }
        } else {
            proof {
                lemma_fundamental_div_mod_converse(
                    (n * from + to - 1) as int,
                    to as int,
                    l as int,
                    (to - 1) as int,
                );
                assert(l * to - n * from == 0);
                assert(pow2(0) == 1);
                assert(pow2(bits as nat) == 1);
                assert(acc == 0);
                assert(stream_value(ret@, to as nat) * 1 == stream_value(ret@, to as nat));
                assert(stream_value(ret@, to as nat) == sv);
                assert(padded_len(n, from as nat, to as nat) == l);
                assert(sv * pow2(0) == sv);
                lemma_groups_of_value(ret@, to as nat);
                assert(regroup(data@, from as nat, to as nat, pad) == Some(ret@));
            }
        }
        Some(ret)
    } else {
        proof {
            lemma_fundamental_div_mod_converse((n * from) as int, to as int, l as int, bits as int);
            lemma_pow2_pos(bits as nat);
            lemma_fundamental_div_mod_converse(
                sv as int,
                pow2(bits as nat) as int,
                stream_value(ret@, to as nat) as int,
                acc as int,
            );
        }
        if bits >= from || acc != 0 {
            None
        } else {
            proof {
                lemma_groups_of_value(ret@, to as nat);
            }
            Some(ret)
        }
    }
}

} // verus!
