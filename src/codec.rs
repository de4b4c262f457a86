//! Encoding a prefix and payload into a Bech32 string, and decoding it back.
use vstd::prelude::*;
use crate::alphabet::{
    chars, char_code, char_of, code_of, in_alphabet, lemma_char_code, lemma_symbol_char, symbols,
};
use crate::ascii::{
    avoids, avoids_range, lower, lower_byte, lower_of, no_lower, no_upper, printable, single_case,
    to_lower, to_upper, upper, upper_byte, within_range,
};
use crate::bits::{convert_bits, fits, lemma_regroup_round_trip, padded_len, regroup};
use crate::checksum::{
    checksum, checksum_valid, create_checksum, expansion, lemma_checksum_valid, lemma_single_change,
    verify_checksum,
};

verus! {

/// The longest encoded string.
pub const MAX_LEN: usize = 90;

/// The separator `1` between prefix and data.
pub const SEPARATOR: u8 = 49;

/// The encoding of `data` under prefix `hrp`, or `None` where the payload is
/// empty, the result would exceed 90 characters, or the prefix is empty,
/// holds a byte outside 33..=126 or mixes cases. The prefix is written in
/// lowercase, then `1`, the payload's 5-bit symbols and the checksum; the
/// whole string is uppercased where the prefix holds an uppercase letter.
pub open spec fn encode_spec(hrp: Seq<u8>, data: Seq<u8>) -> Option<Seq<u8>> {
    match regroup(data, 8, 5, true) {
        None => None,
        Some(syms) => {
            if syms.len() == 0 || hrp.len() + syms.len() + 7 > 90 || hrp.len() == 0 || !printable(
                hrp,
            ) || !single_case(hrp) {
                None
            } else {
                let body = lower(hrp) + seq![49u8] + chars(syms) + chars(checksum(hrp, syms));
                if no_upper(hrp) {
                    Some(body)
                } else {
                    Some(upper(body))
                }
            }
        },
    }
}

/// The index of the last separator in `s[0..end)`, or 0 where there is none.
pub open spec fn last_separator(s: Seq<u8>, end: int) -> int
    decreases end,
{
    if end <= 0 {
        0
    } else if s[end - 1] == 49 {
        end - 1
    } else {
        last_separator(s, end - 1)
    }
}

/// The separator's index in `s`: the last `1` before its final character.
pub open spec fn separator_of(s: Seq<u8>) -> int {
    last_separator(s, s.len() - 1)
}

/// The data symbols of `s` (payload and checksum), read after the separator.
pub open spec fn data_symbols(s: Seq<u8>) -> Seq<u8> {
    symbols(lower(s.subrange(separator_of(s) + 1, s.len() as int)))
}

/// The prefix and payload that `s` encodes, or `None` where `s` is longer
/// than 90 characters, mixes cases, has no separator with a non-empty prefix
/// before it and six characters after it, has a prefix byte outside
/// 33..=126, a data character outside the alphabet, a wrong checksum, or a
/// payload whose padding is refused. The prefix keeps the case of `s`.
pub open spec fn decode_spec(s: Seq<u8>) -> Option<(Seq<u8>, Seq<u8>)> {
    let pos = separator_of(s);
    let hrp = s.subrange(0, pos);
    let syms = data_symbols(s);
    if s.len() > 90 || !single_case(s) || pos < 1 || pos + 7 > s.len() || !printable(hrp)
        || !in_alphabet(lower(s.subrange(pos + 1, s.len() as int))) || !checksum_valid(hrp, syms) {
        None
    } else {
        match regroup(syms.subrange(0, syms.len() - 6), 5, 8, false) {
            None => None,
            Some(payload) => Some((hrp, payload)),
        }
    }
}

/// The characters that spell symbols are digits and lowercase letters other
/// than `1`, in either case, and they read back as the same symbols.
proof fn lemma_chars(syms: Seq<u8>)
    requires
        forall|i: int| 0 <= i < syms.len() ==> #[trigger] syms[i] < 32,
    ensures
        lower(chars(syms)) == chars(syms),
        lower(upper(chars(syms))) == chars(syms),
        symbols(chars(syms)) == syms,
        in_alphabet(chars(syms)),
        no_upper(chars(syms)),
        avoids(chars(syms), 49, 49),
        avoids(upper(chars(syms)), 49, 49),
{
    let c = chars(syms);
    assert forall|j: int| 0 <= j < syms.len() implies lower_byte(#[trigger] c[j]) == c[j]
        && lower_byte(upper_byte(c[j])) == c[j] && char_code(c[j]) == syms[j] && c[j] != 49
        && upper_byte(c[j]) != 49 && !(65 <= c[j] <= 90) by {
        lemma_symbol_char(syms[j]);
    }
    assert(lower(c) =~= c);
    assert(lower(upper(c)) =~= c);
    assert(symbols(c) =~= syms);
    assert forall|j: int| 0 <= j < c.len() implies !(49 <= #[trigger] upper(c)[j] <= 49) by {
        assert(upper(c)[j] == upper_byte(c[j]));
    }
}

/// The separator found before `end` is `k` where `s[k]` is the last `1`
/// before `end`.
proof fn lemma_separator_at(s: Seq<u8>, k: int, end: int)
    requires
        0 <= k < end <= s.len(),
        s[k] == 49,
        forall|j: int| k < j < end ==> #[trigger] s[j] != 49,
    ensures
        last_separator(s, end) == k,
    decreases end,
{
    if end - 1 > k {
        lemma_separator_at(s, k, end - 1);
    }
}

/// Round trip: a prefix and a non-empty payload that encode within 90
/// characters encode to a string that decodes to the same prefix, in its own
/// case, and the same payload.
pub proof fn lemma_round_trip(hrp: Seq<u8>, data: Seq<u8>)
    requires
        hrp.len() >= 1,
        printable(hrp),
        single_case(hrp),
        data.len() >= 1,
        hrp.len() + padded_len(data.len(), 8, 5) + 7 <= 90,
    ensures
        match encode_spec(hrp, data) {
            Some(e) => decode_spec(e) == Some((hrp, data)),
            None => false,
        },
{
    lemma_regroup_round_trip(data);
    let syms = regroup(data, 8, 5, true)->Some_0;
    let m = syms.len();
    vstd::arithmetic::power2::lemma2_to64();
    assert(m >= 1) by {
        vstd::arithmetic::div_mod::lemma_fundamental_div_mod((data.len() * 8 + 4) as int, 5);
    }
    let cs = checksum(hrp, syms);
    lemma_checksum_valid(hrp, syms);
    assert forall|i: int| 0 <= i < syms.len() implies #[trigger] syms[i] < 32 by {
        assert(fits(syms, 5));
    }
    lemma_chars(syms);
    lemma_chars(cs);
    let k = hrp.len() as int;
    let l = lower(hrp);
    let tail = chars(syms) + chars(cs);
    let body = l + seq![49u8] + tail;
    assert(l + seq![49u8] + chars(syms) + chars(cs) =~= body);
    let e = encode_spec(hrp, data)->Some_0;
    assert(encode_spec(hrp, data) is Some);
    assert(e.len() == k + 1 + m + 6);
    assert(lower(tail) =~= lower(chars(syms)) + lower(chars(cs)));
    assert(lower(upper(tail)) =~= lower(upper(chars(syms))) + lower(upper(chars(cs))));
    assert(symbols(tail) =~= symbols(chars(syms)) + symbols(chars(cs)));
    assert(in_alphabet(tail)) by {
        assert forall|j: int| 0 <= j < tail.len() implies #[trigger] char_code(tail[j]) < 32 by {
            if j < m {
                assert(tail[j] == chars(syms)[j]);
            } else {
                assert(tail[j] == chars(cs)[j - m]);
            }
        }
    }
    // The prefix part, the separator and the data part of `e`.
    let hp = e.subrange(0, k);
    let tp = e.subrange(k + 1, e.len() as int);
    assert(e[k] == 49);
    if no_upper(hrp) {
        assert(e == body);
        assert(l =~= hrp);
        assert(hp =~= hrp);
        assert(tp =~= tail);
        assert(no_upper(e)) by {
            assert forall|j: int| 0 <= j < e.len() implies !(65 <= #[trigger] e[j] <= 90) by {
                if j > k {
                    if j - k - 1 < m {
                        assert(e[j] == chars(syms)[j - k - 1]);
                    } else {
                        assert(e[j] == chars(cs)[j - k - 1 - m]);
                    }
                }
            }
        }
        assert forall|j: int| k < j < e.len() - 1 implies #[trigger] e[j] != 49 by {
            if j - k - 1 < m {
                assert(e[j] == chars(syms)[j - k - 1]);
            } else {
                assert(e[j] == chars(cs)[j - k - 1 - m]);
            }
        }
    } else {
        assert(e == upper(body));
        assert(no_lower(hrp));
        assert(upper(l) =~= hrp);
        assert(hp =~= hrp);
        assert(lower(tp) =~= tail) by {
            assert(tp =~= upper(chars(syms)) + upper(chars(cs)));
        }
        assert(no_lower(e)) by {
            assert forall|j: int| 0 <= j < e.len() implies !(97 <= #[trigger] e[j] <= 122) by {
                assert(e[j] == upper_byte(body[j]));
            }
        }
        assert forall|j: int| k < j < e.len() - 1 implies #[trigger] e[j] != 49 by {
            if j - k - 1 < m {
                assert(e[j] == upper(chars(syms))[j - k - 1]);
            } else {
                assert(e[j] == upper(chars(cs))[j - k - 1 - m]);
            }
        }
    }
    lemma_separator_at(e, k, e.len() - 1);
    assert(data_symbols(e) =~= syms + cs);
    assert((syms + cs).subrange(0, m as int) =~= syms);
}

/// Uppercasing keeps every `1` and adds none, so the separator stays put.
proof fn lemma_upper_separator(s: Seq<u8>, end: int)
    requires
        end <= s.len(),
    ensures
        last_separator(upper(s), end) == last_separator(s, end),
    decreases end,
{
    if end > 0 {
        assert(upper(s)[end - 1] == upper_byte(s[end - 1]));
        lemma_upper_separator(s, end - 1);
    }
}

/// Case invariance: a string with no uppercase letter and its uppercase form
/// decode alike. Both fail, or both give the same payload, the second with
/// the first's prefix in uppercase.
pub proof fn lemma_case_invariance(s: Seq<u8>)
    requires
        no_upper(s),
    ensures
        decode_spec(upper(s)) == match decode_spec(s) {
            Some((h, p)) => Some((upper(h), p)),
            None => None,
        },
{
    let u = upper(s);
    let pos = separator_of(s);
    lemma_upper_separator(s, s.len() - 1);
    assert(separator_of(u) == pos);
    assert(no_lower(u)) by {
        assert forall|j: int| 0 <= j < u.len() implies !(97 <= #[trigger] u[j] <= 122) by {
            assert(u[j] == upper_byte(s[j]));
        }
    }
    if !(pos < 1 || pos + 7 > s.len()) {
        let h = s.subrange(0, pos);
        let hu = u.subrange(0, pos);
        assert(hu =~= upper(h));
        assert(printable(hu) == printable(h)) by {
            if printable(h) {
                assert forall|j: int| 0 <= j < hu.len() implies 33 <= #[trigger] hu[j] <= 126 by {
                    assert(hu[j] == upper_byte(h[j]));
                    assert(33 <= h[j] <= 126);
                }
            }
            if printable(hu) {
                assert forall|j: int| 0 <= j < h.len() implies 33 <= #[trigger] h[j] <= 126 by {
                    assert(hu[j] == upper_byte(h[j]));
                    assert(33 <= hu[j] <= 126);
                }
            }
        }
        assert(lower(hu) =~= lower(h));
        assert(expansion(hu) == expansion(h));
        assert(lower(u.subrange(pos + 1, u.len() as int)) =~= lower(
            s.subrange(pos + 1, s.len() as int),
        ));
        assert(data_symbols(u) == data_symbols(s));
    }
}

/// Length limit: a non-empty payload under a valid prefix encodes exactly
/// where prefix, separator, payload symbols and checksum fit in 90
/// characters, and the encoding then has that length.
pub proof fn lemma_length_limit(hrp: Seq<u8>, data: Seq<u8>)
    requires
        hrp.len() >= 1,
        printable(hrp),
        single_case(hrp),
        data.len() >= 1,
    ensures
        encode_spec(hrp, data) is Some <==> hrp.len() + padded_len(data.len(), 8, 5) + 7 <= 90,
        match encode_spec(hrp, data) {
            Some(e) => e.len() == hrp.len() + padded_len(data.len(), 8, 5) + 7,
            None => true,
        },
{
    lemma_regroup_round_trip(data);
    let syms = regroup(data, 8, 5, true)->Some_0;
    assert(syms.len() >= 1) by {
        vstd::arithmetic::div_mod::lemma_fundamental_div_mod((data.len() * 8 + 4) as int, 5);
    }
    lemma_checksum_valid(hrp, syms);
}

/// Padding is checked after the checksum: a string that passes every other
/// check, the checksum included, still fails where its payload symbols
/// leave non-zero or too many padding bits.
pub proof fn lemma_padding_rejected(s: Seq<u8>)
    requires
        s.len() <= 90,
        single_case(s),
        1 <= separator_of(s),
        separator_of(s) + 7 <= s.len(),
        printable(s.subrange(0, separator_of(s))),
        in_alphabet(lower(s.subrange(separator_of(s) + 1, s.len() as int))),
        checksum_valid(s.subrange(0, separator_of(s)), data_symbols(s)),
        regroup(data_symbols(s).subrange(0, data_symbols(s).len() - 6), 5, 8, false) is None,
    ensures
        decode_spec(s) is None,
{
}

/// A separator found at index 1 or later is a `1` before `end`.
proof fn lemma_separator_found(s: Seq<u8>, end: int)
    requires
        end <= s.len(),
    ensures
        last_separator(s, end) >= 1 ==> s[last_separator(s, end)] == 49 && last_separator(s, end)
            < end,
        last_separator(s, end) >= 0,
    decreases end,
{
    if end > 0 && s[end - 1] != 49 {
        lemma_separator_found(s, end - 1);
    }
}

/// A changed data character is detected: in a string that decodes, putting
/// in place of one character after the separator any other character that
/// is not `1` and differs from it beyond case makes decoding fail.
pub proof fn lemma_data_change_detected(s: Seq<u8>, i: int, c: u8)
    requires
        decode_spec(s) is Some,
        separator_of(s) < i < s.len(),
        c != 49,
        lower_byte(c) != lower_byte(s[i]),
    ensures
        decode_spec(s.update(i, c)) is None,
{
    let t = s.update(i, c);
    let pos = separator_of(s);
    let len = s.len() as int;
    lemma_separator_found(s, len - 1);
    let tail = lower(s.subrange(pos + 1, len));
    assert forall|j: int| pos < j < len implies #[trigger] s[j] != 49 by {
        assert(tail[j - pos - 1] == lower_byte(s[j]));
        assert(char_code(tail[j - pos - 1]) < 32);
    }
    if single_case(t) {
        lemma_separator_at(t, pos, len - 1);
        assert(separator_of(t) == pos);
        assert(t.subrange(0, pos) =~= s.subrange(0, pos));
        let tail2 = lower(t.subrange(pos + 1, len));
        let q = i - pos - 1;
        assert(tail2 =~= tail.update(q, lower_byte(c)));
        if in_alphabet(tail2) {
            let x = data_symbols(s);
            let y = data_symbols(t);
            assert(char_code(tail2[q]) < 32);
            assert(char_code(tail[q]) < 32);
            lemma_char_code(tail2[q]);
            lemma_char_code(tail[q]);
            assert(x[q] != y[q]);
            let h = expansion(s.subrange(0, pos));
            let hl = h.len() as int;
            assert forall|j: int| 0 <= j < (h + x).len() && j != hl + q implies #[trigger] (h
                + x)[j] == (h + y)[j] by {
                if j >= hl {
                    assert(x[j - hl] == y[j - hl]);
                }
            }
            lemma_single_change(h + x, h + y, hl + q);
        }
    }
}

/// A changed prefix character is detected where the change stays within
/// one expansion symbol: in a string that decodes, putting in place of one
/// prefix character another that is not `1`, differs from it beyond case,
/// and agrees with it, once lowercased, in its high 3 bits or in its low 5
/// bits, makes decoding fail.
pub proof fn lemma_prefix_change_detected(s: Seq<u8>, i: int, c: u8)
    requires
        decode_spec(s) is Some,
        0 <= i < separator_of(s),
        c != 49,
        lower_byte(c) != lower_byte(s[i]),
        (lower_byte(c) >> 5u8) == (lower_byte(s[i]) >> 5u8) || (lower_byte(c) & 31u8) == (
        lower_byte(s[i]) & 31u8),
    ensures
        decode_spec(s.update(i, c)) is None,
{
    let t = s.update(i, c);
    let pos = separator_of(s);
    let len = s.len() as int;
    lemma_separator_found(s, len - 1);
    let tail = lower(s.subrange(pos + 1, len));
    assert forall|j: int| pos < j < len implies #[trigger] s[j] != 49 by {
        assert(tail[j - pos - 1] == lower_byte(s[j]));
        assert(char_code(tail[j - pos - 1]) < 32);
    }
    if single_case(t) {
        lemma_separator_at(t, pos, len - 1);
        assert(separator_of(t) == pos);
        let h = s.subrange(0, pos);
        let h2 = t.subrange(0, pos);
        assert(h2 =~= h.update(i, c));
        assert(lower(t.subrange(pos + 1, len)) =~= tail);
        let x = data_symbols(s);
        assert(data_symbols(t) == x);
        let a = lower_byte(c);
        let b = lower_byte(s[i]);
        let e1 = expansion(h);
        let e2 = expansion(h2);
        let k = pos;
        assert(e1.len() == e2.len() && e1.len() == 2 * k + 1);
        assert((a >> 5u8) == (b >> 5u8) && (a & 31u8) == (b & 31u8) ==> a == b) by (bit_vector);
        let q = if (a >> 5u8) == (b >> 5u8) {
            k + 1 + i
        } else {
            i
        };
        assert(e1[q] != e2[q]);
        assert forall|j: int| 0 <= j < (e1 + x).len() && j != q implies #[trigger] (e1 + x)[j]
            == (e2 + x)[j] by {
            if j < k {
                assert(e1[j] == lower_byte(h[j]) >> 5u8);
                assert(e2[j] == lower_byte(h2[j]) >> 5u8);
            } else if k < j < 2 * k + 1 {
                assert(e1[j] == lower_byte(h[j - k - 1]) & 31u8);
                assert(e2[j] == lower_byte(h2[j - k - 1]) & 31u8);
            }
        }
        lemma_single_change(e1 + x, e2 + x, q);
    }
}

/// Appends to `out` the characters that spell `syms`.
fn push_chars(out: &mut Vec<u8>, syms: &Vec<u8>)
    requires
        forall|i: int| 0 <= i < syms.len() ==> #[trigger] syms@[i] < 32,
    ensures
        final(out)@ == old(out)@ + chars(syms@),
{
    let ghost start = out@;
    let mut i: usize = 0;
    while i < syms.len()
        invariant
            i <= syms.len(),
            forall|k: int| 0 <= k < syms.len() ==> #[trigger] syms@[k] < 32,
            out@ =~= start + chars(syms@).take(i as int),
        decreases syms.len() - i,
    {
        out.push(char_of(syms[i]));
        i += 1;
    }
    assert(chars(syms@).take(syms.len() as int) =~= chars(syms@));
}

/// Encodes `data` under prefix `hrp`; empty where the input is refused.
pub fn encode(hrp: &Vec<u8>, data: &Vec<u8>) -> (r: Vec<u8>)
    ensures
        match encode_spec(hrp@, data@) {
            Some(e) => r@ == e,
            None => r@.len() == 0,
        },
{
    let values: Vec<u8> = match convert_bits(data, 8, 5, true) {
        Some(v) => v,
        None => {
            return Vec::new();
        },
    };
    if values.len() == 0 {
        return Vec::new();
    }
    if hrp.len() > MAX_LEN || values.len() > MAX_LEN || hrp.len() + values.len() + 7 > MAX_LEN {
        return Vec::new();
    }
    if hrp.len() < 1 {
        return Vec::new();
    }
    if !within_range(hrp, 33, 126) {
        return Vec::new();
    }
    let lower_only: bool = avoids_range(hrp, 65, 90);
    let upper_only: bool = avoids_range(hrp, 97, 122);
    if !lower_only && !upper_only {
        return Vec::new();
    }
    proof {
        vstd::arithmetic::power2::lemma2_to64();
        crate::bits::lemma_groups_value(
            crate::bits::stream_value(data@, 8) * vstd::arithmetic::power2::pow2(
                (crate::bits::padded_len(data@.len(), 8, 5) * 5 - data@.len() * 8) as nat,
            ),
            5,
            crate::bits::padded_len(data@.len(), 8, 5),
        );
    }
    let mut out: Vec<u8> = to_lower(hrp);
    out.push(SEPARATOR);
    push_chars(&mut out, &values);
    let check: Vec<u8> = create_checksum(hrp, &values);
    proof {
        crate::checksum::lemma_checksum_valid(hrp@, values@);
    }
    push_chars(&mut out, &check);
    if lower_only {
        out
    } else {
        to_upper(&out)
    }
}

/// Decodes `s` into its prefix and payload; both empty where `s` is refused.
/// A refused string never yields a non-empty prefix, so a payload that is
/// legitimately empty stays apart from a failure.
pub fn decode(s: Vec<u8>) -> (r: (Vec<u8>, Vec<u8>))
    ensures
        match decode_spec(s@) {
            Some((h, p)) => r.0@ == h && r.1@ == p && h.len() > 0,
            None => r.0@.len() == 0 && r.1@.len() == 0,
        },
{
    if s.len() > MAX_LEN || s.len() == 0 {
        return (Vec::new(), Vec::new());
    }
    let lower_only: bool = avoids_range(&s, 65, 90);
    let upper_only: bool = avoids_range(&s, 97, 122);
    if !lower_only && !upper_only {
        return (Vec::new(), Vec::new());
    }
    let mut idx: usize = s.len() - 1;
    while idx > 0 && s[idx - 1] != SEPARATOR
        invariant
            idx < s.len(),
            last_separator(s@, idx as int) == separator_of(s@),
        decreases idx,
    {
        idx -= 1;
    }
    let pos: usize = if idx > 0 {
        idx - 1
    } else {
        0
    };
    assert(pos == separator_of(s@));
    if pos < 1 || pos + 7 > s.len() {
        return (Vec::new(), Vec::new());
    }
    let mut hrp: Vec<u8> = Vec::new();
    let mut i: usize = 0;
    while i < pos
        invariant
            pos < s.len(),
            pos == separator_of(s@),
            i <= pos,
            hrp@ =~= s@.subrange(0, i as int),
        decreases pos - i,
    {
        hrp.push(s[i]);
        i += 1;
    }
    if !within_range(&hrp, 33, 126) {
        return (Vec::new(), Vec::new());
    }
    let ghost tail = lower(s@.subrange(pos + 1, s.len() as int));
    let mut data: Vec<u8> = Vec::new();
    let mut j: usize = pos + 1;
    while j < s.len()
        invariant
            pos + 1 <= j <= s.len(),
            pos == separator_of(s@),
            tail == lower(s@.subrange(pos + 1, s.len() as int)),
            data@ =~= symbols(tail).take(j - pos - 1),
            in_alphabet(tail.take(j - pos - 1)),
        decreases s.len() - j,
    {
        let c: u8 = lower_of(s[j]);
        assert(c == tail[j - pos - 1]);
        match code_of(c) {
            Some(v) => {
                data.push(v);
            },
            None => {
                assert(char_code(tail[j - pos - 1]) >= 32);
                assert(!in_alphabet(tail));
                return (Vec::new(), Vec::new());
            },
        }
        j += 1;
        assert(in_alphabet(tail.take(j - pos - 1))) by {
            let t = tail.take(j - pos - 1);
            assert forall|k: int| 0 <= k < t.len() implies #[trigger] char_code(t[k]) < 32 by {
                if k < j - pos - 2 {
                    assert(t[k] == tail.take(j - pos - 2)[k]);
                }
            }
        }
    }
    assert(tail.take(s.len() - pos - 1) =~= tail);
    assert(data@ == data_symbols(s@));
    if !verify_checksum(&hrp, &data) {
        return (Vec::new(), Vec::new());
    }
    let mut payload_syms: Vec<u8> = Vec::new();
    let mut k: usize = 0;
    let n: usize = data.len() - 6;
    while k < n
        invariant
            n == data.len() - 6,
            k <= n,
            payload_syms@ =~= data@.subrange(0, k as int),
        decreases n - k,
    {
        payload_syms.push(data[k]);
        k += 1;
    }
    match convert_bits(&payload_syms, 5, 8, false) {
        Some(p) => (hrp, p),
        None => (Vec::new(), Vec::new()),
    }
}

} // verus!
