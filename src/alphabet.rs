//! The 32-character alphabet that spells 5-bit symbols:
//! `qpzry9x8gf2tvdw0s3jn54khce6mua7l`, where a character's index is the
//! symbol it spells.
use vstd::prelude::*;

verus! {

/// The character that spells symbol `v` (`v < 32`).
pub open spec fn symbol_char(v: u8) -> u8 {
    if v == 0 {
        113
    } else if v == 1 {
        112
    } else if v == 2 {
        122
    } else if v == 3 {
        114
    } else if v == 4 {
        121
    } else if v == 5 {
        57
    } else if v == 6 {
        120
    } else if v == 7 {
        56
    } else if v == 8 {
        103
    } else if v == 9 {
        102
    } else if v == 10 {
        50
    } else if v == 11 {
        116
    } else if v == 12 {
        118
    } else if v == 13 {
        100
    } else if v == 14 {
        119
    } else if v == 15 {
        48
    } else if v == 16 {
        115
    } else if v == 17 {
        51
    } else if v == 18 {
        106
    } else if v == 19 {
        110
    } else if v == 20 {
        53
    } else if v == 21 {
        52
    } else if v == 22 {
        107
    } else if v == 23 {
        104
    } else if v == 24 {
        99
    } else if v == 25 {
        101
    } else if v == 26 {
        54
    } else if v == 27 {
        109
    } else if v == 28 {
        117
    } else if v == 29 {
        97
    } else if v == 30 {
        55
    } else {
        108
    }
}

/// The symbol that character `c` spells, or 32 where `c` is not in the
/// alphabet.
pub open spec fn char_code(c: u8) -> u8 {
    if c == 48 {
        15
    } else if c == 50 {
        10
    } else if c == 51 {
        17
    } else if c == 52 {
        21
    } else if c == 53 {
        20
    } else if c == 54 {
        26
    } else if c == 55 {
        30
    } else if c == 56 {
        7
    } else if c == 57 {
        5
    } else if c == 97 {
        29
    } else if c == 99 {
        24
    } else if c == 100 {
        13
    } else if c == 101 {
        25
    } else if c == 102 {
        9
    } else if c == 103 {
        8
    } else if c == 104 {
        23
    } else if c == 106 {
        18
    } else if c == 107 {
        22
    } else if c == 108 {
        31
    } else if c == 109 {
        27
    } else if c == 110 {
        19
    } else if c == 112 {
        1
    } else if c == 113 {
        0
    } else if c == 114 {
        3
    } else if c == 115 {
        16
    } else if c == 116 {
        11
    } else if c == 117 {
        28
    } else if c == 118 {
        12
    } else if c == 119 {
        14
    } else if c == 120 {
        6
    } else if c == 121 {
        4
    } else if c == 122 {
        2
    } else {
        32
    }
}

/// The characters that spell `syms`.
pub open spec fn chars(syms: Seq<u8>) -> Seq<u8> {
    syms.map_values(|v: u8| symbol_char(v))
}

/// The symbols that the characters of `t` spell (each `< 32` where
/// `in_alphabet(t)`).
pub open spec fn symbols(t: Seq<u8>) -> Seq<u8> {
    t.map_values(|c: u8| char_code(c))
}

pub open spec fn in_alphabet(t: Seq<u8>) -> bool {
    forall|i: int| 0 <= i < t.len() ==> #[trigger] char_code(t[i]) < 32
}

/// Each symbol is spelled by one character, and that character maps back to
/// it; the character is a digit or a lowercase letter, and never `1`.
pub proof fn lemma_symbol_char(v: u8)
    requires
        v < 32,
    ensures
        char_code(symbol_char(v)) == v,
        symbol_char(v) != 49,
        48 <= symbol_char(v) <= 57 || 97 <= symbol_char(v) <= 122,
{
}

/// A character that is in the alphabet spells its symbol.
pub proof fn lemma_char_code(c: u8)
    requires
        char_code(c) < 32,
    ensures
        symbol_char(char_code(c)) == c,
{
}

/// The character that spells symbol `v`.
pub fn char_of(v: u8) -> (c: u8)
    requires
        v < 32,
    ensures
        c == symbol_char(v),
{
    match v {
        0 => 113,
        1 => 112,
        2 => 122,
        3 => 114,
        4 => 121,
        5 => 57,
        6 => 120,
        7 => 56,
        8 => 103,
        9 => 102,
        10 => 50,
        11 => 116,
        12 => 118,
        13 => 100,
        14 => 119,
        15 => 48,
        16 => 115,
        17 => 51,
        18 => 106,
        19 => 110,
        20 => 53,
        21 => 52,
        22 => 107,
        23 => 104,
        24 => 99,
        25 => 101,
        26 => 54,
        27 => 109,
        28 => 117,
        29 => 97,
        30 => 55,
        _ => 108,
    }
}

/// The symbol that character `c` spells, if it is in the alphabet.
pub fn code_of(c: u8) -> (r: Option<u8>)
    ensures
        match r {
            Some(v) => char_code(c) == v && v < 32,
            None => char_code(c) == 32,
        },
{
    match c {
        48 => Some(15),
        50 => Some(10),
        51 => Some(17),
        52 => Some(21),
        53 => Some(20),
        54 => Some(26),
        55 => Some(30),
        56 => Some(7),
        57 => Some(5),
        97 => Some(29),
        99 => Some(24),
        100 => Some(13),
        101 => Some(25),
        102 => Some(9),
        103 => Some(8),
        104 => Some(23),
        106 => Some(18),
        107 => Some(22),
        108 => Some(31),
        109 => Some(27),
        110 => Some(19),
        112 => Some(1),
        113 => Some(0),
        114 => Some(3),
        115 => Some(16),
        116 => Some(11),
        117 => Some(28),
        118 => Some(12),
        119 => Some(14),
        120 => Some(6),
        121 => Some(4),
        122 => Some(2),
        _ => None,
    }
}

} // verus!
