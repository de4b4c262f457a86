//! ASCII case folding and byte-range checks on byte strings.
use vstd::prelude::*;

verus! {

/// The byte with an uppercase ASCII letter folded to lowercase.
pub open spec fn lower_byte(b: u8) -> u8 {
    if 65 <= b <= 90 {
        (b + 32) as u8
    } else {
        b
    }
}

/// The byte with a lowercase ASCII letter folded to uppercase.
pub open spec fn upper_byte(b: u8) -> u8 {
    if 97 <= b <= 122 {
        (b - 32) as u8
    } else {
        b
    }
}

pub open spec fn lower(s: Seq<u8>) -> Seq<u8> {
    s.map_values(|b: u8| lower_byte(b))
}

pub open spec fn upper(s: Seq<u8>) -> Seq<u8> {
    s.map_values(|b: u8| upper_byte(b))
}

/// No byte of `s` lies in `lo..=hi`.
pub open spec fn avoids(s: Seq<u8>, lo: u8, hi: u8) -> bool {
    forall|i: int| 0 <= i < s.len() ==> !(lo <= #[trigger] s[i] <= hi)
}

/// Every byte of `s` lies in `lo..=hi`.
pub open spec fn within(s: Seq<u8>, lo: u8, hi: u8) -> bool {
    forall|i: int| 0 <= i < s.len() ==> lo <= #[trigger] s[i] <= hi
}

/// `s` holds no uppercase letter.
pub open spec fn no_upper(s: Seq<u8>) -> bool {
    avoids(s, 65, 90)
}

/// `s` holds no lowercase letter.
pub open spec fn no_lower(s: Seq<u8>) -> bool {
    avoids(s, 97, 122)
}

/// `s` does not mix the two cases.
pub open spec fn single_case(s: Seq<u8>) -> bool {
    no_upper(s) || no_lower(s)
}

/// Every byte of `s` is printable ASCII other than space.
pub open spec fn printable(s: Seq<u8>) -> bool {
    within(s, 33, 126)
}

pub fn lower_of(b: u8) -> (r: u8)
    ensures
        r == lower_byte(b),
{
    if 65 <= b && b <= 90 {
        b + 32
    } else {
        b
    }
}

pub fn upper_of(b: u8) -> (r: u8)
    ensures
        r == upper_byte(b),
{
    if 97 <= b && b <= 122 {
        b - 32
    } else {
        b
    }
}

/// A copy of `s` with its uppercase letters folded to lowercase.
pub fn to_lower(s: &Vec<u8>) -> (r: Vec<u8>)
    ensures
        r@ == lower(s@),
{
    let mut r: Vec<u8> = Vec::new();
    let mut i: usize = 0;
    while i < s.len()
        invariant
            i <= s.len(),
            r@ =~= lower(s@).take(i as int),
        decreases s.len() - i,
    {
        r.push(lower_of(s[i]));
        i += 1;
    }
    assert(lower(s@).take(s.len() as int) =~= lower(s@));
    r
}

/// A copy of `s` with its lowercase letters folded to uppercase.
pub fn to_upper(s: &Vec<u8>) -> (r: Vec<u8>)
    ensures
        r@ == upper(s@),
{
    let mut r: Vec<u8> = Vec::new();
    let mut i: usize = 0;
    while i < s.len()
        invariant
            i <= s.len(),
            r@ =~= upper(s@).take(i as int),
        decreases s.len() - i,
    {
        r.push(upper_of(s[i]));
        i += 1;
    }
    assert(upper(s@).take(s.len() as int) =~= upper(s@));
    r
}

/// Whether no byte of `s` lies in `lo..=hi`.
pub fn avoids_range(s: &Vec<u8>, lo: u8, hi: u8) -> (r: bool)
    ensures
        r == avoids(s@, lo, hi),
{
    let mut i: usize = 0;
    while i < s.len()
        invariant
            i <= s.len(),
            forall|k: int| 0 <= k < i ==> !(lo <= #[trigger] s@[k] <= hi),
        decreases s.len() - i,
    {
        if lo <= s[i] && s[i] <= hi {
            return false;
        }
        i += 1;
    }
    true
}

/// Whether every byte of `s` lies in `lo..=hi`.
pub fn within_range(s: &Vec<u8>, lo: u8, hi: u8) -> (r: bool)
    ensures
        r == within(s@, lo, hi),
{
    let mut i: usize = 0;
    while i < s.len()
        invariant
            i <= s.len(),
            forall|k: int| 0 <= k < i ==> lo <= #[trigger] s@[k] <= hi,
        decreases s.len() - i,
    {
        if s[i] < lo || s[i] > hi {
            return false;
        }
        i += 1;
    }
    true
}

} // verus!
