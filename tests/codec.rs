use bech32::{decode, encode};

fn bytes(s: &str) -> Vec<u8> {
    s.as_bytes().to_vec()
}

fn check_encode_decode(input_hrp: &str, input_data: &str, want_encoded: &str) {
    let got_encoded = encode(&bytes(input_hrp), &bytes(input_data));
    assert_eq!(bytes(want_encoded), got_encoded);
    let (got_hrp, got_decoded) = decode(got_encoded);
    assert_eq!(got_hrp, bytes(input_hrp));
    assert_eq!(got_decoded, bytes(input_data));
}

#[test]
fn test_all() {
    let testcases: [[&str; 3]; 2] = [
        ["A12", "UEL5L", "A12124Z5CD2V4GNT7N"],
        ["aaa", "you look beautiful today", "aaa109hh2grvdahkkgrzv4sh2arfve6kcgr5dajxz7g2q3d2y"],
    ];
    for testcase in testcases {
        check_encode_decode(testcase[0], testcase[1], testcase[2])
    }
}

#[test]
fn encode_rejects_empty_prefix() {
    assert_eq!(encode(&bytes(""), &bytes("x")), Vec::<u8>::new());
}

#[test]
fn encode_rejects_empty_payload() {
    assert_eq!(encode(&bytes("a"), &Vec::new()), Vec::<u8>::new());
}

#[test]
fn encode_rejects_mixed_case_prefix() {
    assert_eq!(encode(&bytes("Ab"), &bytes("x")), Vec::<u8>::new());
}

#[test]
fn encode_rejects_prefix_byte_out_of_range() {
    assert_eq!(encode(&bytes("a b"), &bytes("x")), Vec::<u8>::new());
    assert_eq!(encode(&vec![97, 127], &bytes("x")), Vec::<u8>::new());
}

#[test]
fn encode_length_boundary() {
    let data = vec![0u8; 5];
    let at_limit = "a".repeat(75);
    let encoded = encode(&bytes(&at_limit), &data);
    assert_eq!(encoded.len(), 90);
    let (hrp, payload) = decode(encoded);
    assert_eq!(hrp, bytes(&at_limit));
    assert_eq!(payload, data);
    let over_limit = "a".repeat(76);
    assert_eq!(encode(&bytes(&over_limit), &data), Vec::<u8>::new());
}

#[test]
fn encode_two_bytes() {
    assert_eq!(encode(&bytes("abc"), &vec![0x00, 0xff]), bytes("abc1qrls2lpcdk"));
}

#[test]
fn decode_without_separator() {
    assert_eq!(decode(bytes("no-separator-here")), (Vec::new(), Vec::new()));
}

#[test]
fn decode_empty_string() {
    assert_eq!(decode(Vec::new()), (Vec::new(), Vec::new()));
}

#[test]
fn decode_empty_payload_keeps_prefix() {
    assert_eq!(decode(bytes("a12uel5l")), (bytes("a"), Vec::new()));
}

#[test]
fn decode_separator_first() {
    assert_eq!(decode(bytes("12uel5l")), (Vec::new(), Vec::new()));
}

#[test]
fn decode_too_long() {
    let mut s = bytes(&"a".repeat(76));
    s.extend(bytes("1qqqqqqqqqqqqqq"));
    assert_eq!(s.len(), 91);
    assert_eq!(decode(s), (Vec::new(), Vec::new()));
}

#[test]
fn decode_mixed_case() {
    assert_eq!(decode(bytes("A12124z5CD2V4GNT7N")), (Vec::new(), Vec::new()));
}

#[test]
fn decode_character_outside_alphabet() {
    assert_eq!(decode(bytes("a12uel5b")), (Vec::new(), Vec::new()));
}

#[test]
fn decode_bad_checksum() {
    assert_eq!(decode(bytes("a12uel5m")), (Vec::new(), Vec::new()));
}

#[test]
fn decode_prefix_byte_out_of_range() {
    let mut s = vec![0x7fu8];
    s.extend(bytes("12uel5l"));
    assert_eq!(decode(s), (Vec::new(), Vec::new()));
}

#[test]
fn decode_rejects_nonzero_padding() {
    assert_eq!(decode(bytes("a1llttal5m")), (Vec::new(), Vec::new()));
}

#[test]
fn decode_rejects_excess_padding() {
    assert_eq!(decode(bytes("a1rlm0daw")), (Vec::new(), Vec::new()));
}

#[test]
fn decode_is_case_invariant() {
    let lower = bytes("aaa109hh2grvdahkkgrzv4sh2arfve6kcgr5dajxz7g2q3d2y");
    let upper = lower.to_ascii_uppercase();
    let (lh, lp) = decode(lower);
    let (uh, up) = decode(upper);
    assert_eq!(lp, up);
    assert_eq!(lh.to_ascii_uppercase(), uh);
    let digits = bytes("1234124Z5CD2V5ZVMCD");
    let (dh, dp) = decode(digits.clone());
    assert_eq!((dh.clone(), dp.clone()), (bytes("1234"), bytes("UEL5L")));
    let (dh2, dp2) = decode(digits.to_ascii_lowercase());
    assert_eq!(dh, dh2);
    assert_eq!(dp, dp2);
}

#[test]
fn round_trip_keeps_prefix_case() {
    let data = bytes("payload");
    for hrp in ["bc", "BC", "x1y", "~!"] {
        let encoded = encode(&bytes(hrp), &data);
        assert!(!encoded.is_empty());
        assert_eq!(decode(encoded), (bytes(hrp), data.clone()));
    }
}

#[test]
fn single_character_change_is_detected() {
    let valid = bytes("aaa109hh2grvdahkkgrzv4sh2arfve6kcgr5dajxz7g2q3d2y");
    let alphabet = bytes("qpzry9x8gf2tvdw0s3jn54khce6mua7l1");
    for i in 0..valid.len() {
        for &c in alphabet.iter() {
            if c == valid[i] {
                continue;
            }
            let mut changed = valid.clone();
            changed[i] = c;
            assert_eq!(decode(changed), (Vec::new(), Vec::new()), "position {}", i);
        }
    }
}

#[test]
fn prefix_character_change_is_detected() {
    let valid = bytes("aaa109hh2grvdahkkgrzv4sh2arfve6kcgr5dajxz7g2q3d2y");
    for i in 0..3 {
        for c in 33u8..127 {
            if c == b'1' || c.to_ascii_lowercase() == valid[i] {
                continue;
            }
            let mut changed = valid.clone();
            changed[i] = c;
            assert_eq!(decode(changed), (Vec::new(), Vec::new()), "position {}", i);
        }
    }
}
