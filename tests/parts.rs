use bech32::bits::convert_bits;
use bech32::checksum::{create_checksum, hrp_expand, polymod, verify_checksum};

#[test]
fn regroup_bytes_with_padding() {
    assert_eq!(convert_bits(&vec![0x00, 0xff], 8, 5, true), Some(vec![0, 3, 31, 16]));
    assert_eq!(convert_bits(&vec![1, 2, 3], 8, 5, true), Some(vec![0, 4, 1, 0, 6]));
    assert_eq!(convert_bits(&Vec::new(), 8, 5, true), Some(Vec::new()));
}

#[test]
fn regroup_symbols_without_padding() {
    assert_eq!(convert_bits(&vec![31; 8], 5, 8, false), Some(vec![255; 5]));
    assert_eq!(convert_bits(&vec![0, 28], 5, 8, false), Some(vec![7]));
    assert_eq!(convert_bits(&Vec::new(), 5, 8, false), Some(Vec::new()));
}

#[test]
fn regroup_rejects_value_out_of_range() {
    assert_eq!(convert_bits(&vec![0, 32], 5, 8, false), None);
    assert_eq!(convert_bits(&vec![32], 5, 8, true), None);
}

#[test]
fn regroup_rejects_nonzero_padding() {
    assert_eq!(convert_bits(&vec![0, 31], 5, 8, false), None);
}

#[test]
fn regroup_rejects_excess_padding() {
    assert_eq!(convert_bits(&vec![0, 31, 28], 5, 8, false), None);
    assert_eq!(convert_bits(&vec![3], 5, 8, false), None);
}

#[test]
fn regroup_round_trip() {
    let data: Vec<u8> = (0u8..=40).map(|b| b.wrapping_mul(37)).collect();
    let syms = convert_bits(&data, 8, 5, true).unwrap();
    assert_eq!(syms.len(), (data.len() * 8 + 4) / 5);
    assert_eq!(convert_bits(&syms, 5, 8, false), Some(data));
}

#[test]
fn prefix_expansion() {
    assert_eq!(hrp_expand(&b"aB!".to_vec()), vec![3, 3, 1, 0, 1, 2, 1]);
}

#[test]
fn reduction_values() {
    assert_eq!(polymod(&Vec::new()), 1);
    assert_eq!(polymod(&vec![1, 2, 3]), 33859);
    assert_eq!(polymod(&hrp_expand(&b"a".to_vec())), 35841);
}

#[test]
fn checksum_ignores_prefix_case() {
    assert_eq!(create_checksum(&b"a".to_vec(), &Vec::new()), vec![10, 28, 25, 31, 20, 31]);
    assert_eq!(create_checksum(&b"A".to_vec(), &Vec::new()), vec![10, 28, 25, 31, 20, 31]);
}

#[test]
fn checksum_verifies() {
    let hrp = b"abc".to_vec();
    let payload = vec![0, 3, 31, 16];
    let mut data = payload.clone();
    data.extend(create_checksum(&hrp, &payload));
    assert!(verify_checksum(&hrp, &data));
    assert!(verify_checksum(&b"ABC".to_vec(), &data));
    data[0] = 1;
    assert!(!verify_checksum(&hrp, &data));
}
