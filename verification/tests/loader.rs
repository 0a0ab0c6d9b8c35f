use gap_analysis::loader::{
    harmonize_qrn_from_json, harmonize_raw_bitstream, is_json_file_content, quantity_oz,
    RawBitstreamError,
};

#[test]
fn harmonize_strips_brackets_and_whitespace() {
    assert_eq!(
        harmonize_qrn_from_json("[11011111 10000100 00011001]"),
        "110111111000010000011001"
    );
}

#[test]
fn harmonize_keeps_only_bits() {
    assert_eq!(harmonize_qrn_from_json("1a0b1"), "101");
    assert_eq!(harmonize_qrn_from_json(""), "");
    assert_eq!(harmonize_qrn_from_json("[] \t"), "");
}

#[test]
fn raw_bitstream_accepts_blanks() {
    assert_eq!(
        harmonize_raw_bitstream("1001 0101\n").unwrap(),
        "10010101"
    );
    assert_eq!(harmonize_raw_bitstream("1\t0\r\n1").unwrap(), "101");
}

#[test]
fn raw_bitstream_rejects_foreign_character() {
    match harmonize_raw_bitstream("10x01") {
        Err(RawBitstreamError::InvalidCharacter { character, index }) => {
            assert_eq!(character, 'x');
            assert_eq!(index, 2);
        }
        _ => panic!("expected InvalidCharacter"),
    }
}

#[test]
fn raw_bitstream_rejects_blank_only_input() {
    match harmonize_raw_bitstream(" \n\t") {
        Err(RawBitstreamError::NoBits) => {}
        _ => panic!("expected NoBits"),
    }
    match harmonize_raw_bitstream("") {
        Err(RawBitstreamError::NoBits) => {}
        _ => panic!("expected NoBits"),
    }
}

#[test]
fn json_detection_skips_leading_whitespace() {
    assert!(is_json_file_content("{\"qrn\":\"101\"}"));
    assert!(is_json_file_content("  \t\n{\"qrn\":\"101\"}"));
    assert!(!is_json_file_content("1010"));
    assert!(!is_json_file_content("   1010"));
    assert!(!is_json_file_content(""));
    assert!(!is_json_file_content("  \n "));
}

#[test]
fn quantity_counts_ones_then_zeros() {
    assert_eq!(quantity_oz("100101"), [3, 3]);
    assert_eq!(quantity_oz("[10] 1"), [2, 1]);
    assert_eq!(quantity_oz(""), [0, 0]);
    assert_eq!(quantity_oz("1111"), [4, 0]);
}
