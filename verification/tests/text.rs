use gus_hamming::convert::{
    bits_to_bytestring, bits_to_string, bytestring_to_bitvec, string_to_bits, ConvertError,
};

#[test]
fn test_string_to_bits_expands_utf8_bytes() {
    // 'A' = 0x41 = 0100 0001, 'B' = 0x42 = 0100 0010.
    let bits = string_to_bits("AB");
    assert_eq!(
        bits,
        vec![
            false, true, false, false, false, false, false, true, //
            false, true, false, false, false, false, true, false,
        ]
    );
    assert_eq!(string_to_bits(""), Vec::<bool>::new());
}

#[test]
fn test_string_round_trip() {
    for text in ["", "A", "hello world", "grüße", "0101"] {
        let bits = string_to_bits(text);
        assert_eq!(bits_to_string(&bits), text, "text {:?}", text);
    }
}

#[test]
fn test_bits_to_string_invalid_utf8() {
    // 0xFF is never valid UTF-8.
    let bits = vec![true; 8];
    assert_eq!(bits_to_string(&bits), "Invalid UTF-8");
}

#[test]
fn test_bytestring_to_bitvec_reads_digits() {
    assert_eq!(
        bytestring_to_bitvec("0101").unwrap(),
        vec![false, true, false, true]
    );
    assert_eq!(bytestring_to_bitvec("").unwrap(), Vec::<bool>::new());
    assert_eq!(
        bytestring_to_bitvec("0121").unwrap_err(),
        ConvertError::InvalidDigit
    );
    assert_eq!(
        bytestring_to_bitvec("abc").unwrap_err(),
        ConvertError::InvalidDigit
    );
}

#[test]
fn test_bits_to_bytestring_writes_digits() {
    assert_eq!(bits_to_bytestring(&[true, false, true, true]), "1011");
    assert_eq!(bits_to_bytestring(&[]), "");
    let digits = bits_to_bytestring(&[false, true]);
    assert_eq!(bytestring_to_bitvec(&digits).unwrap(), vec![false, true]);
}
