use gus_hamming::bitvec::BitVec;
use gus_hamming::proto::{FrameError, GUSProtocol, Length, HEADER_LEN};

#[test]
fn test_gus_protocol() {
    let original_data = BitVec::from_vec(vec![
        true, false, true, false, true, false, true, false, true, true, false, true, false,
    ]);

    let gus = GUSProtocol::new(original_data).unwrap();
    let encoded = gus.clone().encode(None).unwrap();

    let decoded = GUSProtocol::decode(encoded).unwrap().0;

    assert_eq!(gus.protocol_name, decoded.protocol_name);
    assert_eq!(gus.version, decoded.version);
    assert_eq!(gus.data.len(), decoded.data.len());
    assert_eq!(gus.data.into_inner(), decoded.data.into_inner());
}

fn pattern(k: usize) -> Vec<bool> {
    (0..k).map(|i| i % 5 == 1 || i % 2 == 0).collect()
}

#[test]
fn test_frame_round_trip_uncorrupted() {
    for k in 0usize..40 {
        let bits = pattern(k);
        let packet = GUSProtocol::new(BitVec::from_vec(bits.clone())).unwrap();
        let encoded = packet.encode(None).unwrap();
        let (decoded, corrected) = GUSProtocol::decode(encoded).unwrap();
        assert!(!corrected, "length {}", k);
        assert_eq!(decoded.data.to_vec(), bits, "length {}", k);
    }
}

#[test]
fn test_frame_round_trip_corrupted() {
    for k in 1usize..24 {
        let bits = pattern(k);
        let probe = GUSProtocol::new(BitVec::from_vec(bits.clone())).unwrap();
        let n = probe.data.len() + gus_hamming::hamming::HammingCodeBase::calculate_parity_count(k);
        for p in 0..n {
            let packet = GUSProtocol::new(BitVec::from_vec(bits.clone())).unwrap();
            let encoded = packet.encode(Some(p)).unwrap();
            let (decoded, corrected) = GUSProtocol::decode(encoded).unwrap();
            assert!(corrected, "length {} flip {}", k, p);
            assert_eq!(decoded.data.to_vec(), bits, "length {} flip {}", k, p);
        }
    }
}

#[test]
fn test_encode_rejects_out_of_range_corruption() {
    // k = 4 gives a 7-bit codeword, so bit 7 does not exist.
    let packet = GUSProtocol::new(BitVec::from_vec(pattern(4))).unwrap();
    assert_eq!(
        packet.encode(Some(7)).unwrap_err(),
        gus_hamming::hamming::HammingError::UnexpectedOutOfBounds
    );
}

#[test]
fn test_decode_rejects_truncated_header() {
    let err = GUSProtocol::decode(vec![0x47, 0x55, 0x53, 1, 0, 0]).unwrap_err();
    assert_eq!(err, FrameError::TruncatedHeader);
    let empty = GUSProtocol::decode(Vec::new()).unwrap_err();
    assert_eq!(empty, FrameError::TruncatedHeader);
}

#[test]
fn test_decode_rejects_wrong_magic() {
    let mut frame = GUSProtocol::new(BitVec::from_vec(pattern(8)))
        .unwrap()
        .encode(None)
        .unwrap();
    frame[1] = b'X';
    let err = GUSProtocol::decode(frame).unwrap_err();
    assert_eq!(err, FrameError::InvalidMagic);
}

#[test]
fn test_decode_rejects_unsupported_version() {
    let mut frame = GUSProtocol::new(BitVec::from_vec(pattern(8)))
        .unwrap()
        .encode(None)
        .unwrap();
    frame[3] = 2;
    let err = GUSProtocol::decode(frame).unwrap_err();
    assert_eq!(err, FrameError::UnsupportedVersion);
}

#[test]
fn test_decode_rejects_missing_codeword_bytes() {
    let mut frame = GUSProtocol::new(BitVec::from_vec(pattern(20)))
        .unwrap()
        .encode(None)
        .unwrap();
    // Drop the last codeword byte: fewer bytes remain than declared.
    frame.pop();
    let err = GUSProtocol::decode(frame).unwrap_err();
    assert_eq!(err, FrameError::DataLengthMismatch);
}

#[test]
fn test_decode_rejects_oversized_bit_length() {
    let mut frame = GUSProtocol::new(BitVec::from_vec(pattern(8)))
        .unwrap()
        .encode(None)
        .unwrap();
    // Claim more bits than the declared bytes can hold.
    frame[12] = 0xFF;
    let err = GUSProtocol::decode(frame).unwrap_err();
    assert_eq!(err, FrameError::DataLengthMismatch);
}

#[test]
fn test_length_round_trip() {
    let length = Length {
        data_length: 0x1122_3344_5566_7788,
        bits_length: 42,
    };
    let bytes = length.to_le_bytes();
    assert_eq!(bytes.len(), 16);
    assert_eq!(bytes[0], 0x88);
    assert_eq!(bytes[7], 0x11);
    assert_eq!(bytes[8], 42);
    let back = Length::from_le_bytes(&bytes).unwrap();
    assert_eq!(back.data_length, length.data_length);
    assert_eq!(back.bits_length, length.bits_length);
    assert!(Length::from_le_bytes(&bytes[0..15]).is_err());
}

#[test]
fn test_frame_layout() {
    // Empty payload: an empty codeword behind a bare header.
    let frame = GUSProtocol::new(BitVec::new()).unwrap().encode(None).unwrap();
    assert_eq!(frame.len(), HEADER_LEN);
    assert_eq!(&frame[0..3], b"GUS");
    assert_eq!(frame[3], 1);
    assert!(frame[4..20].iter().all(|&b| b == 0));
    let (decoded, corrected) = GUSProtocol::decode(frame).unwrap();
    assert!(!corrected);
    assert_eq!(decoded.data.len(), 0);
}
