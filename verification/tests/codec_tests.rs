use access_control::codec::{decode_entry, decode_matrix, encode_entry, encode_matrix};
use access_control::matrix::{Matrix, MatrixEntry};
use access_control::Error;

#[test]
fn entry_encodes_little_endian_fields() {
    let e = MatrixEntry::new(1, 0x01020304);
    let bytes = encode_entry(&e);
    assert_eq!(bytes, vec![1, 0, 0, 0, 4, 3, 2, 1]);
}

#[test]
fn entry_round_trip() {
    let e = MatrixEntry::new(7, 3);
    let bytes = encode_entry(&e);
    let back = decode_entry(&bytes).unwrap();
    assert_eq!(back, e);
}

#[test]
fn entry_round_trip_extremes() {
    for &(s, p) in &[(0u32, 0u32), (u32::MAX, 0), (0, u32::MAX), (u32::MAX, u32::MAX)] {
        let e = MatrixEntry::new(s, p);
        let back = decode_entry(&encode_entry(&e)).unwrap();
        assert_eq!(back, e);
    }
}

#[test]
fn entry_rejects_wrong_length() {
    assert_eq!(decode_entry(&vec![1, 2, 3]), Err(Error::MalformedEncoding));
    assert_eq!(decode_entry(&vec![0; 9]), Err(Error::MalformedEncoding));
    assert_eq!(decode_entry(&Vec::new()), Err(Error::MalformedEncoding));
}

#[test]
fn empty_matrix_encoding() {
    let m = Matrix::new(Vec::new());
    let bytes = encode_matrix(&m);
    assert_eq!(bytes, vec![8, 0, 0, 0, 0, 0, 0, 0]);
}

#[test]
fn one_entry_matrix_encoding() {
    let m = Matrix::new(vec![MatrixEntry::new(7, 3)]);
    let bytes = encode_matrix(&m);
    assert_eq!(bytes, vec![8, 0, 0, 0, 8, 0, 0, 0, 7, 0, 0, 0, 3, 0, 0, 0]);
}

#[test]
fn matrix_round_trip() {
    let m = Matrix::new(vec![MatrixEntry::new(7, 3), MatrixEntry::new(9, 1)]);
    let bytes = encode_matrix(&m);
    let back = decode_matrix(&bytes).unwrap();
    assert_eq!(back.values, m.values);
}

#[test]
fn matrix_rejects_truncated_collection() {
    // Header declaring two entries' worth of bytes with only one present.
    let mut bytes = vec![8, 0, 0, 0, 16, 0, 0, 0];
    bytes.extend_from_slice(&[7, 0, 0, 0, 3, 0, 0, 0]);
    assert!(matches!(decode_matrix(&bytes), Err(Error::MalformedEncoding)));
}

#[test]
fn matrix_rejects_short_buffer() {
    assert!(matches!(decode_matrix(&vec![8, 0, 0]), Err(Error::MalformedEncoding)));
    assert!(matches!(decode_matrix(&Vec::new()), Err(Error::MalformedEncoding)));
}

#[test]
fn matrix_rejects_bad_offset() {
    // Offset field pointing past the collection start.
    let bytes = vec![9, 0, 0, 0, 0, 0, 0, 0];
    assert!(matches!(decode_matrix(&bytes), Err(Error::MalformedEncoding)));
}

#[test]
fn matrix_rejects_ragged_byte_count() {
    // Byte count not a multiple of the entry size.
    let mut bytes = vec![8, 0, 0, 0, 4, 0, 0, 0];
    bytes.extend_from_slice(&[7, 0, 0, 0]);
    assert!(matches!(decode_matrix(&bytes), Err(Error::MalformedEncoding)));
}

#[test]
fn reencoding_a_decoded_matrix_is_identity() {
    let bytes = vec![8, 0, 0, 0, 8, 0, 0, 0, 7, 0, 0, 0, 3, 0, 0, 0];
    let m = decode_matrix(&bytes).unwrap();
    assert_eq!(encode_matrix(&m), bytes);
}
