use hash_signed_data::error::HashDataError;
use hash_signed_data::evp::{evp_decode_block, get_b64_decode_len};

#[test]
fn decode_len_counts_groups_and_padding() {
    assert_eq!(get_b64_decode_len(b"QUJD"), Ok((3, 0)));
    assert_eq!(get_b64_decode_len(b"QUI="), Ok((3, 1)));
    assert_eq!(get_b64_decode_len(b"QQ=="), Ok((3, 2)));
    assert_eq!(get_b64_decode_len(b"QUJDQUJD"), Ok((6, 0)));
    assert_eq!(get_b64_decode_len(b""), Err(HashDataError::InvalidEncoding));
    assert_eq!(get_b64_decode_len(b"QUJDQ"), Err(HashDataError::InvalidEncoding));
}

#[test]
fn decode_lengths_follow_padding() {
    assert_eq!(evp_decode_block(b"QUJD").unwrap().len(), 3);
    assert_eq!(evp_decode_block(b"QUI=").unwrap().len(), 2);
    assert_eq!(evp_decode_block(b"QQ==").unwrap().len(), 1);
    assert_eq!(evp_decode_block(b"QUJDQUJDQQ==").unwrap().len(), 7);
}

#[test]
fn decode_known_values() {
    assert_eq!(evp_decode_block(b"QUJD"), Ok(b"ABC".to_vec()));
    assert_eq!(evp_decode_block(b"aGVsbG8gd29ybGQ="), Ok(b"hello world".to_vec()));
    assert_eq!(evp_decode_block(b"+/+/"), Ok(vec![0xfb, 0xff, 0xbf]));
    assert_eq!(evp_decode_block(b"AAAA"), Ok(vec![0, 0, 0]));
}

#[test]
fn decode_rejects_bad_text() {
    assert_eq!(evp_decode_block(b""), Err(HashDataError::InvalidEncoding));
    assert_eq!(evp_decode_block(b"QUJ"), Err(HashDataError::InvalidEncoding));
    assert_eq!(evp_decode_block(b"QU-D"), Err(HashDataError::InvalidEncoding));
    assert_eq!(evp_decode_block(b"Q===") , Err(HashDataError::InvalidEncoding));
    assert_eq!(evp_decode_block(b"QU=A"), Err(HashDataError::InvalidEncoding));
    assert_eq!(evp_decode_block(b"QQ==QUJD"), Err(HashDataError::InvalidEncoding));
}
