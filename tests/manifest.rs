use hash_signed_data::error::HashDataError;
use hash_signed_data::hsd::HashSignedData;

const TWO_RECORDS: &str = "Name: a.img\nsigned-data: QUJD\n\nName: b.img\nsigned-data: QUI=\n\n";

#[test]
fn two_records_decode_and_miss() {
    let h = HashSignedData::parse(TWO_RECORDS).unwrap();
    assert_eq!(h.get_sig_for_file("a.img"), Ok(vec![0x41, 0x42, 0x43]));
    assert_eq!(h.get_sig_for_file("b.img"), Ok(vec![0x41, 0x42]));
    assert_eq!(h.get_sig_for_file("c.img"), Err(HashDataError::NotFound));
}

#[test]
fn empty_text_is_rejected() {
    assert!(matches!(HashSignedData::parse(""), Err(HashDataError::EmptyInput)));
}

#[test]
fn wrong_prefix_is_rejected() {
    let r = HashSignedData::parse("Name: a.img\nsigned-data: QUJD\n\nFile: b.img\nsigned-data: QUI=\n");
    assert!(matches!(r, Err(HashDataError::MalformedRecord(1))));
    let r = HashSignedData::parse("Name: a.img\nsignature: QUJD\n");
    assert!(matches!(r, Err(HashDataError::MalformedRecord(0))));
}

#[test]
fn wrong_line_count_is_rejected() {
    let r = HashSignedData::parse("Name: a.img\n\n");
    assert!(matches!(r, Err(HashDataError::MalformedRecord(0))));
    let r = HashSignedData::parse("Name: a.img\nsigned-data: QUJD\nsigned-data: QUJD\n");
    assert!(matches!(r, Err(HashDataError::MalformedRecord(0))));
}

#[test]
fn blank_pieces_are_skipped() {
    let h = HashSignedData::parse("\n\nName: a.img\nsigned-data: QUJD\n\n\n\n").unwrap();
    assert_eq!(h.get_sig_for_file("a.img"), Ok(vec![0x41, 0x42, 0x43]));
}

#[test]
fn values_are_trimmed() {
    let h = HashSignedData::parse("Name:   a.img  \nsigned-data:\tQUJD \n").unwrap();
    assert_eq!(h.get_sig_for_file("a.img"), Ok(vec![0x41, 0x42, 0x43]));
    assert_eq!(h.get_sig_for_file(" a.img"), Err(HashDataError::NotFound));
}

#[test]
fn first_duplicate_wins() {
    let h = HashSignedData::parse("Name: a.img\nsigned-data: QUJD\n\nName: a.img\nsigned-data: QUI=\n").unwrap();
    assert_eq!(h.get_sig_for_file("a.img"), Ok(vec![0x41, 0x42, 0x43]));
}

#[test]
fn bad_signature_text_is_invalid_encoding() {
    let h = HashSignedData::parse("Name: a.img\nsigned-data: QUJ\n\nName: b.img\nsigned-data: Q*JD\n").unwrap();
    assert_eq!(h.get_sig_for_file("a.img"), Err(HashDataError::InvalidEncoding));
    assert_eq!(h.get_sig_for_file("b.img"), Err(HashDataError::InvalidEncoding));
}

#[test]
fn written_records_round_trip() {
    let records = [("system.img", "c3lzdGVt"), ("vendor.img", "dmVuZG9y"), ("boot.img", "Ym9vdA==")];
    let mut text = String::new();
    for (name, sig) in &records {
        text.push_str(&format!("Name: {}\nsigned-data: {}\n\n", name, sig));
    }
    let h = HashSignedData::parse(&text).unwrap();
    assert_eq!(h.get_sig_for_file("system.img"), Ok(b"system".to_vec()));
    assert_eq!(h.get_sig_for_file("vendor.img"), Ok(b"vendor".to_vec()));
    assert_eq!(h.get_sig_for_file("boot.img"), Ok(b"boot".to_vec()));
    assert_eq!(h.get_sig_for_file("boot"), Err(HashDataError::NotFound));
}

#[test]
fn single_record_without_trailing_newline() {
    let h = HashSignedData::parse("Name: a.img\nsigned-data: QQ==").unwrap();
    assert_eq!(h.get_sig_for_file("a.img"), Ok(vec![0x41]));
}

#[test]
fn only_blank_lines_give_no_records() {
    let h = HashSignedData::parse("\n\n\n\n").unwrap();
    assert_eq!(h.get_sig_for_file("a.img"), Err(HashDataError::NotFound));
}

#[test]
fn empty_values_are_rejected() {
    let r = HashSignedData::parse("Name:\nsigned-data: QQ==\n");
    assert!(matches!(r, Err(HashDataError::MalformedRecord(0))));
    let r = HashSignedData::parse("Name: a.img\nsigned-data: QQ==\n\nName: b.img\nsigned-data: \t \n");
    assert!(matches!(r, Err(HashDataError::MalformedRecord(1))));
}

#[test]
fn unicode_white_space_is_trimmed() {
    let h = HashSignedData::parse("Name:\u{3000}a.img\u{a0}\nsigned-data: QUJD\u{2003}\n").unwrap();
    assert_eq!(h.get_sig_for_file("a.img"), Ok(vec![0x41, 0x42, 0x43]));
}
