use hash_signed_data::error::HashDataError;
use hash_signed_data::img_hash_check::ImgHashData;

/// Header, reserved bytes and total length for digests of `digest_size` bytes.
fn prologue(digest_size: u16, total: u32) -> Vec<u8> {
    let mut b = vec![0u8; 16];
    b[8..10].copy_from_slice(&digest_size.to_le_bytes());
    b.extend_from_slice(&[0, 0]);
    b.extend_from_slice(&total.to_le_bytes());
    b
}

fn name_field(name: &str) -> Vec<u8> {
    let mut f = name.as_bytes().to_vec();
    f.resize(32, 0);
    f
}

/// A 32-bit table with the given images, each with (start, end, digest) records.
fn table32(digest_size: u16, images: &[(&str, Vec<(u32, u32, Vec<u8>)>)]) -> Vec<u8> {
    let mut body = Vec::new();
    for (name, recs) in images {
        body.extend_from_slice(&name_field(name));
        body.extend_from_slice(&(recs.len() as u16).to_le_bytes());
        body.extend_from_slice(&0u32.to_le_bytes());
        for (s, e, d) in recs {
            body.extend_from_slice(&s.to_le_bytes());
            body.extend_from_slice(&e.to_le_bytes());
            body.extend_from_slice(d);
        }
    }
    let mut b = prologue(digest_size, (22 + body.len()) as u32);
    b.extend_from_slice(&body);
    b
}

fn table64(digest_size: u16, images: &[(&str, Vec<(u64, u64, Vec<u8>)>)]) -> Vec<u8> {
    let mut body = Vec::new();
    for (name, recs) in images {
        body.extend_from_slice(&name_field(name));
        body.extend_from_slice(&(recs.len() as u16).to_le_bytes());
        body.extend_from_slice(&0u64.to_le_bytes());
        for (s, e, d) in recs {
            body.extend_from_slice(&s.to_le_bytes());
            body.extend_from_slice(&e.to_le_bytes());
            body.extend_from_slice(d);
        }
    }
    let mut b = prologue(digest_size, (22 + body.len()) as u32);
    b.extend_from_slice(&body);
    b
}

#[test]
fn boot_image_scenario() {
    let buf = table32(32, &[("boot", vec![(0, 100, vec![0xAA; 32])])]);
    let t = ImgHashData::<u32>::load_img_hash_data(&buf).unwrap();
    assert!(t.check_img_hash("boot".to_string(), 0, 100, &[0xAA; 32]));
    assert!(!t.check_img_hash("boot".to_string(), 0, 100, &[0xAB; 32]));
    assert!(!t.check_img_hash("boot".to_string(), 0, 101, &[0xAA; 32]));
}

#[test]
fn check_false_cases() {
    let buf = table32(4, &[("system", vec![(0, 10, vec![1, 2, 3, 4]), (10, 20, vec![5, 6, 7, 8])])]);
    let t = ImgHashData::<u32>::load_img_hash_data(&buf).unwrap();
    assert!(t.check_img_hash("system".to_string(), 10, 20, &[5, 6, 7, 8]));
    assert!(!t.check_img_hash("vendor".to_string(), 10, 20, &[5, 6, 7, 8]));
    assert!(!t.check_img_hash("system".to_string(), 0, 20, &[5, 6, 7, 8]));
    assert!(!t.check_img_hash("system".to_string(), 10, 20, &[5, 6, 7]));
    assert!(!t.check_img_hash("system".to_string(), 10, 20, &[5, 6, 7, 8, 9]));
    assert!(!t.check_img_hash("system".to_string(), 10, 20, &[5, 6, 7, 9]));
}

#[test]
fn several_images_and_records() {
    let images: Vec<(&str, Vec<(u32, u32, Vec<u8>)>)> = vec![
        ("a", (0..3).map(|i| (i * 10, i * 10 + 10, vec![i as u8; 8])).collect()),
        ("b", (0..3).map(|i| (i * 10, i * 10 + 10, vec![0x10 + i as u8; 8])).collect()),
    ];
    let buf = table32(8, &images);
    let t = ImgHashData::<u32>::load_img_hash_data(&buf).unwrap();
    for (name, recs) in &images {
        for (s, e, d) in recs {
            assert!(t.check_img_hash(name.to_string(), *s, *e, d));
        }
    }
    assert!(!t.check_img_hash("a".to_string(), 0, 10, &[0x10; 8]));
}

#[test]
fn wide_addresses() {
    let far = 1u64 << 40;
    let buf = table64(2, &[("userdata", vec![(far, far + 4096, vec![9, 9])])]);
    let t = ImgHashData::<u64>::load_img_hash_data(&buf).unwrap();
    assert!(t.check_img_hash("userdata".to_string(), far, far + 4096, &[9, 9]));
    assert!(!t.check_img_hash("userdata".to_string(), 0, 4096, &[9, 9]));
}

#[test]
fn later_entries_overwrite() {
    let buf = table32(1, &[
        ("a", vec![(0, 1, vec![1]), (0, 1, vec![2])]),
        ("b", vec![(0, 1, vec![3])]),
        ("a", vec![(5, 6, vec![4])]),
    ]);
    let t = ImgHashData::<u32>::load_img_hash_data(&buf).unwrap();
    assert!(!t.check_img_hash("a".to_string(), 0, 1, &[2]));
    assert!(t.check_img_hash("a".to_string(), 5, 6, &[4]));
    assert!(t.check_img_hash("b".to_string(), 0, 1, &[3]));
}

#[test]
fn trailing_bytes_are_ignored() {
    let mut buf = table32(1, &[("a", vec![(0, 1, vec![7])])]);
    buf.extend_from_slice(&[0xFF; 40]);
    let t = ImgHashData::<u32>::load_img_hash_data(&buf).unwrap();
    assert!(t.check_img_hash("a".to_string(), 0, 1, &[7]));
}

#[test]
fn empty_table_has_no_entries() {
    let buf = prologue(32, 22);
    let t = ImgHashData::<u32>::load_img_hash_data(&buf).unwrap();
    assert!(!t.check_img_hash("boot".to_string(), 0, 100, &[0xAA; 32]));
}

#[test]
fn every_truncation_fails() {
    let buf = table32(32, &[("boot", vec![(0, 100, vec![0xAA; 32]), (100, 200, vec![0xBB; 32])])]);
    for k in 0..buf.len() {
        let r = ImgHashData::<u32>::load_img_hash_data(&buf[..k]);
        let e = r.err().unwrap();
        if k < 22 {
            assert_eq!(e, HashDataError::TruncatedHeader);
        } else {
            assert_eq!(e, HashDataError::TruncatedBody);
        }
    }
}

#[test]
fn short_section_and_record() {
    // The declared length leaves room for part of a section header only.
    let mut buf = prologue(4, 30);
    buf.extend_from_slice(&[0u8; 8]);
    assert_eq!(ImgHashData::<u32>::load_img_hash_data(&buf).err(), Some(HashDataError::TruncatedSection));
    // A section that announces two records but holds one.
    let mut buf = prologue(4, 22 + 38 + 12);
    buf.extend_from_slice(&name_field("a"));
    buf.extend_from_slice(&2u16.to_le_bytes());
    buf.extend_from_slice(&0u32.to_le_bytes());
    buf.extend_from_slice(&[0u8; 12]);
    assert_eq!(ImgHashData::<u32>::load_img_hash_data(&buf).err(), Some(HashDataError::TruncatedRecord));
}

#[test]
fn invalid_name_is_rejected() {
    let mut buf = prologue(1, 22 + 38);
    let mut field = vec![0xFFu8, 0xFE];
    field.resize(32, 0);
    buf.extend_from_slice(&field);
    buf.extend_from_slice(&0u16.to_le_bytes());
    buf.extend_from_slice(&0u32.to_le_bytes());
    assert_eq!(ImgHashData::<u32>::load_img_hash_data(&buf).err(), Some(HashDataError::InvalidName));
}
