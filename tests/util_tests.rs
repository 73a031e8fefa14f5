use melvin::util::{align_to, crc32_calc, hyphenate_uuid, make_uuid};

#[test]
fn crc_check_vector() {
    assert_eq!(crc32_calc(b"123456789"), 0x4991cf02);
}

#[test]
fn crc_more_vectors() {
    assert_eq!(crc32_calc(b""), 0xf597a6cf);
    assert_eq!(crc32_calc(b"LABELONE"), 0x8bcf65c4);
    assert_eq!(crc32_calc(&[0u8; 492]), 0x02c81f10);
    assert_eq!(crc32_calc(&[0u8; 508]), 0x6702d122);
}

#[test]
fn align_to_values() {
    assert_eq!(align_to(0, 512), 0);
    assert_eq!(align_to(1, 512), 512);
    assert_eq!(align_to(512, 512), 512);
    assert_eq!(align_to(513, 512), 1024);
    assert_eq!(align_to(2048, 8192), 8192);
}

#[test]
fn hyphenate_uuid_places_hyphens() {
    let r = hyphenate_uuid(b"abcdefghijklmnopqrstuvwxyz012345");
    assert_eq!(r, b"abcdef-ghij-klmn-opqr-stuv-wxyz-012345".to_vec());
}

#[test]
fn make_uuid_shape() {
    let u = make_uuid();
    assert_eq!(u.len(), 38);
    for (i, c) in u.iter().enumerate() {
        if [6, 11, 16, 21, 26, 31].contains(&i) {
            assert_eq!(*c, b'-');
        } else {
            assert!(c.is_ascii_hexdigit());
        }
    }
    assert_ne!(make_uuid(), u);
}
