use melvin::mda::{mda_header_bytes, read_mda_header, read_metadata, read_text, write_metadata, write_payload, RawLocn};
use melvin::{Error, PvArea, Region, TextMapOps};

fn empty_area(offset: u64, size: u64) -> (PvArea, Vec<u8>) {
    let area = PvArea { offset, size };
    let mut img = vec![0u8; size as usize];
    let hdr = mda_header_bytes(area, RawLocn { offset: 0, size: 0, checksum: 0, ignored: false });
    img[..512].copy_from_slice(&hdr);
    (area, img)
}

fn payload(seqno: usize, len: usize) -> Vec<u8> {
    let mut t = format!("seqno = {}\n", seqno).into_bytes();
    while t.len() < len - 1 {
        t.push(b'#');
    }
    t.push(b'\n');
    t
}

#[test]
fn mda_header_round_trip() {
    let area = PvArea { offset: 4096, size: 1044480 };
    let rl = RawLocn { offset: 512, size: 100, checksum: 7, ignored: false };
    let h = mda_header_bytes(area, rl);
    assert_eq!(h.len(), 512);
    assert_eq!(&h[4..20], b" LVM2 x[5A%r0N*>");
    assert_eq!(read_mda_header(&h, area).unwrap(), Some(rl));
}

#[test]
fn mda_header_errors() {
    let area = PvArea { offset: 4096, size: 8192 };
    let rl = RawLocn { offset: 512, size: 100, checksum: 7, ignored: false };
    let mut h = mda_header_bytes(area, rl);
    h[100] ^= 1;
    assert!(matches!(read_mda_header(&h, area), Err(Error::Corrupt(Region::Mda))));
    let h = mda_header_bytes(area, rl);
    let other = PvArea { offset: 8192, size: 8192 };
    assert!(matches!(read_mda_header(&h, other), Err(Error::Inconsistent(Region::Mda))));
    let empty = mda_header_bytes(area, RawLocn { offset: 0, size: 0, checksum: 0, ignored: false });
    assert_eq!(read_mda_header(&empty, area).unwrap(), None);
}

#[test]
fn mda_write_then_read() {
    let (area, mut img) = empty_area(4096, 1044480);
    assert_eq!(read_metadata(&img, area).unwrap(), None);
    let text = b"a = 1\n\0".to_vec();
    assert_eq!(write_metadata(&mut img, area, &text).unwrap(), true);
    assert_eq!(read_metadata(&img, area).unwrap(), Some(text));
}

#[test]
fn mda_wrap_five_commits() {
    let (area, mut img) = empty_area(4096, 8192);
    let mut offsets = Vec::new();
    for n in 1..=5 {
        let text = payload(n, 3000);
        write_metadata(&mut img, area, &text).unwrap();
        let back = read_metadata(&img, area).unwrap().unwrap();
        assert_eq!(back, text);
        let m = melvin::parser::buf_to_textmap(&back).unwrap();
        assert_eq!(m.i64_from_textmap(b"seqno"), Some(n as i64));
        offsets.push(read_mda_header(&img[..512], area).unwrap().unwrap().offset);
    }
    assert_eq!(offsets, vec![512, 3584, 6656, 2048, 5120]);
}

#[test]
fn mda_interrupted_write_keeps_previous() {
    let (area, mut img) = empty_area(4096, 8192);
    let first = payload(1, 3000);
    write_metadata(&mut img, area, &first).unwrap();
    let prev = read_mda_header(&img[..512], area).unwrap().unwrap();
    let second = payload(2, 3000);
    let rl = write_payload(&mut img, prev, &second).unwrap();
    assert_eq!(read_metadata(&img, area).unwrap(), Some(first));
    assert_eq!(read_text(&img, rl).unwrap(), second);
}

#[test]
fn mda_text_too_large() {
    let (area, mut img) = empty_area(4096, 8192);
    let text = vec![b' '; 8192 - 511];
    match write_metadata(&mut img, area, &text) {
        Err(Error::NoSpace { requested, available }) => {
            assert_eq!(requested, 8192 - 511);
            assert_eq!(available, 8192 - 512);
        }
        _ => panic!("expected NoSpace"),
    }
}

#[test]
fn mda_corrupt_payload() {
    let (area, mut img) = empty_area(4096, 8192);
    write_metadata(&mut img, area, b"a = 1\n\0").unwrap();
    img[513] ^= 1;
    assert!(matches!(read_metadata(&img, area), Err(Error::Corrupt(Region::TextPayload))));
}

#[test]
fn mda_ignored_area_left_alone() {
    let area = PvArea { offset: 4096, size: 8192 };
    let mut img = vec![0u8; 8192];
    let hdr = mda_header_bytes(area, RawLocn { offset: 512, size: 0, checksum: 0, ignored: true });
    img[..512].copy_from_slice(&hdr);
    let before = img.clone();
    assert_eq!(write_metadata(&mut img, area, b"a = 1\n\0").unwrap(), false);
    assert_eq!(img, before);
    assert_eq!(read_metadata(&img, area).unwrap(), None);
}

#[test]
fn mda_first_valid_area_wins() {
    let (a0, mut i0) = empty_area(4096, 8192);
    let (a1, mut i1) = empty_area(16384, 8192);
    write_metadata(&mut i1, a1, b"b = 2\n\0").unwrap();
    let images = vec![i0.clone(), i1.clone()];
    assert_eq!(melvin::mda::read_first(&images, &vec![a0, a1]).unwrap(), b"b = 2\n\0".to_vec());
    write_metadata(&mut i0, a0, b"a = 1\n\0").unwrap();
    i0[513] ^= 1;
    let images = vec![i0, i1];
    assert_eq!(melvin::mda::read_first(&images, &vec![a0, a1]).unwrap(), b"b = 2\n\0".to_vec());
    let (a2, i2) = empty_area(4096, 8192);
    assert!(matches!(melvin::mda::read_first(&vec![i2], &vec![a2]), Err(Error::NotFound(_))));
}

#[test]
fn mda_write_keeps_second_slot() {
    let (area, mut img) = empty_area(4096, 8192);
    for b in 64..88 {
        img[b] = (b as u8) ^ 0x5a;
    }
    let crc = melvin::util::crc32_calc(&img[4..512]);
    img[0..4].copy_from_slice(&crc.to_le_bytes());
    let before = img[64..512].to_vec();
    write_metadata(&mut img, area, b"a = 1\n\0").unwrap();
    write_metadata(&mut img, area, b"a = 2\n\0").unwrap();
    assert_eq!(img[64..512].to_vec(), before);
    assert_eq!(read_metadata(&img, area).unwrap(), Some(b"a = 2\n\0".to_vec()));
}
