use melvin::pvheader::{label_sector_bytes, LabelHeader};
use melvin::util::crc32_calc;
use melvin::{Error, PvArea, PvHeader, Region, Violation};

const UUID: &[u8; 32] = b"abcdefghijklmnopqrstuvwxyz012345";

fn label_buffer() -> Vec<u8> {
    let mut buf = vec![0u8; 2048];
    buf[512..520].copy_from_slice(b"LABELONE");
    buf[520..528].copy_from_slice(&1u64.to_le_bytes());
    buf[532..536].copy_from_slice(&32u32.to_le_bytes());
    buf[536..544].copy_from_slice(b"LVM2 001");
    let crc = crc32_calc(&buf[532..1024]);
    buf[528..532].copy_from_slice(&crc.to_le_bytes());
    buf
}

#[test]
fn parse_label_in_sector_one() {
    let buf = label_buffer();
    let l = LabelHeader::from_buf(&buf).unwrap();
    assert_eq!(l.sector, 1);
    assert_eq!(l.offset, 544);
    assert_eq!(l.label, b"LVM2 001".to_vec());
}

#[test]
fn label_errors() {
    let buf = vec![0u8; 2048];
    assert!(matches!(LabelHeader::from_buf(&buf), Err(Error::NotFound(_))));
    let mut buf = label_buffer();
    buf[600] = 1;
    assert!(matches!(LabelHeader::from_buf(&buf), Err(Error::Corrupt(Region::Label))));
    let mut buf = label_buffer();
    buf[520..528].copy_from_slice(&2u64.to_le_bytes());
    assert!(matches!(LabelHeader::from_buf(&buf), Err(Error::Inconsistent(Region::Label))));
}

#[test]
fn initialize_layout_reads_back() {
    let size: u64 = 128 * 1024 * 1024;
    let (h, sector, hdrs) = PvHeader::initialize(size, UUID, b"/dev/ram0").unwrap();
    assert_eq!(sector.len(), 512);
    assert_eq!(hdrs.len(), 2);
    for (area, hdr) in h.metadata_areas.iter().zip(hdrs.iter()) {
        assert_eq!(melvin::mda::read_mda_header(hdr, *area).unwrap(), None);
    }
    assert_eq!(h.uuid, b"abcdef-ghij-klmn-opqr-stuv-wxyz-012345".to_vec());
    assert_eq!(h.data_areas, vec![PvArea { offset: 1048576, size: 0 }]);
    assert_eq!(
        h.metadata_areas,
        vec![PvArea { offset: 4096, size: 1048576 - 4096 }, PvArea { offset: size - 1048576, size: 1048576 }]
    );
    let mut dev = vec![0u8; 2048];
    dev[512..1024].copy_from_slice(&sector);
    let back = PvHeader::find_in_buf(&dev, b"/dev/ram0").unwrap();
    assert_eq!(back.uuid, h.uuid);
    assert_eq!(back.size, size);
    assert_eq!(back.ext_version, 1);
    assert_eq!(back.ext_flags, 0);
    assert_eq!(back.data_areas, h.data_areas);
    assert_eq!(back.metadata_areas, h.metadata_areas);
    assert!(back.bootloader_areas.is_empty());
    assert_eq!(back.dev_path, b"/dev/ram0".to_vec());
}

#[test]
fn initialize_too_small() {
    let r = PvHeader::initialize(2 * 1048576 + 4095, UUID, b"/dev/x");
    assert!(matches!(r, Err(Error::Invariant(Violation::TooSmall))));
    assert!(PvHeader::initialize(2 * 1048576 + 4096, UUID, b"/dev/x").is_ok());
}

#[test]
fn pvheader_truncated() {
    let mut b = vec![0u8; 56];
    b[40..48].copy_from_slice(&7u64.to_le_bytes());
    assert!(matches!(PvHeader::from_buf(&b, b"p"), Err(Error::Corrupt(Region::PvHeader))));
}

#[test]
fn label_sector_crc_covers_tail() {
    let s = label_sector_bytes(&[0u8; 480]);
    assert_eq!(&s[0..8], b"LABELONE");
    let crc = u32::from_le_bytes([s[16], s[17], s[18], s[19]]);
    assert_eq!(crc, crc32_calc(&s[20..512]));
}
