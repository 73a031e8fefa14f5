use melvin::dm::dm_name;
use melvin::flock::LockScope;
use melvin::mda::{mda_header_bytes, read_metadata, write_metadata, RawLocn};
use melvin::metad::{collect_response, pv_found, vg_update};
use melvin::parser::{buf_to_textmap, textmap_to_buf};
use melvin::{Device, Entry, Error, PvArea, PvCandidate, PvHeader, Segment, Violation, VG};

const UUID: &[u8; 32] = b"abcdefghijklmnopqrstuvwxyz012345";
const MIB: u64 = 1024 * 1024;
const D1: Device = Device { major: 8, minor: 16 };
const D2: Device = Device { major: 8, minor: 32 };

struct Disk {
    header: PvHeader,
    dev: Device,
    mda: Vec<u8>,
}

fn disk(size: u64, dev: Device) -> Disk {
    let (header, _sector, _hdrs) = PvHeader::initialize(size, UUID, b"/dev/ram").unwrap();
    let area = header.metadata_areas[0];
    let mut mda = vec![0u8; area.size as usize];
    mda[..512].copy_from_slice(&mda_header_bytes(area, RawLocn { offset: 0, size: 0, checksum: 0, ignored: false }));
    Disk { header, dev, mda }
}

fn candidate(size: u64, dev: Device) -> PvCandidate {
    let (header, _sector, _hdrs) = PvHeader::initialize(size, UUID, b"/dev/ram").unwrap();
    PvCandidate { header, device: dev, has_metadata: false }
}

fn commit_all(vg: &mut VG, disks: &mut Vec<Disk>) {
    let text = vg.commit(b"host", 1000).unwrap();
    write_text(&text, disks);
}

fn write_text(text: &[u8], disks: &mut Vec<Disk>) {
    for d in disks.iter_mut() {
        let area = d.header.metadata_areas[0];
        assert_eq!(write_metadata(&mut d.mda, area, text).unwrap(), true);
    }
}

fn read_back(d: &Disk) -> VG {
    let area = d.header.metadata_areas[0];
    let text = read_metadata(&d.mda, area).unwrap().unwrap();
    let m = buf_to_textmap(&text).unwrap();
    for (k, v) in &m.entries {
        if let Entry::TextMap(s) = v {
            return VG::from_textmap(k, s).unwrap();
        }
    }
    panic!("no VG in metadata");
}

fn two_disk_vg() -> (VG, Vec<Disk>) {
    let mut disks = vec![disk(128 * MIB, D1), disk(128 * MIB, D2)];
    let cands = vec![candidate(128 * MIB, D1), candidate(128 * MIB, D2)];
    let (vg, text) = VG::create(b"t", &cands, b"host", 1000).unwrap();
    write_text(&text, &mut disks);
    (vg, disks)
}

fn linear_place(vg: &VG, name: &[u8]) -> (Device, u64, u64) {
    let lv = vg.lv_get(name).unwrap();
    assert_eq!(lv.segments.len(), 1);
    match &lv.segments[0] {
        Segment::Striped(s) => {
            assert_eq!(s.stripes.len(), 1);
            assert_eq!(s.start_extent, 0);
            (s.stripes[0].0, s.stripes[0].1, s.extent_count)
        }
    }
}

#[test]
fn vg_create_lv_create_read_back() {
    let (mut vg, mut disks) = two_disk_vg();
    assert_eq!(vg.seqno(), 1);
    let text = vg.lv_create_linear(b"l", 10, b"host", 1000).unwrap();
    write_text(&text, &mut disks);
    let back = read_back(&disks[0]);
    assert_eq!(back.seqno(), 2);
    assert_eq!(back.name(), b"t");
    assert_eq!(back.lv_list(), vec![b"l".to_vec()]);
    assert_eq!(linear_place(&back, b"l"), (D1, 0, 10));
    assert_eq!(back.pv_list(), vec![D1, D2]);
    let other = read_back(&disks[1]);
    assert_eq!(other.seqno(), 2);
}

#[test]
fn allocator_fit_across_pvs() {
    let size1 = (32 * 8192 + 8192 + 2048) * 512;
    let size2 = (64 * 8192 + 8192 + 2048) * 512;
    let cands = vec![candidate(size1, D1), candidate(size2, D2)];
    let (mut vg, _text) = VG::create(b"t", &cands, b"h", 1).unwrap();
    assert_eq!(vg.pv_get(D1).unwrap().pe_count, 32);
    assert_eq!(vg.pv_get(D2).unwrap().pe_count, 64);
    vg.lv_create_linear(b"a", 24, b"h", 1).unwrap();
    assert_eq!(linear_place(&vg, b"a"), (D1, 0, 24));
    vg.lv_create_linear(b"big", 40, b"h", 1).unwrap();
    assert_eq!(linear_place(&vg, b"big"), (D2, 0, 40));
    assert_eq!(linear_place(&vg, b"a"), (D1, 0, 24));
}

#[test]
fn pv_remove_refuses_in_use() {
    let (mut vg, mut disks) = two_disk_vg();
    let text = vg.lv_create_linear(b"l", 10, b"host", 1000).unwrap();
    write_text(&text, &mut disks);
    let before = disks[0].mda.clone();
    match vg.pv_remove(D1, b"h", 1) {
        Err(Error::InUse(who)) => assert_eq!(who, b"l".to_vec()),
        other => panic!("unexpected {:?}", other),
    }
    assert_eq!(vg.seqno(), 2);
    assert_eq!(vg.pv_list(), vec![D1, D2]);
    assert_eq!(disks[0].mda, before);
    assert_eq!(read_back(&disks[0]).seqno(), 2);
}

#[test]
fn pv_remove_unused_and_missing() {
    let (mut vg, _disks) = two_disk_vg();
    vg.lv_create_linear(b"l", 10, b"h", 1).unwrap();
    vg.pv_remove(D2, b"h", 1).unwrap();
    assert_eq!(vg.pv_list(), vec![D1]);
    assert!(matches!(vg.pv_remove(D2, b"h", 1), Err(Error::NotFound(_))));
}

#[test]
fn seqno_increases_on_every_commit() {
    let (mut vg, mut disks) = two_disk_vg();
    for n in 2..6u64 {
        commit_all(&mut vg, &mut disks);
        assert_eq!(vg.seqno(), n);
        for d in &disks {
            assert_eq!(read_back(d).seqno(), n);
        }
    }
}

#[test]
fn extent_accounting() {
    let (mut vg, _disks) = two_disk_vg();
    assert_eq!(vg.extents(), 60);
    vg.lv_create_linear(b"l", 10, b"h", 1).unwrap();
    assert_eq!(vg.extents_in_use(), 10);
    assert_eq!(vg.extents_free(), 50);
    let free = vg.free_areas();
    assert_eq!(free.len(), 2);
    assert_eq!(free[0].0, D1);
    assert_eq!(free[0].1, vec![(10, 20)]);
    assert_eq!(free[1].1, vec![(0, 30)]);
    assert_eq!(vg.used_areas(), vec![(D1, 0, 10)]);
}

#[test]
fn free_areas_gaps() {
    let (mut vg, _disks) = two_disk_vg();
    vg.lv_create_linear(b"a", 5, b"h", 1).unwrap();
    vg.lv_create_linear(b"b", 5, b"h", 1).unwrap();
    vg.lv_create_linear(b"c", 5, b"h", 1).unwrap();
    vg.lv_remove(b"b", b"h", 1).unwrap();
    let free = vg.free_areas();
    assert_eq!(free[0].1, vec![(5, 5), (15, 15)]);
    vg.lv_create_linear(b"d", 6, b"h", 1).unwrap();
    assert_eq!(linear_place(&vg, b"d"), (D1, 15, 6));
    vg.lv_create_linear(b"e", 5, b"h", 1).unwrap();
    assert_eq!(linear_place(&vg, b"e"), (D1, 5, 5));
}

#[test]
fn lv_create_errors() {
    let (mut vg, _disks) = two_disk_vg();
    vg.lv_create_linear(b"l", 10, b"h", 1).unwrap();
    assert!(matches!(vg.lv_create_linear(b"l", 1, b"h", 1), Err(Error::Invariant(Violation::DuplicateLv))));
    assert!(matches!(vg.lv_create_linear(b"z", 0, b"h", 1), Err(Error::Invariant(Violation::OutOfRange))));
    match vg.lv_create_linear(b"huge", 31, b"h", 1) {
        Err(Error::NoSpace { requested, available }) => {
            assert_eq!(requested, 31);
            assert_eq!(available, 50);
        }
        other => panic!("unexpected {:?}", other),
    }
    assert_eq!(vg.lv_list(), vec![b"l".to_vec()]);
}

#[test]
fn lv_remove_found_and_missing() {
    let (mut vg, _disks) = two_disk_vg();
    vg.lv_create_linear(b"l", 10, b"h", 1).unwrap();
    let (lv, _text) = vg.lv_remove(b"l", b"h", 1).unwrap();
    assert_eq!(lv.name, b"l".to_vec());
    assert!(vg.lv_get(b"l").is_none());
    assert!(matches!(vg.lv_remove(b"l", b"h", 1), Err(Error::NotFound(_))));
}

#[test]
fn create_errors() {
    assert!(matches!(VG::create(b"t", &Vec::new(), b"h", 1), Err(Error::Invariant(Violation::NoPvs))));
    let mut c = candidate(128 * MIB, D1);
    c.header.metadata_areas.clear();
    assert!(matches!(VG::create(b"t", &vec![c], b"h", 1), Err(Error::Invariant(Violation::NoMetadataArea))));
    let cands = vec![candidate(128 * MIB, D1), candidate(128 * MIB, D1)];
    assert!(matches!(VG::create(b"t", &cands, b"h", 1), Err(Error::Invariant(Violation::DuplicatePv))));
}

#[test]
fn pv_add_errors() {
    let (mut vg, _disks) = two_disk_vg();
    let c = candidate(128 * MIB, Device { major: 8, minor: 48 });
    assert!(matches!(vg.pv_add(&c.header, D1, false, b"h", 1), Err(Error::Invariant(Violation::DuplicatePv))));
    assert!(matches!(vg.pv_add(&c.header, c.device, true, b"h", 1), Err(Error::Invariant(Violation::ForeignVg))));
    let mut bare = candidate(128 * MIB, c.device).header;
    bare.data_areas.clear();
    assert!(matches!(vg.pv_add(&bare, c.device, false, b"h", 1), Err(Error::Invariant(Violation::NoDataArea))));
    let mut small = candidate(128 * MIB, c.device).header;
    small.size = 4 * MIB;
    assert!(matches!(vg.pv_add(&small, c.device, false, b"h", 1), Err(Error::Invariant(Violation::TooSmall))));
    vg.pv_add(&c.header, c.device, false, b"h", 1).unwrap();
    assert_eq!(vg.pv_list(), vec![D1, D2, Device { major: 8, minor: 48 }]);
    let pv = vg.pv_get(c.device).unwrap();
    assert_eq!((pv.dev_size, pv.pe_start, pv.pe_count), (262144, 8192, 30));
    assert_eq!(pv.status, vec![b"ALLOCATABLE".to_vec()]);
}

#[test]
fn pv_add_keeps_device_order() {
    let cands = vec![candidate(128 * MIB, D2), candidate(128 * MIB, D1)];
    let (vg, _text) = VG::create(b"t", &cands, b"h", 1).unwrap();
    assert_eq!(vg.pv_list(), vec![D1, D2]);
}

#[test]
fn to_textmap_names_pvs_in_order() {
    let (mut vg, _disks) = two_disk_vg();
    vg.lv_create_linear(b"l", 3, b"h", 7).unwrap();
    let text = textmap_to_buf(&vg.to_textmap());
    let s = String::from_utf8(text).unwrap();
    assert!(s.contains("physical_volumes {\n  pv0 {\n"));
    assert!(s.contains("    device = 2064\n"));
    assert!(s.contains("stripes = [\"pv0\", 0]"));
    assert!(s.contains("segment_count = 1\n"));
    assert!(s.contains("type = \"striped\""));
    assert!(s.starts_with("id = \""));
}

#[test]
fn from_textmap_errors() {
    let m = buf_to_textmap(b"seqno = 1\n").unwrap();
    assert!(matches!(VG::from_textmap(b"t", &m), Err(Error::Shape(k)) if k == b"id"));
    let base = "id = \"x\"\nseqno = 1\nformat = \"lvm2\"\nstatus = [\"READ\"]\nflags = []\nextent_size = 8192\nmax_lv = 0\nmax_pv = 0\nmetadata_copies = 0\n";
    let pvs = "physical_volumes {\npv0 {\nid = \"p\"\ndevice = 2064\nstatus = [\"ALLOCATABLE\"]\nflags = []\ndev_size = 262144\npe_start = 8192\npe_count = 30\n}\n}\n";
    let ok = format!("{}{}", base, pvs);
    let vg = VG::from_textmap(b"t", &buf_to_textmap(ok.as_bytes()).unwrap()).unwrap();
    assert_eq!(vg.pv_list(), vec![D1]);
    assert_eq!(vg.extent_size(), 8192);
    let seg = |pv: &str, pe: u64, n: u64| {
        format!("segment1 {{\nstart_extent = 0\nextent_count = {}\ntype = \"striped\"\nstripe_count = 1\nstripes = [\"{}\", {}]\n}}\n", n, pv, pe)
    };
    let lv = |name: &str, s: String| {
        format!("{} {{\nid = \"i\"\nstatus = [\"READ\"]\nflags = []\ncreation_host = \"h\"\ncreation_time = 1\nsegment_count = 1\n{}}}\n", name, s)
    };
    let unknown = format!("{}{}logical_volumes {{\n{}}}\n", base, pvs, lv("a", seg("pv9", 0, 2)));
    assert!(matches!(VG::from_textmap(b"t", &buf_to_textmap(unknown.as_bytes()).unwrap()), Err(Error::Invariant(Violation::UnknownPv))));
    let overlap = format!("{}{}logical_volumes {{\n{}{}}}\n", base, pvs, lv("a", seg("pv0", 0, 5)), lv("b", seg("pv0", 3, 5)));
    assert!(matches!(VG::from_textmap(b"t", &buf_to_textmap(overlap.as_bytes()).unwrap()), Err(Error::Invariant(Violation::Overlap))));
    let beyond = format!("{}{}logical_volumes {{\n{}}}\n", base, pvs, lv("a", seg("pv0", 28, 5)));
    assert!(matches!(VG::from_textmap(b"t", &buf_to_textmap(beyond.as_bytes()).unwrap()), Err(Error::Invariant(Violation::UnknownPv))));
    let good = format!("{}{}logical_volumes {{\n{}}}\n", base, pvs, lv("a", seg("pv0", 25, 5)));
    let vg = VG::from_textmap(b"t", &buf_to_textmap(good.as_bytes()).unwrap()).unwrap();
    assert_eq!(linear_place(&vg, b"a"), (D1, 25, 5));
}

#[test]
fn dm_names_and_tables() {
    assert_eq!(dm_name(b"my-vg", b"lv-1"), b"my--vg-lv--1".to_vec());
    let (mut vg, _disks) = two_disk_vg();
    vg.lv_create_linear(b"l", 10, b"h", 1).unwrap();
    let lv = vg.lv_get(b"l").unwrap();
    let table = vg.lv_table(lv).unwrap();
    assert_eq!(table.len(), 1);
    assert_eq!(table[0].start, 0);
    assert_eq!(table[0].length, 81920);
    assert_eq!(table[0].target, b"linear".to_vec());
    assert_eq!(table[0].params, b"8:16 8192".to_vec());
}

#[test]
fn striped_table_line() {
    let s = melvin::StripedSegment { start_extent: 2, extent_count: 4, stripe_size: Some(128), stripes: vec![(D1, 1), (D2, 3)] };
    let cands = vec![candidate(128 * MIB, D1), candidate(128 * MIB, D2)];
    let (vg, _text) = VG::create(b"t", &cands, b"h", 1).unwrap();
    let lv = melvin::LV {
        name: b"s".to_vec(),
        id: Vec::new(),
        status: Vec::new(),
        flags: Vec::new(),
        creation_host: Vec::new(),
        creation_time: 0,
        segments: vec![Segment::Striped(s)],
        device: None,
    };
    let t = vg.lv_table(&lv).unwrap();
    assert_eq!(t[0].start, 2 * 8192);
    assert_eq!(t[0].length, 4 * 8192);
    assert_eq!(t[0].target, b"striped".to_vec());
    assert_eq!(t[0].params, b"2 128 8:16 16384 8:32 32768".to_vec());
}

#[test]
fn daemon_messages() {
    let m = buf_to_textmap(b"a = 1\n").unwrap();
    assert_eq!(
        vg_update(b"t", &m),
        b"request = \"vg_update\"\ntoken = \"filter:0\"\nvgname = \"t\"\nmetadata {a = 1\n}\n\n##\n".to_vec()
    );
    assert_eq!(pv_found(&m), b"request = \"pv_found\"\ntoken = \"filter:0\"\npvmeta {a = 1\n}\n\n##\n".to_vec());
    assert_eq!(collect_response(b"response = \"OK\"\n##\n"), Some(b"response = \"OK\"".to_vec()));
    assert_eq!(collect_response(b"partial"), None);
}

#[test]
fn lock_file_paths() {
    assert_eq!(LockScope::Global.lock_file(), b"/run/lock/lvm/P_global".to_vec());
    assert_eq!(LockScope::VG(b"t".to_vec()).lock_file(), b"/run/lock/lvm/V_t".to_vec());
}

#[test]
fn device_packing() {
    assert_eq!(D1.to_u64(), 2064);
    assert_eq!(Device::from_u64(2064), Some(D1));
    assert_eq!(Device { major: 1, minor: 300 }.to_u64(), 256 + 44);
    assert_eq!(Device::from_u64(u64::MAX), None);
    assert!(D1.precedes(&D2));
}

#[test]
fn pv_area_struct() {
    let a = PvArea { offset: 1, size: 2 };
    assert_eq!(a, PvArea { offset: 1, size: 2 });
}

#[test]
fn lv_device_recorded() {
    let (mut vg, _disks) = two_disk_vg();
    vg.lv_create_linear(b"l", 2, b"h", 1).unwrap();
    assert!(vg.lv_get(b"l").unwrap().device.is_none());
    assert!(vg.lv_set_device(b"l", Device { major: 253, minor: 0 }));
    assert_eq!(vg.lv_get(b"l").unwrap().device, Some(Device { major: 253, minor: 0 }));
    assert!(!vg.lv_set_device(b"x", Device { major: 253, minor: 1 }));
}

#[test]
fn to_textmap_reads_back() {
    let (mut vg, _disks) = two_disk_vg();
    vg.lv_create_linear(b"l", 4, b"h", 9).unwrap();
    vg.lv_create_linear(b"k", 30, b"h", 9).unwrap();
    let back = VG::from_textmap(vg.name(), &vg.to_textmap()).unwrap();
    assert_eq!(back.seqno(), vg.seqno());
    assert_eq!(back.id(), vg.id());
    assert_eq!(back.pv_list(), vg.pv_list());
    assert_eq!(back.lv_list(), vec![b"l".to_vec(), b"k".to_vec()]);
    assert_eq!(linear_place(&back, b"l"), (D1, 0, 4));
    assert_eq!(linear_place(&back, b"k"), (D2, 0, 30));
}

#[test]
fn every_change_commits() {
    let (mut vg, _disks) = two_disk_vg();
    assert_eq!(vg.seqno(), 1);
    let c = candidate(128 * MIB, Device { major: 8, minor: 48 });
    let t = vg.pv_add(&c.header, c.device, false, b"h", 1).unwrap();
    assert_eq!(vg.seqno(), 2);
    assert!(String::from_utf8_lossy(&t).contains("seqno = 2\n"));
    vg.lv_create_linear(b"l", 1, b"h", 1).unwrap();
    assert_eq!(vg.seqno(), 3);
    vg.lv_remove(b"l", b"h", 1).unwrap();
    assert_eq!(vg.seqno(), 4);
    vg.pv_remove(c.device, b"h", 1).unwrap();
    assert_eq!(vg.seqno(), 5);
    assert!(vg.lv_create_linear(b"l", 0, b"h", 1).is_err());
    assert_eq!(vg.seqno(), 5);
}
