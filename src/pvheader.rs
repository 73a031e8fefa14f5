//! The PV label sector and the PV header that follows it.
//!
//! The label lives in one of the first four 512-byte sectors of a device. It
//! points at the PV header, which lists the device's data, metadata and
//! bootloader areas. Callers read the first 2048 bytes of a device and hand
//! them over; the library decodes them, or builds the sector to write.

use vstd::prelude::*;
use vstd::bytes::{spec_u32_to_le_bytes, spec_u64_to_le_bytes};
use crate::error::{Error, Region, Violation};
use crate::parser::copy_bytes;
use crate::mda::{empty_locn, empty_tail, mda_header, mda_header_bytes, RawLocn};
use crate::util::{crc32_calc, hyphenate_uuid, hyphenated, lvm_crc, push_all, read_u32_at, read_u64_at, u32_at, u64_at, zeros};

verus! {

pub const SECTOR_SIZE: u64 = 512;
pub const LABEL_SCAN_SECTORS: usize = 4;
pub const LABEL_SCAN_BYTES: usize = 2048;
pub const LABEL_SIZE: u32 = 32;
pub const LABEL_SECTOR: u64 = 1;
pub const DEFAULT_MDA_SIZE: u64 = 1048576;
pub const MDA0_OFFSET: u64 = 4096;
pub const EXTENSION_VERSION: u32 = 1;

/// `LABELONE`.
pub open spec fn label_magic() -> Seq<u8> {
    seq![76u8, 65, 66, 69, 76, 79, 78, 69]
}

/// `LVM2 001`.
pub open spec fn label_type() -> Seq<u8> {
    seq![76u8, 86, 77, 50, 32, 48, 48, 49]
}

fn label_magic_bytes() -> (r: Vec<u8>)
    ensures
        r@ == label_magic(),
{
    let r: Vec<u8> = vec![76u8, 65, 66, 69, 76, 79, 78, 69];
    assert(r@ == label_magic());
    r
}

fn label_type_bytes() -> (r: Vec<u8>)
    ensures
        r@ == label_type(),
{
    let r: Vec<u8> = vec![76u8, 86, 77, 50, 32, 48, 48, 49];
    assert(r@ == label_type());
    r
}

/// The 512 bytes of sector `x`.
pub open spec fn sector(buf: Seq<u8>, x: int) -> Seq<u8> {
    buf.subrange(x * 512, x * 512 + 512)
}

pub open spec fn has_label(buf: Seq<u8>, x: int) -> bool {
    sector(buf, x).subrange(0, 8) == label_magic()
}

/// The first of the sectors `x..4` that starts with `LABELONE`, or -1.
pub open spec fn first_label(buf: Seq<u8>, x: int) -> int
    decreases 4 - x,
{
    if x >= 4 || x < 0 {
        -1
    } else if has_label(buf, x) {
        x
    } else {
        first_label(buf, x + 1)
    }
}

/// The label of a PV: where it was found and where the PV header is.
#[derive(Debug)]
pub struct LabelHeader {
    /// The sector that holds the label.
    pub sector: u64,
    pub crc: u32,
    /// The PV header's offset from the start of the device.
    pub offset: u64,
    /// The label type, `LVM2 001`.
    pub label: Vec<u8>,
}

/// What reading the label of `buf` gives, as a predicate on the outcome.
pub open spec fn label_outcome(buf: Seq<u8>, r: Result<LabelHeader, Error>) -> bool {
    let x = first_label(buf, 0);
    if x < 0 {
        r matches Err(Error::NotFound(_))
    } else {
        let sec = sector(buf, x);
        if u32_at(sec, 16) != lvm_crc(sec.subrange(20, 512)) {
            r matches Err(Error::Corrupt(Region::Label))
        } else if u64_at(sec, 8) != x {
            r matches Err(Error::Inconsistent(Region::Label))
        } else {
            r matches Ok(h) && h.sector == x && h.crc == u32_at(sec, 16) && h.offset == u32_at(sec, 20) + x * 512
                && h.label@ == sec.subrange(24, 32)
        }
    }
}

fn bytes_match(buf: &[u8], off: usize, pat: &Vec<u8>) -> (r: bool)
    requires
        off + pat@.len() <= buf@.len(),
    ensures
        r == (buf@.subrange(off as int, off + pat@.len()) == pat@),
{
    let n = buf.len();
    let mut i: usize = 0;
    while i < pat.len()
        invariant
            n == buf@.len(),
            off + pat@.len() <= n,
            i <= pat@.len(),
            forall|j: int| 0 <= j < i ==> buf@[off + j] == pat@[j],
        decreases pat@.len() - i,
    {
        if buf[off + i] != pat[i] {
            assert(buf@.subrange(off as int, off + pat@.len())[i as int] != pat@[i as int]);
            return false;
        }
        i = i + 1;
    }
    assert(buf@.subrange(off as int, off + pat@.len()) =~= pat@);
    true
}

impl LabelHeader {
    /// Find and check the label in the first four sectors of a device.
    pub fn from_buf(buf: &[u8]) -> (r: Result<LabelHeader, Error>)
        requires
            buf@.len() >= LABEL_SCAN_BYTES,
        ensures
            label_outcome(buf@, r),
    {
        let magic = label_magic_bytes();
        let mut x: usize = 0;
        while x < LABEL_SCAN_SECTORS
            invariant
                buf@.len() >= LABEL_SCAN_BYTES,
                magic@ == label_magic(),
                x <= 4,
                first_label(buf@, 0) == first_label(buf@, x as int),
            decreases 4 - x,
        {
            let base = x * 512;
            let sec = &buf[base..base + 512];
            assert(sec@ == sector(buf@, x as int));
            if bytes_match(sec, 0, &magic) {
                let crc = read_u32_at(sec, 16);
                if crc != crc32_calc(&sec[20..512]) {
                    return Err(Error::Corrupt(Region::Label));
                }
                let sector_field = read_u64_at(sec, 8);
                if sector_field != x as u64 {
                    return Err(Error::Inconsistent(Region::Label));
                }
                let off = read_u32_at(sec, 20);
                let label = copy_bytes(&sec[24..32]);
                return Ok(LabelHeader { sector: sector_field, crc, offset: off as u64 + base as u64, label });
            }
            x = x + 1;
        }
        let mut what: Vec<u8> = label_magic_bytes();
        Err(Error::NotFound(what))
    }
}

/// The label sector for a PV header: `LABELONE`, its sector number, the CRC
/// of the rest, the header's offset within the sector, `LVM2 001`, and the
/// header itself.
pub open spec fn label_sector(pvh: Seq<u8>) -> Seq<u8> {
    let tail = spec_u32_to_le_bytes(LABEL_SIZE) + label_type() + pvh;
    label_magic() + spec_u64_to_le_bytes(LABEL_SECTOR) + spec_u32_to_le_bytes(lvm_crc(tail)) + tail
}

/// Build the label sector that stands before a PV header.
pub fn label_sector_bytes(pvh: &[u8]) -> (r: Vec<u8>)
    ensures
        r@ == label_sector(pvh@),
{
    let mut tail: Vec<u8> = crate::util::u32_bytes(LABEL_SIZE);
    push_all(&mut tail, label_type_bytes().as_slice());
    push_all(&mut tail, pvh);
    let crc = crc32_calc(tail.as_slice());
    let mut r = label_magic_bytes();
    push_all(&mut r, crate::util::u64_bytes(LABEL_SECTOR).as_slice());
    push_all(&mut r, crate::util::u32_bytes(crc).as_slice());
    push_all(&mut r, tail.as_slice());
    assert(r@ =~= label_sector(pvh@));
    r
}

/// An area within a PV, in bytes from the start of the device.
#[derive(Debug, Clone, Copy, PartialEq, Eq, Structural)]
pub struct PvArea {
    pub offset: u64,
    /// The size; zero for a data area means "to the end of the device".
    pub size: u64,
}

/// The list of areas that starts at byte `i`, ended by a zero offset; with
/// the position after the terminating entry.
pub open spec fn area_list(b: Seq<u8>, i: int) -> Option<(Seq<PvArea>, int)>
    decreases b.len() - i,
{
    if i < 0 || i + 16 > b.len() {
        None
    } else if u64_at(b, i) == 0 {
        Some((seq![], i + 16))
    } else {
        match area_list(b, i + 16) {
            Some((l, j)) => Some((seq![PvArea { offset: u64_at(b, i), size: u64_at(b, i + 8) }] + l, j)),
            None => None,
        }
    }
}

pub open spec fn prefix_areas(p: Seq<PvArea>, r: Option<(Seq<PvArea>, int)>) -> Option<(Seq<PvArea>, int)> {
    match r {
        Some((l, j)) => Some((p + l, j)),
        None => None,
    }
}

/// Reads the list of areas at byte `i0`.
pub fn iter_pv_area(b: &[u8], i0: usize) -> (r: Option<(Vec<PvArea>, usize)>)
    ensures
        match area_list(b@, i0 as int) {
            Some((l, j)) => r matches Some((v, k)) && v@ == l && k == j,
            None => r is None,
        },
{
    let n = b.len();
    let mut acc: Vec<PvArea> = Vec::new();
    let mut i = i0;
    assert(prefix_areas(acc@, area_list(b@, i as int)) =~= area_list(b@, i0 as int)) by {
        match area_list(b@, i0 as int) {
            Some((l, j)) => assert(acc@ + l =~= l),
            None => {},
        }
    }
    loop
        invariant
            n == b@.len(),
            i >= i0,
            prefix_areas(acc@, area_list(b@, i as int)) == area_list(b@, i0 as int),
        decreases n - i,
    {
        if i > n || n - i < 16 {
            return None;
        }
        let off = read_u64_at(b, i);
        if off == 0 {
            return Some((acc, i + 16));
        }
        let size = read_u64_at(b, i + 8);
        let a = PvArea { offset: off, size };
        proof {
            match area_list(b@, i + 16) {
                Some((l, j)) => {
                    assert(acc@.push(a) + l =~= acc@ + (seq![a] + l));
                },
                None => {},
            }
        }
        acc.push(a);
        i = i + 16;
    }
}

/// A device initialized as an LVM PV, which may not belong to a VG yet.
#[derive(Debug)]
pub struct PvHeader {
    /// The UUID, hyphenated.
    pub uuid: Vec<u8>,
    /// Size in bytes of the whole device.
    pub size: u64,
    /// Extension version; from 1 on, bootloader areas follow.
    pub ext_version: u32,
    /// Extension flags, of which none are defined.
    pub ext_flags: u32,
    pub data_areas: Vec<PvArea>,
    pub metadata_areas: Vec<PvArea>,
    pub bootloader_areas: Vec<PvArea>,
    /// The path of the device, as bytes.
    pub dev_path: Vec<u8>,
}

/// The areas and extension fields of a PV header: data areas, metadata
/// areas, extension version, extension flags, bootloader areas.
pub open spec fn header_fields(b: Seq<u8>) -> Option<(Seq<PvArea>, Seq<PvArea>, u32, u32, Seq<PvArea>)> {
    match area_list(b, 40) {
        None => None,
        Some((da, j)) => match area_list(b, j) {
            None => None,
            Some((mda, k)) => if k + 4 > b.len() {
                None
            } else if u32_at(b, k) == 0 {
                Some((da, mda, 0u32, 0u32, seq![]))
            } else if k + 8 > b.len() {
                None
            } else {
                match area_list(b, k + 8) {
                    None => None,
                    Some((ba, _)) => Some((da, mda, u32_at(b, k), u32_at(b, k + 4), ba)),
                }
            },
        },
    }
}

/// Whether the first four sectors hold a valid label.
pub open spec fn label_valid(buf: Seq<u8>) -> bool {
    let x = first_label(buf, 0);
    x >= 0 && u32_at(sector(buf, x), 16) == lvm_crc(sector(buf, x).subrange(20, 512)) && u64_at(sector(buf, x), 8) == x
}

/// Where the label says the PV header starts.
pub open spec fn label_offset(buf: Seq<u8>) -> int {
    u32_at(sector(buf, first_label(buf, 0)), 20) + first_label(buf, 0) * 512
}

/// Whether `h` is the PV header that `b` encodes, found on `path`.
pub open spec fn pvheader_is(b: Seq<u8>, path: Seq<u8>, h: PvHeader) -> bool {
    header_fields(b) matches Some((da, mda, v, f, ba)) && h.uuid@ == hyphenated(b.subrange(0, 32))
        && h.size == u64_at(b, 32) && h.data_areas@ == da && h.metadata_areas@ == mda
        && h.ext_version == v && h.ext_flags == f && h.bootloader_areas@ == ba && h.dev_path@ == path
}

impl PvHeader {
    /// Decode the PV header at the start of `buf`.
    pub fn from_buf(buf: &[u8], path: &[u8]) -> (r: Result<PvHeader, Error>)
        requires
            buf@.len() >= 40,
        ensures
            match header_fields(buf@) {
                None => r matches Err(Error::Corrupt(Region::PvHeader)),
                Some((da, mda, v, f, ba)) => r matches Ok(h) && h.uuid@ == hyphenated(buf@.subrange(0, 32))
                    && h.size == u64_at(buf@, 32) && h.data_areas@ == da && h.metadata_areas@ == mda
                    && h.ext_version == v && h.ext_flags == f && h.bootloader_areas@ == ba
                    && h.dev_path@ == path@,
            },
    {
        let n = buf.len();
        let (da, j) = match iter_pv_area(buf, 40) {
            Some(x) => x,
            None => {
                return Err(Error::Corrupt(Region::PvHeader));
            },
        };
        let (mda, k) = match iter_pv_area(buf, j) {
            Some(x) => x,
            None => {
                return Err(Error::Corrupt(Region::PvHeader));
            },
        };
        if k > n || n - k < 4 {
            return Err(Error::Corrupt(Region::PvHeader));
        }
        let ext_version = read_u32_at(buf, k);
        let mut ext_flags: u32 = 0;
        let mut ba: Vec<PvArea> = Vec::new();
        if ext_version != 0 {
            if n - k < 8 {
                return Err(Error::Corrupt(Region::PvHeader));
            }
            ext_flags = read_u32_at(buf, k + 4);
            match iter_pv_area(buf, k + 8) {
                Some((v, _)) => {
                    ba = v;
                },
                None => {
                    return Err(Error::Corrupt(Region::PvHeader));
                },
            }
        }
        Ok(PvHeader {
            uuid: hyphenate_uuid(buf),
            size: read_u64_at(buf, 32),
            ext_version,
            ext_flags,
            data_areas: da,
            metadata_areas: mda,
            bootloader_areas: ba,
            dev_path: copy_bytes(path),
        })
    }

    /// Decode the label and PV header found in the first four sectors of
    /// a device.
    pub fn find_in_buf(buf: &[u8], path: &[u8]) -> (r: Result<PvHeader, Error>)
        requires
            buf@.len() >= LABEL_SCAN_BYTES,
        ensures
            r matches Ok(h) ==> label_valid(buf@) && label_offset(buf@) + 40 <= buf@.len()
                && pvheader_is(buf@.subrange(label_offset(buf@), buf@.len() as int), path@, h),
            !label_valid(buf@) ==> r is Err,
            label_valid(buf@) && label_offset(buf@) + 40 <= buf@.len()
                && header_fields(buf@.subrange(label_offset(buf@), buf@.len() as int)) is Some ==> r is Ok,
    {
        let label = LabelHeader::from_buf(buf)?;
        let n = buf.len();
        if label.offset >= n as u64 || n as u64 - label.offset < 40 {
            return Err(Error::Corrupt(Region::PvHeader));
        }
        let off = label.offset as usize;
        PvHeader::from_buf(&buf[off..n], path)
    }
}

/// The bytes of an area descriptor.
pub open spec fn area_bytes(a: PvArea) -> Seq<u8> {
    spec_u64_to_le_bytes(a.offset) + spec_u64_to_le_bytes(a.size)
}

/// The first metadata area of a fresh PV: from sector 8 to the first MiB.
pub open spec fn fresh_mda0() -> PvArea {
    PvArea { offset: MDA0_OFFSET, size: (DEFAULT_MDA_SIZE - MDA0_OFFSET) as u64 }
}

/// The data area of a fresh PV: after the first metadata area, to the end.
pub open spec fn fresh_da0() -> PvArea {
    PvArea { offset: DEFAULT_MDA_SIZE, size: 0 }
}

/// The second metadata area of a fresh PV: the last MiB of the device.
pub open spec fn fresh_mda1(dev_size: u64) -> PvArea {
    PvArea { offset: (dev_size - DEFAULT_MDA_SIZE) as u64, size: DEFAULT_MDA_SIZE }
}

/// The all-zero descriptor that ends a list of areas.
pub open spec fn no_area() -> PvArea {
    PvArea { offset: 0, size: 0 }
}

/// The PV header of a fresh PV, padded to its room in the label sector.
pub open spec fn fresh_pvheader(uuid: Seq<u8>, dev_size: u64) -> Seq<u8> {
    uuid + spec_u64_to_le_bytes(dev_size) + area_bytes(fresh_da0()) + area_bytes(no_area())
        + area_bytes(fresh_mda0()) + area_bytes(fresh_mda1(dev_size)) + area_bytes(no_area())
        + spec_u32_to_le_bytes(EXTENSION_VERSION) + spec_u32_to_le_bytes(0) + area_bytes(no_area())
        + Seq::new(336, |i: int| 0u8)
}

fn push_area(out: &mut Vec<u8>, a: PvArea)
    ensures
        final(out)@ == old(out)@ + area_bytes(a),
{
    push_all(out, crate::util::u64_bytes(a.offset).as_slice());
    push_all(out, crate::util::u64_bytes(a.size).as_slice());
    assert(final(out)@ =~= old(out)@ + area_bytes(a));
}

impl PvHeader {
    /// Lay out a fresh PV on a device of `dev_size` bytes: metadata area 0
    /// at sector 8 up to the first MiB, the data area after it, metadata
    /// area 1 in the last MiB, no bootloader area, extension version 1.
    /// Returns the header, the label sector to write at sector 1, and the
    /// MDA header, with an empty text slot, to write at the start of each
    /// metadata area.
    pub fn initialize(dev_size: u64, uuid: &[u8], path: &[u8]) -> (r: Result<(PvHeader, Vec<u8>, Vec<Vec<u8>>), Error>)
        requires
            uuid@.len() == 32,
        ensures
            dev_size < 2 * DEFAULT_MDA_SIZE + MDA0_OFFSET ==> r matches Err(Error::Invariant(Violation::TooSmall)),
            match r {
                Ok((h, sector, hdrs)) => {
                    &&& dev_size >= 2 * DEFAULT_MDA_SIZE + MDA0_OFFSET
                    &&& hdrs@.len() == 2
                    &&& forall|i: int| 0 <= i < 2 ==> (#[trigger] hdrs@[i])@ == mda_header(h.metadata_areas@[i], empty_locn(), empty_tail())
                    &&& sector@ == label_sector(fresh_pvheader(uuid@, dev_size))
                    &&& sector@.len() == 512
                    &&& h.uuid@ == hyphenated(uuid@)
                    &&& h.size == dev_size
                    &&& h.ext_version == EXTENSION_VERSION && h.ext_flags == 0
                    &&& h.data_areas@ == seq![fresh_da0()]
                    &&& h.metadata_areas@ == seq![fresh_mda0(), fresh_mda1(dev_size)]
                    &&& h.bootloader_areas@.len() == 0
                    &&& h.dev_path@ == path@
                },
                Err(_) => dev_size < 2 * DEFAULT_MDA_SIZE + MDA0_OFFSET,
            },
    {
        if dev_size < 2 * DEFAULT_MDA_SIZE + MDA0_OFFSET {
            return Err(Error::Invariant(Violation::TooSmall));
        }
        let da0 = PvArea { offset: DEFAULT_MDA_SIZE, size: 0 };
        let mda0 = PvArea { offset: MDA0_OFFSET, size: DEFAULT_MDA_SIZE - MDA0_OFFSET };
        let mda1 = PvArea { offset: dev_size - DEFAULT_MDA_SIZE, size: DEFAULT_MDA_SIZE };
        let mut b: Vec<u8> = Vec::new();
        push_all(&mut b, uuid);
        push_all(&mut b, crate::util::u64_bytes(dev_size).as_slice());
        let none = PvArea { offset: 0, size: 0 };
        push_area(&mut b, da0);
        push_area(&mut b, none);
        push_area(&mut b, mda0);
        push_area(&mut b, mda1);
        push_area(&mut b, none);
        push_all(&mut b, crate::util::u32_bytes(EXTENSION_VERSION).as_slice());
        push_all(&mut b, crate::util::u32_bytes(0).as_slice());
        push_area(&mut b, none);
        push_all(&mut b, zeros(336).as_slice());
        assert(b@ =~= fresh_pvheader(uuid@, dev_size));
        let sector = label_sector_bytes(b.as_slice());
        proof {
            vstd::bytes::lemma_auto_spec_u32_to_from_le_bytes();
            vstd::bytes::lemma_auto_spec_u64_to_from_le_bytes();
            assert(spec_u64_to_le_bytes(dev_size).len() == 8);
            assert(spec_u64_to_le_bytes(da0.offset).len() == 8);
            assert(spec_u64_to_le_bytes(da0.size).len() == 8);
            assert(spec_u64_to_le_bytes(mda0.offset).len() == 8);
            assert(spec_u64_to_le_bytes(mda0.size).len() == 8);
            assert(spec_u64_to_le_bytes(mda1.offset).len() == 8);
            assert(spec_u64_to_le_bytes(mda1.size).len() == 8);
            assert(spec_u32_to_le_bytes(EXTENSION_VERSION).len() == 4);
            assert(spec_u32_to_le_bytes(LABEL_SIZE).len() == 4);
            assert(spec_u64_to_le_bytes(LABEL_SECTOR).len() == 8);
        }
        let mut data_areas: Vec<PvArea> = Vec::new();
        data_areas.push(da0);
        let mut metadata_areas: Vec<PvArea> = Vec::new();
        metadata_areas.push(mda0);
        metadata_areas.push(mda1);
        assert(data_areas@ =~= seq![fresh_da0()]);
        assert(metadata_areas@ =~= seq![fresh_mda0(), fresh_mda1(dev_size)]);
        let h = PvHeader {
            uuid: hyphenate_uuid(uuid),
            size: dev_size,
            ext_version: EXTENSION_VERSION,
            ext_flags: 0,
            data_areas,
            metadata_areas,
            bootloader_areas: Vec::new(),
            dev_path: copy_bytes(path),
        };
        let mut hdrs: Vec<Vec<u8>> = Vec::new();
        hdrs.push(mda_header_bytes(mda0, RawLocn { offset: 0, size: 0, checksum: 0, ignored: false }));
        hdrs.push(mda_header_bytes(mda1, RawLocn { offset: 0, size: 0, checksum: 0, ignored: false }));
        Ok((h, sector, hdrs))
    }
}

proof fn lemma_u64_in(b: Seq<u8>, h: Seq<u8>, o: int, x: u64)
    requires
        h.len() <= b.len(),
        b.subrange(0, h.len() as int) == h,
        0 <= o,
        o + 8 <= h.len(),
        h.subrange(o, o + 8) == spec_u64_to_le_bytes(x),
    ensures
        u64_at(b, o) == x,
{
    vstd::bytes::lemma_auto_spec_u64_to_from_le_bytes();
    assert(b.subrange(o, o + 8) =~= h.subrange(o, o + 8)) by {
        assert forall|i: int| 0 <= i < 8 implies #[trigger] b.subrange(o, o + 8)[i] == h.subrange(o, o + 8)[i] by {
            assert(b.subrange(0, h.len() as int)[o + i] == b[o + i]);
        }
    }
}

proof fn lemma_u32_in(b: Seq<u8>, h: Seq<u8>, o: int, x: u32)
    requires
        h.len() <= b.len(),
        b.subrange(0, h.len() as int) == h,
        0 <= o,
        o + 4 <= h.len(),
        h.subrange(o, o + 4) == spec_u32_to_le_bytes(x),
    ensures
        u32_at(b, o) == x,
{
    vstd::bytes::lemma_auto_spec_u32_to_from_le_bytes();
    assert(b.subrange(o, o + 4) =~= h.subrange(o, o + 4)) by {
        assert forall|i: int| 0 <= i < 4 implies #[trigger] b.subrange(o, o + 4)[i] == h.subrange(o, o + 4)[i] by {
            assert(b.subrange(0, h.len() as int)[o + i] == b[o + i]);
        }
    }
}

/// The first four sectors of a device whose label sector is the one
/// `initialize` built (and whose first sector holds no label) read back as
/// the fresh PV: a valid label pointing at byte 544, one data area, the two
/// metadata areas, extension version 1, no bootloader area.
pub proof fn lemma_initialized_reads_back(buf: Seq<u8>, uuid: Seq<u8>, dev_size: u64)
    requires
        buf.len() >= LABEL_SCAN_BYTES,
        uuid.len() == 32,
        dev_size >= 2 * DEFAULT_MDA_SIZE + MDA0_OFFSET,
        !has_label(buf, 0),
        sector(buf, 1) == label_sector(fresh_pvheader(uuid, dev_size)),
    ensures
        label_valid(buf),
        label_offset(buf) == 544,
        header_fields(buf.subrange(544, buf.len() as int))
            == Some((seq![fresh_da0()], seq![fresh_mda0(), fresh_mda1(dev_size)], EXTENSION_VERSION, 0u32, Seq::<PvArea>::empty())),
{
    vstd::bytes::lemma_auto_spec_u32_to_from_le_bytes();
    vstd::bytes::lemma_auto_spec_u64_to_from_le_bytes();
    let pvh = fresh_pvheader(uuid, dev_size);
    let tail = spec_u32_to_le_bytes(LABEL_SIZE) + label_type() + pvh;
    let sec = sector(buf, 1);
    let z = no_area();
    assert(spec_u64_to_le_bytes(dev_size).len() == 8);
    assert(spec_u64_to_le_bytes(fresh_da0().offset).len() == 8 && spec_u64_to_le_bytes(fresh_da0().size).len() == 8);
    assert(spec_u64_to_le_bytes(fresh_mda0().offset).len() == 8 && spec_u64_to_le_bytes(fresh_mda0().size).len() == 8);
    assert(spec_u64_to_le_bytes(fresh_mda1(dev_size).offset).len() == 8 && spec_u64_to_le_bytes(fresh_mda1(dev_size).size).len() == 8);
    assert(spec_u64_to_le_bytes(z.offset).len() == 8 && spec_u64_to_le_bytes(z.size).len() == 8);
    assert(spec_u32_to_le_bytes(EXTENSION_VERSION).len() == 4 && spec_u32_to_le_bytes(0).len() == 4);
    assert(spec_u32_to_le_bytes(LABEL_SIZE).len() == 4);
    assert(spec_u64_to_le_bytes(LABEL_SECTOR).len() == 8);
    assert(pvh.len() == 480);
    assert(sec == label_magic() + spec_u64_to_le_bytes(LABEL_SECTOR) + spec_u32_to_le_bytes(lvm_crc(tail)) + tail);
    assert(sec.subrange(0, 8) =~= label_magic());
    assert(first_label(buf, 1) == 1);
    assert(first_label(buf, 0) == 1);
    assert(sec.subrange(16, 20) =~= spec_u32_to_le_bytes(lvm_crc(tail)));
    assert(sec.subrange(20, 512) =~= tail);
    assert(sec.subrange(8, 16) =~= spec_u64_to_le_bytes(LABEL_SECTOR));
    assert(sec.subrange(20, 24) =~= spec_u32_to_le_bytes(LABEL_SIZE));
    assert(label_valid(buf));
    assert(label_offset(buf) == 544);
    let b = buf.subrange(544, buf.len() as int);
    assert(b.subrange(0, 480) =~= pvh) by {
        assert forall|i: int| 0 <= i < 480 implies #[trigger] b.subrange(0, 480)[i] == pvh[i] by {
            assert(sec[32 + i] == buf[512 + 32 + i]);
            assert(sec[32 + i] == tail[12 + i]);
        }
    }
    assert(pvh.subrange(40, 48) =~= spec_u64_to_le_bytes(fresh_da0().offset));
    assert(pvh.subrange(48, 56) =~= spec_u64_to_le_bytes(fresh_da0().size));
    assert(pvh.subrange(56, 64) =~= spec_u64_to_le_bytes(z.offset));
    assert(pvh.subrange(72, 80) =~= spec_u64_to_le_bytes(fresh_mda0().offset));
    assert(pvh.subrange(80, 88) =~= spec_u64_to_le_bytes(fresh_mda0().size));
    assert(pvh.subrange(88, 96) =~= spec_u64_to_le_bytes(fresh_mda1(dev_size).offset));
    assert(pvh.subrange(96, 104) =~= spec_u64_to_le_bytes(fresh_mda1(dev_size).size));
    assert(pvh.subrange(104, 112) =~= spec_u64_to_le_bytes(z.offset));
    assert(pvh.subrange(120, 124) =~= spec_u32_to_le_bytes(EXTENSION_VERSION));
    assert(pvh.subrange(124, 128) =~= spec_u32_to_le_bytes(0));
    assert(pvh.subrange(128, 136) =~= spec_u64_to_le_bytes(z.offset));
    lemma_u64_in(b, pvh, 40, fresh_da0().offset);
    lemma_u64_in(b, pvh, 48, fresh_da0().size);
    lemma_u64_in(b, pvh, 56, 0);
    lemma_u64_in(b, pvh, 72, fresh_mda0().offset);
    lemma_u64_in(b, pvh, 80, fresh_mda0().size);
    lemma_u64_in(b, pvh, 88, fresh_mda1(dev_size).offset);
    lemma_u64_in(b, pvh, 96, fresh_mda1(dev_size).size);
    lemma_u64_in(b, pvh, 104, 0);
    lemma_u32_in(b, pvh, 120, EXTENSION_VERSION);
    lemma_u32_in(b, pvh, 124, 0);
    lemma_u64_in(b, pvh, 128, 0);
    assert(area_list(b, 56) == Some((Seq::<PvArea>::empty(), 72int)));
    assert(area_list(b, 40) == Some((seq![fresh_da0()], 72int))) by {
        assert(seq![fresh_da0()] + Seq::<PvArea>::empty() =~= seq![fresh_da0()]);
    }
    assert(area_list(b, 104) == Some((Seq::<PvArea>::empty(), 120int)));
    assert(area_list(b, 88) == Some((seq![fresh_mda1(dev_size)], 120int))) by {
        assert(seq![fresh_mda1(dev_size)] + Seq::<PvArea>::empty() =~= seq![fresh_mda1(dev_size)]);
    }
    assert(area_list(b, 72) == Some((seq![fresh_mda0(), fresh_mda1(dev_size)], 120int))) by {
        assert(seq![fresh_mda0()] + seq![fresh_mda1(dev_size)] =~= seq![fresh_mda0(), fresh_mda1(dev_size)]);
    }
    assert(area_list(b, 128) == Some((Seq::<PvArea>::empty(), 144int)));
}

} // verus!
