//! Metadata areas: a 512-byte header and a byte ring holding the text of
//! the VG metadata.
//!
//! Callers hand over an image of a whole metadata area (its header sector
//! included) and write back what the library changed. A commit writes the
//! new text after the previous one, wrapping to byte 512, and only then
//! swaps the pointer in the header.

use vstd::prelude::*;
use vstd::bytes::{spec_u32_to_le_bytes, spec_u64_to_le_bytes};
use crate::error::{Error, Region};
use crate::pvheader::PvArea;
use crate::util::{crc32_calc, lvm_crc, overwrite, push_all, put_bytes, read_u32_at, read_u64_at, u32_at, u32_bytes, u64_at, u64_bytes, zeros};

verus! {

pub const MDA_VERSION: u32 = 1;

/// The magic of an MDA header, ` LVM2 x[5A%r0N*>`.
pub open spec fn mda_magic() -> Seq<u8> {
    seq![32u8, 76, 86, 77, 50, 32, 120, 91, 53, 65, 37, 114, 48, 78, 42, 62]
}

fn mda_magic_bytes() -> (r: Vec<u8>)
    ensures
        r@ == mda_magic(),
{
    let r: Vec<u8> = vec![32u8, 76, 86, 77, 50, 32, 120, 91, 53, 65, 37, 114, 48, 78, 42, 62];
    assert(r@ == mda_magic());
    r
}

/// Where the live text of a metadata area is: its offset within the area,
/// its size, its CRC, and whether the area is to be ignored.
#[derive(Debug, Clone, Copy, PartialEq, Eq, Structural)]
pub struct RawLocn {
    pub offset: u64,
    pub size: u64,
    pub checksum: u32,
    pub ignored: bool,
}

/// An unused text slot.
pub open spec fn empty_locn() -> RawLocn {
    RawLocn { offset: 0, size: 0, checksum: 0, ignored: false }
}

/// The rest of the header after the first location slot (bytes 64..512):
/// the reserved second slot and what follows it.
pub open spec fn empty_tail() -> Seq<u8> {
    Seq::new(448, |i: int| 0u8)
}

/// The bytes after the CRC of an MDA header.
pub open spec fn mda_header_body(area: PvArea, rl: RawLocn, tail: Seq<u8>) -> Seq<u8> {
    mda_magic() + spec_u32_to_le_bytes(MDA_VERSION) + spec_u64_to_le_bytes(area.offset)
        + spec_u64_to_le_bytes(area.size) + spec_u64_to_le_bytes(rl.offset) + spec_u64_to_le_bytes(rl.size)
        + spec_u32_to_le_bytes(rl.checksum) + spec_u32_to_le_bytes(if rl.ignored { 1u32 } else { 0u32 })
        + tail
}

/// The 512-byte MDA header for an area whose text is at `rl`, with `tail`
/// as bytes 64..512.
pub open spec fn mda_header(area: PvArea, rl: RawLocn, tail: Seq<u8>) -> Seq<u8> {
    spec_u32_to_le_bytes(lvm_crc(mda_header_body(area, rl, tail))) + mda_header_body(area, rl, tail)
}

/// Build a fresh MDA header, whose other slots are empty, for an area whose
/// text is at `rl`.
pub fn mda_header_bytes(area: PvArea, rl: RawLocn) -> (r: Vec<u8>)
    ensures
        r@ == mda_header(area, rl, empty_tail()),
        r@.len() == 512,
{
    let tail = zeros(448);
    mda_header_with(area, rl, tail.as_slice())
}

/// Build the MDA header for an area whose text is at `rl`, keeping `tail`
/// as bytes 64..512.
pub fn mda_header_with(area: PvArea, rl: RawLocn, tail: &[u8]) -> (r: Vec<u8>)
    requires
        tail@.len() == 448,
    ensures
        r@ == mda_header(area, rl, tail@),
        r@.len() == 512,
{
    let mut body = mda_magic_bytes();
    push_all(&mut body, u32_bytes(MDA_VERSION).as_slice());
    push_all(&mut body, u64_bytes(area.offset).as_slice());
    push_all(&mut body, u64_bytes(area.size).as_slice());
    push_all(&mut body, u64_bytes(rl.offset).as_slice());
    push_all(&mut body, u64_bytes(rl.size).as_slice());
    push_all(&mut body, u32_bytes(rl.checksum).as_slice());
    let flags: u32 = if rl.ignored { 1 } else { 0 };
    push_all(&mut body, u32_bytes(flags).as_slice());
    push_all(&mut body, tail);
    assert(body@ =~= mda_header_body(area, rl, tail@));
    let crc = crc32_calc(body.as_slice());
    let mut r = u32_bytes(crc);
    push_all(&mut r, body.as_slice());
    proof {
        vstd::bytes::lemma_auto_spec_u32_to_from_le_bytes();
        vstd::bytes::lemma_auto_spec_u64_to_from_le_bytes();
    }
    r
}

/// The pointer that a header holds, where its first slot is in use.
pub open spec fn locn_at(hdr: Seq<u8>) -> RawLocn {
    RawLocn {
        offset: u64_at(hdr, 40),
        size: u64_at(hdr, 48),
        checksum: u32_at(hdr, 56),
        ignored: u32_at(hdr, 60) & 1 != 0,
    }
}

/// What reading an MDA header gives, as a predicate on the outcome.
pub open spec fn mda_header_outcome(hdr: Seq<u8>, area: PvArea, r: Result<Option<RawLocn>, Error>) -> bool {
    if u32_at(hdr, 0) != lvm_crc(hdr.subrange(4, 512)) || hdr.subrange(4, 20) != mda_magic()
        || u32_at(hdr, 20) != MDA_VERSION {
        r matches Err(Error::Corrupt(Region::Mda))
    } else if u64_at(hdr, 24) != area.offset || u64_at(hdr, 32) != area.size {
        r matches Err(Error::Inconsistent(Region::Mda))
    } else if u64_at(hdr, 40) == 0 {
        r matches Ok(None)
    } else {
        r == Ok::<Option<RawLocn>, Error>(Some(locn_at(hdr)))
    }
}

fn seq_eq(a: &[u8], b: &Vec<u8>) -> (r: bool)
    ensures
        r == (a@ == b@),
{
    crate::parser::bytes_eq(a, b.as_slice())
}

/// Check an MDA header against the area that holds it, and return its
/// live text pointer, if any.
pub fn read_mda_header(hdr: &[u8], area: PvArea) -> (r: Result<Option<RawLocn>, Error>)
    requires
        hdr@.len() == 512,
    ensures
        mda_header_outcome(hdr@, area, r),
{
    let crc = read_u32_at(hdr, 0);
    if crc != crc32_calc(&hdr[4..512]) || !seq_eq(&hdr[4..20], &mda_magic_bytes())
        || read_u32_at(hdr, 20) != MDA_VERSION {
        return Err(Error::Corrupt(Region::Mda));
    }
    if read_u64_at(hdr, 24) != area.offset || read_u64_at(hdr, 32) != area.size {
        return Err(Error::Inconsistent(Region::Mda));
    }
    let offset = read_u64_at(hdr, 40);
    if offset == 0 {
        return Ok(None);
    }
    let flags = read_u32_at(hdr, 60);
    Ok(Some(RawLocn {
        offset,
        size: read_u64_at(hdr, 48),
        checksum: read_u32_at(hdr, 56),
        ignored: flags & 1 != 0,
    }))
}

/// A header that this library wrote reads back as what it was built from.
pub proof fn lemma_mda_header_round_trip(area: PvArea, rl: RawLocn, tail: Seq<u8>)
    requires
        rl.offset != 0,
        tail.len() == 448,
    ensures
        mda_header_outcome(mda_header(area, rl, tail), area, Ok(Some(RawLocn { ignored: rl.ignored, ..rl }))),
{
    vstd::bytes::lemma_auto_spec_u32_to_from_le_bytes();
    vstd::bytes::lemma_auto_spec_u64_to_from_le_bytes();
    let h = mda_header(area, rl, tail);
    let body = mda_header_body(area, rl, tail);
    assert(h.subrange(4, 512) =~= body);
    assert(h.subrange(0, 4) =~= spec_u32_to_le_bytes(lvm_crc(body)));
    assert(h.subrange(4, 20) =~= mda_magic());
    assert(h.subrange(20, 24) =~= spec_u32_to_le_bytes(MDA_VERSION));
    assert(h.subrange(24, 32) =~= spec_u64_to_le_bytes(area.offset));
    assert(h.subrange(32, 40) =~= spec_u64_to_le_bytes(area.size));
    assert(h.subrange(40, 48) =~= spec_u64_to_le_bytes(rl.offset));
    assert(h.subrange(48, 56) =~= spec_u64_to_le_bytes(rl.size));
    assert(h.subrange(56, 60) =~= spec_u32_to_le_bytes(rl.checksum));
    let fl: u32 = if rl.ignored { 1u32 } else { 0u32 };
    assert(h.subrange(60, 64) =~= spec_u32_to_le_bytes(fl));
    assert(1u32 & 1 != 0) by (bit_vector);
    assert(0u32 & 1 == 0) by (bit_vector);
}

/// The first part of a text of `n` bytes at `o` runs to the end of the
/// area at most; this is its length.
pub open spec fn first_part(o: int, n: int, s: int) -> int {
    if s - o < n {
        s - o
    } else {
        n
    }
}

/// Whether byte `i` of an area of `s` bytes belongs to a text of `n`
/// bytes at `o`, which wraps to byte 512.
pub open spec fn in_text(i: int, o: int, n: int, s: int) -> bool {
    (o <= i < o + first_part(o, n, s)) || (512 <= i < 512 + (n - first_part(o, n, s)))
}

/// The text that `rl` points at in an area image, if it lies within it.
pub open spec fn ring_text(img: Seq<u8>, rl: RawLocn) -> Option<Seq<u8>> {
    let s = img.len() as int;
    let o = rl.offset as int;
    let n = rl.size as int;
    if o < 512 || o > s {
        None
    } else {
        let first = first_part(o, n, s);
        if 512 + (n - first) > s {
            None
        } else {
            Some(img.subrange(o, o + first) + img.subrange(512, 512 + (n - first)))
        }
    }
}

/// Whether the header of an area image is valid for `area`.
pub open spec fn header_valid(img: Seq<u8>, area: PvArea) -> bool {
    let hdr = img.subrange(0, 512);
    u32_at(hdr, 0) == lvm_crc(hdr.subrange(4, 512)) && hdr.subrange(4, 20) == mda_magic()
        && u32_at(hdr, 20) == MDA_VERSION && u64_at(hdr, 24) == area.offset && u64_at(hdr, 32) == area.size
}

/// The pointer to the live text of an area image, if it has one.
pub open spec fn live_locn(img: Seq<u8>, area: PvArea) -> Option<RawLocn> {
    let hdr = img.subrange(0, 512);
    if header_valid(img, area) && u64_at(hdr, 40) != 0 && !locn_at(hdr).ignored {
        Some(locn_at(hdr))
    } else {
        None
    }
}

/// The live text of an area image: there, and matching its CRC.
pub open spec fn mda_text(img: Seq<u8>, area: PvArea) -> Option<Seq<u8>> {
    match live_locn(img, area) {
        Some(rl) => match ring_text(img, rl) {
            Some(t) => if lvm_crc(t) == rl.checksum {
                Some(t)
            } else {
                None
            },
            None => None,
        },
        None => None,
    }
}

/// Read the text that `rl` points at and check its CRC.
pub fn read_text(img: &[u8], rl: RawLocn) -> (r: Result<Vec<u8>, Error>)
    ensures
        match ring_text(img@, rl) {
            None => r matches Err(Error::Inconsistent(Region::Mda)),
            Some(t) => if lvm_crc(t) == rl.checksum {
                r matches Ok(v) && v@ == t
            } else {
                r matches Err(Error::Corrupt(Region::TextPayload))
            },
        },
{
    let s = img.len() as u64;
    if rl.offset < 512 || rl.offset > s {
        return Err(Error::Inconsistent(Region::Mda));
    }
    let first = if s - rl.offset < rl.size { s - rl.offset } else { rl.size };
    let rest = rl.size - first;
    if rest > s - 512 {
        return Err(Error::Inconsistent(Region::Mda));
    }
    let mut text: Vec<u8> = Vec::new();
    crate::util::push_range(&mut text, img, rl.offset as usize, (rl.offset + first) as usize);
    crate::util::push_range(&mut text, img, 512, (512 + rest) as usize);
    if crc32_calc(text.as_slice()) != rl.checksum {
        return Err(Error::Corrupt(Region::TextPayload));
    }
    Ok(text)
}

/// Read the live metadata text of an area image: `None` where the area
/// holds none or is to be ignored.
pub fn read_metadata(img: &[u8], area: PvArea) -> (r: Result<Option<Vec<u8>>, Error>)
    requires
        img@.len() >= 512,
    ensures
        match mda_text(img@, area) {
            Some(t) => r matches Ok(Some(v)) && v@ == t,
            None => !(r matches Ok(Some(_))),
        },
        header_valid(img@, area) && live_locn(img@, area) is None ==> r matches Ok(None),
{
    let hdr = &img[0..512];
    assert(hdr@ == img@.subrange(0, 512));
    match read_mda_header(hdr, area)? {
        None => Ok(None),
        Some(rl) => {
            if rl.ignored {
                return Ok(None);
            }
            let t = read_text(img, rl)?;
            Ok(Some(t))
        },
    }
}

/// Where a text of `prev` ends in an area of `s` bytes.
pub open spec fn prev_end(prev: RawLocn, s: int) -> int {
    if prev.offset + prev.size <= s {
        prev.offset + prev.size
    } else {
        512 + (prev.offset + prev.size - s)
    }
}

/// Where the text after `prev` starts: at the next sector boundary after
/// it, or at byte 512 where that is past the area.
pub open spec fn next_start(prev: RawLocn, s: int) -> int {
    let a = crate::util::aligned_up(prev_end(prev, s), 512);
    if a < 512 || a >= s {
        512
    } else {
        a
    }
}

proof fn lemma_aligned_bounds(x: int)
    requires
        x >= 0,
    ensures
        x <= crate::util::aligned_up(x, 512) <= x + 511,
{
    vstd::arithmetic::div_mod::lemma_fundamental_div_mod(x + 511, 512);
}

/// What writing a text at `rl` changes in an area image: the bytes of the
/// text, and nothing else.
pub open spec fn payload_written(before: Seq<u8>, after: Seq<u8>, rl: RawLocn) -> bool {
    let s = before.len() as int;
    &&& after.len() == before.len()
    &&& forall|i: int| 0 <= i < s && !in_text(i, rl.offset as int, rl.size as int, s) ==> #[trigger] after[i] == before[i]
}

/// Write a text into the ring after the one at `prev`, leaving the header
/// as it is. Returns where the text now is.
#[verifier::rlimit(80)]
pub fn write_payload(img: &mut Vec<u8>, prev: RawLocn, text: &[u8]) -> (r: Result<RawLocn, Error>)
    requires
        old(img)@.len() > 512,
    ensures
        match r {
            Ok(rl) => {
                &&& text@.len() <= old(img)@.len() - 512
                &&& rl.offset == next_start(prev, old(img)@.len() as int)
                &&& rl.size == text@.len()
                &&& rl.checksum == lvm_crc(text@)
                &&& !rl.ignored
                &&& payload_written(old(img)@, final(img)@, rl)
                &&& ring_text(final(img)@, rl) == Some(text@)
            },
            Err(e) => {
                &&& text@.len() > old(img)@.len() - 512
                &&& e matches Error::NoSpace { requested, available }
                &&& requested == text@.len() && available == old(img)@.len() - 512
                &&& final(img)@ == old(img)@
            },
        },
{
    let s = img.len();
    let n = text.len();
    if n > s - 512 {
        return Err(Error::NoSpace { requested: n as u64, available: (s - 512) as u64 });
    }
    let o = prev.offset as u128;
    let sz = prev.size as u128;
    let end: u128 = if o + sz <= s as u128 { o + sz } else { 512 + (o + sz - s as u128) };
    let a: u128 = (end + 511) / 512 * 512;
    let start: usize = if a < 512 || a >= s as u128 { 512 } else { a as usize };
    assert(start == next_start(prev, s as int));
    let first: usize = if s - start < n { s - start } else { n };
    let rest = n - first;
    let ghost before = img@;
    put_bytes(img, start, &text[0..first]);
    let ghost mid = img@;
    put_bytes(img, 512, &text[first..n]);
    let rl = RawLocn { offset: start as u64, size: n as u64, checksum: crc32_calc(text), ignored: false };
    proof {
        assert forall|i: int| 0 <= i < s && !in_text(i, start as int, n as int, s as int) implies #[trigger] img@[i] == before[i] by {
            assert(img@[i] == mid[i]);
        }
        assert(img@.subrange(start as int, start + first) =~= text@.subrange(0, first as int));
        assert(img@.subrange(512, 512 + rest) =~= text@.subrange(first as int, n as int));
        assert(text@.subrange(0, first as int) + text@.subrange(first as int, n as int) =~= text@);
    }
    Ok(rl)
}

/// An area whose commit stopped after the text was written and before the
/// header was rewritten still reads as it did before, provided the old and
/// the new text fit in the ring together with a sector of slack.
pub proof fn lemma_interrupted_write_reads_previous(before: Seq<u8>, after: Seq<u8>, area: PvArea, new: RawLocn)
    requires
        before.len() > 512,
        live_locn(before, area) matches Some(prev) && ring_text(before, prev) is Some
            && new.offset == next_start(prev, before.len() as int)
            && prev.size + new.size + 1024 <= before.len(),
        payload_written(before, after, new),
    ensures
        mda_text(after, area) == mda_text(before, area),
{
    let s = before.len() as int;
    let prev = live_locn(before, area)->Some_0;
    let o = prev.offset as int;
    let n1 = prev.size as int;
    let n2 = new.size as int;
    let st = new.offset as int;
    lemma_aligned_bounds(prev_end(prev, s));
    assert forall|i: int| 0 <= i < 512 implies after[i] == before[i] by {
        assert(!in_text(i, st, n2, s));
    }
    assert(after.subrange(0, 512) =~= before.subrange(0, 512));
    assert forall|i: int| 0 <= i < s && in_text(i, o, n1, s) implies after[i] == before[i] by {
        assert(!in_text(i, st, n2, s));
    }
    let f1 = first_part(o, n1, s);
    assert(after.subrange(o, o + f1) =~= before.subrange(o, o + f1));
    assert(after.subrange(512, 512 + (n1 - f1)) =~= before.subrange(512, 512 + (n1 - f1)));
    assert(live_locn(after, area) == live_locn(before, area));
}

/// The text location that the next write follows: the live one, or an
/// empty text at byte 512 where the header has none.
pub open spec fn prev_locn(img: Seq<u8>) -> RawLocn {
    if u64_at(img, 40) != 0 {
        locn_at(img.subrange(0, 512))
    } else {
        RawLocn { offset: 512, size: 0, checksum: 0, ignored: false }
    }
}

/// Where a write of `text` into an area image puts it: right after the
/// previous text, with its size and CRC.
pub open spec fn next_locn(img: Seq<u8>, text: Seq<u8>) -> RawLocn {
    RawLocn {
        offset: next_start(prev_locn(img), img.len() as int) as u64,
        size: text.len() as u64,
        checksum: lvm_crc(text),
        ignored: false,
    }
}

/// Write a metadata text into an area image: the text after the live one,
/// then the header that points at it. An area marked to be ignored is left
/// as it is (`Ok(false)`).
pub fn write_metadata(img: &mut Vec<u8>, area: PvArea, text: &[u8]) -> (r: Result<bool, Error>)
    requires
        old(img)@.len() > 512,
    ensures
        r matches Ok(true) ==> mda_text(final(img)@, area) == Some(text@) && header_valid(final(img)@, area),
        r matches Ok(false) ==> final(img)@ == old(img)@,
        header_valid(old(img)@, area) && text@.len() <= old(img)@.len() - 512
            && !(u64_at(old(img)@, 40) != 0 && locn_at(old(img)@.subrange(0, 512)).ignored) ==> r matches Ok(true),
        r is Err ==> final(img)@ == old(img)@,
        final(img)@.len() == old(img)@.len(),
        final(img)@.subrange(64, 512) == old(img)@.subrange(64, 512),
        header_valid(old(img)@, area) && u64_at(old(img)@, 40) != 0 && locn_at(old(img)@.subrange(0, 512)).ignored
            ==> r == Ok::<bool, Error>(false),
        r matches Ok(true) ==> locn_at(final(img)@.subrange(0, 512)) == next_locn(old(img)@, text@),
{
    let hdr_r = read_mda_header(&img.as_slice()[0..512], area);
    assert(img@.subrange(0, 512).subrange(40, 48) == img@.subrange(40, 48));
    let prev = match hdr_r {
        Err(e) => {
            return Err(e);
        },
        Ok(None) => RawLocn { offset: 512, size: 0, checksum: 0, ignored: false },
        Ok(Some(rl)) => {
            if rl.ignored {
                return Ok(false);
            }
            rl
        },
    };
    let rl = write_payload(img, prev, text)?;
    let ghost mid = img@;
    let hdr = mda_header_with(area, rl, &img.as_slice()[64..512]);
    assert(mid.subrange(64, 512) == old(img)@.subrange(64, 512)) by {
        assert forall|i: int| 64 <= i < 512 implies mid[i] == old(img)@[i] by {
            assert(!in_text(i, rl.offset as int, rl.size as int, mid.len() as int));
        }
        assert(mid.subrange(64, 512) =~= old(img)@.subrange(64, 512));
    }
    put_bytes(img, 0, hdr.as_slice());
    proof {
        lemma_mda_header_round_trip(area, rl, mid.subrange(64, 512));
        let s = img@.len() as int;
        assert(img@.subrange(0, 512) =~= mda_header(area, rl, mid.subrange(64, 512)));
        assert(img@.subrange(64, 512) =~= old(img)@.subrange(64, 512));
        assert(rl.offset >= 512);
        let f = first_part(rl.offset as int, rl.size as int, s);
        assert(img@.subrange(rl.offset as int, rl.offset + f) =~= mid.subrange(rl.offset as int, rl.offset + f));
        assert(img@.subrange(512, 512 + (rl.size - f)) =~= mid.subrange(512, 512 + (rl.size - f)));
        assert(ring_text(img@, rl) == ring_text(mid, rl));
    }
    Ok(true)
}

/// The live text of the first of several metadata areas that holds a
/// valid one, areas being tried in order.
pub fn read_first(images: &Vec<Vec<u8>>, areas: &Vec<PvArea>) -> (r: Result<Vec<u8>, Error>)
    requires
        images@.len() == areas@.len(),
    ensures
        match r {
            Ok(t) => exists|i: int| 0 <= i < images@.len() && images@[i]@.len() >= 512
                && mda_text(images@[i]@, areas@[i]) == Some(t@)
                && forall|j: int| 0 <= j < i && images@[j]@.len() >= 512 ==> #[trigger] mda_text(images@[j]@, areas@[j]) is None,
            Err(e) => (e matches Error::NotFound(_)) && forall|j: int| 0 <= j < images@.len() && images@[j]@.len() >= 512
                ==> #[trigger] mda_text(images@[j]@, areas@[j]) is None,
        },
{
    let mut i: usize = 0;
    while i < images.len()
        invariant
            images@.len() == areas@.len(),
            i <= images@.len(),
            forall|j: int| 0 <= j < i && images@[j]@.len() >= 512 ==> #[trigger] mda_text(images@[j]@, areas@[j]) is None,
        decreases images@.len() - i,
    {
        let img = &images[i];
        if img.len() >= 512 {
            match read_metadata(img.as_slice(), areas[i]) {
                Ok(Some(t)) => {
                    return Ok(t);
                },
                _ => {},
            }
        }
        i = i + 1;
    }
    Err(Error::NotFound(crate::parser::text_bytes("metadata")))
}

} // verus!
