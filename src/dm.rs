//! Device-mapper tables for LVs: the name of an LV's device and the
//! target lines that map it onto its PVs.

use vstd::prelude::*;
use vstd::string::StringSliceAdditionalSpecFns;
use crate::error::{Error, Violation};
use crate::lexer::CH_MINUS;
use crate::model::{Device, Segment, LV, PV};
use crate::parser::{nat_digits, push_digits, text_bytes};
use crate::util::push_all;
use crate::vg::VG;

verus! {

pub const CH_COLON: u8 = 58;
pub const CH_SPACE: u8 = 32;

/// A name with every `-` doubled.
pub open spec fn escaped(s: Seq<u8>) -> Seq<u8>
    decreases s.len(),
{
    if s.len() == 0 {
        seq![]
    } else if s.last() == CH_MINUS {
        escaped(s.drop_last()) + seq![CH_MINUS, CH_MINUS]
    } else {
        escaped(s.drop_last()) + seq![s.last()]
    }
}

fn push_escaped(out: &mut Vec<u8>, s: &[u8])
    ensures
        final(out)@ == old(out)@ + escaped(s@),
{
    let mut i: usize = 0;
    assert(s@.subrange(0, 0) =~= Seq::<u8>::empty());
    assert(old(out)@ + escaped(s@.subrange(0, 0)) =~= old(out)@);
    while i < s.len()
        invariant
            i <= s@.len(),
            out@ == old(out)@ + escaped(s@.subrange(0, i as int)),
        decreases s@.len() - i,
    {
        let ghost sub = s@.subrange(0, i + 1);
        assert(sub.drop_last() =~= s@.subrange(0, i as int));
        assert(sub.last() == s@[i as int]);
        if s[i] == CH_MINUS {
            out.push(CH_MINUS);
            out.push(CH_MINUS);
        } else {
            out.push(s[i]);
        }
        assert(out@ =~= old(out)@ + escaped(sub));
        i = i + 1;
    }
    assert(s@.subrange(0, s@.len() as int) =~= s@);
}

/// The device-mapper name of an LV: both names escaped, joined by `-`.
pub open spec fn dm_name_of(vg_name: Seq<u8>, lv_name: Seq<u8>) -> Seq<u8> {
    escaped(vg_name) + seq![CH_MINUS] + escaped(lv_name)
}

/// The device-mapper name of LV `lv_name` of VG `vg_name`.
pub fn dm_name(vg_name: &[u8], lv_name: &[u8]) -> (r: Vec<u8>)
    ensures
        r@ == dm_name_of(vg_name@, lv_name@),
{
    let mut out: Vec<u8> = Vec::new();
    push_escaped(&mut out, vg_name);
    out.push(CH_MINUS);
    push_escaped(&mut out, lv_name);
    assert(out@ =~= dm_name_of(vg_name@, lv_name@));
    out
}

/// One line of a device-mapper table: sectors `[start, start + length)` of
/// the device go to the target `target` with parameters `params`.
#[derive(Debug)]
pub struct TargetLine {
    pub start: u64,
    pub length: u64,
    pub target: Vec<u8>,
    pub params: Vec<u8>,
}

/// `major:minor sector`, the way device-mapper names a place on a device.
pub open spec fn dev_offset_text(d: Device, sector: nat) -> Seq<u8> {
    nat_digits(d.major as nat) + seq![CH_COLON] + nat_digits(d.minor as nat) + seq![CH_SPACE] + nat_digits(sector)
}

/// The sector of a PV where extent `pe` starts.
pub open spec fn pe_sector(pv: PV, extent_size: int, pe: int) -> int {
    pv.pe_start + pe * extent_size
}

/// The places of a segment's stripes, each preceded by a space.
pub open spec fn stripes_text(stripes: Seq<(Device, u64)>, pvs: Seq<PV>, extent_size: int) -> Seq<u8>
    decreases stripes.len(),
{
    if stripes.len() == 0 {
        seq![]
    } else {
        stripes_text(stripes.drop_last(), pvs, extent_size) + seq![CH_SPACE] + dev_offset_text(
            stripes.last().0,
            pe_sector(pvs[pv_of(pvs, stripes.last().0)], extent_size, stripes.last().1 as int) as nat,
        )
    }
}

/// The position of the PV on `d` (any position where there are several).
pub open spec fn pv_of(pvs: Seq<PV>, d: Device) -> int {
    choose|i: int| 0 <= i < pvs.len() && pvs[i].device == d
}

fn pv_index(pvs: &Vec<PV>, d: Device) -> (r: Option<usize>)
    ensures
        match r {
            Some(i) => i < pvs@.len() && pvs@[i as int].device == d,
            None => forall|i: int| 0 <= i < pvs@.len() ==> (#[trigger] pvs@[i]).device != d,
        },
{
    let mut i: usize = 0;
    while i < pvs.len()
        invariant
            i <= pvs@.len(),
            forall|j: int| 0 <= j < i ==> (#[trigger] pvs@[j]).device != d,
        decreases pvs@.len() - i,
    {
        if pvs[i].device == d {
            return Some(i);
        }
        i = i + 1;
    }
    None
}

/// The PV on `d` is in `pvs`, and extent `pe` of it starts at a sector
/// that fits in 64 bits.
pub open spec fn stripe_fits(pvs: Seq<PV>, d: Device, pe: int, extent_size: int) -> bool {
    exists|i: int| 0 <= i < pvs.len() && pvs[i].device == d && #[trigger] pe_sector(pvs[i], extent_size, pe) <= u64::MAX
}

/// A segment whose table line can be made: it has stripes, each on a PV of
/// `pvs`, its sectors fit in 64 bits, and a stripe size where it has several.
pub open spec fn segment_ok(seg: Segment, pvs: Seq<PV>, extent_size: int) -> bool {
    match seg {
        Segment::Striped(s) => {
            &&& s.stripes@.len() > 0
            &&& s.start_extent * extent_size <= u64::MAX
            &&& s.extent_count * extent_size <= u64::MAX
            &&& s.stripes@.len() > 1 ==> s.stripe_size is Some
            &&& forall|i: int| 0 <= i < s.stripes@.len() ==> stripe_fits(pvs, (#[trigger] s.stripes@[i]).0, s.stripes@[i].1 as int, extent_size)
        },
    }
}

/// The sector of the PV on `d` where extent `pe` starts, if it fits in 64 bits.
fn stripe_sector(pvs: &Vec<PV>, d: Device, pe: u64, extent_size: u64) -> (r: Result<u64, Error>)
    requires
        devices_unique(pvs@),
    ensures
        stripe_fits(pvs@, d, pe as int, extent_size as int) ==> r is Ok,
        match r {
            Ok(s) => exists|i: int| 0 <= i < pvs@.len() && pvs@[i].device == d && s == pe_sector(pvs@[i], extent_size as int, pe as int),
            Err(e) => e matches Error::Invariant(_),
        },
{
    let i = match pv_index(pvs, d) {
        Some(i) => i,
        None => {
            return Err(Error::Invariant(Violation::UnknownPv));
        },
    };
    let off = mul_wide(pe, extent_size) + pvs[i].pe_start as u128;
    proof {
        if stripe_fits(pvs@, d, pe as int, extent_size as int) {
            let j = choose|j: int| 0 <= j < pvs@.len() && pvs@[j].device == d && #[trigger] pe_sector(pvs@[j], extent_size as int, pe as int) <= u64::MAX;
            if j != i {
                if j < i {
                    assert(pvs@[j].device != pvs@[i as int].device);
                } else {
                    assert(pvs@[i as int].device != pvs@[j].device);
                }
            }
            assert(off == pe_sector(pvs@[i as int], extent_size as int, pe as int));
        }
    }
    if off > u64::MAX as u128 {
        return Err(Error::Invariant(Violation::OutOfRange));
    }
    Ok(off as u64)
}

/// Whether `pvs` holds at most one PV on each device.
pub open spec fn devices_unique(pvs: Seq<PV>) -> bool {
    forall|i: int, j: int| 0 <= i < j < pvs.len() ==> (#[trigger] pvs[i]).device != (#[trigger] pvs[j]).device
}

/// Whether `line` is the target line of a segment: `linear` with one place
/// for one stripe; `striped` with the count, the stripe size and each place
/// for more.
pub open spec fn line_of(seg: Segment, pvs: Seq<PV>, extent_size: int, line: TargetLine) -> bool {
    match seg {
        Segment::Striped(s) => {
            &&& line.start == s.start_extent as int * extent_size
            &&& line.length == s.extent_count as int * extent_size
            &&& if s.stripes@.len() == 1 {
                &&& line.target@ == "linear".spec_bytes()
                &&& line.params@ == dev_offset_text(s.stripes@[0].0,
                    pe_sector(pvs[pv_of(pvs, s.stripes@[0].0)], extent_size, s.stripes@[0].1 as int) as nat)
            } else {
                &&& line.target@ == "striped".spec_bytes()
                &&& s.stripe_size matches Some(z) && line.params@ == nat_digits(s.stripes@.len() as nat) + seq![CH_SPACE]
                    + nat_digits(z as nat) + stripes_text(s.stripes@, pvs, extent_size)
            }
        },
    }
}

/// The target line of a segment: `linear` with one place for one stripe;
/// `striped` with the count, the stripe size and each place for more.
pub fn segment_line(seg: &Segment, pvs: &Vec<PV>, extent_size: u64) -> (r: Result<TargetLine, Error>)
    requires
        devices_unique(pvs@),
    ensures
        r matches Ok(line) ==> line_of(*seg, pvs@, extent_size as int, line),
        segment_ok(*seg, pvs@, extent_size as int) ==> r is Ok,
{
    match seg {
        Segment::Striped(s) => {
            let start = mul_wide(s.start_extent, extent_size);
            let length = mul_wide(s.extent_count, extent_size);
            if start > u64::MAX as u128 || length > u64::MAX as u128 {
                return Err(Error::Invariant(Violation::OutOfRange));
            }
            if s.stripes.len() == 0 {
                return Err(Error::Invariant(Violation::UnknownPv));
            }
            if s.stripes.len() == 1 {
                let (d, pe) = s.stripes[0];
                let sector = stripe_sector(pvs, d, pe, extent_size)?;
                let mut params: Vec<u8> = Vec::new();
                push_place(&mut params, d, sector);
                proof {
                    let i = choose|i: int| 0 <= i < pvs@.len() && pvs@[i].device == d && sector == pe_sector(pvs@[i], extent_size as int, pe as int);
                    assert(pvs@[pv_of(pvs@, d)].device == d);
                    assert(pv_of(pvs@, d) == i);
                }
                return Ok(TargetLine { start: start as u64, length: length as u64, target: text_bytes("linear"), params });
            }
            let z = match s.stripe_size {
                Some(z) => z,
                None => {
                    return Err(Error::Shape(text_bytes("stripe_size")));
                },
            };
            let mut params: Vec<u8> = Vec::new();
            push_digits(&mut params, s.stripes.len() as u64);
            params.push(CH_SPACE);
            push_digits(&mut params, z);
            let ghost head = params@;
            let mut i: usize = 0;
            assert(s.stripes@.subrange(0, 0) =~= Seq::<(Device, u64)>::empty());
            assert(params@ =~= head + stripes_text(s.stripes@.subrange(0, 0), pvs@, extent_size as int));
            while i < s.stripes.len()
                invariant
                    i <= s.stripes@.len(),
                    devices_unique(pvs@),
                    params@ == head + stripes_text(s.stripes@.subrange(0, i as int), pvs@, extent_size as int),
                    segment_ok(*seg, pvs@, extent_size as int) ==> forall|q: int| 0 <= q < s.stripes@.len() ==>
                        stripe_fits(pvs@, (#[trigger] s.stripes@[q]).0, s.stripes@[q].1 as int, extent_size as int),
                decreases s.stripes@.len() - i,
            {
                let (d, pe) = s.stripes[i];
                let sector = stripe_sector(pvs, d, pe, extent_size)?;
                params.push(CH_SPACE);
                push_place(&mut params, d, sector);
                proof {
                    let k = choose|k: int| 0 <= k < pvs@.len() && pvs@[k].device == d && sector == pe_sector(pvs@[k], extent_size as int, pe as int);
                    assert(pvs@[pv_of(pvs@, d)].device == d);
                    assert(pv_of(pvs@, d) == k);
                    let sub = s.stripes@.subrange(0, i + 1);
                    assert(sub.drop_last() =~= s.stripes@.subrange(0, i as int));
                    assert(sub.last() == (d, pe));
                    assert(params@ =~= head + stripes_text(sub, pvs@, extent_size as int));
                }
                i = i + 1;
            }
            assert(s.stripes@.subrange(0, s.stripes@.len() as int) =~= s.stripes@);
            let line = TargetLine { start: start as u64, length: length as u64, target: text_bytes("striped"), params };
            assert(s.stripe_size == Some(z));
            assert(line.params@ == nat_digits(s.stripes@.len() as nat) + seq![CH_SPACE] + nat_digits(z as nat)
                + stripes_text(s.stripes@, pvs@, extent_size as int));
            assert(line_of(*seg, pvs@, extent_size as int, line));
            Ok(line)
        },
    }
}

/// The product of two 64-bit numbers, which fits in 128 bits.
fn mul_wide(a: u64, b: u64) -> (r: u128)
    ensures
        r == a as int * b as int,
        r <= 0xffff_ffff_ffff_ffff * 0xffff_ffff_ffff_ffff,
{
    proof {
        assert(a as int * b as int <= 0xffff_ffff_ffff_ffff * 0xffff_ffff_ffff_ffff) by (nonlinear_arith)
            requires
                a <= 0xffff_ffff_ffff_ffffu64,
                b <= 0xffff_ffff_ffff_ffffu64,
                a >= 0,
                b >= 0;
    }
    a as u128 * b as u128
}

fn push_place(out: &mut Vec<u8>, d: Device, sector: u64)
    ensures
        final(out)@ == old(out)@ + dev_offset_text(d, sector as nat),
{
    push_digits(out, d.major as u64);
    out.push(CH_COLON);
    push_digits(out, d.minor as u64);
    out.push(CH_SPACE);
    push_digits(out, sector);
    assert(out@ =~= old(out)@ + dev_offset_text(d, sector as nat));
}

impl VG {
    /// The device-mapper table of an LV of this VG, one line per segment.
    pub fn lv_table(&self, lv: &LV) -> (r: Result<Vec<TargetLine>, Error>)
        requires
            self.wf(),
        ensures
            r matches Ok(t) ==> t@.len() == lv.segments@.len() && forall|i: int| 0 <= i < t@.len()
                ==> #[trigger] line_of(lv.segments@[i], self.spec_pvs(), self.spec_extent_size() as int, t@[i]),
            (forall|i: int| 0 <= i < lv.segments@.len() ==> #[trigger] segment_ok(lv.segments@[i], self.spec_pvs(), self.spec_extent_size() as int))
                ==> r is Ok,
    {
        proof {
            assert forall|i: int, j: int| 0 <= i < j < self.pvs@.len() implies (#[trigger] self.pvs@[i]).device != (#[trigger] self.pvs@[j]).device by {
                assert(crate::model::dev_key(self.pvs@[i].device) < crate::model::dev_key(self.pvs@[j].device));
            }
        }
        let mut out: Vec<TargetLine> = Vec::new();
        let mut i: usize = 0;
        while i < lv.segments.len()
            invariant
                i <= lv.segments@.len(),
                out@.len() == i,
                devices_unique(self.pvs@),

                forall|j: int| 0 <= j < i ==> #[trigger] line_of(lv.segments@[j], self.pvs@, self.extent_size as int, out@[j]),
            decreases lv.segments@.len() - i,
        {
            proof {
                if forall|j: int| 0 <= j < lv.segments@.len() ==> #[trigger] segment_ok(lv.segments@[j], self.spec_pvs(), self.spec_extent_size() as int) {
                    assert(segment_ok(lv.segments@[i as int], self.spec_pvs(), self.spec_extent_size() as int));
                    assert(segment_ok(lv.segments@[i as int], self.pvs@, self.extent_size as int));
                }
            }
            let line = segment_line(&lv.segments[i], &self.pvs, self.extent_size)?;
            out.push(line);
            i = i + 1;
        }
        Ok(out)
    }
}

} // verus!
