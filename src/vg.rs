//! Volume groups: the PVs and LVs of a VG, its extent allocator and the
//! operations that change it.

use vstd::prelude::*;
use vstd::string::StringSliceAdditionalSpecFns;
use crate::error::{Error, Violation};
use crate::model::{covered, dev_key, free_in, free_ranges, free_ranges_of, in_range, lvs_areas, seg_areas, segs_areas, Area, Device, Segment, StripedSegment, LV, PV};
use crate::parser::{bytes_eq, bytes_seq, copy_bytes, text_bytes};
use crate::util::{aligned_up, make_uuid};
use crate::pvheader::PvHeader;

verus! {

/// The default extent size: 8192 sectors (4 MiB).
pub const DEFAULT_EXTENT_SIZE: u64 = 8192;

/// A volume group: PVs pooled to allocate LVs from.
#[derive(Debug)]
pub struct VG {
    pub(crate) name: Vec<u8>,
    pub(crate) id: Vec<u8>,
    /// The generation of metadata this VG represents.
    pub(crate) seqno: u64,
    /// Always `lvm2`.
    pub(crate) format: Vec<u8>,
    pub(crate) status: Vec<Vec<u8>>,
    pub(crate) flags: Vec<Vec<u8>>,
    /// The size of an extent, in 512-byte sectors.
    pub(crate) extent_size: u64,
    pub(crate) max_lv: u64,
    pub(crate) max_pv: u64,
    pub(crate) metadata_copies: u64,
    /// The PVs, in increasing device order, at most one per device. They
    /// are kept in a `Vec` under that rule rather than in a map keyed by
    /// `Device`: the allocator's contract walks PVs by position, and a map
    /// keyed by a struct of the library gets no ordering that Verus can use.
    pub(crate) pvs: Vec<PV>,
    /// The LVs, in the order they were added; names are unique. A `Vec`
    /// keeps insertion order for the written text; a map keyed by byte
    /// strings would get no usable specification here.
    pub(crate) lvs: Vec<LV>,
}

pub open spec fn pvs_sorted(pvs: Seq<PV>) -> bool {
    forall|i: int, j: int| 0 <= i < j < pvs.len() ==> dev_key(#[trigger] pvs[i].device) < dev_key(#[trigger] pvs[j].device)
}

pub open spec fn names_unique(lvs: Seq<LV>) -> bool {
    forall|i: int, j: int| 0 <= i < j < lvs.len() ==> (#[trigger] lvs[i]).name@ != (#[trigger] lvs[j]).name@
}

/// Every area lies on a PV of the VG, within its extents.
pub open spec fn areas_fit(areas: Seq<Area>, pvs: Seq<PV>) -> bool {
    forall|k: int| 0 <= k < areas.len() ==> #[trigger] fits_some(areas[k], pvs)
}

/// Area `a` lies on some PV of `pvs`, within its extents.
pub open spec fn fits_some(a: Area, pvs: Seq<PV>) -> bool {
    exists|i: int| #[trigger] area_on(a, pvs, i)
}

/// Area `a` lies on the `i`th PV, within its extents.
pub open spec fn area_on(a: Area, pvs: Seq<PV>, i: int) -> bool {
    0 <= i < pvs.len() && pvs[i].device == a.0 && a.1 + a.2 <= pvs[i].pe_count
}

/// No two areas share an extent.
pub open spec fn areas_disjoint(areas: Seq<Area>) -> bool {
    forall|a: int, b: int| 0 <= a < b < areas.len() && (#[trigger] areas[a]).0 == (#[trigger] areas[b]).0 ==>
        areas[a].2 == 0 || areas[b].2 == 0 || areas[a].1 + areas[a].2 <= areas[b].1 || areas[b].1 + areas[b].2 <= areas[a].1
}

/// Whether `n` extents from `s` on are free on PV `pv`.
pub open spec fn window_free(areas: Seq<Area>, pv: PV, s: int, n: int) -> bool {
    forall|e: int| s <= e < s + n ==> #[trigger] free_in(areas, pv.device, pv.pe_count as int, e)
}

impl VG {
    /// The VG's rules: PVs in device order, LV names unique, and every
    /// segment's extents on a PV of the VG, overlapping no other's.
    pub open(crate) spec fn wf(&self) -> bool {
        &&& pvs_sorted(self.pvs@)
        &&& names_unique(self.lvs@)
        &&& areas_fit(lvs_areas(self.lvs@), self.pvs@)
        &&& areas_disjoint(lvs_areas(self.lvs@))
        &&& self.extent_size > 0
    }

    pub open(crate) spec fn areas(&self) -> Seq<Area> {
        lvs_areas(self.lvs@)
    }

    /// Everything but the PVs, the LVs and the generation is the same.
    pub open(crate) spec fn same_header(&self, other: &VG) -> bool {
        &&& self.name@ == other.name@
        &&& self.id@ == other.id@
        &&& self.format@ == other.format@
        &&& bytes_seq(self.status@) == bytes_seq(other.status@)
        &&& bytes_seq(self.flags@) == bytes_seq(other.flags@)
        &&& self.extent_size == other.extent_size
        &&& self.max_lv == other.max_lv
        &&& self.max_pv == other.max_pv
        &&& self.metadata_copies == other.metadata_copies
    }

    pub open(crate) spec fn spec_format(&self) -> Seq<u8> {
        self.format@
    }

    pub open(crate) spec fn spec_flags(&self) -> Seq<Seq<u8>> {
        bytes_seq(self.flags@)
    }

    pub open(crate) spec fn spec_id(&self) -> Seq<u8> {
        self.id@
    }

    pub open(crate) spec fn spec_status(&self) -> Seq<Seq<u8>> {
        bytes_seq(self.status@)
    }

    pub open(crate) spec fn spec_name(&self) -> Seq<u8> {
        self.name@
    }

    pub open(crate) spec fn spec_extent_size(&self) -> u64 {
        self.extent_size
    }

    pub open(crate) spec fn spec_seqno(&self) -> u64 {
        self.seqno
    }

    pub open(crate) spec fn spec_pvs(&self) -> Seq<PV> {
        self.pvs@
    }

    pub open(crate) spec fn spec_lvs(&self) -> Seq<LV> {
        self.lvs@
    }
}

/// The extent ranges of a segment.
pub fn seg_used_areas(seg: &Segment) -> (r: Vec<Area>)
    ensures
        r@ == seg_areas(*seg),
{
    match seg {
        Segment::Striped(s) => {
            let mut out: Vec<Area> = Vec::new();
            let mut i: usize = 0;
            while i < s.stripes.len()
                invariant
                    i <= s.stripes@.len(),
                    out@ == s.stripes@.subrange(0, i as int).map_values(|st: (Device, u64)| (st.0, st.1, s.extent_count)),
                decreases s.stripes@.len() - i,
            {
                let (d, pe) = s.stripes[i];
                out.push((d, pe, s.extent_count));
                assert(out@ =~= s.stripes@.subrange(0, i + 1).map_values(|st: (Device, u64)| (st.0, st.1, s.extent_count)));
                i = i + 1;
            }
            assert(s.stripes@.subrange(0, s.stripes@.len() as int) =~= s.stripes@);
            out
        },
    }
}

fn push_areas(out: &mut Vec<Area>, more: Vec<Area>)
    ensures
        final(out)@ == old(out)@ + more@,
{
    let mut i: usize = 0;
    while i < more.len()
        invariant
            i <= more@.len(),
            out@ == old(out)@ + more@.subrange(0, i as int),
        decreases more@.len() - i,
    {
        out.push(more[i]);
        assert(more@.subrange(0, i + 1) =~= more@.subrange(0, i as int).push(more@[i as int]));
        assert(out@ =~= old(out)@ + more@.subrange(0, i + 1));
        i = i + 1;
    }
    assert(more@.subrange(0, more@.len() as int) =~= more@);
}

/// The extent ranges of an LV, segment by segment.
pub fn lv_used_areas(lv: &LV) -> (r: Vec<Area>)
    ensures
        r@ == segs_areas(lv.segments@),
{
    let mut out: Vec<Area> = Vec::new();
    let mut i: usize = 0;
    assert(lv.segments@.subrange(0, 0) =~= Seq::<Segment>::empty());
    while i < lv.segments.len()
        invariant
            i <= lv.segments@.len(),
            out@ == segs_areas(lv.segments@.subrange(0, i as int)),
        decreases lv.segments@.len() - i,
    {
        let a = seg_used_areas(&lv.segments[i]);
        push_areas(&mut out, a);
        assert(lv.segments@.subrange(0, i + 1).drop_last() =~= lv.segments@.subrange(0, i as int));
        i = i + 1;
    }
    assert(lv.segments@.subrange(0, lv.segments@.len() as int) =~= lv.segments@);
    out
}

pub proof fn lemma_lvs_areas_concat(a: Seq<LV>, b: Seq<LV>)
    ensures
        lvs_areas(a + b) == lvs_areas(a) + lvs_areas(b),
    decreases b.len(),
{
    if b.len() == 0 {
        assert(a + b =~= a);
        assert(lvs_areas(a) + lvs_areas(b) =~= lvs_areas(a));
    } else {
        lemma_lvs_areas_concat(a, b.drop_last());
        assert((a + b).drop_last() =~= a + b.drop_last());
        assert(lvs_areas(a + b) =~= lvs_areas(a) + lvs_areas(b));
    }
}

/// The number of extents of a list of PVs.
pub open spec fn total_pe(pvs: Seq<PV>) -> int
    decreases pvs.len(),
{
    if pvs.len() == 0 {
        0
    } else {
        total_pe(pvs.drop_last()) + pvs.last().pe_count
    }
}

/// The number of extents of a list of LVs' segments.
pub open spec fn total_used(lvs: Seq<LV>) -> int
    decreases lvs.len(),
{
    if lvs.len() == 0 {
        0
    } else {
        total_used(lvs.drop_last()) + lv_extents(lvs.last().segments@)
    }
}

/// The number of extents of a list of segments.
pub open spec fn lv_extents(segs: Seq<Segment>) -> int
    decreases segs.len(),
{
    if segs.len() == 0 {
        0
    } else {
        lv_extents(segs.drop_last()) + match segs.last() {
            Segment::Striped(s) => s.extent_count as int,
        }
    }
}

pub open spec fn capped(x: int) -> u64 {
    if x > u64::MAX {
        u64::MAX
    } else {
        x as u64
    }
}

impl LV {
    /// The number of extents of the LV, capped at `u64::MAX`.
    pub fn used_extents(&self) -> (r: u64)
        ensures
            r == capped(lv_extents(self.segments@)),
    {
        let mut sum: u128 = 0;
        let mut i: usize = 0;
        while i < self.segments.len()
            invariant
                i <= self.segments@.len(),
                sum == capped(lv_extents(self.segments@.subrange(0, i as int))),
                lv_extents(self.segments@.subrange(0, i as int)) >= 0,
            decreases self.segments@.len() - i,
        {
            assert(self.segments@.subrange(0, i + 1).drop_last() =~= self.segments@.subrange(0, i as int));
            match &self.segments[i] {
                Segment::Striped(s) => {
                    assert(self.segments@.subrange(0, i + 1).last() == self.segments@[i as int]);
                    assert(lv_extents(self.segments@.subrange(0, i + 1)) == lv_extents(self.segments@.subrange(0, i as int)) + s.extent_count);
                    sum = sum + s.extent_count as u128;
                    if sum > u64::MAX as u128 {
                        sum = u64::MAX as u128;
                    }
                    assert(sum == capped(lv_extents(self.segments@.subrange(0, i + 1))));
                },
            }
            i = i + 1;
        }
        assert(self.segments@.subrange(0, self.segments@.len() as int) =~= self.segments@);
        sum as u64
    }
}

/// The chosen place of a new linear LV: the first PV, in device order, with
/// `n` free extents in a row, at the first such extent.
pub open spec fn first_fit(areas: Seq<Area>, pvs: Seq<PV>, n: int, pi: int, s: int) -> bool {
    &&& 0 <= pi < pvs.len()
    &&& s >= 0
    &&& window_free(areas, pvs[pi], s, n)
    &&& forall|j: int, t: int| 0 <= j < pi ==> !#[trigger] window_free(areas, pvs[j], t, n)
    &&& forall|t: int| 0 <= t < s ==> !#[trigger] window_free(areas, pvs[pi], t, n)
}

/// Where the free ranges of a PV before the `k`th are all shorter than
/// `n`, no run of `n` free extents starts before the `k`th range.
proof fn lemma_no_window_before(areas: Seq<Area>, pv: PV, rs: Seq<(u64, u64)>, k: int, n: int)
    requires
        n > 0,
        0 <= k <= rs.len(),
        free_ranges_of(areas, pv.device, pv.pe_count as int, rs),
        forall|j: int| 0 <= j < k ==> (#[trigger] rs[j]).1 < n,
    ensures
        forall|t: int| (k == rs.len() || t < rs[k].0) ==> !#[trigger] window_free(areas, pv, t, n),
{
    let pc = pv.pe_count as int;
    assert forall|t: int| (k == rs.len() || t < rs[k].0) implies !#[trigger] window_free(areas, pv, t, n) by {
        if window_free(areas, pv, t, n) {
            assert(free_in(areas, pv.device, pc, t));
            let j = choose|j: int| 0 <= j < rs.len() && #[trigger] in_range(rs[j], t);
            if j >= k {
                if j > k {
                    assert(rs[k].0 < rs[j].0);
                }
            }
            assert(j < k);
            let end = rs[j].0 + rs[j].1;
            assert(t < end < t + n);
            assert(free_in(areas, pv.device, pc, end));
            assert(end == pc || !free_in(areas, pv.device, pc, end));
        }
    }
}

impl VG {
    /// The extent ranges in use: one for each stripe of each segment of
    /// each LV, in that order.
    pub fn used_areas(&self) -> (r: Vec<Area>)
        ensures
            r@ == lvs_areas(self.spec_lvs()),
    {
        let mut out: Vec<Area> = Vec::new();
        let mut i: usize = 0;
        assert(self.lvs@.subrange(0, 0) =~= Seq::<LV>::empty());
        while i < self.lvs.len()
            invariant
                i <= self.lvs@.len(),
                out@ == lvs_areas(self.lvs@.subrange(0, i as int)),
            decreases self.lvs@.len() - i,
        {
            let a = lv_used_areas(&self.lvs[i]);
            push_areas(&mut out, a);
            assert(self.lvs@.subrange(0, i + 1).drop_last() =~= self.lvs@.subrange(0, i as int));
            i = i + 1;
        }
        assert(self.lvs@.subrange(0, self.lvs@.len() as int) =~= self.lvs@);
        out
    }

    /// The free ranges of each PV, in device order: the maximal runs of
    /// extents that no segment uses.
    pub fn free_areas(&self) -> (r: Vec<(Device, Vec<(u64, u64)>)>)
        ensures
            r@.len() == self.spec_pvs().len(),
            forall|i: int| 0 <= i < r@.len() ==> (#[trigger] r@[i]).0 == self.spec_pvs()[i].device
                && free_ranges_of(lvs_areas(self.spec_lvs()), self.spec_pvs()[i].device, self.spec_pvs()[i].pe_count as int, r@[i].1@),
    {
        let areas = self.used_areas();
        let mut out: Vec<(Device, Vec<(u64, u64)>)> = Vec::new();
        let mut i: usize = 0;
        while i < self.pvs.len()
            invariant
                i <= self.pvs@.len(),
                areas@ == lvs_areas(self.lvs@),
                out@.len() == i,
                forall|j: int| 0 <= j < i ==> (#[trigger] out@[j]).0 == self.pvs@[j].device
                    && free_ranges_of(lvs_areas(self.lvs@), self.pvs@[j].device, self.pvs@[j].pe_count as int, out@[j].1@),
            decreases self.pvs@.len() - i,
        {
            let dev = self.pvs[i].device;
            let rs = free_ranges(&areas, dev, self.pvs[i].pe_count);
            out.push((dev, rs));
            i = i + 1;
        }
        out
    }

    /// The number of extents of the VG's PVs, capped at `u64::MAX`.
    pub fn extents(&self) -> (r: u64)
        ensures
            r == capped(total_pe(self.spec_pvs())),
    {
        let mut sum: u128 = 0;
        let mut i: usize = 0;
        while i < self.pvs.len()
            invariant
                i <= self.pvs@.len(),
                sum == capped(total_pe(self.pvs@.subrange(0, i as int))),
                total_pe(self.pvs@.subrange(0, i as int)) >= 0,
            decreases self.pvs@.len() - i,
        {
            assert(self.pvs@.subrange(0, i + 1).drop_last() =~= self.pvs@.subrange(0, i as int));
            sum = sum + self.pvs[i].pe_count as u128;
            if sum > u64::MAX as u128 {
                sum = u64::MAX as u128;
            }
            i = i + 1;
        }
        assert(self.pvs@.subrange(0, self.pvs@.len() as int) =~= self.pvs@);
        sum as u64
    }

    /// The number of extents that LVs use, capped at `u64::MAX`.
    pub fn extents_in_use(&self) -> (r: u64)
        ensures
            r == capped(total_used(self.spec_lvs())),
    {
        let mut sum: u128 = 0;
        let mut i: usize = 0;
        while i < self.lvs.len()
            invariant
                i <= self.lvs@.len(),
                sum == capped(total_used(self.lvs@.subrange(0, i as int))),
                total_used(self.lvs@.subrange(0, i as int)) >= 0,
            decreases self.lvs@.len() - i,
        {
            assert(self.lvs@.subrange(0, i + 1).drop_last() =~= self.lvs@.subrange(0, i as int));
            let u = self.lvs[i].used_extents();
            proof {
                lemma_lv_extents_nonneg(self.lvs@[i as int].segments@);
            }
            sum = sum + u as u128;
            if sum > u64::MAX as u128 {
                sum = u64::MAX as u128;
            }
            i = i + 1;
        }
        assert(self.lvs@.subrange(0, self.lvs@.len() as int) =~= self.lvs@);
        sum as u64
    }

    /// The extents not used by any LV: `extents() - extents_in_use()`,
    /// or zero where the second exceeds the first.
    pub fn extents_free(&self) -> (r: u64)
        ensures
            r == if self.extents_in_use_spec() <= self.extents_spec() {
                self.extents_spec() - self.extents_in_use_spec()
            } else {
                0
            },
    {
        let a = self.extents();
        let b = self.extents_in_use();
        if b <= a {
            a - b
        } else {
            0
        }
    }

    pub open(crate) spec fn extents_spec(&self) -> u64 {
        capped(total_pe(self.pvs@))
    }

    pub open(crate) spec fn extents_in_use_spec(&self) -> u64 {
        capped(total_used(self.lvs@))
    }

    /// The position of the LV called `name`.
    pub fn lv_position(&self, name: &[u8]) -> (r: Option<usize>)
        ensures
            match r {
                Some(i) => i < self.spec_lvs().len() && self.spec_lvs()[i as int].name@ == name@,
                None => forall|i: int| 0 <= i < self.spec_lvs().len() ==> (#[trigger] self.spec_lvs()[i]).name@ != name@,
            },
    {
        let mut i: usize = 0;
        while i < self.lvs.len()
            invariant
                i <= self.lvs@.len(),
                forall|j: int| 0 <= j < i ==> (#[trigger] self.lvs@[j]).name@ != name@,
            decreases self.lvs@.len() - i,
        {
            if bytes_eq(self.lvs[i].name.as_slice(), name) {
                return Some(i);
            }
            i = i + 1;
        }
        None
    }

    /// The position of the PV on `dev`.
    pub fn pv_position(&self, dev: Device) -> (r: Option<usize>)
        ensures
            match r {
                Some(i) => i < self.spec_pvs().len() && self.spec_pvs()[i as int].device == dev,
                None => forall|i: int| 0 <= i < self.spec_pvs().len() ==> (#[trigger] self.spec_pvs()[i]).device != dev,
            },
    {
        let mut i: usize = 0;
        while i < self.pvs.len()
            invariant
                i <= self.pvs@.len(),
                forall|j: int| 0 <= j < i ==> (#[trigger] self.pvs@[j]).device != dev,
            decreases self.pvs@.len() - i,
        {
            if self.pvs[i].device == dev {
                return Some(i);
            }
            i = i + 1;
        }
        None
    }

    /// Find the first place for `n` extents: a PV index and an extent.
    pub fn find_space(&self, n: u64) -> (r: Option<(usize, u64)>)
        requires
            n > 0,
        ensures
            match r {
                Some((pi, s)) => first_fit(lvs_areas(self.spec_lvs()), self.spec_pvs(), n as int, pi as int, s as int),
                None => forall|j: int, t: int| 0 <= j < self.spec_pvs().len() ==> !#[trigger] window_free(lvs_areas(self.spec_lvs()), self.spec_pvs()[j], t, n as int),
            },
    {
        let areas = self.used_areas();
        let mut pi: usize = 0;
        while pi < self.pvs.len()
            invariant
                pi <= self.pvs@.len(),
                areas@ == lvs_areas(self.lvs@),
                n > 0,
                forall|j: int, t: int| 0 <= j < pi ==> !#[trigger] window_free(lvs_areas(self.lvs@), self.pvs@[j], t, n as int),
            decreases self.pvs@.len() - pi,
        {
            let pv = &self.pvs[pi];
            let rs = free_ranges(&areas, pv.device, pv.pe_count);
            let mut k: usize = 0;
            while k < rs.len()
                invariant
                    k <= rs@.len(),
                    n > 0,
                    pi < self.pvs@.len(),
                    *pv == self.pvs@[pi as int],
                    areas@ == lvs_areas(self.lvs@),
                    forall|j: int, t: int| 0 <= j < pi ==> !#[trigger] window_free(lvs_areas(self.lvs@), self.pvs@[j], t, n as int),
                    free_ranges_of(areas@, pv.device, pv.pe_count as int, rs@),
                    forall|j: int| 0 <= j < k ==> (#[trigger] rs@[j]).1 < n,
                decreases rs@.len() - k,
            {
                if rs[k].1 >= n {
                    let s = rs[k].0;
                    proof {
                        lemma_no_window_before(areas@, *pv, rs@, k as int, n as int);
                        assert forall|e: int| s <= e < s + n implies #[trigger] free_in(areas@, pv.device, pv.pe_count as int, e) by {
                            assert(in_range(rs@[k as int], e));
                            assert(free_in(areas@, pv.device, pv.pe_count as int, e) && rs@[k as int].0 <= e);
                        }
                        assert(*pv == self.pvs@[pi as int]);
                        assert(window_free(areas@, self.pvs@[pi as int], s as int, n as int));
                        assert(forall|t: int| 0 <= t < s ==> !#[trigger] window_free(areas@, self.pvs@[pi as int], t, n as int));
                    }
                    return Some((pi, s));
                }
                k = k + 1;
            }
            proof {
                lemma_no_window_before(areas@, *pv, rs@, rs@.len() as int, n as int);
            }
            pi = pi + 1;
        }
        None
    }
}

proof fn lemma_lv_extents_nonneg(segs: Seq<Segment>)
    ensures
        lv_extents(segs) >= 0,
    decreases segs.len(),
{
    if segs.len() > 0 {
        lemma_lv_extents_nonneg(segs.drop_last());
    }
}

/// The status of a new LV: READ, WRITE, VISIBLE.
pub open spec fn lv_new_status() -> Seq<Seq<u8>> {
    seq!["READ".spec_bytes(), "WRITE".spec_bytes(), "VISIBLE".spec_bytes()]
}

/// Whether `lv` is the linear LV `name` of `n` extents laid on `dev` from
/// extent `s` on.
pub open spec fn is_new_linear_lv(lv: LV, name: Seq<u8>, n: u64, dev: Device, s: u64, host: Seq<u8>, time: i64) -> bool {
    &&& lv.name@ == name
    &&& lv.segments@.len() == 1
    &&& (lv.segments@[0] matches Segment::Striped(sg) && sg.start_extent == 0 && sg.extent_count == n
        && sg.stripes@ == seq![(dev, s)] && sg.stripe_size is None)
    &&& bytes_seq(lv.status@) == lv_new_status()
    &&& lv.flags@.len() == 0
    &&& lv.creation_host@ == host
    &&& lv.creation_time == time
    &&& lv.device is None
    &&& lv.id@.len() == 38
}

impl VG {
    /// Create a linear LV of `extent_count` extents in the first free
    /// range that holds it, scanning PVs in device order and each PV's free
    /// ranges in extent order.
    pub(crate) fn place_linear(&mut self, name: &[u8], extent_count: u64, creation_host: &[u8], creation_time: i64) -> (r: Result<(), Error>)
        requires
            old(self).wf(),
        ensures
            final(self).wf(),
            final(self).same_header(&*old(self)),
            final(self).spec_pvs() == old(self).spec_pvs(),
            final(self).spec_seqno() == old(self).spec_seqno(),
            (exists|i: int| 0 <= i < old(self).spec_lvs().len() && (#[trigger] old(self).spec_lvs()[i]).name@ == name@) ==>
                r matches Err(Error::Invariant(Violation::DuplicateLv)),
            (forall|i: int| 0 <= i < old(self).spec_lvs().len() ==> (#[trigger] old(self).spec_lvs()[i]).name@ != name@) && extent_count == 0 ==>
                r matches Err(Error::Invariant(Violation::OutOfRange)),
            (forall|i: int| 0 <= i < old(self).spec_lvs().len() ==> (#[trigger] old(self).spec_lvs()[i]).name@ != name@) && extent_count > 0
                && (forall|j: int, t: int| 0 <= j < old(self).spec_pvs().len() ==> !#[trigger] window_free(lvs_areas(old(self).spec_lvs()), old(self).spec_pvs()[j], t, extent_count as int)) ==>
                (r matches Err(Error::NoSpace { requested, .. }) && requested == extent_count),
            (forall|i: int| 0 <= i < old(self).spec_lvs().len() ==> (#[trigger] old(self).spec_lvs()[i]).name@ != name@) && extent_count > 0
                && (exists|j: int, t: int| 0 <= j < old(self).spec_pvs().len() && #[trigger] window_free(lvs_areas(old(self).spec_lvs()), old(self).spec_pvs()[j], t, extent_count as int)) ==>
                r is Ok,
            r is Err ==> final(self).spec_lvs() == old(self).spec_lvs(),
            r is Ok ==> exists|pi: int, s: int| #[trigger] first_fit(lvs_areas(old(self).spec_lvs()), old(self).spec_pvs(), extent_count as int, pi, s)
                && final(self).spec_lvs() == old(self).spec_lvs().push(final(self).spec_lvs().last())
                && is_new_linear_lv(final(self).spec_lvs().last(), name@, extent_count, old(self).spec_pvs()[pi].device, s as u64,
                    creation_host@, creation_time),
    {
        if self.lv_position(name).is_some() {
            return Err(Error::Invariant(Violation::DuplicateLv));
        }
        if extent_count == 0 {
            return Err(Error::Invariant(Violation::OutOfRange));
        }
        let (pi, s) = match self.find_space(extent_count) {
            Some(x) => x,
            None => {
                let available = self.extents_free();
                return Err(Error::NoSpace { requested: extent_count, available });
            },
        };
        let dev = self.pvs[pi].device;
        let mut stripes: Vec<(Device, u64)> = Vec::new();
        stripes.push((dev, s));
        let seg = Segment::Striped(StripedSegment { start_extent: 0, extent_count, stripe_size: None, stripes });
        let mut segments: Vec<Segment> = Vec::new();
        segments.push(seg);
        let mut status: Vec<Vec<u8>> = Vec::new();
        status.push(text_bytes("READ"));
        status.push(text_bytes("WRITE"));
        status.push(text_bytes("VISIBLE"));
        assert(bytes_seq(status@) =~= lv_new_status());
        let lv = LV {
            name: copy_bytes(name),
            id: make_uuid(),
            status,
            flags: Vec::new(),
            creation_host: copy_bytes(creation_host),
            creation_time,
            segments,
            device: None,
        };
        let ghost old_lvs = self.lvs@;
        let ghost old_areas = lvs_areas(old_lvs);
        let ghost new_area: Area = (dev, s, extent_count);
        proof {
            assert(seg_areas(lv.segments@[0]) =~= seq![new_area]);
            assert(lv.segments@.drop_last() =~= Seq::<Segment>::empty());
            assert(segs_areas(lv.segments@.drop_last()) =~= Seq::<Area>::empty());
            assert(lv.segments@.last() == lv.segments@[0]);
            assert(segs_areas(lv.segments@) =~= seq![new_area]);
            assert(old_lvs.push(lv).drop_last() =~= old_lvs);
            assert(lvs_areas(old_lvs.push(lv)) =~= old_areas.push(new_area));
            assert(free_in(old_areas, dev, self.pvs@[pi as int].pe_count as int, s + extent_count - 1));
        }
        self.lvs.push(lv);
        proof {
            let areas = lvs_areas(self.lvs@);
            assert(areas == old_areas.push(new_area));
            assert forall|a: int, b: int| 0 <= a < b < areas.len() && (#[trigger] areas[a]).0 == (#[trigger] areas[b]).0 implies
                areas[a].2 == 0 || areas[b].2 == 0 || areas[a].1 + areas[a].2 <= areas[b].1 || areas[b].1 + areas[b].2 <= areas[a].1 by {
                if b == areas.len() - 1 {
                    assert(areas[b] == new_area);
                    assert(areas[a] == old_areas[a]);
                    if !(areas[a].2 == 0 || areas[a].1 + areas[a].2 <= s || s + extent_count <= areas[a].1) {
                        let e = if s > areas[a].1 { s as int } else { areas[a].1 as int };
                        assert(free_in(old_areas, dev, self.pvs@[pi as int].pe_count as int, e));
                        assert(old_areas[a].0 == dev);
                        assert(old_areas[a].1 <= e);
                        assert(e < old_areas[a].1 + old_areas[a].2);
                        assert(covered(old_areas, dev, e));
                    }
                } else {
                    assert(areas[a] == old_areas[a] && areas[b] == old_areas[b]);
                }
            }
            assert forall|k: int| 0 <= k < areas.len() implies #[trigger] fits_some(areas[k], self.pvs@) by {
                if k == areas.len() - 1 {
                    assert(areas[k] == new_area);
                    assert(area_on(areas[k], self.pvs@, pi as int));
                } else {
                    assert(areas[k] == old_areas[k]);
                    assert(fits_some(old_areas[k], self.pvs@));
                    let i = choose|i: int| #[trigger] area_on(old_areas[k], self.pvs@, i);
                    assert(area_on(areas[k], self.pvs@, i));
                }
            }
            assert(areas_fit(areas, self.pvs@));
            assert(areas_disjoint(areas));
            assert forall|i: int, j: int| 0 <= i < j < self.lvs@.len() implies (#[trigger] self.lvs@[i]).name@ != (#[trigger] self.lvs@[j]).name@ by {
                if j == self.lvs@.len() - 1 {
                    assert(old_lvs[i] == self.lvs@[i]);
                }
            }
            assert(self.lvs@.last() == lv);
            assert(names_unique(self.lvs@));
            assert(pvs_sorted(self.pvs@));
            assert(first_fit(old_areas, self.pvs@, extent_count as int, pi as int, s as int));
        }
        Ok(())
    }
}

/// Whether an LV has a segment on `dev`.
pub open spec fn lv_uses(lv: LV, dev: Device) -> bool {
    exists|k: int| 0 <= k < segs_areas(lv.segments@).len() && (#[trigger] segs_areas(lv.segments@)[k]).0 == dev
}

/// Area `a` is one of an LV's areas.
pub open spec fn area_from_lv(a: Area, lvs: Seq<LV>) -> bool {
    exists|i: int, k2: int| 0 <= i < lvs.len() && 0 <= k2 < segs_areas(lvs[i].segments@).len()
        && #[trigger] segs_areas(lvs[i].segments@)[k2] == a
}

/// LV lists whose LVs have the same segments have the same areas.
pub proof fn lemma_lvs_areas_same_segments(a: Seq<LV>, b: Seq<LV>)
    requires
        a.len() == b.len(),
        forall|i: int| 0 <= i < a.len() ==> (#[trigger] a[i]).segments == b[i].segments,
    ensures
        lvs_areas(a) == lvs_areas(b),
    decreases a.len(),
{
    if a.len() > 0 {
        lemma_lvs_areas_same_segments(a.drop_last(), b.drop_last());
        assert(a.last().segments == b.last().segments);
    }
}

/// Every area of a list of LVs is an area of one of them.
pub proof fn lemma_lvs_areas_member(lvs: Seq<LV>)
    ensures
        forall|k: int| 0 <= k < lvs_areas(lvs).len() ==> #[trigger] area_from_lv(lvs_areas(lvs)[k], lvs),
    decreases lvs.len(),
{
    if lvs.len() == 0 {
        assert(lvs_areas(lvs).len() == 0);
    } else {
        let pre = lvs.drop_last();
        lemma_lvs_areas_member(pre);
        let a = lvs_areas(lvs);
        assert(a == lvs_areas(pre) + segs_areas(lvs.last().segments@));
        assert forall|k: int| 0 <= k < a.len() implies #[trigger] area_from_lv(a[k], lvs) by {
            if k < lvs_areas(pre).len() {
                assert(a[k] == lvs_areas(pre)[k]);
                assert(area_from_lv(lvs_areas(pre)[k], pre));
                let (i, k2) = choose|i: int, k2: int| 0 <= i < pre.len() && 0 <= k2 < segs_areas(pre[i].segments@).len()
                    && #[trigger] segs_areas(pre[i].segments@)[k2] == lvs_areas(pre)[k];
                assert(lvs[i] == pre[i]);
                assert(segs_areas(lvs[i].segments@)[k2] == a[k]);
            } else {
                let k2 = k - lvs_areas(pre).len();
                assert(lvs[lvs.len() - 1] == lvs.last());
                assert(segs_areas(lvs[lvs.len() - 1].segments@)[k2] == a[k]);
            }
        }
    }
}

impl VG {
    /// Whether some LV uses `dev`, and which.
    pub fn lv_using(&self, dev: Device) -> (r: Option<usize>)
        ensures
            match r {
                Some(i) => i < self.spec_lvs().len() && lv_uses(self.spec_lvs()[i as int], dev),
                None => forall|i: int| 0 <= i < self.spec_lvs().len() ==> !lv_uses(#[trigger] self.spec_lvs()[i], dev),
            },
    {
        let mut i: usize = 0;
        while i < self.lvs.len()
            invariant
                i <= self.lvs@.len(),
                forall|j: int| 0 <= j < i ==> !lv_uses(#[trigger] self.lvs@[j], dev),
            decreases self.lvs@.len() - i,
        {
            let areas = lv_used_areas(&self.lvs[i]);
            let mut k: usize = 0;
            while k < areas.len()
                invariant
                    i < self.lvs@.len(),
                    k <= areas@.len(),
                    areas@ == segs_areas(self.lvs@[i as int].segments@),
                    forall|j: int| 0 <= j < k ==> (#[trigger] areas@[j]).0 != dev,
                decreases areas@.len() - k,
            {
                if areas[k].0 == dev {
                    return Some(i);
                }
                k = k + 1;
            }
            i = i + 1;
        }
        None
    }

    /// Remove the PV on `dev` from the VG. Fails with `InUse` naming an LV
    /// that has a segment on it.
    pub(crate) fn drop_pv(&mut self, dev: Device) -> (r: Result<(), Error>)
        requires
            old(self).wf(),
        ensures
            final(self).wf(),
            final(self).same_header(&*old(self)),
            final(self).spec_lvs() == old(self).spec_lvs(),
            final(self).spec_seqno() == old(self).spec_seqno(),
            match r {
                Err(Error::InUse(who)) => final(self).spec_pvs() == old(self).spec_pvs()
                    && exists|i: int| 0 <= i < old(self).spec_lvs().len() && (#[trigger] old(self).spec_lvs()[i]).name@ == who@
                    && lv_uses(old(self).spec_lvs()[i], dev),
                Err(Error::NotFound(_)) => final(self).spec_pvs() == old(self).spec_pvs()
                    && (forall|i: int| 0 <= i < old(self).spec_lvs().len() ==> !lv_uses(#[trigger] old(self).spec_lvs()[i], dev))
                    && (forall|i: int| 0 <= i < old(self).spec_pvs().len() ==> (#[trigger] old(self).spec_pvs()[i]).device != dev),
                Err(_) => false,
                Ok(()) => (forall|i: int| 0 <= i < old(self).spec_lvs().len() ==> !lv_uses(#[trigger] old(self).spec_lvs()[i], dev))
                    && exists|i: int| 0 <= i < old(self).spec_pvs().len() && (#[trigger] old(self).spec_pvs()[i]).device == dev
                    && final(self).spec_pvs() == old(self).spec_pvs().remove(i),
            },
    {
        if let Some(i) = self.lv_using(dev) {
            return Err(Error::InUse(copy_bytes(self.lvs[i].name.as_slice())));
        }
        let pi = match self.pv_position(dev) {
            Some(pi) => pi,
            None => {
                return Err(Error::NotFound(text_bytes("PV")));
            },
        };
        let ghost old_pvs = self.pvs@;
        let _removed = self.pvs.remove(pi);
        proof {
            let areas = lvs_areas(self.lvs@);
            lemma_lvs_areas_member(self.lvs@);
            assert(areas_fit(areas, self.pvs@)) by {
            assert forall|k: int| 0 <= k < areas.len() implies #[trigger] fits_some(areas[k], self.pvs@) by {
                assert(fits_some(areas[k], old_pvs));
                let i = choose|i: int| #[trigger] area_on(areas[k], old_pvs, i);
                assert(area_from_lv(areas[k], self.lvs@));
                let (li, k2) = choose|li: int, k2: int| 0 <= li < self.lvs@.len()
                    && 0 <= k2 < segs_areas(self.lvs@[li].segments@).len() && #[trigger] segs_areas(self.lvs@[li].segments@)[k2] == areas[k];
                assert(!lv_uses(self.lvs@[li], dev));
                assert(areas[k].0 != dev);
                assert(i != pi);
                if i < pi {
                    assert(self.pvs@[i] == old_pvs[i]);
                    assert(area_on(areas[k], self.pvs@, i));
                } else {
                    assert(self.pvs@[i - 1] == old_pvs[i]);
                    assert(area_on(areas[k], self.pvs@, i - 1));
                }
            }
            }
            assert forall|i: int, j: int| 0 <= i < j < self.pvs@.len() implies dev_key(#[trigger] self.pvs@[i].device) < dev_key(#[trigger] self.pvs@[j].device) by {
                let oi = if i < pi { i } else { i + 1 };
                let oj = if j < pi { j } else { j + 1 };
                assert(self.pvs@[i] == old_pvs[oi]);
                assert(self.pvs@[j] == old_pvs[oj]);
            }
            assert(areas_fit(lvs_areas(self.lvs@), self.pvs@));
            assert(pvs_sorted(self.pvs@));
        }
        Ok(())
    }

    /// Remove the LV called `name` and hand it back.
    pub(crate) fn drop_lv(&mut self, name: &[u8]) -> (r: Result<LV, Error>)
        requires
            old(self).wf(),
        ensures
            final(self).wf(),
            final(self).same_header(&*old(self)),
            final(self).spec_pvs() == old(self).spec_pvs(),
            final(self).spec_seqno() == old(self).spec_seqno(),
            match r {
                Ok(lv) => lv.name@ == name@ && exists|i: int| 0 <= i < old(self).spec_lvs().len() && old(self).spec_lvs()[i] == lv
                    && final(self).spec_lvs() == old(self).spec_lvs().remove(i),
                Err(e) => (e matches Error::NotFound(_)) && final(self).spec_lvs() == old(self).spec_lvs()
                    && forall|i: int| 0 <= i < old(self).spec_lvs().len() ==> (#[trigger] old(self).spec_lvs()[i]).name@ != name@,
            },
    {
        let i = match self.lv_position(name) {
            Some(i) => i,
            None => {
                return Err(Error::NotFound(copy_bytes(name)));
            },
        };
        let ghost old_lvs = self.lvs@;
        let lv = self.lvs.remove(i);
        proof {
            let l1 = old_lvs.subrange(0, i as int);
            let x = old_lvs[i as int];
            let l2 = old_lvs.subrange(i + 1, old_lvs.len() as int);
            assert(old_lvs =~= l1 + seq![x] + l2);
            assert(self.lvs@ =~= l1 + l2);
            lemma_lvs_areas_concat(l1 + seq![x], l2);
            lemma_lvs_areas_concat(l1, seq![x]);
            lemma_lvs_areas_concat(l1, l2);
            let a1 = lvs_areas(l1);
            let b = lvs_areas(seq![x]);
            let a2 = lvs_areas(l2);
            let old_areas = lvs_areas(old_lvs);
            let areas = lvs_areas(self.lvs@);
            assert(old_areas == a1 + b + a2);
            assert(areas == a1 + a2);
            let m = |k: int| if k < a1.len() { k } else { k + b.len() };
            assert forall|k: int| 0 <= k < areas.len() implies #[trigger] areas[k] == old_areas[m(k)] by {}
            assert forall|aa: int, bb: int| 0 <= aa < bb < areas.len() && (#[trigger] areas[aa]).0 == (#[trigger] areas[bb]).0 implies
                areas[aa].2 == 0 || areas[bb].2 == 0 || areas[aa].1 + areas[aa].2 <= areas[bb].1 || areas[bb].1 + areas[bb].2 <= areas[aa].1 by {
                assert(areas[aa] == old_areas[m(aa)]);
                assert(areas[bb] == old_areas[m(bb)]);
                assert(m(aa) < m(bb));
            }
            assert forall|k: int| 0 <= k < areas.len() implies #[trigger] fits_some(areas[k], self.pvs@) by {
                assert(areas[k] == old_areas[m(k)]);
                assert(fits_some(old_areas[m(k)], self.pvs@));
                let pi = choose|pi: int| #[trigger] area_on(old_areas[m(k)], self.pvs@, pi);
                assert(area_on(areas[k], self.pvs@, pi));
            }
            assert forall|p: int, q: int| 0 <= p < q < self.lvs@.len() implies (#[trigger] self.lvs@[p]).name@ != (#[trigger] self.lvs@[q]).name@ by {
                let op = if p < i { p } else { p + 1 };
                let oq = if q < i { q } else { q + 1 };
                assert(self.lvs@[p] == old_lvs[op]);
                assert(self.lvs@[q] == old_lvs[oq]);
            }
        }
        Ok(lv)
    }
}

/// The size, first-extent offset (both in sectors) and extent count that a
/// PV gets in a VG with extents of `es` sectors; `None` where its data area
/// is missing or the device is too small for the layout.
pub open spec fn pv_geometry(pvh: PvHeader, es: int) -> Option<(int, int, int)> {
    if pvh.data_areas@.len() == 0 {
        None
    } else {
        let ds = (pvh.size / 512) as int;
        let ps = aligned_up((pvh.data_areas@[0].offset / 512) as int, es);
        let m1: int = if pvh.metadata_areas@.len() > 1 { (pvh.metadata_areas@[1].size / 512) as int } else { 0 };
        if ps + m1 > ds {
            None
        } else {
            Some((ds, ps, (ds - ps - m1) / es))
        }
    }
}

/// The status of a PV that joins a VG: ALLOCATABLE.
pub open spec fn pv_new_status() -> Seq<Seq<u8>> {
    seq!["ALLOCATABLE".spec_bytes()]
}

/// Whether `pv` is what a PV header on `dev` becomes in a VG.
pub open spec fn is_new_pv(pv: PV, pvh: PvHeader, dev: Device, es: int) -> bool {
    &&& pv_geometry(pvh, es) matches Some((ds, ps, pc))
    &&& pv.device == dev && pv.id@ == pvh.uuid@
    &&& pv.dev_size == ds && pv.pe_start == ps && pv.pe_count == pc
    &&& bytes_seq(pv.status@) == pv_new_status()
    &&& pv.flags@.len() == 0
}

/// Appends a copy of each byte string of `src`.
pub fn copy_strings(src: &Vec<Vec<u8>>) -> (r: Vec<Vec<u8>>)
    ensures
        bytes_seq(r@) == bytes_seq(src@),
{
    let mut out: Vec<Vec<u8>> = Vec::new();
    let mut i: usize = 0;
    while i < src.len()
        invariant
            i <= src@.len(),
            bytes_seq(out@) == bytes_seq(src@.subrange(0, i as int)),
        decreases src@.len() - i,
    {
        let ghost before = out@;
        out.push(copy_bytes(src[i].as_slice()));
        assert(src@.subrange(0, i + 1) =~= src@.subrange(0, i as int).push(src@[i as int]));
        assert(bytes_seq(out@) =~= bytes_seq(before).push(src@[i as int]@));
        assert(bytes_seq(src@.subrange(0, i + 1)) =~= bytes_seq(src@.subrange(0, i as int)).push(src@[i as int]@));
        i = i + 1;
    }
    assert(src@.subrange(0, src@.len() as int) =~= src@);
    out
}

impl VG {
    /// Add a PV that belongs to no VG. `has_metadata` tells whether its
    /// metadata areas already hold VG text, which makes it another VG's.
    pub(crate) fn add_pv(&mut self, pvh: &PvHeader, dev: Device, has_metadata: bool) -> (r: Result<(), Error>)
        requires
            old(self).wf(),
        ensures
            final(self).wf(),
            final(self).same_header(&*old(self)),
            final(self).spec_lvs() == old(self).spec_lvs(),
            final(self).spec_seqno() == old(self).spec_seqno(),
            r is Err ==> final(self).spec_pvs() == old(self).spec_pvs(),
            (exists|i: int| 0 <= i < old(self).spec_pvs().len() && (#[trigger] old(self).spec_pvs()[i]).device == dev) ==>
                r matches Err(Error::Invariant(Violation::DuplicatePv)),
            (forall|i: int| 0 <= i < old(self).spec_pvs().len() ==> (#[trigger] old(self).spec_pvs()[i]).device != dev) ==> {
                if has_metadata {
                    r matches Err(Error::Invariant(Violation::ForeignVg))
                } else if pvh.data_areas@.len() == 0 {
                    r matches Err(Error::Invariant(Violation::NoDataArea))
                } else if pv_geometry(*pvh, old(self).spec_extent_size() as int) is None {
                    r matches Err(Error::Invariant(Violation::TooSmall))
                } else {
                    r is Ok
                }
            },
            r is Ok ==> exists|i: int| 0 <= i <= old(self).spec_pvs().len()
                && final(self).spec_pvs() == old(self).spec_pvs().insert(i, final(self).spec_pvs()[i])
                && #[trigger] is_new_pv(final(self).spec_pvs()[i], *pvh, dev, old(self).spec_extent_size() as int),
    {
        if self.pv_position(dev).is_some() {
            return Err(Error::Invariant(Violation::DuplicatePv));
        }
        if has_metadata {
            return Err(Error::Invariant(Violation::ForeignVg));
        }
        if pvh.data_areas.len() == 0 {
            return Err(Error::Invariant(Violation::NoDataArea));
        }
        let es = self.extent_size;
        let ds: u64 = pvh.size / 512;
        let da_sectors: u64 = pvh.data_areas[0].offset / 512;
        let x: u128 = da_sectors as u128 + es as u128 - 1;
        let q: u128 = x / es as u128;
        proof {
            vstd::arithmetic::div_mod::lemma_fundamental_div_mod(x as int, es as int);
            vstd::arithmetic::div_mod::lemma_mod_pos_bound(x as int, es as int);
            vstd::arithmetic::mul::lemma_mul_is_commutative(q as int, es as int);
        }
        let ps: u128 = q * es as u128;
        assert(ps as int == aligned_up(da_sectors as int, es as int));
        let m1: u64 = if pvh.metadata_areas.len() > 1 { pvh.metadata_areas[1].size / 512 } else { 0 };
        if ps + m1 as u128 > ds as u128 {
            return Err(Error::Invariant(Violation::TooSmall));
        }
        let ps = ps as u64;
        let pc: u64 = (ds - ps - m1) / es;
        let mut status: Vec<Vec<u8>> = Vec::new();
        status.push(text_bytes("ALLOCATABLE"));
        assert(bytes_seq(status@) =~= pv_new_status());
        let pv = PV {
            id: copy_bytes(pvh.uuid.as_slice()),
            device: dev,
            status,
            flags: Vec::new(),
            dev_size: ds,
            pe_start: ps,
            pe_count: pc,
        };
        let mut i: usize = 0;
        while i < self.pvs.len() && !dev.precedes(&self.pvs[i].device)
            invariant
                i <= self.pvs@.len(),
                forall|j: int| 0 <= j < self.pvs@.len() ==> (#[trigger] self.pvs@[j]).device != dev,
                forall|j: int| 0 <= j < i ==> dev_key(#[trigger] self.pvs@[j].device) < dev_key(dev),
            decreases self.pvs@.len() - i,
        {
            proof {
                assert(self.pvs@[i as int].device != dev);
                assert(dev_key(self.pvs@[i as int].device) != dev_key(dev)) by {
                    if dev_key(self.pvs@[i as int].device) == dev_key(dev) {
                        assert(self.pvs@[i as int].device.major == dev.major);
                    }
                }
            }
            i = i + 1;
        }
        let ghost old_pvs = self.pvs@;
        self.pvs.insert(i, pv);
        proof {
            assert(self.pvs@[i as int] == pv);
            assert(i < old_pvs.len() ==> dev_key(dev) < dev_key(old_pvs[i as int].device));
            assert forall|a: int, b: int| 0 <= a < b < self.pvs@.len() implies dev_key(#[trigger] self.pvs@[a].device) < dev_key(#[trigger] self.pvs@[b].device) by {
                if a < i && b < i {
                    assert(self.pvs@[a] == old_pvs[a] && self.pvs@[b] == old_pvs[b]);
                } else if a < i && b == i {
                    assert(self.pvs@[a] == old_pvs[a]);
                } else if a < i {
                    assert(self.pvs@[a] == old_pvs[a] && self.pvs@[b] == old_pvs[b - 1]);
                    assert(dev_key(old_pvs[a].device) < dev_key(dev));
                    if b - 1 > i {
                        assert(dev_key(old_pvs[i as int].device) < dev_key(old_pvs[b - 1].device));
                    }
                } else if a == i {
                    assert(self.pvs@[b] == old_pvs[b - 1]);
                    if b - 1 > i {
                        assert(dev_key(old_pvs[i as int].device) < dev_key(old_pvs[b - 1].device));
                    }
                } else {
                    assert(self.pvs@[a] == old_pvs[a - 1] && self.pvs@[b] == old_pvs[b - 1]);
                }
            }
            let areas = lvs_areas(self.lvs@);
            assert forall|k: int| 0 <= k < areas.len() implies #[trigger] fits_some(areas[k], self.pvs@) by {
                assert(fits_some(areas[k], old_pvs));
                let j = choose|j: int| #[trigger] area_on(areas[k], old_pvs, j);
                if j < i {
                    assert(self.pvs@[j] == old_pvs[j]);
                    assert(area_on(areas[k], self.pvs@, j));
                } else {
                    assert(self.pvs@[j + 1] == old_pvs[j]);
                    assert(area_on(areas[k], self.pvs@, j + 1));
                }
            }
            assert(self.pvs@ =~= old_pvs.insert(i as int, self.pvs@[i as int]));
            assert(pv_geometry(*pvh, es as int) == Some((ds as int, ps as int, pc as int)));
            assert(is_new_pv(self.pvs@[i as int], *pvh, dev, es as int));
            assert(old_pvs == old(self).pvs@);
            assert(0 <= i <= old(self).spec_pvs().len()
                && self.spec_pvs() == old(self).spec_pvs().insert(i as int, self.spec_pvs()[i as int])
                && is_new_pv(self.spec_pvs()[i as int], *pvh, dev, old(self).spec_extent_size() as int));
        }
        Ok(())
    }

}

/// A device offered to a new VG: its PV header, its device number, and
/// whether its metadata areas already hold VG text.
#[derive(Debug)]
pub struct PvCandidate {
    pub header: PvHeader,
    pub device: Device,
    pub has_metadata: bool,
}

/// Some PV of `pvs` is what candidate `c` becomes in a new VG.
pub open spec fn has_new_pv(pvs: Seq<PV>, c: PvCandidate) -> bool {
    exists|j: int| 0 <= j < pvs.len() && #[trigger] is_new_pv(pvs[j], c.header, c.device, DEFAULT_EXTENT_SIZE as int)
}

/// The number of metadata areas of a list of candidates.
pub open spec fn total_mdas(c: Seq<PvCandidate>) -> int
    decreases c.len(),
{
    if c.len() == 0 {
        0
    } else {
        total_mdas(c.drop_last()) + c.last().header.metadata_areas@.len()
    }
}

/// Candidates that make a VG: at least one, with a metadata area among
/// them, none already in a VG, each large enough, on distinct devices.
pub open spec fn candidates_ok(c: Seq<PvCandidate>) -> bool {
    &&& c.len() > 0
    &&& total_mdas(c) > 0
    &&& forall|i: int| 0 <= i < c.len() ==> !(#[trigger] c[i]).has_metadata
        && pv_geometry(c[i].header, DEFAULT_EXTENT_SIZE as int) is Some
    &&& forall|i: int, j: int| 0 <= i < j < c.len() ==> (#[trigger] c[i]).device != (#[trigger] c[j]).device
}

/// The status of a new VG: READ, WRITE, RESIZEABLE.
pub open spec fn vg_new_status() -> Seq<Seq<u8>> {
    seq!["READ".spec_bytes(), "WRITE".spec_bytes(), "RESIZEABLE".spec_bytes()]
}

impl VG {
    /// Assemble a VG from one or more PVs, which together must have at least
    /// one metadata area; its generation is 0, before any commit.
    pub(crate) fn assemble(name: &[u8], candidates: &Vec<PvCandidate>) -> (r: Result<VG, Error>)
        ensures
            candidates@.len() == 0 ==> r matches Err(Error::Invariant(Violation::NoPvs)),
            candidates@.len() > 0 && total_mdas(candidates@) == 0 ==> r matches Err(Error::Invariant(Violation::NoMetadataArea)),
            match r {
                Ok(vg) => vg.wf() && vg.spec_seqno() == 0 && vg.spec_lvs().len() == 0 && vg.spec_name() == name@
                    && vg.spec_extent_size() == DEFAULT_EXTENT_SIZE && vg.spec_status() == vg_new_status()
                    && vg.spec_pvs().len() == candidates@.len()
                    && vg.spec_format() == "lvm2".spec_bytes() && vg.spec_flags().len() == 0
                    && forall|i: int| 0 <= i < candidates@.len() ==> #[trigger] has_new_pv(vg.spec_pvs(), candidates@[i]),
                Err(_) => true,
            },
            candidates_ok(candidates@) ==> r is Ok,
    {
        if candidates.len() == 0 {
            return Err(Error::Invariant(Violation::NoPvs));
        }
        let mut mdas: usize = 0;
        let mut i: usize = 0;
        while i < candidates.len()
            invariant
                i <= candidates@.len(),
                mdas == 0 <==> total_mdas(candidates@.subrange(0, i as int)) == 0,
                total_mdas(candidates@.subrange(0, i as int)) >= 0,
            decreases candidates@.len() - i,
        {
            assert(candidates@.subrange(0, i + 1).drop_last() =~= candidates@.subrange(0, i as int));
            if candidates[i].header.metadata_areas.len() > 0 {
                mdas = 1;
            }
            i = i + 1;
        }
        assert(candidates@.subrange(0, candidates@.len() as int) =~= candidates@);
        if mdas == 0 {
            return Err(Error::Invariant(Violation::NoMetadataArea));
        }
        let mut status: Vec<Vec<u8>> = Vec::new();
        status.push(text_bytes("READ"));
        status.push(text_bytes("WRITE"));
        status.push(text_bytes("RESIZEABLE"));
        assert(bytes_seq(status@) =~= vg_new_status());
        let mut vg = VG {
            name: copy_bytes(name),
            id: make_uuid(),
            seqno: 0,
            format: text_bytes("lvm2"),
            status,
            flags: Vec::new(),
            extent_size: DEFAULT_EXTENT_SIZE,
            max_lv: 0,
            max_pv: 0,
            metadata_copies: 0,
            pvs: Vec::new(),
            lvs: Vec::new(),
        };
        assert(lvs_areas(vg.lvs@) =~= Seq::<Area>::empty());
        let mut k: usize = 0;
        while k < candidates.len()
            invariant
                k <= candidates@.len(),
                total_mdas(candidates@) != 0,
                vg.wf(),
                vg.seqno == 0,
                vg.lvs@.len() == 0,
                vg.name@ == name@,
                vg.extent_size == DEFAULT_EXTENT_SIZE,
                bytes_seq(vg.status@) == vg_new_status(),
                vg.pvs@.len() == k,
                forall|i: int| 0 <= i < k ==> #[trigger] has_new_pv(vg.pvs@, candidates@[i]),
                forall|q: int| 0 <= q < vg.pvs@.len() ==> exists|j: int| 0 <= j < k && (#[trigger] vg.pvs@[q]).device == candidates@[j].device,
                vg.format@ == "lvm2".spec_bytes(),
                bytes_seq(vg.flags@).len() == 0,
                candidates_ok(candidates@) ==> total_mdas(candidates@) > 0,
            decreases candidates@.len() - k,
        {
            let c = &candidates[k];
            let ghost before = vg.pvs@;
            proof {
                if candidates_ok(candidates@) {
                    assert forall|q: int| 0 <= q < before.len() implies (#[trigger] before[q]).device != c.device by {
                        let j = choose|j: int| 0 <= j < k && before[q].device == candidates@[j].device;
                        assert(candidates@[j].device != candidates@[k as int].device);
                    }
                    assert(!candidates@[k as int].has_metadata);
                    assert(pv_geometry(candidates@[k as int].header, DEFAULT_EXTENT_SIZE as int) is Some);
                }
            }
            match vg.add_pv(&c.header, c.device, c.has_metadata) {
                Ok(()) => {},
                Err(e) => {
                    return Err(e);
                },
            }
            proof {
                let j = choose|j: int| 0 <= j <= before.len() && vg.pvs@ == before.insert(j, vg.pvs@[j])
                    && #[trigger] is_new_pv(vg.pvs@[j], candidates@[k as int].header, candidates@[k as int].device, DEFAULT_EXTENT_SIZE as int);
                assert forall|i: int| 0 <= i < k + 1 implies #[trigger] has_new_pv(vg.pvs@, candidates@[i]) by {
                    if i < k {
                        assert(has_new_pv(before, candidates@[i]));
                        let j1 = choose|j1: int| 0 <= j1 < before.len()
                            && #[trigger] is_new_pv(before[j1], candidates@[i].header, candidates@[i].device, DEFAULT_EXTENT_SIZE as int);
                        if j1 < j {
                            assert(vg.pvs@[j1] == before[j1]);
                            assert(is_new_pv(vg.pvs@[j1], candidates@[i].header, candidates@[i].device, DEFAULT_EXTENT_SIZE as int));
                        } else {
                            assert(vg.pvs@[j1 + 1] == before[j1]);
                            assert(is_new_pv(vg.pvs@[j1 + 1], candidates@[i].header, candidates@[i].device, DEFAULT_EXTENT_SIZE as int));
                        }
                    } else {
                        assert(is_new_pv(vg.pvs@[j], candidates@[i].header, candidates@[i].device, DEFAULT_EXTENT_SIZE as int));
                    }
                }
                assert forall|q: int| 0 <= q < vg.pvs@.len() implies exists|j2: int| 0 <= j2 < k + 1 && (#[trigger] vg.pvs@[q]).device == candidates@[j2].device by {
                    if q < j {
                        assert(vg.pvs@[q] == before[q]);
                        let j1 = choose|j1: int| 0 <= j1 < k && before[q].device == candidates@[j1].device;
                    } else if q > j {
                        assert(vg.pvs@[q] == before[q - 1]);
                        let j1 = choose|j1: int| 0 <= j1 < k && before[q - 1].device == candidates@[j1].device;
                    } else {
                        assert(vg.pvs@[q].device == candidates@[k as int].device);
                    }
                }
            }
            k = k + 1;
        }
        Ok(vg)
    }

    /// The VG's name.
    pub fn name(&self) -> (r: &[u8])
        ensures
            r@ == self.spec_name(),
    {
        self.name.as_slice()
    }

    /// The VG's UUID.
    pub fn id(&self) -> (r: &[u8])
        ensures
            r@ == self.spec_id(),
    {
        self.id.as_slice()
    }

    /// How many 512-byte sectors make up an extent.
    pub fn extent_size(&self) -> (r: u64)
        ensures
            r == self.spec_extent_size(),
    {
        self.extent_size
    }

    /// The generation of metadata this VG represents.
    pub fn seqno(&self) -> (r: u64)
        ensures
            r == self.spec_seqno(),
    {
        self.seqno
    }

    /// The devices of the VG's PVs, in device order.
    pub fn pv_list(&self) -> (r: Vec<Device>)
        ensures
            r@ == self.spec_pvs().map_values(|p: PV| p.device),
    {
        let mut out: Vec<Device> = Vec::new();
        let mut i: usize = 0;
        while i < self.pvs.len()
            invariant
                i <= self.pvs@.len(),
                out@ == self.pvs@.subrange(0, i as int).map_values(|p: PV| p.device),
            decreases self.pvs@.len() - i,
        {
            out.push(self.pvs[i].device);
            assert(out@ =~= self.pvs@.subrange(0, i + 1).map_values(|p: PV| p.device));
            i = i + 1;
        }
        assert(self.pvs@.subrange(0, self.pvs@.len() as int) =~= self.pvs@);
        out
    }

    /// The PV on `dev`, if the VG has one.
    pub fn pv_get(&self, dev: Device) -> (r: Option<&PV>)
        ensures
            match r {
                Some(p) => exists|i: int| 0 <= i < self.spec_pvs().len() && self.spec_pvs()[i] == *p && p.device == dev,
                None => forall|i: int| 0 <= i < self.spec_pvs().len() ==> (#[trigger] self.spec_pvs()[i]).device != dev,
            },
    {
        match self.pv_position(dev) {
            Some(i) => Some(&self.pvs[i]),
            None => None,
        }
    }

    /// The names of the VG's LVs, in the order they were added.
    pub fn lv_list(&self) -> (r: Vec<Vec<u8>>)
        ensures
            bytes_seq(r@) == self.spec_lvs().map_values(|l: LV| l.name@),
    {
        let mut out: Vec<Vec<u8>> = Vec::new();
        let mut i: usize = 0;
        while i < self.lvs.len()
            invariant
                i <= self.lvs@.len(),
                bytes_seq(out@) == self.lvs@.subrange(0, i as int).map_values(|l: LV| l.name@),
            decreases self.lvs@.len() - i,
        {
            let ghost before = out@;
            out.push(copy_bytes(self.lvs[i].name.as_slice()));
            assert(bytes_seq(out@) =~= bytes_seq(before).push(self.lvs@[i as int].name@));
            assert(bytes_seq(out@) =~= self.lvs@.subrange(0, i + 1).map_values(|l: LV| l.name@));
            i = i + 1;
        }
        assert(self.lvs@.subrange(0, self.lvs@.len() as int) =~= self.lvs@);
        out
    }

    /// Record the device that instantiates the LV called `name`; false
    /// where there is no such LV.
    pub fn lv_set_device(&mut self, name: &[u8], dev: Device) -> (r: bool)
        requires
            old(self).wf(),
        ensures
            final(self).wf(),
            final(self).same_header(&*old(self)),
            final(self).spec_pvs() == old(self).spec_pvs(),
            final(self).spec_seqno() == old(self).spec_seqno(),
            final(self).spec_lvs().len() == old(self).spec_lvs().len(),
            r == exists|i: int| 0 <= i < old(self).spec_lvs().len() && (#[trigger] old(self).spec_lvs()[i]).name@ == name@,
            forall|i: int| 0 <= i < old(self).spec_lvs().len() ==> {
                let o = #[trigger] old(self).spec_lvs()[i];
                let n = final(self).spec_lvs()[i];
                &&& n.name == o.name && n.id == o.id && n.status == o.status && n.flags == o.flags
                &&& n.creation_host == o.creation_host && n.creation_time == o.creation_time && n.segments == o.segments
                &&& n.device == if o.name@ == name@ { Some(dev) } else { o.device }
            },
    {
        match self.lv_position(name) {
            None => false,
            Some(i) => {
                let ghost old_lvs = self.lvs@;
                let ghost old_areas = lvs_areas(self.lvs@);
                let mut lv = self.lvs.remove(i);
                lv.device = Some(dev);
                self.lvs.insert(i, lv);
                proof {
                    assert(self.lvs@ =~= old_lvs.update(i as int, self.lvs@[i as int]));
                    assert forall|j: int| 0 <= j < old_lvs.len() && old_lvs[j].name@ == name@ implies j == i by {
                        if j != i && old_lvs[j].name@ == name@ {
                            if j < i {
                                assert(old_lvs[j].name@ != old_lvs[i as int].name@);
                            } else {
                                assert(old_lvs[i as int].name@ != old_lvs[j].name@);
                            }
                        }
                    }
                    lemma_lvs_areas_same_segments(old_lvs, self.lvs@);
                }
                true
            },
        }
    }

    /// The LV called `name`, if the VG has one.
    pub fn lv_get(&self, name: &[u8]) -> (r: Option<&LV>)
        ensures
            match r {
                Some(l) => exists|i: int| 0 <= i < self.spec_lvs().len() && self.spec_lvs()[i] == *l && l.name@ == name@,
                None => forall|i: int| 0 <= i < self.spec_lvs().len() ==> (#[trigger] self.spec_lvs()[i]).name@ != name@,
            },
    {
        match self.lv_position(name) {
            Some(i) => Some(&self.lvs[i]),
            None => None,
        }
    }
}

/// On a PV of a well-formed VG, every extent below the PV's count is either
/// used by a segment or inside one of the PV's free ranges, never both;
/// used ranges and free ranges all lie below the count.
pub proof fn lemma_area_algebra(areas: Seq<Area>, pvs: Seq<PV>, pi: int, rs: Seq<(u64, u64)>)
    requires
        areas_fit(areas, pvs),
        pvs_sorted(pvs),
        0 <= pi < pvs.len(),
        free_ranges_of(areas, pvs[pi].device, pvs[pi].pe_count as int, rs),
    ensures
        forall|e: int| 0 <= e < pvs[pi].pe_count ==> (covered(areas, pvs[pi].device, e)
            <==> !(exists|i: int| 0 <= i < rs.len() && #[trigger] in_range(rs[i], e))),
        forall|i: int, e: int| 0 <= i < rs.len() && #[trigger] in_range(rs[i], e) ==> 0 <= e < pvs[pi].pe_count
            && !covered(areas, pvs[pi].device, e),
        forall|k: int| 0 <= k < areas.len() && (#[trigger] areas[k]).0 == pvs[pi].device
            ==> areas[k].1 + areas[k].2 <= pvs[pi].pe_count,
{
    let pv = pvs[pi];
    let pc = pv.pe_count as int;
    assert forall|e: int| 0 <= e < pc implies (covered(areas, pv.device, e)
        <==> !(exists|i: int| 0 <= i < rs.len() && #[trigger] in_range(rs[i], e))) by {
        if !covered(areas, pv.device, e) {
            assert(free_in(areas, pv.device, pc, e));
        } else {
            if exists|i: int| 0 <= i < rs.len() && #[trigger] in_range(rs[i], e) {
                let i = choose|i: int| 0 <= i < rs.len() && #[trigger] in_range(rs[i], e);
                assert(free_in(areas, pv.device, pc, e) && rs[i].0 <= e);
            }
        }
    }
    assert forall|i: int, e: int| 0 <= i < rs.len() && #[trigger] in_range(rs[i], e) implies 0 <= e < pc
        && !covered(areas, pv.device, e) by {
        assert(free_in(areas, pv.device, pc, e) && rs[i].0 <= e);
    }
    assert forall|k: int| 0 <= k < areas.len() && (#[trigger] areas[k]).0 == pv.device
        implies areas[k].1 + areas[k].2 <= pc by {
        assert(fits_some(areas[k], pvs));
        let j = choose|j: int| #[trigger] area_on(areas[k], pvs, j);
        if j != pi {
            if j < pi {
                assert(dev_key(pvs[j].device) < dev_key(pvs[pi].device));
            } else {
                assert(dev_key(pvs[pi].device) < dev_key(pvs[j].device));
            }
        }
    }
}

/// A run of `n` free extents on a PV lies inside a single one of the PV's
/// free ranges.
pub proof fn lemma_window_in_one_free_range(areas: Seq<Area>, pv: PV, rs: Seq<(u64, u64)>, s: int, n: int)
    requires
        n > 0,
        free_ranges_of(areas, pv.device, pv.pe_count as int, rs),
        window_free(areas, pv, s, n),
    ensures
        exists|i: int| 0 <= i < rs.len() && rs[i].0 <= s && s + n <= rs[i].0 + rs[i].1,
{
    let pc = pv.pe_count as int;
    assert(free_in(areas, pv.device, pc, s));
    let i = choose|i: int| 0 <= i < rs.len() && #[trigger] in_range(rs[i], s);
    let end = rs[i].0 + rs[i].1;
    if s + n > end {
        assert(free_in(areas, pv.device, pc, end));
        assert(end == pc || !free_in(areas, pv.device, pc, end));
    }
}

/// A PV that no segment uses has one free range: all of its extents.
pub proof fn lemma_unused_pv_one_range(areas: Seq<Area>, dev: Device, pc: u64, rs: Seq<(u64, u64)>)
    requires
        free_ranges_of(areas, dev, pc as int, rs),
        pc > 0,
        forall|e: int| !covered(areas, dev, e),
    ensures
        rs == seq![(0u64, pc)],
{
    assert(free_in(areas, dev, pc as int, 0));
    let i = choose|i: int| 0 <= i < rs.len() && #[trigger] in_range(rs[i], 0);
    if i > 0 {
        assert(rs[0].0 < rs[i].0);
    }
    assert(i == 0);
    let end = rs[0].0 + rs[0].1;
    assert(free_in(areas, dev, pc as int, end - 1) && rs[0].0 <= end - 1);
    if end < pc {
        assert(free_in(areas, dev, pc as int, end));
    }
    assert(end == pc);
    if rs.len() > 1 {
        assert(rs[0].0 + rs[0].1 <= rs[1].0);
        assert(rs[1].1 > 0);
        assert(free_in(areas, dev, pc as int, rs[1].0 as int) && rs[1].0 <= rs[1].0);
    }
    assert(rs =~= seq![(0u64, pc)]);
}

/// The part of the extents `[0, n)` that an area on `dev` covers.
pub open spec fn clip(a: Area, dev: Device, n: int) -> int {
    if a.0 != dev || n <= a.1 {
        0
    } else if n >= a.1 + a.2 {
        a.2 as int
    } else {
        n - a.1
    }
}

/// How many of the extents `[0, n)` of `dev` the areas cover, counted area by area.
pub open spec fn clip_sum(xs: Seq<Area>, dev: Device, n: int) -> int
    decreases xs.len(),
{
    if xs.len() == 0 {
        0
    } else {
        clip_sum(xs.drop_last(), dev, n) + clip(xs.last(), dev, n)
    }
}

/// The number of extents below `n` of `dev` that the areas cover.
pub open spec fn count_covered(xs: Seq<Area>, dev: Device, n: int) -> int
    decreases n,
{
    if n <= 0 {
        0
    } else {
        count_covered(xs, dev, n - 1) + if covered(xs, dev, n - 1) { 1int } else { 0int }
    }
}

/// The lengths of the areas on `dev`, added up.
pub open spec fn len_sum(xs: Seq<Area>, dev: Device) -> int
    decreases xs.len(),
{
    if xs.len() == 0 {
        0
    } else {
        len_sum(xs.drop_last(), dev) + if xs.last().0 == dev { xs.last().2 as int } else { 0int }
    }
}

/// The lengths of free ranges, added up.
pub open spec fn ranges_len(rs: Seq<(u64, u64)>) -> int
    decreases rs.len(),
{
    if rs.len() == 0 {
        0
    } else {
        ranges_len(rs.drop_last()) + rs.last().1
    }
}

/// Free ranges of `dev` as areas.
pub open spec fn ranges_as_areas(rs: Seq<(u64, u64)>, dev: Device) -> Seq<Area> {
    rs.map_values(|r: (u64, u64)| (dev, r.0, r.1))
}

proof fn lemma_clip_step(xs: Seq<Area>, dev: Device, n: int)
    requires
        n >= 1,
        areas_disjoint(xs),
    ensures
        clip_sum(xs, dev, n) == clip_sum(xs, dev, n - 1) + if covered(xs, dev, n - 1) { 1int } else { 0int },
    decreases xs.len(),
{
    if xs.len() > 0 {
        let ys = xs.drop_last();
        assert(areas_disjoint(ys)) by {
            assert forall|a: int, b: int| 0 <= a < b < ys.len() && (#[trigger] ys[a]).0 == (#[trigger] ys[b]).0 implies
                ys[a].2 == 0 || ys[b].2 == 0 || ys[a].1 + ys[a].2 <= ys[b].1 || ys[b].1 + ys[b].2 <= ys[a].1 by {
                assert(ys[a] == xs[a] && ys[b] == xs[b]);
            }
        }
        lemma_clip_step(ys, dev, n);
        let l = xs.last();
        let in_last = l.0 == dev && l.1 <= n - 1 < l.1 + l.2;
        if covered(ys, dev, n - 1) {
            let k = choose|k: int| 0 <= k < ys.len() && #[trigger] ys[k].0 == dev && ys[k].1 <= n - 1 < ys[k].1 + ys[k].2;
            assert(xs[k] == ys[k]);
            assert(xs[xs.len() - 1] == l);
            assert(!in_last);
            assert(covered(xs, dev, n - 1)) by {
                assert(xs[k].0 == dev && xs[k].1 <= n - 1 < xs[k].1 + xs[k].2);
            }
        } else if in_last {
            assert(xs[xs.len() - 1].0 == dev && xs[xs.len() - 1].1 <= n - 1 < xs[xs.len() - 1].1 + xs[xs.len() - 1].2);
        } else {
            if covered(xs, dev, n - 1) {
                let k = choose|k: int| 0 <= k < xs.len() && #[trigger] xs[k].0 == dev && xs[k].1 <= n - 1 < xs[k].1 + xs[k].2;
                if k < ys.len() {
                    assert(ys[k] == xs[k]);
                    assert(ys[k].0 == dev && ys[k].1 <= n - 1 < ys[k].1 + ys[k].2);
                }
            }
        }
    }
}

proof fn lemma_clip_count(xs: Seq<Area>, dev: Device, n: int)
    requires
        n >= 0,
        areas_disjoint(xs),
    ensures
        clip_sum(xs, dev, n) == count_covered(xs, dev, n),
    decreases n,
{
    if n == 0 {
        lemma_clip_zero(xs, dev);
    } else {
        lemma_clip_count(xs, dev, n - 1);
        lemma_clip_step(xs, dev, n);
    }
}

proof fn lemma_clip_zero(xs: Seq<Area>, dev: Device)
    ensures
        clip_sum(xs, dev, 0) == 0,
    decreases xs.len(),
{
    if xs.len() > 0 {
        lemma_clip_zero(xs.drop_last(), dev);
    }
}

proof fn lemma_clip_full(xs: Seq<Area>, dev: Device, n: int)
    requires
        forall|k: int| 0 <= k < xs.len() && (#[trigger] xs[k]).0 == dev ==> xs[k].1 + xs[k].2 <= n,
    ensures
        clip_sum(xs, dev, n) == len_sum(xs, dev),
    decreases xs.len(),
{
    if xs.len() > 0 {
        let ys = xs.drop_last();
        assert forall|k: int| 0 <= k < ys.len() && (#[trigger] ys[k]).0 == dev implies ys[k].1 + ys[k].2 <= n by {
            assert(ys[k] == xs[k]);
        }
        lemma_clip_full(ys, dev, n);
        assert(xs.last() == xs[xs.len() - 1]);
    }
}

proof fn lemma_ranges_len(rs: Seq<(u64, u64)>, dev: Device)
    ensures
        len_sum(ranges_as_areas(rs, dev), dev) == ranges_len(rs),
    decreases rs.len(),
{
    if rs.len() > 0 {
        lemma_ranges_len(rs.drop_last(), dev);
        assert(ranges_as_areas(rs, dev).drop_last() =~= ranges_as_areas(rs.drop_last(), dev));
    }
}

proof fn lemma_free_used_count(areas: Seq<Area>, rs: Seq<(u64, u64)>, dev: Device, pc: int, n: int)
    requires
        0 <= n <= pc,
        free_ranges_of(areas, dev, pc, rs),
    ensures
        count_covered(areas, dev, n) + count_covered(ranges_as_areas(rs, dev), dev, n) == n,
    decreases n,
{
    if n > 0 {
        lemma_free_used_count(areas, rs, dev, pc, n - 1);
        let fs = ranges_as_areas(rs, dev);
        let e = n - 1;
        if covered(areas, dev, e) {
            if covered(fs, dev, e) {
                let k = choose|k: int| 0 <= k < fs.len() && #[trigger] fs[k].0 == dev && fs[k].1 <= e < fs[k].1 + fs[k].2;
                assert(in_range(rs[k], e));
                assert(free_in(areas, dev, pc, e) && rs[k].0 <= e);
            }
        } else {
            assert(free_in(areas, dev, pc, e));
            let k = choose|k: int| 0 <= k < rs.len() && #[trigger] in_range(rs[k], e);
            assert(fs[k].0 == dev && fs[k].1 <= e < fs[k].1 + fs[k].2);
        }
    }
}

/// Area algebra in sums: on every PV of a well-formed VG, the lengths of
/// the used ranges and of the free ranges add up to the PV's extent count.
pub proof fn lemma_area_sums(areas: Seq<Area>, pvs: Seq<PV>, pi: int, rs: Seq<(u64, u64)>)
    requires
        areas_fit(areas, pvs),
        areas_disjoint(areas),
        pvs_sorted(pvs),
        0 <= pi < pvs.len(),
        free_ranges_of(areas, pvs[pi].device, pvs[pi].pe_count as int, rs),
    ensures
        len_sum(areas, pvs[pi].device) + ranges_len(rs) == pvs[pi].pe_count,
{
    let dev = pvs[pi].device;
    let pc = pvs[pi].pe_count as int;
    let fs = ranges_as_areas(rs, dev);
    lemma_area_algebra(areas, pvs, pi, rs);
    assert(areas_disjoint(fs)) by {
        assert forall|a: int, b: int| 0 <= a < b < fs.len() && (#[trigger] fs[a]).0 == (#[trigger] fs[b]).0 implies
            fs[a].2 == 0 || fs[b].2 == 0 || fs[a].1 + fs[a].2 <= fs[b].1 || fs[b].1 + fs[b].2 <= fs[a].1 by {
            assert(rs[a].0 + rs[a].1 <= rs[b].0);
        }
    }
    assert forall|k: int| 0 <= k < fs.len() && (#[trigger] fs[k]).0 == dev implies fs[k].1 + fs[k].2 <= pc by {
        assert(rs[k].1 > 0);
        let e = rs[k].0 + rs[k].1 - 1;
        assert(in_range(rs[k], e));
    }
    lemma_clip_count(areas, dev, pc);
    lemma_clip_count(fs, dev, pc);
    lemma_clip_full(areas, dev, pc);
    lemma_clip_full(fs, dev, pc);
    lemma_ranges_len(rs, dev);
    lemma_free_used_count(areas, rs, dev, pc, pc);
}

} // verus!
