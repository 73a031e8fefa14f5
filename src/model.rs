//! The volume-group model: devices, PVs, LVs and their segments, and the
//! algebra of used and free extents.

use vstd::prelude::*;

verus! {

/// A block device: its major and minor numbers.
#[derive(Debug, Clone, Copy, PartialEq, Eq, Structural)]
pub struct Device {
    pub major: u32,
    pub minor: u32,
}

/// The order of devices: by major number, then by minor number.
pub open spec fn dev_key(d: Device) -> int {
    d.major as int * 0x1_0000_0000 + d.minor as int
}

/// The legacy packed form of a device number: major above an 8-bit minor.
pub open spec fn dev_packed(d: Device) -> int {
    d.major as int * 256 + d.minor as int % 256
}

impl Device {
    /// Whether `self` comes before `other`.
    pub fn precedes(&self, other: &Device) -> (r: bool)
        ensures
            r == (dev_key(*self) < dev_key(*other)),
    {
        self.major < other.major || (self.major == other.major && self.minor < other.minor)
    }

    /// The packed form `(major << 8) | (minor & 0xff)`.
    pub fn to_u64(&self) -> (r: u64)
        ensures
            r == dev_packed(*self),
    {
        self.major as u64 * 256 + (self.minor % 256) as u64
    }

    /// The device that a packed number denotes, where its major fits in 32 bits.
    pub fn from_u64(v: u64) -> (r: Option<Device>)
        ensures
            match r {
                Some(d) => d.major == v / 256 && d.minor == v % 256 && dev_packed(d) == v,
                None => v / 256 > u32::MAX,
            },
    {
        let major = v / 256;
        if major > u32::MAX as u64 {
            None
        } else {
            Some(Device { major: major as u32, minor: (v % 256) as u32 })
        }
    }
}

/// A physical volume of a VG.
#[derive(Debug)]
pub struct PV {
    pub id: Vec<u8>,
    pub device: Device,
    pub status: Vec<Vec<u8>>,
    pub flags: Vec<Vec<u8>>,
    /// The device's size, in sectors.
    pub dev_size: u64,
    /// Where the first extent starts, in sectors.
    pub pe_start: u64,
    /// The number of extents.
    pub pe_count: u64,
}

/// A striped segment: `extent_count` extents of the LV from `start_extent`
/// on, laid over each stripe's PV from the stripe's first extent on.
#[derive(Debug)]
pub struct StripedSegment {
    pub start_extent: u64,
    pub extent_count: u64,
    /// 512-byte sectors per stripe; given where there is more than one stripe.
    pub stripe_size: Option<u64>,
    /// Each stripe's device and first extent on it.
    pub stripes: Vec<(Device, u64)>,
}

/// A segment of an LV, by the kind of mapping it makes.
#[derive(Debug)]
pub enum Segment {
    Striped(StripedSegment),
}

/// A logical volume.
#[derive(Debug)]
pub struct LV {
    pub name: Vec<u8>,
    pub id: Vec<u8>,
    pub status: Vec<Vec<u8>>,
    pub flags: Vec<Vec<u8>>,
    pub creation_host: Vec<u8>,
    pub creation_time: i64,
    pub segments: Vec<Segment>,
    /// The device that instantiates the LV, where one is known.
    pub device: Option<Device>,
}

/// An extent range on a device: device, first extent, length.
pub type Area = (Device, u64, u64);

/// The extent ranges that a segment occupies, one for each stripe.
pub open spec fn seg_areas(seg: Segment) -> Seq<Area> {
    match seg {
        Segment::Striped(s) => s.stripes@.map_values(|st: (Device, u64)| (st.0, st.1, s.extent_count)),
    }
}

/// The extent ranges of a list of segments, in order.
pub open spec fn segs_areas(segs: Seq<Segment>) -> Seq<Area>
    decreases segs.len(),
{
    if segs.len() == 0 {
        seq![]
    } else {
        segs_areas(segs.drop_last()) + seg_areas(segs.last())
    }
}

/// The extent ranges of a list of LVs, in order.
pub open spec fn lvs_areas(lvs: Seq<LV>) -> Seq<Area>
    decreases lvs.len(),
{
    if lvs.len() == 0 {
        seq![]
    } else {
        lvs_areas(lvs.drop_last()) + segs_areas(lvs.last().segments@)
    }
}

/// Whether extent `e` of `dev` lies in one of `areas`.
pub open spec fn covered(areas: Seq<Area>, dev: Device, e: int) -> bool {
    exists|i: int| 0 <= i < areas.len() && #[trigger] areas[i].0 == dev && areas[i].1 <= e < areas[i].1 + areas[i].2
}

/// Whether extent `e` of a PV with `pe_count` extents is free of `areas`.
pub open spec fn free_in(areas: Seq<Area>, dev: Device, pe_count: int, e: int) -> bool {
    0 <= e < pe_count && !covered(areas, dev, e)
}

/// Whether extent `e` lies in the range `(start, length)`.
pub open spec fn in_range(r: (u64, u64), e: int) -> bool {
    r.0 <= e < r.0 + r.1
}

/// Ranges `(start, length)` that are exactly the maximal runs of free
/// extents of a PV, in increasing order.
pub open spec fn free_ranges_of(areas: Seq<Area>, dev: Device, pe_count: int, rs: Seq<(u64, u64)>) -> bool {
    &&& forall|i: int| 0 <= i < rs.len() ==> (#[trigger] rs[i]).1 > 0
    &&& forall|i: int, e: int| 0 <= i < rs.len() && rs[i].0 <= e < rs[i].0 + rs[i].1 ==> #[trigger] free_in(areas, dev, pe_count, e) && #[trigger] rs[i].0 <= e
    &&& forall|e: int| #[trigger] free_in(areas, dev, pe_count, e) ==> exists|i: int| 0 <= i < rs.len() && #[trigger] in_range(rs[i], e)
    &&& forall|i: int, j: int| 0 <= i < j < rs.len() ==> rs[i].0 + rs[i].1 <= #[trigger] rs[j].0 && #[trigger] rs[i].0 < rs[j].0
    &&& forall|i: int| 0 <= i < rs.len() ==> ((#[trigger] rs[i]).0 == 0 || !free_in(areas, dev, pe_count, rs[i].0 - 1))
    &&& forall|i: int| 0 <= i < rs.len() ==> ((#[trigger] rs[i]).0 + rs[i].1 == pe_count || !free_in(areas, dev, pe_count, rs[i].0 + rs[i].1))
}

/// The end of a range of `areas` on `dev` that holds `cur`, if any.
fn covering_end(areas: &Vec<Area>, dev: Device, cur: u64) -> (r: Option<u128>)
    ensures
        match r {
            Some(end) => covered(areas@, dev, cur as int) && end > cur
                && forall|e: int| cur <= e < end ==> covered(areas@, dev, e),
            None => !covered(areas@, dev, cur as int),
        },
{
    let mut i: usize = 0;
    while i < areas.len()
        invariant
            i <= areas@.len(),
            forall|j: int| 0 <= j < i ==> !(#[trigger] areas@[j].0 == dev && areas@[j].1 <= cur < areas@[j].1 + areas@[j].2),
        decreases areas@.len() - i,
    {
        let (d, s, l) = areas[i];
        if d == dev && s <= cur && (cur as u128) < s as u128 + l as u128 {
            let end = s as u128 + l as u128;
            assert(areas@[i as int].0 == dev);
            assert forall|e: int| cur <= e < end implies covered(areas@, dev, e) by {
                assert(areas@[i as int].0 == dev && areas@[i as int].1 <= e < areas@[i as int].1 + areas@[i as int].2);
            }
            return Some(end);
        }
        i = i + 1;
    }
    None
}

/// The first start of a range of `areas` on `dev` after `cur`, or `limit`.
fn next_used_start(areas: &Vec<Area>, dev: Device, cur: u64, limit: u64) -> (r: u64)
    requires
        cur < limit,
    ensures
        cur < r <= limit,
        r == limit || exists|i: int| 0 <= i < areas@.len() && #[trigger] areas@[i].0 == dev && areas@[i].1 == r && areas@[i].2 > 0,
        forall|i: int| 0 <= i < areas@.len() && #[trigger] areas@[i].0 == dev && areas@[i].1 > cur && areas@[i].2 > 0 ==> areas@[i].1 >= r,
{
    let mut best = limit;
    let mut i: usize = 0;
    while i < areas.len()
        invariant
            i <= areas@.len(),
            cur < best <= limit,
            best == limit || exists|j: int| 0 <= j < areas@.len() && #[trigger] areas@[j].0 == dev && areas@[j].1 == best && areas@[j].2 > 0,
            forall|j: int| 0 <= j < i && #[trigger] areas@[j].0 == dev && areas@[j].1 > cur && areas@[j].2 > 0 ==> areas@[j].1 >= best,
        decreases areas@.len() - i,
    {
        let (d, s, l) = areas[i];
        if d == dev && s > cur && s < best && l > 0 {
            best = s;
            assert(areas@[i as int].0 == dev);
        }
        i = i + 1;
    }
    best
}

/// The free ranges of the PV `dev` of `pe_count` extents, given the
/// extent ranges in use.
pub fn free_ranges(areas: &Vec<Area>, dev: Device, pe_count: u64) -> (r: Vec<(u64, u64)>)
    ensures
        free_ranges_of(areas@, dev, pe_count as int, r@),
{
    let mut out: Vec<(u64, u64)> = Vec::new();
    let mut cur: u64 = 0;
    let ghost mut after_range = false;
    while cur < pe_count
        invariant
            cur <= pe_count,
            forall|i: int| 0 <= i < out@.len() ==> (#[trigger] out@[i]).1 > 0,
            forall|i: int, e: int| 0 <= i < out@.len() && out@[i].0 <= e < out@[i].0 + out@[i].1 ==> #[trigger] free_in(areas@, dev, pe_count as int, e) && #[trigger] out@[i].0 <= e,
            forall|e: int| #[trigger] free_in(areas@, dev, pe_count as int, e) && e < cur ==> exists|i: int| 0 <= i < out@.len() && #[trigger] in_range(out@[i], e),
            forall|i: int, j: int| 0 <= i < j < out@.len() ==> out@[i].0 + out@[i].1 <= #[trigger] out@[j].0 && #[trigger] out@[i].0 < out@[j].0,
            forall|i: int| 0 <= i < out@.len() ==> (#[trigger] out@[i]).0 + out@[i].1 <= cur,
            forall|i: int| 0 <= i < out@.len() ==> ((#[trigger] out@[i]).0 == 0 || !free_in(areas@, dev, pe_count as int, out@[i].0 - 1)),
            forall|i: int| 0 <= i < out@.len() - 1 ==> ((#[trigger] out@[i]).0 + out@[i].1 == pe_count || !free_in(areas@, dev, pe_count as int, out@[i].0 + out@[i].1)),
            after_range ==> out@.len() > 0 && out@.last().0 + out@.last().1 == cur && (cur == pe_count || !free_in(areas@, dev, pe_count as int, cur as int)),
            !after_range ==> (cur == 0 || !free_in(areas@, dev, pe_count as int, cur - 1)),
            !after_range && out@.len() > 0 ==> (out@.last().0 + out@.last().1 == pe_count || !free_in(areas@, dev, pe_count as int, out@.last().0 + out@.last().1)),
        decreases pe_count - cur,
    {
        match covering_end(areas, dev, cur) {
            Some(end) => {
                let new_cur: u64 = if end > pe_count as u128 { pe_count } else { end as u64 };
                proof {
                    assert forall|e: int| #[trigger] free_in(areas@, dev, pe_count as int, e) && e < new_cur implies exists|i: int| 0 <= i < out@.len() && #[trigger] in_range(out@[i], e) by {
                        if e >= cur {
                            assert(covered(areas@, dev, e));
                        }
                    }
                    assert(!free_in(areas@, dev, pe_count as int, new_cur - 1));
                }
                cur = new_cur;
                proof {
                    after_range = false;
                }
            },
            None => {
                let nxt = next_used_start(areas, dev, cur, pe_count);
                let ghost old_out = out@;
                proof {
                    assert forall|e: int| cur <= e < nxt implies #[trigger] free_in(areas@, dev, pe_count as int, e) by {
                        if covered(areas@, dev, e) {
                            let i = choose|i: int| 0 <= i < areas@.len() && #[trigger] areas@[i].0 == dev && areas@[i].1 <= e < areas@[i].1 + areas@[i].2;
                            if areas@[i].1 > cur {
                                assert(areas@[i].1 >= nxt);
                            } else {
                                assert(areas@[i].0 == dev && areas@[i].1 <= cur < areas@[i].1 + areas@[i].2);
                            }
                        }
                    }
                    assert(nxt == pe_count || covered(areas@, dev, nxt as int)) by {
                        if nxt != pe_count {
                            let i = choose|i: int| 0 <= i < areas@.len() && #[trigger] areas@[i].0 == dev && areas@[i].1 == nxt && areas@[i].2 > 0;
                            assert(areas@[i].0 == dev && areas@[i].1 <= nxt < areas@[i].1 + areas@[i].2);
                        }
                    }
                }
                out.push((cur, nxt - cur));
                proof {
                    assert(out@[out@.len() - 1] == (cur, (nxt - cur) as u64));
                    assert forall|e: int| #[trigger] free_in(areas@, dev, pe_count as int, e) && e < nxt implies exists|i: int| 0 <= i < out@.len() && #[trigger] in_range(out@[i], e) by {
                        if e >= cur {
                            assert(in_range(out@[out@.len() - 1], e));
                        } else {
                            let i = choose|i: int| 0 <= i < old_out.len() && #[trigger] in_range(old_out[i], e);
                            assert(out@[i] == old_out[i]);
                        }
                    }
                    assert(cur == 0 || !free_in(areas@, dev, pe_count as int, cur - 1));
                    after_range = true;
                }
                cur = nxt;
            },
        }
    }
    out
}

} // verus!
