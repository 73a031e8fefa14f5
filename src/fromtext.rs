//! Reading the VG model back from the text map stored in metadata areas.
//!
//! The text names PVs `pv0`, `pv1`, ...; those names only link segment
//! stripes to PVs while reading and are then dropped in favour of devices.

use vstd::prelude::*;
use vstd::string::StringSliceAdditionalSpecFns;
use crate::error::{Error, Violation};
use crate::model::{dev_key, Device, Segment, StripedSegment, LV, PV};
use crate::parser::{entry_view, element_view, bytes_eq, bytes_seq, copy_bytes, elements_view, entries_view, lemma_entries_view_index, lookup, status_from_textmap, status_of,
    strings_from_list, strings_of, text_bytes, Element, Entry, LvmTextMap, TextMapOps, Value};
use crate::vg::{area_on, areas_disjoint, areas_fit, fits_some, names_unique, pvs_sorted, VG};
use crate::model::{lvs_areas, seg_areas, segs_areas, Area};
use crate::textmap::{numbered, numbered_key};

verus! {

/// A signed number as the unsigned one of the same bits.
pub open spec fn to_u64(n: int) -> u64 {
    if n >= 0 {
        n as u64
    } else {
        (n + 0x1_0000_0000_0000_0000) as u64
    }
}

/// The unsigned number of the same bits as `x`.
pub fn i64_to_u64(x: i64) -> (r: u64)
    ensures
        r == to_u64(x as int),
{
    if x >= 0 {
        x as u64
    } else {
        (x as i128 + 0x1_0000_0000_0000_0000i128) as u64
    }
}

pub open spec fn num_at(m: Seq<(Seq<u8>, Value)>, k: Seq<u8>) -> Option<int> {
    match lookup(m, k) {
        Some(Value::Num(n)) => Some(n),
        _ => None,
    }
}

pub open spec fn str_at(m: Seq<(Seq<u8>, Value)>, k: Seq<u8>) -> Option<Seq<u8>> {
    match lookup(m, k) {
        Some(Value::Str(t)) => Some(t),
        _ => None,
    }
}

pub open spec fn strings_at(m: Seq<(Seq<u8>, Value)>, k: Seq<u8>) -> Option<Seq<Seq<u8>>> {
    match lookup(m, k) {
        Some(Value::List(l)) => Some(strings_of(l)),
        _ => None,
    }
}

fn need_num(m: &LvmTextMap, k: &str) -> (r: Result<i64, Error>)
    ensures
        match num_at(m@, k.spec_bytes()) {
            Some(n) => r matches Ok(v) && v as int == n,
            None => r matches Err(Error::Shape(x)) && x@ == k.spec_bytes(),
        },
{
    let key = text_bytes(k);
    match m.i64_from_textmap(key.as_slice()) {
        Some(v) => Ok(v),
        None => Err(Error::Shape(key)),
    }
}

fn need_str(m: &LvmTextMap, k: &str) -> (r: Result<Vec<u8>, Error>)
    ensures
        match str_at(m@, k.spec_bytes()) {
            Some(t) => r matches Ok(v) && v@ == t,
            None => r matches Err(Error::Shape(x)) && x@ == k.spec_bytes(),
        },
{
    let key = text_bytes(k);
    match m.string_from_textmap(key.as_slice()) {
        Some(v) => Ok(copy_bytes(v.as_slice())),
        None => Err(Error::Shape(key)),
    }
}

fn need_strings(m: &LvmTextMap, k: &str) -> (r: Result<Vec<Vec<u8>>, Error>)
    ensures
        match strings_at(m@, k.spec_bytes()) {
            Some(t) => r matches Ok(v) && bytes_seq(v@) == t,
            None => r matches Err(Error::Shape(x)) && x@ == k.spec_bytes(),
        },
{
    let key = text_bytes(k);
    match m.list_from_textmap(key.as_slice()) {
        Some(l) => Ok(strings_from_list(l)),
        None => Err(Error::Shape(key)),
    }
}

/// Whether a text map describes a PV, and `pv` is that PV.
pub open spec fn pv_read(m: Seq<(Seq<u8>, Value)>, pv: PV) -> bool {
    &&& str_at(m, "id".spec_bytes()) == Some(pv.id@)
    &&& num_at(m, "device".spec_bytes()) matches Some(d) && pv.device.major == to_u64(d) / 256
        && pv.device.minor == to_u64(d) % 256
    &&& status_of(m) == Some(bytes_seq(pv.status@))
    &&& strings_at(m, "flags".spec_bytes()) == Some(bytes_seq(pv.flags@))
    &&& num_at(m, "dev_size".spec_bytes()) matches Some(n) && pv.dev_size == to_u64(n)
    &&& num_at(m, "pe_start".spec_bytes()) matches Some(n) && pv.pe_start == to_u64(n)
    &&& num_at(m, "pe_count".spec_bytes()) matches Some(n) && pv.pe_count == to_u64(n)
}

/// Read a PV from its text map.
pub fn pv_from_textmap(m: &LvmTextMap) -> (r: Result<PV, Error>)
    ensures
        r matches Ok(pv) ==> pv_read(m@, pv),
        str_at(m@, "id".spec_bytes()) is None ==> r is Err,
        num_at(m@, "device".spec_bytes()) is None ==> r is Err,
        num_at(m@, "pe_count".spec_bytes()) is None ==> r is Err,
        (exists|pv: PV| #[trigger] pv_read(m@, pv)) ==> r is Ok,
{
    let id = need_str(m, "id")?;
    let d = need_num(m, "device")?;
    proof {
        if exists|pv: PV| #[trigger] pv_read(m@, pv) {
            let pv = choose|pv: PV| #[trigger] pv_read(m@, pv);
            assert(pv.device.major as int == to_u64(d as int) / 256);
        }
    }
    let device = match Device::from_u64(i64_to_u64(d)) {
        Some(x) => x,
        None => {
            return Err(Error::Invariant(Violation::OutOfRange));
        },
    };
    let status = status_from_textmap(m)?;
    let flags = need_strings(m, "flags")?;
    let dev_size = need_num(m, "dev_size")?;
    let pe_start = need_num(m, "pe_start")?;
    let pe_count = need_num(m, "pe_count")?;
    Ok(PV { id, device, status, flags, dev_size: i64_to_u64(dev_size), pe_start: i64_to_u64(pe_start), pe_count: i64_to_u64(pe_count) })
}

/// A table of PV names and devices, as values.
pub open spec fn names_view(names: Seq<(Vec<u8>, Device)>) -> Seq<(Seq<u8>, Device)> {
    names.map_values(|p: (Vec<u8>, Device)| (p.0@, p.1))
}

/// The device that the PV called `n` is on, by the first entry of `names`.
pub open spec fn name_dev(names: Seq<(Seq<u8>, Device)>, n: Seq<u8>) -> Option<Device>
    decreases names.len(),
{
    if names.len() == 0 {
        None
    } else if names[0].0 == n {
        Some(names[0].1)
    } else {
        name_dev(names.drop_first(), n)
    }
}

fn find_name(names: &Vec<(Vec<u8>, Device)>, n: &[u8]) -> (r: Option<Device>)
    ensures
        r == name_dev(names_view(names@), n@),
{
    let ghost all = names_view(names@);
    let mut i: usize = 0;
    assert(all.subrange(0, all.len() as int) =~= all);
    while i < names.len()
        invariant
            i <= names@.len(),
            all == names_view(names@),
            name_dev(all, n@) == name_dev(all.subrange(i as int, all.len() as int), n@),
        decreases names@.len() - i,
    {
        let ghost rest = all.subrange(i as int, all.len() as int);
        assert(rest.drop_first() =~= all.subrange(i + 1, all.len() as int));
        assert(rest[0] == (names@[i as int].0@, names@[i as int].1));
        if bytes_eq(names[i].0.as_slice(), n) {
            return Some(names[i].1);
        }
        i = i + 1;
    }
    assert(all.subrange(i as int, all.len() as int) =~= Seq::<(Seq<u8>, Device)>::empty());
    None
}

/// Whether values `2j` and `2j + 1` of `l` read as the stripe `st`.
pub open spec fn stripe_at(l: Seq<Value>, names: Seq<(Seq<u8>, Device)>, j: int, st: (Device, u64)) -> bool {
    (l[2 * j] matches Value::Str(nm) && name_dev(names, nm) == Some(st.0))
        && (l[2 * j + 1] matches Value::Num(pe) && st.1 == to_u64(pe))
}

/// Whether a list of stripe values, name and first extent in turn, reads as
/// the stripes `st` with the PV names of `names`.
pub open spec fn stripes_read(l: Seq<Value>, names: Seq<(Seq<u8>, Device)>, st: Seq<(Device, u64)>) -> bool {
    &&& l.len() == 2 * st.len()
    &&& forall|i: int| 0 <= i < st.len() ==> #[trigger] stripe_at(l, names, i, st[i])
}

/// Whether a text map describes a striped segment, and `seg` is it.
pub open spec fn seg_read(m: Seq<(Seq<u8>, Value)>, names: Seq<(Seq<u8>, Device)>, seg: Segment) -> bool {
    match seg {
        Segment::Striped(s) => {
            &&& str_at(m, "type".spec_bytes()) == Some("striped".spec_bytes())
            &&& num_at(m, "start_extent".spec_bytes()) matches Some(n) && s.start_extent == to_u64(n)
            &&& num_at(m, "extent_count".spec_bytes()) matches Some(n) && s.extent_count == to_u64(n)
            &&& s.stripe_size == match num_at(m, "stripe_size".spec_bytes()) {
                Some(z) => Some(to_u64(z)),
                None => None,
            }
            &&& lookup(m, "stripes".spec_bytes()) matches Some(Value::List(l)) && stripes_read(l, names, s.stripes@)
        },
    }
}

/// Read a segment from its text map; stripes name PVs through `names`.
pub fn segment_from_textmap(m: &LvmTextMap, names: &Vec<(Vec<u8>, Device)>) -> (r: Result<Segment, Error>)
    ensures
        r matches Ok(seg) ==> seg_read(m@, names_view(names@), seg),
        str_at(m@, "type".spec_bytes()) != Some("striped".spec_bytes()) ==> r is Err,
        (exists|seg: Segment| #[trigger] seg_read(m@, names_view(names@), seg)) ==> r is Ok,
{
    let ghost nm = names_view(names@);
    let ghost readable = exists|seg: Segment| #[trigger] seg_read(m@, names_view(names@), seg);
    let ghost wit: Seq<(Device, u64)> = if readable {
        let seg = choose|seg: Segment| #[trigger] seg_read(m@, names_view(names@), seg);
        match seg {
            Segment::Striped(st) => st.stripes@,
        }
    } else {
        seq![]
    };
    let ty = need_str(m, "type")?;
    let striped = text_bytes("striped");
    if !bytes_eq(ty.as_slice(), striped.as_slice()) {
        return Err(Error::Shape(text_bytes("type")));
    }
    let start_extent = need_num(m, "start_extent")?;
    let extent_count = need_num(m, "extent_count")?;
    let size_key = text_bytes("stripe_size");
    let stripe_size = match m.i64_from_textmap(size_key.as_slice()) {
        Some(z) => Some(i64_to_u64(z)),
        None => None,
    };
    let skey = text_bytes("stripes");
    let list = match m.list_from_textmap(skey.as_slice()) {
        Some(l) => l,
        None => {
            return Err(Error::Shape(skey));
        },
    };
    let ghost l = elements_view(list@);
    proof {
        if readable {
            let seg = choose|seg: Segment| #[trigger] seg_read(m@, names_view(names@), seg);
            assert(stripes_read(l, nm, wit));
        }
    }
    if list.len() % 2 != 0 {
        return Err(Error::Shape(skey));
    }
    let mut stripes: Vec<(Device, u64)> = Vec::new();
    let mut i: usize = 0;
    while i < list.len() / 2
        invariant
            l == elements_view(list@),
            list@.len() % 2 == 0,
            i <= list@.len() / 2,
            stripes@.len() == i,
            nm == names_view(names@),
            forall|j: int| 0 <= j < i ==> #[trigger] stripe_at(l, nm, j, stripes@[j]),
            readable ==> stripes_read(l, nm, wit),
            readable ==> l.len() == list@.len(),
            readable == exists|seg: Segment| #[trigger] seg_read(m@, names_view(names@), seg),
        decreases list@.len() / 2 - i,
    {
        proof {
            if readable {
                assert(l.len() == 2 * wit.len());
                assert(list@.len() / 2 == wit.len());
                assert(i < wit.len());
                assert(stripe_at(l, nm, i as int, wit[i as int]));
                assert(l[2 * i as int] == element_view(list@[2 * i as int]));
                assert(l[2 * i + 1] == element_view(list@[2 * i + 1]));
                match list@[2 * i as int] {
                    Element::String(n) => {
                        assert(name_dev(nm, n@) == Some(wit[i as int].0));
                    },
                    Element::Number(_) => {
                        assert(false);
                    },
                }
                match list@[2 * i + 1] {
                    Element::Number(_) => {},
                    Element::String(_) => {
                        assert(false);
                    },
                }
            }
        }
        let dev = match &list[2 * i] {
            Element::String(n) => match find_name(names, n.as_slice()) {
                Some(d) => d,
                None => {
                    assert(!readable);
                    return Err(Error::Invariant(Violation::UnknownPv));
                },
            },
            Element::Number(_) => {
                return Err(Error::Shape(skey));
            },
        };
        let pe = match &list[2 * i + 1] {
            Element::Number(x) => i64_to_u64(*x),
            Element::String(_) => {
                return Err(Error::Shape(skey));
            },
        };
        let ghost before = stripes@;
        stripes.push((dev, pe));
        proof {
            assert(l[2 * i as int] == element_view(list@[2 * i as int]));
            assert(l[2 * i + 1] == element_view(list@[2 * i + 1]));
            assert(stripes@[i as int] == (dev, pe));
            assert(stripe_at(l, nm, i as int, stripes@[i as int]));
            assert forall|j: int| 0 <= j < i + 1 implies #[trigger] stripe_at(l, nm, j, stripes@[j]) by {
                if j < i {
                    assert(stripes@[j] == before[j]);
                    assert(stripe_at(l, nm, j, before[j]));
                }
            }
        }
        i = i + 1;
    }
    let seg = Segment::Striped(StripedSegment {
        start_extent: i64_to_u64(start_extent),
        extent_count: i64_to_u64(extent_count),
        stripe_size,
        stripes,
    });
    Ok(seg)
}

/// The number of segments that a segment count asks for.
pub open spec fn seg_count(n: int) -> int {
    if n < 0 {
        0
    } else {
        n
    }
}

/// Whether a text map describes the LV `name`, and `lv` is it.
pub open spec fn lv_read(name: Seq<u8>, m: Seq<(Seq<u8>, Value)>, names: Seq<(Seq<u8>, Device)>, lv: LV) -> bool {
    &&& lv.name@ == name
    &&& str_at(m, "id".spec_bytes()) == Some(lv.id@)
    &&& str_at(m, "creation_host".spec_bytes()) == Some(lv.creation_host@)
    &&& num_at(m, "creation_time".spec_bytes()) == Some(lv.creation_time as int)
    &&& status_of(m) == Some(bytes_seq(lv.status@))
    &&& strings_at(m, "flags".spec_bytes()) == Some(bytes_seq(lv.flags@))
    &&& num_at(m, "segment_count".spec_bytes()) matches Some(n) && lv.segments@.len() == seg_count(n)
    &&& forall|i: int| 0 <= i < lv.segments@.len() ==> #[trigger] seg_in(m, names, i, lv.segments@[i])
    &&& lv.device is None
}

/// Whether section `segment<i+1>` of `m` reads as `seg`.
pub open spec fn seg_in(m: Seq<(Seq<u8>, Value)>, names: Seq<(Seq<u8>, Device)>, i: int, seg: Segment) -> bool {
    lookup(m, numbered("segment".spec_bytes(), (i + 1) as nat)) matches Some(Value::Section(sm)) && seg_read(sm, names, seg)
}

/// Read the LV `name` from its text map; stripes name PVs through `names`.
pub fn lv_from_textmap(name: &[u8], m: &LvmTextMap, names: &Vec<(Vec<u8>, Device)>) -> (r: Result<LV, Error>)
    ensures
        r matches Ok(lv) ==> lv_read(name@, m@, names_view(names@), lv),
        str_at(m@, "id".spec_bytes()) is None ==> r is Err,
        num_at(m@, "segment_count".spec_bytes()) is None ==> r is Err,
        (exists|lv: LV| #[trigger] lv_read(name@, m@, names_view(names@), lv)) ==> r is Ok,
{
    let ghost nm = names_view(names@);
    let ghost readable = exists|lv: LV| #[trigger] lv_read(name@, m@, names_view(names@), lv);
    let ghost wit: Seq<Segment> = if readable {
        let lv = choose|lv: LV| #[trigger] lv_read(name@, m@, names_view(names@), lv);
        lv.segments@
    } else {
        seq![]
    };
    let id = need_str(m, "id")?;
    let creation_host = need_str(m, "creation_host")?;
    let creation_time = need_num(m, "creation_time")?;
    let count = need_num(m, "segment_count")?;
    let status = status_from_textmap(m)?;
    let flags = need_strings(m, "flags")?;
    let n: u64 = if count < 0 { 0 } else { count as u64 };
    proof {
        if readable {
            let lv = choose|lv: LV| #[trigger] lv_read(name@, m@, names_view(names@), lv);
            assert(wit == lv.segments@);
        }
    }
    let mut segments: Vec<Segment> = Vec::new();
    let mut i: u64 = 0;
    while i < n
        invariant
            i <= n,
            n as int == seg_count(count as int),
            segments@.len() == i,
            nm == names_view(names@),
            forall|j: int| 0 <= j < i ==> #[trigger] seg_in(m@, nm, j, segments@[j]),
            readable == exists|lv: LV| #[trigger] lv_read(name@, m@, names_view(names@), lv),
            readable ==> wit.len() == n && forall|j: int| 0 <= j < wit.len() ==> #[trigger] seg_in(m@, nm, j, wit[j]),
        decreases n - i,
    {
        proof {
            if readable {
                assert(seg_in(m@, nm, i as int, wit[i as int]));
            }
        }
        let key = numbered_key("segment", i + 1);
        let sm = match m.textmap_from_textmap(key.as_slice()) {
            Some(x) => x,
            None => {
                return Err(Error::Shape(key));
            },
        };
        proof {
            if readable {
                assert(seg_read(sm@, names_view(names@), wit[i as int]));
            }
        }
        let seg = segment_from_textmap(sm, names)?;
        let ghost before = segments@;
        segments.push(seg);
        proof {
            assert(seg_in(m@, nm, i as int, segments@[i as int]));
            assert forall|j: int| 0 <= j < i + 1 implies #[trigger] seg_in(m@, nm, j, segments@[j]) by {
                if j < i {
                    assert(segments@[j] == before[j]);
                    assert(seg_in(m@, nm, j, before[j]));
                }
            }
        }
        i = i + 1;
    }
    Ok(LV { name: copy_bytes(name), id, status, flags, creation_host, creation_time, segments, device: None })
}

impl VG {
    /// Check the VG's rules, naming the first one broken.
    pub fn check_wf(&self) -> (r: Result<(), Error>)
        ensures
            r is Ok <==> self.wf(),
    {
        if self.extent_size == 0 {
            return Err(Error::Invariant(Violation::OutOfRange));
        }
        let n = self.pvs.len();
        let mut i: usize = 0;
        while i < n
            invariant
                n == self.pvs@.len(),
                i <= n,
                forall|a: int, b: int| 0 <= a < b < n && a < i ==> dev_key(#[trigger] self.pvs@[a].device) < dev_key(#[trigger] self.pvs@[b].device),
            decreases n - i,
        {
            let mut j: usize = i + 1;
            while j < n
                invariant
                    n == self.pvs@.len(),
                    i < n,
                    i + 1 <= j <= n,
                    forall|a: int, b: int| 0 <= a < b < n && a < i ==> dev_key(#[trigger] self.pvs@[a].device) < dev_key(#[trigger] self.pvs@[b].device),
                    forall|b: int| i < b < j ==> dev_key(self.pvs@[i as int].device) < dev_key(#[trigger] self.pvs@[b].device),
                decreases n - j,
            {
                if !self.pvs[i].device.precedes(&self.pvs[j].device) {
                    return Err(Error::Invariant(Violation::DuplicatePv));
                }
                j = j + 1;
            }
            i = i + 1;
        }
        let ln = self.lvs.len();
        let mut i: usize = 0;
        while i < ln
            invariant
                ln == self.lvs@.len(),
                i <= ln,
                pvs_sorted(self.pvs@),
                forall|a: int, b: int| 0 <= a < b < ln && a < i ==> (#[trigger] self.lvs@[a]).name@ != (#[trigger] self.lvs@[b]).name@,
            decreases ln - i,
        {
            let mut j: usize = i + 1;
            while j < ln
                invariant
                    ln == self.lvs@.len(),
                    i < ln,
                    i + 1 <= j <= ln,
                    forall|a: int, b: int| 0 <= a < b < ln && a < i ==> (#[trigger] self.lvs@[a]).name@ != (#[trigger] self.lvs@[b]).name@,
                    forall|b: int| i < b < j ==> self.lvs@[i as int].name@ != (#[trigger] self.lvs@[b]).name@,
                decreases ln - j,
            {
                if bytes_eq(self.lvs[i].name.as_slice(), self.lvs[j].name.as_slice()) {
                    return Err(Error::Invariant(Violation::DuplicateLv));
                }
                j = j + 1;
            }
            i = i + 1;
        }
        let areas = self.used_areas();
        let an = areas.len();
        let mut k: usize = 0;
        while k < an
            invariant
                an == areas@.len(),
                n == self.pvs@.len(),
                areas@ == lvs_areas(self.lvs@),
                k <= an,
                forall|q: int| 0 <= q < k ==> #[trigger] fits_some(areas@[q], self.pvs@),
            decreases an - k,
        {
            let (d, st, len) = areas[k];
            let mut p: usize = 0;
            let mut found = false;
            while p < n && !found
                invariant
                    n == self.pvs@.len(),
                    p <= n,
                    k < an,
                    an == areas@.len(),
                    areas@[k as int] == (d, st, len),
                    found ==> fits_some(areas@[k as int], self.pvs@),
                    !found ==> forall|q: int| 0 <= q < p ==> !#[trigger] area_on(areas@[k as int], self.pvs@, q),
                decreases n - p, if found { 0int } else { 1int },
            {
                if self.pvs[p].device == d && (st as u128 + len as u128) <= self.pvs[p].pe_count as u128 {
                    assert(area_on(areas@[k as int], self.pvs@, p as int));
                    found = true;
                } else {
                    p = p + 1;
                }
            }
            if !found {
                assert(!fits_some(areas@[k as int], self.pvs@));
                assert(!areas_fit(lvs_areas(self.lvs@), self.pvs@));
                return Err(Error::Invariant(Violation::UnknownPv));
            }
            k = k + 1;
        }
        let mut a: usize = 0;
        while a < an
            invariant
                an == areas@.len(),
                areas@ == lvs_areas(self.lvs@),
                a <= an,
                forall|x: int, y: int| 0 <= x < y < an && x < a && (#[trigger] areas@[x]).0 == (#[trigger] areas@[y]).0 ==>
                    areas@[x].2 == 0 || areas@[y].2 == 0 || areas@[x].1 + areas@[x].2 <= areas@[y].1 || areas@[y].1 + areas@[y].2 <= areas@[x].1,
            decreases an - a,
        {
            let mut b: usize = a + 1;
            while b < an
                invariant
                    an == areas@.len(),
                    areas@ == lvs_areas(self.lvs@),
                    a < an,
                    a + 1 <= b <= an,
                    forall|x: int, y: int| 0 <= x < y < an && x < a && (#[trigger] areas@[x]).0 == (#[trigger] areas@[y]).0 ==>
                        areas@[x].2 == 0 || areas@[y].2 == 0 || areas@[x].1 + areas@[x].2 <= areas@[y].1 || areas@[y].1 + areas@[y].2 <= areas@[x].1,
                    forall|y: int| a < y < b && areas@[a as int].0 == (#[trigger] areas@[y]).0 ==>
                        areas@[a as int].2 == 0 || areas@[y].2 == 0 || areas@[a as int].1 + areas@[a as int].2 <= areas@[y].1 || areas@[y].1 + areas@[y].2 <= areas@[a as int].1,
                decreases an - b,
            {
                let (d1, s1, l1) = areas[a];
                let (d2, s2, l2) = areas[b];
                if d1 == d2 && l1 != 0 && l2 != 0 && !((s1 as u128 + l1 as u128) <= s2 as u128 || (s2 as u128 + l2 as u128) <= s1 as u128) {
                    assert(areas@[a as int].0 == areas@[b as int].0);
                    assert(!areas_disjoint(lvs_areas(self.lvs@)));
                    return Err(Error::Invariant(Violation::Overlap));
                }
                b = b + 1;
            }
            a = a + 1;
        }
        Ok(())
    }
}

/// The number of entries of section `k` of `m`, if it is a section.
pub open spec fn section_len(m: Seq<(Seq<u8>, Value)>, k: Seq<u8>) -> Option<int> {
    match lookup(m, k) {
        Some(Value::Section(s)) => Some(s.len() as int),
        _ => None,
    }
}

/// Whether `pv` is what one of the entries of a PV section reads as.
pub open spec fn pv_in_section(sec: Seq<(Seq<u8>, Value)>, pv: PV) -> bool {
    exists|j: int| 0 <= j < sec.len() && ((#[trigger] sec[j]).1 matches Value::Section(pm) && pv_read(pm, pv))
}

/// The keys of section `k` of `m`, or none where it is absent.
pub open spec fn section_keys(m: Seq<(Seq<u8>, Value)>, k: Seq<u8>) -> Seq<Seq<u8>> {
    match lookup(m, k) {
        Some(Value::Section(s)) => s.map_values(|e: (Seq<u8>, Value)| e.0),
        _ => seq![],
    }
}

fn insert_by_device(pvs: &mut Vec<PV>, pv: PV)
    requires
        pvs_sorted(old(pvs)@),
        forall|q: int| 0 <= q < old(pvs)@.len() ==> (#[trigger] old(pvs)@[q]).device != pv.device,
    ensures
        pvs_sorted(final(pvs)@),
        exists|i: int| 0 <= i <= old(pvs)@.len() && final(pvs)@ == old(pvs)@.insert(i, pv),
{
    let mut i: usize = 0;
    while i < pvs.len() && !pv.device.precedes(&pvs[i].device)
        invariant
            i <= pvs@.len(),
            forall|q: int| 0 <= q < pvs@.len() ==> (#[trigger] pvs@[q]).device != pv.device,
            forall|q: int| 0 <= q < i ==> dev_key(#[trigger] pvs@[q].device) < dev_key(pv.device),
        decreases pvs@.len() - i,
    {
        proof {
            assert(pvs@[i as int].device != pv.device);
            assert(dev_key(pvs@[i as int].device) != dev_key(pv.device)) by {
                if dev_key(pvs@[i as int].device) == dev_key(pv.device) {
                    assert(pvs@[i as int].device.major == pv.device.major);
                }
            }
        }
        i = i + 1;
    }
    let ghost old_pvs = pvs@;
    let ghost d = pv.device;
    pvs.insert(i, pv);
    proof {
        assert(pvs@[i as int].device == d);
        assert forall|a: int, b: int| 0 <= a < b < pvs@.len() implies dev_key(#[trigger] pvs@[a].device) < dev_key(#[trigger] pvs@[b].device) by {
            if a < i && b < i {
                assert(pvs@[a] == old_pvs[a] && pvs@[b] == old_pvs[b]);
            } else if a < i && b == i {
                assert(pvs@[a] == old_pvs[a]);
            } else if a < i {
                assert(pvs@[a] == old_pvs[a] && pvs@[b] == old_pvs[b - 1]);
                if b - 1 > i {
                    assert(dev_key(old_pvs[i as int].device) < dev_key(old_pvs[b - 1].device));
                }
            } else if a == i {
                assert(pvs@[b] == old_pvs[b - 1]);
                if b - 1 > i {
                    assert(dev_key(old_pvs[i as int].device) < dev_key(old_pvs[b - 1].device));
                }
            } else {
                assert(pvs@[a] == old_pvs[a - 1] && pvs@[b] == old_pvs[b - 1]);
            }
        }
        assert(pvs@ =~= old_pvs.insert(i as int, pvs@[i as int]));
    }
}

/// The map of a section entry, or an empty one where it is not a section.
pub open spec fn entry_map(e: (Seq<u8>, Value)) -> Seq<(Seq<u8>, Value)> {
    match e.1 {
        Value::Section(pm) => pm,
        _ => seq![],
    }
}

/// The device that a PV's text map gives.
pub open spec fn pv_dev(pm: Seq<(Seq<u8>, Value)>) -> Device {
    match num_at(pm, "device".spec_bytes()) {
        Some(d) => Device { major: (to_u64(d) / 256) as u32, minor: (to_u64(d) % 256) as u32 },
        None => Device { major: 0, minor: 0 },
    }
}

proof fn lemma_pv_dev(pm: Seq<(Seq<u8>, Value)>, pv: PV)
    requires
        pv_read(pm, pv),
    ensures
        pv.device == pv_dev(pm),
{
}

/// The `pvN` names of a PV section and the devices they stand for.
pub open spec fn section_names(psec: Seq<(Seq<u8>, Value)>) -> Seq<(Seq<u8>, Device)> {
    psec.map_values(|e: (Seq<u8>, Value)| (e.0, pv_dev(entry_map(e))))
}

/// Every entry of a PV section reads as a PV, on devices all distinct.
pub open spec fn pv_entries_ok(psec: Seq<(Seq<u8>, Value)>) -> bool {
    &&& forall|j: int| 0 <= j < psec.len() ==> ((#[trigger] psec[j]).1 is Section && exists|pv: PV| pv_read(entry_map(psec[j]), pv))
    &&& forall|j: int, k: int| 0 <= j < k < psec.len() ==> pv_dev(entry_map(#[trigger] psec[j])) != pv_dev(entry_map(#[trigger] psec[k]))
}

/// PV `pv` is what entry `j` of a PV section reads as.
pub open spec fn pv_from_entry(psec: Seq<(Seq<u8>, Value)>, j: int, pv: PV) -> bool {
    0 <= j < psec.len() && psec[j].1 is Section && pv_read(entry_map(psec[j]), pv)
}

fn device_present(pvs: &Vec<PV>, d: Device) -> (r: bool)
    ensures
        r == exists|q: int| 0 <= q < pvs@.len() && pvs@[q].device == d,
{
    let mut i: usize = 0;
    while i < pvs.len()
        invariant
            i <= pvs@.len(),
            forall|q: int| 0 <= q < i ==> (#[trigger] pvs@[q]).device != d,
        decreases pvs@.len() - i,
    {
        if pvs[i].device == d {
            return true;
        }
        i = i + 1;
    }
    false
}

/// PV `pv` is what some entry of a PV section, before the `n`th, reads as.
pub open spec fn pv_from_some_entry(psec: Seq<(Seq<u8>, Value)>, n: int, pv: PV) -> bool {
    exists|j: int| j < n && #[trigger] pv_from_entry(psec, j, pv)
}

/// Entry `j` of a PV section is read as one of `pvs`.
pub open spec fn entry_read_in(psec: Seq<(Seq<u8>, Value)>, j: int, pvs: Seq<PV>) -> bool {
    exists|q: int| 0 <= q < pvs.len() && #[trigger] pv_from_entry(psec, j, pvs[q])
}

/// Read the PVs of a PV section, in device order, and the table of their names.
fn read_pvs(psec: &LvmTextMap) -> (r: Result<(Vec<PV>, Vec<(Vec<u8>, Device)>), Error>)
    ensures
        r matches Ok((pvs, names)) ==> {
            &&& pvs_sorted(pvs@)
            &&& pvs@.len() == psec@.len()
            &&& forall|q: int| 0 <= q < pvs@.len() ==> #[trigger] pv_from_some_entry(psec@, psec@.len() as int, pvs@[q])
            &&& forall|j: int| 0 <= j < psec@.len() ==> #[trigger] entry_read_in(psec@, j, pvs@)
            &&& names_view(names@) == section_names(psec@)
        },
        pv_entries_ok(psec@) ==> r is Ok,
{
    proof {
        lemma_entries_view_index(psec.entries@);
    }
    let mut names: Vec<(Vec<u8>, Device)> = Vec::new();
    let mut pvs: Vec<PV> = Vec::new();
    let mut i: usize = 0;
    while i < psec.entries.len()
        invariant
            i <= psec.entries@.len(),
            pvs@.len() == i,
            psec@.len() == psec.entries@.len(),
            forall|q: int| 0 <= q < psec.entries@.len() ==> #[trigger] psec@[q] == (psec.entries@[q].0@, entry_view(psec.entries@[q].1)),
            pvs_sorted(pvs@),
            forall|q: int| 0 <= q < pvs@.len() ==> #[trigger] pv_from_some_entry(psec@, i as int, pvs@[q]),
            forall|j: int| 0 <= j < i ==> #[trigger] entry_read_in(psec@, j, pvs@),
            names_view(names@) == section_names(psec@.subrange(0, i as int)),
        decreases psec.entries@.len() - i,
    {
        match &psec.entries[i].1 {
            Entry::TextMap(pm) => {
                assert(psec@[i as int] == (psec.entries@[i as int].0@, entry_view(psec.entries@[i as int].1)));
                assert(entry_map(psec@[i as int]) == pm@);
                let pv = pv_from_textmap(pm)?;
                proof {
                    lemma_pv_dev(pm@, pv);
                }
                let ghost before_names = names@;
                names.push((copy_bytes(psec.entries[i].0.as_slice()), pv.device));
                assert(names_view(names@) =~= section_names(psec@.subrange(0, i + 1))) by {
                    assert(names_view(names@) =~= names_view(before_names).push((psec@[i as int].0, pv.device)));
                    assert(psec@.subrange(0, i + 1) =~= psec@.subrange(0, i as int).push(psec@[i as int]));
                }
                let ghost before = pvs@;
                assert(pv_from_entry(psec@, i as int, pv));
                if device_present(&pvs, pv.device) {
                    proof {
                        if pv_entries_ok(psec@) {
                            let q = choose|q: int| 0 <= q < pvs@.len() && pvs@[q].device == pv.device;
                            assert(pv_from_some_entry(psec@, i as int, pvs@[q]));
                            let j = choose|j: int| j < i && #[trigger] pv_from_entry(psec@, j, pvs@[q]);
                            lemma_pv_dev(entry_map(psec@[j]), pvs@[q]);
                            assert(pv_dev(entry_map(psec@[j])) != pv_dev(entry_map(psec@[i as int])));
                        }
                    }
                    return Err(Error::Invariant(Violation::DuplicatePv));
                }
                insert_by_device(&mut pvs, pv);
                proof {
                    let w = choose|w: int| 0 <= w <= before.len() && pvs@ == before.insert(w, pv);
                    assert forall|q: int| 0 <= q < pvs@.len() implies #[trigger] pv_from_some_entry(psec@, i + 1, pvs@[q]) by {
                        if q < w {
                            assert(pvs@[q] == before[q]);
                            assert(pv_from_some_entry(psec@, i as int, before[q]));
                            let j = choose|j: int| j < i && #[trigger] pv_from_entry(psec@, j, before[q]);
                        } else if q > w {
                            assert(pvs@[q] == before[q - 1]);
                            assert(pv_from_some_entry(psec@, i as int, before[q - 1]));
                            let j = choose|j: int| j < i && #[trigger] pv_from_entry(psec@, j, before[q - 1]);
                        } else {
                            assert(pv_from_entry(psec@, i as int, pvs@[q]));
                        }
                    }
                    assert forall|j: int| 0 <= j < i + 1 implies #[trigger] entry_read_in(psec@, j, pvs@) by {
                        if j < i {
                            assert(entry_read_in(psec@, j, before));
                            let q = choose|q: int| 0 <= q < before.len() && #[trigger] pv_from_entry(psec@, j, before[q]);
                            if q < w {
                                assert(pvs@[q] == before[q]);
                            } else {
                                assert(pvs@[q + 1] == before[q]);
                            }
                        } else {
                            assert(pvs@[w] == pv);
                            assert(pv_from_entry(psec@, j, pvs@[w]));
                        }
                    }
                }
            },
            _ => {
                assert(psec@[i as int] == (psec.entries@[i as int].0@, entry_view(psec.entries@[i as int].1)));
                return Err(Error::Shape(text_bytes("physical_volumes")));
            },
        }
        i = i + 1;
    }
    assert(psec@.subrange(0, psec@.len() as int) =~= psec@);
    Ok((pvs, names))
}

/// Whether entry `i` of an LV section reads as `lv`, with PV names `nm`.
pub open spec fn lv_from_entry(lsec: Seq<(Seq<u8>, Value)>, nm: Seq<(Seq<u8>, Device)>, i: int, lv: LV) -> bool {
    0 <= i < lsec.len() && lsec[i].1 is Section && lv_read(lsec[i].0, entry_map(lsec[i]), nm, lv)
}

/// Whether entry `i` of an LV section reads as some LV.
pub open spec fn lv_entry_ok(lsec: Seq<(Seq<u8>, Value)>, nm: Seq<(Seq<u8>, Device)>, i: int) -> bool {
    exists|lv: LV| #[trigger] lv_from_entry(lsec, nm, i, lv)
}

/// Whether `lvs` are what the LV section of `m` reads as (none where it is absent).
pub open spec fn lvs_match(m: Seq<(Seq<u8>, Value)>, nm: Seq<(Seq<u8>, Device)>, lvs: Seq<LV>) -> bool {
    match lookup(m, "logical_volumes".spec_bytes()) {
        Some(Value::Section(lsec)) => lvs.len() == lsec.len() && forall|i: int| 0 <= i < lvs.len() ==> #[trigger] lv_from_entry(lsec, nm, i, lvs[i]),
        _ => lvs.len() == 0,
    }
}

/// Whether the VG `v` is what `m` describes as the VG `name`, field by field,
/// PV by PV and LV by LV.
pub open spec fn vg_fits(v: VG, name: Seq<u8>, m: Seq<(Seq<u8>, Value)>) -> bool {
    &&& v.wf()
    &&& lookup(m, "physical_volumes".spec_bytes()) matches Some(Value::Section(psec))
    &&& pv_entries_ok(psec)
    &&& forall|q: int| 0 <= q < v.spec_pvs().len() ==> #[trigger] pv_from_some_entry(psec, psec.len() as int, v.spec_pvs()[q])
    &&& lvs_match(m, section_names(psec), v.spec_lvs())
}

/// Whether `m` describes a well-formed VG called `name`: every field present
/// and of its kind, each PV entry a PV on its own device, each LV entry an
/// LV whose stripes name those PVs, and the whole obeying the VG's rules.
pub open spec fn vg_readable(name: Seq<u8>, m: Seq<(Seq<u8>, Value)>) -> bool {
    exists|v: VG| #[trigger] v.read_from(name, m) && vg_fits(v, name, m)
}

/// Read the LVs of an LV section, in order.
fn read_lvs(ls: &LvmTextMap, names: &Vec<(Vec<u8>, Device)>) -> (r: Result<Vec<LV>, Error>)
    ensures
        r matches Ok(lvs) ==> lvs@.len() == ls@.len()
            && forall|i: int| 0 <= i < lvs@.len() ==> #[trigger] lv_from_entry(ls@, names_view(names@), i, lvs@[i]),
        (forall|i: int| 0 <= i < ls@.len() ==> #[trigger] lv_entry_ok(ls@, names_view(names@), i)) ==> r is Ok,
{
    proof {
        lemma_entries_view_index(ls.entries@);
    }
    let ghost all_ok = forall|i: int| 0 <= i < ls@.len() ==> #[trigger] lv_entry_ok(ls@, names_view(names@), i);
    let mut lvs: Vec<LV> = Vec::new();
    let mut j: usize = 0;
    while j < ls.entries.len()
        invariant
            j <= ls.entries@.len(),
            lvs@.len() == j,
            ls@.len() == ls.entries@.len(),
            forall|q: int| 0 <= q < ls.entries@.len() ==> #[trigger] ls@[q] == (ls.entries@[q].0@, entry_view(ls.entries@[q].1)),
            forall|i: int| 0 <= i < j ==> #[trigger] lv_from_entry(ls@, names_view(names@), i, lvs@[i]),
            all_ok == forall|i: int| 0 <= i < ls@.len() ==> #[trigger] lv_entry_ok(ls@, names_view(names@), i),
        decreases ls.entries@.len() - j,
    {
        assert(ls@[j as int] == (ls.entries@[j as int].0@, entry_view(ls.entries@[j as int].1)));
        proof {
            if all_ok {
                assert(lv_entry_ok(ls@, names_view(names@), j as int));
            }
        }
        match &ls.entries[j].1 {
            Entry::TextMap(lm) => {
                assert(entry_map(ls@[j as int]) == lm@);
                proof {
                    if all_ok {
                        let w = choose|lv: LV| #[trigger] lv_from_entry(ls@, names_view(names@), j as int, lv);
                        assert(lv_read(ls.entries@[j as int].0@, lm@, names_view(names@), w));
                    }
                }
                let lv = lv_from_textmap(ls.entries[j].0.as_slice(), lm, names)?;
                let ghost before = lvs@;
                lvs.push(lv);
                assert forall|i: int| 0 <= i < j + 1 implies #[trigger] lv_from_entry(ls@, names_view(names@), i, lvs@[i]) by {
                    if i < j {
                        assert(lvs@[i] == before[i]);
                    }
                }
            },
            _ => {
                return Err(Error::Shape(text_bytes("logical_volumes")));
            },
        }
        j = j + 1;
    }
    Ok(lvs)
}

/// Two segments read from the same text occupy the same extents.
proof fn lemma_seg_read_same(sm: Seq<(Seq<u8>, Value)>, nm: Seq<(Seq<u8>, Device)>, a: Segment, b: Segment)
    requires
        seg_read(sm, nm, a),
        seg_read(sm, nm, b),
    ensures
        seg_areas(a) == seg_areas(b),
{
    match (a, b) {
        (Segment::Striped(sa), Segment::Striped(sb)) => {
            let l = lookup(sm, "stripes".spec_bytes())->Some_0->List_0;
            assert(stripes_read(l, nm, sa.stripes@));
            assert(stripes_read(l, nm, sb.stripes@));
            assert forall|i: int| 0 <= i < sa.stripes@.len() implies sa.stripes@[i] == sb.stripes@[i] by {
                assert(stripe_at(l, nm, i, sa.stripes@[i]));
                assert(stripe_at(l, nm, i, sb.stripes@[i]));
            }
            assert(sa.stripes@ =~= sb.stripes@);
        },
    }
}

proof fn lemma_segs_same(a: Seq<Segment>, b: Seq<Segment>)
    requires
        a.len() == b.len(),
        forall|i: int| 0 <= i < a.len() ==> seg_areas(#[trigger] a[i]) == seg_areas(b[i]),
    ensures
        segs_areas(a) == segs_areas(b),
    decreases a.len(),
{
    if a.len() > 0 {
        lemma_segs_same(a.drop_last(), b.drop_last());
        assert(seg_areas(a[a.len() - 1]) == seg_areas(b[b.len() - 1]));
    }
}

proof fn lemma_lv_read_same(name: Seq<u8>, lm: Seq<(Seq<u8>, Value)>, nm: Seq<(Seq<u8>, Device)>, a: LV, b: LV)
    requires
        lv_read(name, lm, nm, a),
        lv_read(name, lm, nm, b),
    ensures
        segs_areas(a.segments@) == segs_areas(b.segments@),
        a.name@ == b.name@,
{
    assert forall|i: int| 0 <= i < a.segments@.len() implies seg_areas(#[trigger] a.segments@[i]) == seg_areas(b.segments@[i]) by {
        assert(seg_in(lm, nm, i, a.segments@[i]));
        assert(seg_in(lm, nm, i, b.segments@[i]));
        let sm = lookup(lm, numbered("segment".spec_bytes(), (i + 1) as nat))->Some_0->Section_0;
        lemma_seg_read_same(sm, nm, a.segments@[i], b.segments@[i]);
    }
    lemma_segs_same(a.segments@, b.segments@);
}

proof fn lemma_lvs_same(a: Seq<LV>, b: Seq<LV>)
    requires
        a.len() == b.len(),
        forall|i: int| 0 <= i < a.len() ==> segs_areas((#[trigger] a[i]).segments@) == segs_areas(b[i].segments@),
    ensures
        lvs_areas(a) == lvs_areas(b),
    decreases a.len(),
{
    if a.len() > 0 {
        lemma_lvs_same(a.drop_last(), b.drop_last());
        assert(segs_areas(a[a.len() - 1].segments@) == segs_areas(b[b.len() - 1].segments@));
    }
}

/// The VG built from a readable text obeys the VG's rules, as the VG that
/// the text describes does.
proof fn lemma_readable_wf(v: VG, vg: VG, name: Seq<u8>, m: Seq<(Seq<u8>, Value)>, psec: Seq<(Seq<u8>, Value)>,
    nm: Seq<(Seq<u8>, Device)>)
    requires
        v.read_from(name, m),
        vg_fits(v, name, m),
        vg.read_from(name, m),
        lookup(m, "physical_volumes".spec_bytes()) == Some(Value::Section(psec)),
        nm == section_names(psec),
        pvs_sorted(vg.pvs@),
        forall|j: int| 0 <= j < psec.len() ==> #[trigger] entry_read_in(psec, j, vg.pvs@),
        lvs_match(m, nm, vg.lvs@),
    ensures
        vg.wf(),
{
    let a = lvs_areas(v.lvs@);
    let b = lvs_areas(vg.lvs@);
    match lookup(m, "logical_volumes".spec_bytes()) {
        Some(Value::Section(lsec)) => {
            assert forall|i: int| 0 <= i < v.lvs@.len() implies segs_areas((#[trigger] v.lvs@[i]).segments@) == segs_areas(vg.lvs@[i].segments@)
                && v.lvs@[i].name@ == vg.lvs@[i].name@ by {
                assert(lv_from_entry(lsec, nm, i, v.lvs@[i]));
                assert(lv_from_entry(lsec, nm, i, vg.lvs@[i]));
                lemma_lv_read_same(lsec[i].0, entry_map(lsec[i]), nm, v.lvs@[i], vg.lvs@[i]);
            }
            lemma_lvs_same(v.lvs@, vg.lvs@);
            assert forall|i: int, j: int| 0 <= i < j < vg.lvs@.len() implies (#[trigger] vg.lvs@[i]).name@ != (#[trigger] vg.lvs@[j]).name@ by {
                assert(v.lvs@[i].name@ != v.lvs@[j].name@);
            }
        },
        _ => {
            assert(v.lvs@.len() == 0 && vg.lvs@.len() == 0);
            assert(v.lvs@ =~= vg.lvs@);
        },
    }
    assert(a == b);
    assert forall|k: int| 0 <= k < b.len() implies #[trigger] fits_some(b[k], vg.pvs@) by {
        assert(fits_some(a[k], v.pvs@));
        let i = choose|i: int| #[trigger] area_on(a[k], v.pvs@, i);
        assert(0 <= i < v.spec_pvs().len());
        assert(pv_from_some_entry(psec, psec.len() as int, v.spec_pvs()[i]));
        let j = choose|j: int| j < psec.len() && #[trigger] pv_from_entry(psec, j, v.pvs@[i]);
        assert(entry_read_in(psec, j, vg.pvs@));
        let q = choose|q: int| 0 <= q < vg.pvs@.len() && #[trigger] pv_from_entry(psec, j, vg.pvs@[q]);
        lemma_pv_dev(entry_map(psec[j]), v.pvs@[i]);
        lemma_pv_dev(entry_map(psec[j]), vg.pvs@[q]);
        assert(area_on(b[k], vg.pvs@, q));
    }
}

impl VG {
    /// Whether the VG's own fields are those that `m` gives for a VG called `name`.
    pub open(crate) spec fn read_from(&self, name: Seq<u8>, m: Seq<(Seq<u8>, Value)>) -> bool {
        &&& self.name@ == name
        &&& str_at(m, "id".spec_bytes()) == Some(self.id@)
        &&& num_at(m, "seqno".spec_bytes()) matches Some(n) && self.seqno == to_u64(n)
        &&& str_at(m, "format".spec_bytes()) == Some(self.format@)
        &&& num_at(m, "extent_size".spec_bytes()) matches Some(n) && self.extent_size == to_u64(n)
        &&& num_at(m, "max_lv".spec_bytes()) matches Some(n) && self.max_lv == to_u64(n)
        &&& num_at(m, "max_pv".spec_bytes()) matches Some(n) && self.max_pv == to_u64(n)
        &&& num_at(m, "metadata_copies".spec_bytes()) matches Some(n) && self.metadata_copies == to_u64(n)
        &&& status_of(m) == Some(bytes_seq(self.status@))
        &&& strings_at(m, "flags".spec_bytes()) == Some(bytes_seq(self.flags@))
    }

    /// Construct a VG from its name and the text map stored under it.
    /// PVs are keyed by device; the `pvN` names only link stripes to PVs.
    pub fn from_textmap(name: &[u8], m: &LvmTextMap) -> (r: Result<VG, Error>)
        ensures
            r matches Ok(vg) ==> vg.wf() && vg.read_from(name@, m@)
                && section_len(m@, "physical_volumes".spec_bytes()) == Some(vg.spec_pvs().len() as int)
                && (lookup(m@, "physical_volumes".spec_bytes()) matches Some(Value::Section(sec))
                    && (forall|q: int| 0 <= q < vg.spec_pvs().len() ==> #[trigger] pv_from_some_entry(sec, sec.len() as int, vg.spec_pvs()[q]))
                    && lvs_match(m@, section_names(sec), vg.spec_lvs()))
                && vg.spec_lvs().map_values(|l: LV| l.name@) == section_keys(m@, "logical_volumes".spec_bytes()),
            str_at(m@, "id".spec_bytes()) is None ==> r is Err,
            num_at(m@, "seqno".spec_bytes()) is None ==> r is Err,
            section_len(m@, "physical_volumes".spec_bytes()) is None ==> r is Err,
            vg_readable(name@, m@) ==> r is Ok,
    {
        let ghost readable = vg_readable(name@, m@);
        let id = need_str(m, "id")?;
        let seqno = need_num(m, "seqno")?;
        let format = need_str(m, "format")?;
        let extent_size = need_num(m, "extent_size")?;
        let max_lv = need_num(m, "max_lv")?;
        let max_pv = need_num(m, "max_pv")?;
        let metadata_copies = need_num(m, "metadata_copies")?;
        let status = status_from_textmap(m)?;
        let flags = need_strings(m, "flags")?;
        let pkey = text_bytes("physical_volumes");
        let psec = match m.textmap_from_textmap(pkey.as_slice()) {
            Some(x) => x,
            None => {
                return Err(Error::Shape(pkey));
            },
        };
        proof {
            lemma_entries_view_index(psec.entries@);
        }
        let (pvs, names) = read_pvs(psec)?;
        let lkey = text_bytes("logical_volumes");
        let lvs: Vec<LV> = match m.textmap_from_textmap(lkey.as_slice()) {
            None => {
                let e: Vec<LV> = Vec::new();
                assert(e@.map_values(|l: LV| l.name@) =~= section_keys(m@, "logical_volumes".spec_bytes()));
                e
            },
            Some(ls) => {
                proof {
                    if readable {
                        let v = choose|v: VG| #[trigger] v.read_from(name@, m@) && vg_fits(v, name@, m@);
                        assert forall|i: int| 0 <= i < ls@.len() implies #[trigger] lv_entry_ok(ls@, names_view(names@), i) by {
                            assert(lv_from_entry(ls@, section_names(psec@), i, v.lvs@[i]));
                        }
                    }
                }
                let lvs = read_lvs(ls, &names)?;
                assert forall|q: int| 0 <= q < lvs@.len() implies (#[trigger] lvs@[q]).name@ == ls@[q].0 by {
                    assert(lv_from_entry(ls@, names_view(names@), q, lvs@[q]));
                }
                assert(lvs@.map_values(|l: LV| l.name@) =~= section_keys(m@, "logical_volumes".spec_bytes()));
                lvs
            },
        };
        let vg = VG {
            name: copy_bytes(name),
            id,
            seqno: i64_to_u64(seqno),
            format,
            status,
            flags,
            extent_size: i64_to_u64(extent_size),
            max_lv: i64_to_u64(max_lv),
            max_pv: i64_to_u64(max_pv),
            metadata_copies: i64_to_u64(metadata_copies),
            pvs,
            lvs,
        };
        proof {
            if readable {
                let v = choose|v: VG| #[trigger] v.read_from(name@, m@) && vg_fits(v, name@, m@);
                lemma_readable_wf(v, vg, name@, m@, psec@, names_view(names@));
            }
        }
        vg.check_wf()?;
        Ok(vg)
    }
}

} // verus!
