//! The VG model written as a text map, as it is stored in metadata areas.
//!
//! PVs are named `pv0`, `pv1`, ... in device order when written, and
//! segment stripes refer to them by those names.

use vstd::prelude::*;
use vstd::string::StringSliceAdditionalSpecFns;
use crate::model::{dev_packed, Device, Segment, LV, PV};
use crate::error::{Error, Violation};
use crate::parser::{map_text, textmap_to_buf, bytes_seq, copy_bytes, entry_view, nat_digits, push_digits, text_bytes, Element, Entry, LvmTextMap, Value};
use crate::util::push_all;
use crate::vg::{candidates_ok, first_fit, has_new_pv, is_new_linear_lv, is_new_pv, lv_uses, pv_geometry, total_mdas,
    vg_new_status, window_free, PvCandidate, DEFAULT_EXTENT_SIZE, VG};
use crate::model::lvs_areas;
use crate::pvheader::PvHeader;

verus! {

/// A list of strings as a value.
pub open spec fn str_list(v: Seq<Seq<u8>>) -> Value {
    Value::List(v.map_values(|t: Seq<u8>| Value::Str(t)))
}

/// An unsigned number as the signed number the format holds.
pub open spec fn num(x: u64) -> Value {
    Value::Num((x as i64) as int)
}

/// A key made of a word and a number, such as `pv0` or `segment1`.
pub open spec fn numbered(word: Seq<u8>, n: nat) -> Seq<u8> {
    word + nat_digits(n)
}

/// The first position of the PV on `d`, or -1.
pub open spec fn dev_index(pvs: Seq<PV>, d: Device) -> int
    decreases pvs.len(),
{
    if pvs.len() == 0 {
        -1
    } else if dev_index(pvs.drop_last(), d) >= 0 {
        dev_index(pvs.drop_last(), d)
    } else if pvs.last().device == d {
        pvs.len() - 1
    } else {
        -1
    }
}

/// The number that names the PV on `d` (one past the last where there is none).
pub open spec fn pv_ref(pvs: Seq<PV>, d: Device) -> nat {
    if dev_index(pvs, d) >= 0 {
        dev_index(pvs, d) as nat
    } else {
        pvs.len()
    }
}

pub open spec fn pv_fields(pv: PV) -> Seq<(Seq<u8>, Value)> {
    seq![
        ("id".spec_bytes(), Value::Str(pv.id@)),
        ("device".spec_bytes(), Value::Num(dev_packed(pv.device))),
        ("status".spec_bytes(), str_list(bytes_seq(pv.status@))),
        ("flags".spec_bytes(), str_list(bytes_seq(pv.flags@))),
        ("dev_size".spec_bytes(), num(pv.dev_size)),
        ("pe_start".spec_bytes(), num(pv.pe_start)),
        ("pe_count".spec_bytes(), num(pv.pe_count)),
    ]
}

pub open spec fn pvs_fields(pvs: Seq<PV>, n: nat) -> Seq<(Seq<u8>, Value)>
    decreases n,
{
    if n == 0 || n > pvs.len() {
        seq![]
    } else {
        pvs_fields(pvs, (n - 1) as nat).push((numbered("pv".spec_bytes(), (n - 1) as nat), Value::Section(pv_fields(pvs[n - 1]))))
    }
}

pub open spec fn stripes_list(stripes: Seq<(Device, u64)>, pvs: Seq<PV>) -> Seq<Value>
    decreases stripes.len(),
{
    if stripes.len() == 0 {
        seq![]
    } else {
        stripes_list(stripes.drop_last(), pvs) + seq![
            Value::Str(numbered("pv".spec_bytes(), pv_ref(pvs, stripes.last().0))),
            num(stripes.last().1),
        ]
    }
}

pub open spec fn seg_fields(seg: Segment, pvs: Seq<PV>) -> Seq<(Seq<u8>, Value)> {
    match seg {
        Segment::Striped(s) => {
            let base = seq![
                ("start_extent".spec_bytes(), num(s.start_extent)),
                ("extent_count".spec_bytes(), num(s.extent_count)),
                ("type".spec_bytes(), Value::Str("striped".spec_bytes())),
                ("stripe_count".spec_bytes(), Value::Num(s.stripes@.len() as i64 as int)),
            ];
            let sized = match s.stripe_size {
                Some(z) => base.push(("stripe_size".spec_bytes(), num(z))),
                None => base,
            };
            sized.push(("stripes".spec_bytes(), Value::List(stripes_list(s.stripes@, pvs))))
        },
    }
}

pub open spec fn segs_fields(segs: Seq<Segment>, pvs: Seq<PV>, n: nat) -> Seq<(Seq<u8>, Value)>
    decreases n,
{
    if n == 0 || n > segs.len() {
        seq![]
    } else {
        segs_fields(segs, pvs, (n - 1) as nat).push(
            (numbered("segment".spec_bytes(), n), Value::Section(seg_fields(segs[n - 1], pvs))),
        )
    }
}

pub open spec fn lv_fields(lv: LV, pvs: Seq<PV>) -> Seq<(Seq<u8>, Value)> {
    seq![
        ("id".spec_bytes(), Value::Str(lv.id@)),
        ("status".spec_bytes(), str_list(bytes_seq(lv.status@))),
        ("flags".spec_bytes(), str_list(bytes_seq(lv.flags@))),
        ("creation_host".spec_bytes(), Value::Str(lv.creation_host@)),
        ("creation_time".spec_bytes(), Value::Num(lv.creation_time as int)),
        ("segment_count".spec_bytes(), Value::Num(lv.segments@.len() as i64 as int)),
    ] + segs_fields(lv.segments@, pvs, lv.segments@.len())
}

pub open spec fn lvs_fields(lvs: Seq<LV>, pvs: Seq<PV>, n: nat) -> Seq<(Seq<u8>, Value)>
    decreases n,
{
    if n == 0 || n > lvs.len() {
        seq![]
    } else {
        lvs_fields(lvs, pvs, (n - 1) as nat).push((lvs[n - 1].name@, Value::Section(lv_fields(lvs[n - 1], pvs))))
    }
}

pub fn numbered_key(word: &str, n: u64) -> (r: Vec<u8>)
    ensures
        r@ == numbered(word.spec_bytes(), n as nat),
{
    let mut v = text_bytes(word);
    push_digits(&mut v, n);
    v
}

fn strings_entry(v: &Vec<Vec<u8>>) -> (r: Entry)
    ensures
        entry_view(r) == str_list(bytes_seq(v@)),
{
    let mut out: Vec<Element> = Vec::new();
    let mut i: usize = 0;
    while i < v.len()
        invariant
            i <= v@.len(),
            crate::parser::elements_view(out@) == bytes_seq(v@.subrange(0, i as int)).map_values(|t: Seq<u8>| Value::Str(t)),
        decreases v@.len() - i,
    {
        let ghost before = out@;
        out.push(Element::String(copy_bytes(v[i].as_slice())));
        assert(crate::parser::elements_view(out@) =~= crate::parser::elements_view(before).push(Value::Str(v@[i as int]@)));
        assert(bytes_seq(v@.subrange(0, i + 1)) =~= bytes_seq(v@.subrange(0, i as int)).push(v@[i as int]@));
        assert(crate::parser::elements_view(out@) =~= bytes_seq(v@.subrange(0, i + 1)).map_values(|t: Seq<u8>| Value::Str(t)));
        i = i + 1;
    }
    assert(v@.subrange(0, v@.len() as int) =~= v@);
    Entry::List(out)
}

fn num_entry(x: u64) -> (r: Entry)
    ensures
        entry_view(r) == num(x),
{
    Entry::Number(x as i64)
}

fn key(s: &str) -> (r: Vec<u8>)
    ensures
        r@ == s.spec_bytes(),
{
    text_bytes(s)
}

/// The text map of a PV.
pub fn pv_to_textmap(pv: &PV) -> (r: LvmTextMap)
    ensures
        r@ == pv_fields(*pv),
{
    let mut m = LvmTextMap::new();
    m.push(key("id"), Entry::String(copy_bytes(pv.id.as_slice())));
    m.push(key("device"), Entry::Number(pv.device.to_u64() as i64));
    m.push(key("status"), strings_entry(&pv.status));
    m.push(key("flags"), strings_entry(&pv.flags));
    m.push(key("dev_size"), num_entry(pv.dev_size));
    m.push(key("pe_start"), num_entry(pv.pe_start));
    m.push(key("pe_count"), num_entry(pv.pe_count));
    assert(m@ =~= pv_fields(*pv));
    m
}

/// The position of the PV on `d`, as `pv_ref` numbers it.
fn pv_ref_exec(pvs: &Vec<PV>, d: Device) -> (r: u64)
    requires
        pvs@.len() < u64::MAX,
    ensures
        r == pv_ref(pvs@, d),
{
    let mut i: usize = 0;
    while i < pvs.len()
        invariant
            i <= pvs@.len(),
            dev_index(pvs@.subrange(0, i as int), d) == -1,
        decreases pvs@.len() - i,
    {
        assert(pvs@.subrange(0, i + 1).drop_last() =~= pvs@.subrange(0, i as int));
        if pvs[i].device == d {
            proof {
                lemma_dev_index_prefix(pvs@, d, i as int);
            }
            return i as u64;
        }
        i = i + 1;
    }
    assert(pvs@.subrange(0, pvs@.len() as int) =~= pvs@);
    pvs.len() as u64
}

proof fn lemma_dev_index_prefix(pvs: Seq<PV>, d: Device, i: int)
    requires
        0 <= i < pvs.len(),
        dev_index(pvs.subrange(0, i), d) == -1,
        pvs[i].device == d,
    ensures
        dev_index(pvs, d) == i,
    decreases pvs.len(),
{
    if pvs.len() == i + 1 {
        assert(pvs.drop_last() =~= pvs.subrange(0, i));
    } else {
        assert(pvs.drop_last().subrange(0, i) =~= pvs.subrange(0, i));
        lemma_dev_index_prefix(pvs.drop_last(), d, i);
    }
}

/// The text map of a segment, its stripes naming PVs by position.
pub fn seg_to_textmap(seg: &Segment, pvs: &Vec<PV>) -> (r: LvmTextMap)
    requires
        pvs@.len() < u64::MAX,
    ensures
        r@ == seg_fields(*seg, pvs@),
{
    match seg {
        Segment::Striped(s) => {
            let mut m = LvmTextMap::new();
            m.push(key("start_extent"), num_entry(s.start_extent));
            m.push(key("extent_count"), num_entry(s.extent_count));
            m.push(key("type"), Entry::String(key("striped")));
            m.push(key("stripe_count"), Entry::Number(s.stripes.len() as i64));
            match s.stripe_size {
                Some(z) => m.push(key("stripe_size"), num_entry(z)),
                None => {},
            }
            let mut list: Vec<Element> = Vec::new();
            let mut i: usize = 0;
            assert(s.stripes@.subrange(0, 0) =~= Seq::<(Device, u64)>::empty());
            assert(crate::parser::elements_view(list@) =~= seq![]);
            while i < s.stripes.len()
                invariant
                    i <= s.stripes@.len(),
                    pvs@.len() < u64::MAX,
                    crate::parser::elements_view(list@) == stripes_list(s.stripes@.subrange(0, i as int), pvs@),
                decreases s.stripes@.len() - i,
            {
                let (d, pe) = s.stripes[i];
                let ghost before = list@;
                let idx = pv_ref_exec(pvs, d);
                list.push(Element::String(numbered_key("pv", idx)));
                list.push(Element::Number(pe as i64));
                proof {
                    let sub = s.stripes@.subrange(0, i + 1);
                    assert(sub.drop_last() =~= s.stripes@.subrange(0, i as int));
                    assert(sub.last() == (d, pe));
                    assert(crate::parser::elements_view(list@) =~= crate::parser::elements_view(before) + seq![
                        Value::Str(numbered("pv".spec_bytes(), pv_ref(pvs@, d))),
                        num(pe),
                    ]);
                }
                i = i + 1;
            }
            assert(s.stripes@.subrange(0, s.stripes@.len() as int) =~= s.stripes@);
            m.push(key("stripes"), Entry::List(list));
            assert(m@ =~= seg_fields(*seg, pvs@));
            m
        },
    }
}

/// The text map of an LV.
pub fn lv_to_textmap(lv: &LV, pvs: &Vec<PV>) -> (r: LvmTextMap)
    requires
        pvs@.len() < u64::MAX,
        lv.segments@.len() < u64::MAX,
    ensures
        r@ == lv_fields(*lv, pvs@),
{
    let mut m = LvmTextMap::new();
    m.push(key("id"), Entry::String(copy_bytes(lv.id.as_slice())));
    m.push(key("status"), strings_entry(&lv.status));
    m.push(key("flags"), strings_entry(&lv.flags));
    m.push(key("creation_host"), Entry::String(copy_bytes(lv.creation_host.as_slice())));
    m.push(key("creation_time"), Entry::Number(lv.creation_time));
    m.push(key("segment_count"), Entry::Number(lv.segments.len() as i64));
    let ghost head = m@;
    let mut i: usize = 0;
    while i < lv.segments.len()
        invariant
            i <= lv.segments@.len(),
            pvs@.len() < u64::MAX,
            lv.segments@.len() < u64::MAX,
            m@ == head + segs_fields(lv.segments@, pvs@, i as nat),
        decreases lv.segments@.len() - i,
    {
        let sm = seg_to_textmap(&lv.segments[i], pvs);
        m.push(numbered_key("segment", (i + 1) as u64), Entry::TextMap(Box::new(sm)));
        assert(m@ =~= head + segs_fields(lv.segments@, pvs@, (i + 1) as nat));
        i = i + 1;
    }
    assert(m@ =~= lv_fields(*lv, pvs@));
    m
}

/// The VG's own keys, in the order they are written.
pub open spec fn vg_fields(name: Seq<u8>, id: Seq<u8>, seqno: u64, format: Seq<u8>, status: Seq<Seq<u8>>, flags: Seq<Seq<u8>>,
    extent_size: u64, max_lv: u64, max_pv: u64, metadata_copies: u64, pvs: Seq<PV>, lvs: Seq<LV>) -> Seq<(Seq<u8>, Value)> {
    let head = seq![
        ("id".spec_bytes(), Value::Str(id)),
        ("seqno".spec_bytes(), num(seqno)),
        ("format".spec_bytes(), Value::Str(format)),
        ("status".spec_bytes(), str_list(status)),
        ("flags".spec_bytes(), str_list(flags)),
        ("extent_size".spec_bytes(), num(extent_size)),
        ("max_lv".spec_bytes(), num(max_lv)),
        ("max_pv".spec_bytes(), num(max_pv)),
        ("metadata_copies".spec_bytes(), num(metadata_copies)),
        ("physical_volumes".spec_bytes(), Value::Section(pvs_fields(pvs, pvs.len()))),
    ];
    if lvs.len() == 0 {
        head
    } else {
        head.push(("logical_volumes".spec_bytes(), Value::Section(lvs_fields(lvs, pvs, lvs.len()))))
    }
}

/// The text map of the PVs, named `pv0`, `pv1`, ... in order.
pub fn pvs_to_textmap(pvs: &Vec<PV>) -> (r: LvmTextMap)
    requires
        pvs@.len() < u64::MAX,
    ensures
        r@ == pvs_fields(pvs@, pvs@.len()),
{
    let mut pm = LvmTextMap::new();
    let mut i: usize = 0;
    while i < pvs.len()
        invariant
            i <= pvs@.len(),
            pvs@.len() < u64::MAX,
            pm@ == pvs_fields(pvs@, i as nat),
        decreases pvs@.len() - i,
    {
        let t = pv_to_textmap(&pvs[i]);
        pm.push(numbered_key("pv", i as u64), Entry::TextMap(Box::new(t)));
        i = i + 1;
    }
    pm
}

/// The text map of the LVs, by name.
pub fn lvs_to_textmap(lvs: &Vec<LV>, pvs: &Vec<PV>) -> (r: LvmTextMap)
    requires
        pvs@.len() < u64::MAX,
        forall|i: int| 0 <= i < lvs@.len() ==> (#[trigger] lvs@[i]).segments@.len() < u64::MAX,
    ensures
        r@ == lvs_fields(lvs@, pvs@, lvs@.len()),
{
    let mut lm = LvmTextMap::new();
    let mut j: usize = 0;
    while j < lvs.len()
        invariant
            j <= lvs@.len(),
            pvs@.len() < u64::MAX,
            forall|i: int| 0 <= i < lvs@.len() ==> (#[trigger] lvs@[i]).segments@.len() < u64::MAX,
            lm@ == lvs_fields(lvs@, pvs@, j as nat),
        decreases lvs@.len() - j,
    {
        let t = lv_to_textmap(&lvs[j], pvs);
        lm.push(copy_bytes(lvs[j].name.as_slice()), Entry::TextMap(Box::new(t)));
        j = j + 1;
    }
    lm
}

impl VG {
    /// The PVs and each LV's segments can be numbered by `u64`.
    pub open(crate) spec fn counts_fit(&self) -> bool {
        &&& self.pvs@.len() < u64::MAX
        &&& forall|i: int| 0 <= i < self.lvs@.len() ==> (#[trigger] self.lvs@[i]).segments@.len() < u64::MAX
    }

    pub open(crate) spec fn fields(&self) -> Seq<(Seq<u8>, Value)> {
        vg_fields(self.name@, self.id@, self.seqno, self.format@, bytes_seq(self.status@), bytes_seq(self.flags@),
            self.extent_size, self.max_lv, self.max_pv, self.metadata_copies, self.pvs@, self.lvs@)
    }

    /// The VG as a text map: its fields, its PVs as `pv0`, `pv1`, ... in
    /// device order, and its LVs by name.
    #[verifier::rlimit(60)]
    pub fn to_textmap(&self) -> (r: LvmTextMap)
        requires
            self.counts_fit(),
        ensures
            r@ == self.fields(),
    {
        let mut m = LvmTextMap::new();
        m.push(key("id"), Entry::String(copy_bytes(self.id.as_slice())));
        m.push(key("seqno"), num_entry(self.seqno));
        m.push(key("format"), Entry::String(copy_bytes(self.format.as_slice())));
        m.push(key("status"), strings_entry(&self.status));
        m.push(key("flags"), strings_entry(&self.flags));
        m.push(key("extent_size"), num_entry(self.extent_size));
        m.push(key("max_lv"), num_entry(self.max_lv));
        m.push(key("max_pv"), num_entry(self.max_pv));
        m.push(key("metadata_copies"), num_entry(self.metadata_copies));
        let pm = pvs_to_textmap(&self.pvs);
        m.push(key("physical_volumes"), Entry::TextMap(Box::new(pm)));
        let ghost head = m@;
        assert(head =~= vg_fields(self.name@, self.id@, self.seqno, self.format@, bytes_seq(self.status@), bytes_seq(self.flags@),
            self.extent_size, self.max_lv, self.max_pv, self.metadata_copies, self.pvs@, Seq::<LV>::empty()));
        if self.lvs.len() > 0 {
            let lm = lvs_to_textmap(&self.lvs, &self.pvs);
            m.push(key("logical_volumes"), Entry::TextMap(Box::new(lm)));
        }
        m
    }
}

/// The top level of a metadata text: what it is, who wrote it and when,
/// and the VG under its name.
pub open spec fn disk_fields(vg_name: Seq<u8>, vg: Seq<(Seq<u8>, Value)>, host: Seq<u8>, time: i64) -> Seq<(Seq<u8>, Value)> {
    seq![
        ("contents".spec_bytes(), Value::Str("Melvin Text Format Volume Group".spec_bytes())),
        ("version".spec_bytes(), Value::Num(1)),
        ("description".spec_bytes(), Value::Str(Seq::empty())),
        ("creation_host".spec_bytes(), Value::Str(host)),
        ("creation_time".spec_bytes(), Value::Num(time as int)),
        (vg_name, Value::Section(vg)),
    ]
}

impl VG {
    pub(crate) fn counts_fit_exec(&self) -> (r: bool)
        ensures
            r == self.counts_fit(),
    {
        if self.pvs.len() as u64 >= u64::MAX {
            return false;
        }
        let mut i: usize = 0;
        while i < self.lvs.len()
            invariant
                i <= self.lvs@.len(),
                forall|j: int| 0 <= j < i ==> (#[trigger] self.lvs@[j]).segments@.len() < u64::MAX,
            decreases self.lvs@.len() - i,
        {
            if self.lvs[i].segments.len() as u64 >= u64::MAX {
                return false;
            }
            i = i + 1;
        }
        true
    }

    /// Start the next generation of metadata: bump the sequence number and
    /// return the text to write to every metadata area, NUL-terminated.
    pub fn commit(&mut self, creation_host: &[u8], creation_time: i64) -> (r: Result<Vec<u8>, Error>)
        ensures
            final(self).spec_pvs() == old(self).spec_pvs(),
            final(self).spec_lvs() == old(self).spec_lvs(),
            final(self).wf() == old(self).wf(),
            final(self).same_header(&*old(self)),
            match r {
                Ok(text) => final(self).spec_seqno() == old(self).spec_seqno() + 1
                    && text@ == map_text(disk_fields(final(self).spec_name(), final(self).fields(), creation_host@, creation_time), seq![]) + seq![0u8],
                Err(e) => (e matches Error::Invariant(Violation::OutOfRange)) && final(self).spec_seqno() == old(self).spec_seqno(),
            },
            old(self).spec_seqno() < u64::MAX && old(self).counts_fit() ==> r is Ok,
    {
        if self.seqno == u64::MAX || !self.counts_fit_exec() {
            return Err(Error::Invariant(Violation::OutOfRange));
        }
        self.seqno = self.seqno + 1;
        let vg_map = self.to_textmap();
        let mut disk = LvmTextMap::new();
        disk.push(key("contents"), Entry::String(key("Melvin Text Format Volume Group")));
        disk.push(key("version"), Entry::Number(1));
        disk.push(key("description"), Entry::String(Vec::new()));
        disk.push(key("creation_host"), Entry::String(copy_bytes(creation_host)));
        disk.push(key("creation_time"), Entry::Number(creation_time));
        disk.push(copy_bytes(self.name.as_slice()), Entry::TextMap(Box::new(vg_map)));
        assert(disk@ =~= disk_fields(self.name@, self.fields(), creation_host@, creation_time));
        let mut text = textmap_to_buf(&disk);
        text.push(0);
        Ok(text)
    }
}

/// The text that a commit of `vg` hands out, NUL-terminated.
pub open spec fn committed_text(vg: VG, host: Seq<u8>, time: i64) -> Seq<u8> {
    map_text(disk_fields(vg.spec_name(), vg.fields(), host, time), seq![]) + seq![0u8]
}

impl VG {
    /// A commit can follow: the generation can grow, and the PVs and each
    /// LV's segments can be numbered.
    pub open(crate) spec fn commit_ready(&self) -> bool {
        self.seqno < u64::MAX && self.counts_fit()
    }

    fn commit_ready_exec(&self) -> (r: bool)
        ensures
            r == self.commit_ready(),
    {
        self.seqno < u64::MAX && self.counts_fit_exec()
    }

    /// Create a VG from one or more PVs, which together must have at least
    /// one metadata area, and commit it: the VG is at generation 1 and the
    /// text to write to every metadata area is returned with it.
    pub fn create(name: &[u8], candidates: &Vec<PvCandidate>, creation_host: &[u8], creation_time: i64) -> (r: Result<(VG, Vec<u8>), Error>)
        ensures
            candidates@.len() == 0 ==> r matches Err(Error::Invariant(Violation::NoPvs)),
            candidates@.len() > 0 && total_mdas(candidates@) == 0 ==> r matches Err(Error::Invariant(Violation::NoMetadataArea)),
            match r {
                Ok((vg, text)) => vg.wf() && vg.spec_seqno() == 1 && vg.spec_lvs().len() == 0 && vg.spec_name() == name@
                    && vg.spec_extent_size() == DEFAULT_EXTENT_SIZE && vg.spec_status() == vg_new_status()
                    && vg.spec_pvs().len() == candidates@.len()
                    && vg.spec_format() == "lvm2".spec_bytes() && vg.spec_flags().len() == 0
                    && (forall|i: int| 0 <= i < candidates@.len() ==> #[trigger] has_new_pv(vg.spec_pvs(), candidates@[i]))
                    && text@ == committed_text(vg, creation_host@, creation_time),
                Err(_) => true,
            },
            candidates_ok(candidates@) && candidates@.len() < u64::MAX ==> r is Ok,
    {
        let mut vg = VG::assemble(name, candidates)?;
        if !vg.commit_ready_exec() {
            return Err(Error::Invariant(Violation::OutOfRange));
        }
        let text = vg.commit(creation_host, creation_time)?;
        Ok((vg, text))
    }

    /// Create a linear LV of `extent_count` extents in the first free
    /// range that holds it, scanning PVs in device order and each PV's free
    /// ranges in extent order, and commit. Returns the text to write to
    /// every metadata area.
    pub fn lv_create_linear(&mut self, name: &[u8], extent_count: u64, creation_host: &[u8], creation_time: i64) -> (r: Result<Vec<u8>, Error>)
        requires
            old(self).wf(),
        ensures
            final(self).wf(),
            final(self).same_header(&*old(self)),
            final(self).spec_pvs() == old(self).spec_pvs(),
            match r {
                Ok(text) => final(self).spec_seqno() == old(self).spec_seqno() + 1
                    && text@ == committed_text(*final(self), creation_host@, creation_time),
                Err(_) => final(self).spec_seqno() == old(self).spec_seqno() && final(self).spec_lvs() == old(self).spec_lvs(),
            },
            !old(self).commit_ready() ==> r matches Err(Error::Invariant(Violation::OutOfRange)),
            old(self).commit_ready() && (exists|i: int| 0 <= i < old(self).spec_lvs().len() && (#[trigger] old(self).spec_lvs()[i]).name@ == name@) ==>
                r matches Err(Error::Invariant(Violation::DuplicateLv)),
            old(self).commit_ready() && (forall|i: int| 0 <= i < old(self).spec_lvs().len() ==> (#[trigger] old(self).spec_lvs()[i]).name@ != name@)
                && extent_count == 0 ==> r matches Err(Error::Invariant(Violation::OutOfRange)),
            old(self).commit_ready() && (forall|i: int| 0 <= i < old(self).spec_lvs().len() ==> (#[trigger] old(self).spec_lvs()[i]).name@ != name@)
                && extent_count > 0
                && (forall|j: int, t: int| 0 <= j < old(self).spec_pvs().len() ==> !#[trigger] window_free(lvs_areas(old(self).spec_lvs()), old(self).spec_pvs()[j], t, extent_count as int)) ==>
                (r matches Err(Error::NoSpace { requested, .. }) && requested == extent_count),
            old(self).commit_ready() && (forall|i: int| 0 <= i < old(self).spec_lvs().len() ==> (#[trigger] old(self).spec_lvs()[i]).name@ != name@)
                && extent_count > 0
                && (exists|j: int, t: int| 0 <= j < old(self).spec_pvs().len() && #[trigger] window_free(lvs_areas(old(self).spec_lvs()), old(self).spec_pvs()[j], t, extent_count as int)) ==>
                r is Ok,
            r is Ok ==> exists|pi: int, s: int| #[trigger] first_fit(lvs_areas(old(self).spec_lvs()), old(self).spec_pvs(), extent_count as int, pi, s)
                && final(self).spec_lvs() == old(self).spec_lvs().push(final(self).spec_lvs().last())
                && is_new_linear_lv(final(self).spec_lvs().last(), name@, extent_count, old(self).spec_pvs()[pi].device, s as u64,
                    creation_host@, creation_time),
    {
        if !self.commit_ready_exec() {
            return Err(Error::Invariant(Violation::OutOfRange));
        }
        let ghost before = self.lvs@;
        self.place_linear(name, extent_count, creation_host, creation_time)?;
        proof {
            assert forall|i: int| 0 <= i < self.lvs@.len() implies (#[trigger] self.lvs@[i]).segments@.len() < u64::MAX by {
                if i < before.len() {
                    assert(self.lvs@[i] == before[i]);
                }
            }
        }
        self.commit(creation_host, creation_time)
    }

    /// Add a PV that belongs to no VG, and commit. `has_metadata` tells
    /// whether its metadata areas already hold VG text, which makes it
    /// another VG's. Returns the text to write to every metadata area.
    pub fn pv_add(&mut self, pvh: &PvHeader, dev: Device, has_metadata: bool, creation_host: &[u8], creation_time: i64) -> (r: Result<Vec<u8>, Error>)
        requires
            old(self).wf(),
        ensures
            final(self).wf(),
            final(self).same_header(&*old(self)),
            final(self).spec_lvs() == old(self).spec_lvs(),
            match r {
                Ok(text) => final(self).spec_seqno() == old(self).spec_seqno() + 1
                    && text@ == committed_text(*final(self), creation_host@, creation_time),
                Err(_) => final(self).spec_seqno() == old(self).spec_seqno() && final(self).spec_pvs() == old(self).spec_pvs(),
            },
            !(old(self).commit_ready() && old(self).spec_pvs().len() + 1 < u64::MAX) ==> r matches Err(Error::Invariant(Violation::OutOfRange)),
            old(self).commit_ready() && old(self).spec_pvs().len() + 1 < u64::MAX
                && (exists|i: int| 0 <= i < old(self).spec_pvs().len() && (#[trigger] old(self).spec_pvs()[i]).device == dev) ==>
                r matches Err(Error::Invariant(Violation::DuplicatePv)),
            old(self).commit_ready() && old(self).spec_pvs().len() + 1 < u64::MAX
                && (forall|i: int| 0 <= i < old(self).spec_pvs().len() ==> (#[trigger] old(self).spec_pvs()[i]).device != dev) ==> {
                if has_metadata {
                    r matches Err(Error::Invariant(Violation::ForeignVg))
                } else if pvh.data_areas@.len() == 0 {
                    r matches Err(Error::Invariant(Violation::NoDataArea))
                } else if pv_geometry(*pvh, old(self).spec_extent_size() as int) is None {
                    r matches Err(Error::Invariant(Violation::TooSmall))
                } else {
                    r is Ok
                }
            },
            r is Ok ==> exists|i: int| 0 <= i <= old(self).spec_pvs().len()
                && final(self).spec_pvs() == old(self).spec_pvs().insert(i, final(self).spec_pvs()[i])
                && #[trigger] is_new_pv(final(self).spec_pvs()[i], *pvh, dev, old(self).spec_extent_size() as int),
    {
        if !self.commit_ready_exec() || self.pvs.len() as u64 >= u64::MAX - 1 {
            return Err(Error::Invariant(Violation::OutOfRange));
        }
        self.add_pv(pvh, dev, has_metadata)?;
        self.commit(creation_host, creation_time)
    }

    /// Remove the PV on `dev` from the VG, and commit. Fails with `InUse`
    /// naming an LV that has a segment on it. Returns the text to write.
    pub fn pv_remove(&mut self, dev: Device, creation_host: &[u8], creation_time: i64) -> (r: Result<Vec<u8>, Error>)
        requires
            old(self).wf(),
        ensures
            final(self).wf(),
            final(self).same_header(&*old(self)),
            final(self).spec_lvs() == old(self).spec_lvs(),
            !old(self).commit_ready() ==> r matches Err(Error::Invariant(Violation::OutOfRange)),
            match r {
                Err(Error::InUse(who)) => final(self).spec_pvs() == old(self).spec_pvs() && final(self).spec_seqno() == old(self).spec_seqno()
                    && exists|i: int| 0 <= i < old(self).spec_lvs().len() && (#[trigger] old(self).spec_lvs()[i]).name@ == who@
                    && lv_uses(old(self).spec_lvs()[i], dev),
                Err(Error::NotFound(_)) => final(self).spec_pvs() == old(self).spec_pvs() && final(self).spec_seqno() == old(self).spec_seqno()
                    && (forall|i: int| 0 <= i < old(self).spec_lvs().len() ==> !lv_uses(#[trigger] old(self).spec_lvs()[i], dev))
                    && (forall|i: int| 0 <= i < old(self).spec_pvs().len() ==> (#[trigger] old(self).spec_pvs()[i]).device != dev),
                Err(e) => (e matches Error::Invariant(Violation::OutOfRange)) && !old(self).commit_ready()
                    && final(self).spec_pvs() == old(self).spec_pvs() && final(self).spec_seqno() == old(self).spec_seqno(),
                Ok(text) => (forall|i: int| 0 <= i < old(self).spec_lvs().len() ==> !lv_uses(#[trigger] old(self).spec_lvs()[i], dev))
                    && (exists|i: int| 0 <= i < old(self).spec_pvs().len() && (#[trigger] old(self).spec_pvs()[i]).device == dev
                    && final(self).spec_pvs() == old(self).spec_pvs().remove(i))
                    && final(self).spec_seqno() == old(self).spec_seqno() + 1
                    && text@ == committed_text(*final(self), creation_host@, creation_time),
            },
    {
        if !self.commit_ready_exec() {
            return Err(Error::Invariant(Violation::OutOfRange));
        }
        self.drop_pv(dev)?;
        self.commit(creation_host, creation_time)
    }

    /// Remove the LV called `name`, commit, and hand back the LV and the
    /// text to write to every metadata area.
    pub fn lv_remove(&mut self, name: &[u8], creation_host: &[u8], creation_time: i64) -> (r: Result<(LV, Vec<u8>), Error>)
        requires
            old(self).wf(),
        ensures
            final(self).wf(),
            final(self).same_header(&*old(self)),
            final(self).spec_pvs() == old(self).spec_pvs(),
            !old(self).commit_ready() ==> r matches Err(Error::Invariant(Violation::OutOfRange)),
            match r {
                Ok((lv, text)) => lv.name@ == name@ && (exists|i: int| 0 <= i < old(self).spec_lvs().len() && old(self).spec_lvs()[i] == lv
                    && final(self).spec_lvs() == old(self).spec_lvs().remove(i))
                    && final(self).spec_seqno() == old(self).spec_seqno() + 1
                    && text@ == committed_text(*final(self), creation_host@, creation_time),
                Err(e) => final(self).spec_lvs() == old(self).spec_lvs() && final(self).spec_seqno() == old(self).spec_seqno()
                    && ((e matches Error::Invariant(Violation::OutOfRange)) && !old(self).commit_ready()
                    || (e matches Error::NotFound(_))
                    && forall|i: int| 0 <= i < old(self).spec_lvs().len() ==> (#[trigger] old(self).spec_lvs()[i]).name@ != name@),
            },
    {
        if !self.commit_ready_exec() {
            return Err(Error::Invariant(Violation::OutOfRange));
        }
        let ghost before = self.lvs@;
        let lv = self.drop_lv(name)?;
        proof {
            let i = choose|i: int| 0 <= i < before.len() && before[i] == lv && self.lvs@ == before.remove(i);
            assert forall|q: int| 0 <= q < self.lvs@.len() implies (#[trigger] self.lvs@[q]).segments@.len() < u64::MAX by {
                if q < i {
                    assert(self.lvs@[q] == before[q]);
                } else {
                    assert(self.lvs@[q] == before[q + 1]);
                }
            }
        }
        let text = self.commit(creation_host, creation_time)?;
        Ok((lv, text))
    }
}

} // verus!
