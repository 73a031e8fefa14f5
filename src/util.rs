//! CRC, alignment and UUID helpers.

use vstd::prelude::*;
use vstd::bytes::{spec_u32_from_le_bytes, spec_u32_to_le_bytes, spec_u64_from_le_bytes, spec_u64_to_le_bytes};
use byteorder::ByteOrder;

verus! {

/// The seed that LVM2 complements before a CRC run.
pub const INITIAL_CRC: u32 = 0xf597a6cf;

/// The (reflected IEEE) polynomial of LVM2's CRC.
pub const CRC_POLY: u32 = 0xedb88320;

/// The lookup table that `crc::crc32::make_table` builds for a polynomial.
pub uninterp spec fn crc_table(poly: u32) -> Seq<u32>;

/// What `crc::crc32::update` returns for a start value, a table and bytes.
pub uninterp spec fn crc_update(value: u32, table: Seq<u32>, bytes: Seq<u8>) -> u32;

/// Relies on crc::crc32::make_table: the 256-entry table of a polynomial,
/// a function of the polynomial alone.
#[verifier::external_body]
fn crc_make_table(poly: u32) -> (r: [u32; 256])
    ensures
        r@ == crc_table(poly),
{
    crc::crc32::make_table(poly)
}

/// Relies on crc::crc32::update: the CRC of `bytes` continued from `value`,
/// a function of its arguments alone.
#[verifier::external_body]
fn crc_run(value: u32, table: &[u32; 256], bytes: &[u8]) -> (r: u32)
    ensures
        r == crc_update(value, table@, bytes@),
{
    crc::crc32::update(value, table, bytes)
}

/// LVM2's checksum of a byte sequence: the table CRC with LVM's seed,
/// complemented on the way in and on the way out.
pub open spec fn lvm_crc(bytes: Seq<u8>) -> u32 {
    !crc_update(!INITIAL_CRC, crc_table(CRC_POLY), bytes)
}

/// The CRC-32 that LVM2 stores in labels, MDA headers and text locations.
pub fn crc32_calc(buf: &[u8]) -> (r: u32)
    ensures
        r == lvm_crc(buf@),
{
    let table = crc_make_table(CRC_POLY);
    !crc_run(!INITIAL_CRC, &table, buf)
}

/// ASCII `-`.
pub const HYPHEN: u8 = 45;

/// `n` rounded up to a multiple of `a`.
pub open spec fn aligned_up(n: int, a: int) -> int {
    ((n + a - 1) / a) * a
}

/// Round `num` up to the next multiple of `align`, a power of two.
pub fn align_to(num: usize, align: usize) -> (r: usize)
    requires
        align > 0,
        num + align - 1 <= usize::MAX,
    ensures
        r as int == aligned_up(num as int, align as int),
        r >= num,
        r % align == 0,
        r - num < align,
{
    let m = num + (align - 1);
    let r = m - m % align;
    proof {
        let q = m as int / align as int;
        vstd::arithmetic::div_mod::lemma_fundamental_div_mod(m as int, align as int);
        assert(m as int == align * q + m as int % align as int);
        assert(r as int == align * q);
        vstd::arithmetic::mul::lemma_mul_is_commutative(q, align as int);
        vstd::arithmetic::div_mod::lemma_mod_multiples_basic(q, align as int);
    }
    r
}

/// Whether a byte is an ASCII lower-case hexadecimal digit.
pub open spec fn is_hex_digit(b: u8) -> bool {
    (48 <= b && b <= 57) || (97 <= b && b <= 102)
}

/// Relies on uuid::Uuid::new_v4 and its `simple` form: 32 lower-case
/// hexadecimal digits of a random version-4 UUID.
#[verifier::external_body]
fn random_uuid_digits() -> (r: Vec<u8>)
    ensures
        r@.len() == 32,
        forall|i: int| 0 <= i < 32 ==> is_hex_digit(#[trigger] r@[i]),
{
    uuid::Uuid::new_v4().simple().to_string().into_bytes()
}

/// A fresh random UUID as 32 lower-case hexadecimal digits, the form a PV
/// header stores.
pub fn new_uuid_digits() -> (r: Vec<u8>)
    ensures
        r@.len() == 32,
        forall|i: int| 0 <= i < 32 ==> is_hex_digit(#[trigger] r@[i]),
{
    random_uuid_digits()
}

/// The LVM2 display form of a 32-character UUID: hyphens after the
/// 6th, 10th, 14th, 18th, 22nd and 26th characters.
pub open spec fn hyphenated(s: Seq<u8>) -> Seq<u8> {
    s.subrange(0, 6) + seq![HYPHEN] + s.subrange(6, 10) + seq![HYPHEN] + s.subrange(10, 14)
        + seq![HYPHEN] + s.subrange(14, 18) + seq![HYPHEN] + s.subrange(18, 22) + seq![HYPHEN]
        + s.subrange(22, 26) + seq![HYPHEN] + s.subrange(26, 32)
}

/// Appends `src[a..b]` to `v`.
pub fn push_range(v: &mut Vec<u8>, src: &[u8], a: usize, b: usize)
    requires
        a <= b <= src@.len(),
    ensures
        final(v)@ == old(v)@ + src@.subrange(a as int, b as int),
{
    let mut i = a;
    while i < b
        invariant
            a <= i <= b <= src@.len(),
            v@ == old(v)@ + src@.subrange(a as int, i as int),
        decreases b - i,
    {
        v.push(src[i]);
        proof {
            assert(src@.subrange(a as int, i + 1) == src@.subrange(a as int, i as int) + seq![src@[i as int]]);
        }
        i = i + 1;
    }
}

/// Appends all of `src` to `v`.
pub fn push_all(v: &mut Vec<u8>, src: &[u8])
    ensures
        final(v)@ == old(v)@ + src@,
{
    push_range(v, src, 0, src.len());
    proof {
        assert(src@.subrange(0, src@.len() as int) == src@);
    }
}

/// Insert LVM2's hyphens into a raw 32-character UUID.
pub fn hyphenate_uuid(uuid: &[u8]) -> (r: Vec<u8>)
    requires
        uuid@.len() >= 32,
    ensures
        r@ == hyphenated(uuid@),
        r@.len() == 38,
{
    let mut r: Vec<u8> = Vec::new();
    push_range(&mut r, uuid, 0, 6);
    r.push(HYPHEN);
    push_range(&mut r, uuid, 6, 10);
    r.push(HYPHEN);
    push_range(&mut r, uuid, 10, 14);
    r.push(HYPHEN);
    push_range(&mut r, uuid, 14, 18);
    r.push(HYPHEN);
    push_range(&mut r, uuid, 18, 22);
    r.push(HYPHEN);
    push_range(&mut r, uuid, 22, 26);
    r.push(HYPHEN);
    push_range(&mut r, uuid, 26, 32);
    r
}

/// A fresh random UUID in LVM2's hyphenated display form.
pub fn make_uuid() -> (r: Vec<u8>)
    ensures
        r@.len() == 38,
        exists|raw: Seq<u8>| raw.len() == 32 && r@ == hyphenated(raw),
{
    let raw = random_uuid_digits();
    hyphenate_uuid(raw.as_slice())
}

/// Relies on byteorder's LittleEndian::read_u32: the little-endian value
/// of the first four bytes.
#[verifier::external_body]
fn le_read_u32(b: &[u8]) -> (r: u32)
    requires
        b@.len() == 4,
    ensures
        r == spec_u32_from_le_bytes(b@),
{
    byteorder::LittleEndian::read_u32(b)
}

/// Relies on byteorder's LittleEndian::read_u64: the little-endian value
/// of the first eight bytes.
#[verifier::external_body]
fn le_read_u64(b: &[u8]) -> (r: u64)
    requires
        b@.len() == 8,
    ensures
        r == spec_u64_from_le_bytes(b@),
{
    byteorder::LittleEndian::read_u64(b)
}

/// Relies on byteorder's LittleEndian::write_u32: the four little-endian
/// bytes of a value.
#[verifier::external_body]
fn le_write_u32(v: u32) -> (r: Vec<u8>)
    ensures
        r@ == spec_u32_to_le_bytes(v),
{
    let mut b = vec![0u8; 4];
    byteorder::LittleEndian::write_u32(&mut b, v);
    b
}

/// Relies on byteorder's LittleEndian::write_u64: the eight little-endian
/// bytes of a value.
#[verifier::external_body]
fn le_write_u64(v: u64) -> (r: Vec<u8>)
    ensures
        r@ == spec_u64_to_le_bytes(v),
{
    let mut b = vec![0u8; 8];
    byteorder::LittleEndian::write_u64(&mut b, v);
    b
}

/// The four little-endian bytes of `v`.
pub fn u32_bytes(v: u32) -> (r: Vec<u8>)
    ensures
        r@ == spec_u32_to_le_bytes(v),
{
    le_write_u32(v)
}

/// The eight little-endian bytes of `v`.
pub fn u64_bytes(v: u64) -> (r: Vec<u8>)
    ensures
        r@ == spec_u64_to_le_bytes(v),
{
    le_write_u64(v)
}

/// The little-endian `u32` at byte `off` of a sequence.
pub open spec fn u32_at(s: Seq<u8>, off: int) -> u32 {
    spec_u32_from_le_bytes(s.subrange(off, off + 4))
}

/// The little-endian `u64` at byte `off` of a sequence.
pub open spec fn u64_at(s: Seq<u8>, off: int) -> u64 {
    spec_u64_from_le_bytes(s.subrange(off, off + 8))
}

/// Reads the little-endian `u32` at `off`.
pub fn read_u32_at(buf: &[u8], off: usize) -> (r: u32)
    requires
        off + 4 <= buf@.len(),
    ensures
        r == u32_at(buf@, off as int),
{
    let _n = buf.len();
    le_read_u32(&buf[off..off + 4])
}

/// Reads the little-endian `u64` at `off`.
pub fn read_u64_at(buf: &[u8], off: usize) -> (r: u64)
    requires
        off + 8 <= buf@.len(),
    ensures
        r == u64_at(buf@, off as int),
{
    let _n = buf.len();
    le_read_u64(&buf[off..off + 8])
}

/// `n` zero bytes.
pub fn zeros(n: usize) -> (r: Vec<u8>)
    ensures
        r@ == Seq::new(n as nat, |i: int| 0u8),
{
    let mut v: Vec<u8> = Vec::new();
    let mut i: usize = 0;
    while i < n
        invariant
            i <= n,
            v@ == Seq::new(i as nat, |j: int| 0u8),
        decreases n - i,
    {
        v.push(0);
        i = i + 1;
        assert(v@ =~= Seq::new(i as nat, |j: int| 0u8));
    }
    v
}

/// `s` with `src` written over it from byte `off` on.
pub open spec fn overwrite(s: Seq<u8>, off: int, src: Seq<u8>) -> Seq<u8> {
    s.subrange(0, off) + src + s.subrange(off + src.len(), s.len() as int)
}

/// Writes `src` into `buf` from byte `off` on.
pub fn put_bytes(buf: &mut Vec<u8>, off: usize, src: &[u8])
    requires
        off + src@.len() <= old(buf)@.len(),
    ensures
        final(buf)@ == overwrite(old(buf)@, off as int, src@),
        final(buf)@.len() == old(buf)@.len(),
{
    let _n = buf.len();
    let mut i: usize = 0;
    while i < src.len()
        invariant
            _n == buf@.len(),
            off + src@.len() <= old(buf)@.len(),
            buf@.len() == old(buf)@.len(),
            i <= src@.len(),
            forall|j: int| 0 <= j < buf@.len() ==> #[trigger] buf@[j] == if off <= j < off + i {
                src@[j - off]
            } else {
                old(buf)@[j]
            },
        decreases src@.len() - i,
    {
        buf.set(off + i, src[i]);
        i = i + 1;
    }
    assert(buf@ =~= overwrite(old(buf)@, off as int, src@));
}

/// Writes the little-endian `u32` `v` at `off`.
pub fn put_u32(buf: &mut Vec<u8>, off: usize, v: u32)
    requires
        off + 4 <= old(buf)@.len(),
    ensures
        final(buf)@ == overwrite(old(buf)@, off as int, spec_u32_to_le_bytes(v)),
        final(buf)@.len() == old(buf)@.len(),
        u32_at(final(buf)@, off as int) == v,
{
    proof {
        vstd::bytes::lemma_auto_spec_u32_to_from_le_bytes();
    }
    let b = le_write_u32(v);
    put_bytes(buf, off, b.as_slice());
    assert(buf@.subrange(off as int, off + 4) =~= b@);
}

/// Writes the little-endian `u64` `v` at `off`.
pub fn put_u64(buf: &mut Vec<u8>, off: usize, v: u64)
    requires
        off + 8 <= old(buf)@.len(),
    ensures
        final(buf)@ == overwrite(old(buf)@, off as int, spec_u64_to_le_bytes(v)),
        final(buf)@.len() == old(buf)@.len(),
        u64_at(final(buf)@, off as int) == v,
{
    proof {
        vstd::bytes::lemma_auto_spec_u64_to_from_le_bytes();
    }
    let b = le_write_u64(v);
    put_bytes(buf, off, b.as_slice());
    assert(buf@.subrange(off as int, off + 8) =~= b@);
}

} // verus!
