use vstd::prelude::*;

pub use crate::file::enums::spec_encoding;
use crate::file::enums::TxtEncoding;

verus! {

// -------------------------------------------------------------------------------
//                          BIG ENDIAN INTEGERS
// -------------------------------------------------------------------------------

/// The unsigned value of `s` read as a big-endian number.
pub open spec fn be_value(s: Seq<u8>) -> nat
    decreases s.len(),
{
    if s.len() == 0 {
        0
    } else {
        be_value(s.drop_last()) * 256 + s.last() as nat
    }
}

/// 256 to the power `n`.
pub open spec fn pow256(n: nat) -> nat
    decreases n,
{
    if n == 0 {
        1
    } else {
        256 * pow256((n - 1) as nat)
    }
}

pub proof fn lemma_be_value_bound(s: Seq<u8>)
    ensures
        be_value(s) < pow256(s.len()),
    decreases s.len(),
{
    if s.len() > 0 {
        lemma_be_value_bound(s.drop_last());
        let a = be_value(s.drop_last());
        let p = pow256(s.drop_last().len());
        assert(a * 256 + s.last() < 256 * p) by (nonlinear_arith)
            requires
                a < p,
                s.last() < 256,
        ;
    }
}

pub proof fn lemma_pow256_8()
    ensures
        pow256(8) == 0x1_0000_0000_0000_0000,
{
    reveal_with_fuel(pow256, 9);
}

pub proof fn lemma_pow256_mono(a: nat, b: nat)
    requires
        a <= b,
    ensures
        pow256(a) <= pow256(b),
    decreases b,
{
    if a < b {
        lemma_pow256_mono(a, (b - 1) as nat);
    }
}

/// The big-endian unsigned integer stored in the `size` bytes of `s` that
/// start at `start`.
pub open spec fn be_at(s: Seq<u8>, start: int, size: int) -> nat {
    be_value(s.subrange(start, start + size))
}

/// Reads `size` bytes (at most 8) of `buf` starting at `start_byte` as a
/// big-endian unsigned integer.
pub fn parse_be_byte_to_int(buf: &[u8], start_byte: usize, size: usize) -> (r: u64)
    requires
        size <= 8,
        start_byte + size <= buf@.len(),
    ensures
        r == be_at(buf@, start_byte as int, size as int),
{
    let mut acc: u64 = 0;
    let mut i: usize = 0;
    while i < size
        invariant
            size <= 8,
            start_byte + size <= buf.len(),
            i <= size,
            acc == be_at(buf@, start_byte as int, i as int),
        decreases size - i,
    {
        let ghost prev = buf@.subrange(start_byte as int, start_byte + i);
        let ghost next = buf@.subrange(start_byte as int, start_byte + i + 1);
        assert(next.drop_last() =~= prev);
        proof {
            lemma_be_value_bound(next);
            lemma_pow256_mono((i + 1) as nat, 8);
            lemma_pow256_8();
        }
        acc = acc * 256 + buf[start_byte + i] as u64;
        i = i + 1;
    }
    acc
}

// -------------------------------------------------------------------------------
//                          BIT MANIPULATION
// -------------------------------------------------------------------------------

/// Whether the most significant bit of `num` is set, i.e. whether a varint
/// byte is followed by another byte of the same varint.
pub fn is_msb_negative(num: u8) -> (r: bool)
    ensures
        r == (num >= 0x80),
{
    assert(((num & 0x80) != 0) == (num >= 0x80)) by (bit_vector);
    (num & 0x80) != 0
}

// -------------------------------------------------------------------------------
//                          VARINT PARSING
// -------------------------------------------------------------------------------

/// The accumulator after a continuation byte has been taken in: shifted by
/// 7, with the byte's low seven bits or-ed in.
pub open spec fn varint_step(acc: u64, byte: u8) -> u64 {
    (acc << 7u64) | ((byte & 0x7f) as u64)
}

/// Scans the continuation bytes of a varint from `idx` on, with accumulator
/// `acc`: at most eight bytes with their high bit set are taken in. Gives the
/// index of the byte that ends the varint (the first one whose high bit is
/// clear, or the ninth byte whatever its high bit; the length of `s` when `s`
/// ends first) and the accumulator at that point.
pub open spec fn varint_scan(s: Seq<u8>, idx: int, acc: u64) -> (int, u64)
    decreases s.len() - idx,
{
    if 0 <= idx < s.len() && idx < 8 && s[idx] >= 0x80 {
        varint_scan(s, idx + 1, varint_step(acc, s[idx]))
    } else {
        (idx, acc)
    }
}

/// A varint at the start of `s` ends inside `s`.
pub open spec fn varint_terminates(s: Seq<u8>) -> bool {
    varint_scan(s, 0, 0).0 < s.len()
}

/// The number of bytes of the varint at the start of `s`.
pub open spec fn varint_size(s: Seq<u8>) -> int {
    varint_scan(s, 0, 0).0 + 1
}

/// The value of the varint at the start of `s`, as SQLite stores it: the
/// continuation bytes give seven bits each; the last byte gives its low seven
/// bits, or all eight bits after a shift by 8 when it is the ninth byte.
pub open spec fn varint_value(s: Seq<u8>) -> u64 {
    let (idx, acc) = varint_scan(s, 0, 0);
    if idx == 8 {
        (acc << 8u64) | (s[idx] as u64)
    } else {
        varint_step(acc, s[idx])
    }
}

pub proof fn lemma_varint_scan_bounds(s: Seq<u8>, idx: int, acc: u64)
    requires
        0 <= idx,
    ensures
        idx <= varint_scan(s, idx, acc).0,
        varint_scan(s, idx, acc).0 <= s.len() || varint_scan(s, idx, acc).0 == idx,
        idx <= 8 ==> varint_scan(s, idx, acc).0 <= 8,
        varint_scan(s, idx, acc).0 < s.len() ==> s[varint_scan(s, idx, acc).0] < 0x80 || varint_scan(s, idx, acc).0 >= 8,
        forall|j: int| idx <= j < varint_scan(s, idx, acc).0 ==> s[j] >= 0x80,
    decreases s.len() - idx,
{
    if 0 <= idx < s.len() && idx < 8 && s[idx] >= 0x80 {
        lemma_varint_scan_bounds(s, idx + 1, varint_step(acc, s[idx]));
    }
}

pub proof fn lemma_varint_size_pos(s: Seq<u8>)
    ensures
        varint_size(s) >= 1,
        varint_size(s) <= 9,
        varint_terminates(s) ==> varint_size(s) <= s.len(),
{
    lemma_varint_scan_bounds(s, 0, 0);
}

/// Parses the varint at the start of `buf`; `None` when `buf` ends before the
/// varint does.
pub fn try_parse_varint(buf: &[u8]) -> (r: Option<(u64, usize)>)
    ensures
        r is None <==> !varint_terminates(buf@),
        r matches Some((v, n)) ==> v == varint_value(buf@) && n == varint_size(buf@),
{
    let mut idx: usize = 0;
    let mut varint: u64 = 0;
    proof {
        lemma_varint_scan_bounds(buf@, 0, 0);
    }
    while idx < buf.len() && idx < 8 && is_msb_negative(buf[idx])
        invariant
            idx <= buf@.len(),
            idx <= 8,
            varint_scan(buf@, idx as int, varint) == varint_scan(buf@, 0, 0),
        decreases buf@.len() - idx,
    {
        // clearing the MSB, since only last 7 bits are data.
        varint = (varint << 7) | ((buf[idx] & 0x7F) as u64);
        idx += 1;
    }
    if idx >= buf.len() {
        return None;
    }
    if idx == 8 {
        // The ninth byte gives all its eight bits.
        varint = (varint << 8) | (buf[idx] as u64);
    } else {
        varint = (varint << 7) | ((buf[idx] & 0x7F) as u64);
    }
    Some((varint, idx + 1))
}

/// Parses the varint at the start of `buf` into `result` and returns its size
/// in bytes.
pub fn parse_varint_to_int(buf: &[u8], result: &mut u64) -> (r: usize)
    requires
        varint_terminates(buf@),
    ensures
        *final(result) == varint_value(buf@),
        r == varint_size(buf@),
{
    match try_parse_varint(buf) {
        Some((v, n)) => {
            *result = v;
            n
        },
        None => {
            proof {
                assert(false);
            }
            0
        },
    }
}

// -------------------------------------------------------------------------------
//                          UTF-16 UNITS
// -------------------------------------------------------------------------------

/// The little-endian 16-bit unit made of the bytes at `2 * i` and `2 * i + 1`.
pub open spec fn le_unit(s: Seq<u8>, i: int) -> u16 {
    (s[2 * i] + s[2 * i + 1] * 256) as u16
}

/// The big-endian 16-bit unit made of the bytes at `2 * i` and `2 * i + 1`.
pub open spec fn be_unit(s: Seq<u8>, i: int) -> u16 {
    (s[2 * i] * 256 + s[2 * i + 1]) as u16
}

/// Reads `buf` as consecutive little-endian 16-bit units.
pub fn convert_u8_to_u16_le(buf: &[u8]) -> (r: Vec<u16>)
    requires
        buf@.len() % 2 == 0,
    ensures
        r@.len() == buf@.len() / 2,
        forall|i: int| 0 <= i < r@.len() ==> r@[i] == le_unit(buf@, i),
{
    let mut r: Vec<u16> = Vec::new();
    let n = buf.len() / 2;
    let mut i: usize = 0;
    while i < n
        invariant
            n == buf.len() / 2,
            buf.len() % 2 == 0,
            i <= n,
            r@.len() == i,
            forall|j: int| 0 <= j < i ==> r@[j] == le_unit(buf@, j),
        decreases n - i,
    {
        let lo = buf[2 * i] as u16;
        let hi = buf[2 * i + 1] as u16;
        r.push(lo + hi * 256);
        i = i + 1;
    }
    r
}

/// Reads `buf` as consecutive big-endian 16-bit units.
pub fn convert_u8_to_u16_be(buf: &[u8]) -> (r: Vec<u16>)
    requires
        buf@.len() % 2 == 0,
    ensures
        r@.len() == buf@.len() / 2,
        forall|i: int| 0 <= i < r@.len() ==> r@[i] == be_unit(buf@, i),
{
    let mut r: Vec<u16> = Vec::new();
    let n = buf.len() / 2;
    let mut i: usize = 0;
    while i < n
        invariant
            n == buf.len() / 2,
            buf.len() % 2 == 0,
            i <= n,
            r@.len() == i,
            forall|j: int| 0 <= j < i ==> r@[j] == be_unit(buf@, j),
        decreases n - i,
    {
        let hi = buf[2 * i] as u16;
        let lo = buf[2 * i + 1] as u16;
        r.push(hi * 256 + lo);
        i = i + 1;
    }
    r
}

// -------------------------------------------------------------------------------
//                          TEXT DECODING
// -------------------------------------------------------------------------------

/// The characters that the UTF-16 units `u` encode, `None` when they hold an
/// unpaired surrogate.
pub open spec fn utf16_decode(u: Seq<u16>) -> Option<Seq<char>>
    decreases u.len(),
{
    if u.len() == 0 {
        Some(Seq::<char>::empty())
    } else if u[0] < 0xD800 || u[0] > 0xDFFF {
        match utf16_decode(u.drop_first()) {
            Some(rest) => Some(seq![u[0] as char] + rest),
            None => None,
        }
    } else if u[0] <= 0xDBFF && u.len() >= 2 && 0xDC00 <= u[1] <= 0xDFFF {
        let c = 0x10000 + (u[0] - 0xD800) * 0x400 + (u[1] - 0xDC00);
        match utf16_decode(u.subrange(2, u.len() as int)) {
            Some(rest) => Some(seq![c as char] + rest),
            None => None,
        }
    } else {
        None
    }
}

/// `String::from_utf8`: the text that `bytes` encode when they are valid
/// UTF-8, `None` otherwise. Trusted: claims that std's validation and decoding
/// agree with vstd's `valid_utf8` and `decode_utf8`.
#[verifier::external_body]
pub fn decode_utf8(bytes: &[u8]) -> (r: Option<String>)
    ensures
        r is Some <==> vstd::utf8::valid_utf8(bytes@),
        r matches Some(s) ==> s@ == vstd::utf8::decode_utf8(bytes@),
{
    String::from_utf8(bytes.to_vec()).ok()
}

/// `String::from_utf16`: the text that the units encode, `None` when they hold
/// an unpaired surrogate. Trusted: claims that std decodes as `utf16_decode`
/// states.
#[verifier::external_body]
pub fn decode_utf16(units: &[u16]) -> (r: Option<String>)
    ensures
        r is Some <==> utf16_decode(units@) is Some,
        r matches Some(s) ==> utf16_decode(units@) == Some(s@),
{
    String::from_utf16(units).ok()
}

// -------------------------------------------------------------------------------
//                          DATABASE FILE BYTES
// -------------------------------------------------------------------------------

/// The `size` bytes of the database file `db` from offset `start`; bytes past
/// the end of the file read as zero.
pub open spec fn spec_read_bytes(db: Seq<u8>, start: int, size: int) -> Seq<u8> {
    Seq::new(size as nat, |i: int| if start + i < db.len() { db[start + i] } else { 0u8 })
}

/// Copies `pg_size` bytes of the database file contents `db` from offset
/// `start_byte`, zero past the end of the file.
pub fn read_specific_bytes(db: &[u8], start_byte: u32, pg_size: u16) -> (r: Vec<u8>)
    ensures
        r@ == spec_read_bytes(db@, start_byte as int, pg_size as int),
{
    let mut r: Vec<u8> = Vec::new();
    let mut i: usize = 0;
    let size = pg_size as usize;
    let start = start_byte as usize;
    while i < size
        invariant
            size == pg_size,
            start == start_byte,
            i <= size,
            r@.len() == i,
            forall|j: int|
                0 <= j < i ==> r@[j] == (if start + j < db@.len() {
                    db@[start + j]
                } else {
                    0u8
                }),
        decreases size - i,
    {
        if i < db.len() && start < db.len() - i {
            r.push(db[start + i]);
        } else {
            r.push(0);
        }
        i = i + 1;
    }
    assert(r@ =~= spec_read_bytes(db@, start_byte as int, pg_size as int));
    r
}

pub fn get_enconding_type(encoding_val: u32) -> (r: TxtEncoding)
    ensures
        r == spec_encoding(encoding_val),
{
    TxtEncoding::from_value(encoding_val)
}

/// The bytes of `v` written as a varint: seven bits a byte, the high bits
/// first, every byte but the last with its high bit set.
pub open spec fn varint_encoding(v: u64) -> Seq<u8>
    decreases v,
{
    if v < 128 {
        seq![v as u8]
    } else {
        varint_lead(v / 128) + seq![(v % 128) as u8]
    }
}

/// The leading bytes of a varint that give the bits of `v`, each with its
/// high bit set.
pub open spec fn varint_lead(v: u64) -> Seq<u8>
    decreases v,
{
    if v < 128 {
        seq![(v + 128) as u8]
    } else {
        varint_lead(v / 128) + seq![(v % 128 + 128) as u8]
    }
}

proof fn lemma_varint_step_value(x: u64, b: u8)
    requires
        x < 0x200_0000_0000_0000,
    ensures
        varint_step(x, b) as int == x * 128 + b % 128,
{
    assert((x << 7u64) | ((b & 0x7f) as u64) == x * 128 + (b % 128) as u64) by (bit_vector)
        requires
            x < 0x200_0000_0000_0000,
    ;
}

proof fn lemma_scan_lead(s: Seq<u8>, w: u64)
    requires
        varint_lead(w).len() <= 8,
        s.len() >= varint_lead(w).len(),
        s.take(varint_lead(w).len() as int) == varint_lead(w),
    ensures
        varint_scan(s, 0, 0) == varint_scan(s, varint_lead(w).len() as int, w),
    decreases w,
{
    let m = varint_lead(w).len() as int;
    if w < 128 {
        assert(s[0] == varint_lead(w)[0]);
        lemma_varint_step_value(0, s[0]);
    } else {
        let lead = varint_lead(w / 128);
        assert(s.take(lead.len() as int) =~= s.take(m).take(lead.len() as int));
        assert(varint_lead(w).take(lead.len() as int) =~= lead);
        lemma_scan_lead(s, w / 128);
        assert(s[m - 1] == varint_lead(w)[m - 1]);
        lemma_varint_step_value(w / 128, s[m - 1]);
    }
}

/// A varint written by [`varint_encoding`] in at most eight bytes reads
/// back: it ends inside the bytes, takes exactly its own bytes, and gives
/// `v` whatever follows it.
pub proof fn lemma_varint_read_back(s: Seq<u8>, v: u64)
    requires
        varint_encoding(v).len() <= 8,
        s.len() >= varint_encoding(v).len(),
        s.take(varint_encoding(v).len() as int) == varint_encoding(v),
    ensures
        varint_terminates(s),
        varint_size(s) == varint_encoding(v).len(),
        varint_value(s) == v,
{
    let n = varint_encoding(v).len() as int;
    if v < 128 {
        assert(s[0] == varint_encoding(v)[0]);
        lemma_varint_step_value(0, s[0]);
    } else {
        let lead = varint_lead(v / 128);
        assert(s.take(lead.len() as int) =~= s.take(n).take(lead.len() as int));
        assert(varint_encoding(v).take(lead.len() as int) =~= lead);
        lemma_scan_lead(s, v / 128);
        assert(s[n - 1] == varint_encoding(v)[n - 1]);
        lemma_varint_step_value(v / 128, s[n - 1]);
    }
}

} // verus!
