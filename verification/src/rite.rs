//! Loader for RITE, the mruby bytecode container: a binary header followed
//! by IREP (code), LVAR (local names), DBG (line maps) and END sections.

use vstd::prelude::*;

use crate::error::Error;
use vstd::arithmetic::power2::pow2;
use simple_endian::{u16be, u32be};

verus! {

// ---------------------------------------------------------------------------
// Big-endian fields
// ---------------------------------------------------------------------------

/// The big-endian 16-bit number stored at `s[i..i + 2]`.
pub open spec fn be16_at(s: Seq<u8>, i: int) -> int {
    s[i] as int * 256 + s[i + 1] as int
}

/// The big-endian 32-bit number stored at `s[i..i + 4]`.
pub open spec fn be32_at(s: Seq<u8>, i: int) -> int {
    s[i] as int * 16777216 + s[i + 1] as int * 65536 + s[i + 2] as int * 256 + s[i + 3] as int
}

/// Reads two bytes as a big-endian `u16`, through `simple_endian::u16be`.
/// Trusted: `BigEndian::<u16>::from_bits` stores the raw bits and `to_native`
/// converts them from big-endian; taking the raw bits in memory order from
/// the array, the result is `be16[0] * 256 + be16[1]`.
#[verifier::external_body]
pub fn be16_to_u16(be16: [u8; 2]) -> (r: u16)
    ensures
        r as int == be16_at(be16@, 0),
{
    u16be::from_bits(u16::from_ne_bytes(be16)).to_native()
}

/// Reads four bytes as a big-endian `u32`, through `simple_endian::u32be`.
/// Trusted: `BigEndian::<u32>::from_bits` stores the raw bits and `to_native`
/// converts them from big-endian, so the first byte is the most significant.
#[verifier::external_body]
pub fn be32_to_u32(be32: [u8; 4]) -> (r: u32)
    ensures
        r as int == be32_at(be32@, 0),
{
    u32be::from_bits(u32::from_ne_bytes(be32)).to_native()
}

/// Big-endian `u16` at `head[cur..cur + 2]`; `TooShort` when it does not fit.
pub fn u16_at(head: &[u8], cur: usize) -> (r: Result<u16, Error>)
    ensures
        cur + 2 > head@.len() ==> r == Err::<u16, Error>(Error::TooShort),
        cur + 2 <= head@.len() ==> (r matches Ok(v) && v as int == be16_at(head@, cur as int)),
{
    if cur > head.len() || head.len() - cur < 2 {
        return Err(Error::TooShort);
    }
    Ok(be16_to_u16([head[cur], head[cur + 1]]))
}

/// Big-endian `u32` at `head[cur..cur + 4]`; `TooShort` when it does not fit.
pub fn u32_at(head: &[u8], cur: usize) -> (r: Result<u32, Error>)
    ensures
        cur + 4 > head@.len() ==> r == Err::<u32, Error>(Error::TooShort),
        cur + 4 <= head@.len() ==> (r matches Ok(v) && v as int == be32_at(head@, cur as int)),
{
    if cur > head.len() || head.len() - cur < 4 {
        return Err(Error::TooShort);
    }
    Ok(be32_to_u32([head[cur], head[cur + 1], head[cur + 2], head[cur + 3]]))
}

// ---------------------------------------------------------------------------
// Section tags
// ---------------------------------------------------------------------------

/// The first four bytes of `src`, each read as a character (Latin-1), or
/// `None` when fewer than four bytes remain.
pub fn peek4(src: &[u8]) -> (r: Option<[char; 4]>)
    ensures
        src@.len() < 4 ==> r is None,
        src@.len() >= 4 ==> (r matches Some(cs) && forall|i: int|
            0 <= i < 4 ==> #[trigger] cs@[i] as int == src@[i] as int),
{
    if src.len() < 4 {
        return None;
    }
    let a = src[0] as char;
    let b = src[1] as char;
    let c = src[2] as char;
    let d = src[3] as char;
    Some([a, b, c, d])
}


// ---------------------------------------------------------------------------
// Fixed-size records
// ---------------------------------------------------------------------------

/// Size in bytes of the binary header.
pub const BINARY_HEADER_SIZE: usize = 20;
/// Size in bytes of the IREP section header.
pub const IREP_HEADER_SIZE: usize = 12;
/// Size in bytes of the header of the other sections.
pub const MISC_HEADER_SIZE: usize = 8;
/// Size in bytes of the fixed part of one IREP record.
pub const IREP_RECORD_SIZE: usize = 16;
/// Size in bytes of one catch-handler entry.
pub const CATCH_HANDLER_SIZE: usize = 13;

/// The binary header: identifier, format version, size and compiler tag.
#[derive(Debug, Clone, Copy)]
pub struct RiteBinaryHeader {
    pub ident: [u8; 4],
    pub major_version: [u8; 2],
    pub minor_version: [u8; 2],
    pub size: [u8; 4],
    pub compiler_name: [u8; 4],
    pub compiler_version: [u8; 4],
}

/// Header of the IREP section.
#[derive(Debug, Clone, Copy)]
pub struct SectionIrepHeader {
    pub ident: [u8; 4],
    pub size: [u8; 4],
    pub rite_version: [u8; 4],
}

/// Header of the LVAR, DBG and END sections.
#[derive(Debug, Clone, Copy)]
pub struct SectionMiscHeader {
    pub ident: [u8; 4],
    pub size: [u8; 4],
}

/// Fixed part of one IREP record; all fields big-endian.
#[derive(Debug, Clone, Copy)]
pub struct IrepRecord {
    pub size: [u8; 4],
    pub nlocals: [u8; 2],
    pub nregs: [u8; 2],
    pub rlen: [u8; 2],
    pub clen: [u8; 2],
    pub ilen: [u8; 4],
}

/// Copies `n` bytes out of `b` starting at `at`.
fn take2(b: &[u8], at: usize) -> (r: [u8; 2])
    requires
        at + 2 <= b@.len(),
    ensures
        r@ == b@.subrange(at as int, at + 2),
{
    let r = [b[at], b[at + 1]];
    assert(r@ =~= b@.subrange(at as int, at + 2));
    r
}

fn take4(b: &[u8], at: usize) -> (r: [u8; 4])
    requires
        at + 4 <= b@.len(),
    ensures
        r@ == b@.subrange(at as int, at + 4),
{
    let r = [b[at], b[at + 1], b[at + 2], b[at + 3]];
    assert(r@ =~= b@.subrange(at as int, at + 4));
    r
}

impl RiteBinaryHeader {
    /// Reads the header from the first bytes of `b`.
    pub fn from_bytes(b: &[u8]) -> (r: Result<Self, Error>)
        ensures
            b@.len() < BINARY_HEADER_SIZE ==> r == Err::<Self, Error>(Error::TooShort),
            b@.len() >= BINARY_HEADER_SIZE ==> (r matches Ok(h) && {
                &&& h.ident@ == b@.subrange(0, 4)
                &&& h.major_version@ == b@.subrange(4, 6)
                &&& h.minor_version@ == b@.subrange(6, 8)
                &&& h.size@ == b@.subrange(8, 12)
                &&& h.compiler_name@ == b@.subrange(12, 16)
                &&& h.compiler_version@ == b@.subrange(16, 20)
            }),
    {
        if b.len() < BINARY_HEADER_SIZE {
            return Err(Error::TooShort);
        }
        Ok(RiteBinaryHeader {
            ident: take4(b, 0),
            major_version: take2(b, 4),
            minor_version: take2(b, 6),
            size: take4(b, 8),
            compiler_name: take4(b, 12),
            compiler_version: take4(b, 16),
        })
    }
}

impl SectionIrepHeader {
    /// Reads the IREP section header from the first bytes of `b`.
    pub fn from_bytes(b: &[u8]) -> (r: Result<Self, Error>)
        ensures
            b@.len() < IREP_HEADER_SIZE ==> r == Err::<Self, Error>(Error::TooShort),
            b@.len() >= IREP_HEADER_SIZE ==> (r matches Ok(h) && {
                &&& h.ident@ == b@.subrange(0, 4)
                &&& h.size@ == b@.subrange(4, 8)
                &&& h.rite_version@ == b@.subrange(8, 12)
            }),
    {
        if b.len() < IREP_HEADER_SIZE {
            return Err(Error::TooShort);
        }
        Ok(SectionIrepHeader { ident: take4(b, 0), size: take4(b, 4), rite_version: take4(b, 8) })
    }
}

impl SectionMiscHeader {
    /// Reads a section header from the first bytes of `b`.
    pub fn from_bytes(b: &[u8]) -> (r: Result<Self, Error>)
        ensures
            b@.len() < MISC_HEADER_SIZE ==> r == Err::<Self, Error>(Error::TooShort),
            b@.len() >= MISC_HEADER_SIZE ==> (r matches Ok(h) && {
                &&& h.ident@ == b@.subrange(0, 4)
                &&& h.size@ == b@.subrange(4, 8)
            }),
    {
        if b.len() < MISC_HEADER_SIZE {
            return Err(Error::TooShort);
        }
        Ok(SectionMiscHeader { ident: take4(b, 0), size: take4(b, 4) })
    }
}

impl IrepRecord {
    /// Reads the fixed part of an IREP record from the first bytes of `b`.
    pub fn from_bytes(b: &[u8]) -> (r: Result<Self, Error>)
        ensures
            b@.len() < IREP_RECORD_SIZE ==> r == Err::<Self, Error>(Error::TooShort),
            b@.len() >= IREP_RECORD_SIZE ==> (r matches Ok(h) && {
                &&& h.size@ == b@.subrange(0, 4)
                &&& h.nlocals@ == b@.subrange(4, 6)
                &&& h.nregs@ == b@.subrange(6, 8)
                &&& h.rlen@ == b@.subrange(8, 10)
                &&& h.clen@ == b@.subrange(10, 12)
                &&& h.ilen@ == b@.subrange(12, 16)
            }),
    {
        if b.len() < IREP_RECORD_SIZE {
            return Err(Error::TooShort);
        }
        Ok(IrepRecord {
            size: take4(b, 0),
            nlocals: take2(b, 4),
            nregs: take2(b, 6),
            rlen: take2(b, 8),
            clen: take2(b, 10),
            ilen: take4(b, 12),
        })
    }
}

/// Size recorded in a section header at the start of `head`; `TooShort`
/// when fewer than eight bytes remain.
pub open spec fn spec_section_size(head: Seq<u8>) -> Result<usize, Error> {
    if head.len() < MISC_HEADER_SIZE {
        Err(Error::TooShort)
    } else {
        Ok(be32_at(head, 4) as usize)
    }
}

/// Reads the END section: the number of bytes it spans.
pub fn section_end(head: &[u8]) -> (r: Result<usize, Error>)
    ensures
        r == spec_section_size(head@),
{
    let header = SectionMiscHeader::from_bytes(head)?;
    Ok(be32_to_u32(header.size) as usize)
}

/// Skips a section: the number of bytes it spans.
pub fn section_skip(head: &[u8]) -> (r: Result<usize, Error>)
    ensures
        r == spec_section_size(head@),
{
    let header = SectionMiscHeader::from_bytes(head)?;
    Ok(be32_to_u32(header.size) as usize)
}

// ---------------------------------------------------------------------------
// Line maps
// ---------------------------------------------------------------------------

/// Entries are in ascending order of instruction offset.
pub open spec fn lines_sorted(map: Seq<(u32, u32)>) -> bool {
    forall|i: int, j: int| 0 <= i < j < map.len() ==> map[i].0 <= map[j].0
}

/// The source line in force at instruction offset `pos`: the line of the
/// last entry whose offset is at most `pos`, if any.
pub open spec fn spec_line_at(map: Seq<(u32, u32)>, pos: u32) -> Option<u32> {
    let k = map.len() as int;
    if exists|i: int| 0 <= i < k && map[i].0 <= pos {
        let i = choose|i: int|
            0 <= i < k && map[i].0 <= pos && forall|j: int| i < j < k ==> map[j].0 > pos;
        Some(map[i].1)
    } else {
        None
    }
}

/// Source line for an instruction byte offset, from a `lines` map
/// (binary search).
pub fn line_at(map: &[(u32, u32)], pos: u32) -> (r: Option<u32>)
    ensures
        lines_sorted(map@) ==> r == spec_line_at(map@, pos),
{
    let mut lo = 0usize;
    let mut hi = map.len();
    while lo < hi
        invariant
            lo <= hi <= map@.len(),
            lines_sorted(map@) ==> forall|i: int| 0 <= i < lo ==> map@[i].0 <= pos,
            lines_sorted(map@) ==> forall|i: int| hi <= i < map@.len() ==> map@[i].0 > pos,
        decreases hi - lo,
    {
        let mid = lo + (hi - lo) / 2;
        if map[mid].0 <= pos {
            lo = mid + 1;
        } else {
            hi = mid;
        }
    }
    if lo == 0 {
        None
    } else {
        proof {
            if lines_sorted(map@) {
                let k = lo - 1;
                assert(map@[k].0 <= pos);
                assert(forall|j: int| k < j < map@.len() ==> map@[j].0 > pos);
                let c = choose|i: int|
                    0 <= i < map@.len() && map@[i].0 <= pos && forall|j: int|
                        i < j < map@.len() ==> map@[j].0 > pos;
                assert(c == k) by {
                    if c < k {
                        assert(map@[k].0 > pos);
                    } else if c > k {
                        assert(map@[c].0 > pos);
                    }
                }
            }
        }
        Some(map[lo - 1].1)
    }
}

/// Appends `(pos, line)` unless the last entry already has that line.
pub fn push_line(lines: &mut Vec<(u32, u32)>, pos: u32, line: u32)
    ensures
        old(lines)@.len() > 0 && old(lines)@.last().1 == line ==> final(lines)@ == old(lines)@,
        !(old(lines)@.len() > 0 && old(lines)@.last().1 == line) ==> final(lines)@ == old(
            lines,
        )@.push((pos, line)),
{
    let n = lines.len();
    if n > 0 && lines[n - 1].1 == line {
        return;
    }
    lines.push((pos, line));
}

// ---------------------------------------------------------------------------
// Packed integers (7-bit groups, least significant first)
// ---------------------------------------------------------------------------

/// Sum of the low seven bits of the first `k` bytes from `cur`, the `j`-th
/// group weighted by `2^(7j)`.
pub open spec fn packed_value(s: Seq<u8>, cur: int, k: nat) -> int
    decreases k,
{
    if k == 0 {
        0
    } else {
        packed_value(s, cur, (k - 1) as nat) + (s[cur + k - 1] as int % 128) * pow2(
            (7 * (k - 1)) as nat,
        ) as int
    }
}

/// Decoding from the `i`-th byte on: a byte below 0x80 ends the number;
/// input running out is `TooShort`; a fifth continuation byte is
/// `InvalidFormat`. The result is the value modulo 2^32 and the bytes used.
pub open spec fn spec_packed_from(s: Seq<u8>, cur: int, i: nat) -> Result<(u32, usize), Error>
    decreases 5 - i,
{
    if cur + i >= s.len() {
        Err(Error::TooShort)
    } else if s[cur + i] < 128 {
        Ok(((packed_value(s, cur, i + 1) % 0x1_0000_0000) as u32, (i + 1) as usize))
    } else if i + 1 >= 5 {
        Err(Error::InvalidFormat)
    } else {
        spec_packed_from(s, cur, i + 1)
    }
}

pub open spec fn spec_packed_int(s: Seq<u8>, cur: int) -> Result<(u32, usize), Error> {
    spec_packed_from(s, cur, 0)
}

proof fn lemma_packed_bound(s: Seq<u8>, cur: int, k: nat)
    ensures
        0 <= packed_value(s, cur, k) < pow2((7 * k) as nat),
    decreases k,
{
    vstd::arithmetic::power2::lemma2_to64();
    if k > 0 {
        lemma_packed_bound(s, cur, (k - 1) as nat);
        let b = s[cur + k - 1] as int % 128;
        let p = pow2((7 * (k - 1)) as nat) as int;
        let q = packed_value(s, cur, (k - 1) as nat);
        vstd::arithmetic::power2::lemma_pow2_adds((7 * (k - 1)) as nat, 7);
        assert((7 * (k - 1)) as nat + 7 == (7 * k) as nat);
        assert(pow2((7 * k) as nat) == p * 128);
        assert(0 <= b * p <= 127 * p) by (nonlinear_arith)
            requires
                0 <= b < 128,
                p >= 0,
        ;
        assert(packed_value(s, cur, k) == q + b * p);
    }
}

proof fn lemma_group(v: u32, b: u8, i: u32, sh: u32)
    requires
        i <= 4,
        sh == 7 * i,
        (v as int) < pow2(sh as nat),
    ensures
        (v | (((b & 0x7f) as u32) << sh)) as int == (v as int + (b as int % 128) * pow2(
            sh as nat,
        )) % 0x1_0000_0000,
{
    vstd::arithmetic::power2::lemma2_to64();
    if i == 0 {
        assert((v | (((b & 0x7f) as u32) << sh)) as int == (v as int + (b as int % 128) * 1)
            % 0x1_0000_0000) by (bit_vector)
            requires
                v < 1,
                sh == 0,
        ;
    } else if i == 1 {
        assert((v | (((b & 0x7f) as u32) << sh)) as int == (v as int + (b as int % 128) * 128)
            % 0x1_0000_0000) by (bit_vector)
            requires
                v < 128,
                sh == 7,
        ;
    } else if i == 2 {
        assert((v | (((b & 0x7f) as u32) << sh)) as int == (v as int + (b as int % 128)
            * 16384) % 0x1_0000_0000) by (bit_vector)
            requires
                v < 16384,
                sh == 14,
        ;
    } else if i == 3 {
        assert((v | (((b & 0x7f) as u32) << sh)) as int == (v as int + (b as int % 128)
            * 2097152) % 0x1_0000_0000) by (bit_vector)
            requires
                v < 2097152,
                sh == 21,
        ;
    } else {
        assert((v | (((b & 0x7f) as u32) << sh)) as int == (v as int + (b as int % 128)
            * 268435456) % 0x1_0000_0000) by (bit_vector)
            requires
                v < 268435456,
                sh == 28,
        ;
    }
}

proof fn lemma_packed_len(s: Seq<u8>, cur: int, i: nat)
    requires
        0 <= cur,
        i <= 4,
    ensures
        match spec_packed_from(s, cur, i) {
            Ok((_, u)) => 1 <= u && cur + u <= s.len(),
            Err(_) => true,
        },
    decreases 5 - i,
{
    if cur + i < s.len() && s[cur + i] >= 128 && i + 1 < 5 {
        lemma_packed_len(s, cur, i + 1);
    }
}

/// 7-bit varint used by packed line maps (mirrors `mrc_packed_int_decode`):
/// the value and the number of bytes it took.
pub fn decode_packed_int(head: &[u8], cur: usize) -> (r: Result<(u32, usize), Error>)
    ensures
        r == spec_packed_int(head@, cur as int),
{
    let mut value: u32 = 0;
    let mut shift = 0u32;
    let mut i = 0usize;
    loop
        invariant
            i <= 4,
            shift == 7 * i,
            value as int == packed_value(head@, cur as int, i as nat),
            spec_packed_int(head@, cur as int) == spec_packed_from(head@, cur as int, i as nat),
        decreases 5 - i,
    {
        if cur >= head.len() || head.len() - cur <= i {
            return Err(Error::TooShort);
        }
        let byte = head[cur + i];
        proof {
            lemma_packed_bound(head@, cur as int, i as nat);
            lemma_group(value, byte, i as u32, shift);
            lemma_packed_bound(head@, cur as int, (i + 1) as nat);
            vstd::arithmetic::power2::lemma2_to64();
        }
        value |= ((byte & 0x7f) as u32) << shift;
        i += 1;
        if byte & 0x80 == 0 {
            assert((byte & 0x80) == 0 <==> byte < 128) by (bit_vector);
            return Ok((value, i));
        }
        assert((byte & 0x80) != 0 <==> byte >= 128) by (bit_vector);
        shift += 7;
        if shift >= 32 {
            return Err(Error::InvalidFormat);
        }
        proof {
            vstd::arithmetic::power2::lemma_pow2_strictly_increases((7 * i) as nat, 32);
        }
    }
}

// ---------------------------------------------------------------------------
// Parsed records and their models
// ---------------------------------------------------------------------------

/// How a decoding step ends: reading past the input (where the loader has
/// no defined result), a format error, or a value.
pub enum Step<T> {
    Abort,
    Fail(Error),
    Done(T),
}

/// One constant-pool entry. Strings carry their bytes without the trailing
/// NUL; a float is kept as the bits of its IEEE-754 encoding.
#[derive(Debug, Clone)]
pub enum PoolValue {
    Str(Vec<u8>),
    Int32(i32),
    SStr(Vec<u8>),
    Int64(i64),
    Float(u64),
    BigInt(Vec<u8>),
}

pub enum PoolModel {
    Str(Seq<u8>),
    Int32(i32),
    SStr(Seq<u8>),
    Int64(i64),
    Float(u64),
    BigInt(Seq<u8>),
}

impl View for PoolValue {
    type V = PoolModel;

    open spec fn view(&self) -> PoolModel {
        match self {
            PoolValue::Str(b) => PoolModel::Str(b@),
            PoolValue::Int32(v) => PoolModel::Int32(*v),
            PoolValue::SStr(b) => PoolModel::SStr(b@),
            PoolValue::Int64(v) => PoolModel::Int64(*v),
            PoolValue::Float(v) => PoolModel::Float(*v),
            PoolValue::BigInt(b) => PoolModel::BigInt(b@),
        }
    }
}

/// An exception-handler range of an IREP.
#[derive(Debug, Clone, Copy)]
pub struct CatchHandler {
    pub type_: u8,
    pub start: usize,
    pub end: usize,
    pub target: usize,
}

/// One compiled procedure body.
#[derive(Debug)]
pub struct Irep<'a> {
    pub header: IrepRecord,
    pub insn: &'a [u8],
    pub plen: usize,
    pub pool: Vec<PoolValue>,
    pub slen: usize,
    pub syms: Vec<Vec<u8>>,
    pub catch_handlers: Vec<CatchHandler>,
    /// Local variable names, register 1 first; `None` for an unnamed slot.
    pub lv: Vec<Option<Vec<u8>>>,
    /// Source line changes (instruction-byte offset, line), as the debug
    /// records give them (see `push_line`).
    /// Empty when the blob was compiled without debug info.
    pub lines: Vec<(u32, u32)>,
}

pub struct IrepModel {
    pub size: int,
    pub nlocals: int,
    pub nregs: int,
    pub rlen: int,
    pub clen: int,
    pub ilen: int,
    pub insn: Seq<u8>,
    pub plen: int,
    pub pool: Seq<PoolModel>,
    pub slen: int,
    pub syms: Seq<Seq<u8>>,
    pub handlers: Seq<CatchHandler>,
    pub lv: Seq<Option<Seq<u8>>>,
    pub lines: Seq<(u32, u32)>,
}

pub open spec fn opt_bytes(o: Option<Vec<u8>>) -> Option<Seq<u8>> {
    match o {
        Some(b) => Some(b@),
        None => None,
    }
}

impl<'a> View for Irep<'a> {
    type V = IrepModel;

    open spec fn view(&self) -> IrepModel {
        IrepModel {
            size: be32_at(self.header.size@, 0),
            nlocals: be16_at(self.header.nlocals@, 0),
            nregs: be16_at(self.header.nregs@, 0),
            rlen: be16_at(self.header.rlen@, 0),
            clen: be16_at(self.header.clen@, 0),
            ilen: be32_at(self.header.ilen@, 0),
            insn: self.insn@,
            plen: self.plen as int,
            pool: self.pool@.map_values(|p: PoolValue| p@),
            slen: self.slen as int,
            syms: self.syms@.map_values(|b: Vec<u8>| b@),
            handlers: self.catch_handlers@,
            lv: self.lv@.map_values(|o: Option<Vec<u8>>| opt_bytes(o)),
            lines: self.lines@,
        }
    }
}

pub open spec fn ireps_model<'a>(ireps: Seq<Irep<'a>>) -> Seq<IrepModel> {
    ireps.map_values(|i: Irep<'a>| i@)
}

impl<'a> Irep<'a> {
    pub fn nlocals(&self) -> (r: usize)
        ensures
            r as int == self@.nlocals,
    {
        be16_to_u16(self.header.nlocals) as usize
    }

    pub fn nregs(&self) -> (r: usize)
        ensures
            r as int == self@.nregs,
    {
        be16_to_u16(self.header.nregs) as usize
    }

    pub fn rlen(&self) -> (r: usize)
        ensures
            r as int == self@.rlen,
    {
        be16_to_u16(self.header.rlen) as usize
    }

    pub fn clen(&self) -> (r: usize)
        ensures
            r as int == self@.clen,
    {
        be16_to_u16(self.header.clen) as usize
    }
}

// ---------------------------------------------------------------------------
// IREP section
// ---------------------------------------------------------------------------

/// Little-endian 64-bit number at `s[i..i + 8]`.
pub open spec fn le64_at(s: Seq<u8>, i: int) -> int {
    s[i] as int + s[i + 1] as int * 0x100 + s[i + 2] as int * 0x1_0000 + s[i + 3] as int
        * 0x100_0000 + s[i + 4] as int * 0x1_0000_0000 + s[i + 5] as int * 0x100_0000_0000
        + s[i + 6] as int * 0x1_0000_0000_0000 + s[i + 7] as int * 0x100_0000_0000_0000
}

/// A NUL-terminated string with no interior NUL.
pub open spec fn cstr_ok(b: Seq<u8>) -> bool {
    &&& b.len() >= 1
    &&& b.last() == 0
    &&& forall|i: int| 0 <= i < b.len() - 1 ==> b[i] != 0
}

/// A string of `n` bytes (NUL included) at `p`: its bytes without the NUL
/// and the position after it.
pub open spec fn spec_cstr(s: Seq<u8>, p: int, n: int) -> Step<(Seq<u8>, int)> {
    if p + n > s.len() {
        Step::Abort
    } else if cstr_ok(s.subrange(p, p + n)) {
        Step::Done((s.subrange(p, p + n - 1), p + n))
    } else {
        Step::Fail(Error::InvalidFormat)
    }
}

/// A length-prefixed (big-endian u16, NUL not counted) string at `p`.
pub open spec fn spec_lstr(s: Seq<u8>, p: int) -> Step<(Seq<u8>, int)> {
    if p + 2 > s.len() {
        Step::Abort
    } else {
        spec_cstr(s, p + 2, be16_at(s, p) + 1)
    }
}

pub open spec fn handler_at(s: Seq<u8>, p: int) -> CatchHandler {
    CatchHandler {
        type_: s[p],
        start: be32_at(s, p + 1) as usize,
        end: be32_at(s, p + 5) as usize,
        target: be32_at(s, p + 9) as usize,
    }
}

/// `n` catch handlers from `p`.
pub open spec fn spec_handlers(s: Seq<u8>, p: int, n: nat) -> Step<(Seq<CatchHandler>, int)>
    decreases n,
{
    if n == 0 {
        Step::Done((seq![], p))
    } else {
        match spec_handlers(s, p, (n - 1) as nat) {
            Step::Done((hs, q)) => if q + 13 > s.len() {
                Step::Abort
            } else {
                Step::Done((hs.push(handler_at(s, q)), q + 13))
            },
            Step::Fail(e) => Step::Fail(e),
            Step::Abort => Step::Abort,
        }
    }
}

proof fn lemma_be32_range(s: Seq<u8>, i: int)
    requires
        0 <= i,
        i + 4 <= s.len(),
    ensures
        0 <= be32_at(s, i) < 0x1_0000_0000,
{
    let (a, b, c, d) = (s[i], s[i + 1], s[i + 2], s[i + 3]);
    assert(0 <= (a as int) * 16777216 + (b as int) * 65536 + (c as int) * 256 + (d as int) < 0x1_0000_0000)
        by (nonlinear_arith)
        requires
            a < 256,
            b < 256,
            c < 256,
            d < 256,
    ;
}

/// `n` handlers decoded from `p` occupy `13 * n` bytes; the `i`-th is read
/// from offset `p + 13 * i`.
proof fn lemma_handlers_layout(s: Seq<u8>, p: int, n: nat)
    ensures
        match spec_handlers(s, p, n) {
            Step::Done((hs, q)) => {
                &&& hs.len() == n
                &&& q == p + 13 * n
                &&& forall|i: int| 0 <= i < n ==> p + 13 * i + 13 <= s.len() && #[trigger] hs[i] == handler_at(s, p + 13 * i)
            },
            _ => true,
        },
    decreases n,
{
    if n > 0 {
        lemma_handlers_layout(s, p, (n - 1) as nat);
    }
}

/// A loaded record's catch handlers are its 13-byte handler entries, as
/// many as the header's handler count, stored right after the instructions.
/// Each entry is read in file order: a type byte, then the big-endian
/// `start`, `end` and `target` offsets, so the protected range runs from
/// the number at bytes 1..5 of the entry to the one at bytes 5..9.
pub proof fn law_record_catch_handlers(s: Seq<u8>, c: int)
    requires
        0 <= c,
    ensures
        match spec_record(s, c) {
            Step::Done((m, _)) => {
                let h0 = c + 16 + be32_at(s, c + 12);
                &&& m.handlers.len() == be16_at(s, c + 10)
                &&& forall|i: int| 0 <= i < m.handlers.len() ==> {
                    let e = h0 + 13 * i;
                    &&& e + 13 <= s.len()
                    &&& (#[trigger] m.handlers[i]).type_ == s[e]
                    &&& m.handlers[i].start as int == be32_at(s, e + 1)
                    &&& m.handlers[i].end as int == be32_at(s, e + 5)
                    &&& m.handlers[i].target as int == be32_at(s, e + 9)
                }
            },
            _ => true,
        },
{
    reveal(spec_record);
    if c + IREP_RECORD_SIZE <= s.len() {
        let h0 = c + 16 + be32_at(s, c + 12);
        let n = be16_at(s, c + 10) as nat;
        lemma_be32_range(s, c + 12);
        lemma_handlers_layout(s, h0, n);
        if let Step::Done((m, _)) = spec_record(s, c) {
            if let Step::Done((hs, p)) = spec_handlers(s, h0, n) {
                assert(m.handlers == hs);
                assert forall|i: int| 0 <= i < m.handlers.len() implies {
                    let e = h0 + 13 * i;
                    &&& e + 13 <= s.len()
                    &&& (#[trigger] m.handlers[i]).type_ == s[e]
                    &&& m.handlers[i].start as int == be32_at(s, e + 1)
                    &&& m.handlers[i].end as int == be32_at(s, e + 5)
                    &&& m.handlers[i].target as int == be32_at(s, e + 9)
                } by {
                    let e = h0 + 13 * i;
                    assert(hs[i] == handler_at(s, e));
                    lemma_be32_range(s, e + 1);
                    lemma_be32_range(s, e + 5);
                    lemma_be32_range(s, e + 9);
                }
            }
        }
    }
}

proof fn lemma_pool_len(s: Seq<u8>, p: int, n: nat)
    ensures
        spec_pool(s, p, n) matches Step::Done((ps, _)) ==> ps.len() == n,
    decreases n,
{
    if n > 0 {
        lemma_pool_len(s, p, (n - 1) as nat);
    }
}

proof fn lemma_syms_len(s: Seq<u8>, p: int, n: nat)
    ensures
        spec_syms(s, p, n) matches Step::Done((ss, _)) ==> ss.len() == n,
    decreases n,
{
    if n > 0 {
        lemma_syms_len(s, p, (n - 1) as nat);
    }
}

/// A loaded record follows its 16-byte header: the big-endian record size
/// (bytes 0..4), local count (4..6), register count (6..8), child count
/// (8..10), handler count (10..12) and instruction length (12..16). The
/// instructions are the bytes right after the header; the pool follows the
/// handlers with its big-endian entry count in front and holds that many
/// entries; the symbol list holds as many names as its count says; the
/// next record starts `size` bytes after this one.
pub proof fn law_record_header(s: Seq<u8>, c: int)
    requires
        0 <= c,
    ensures
        match spec_record(s, c) {
            Step::Done((m, next)) => {
                let ilen = be32_at(s, c + 12);
                let pp = c + 16 + ilen + 13 * be16_at(s, c + 10);
                &&& c + 16 + ilen <= s.len()
                &&& m.size == be32_at(s, c)
                &&& m.nlocals == be16_at(s, c + 4)
                &&& m.nregs == be16_at(s, c + 6)
                &&& m.rlen == be16_at(s, c + 8)
                &&& m.clen == be16_at(s, c + 10)
                &&& m.ilen == ilen
                &&& m.insn == s.subrange(c + 16, c + 16 + ilen)
                &&& pp + 2 <= s.len()
                &&& m.plen == be16_at(s, pp)
                &&& m.pool.len() == m.plen
                &&& m.syms.len() == m.slen
                &&& next == c + m.size
            },
            _ => true,
        },
{
    reveal(spec_record);
    if c + IREP_RECORD_SIZE <= s.len() {
        let h0 = c + 16 + be32_at(s, c + 12);
        let n = be16_at(s, c + 10) as nat;
        lemma_be32_range(s, c + 12);
        lemma_handlers_layout(s, h0, n);
        if let Step::Done((hs, p)) = spec_handlers(s, h0, n) {
            if p + 2 <= s.len() {
                lemma_pool_len(s, p + 2, be16_at(s, p) as nat);
                if let Step::Done((pool, q)) = spec_pool(s, p + 2, be16_at(s, p) as nat) {
                    if q + 2 <= s.len() {
                        lemma_syms_len(s, q + 2, be16_at(s, q) as nat);
                    }
                }
            }
        }
    }
}

/// One tagged pool entry at `p`.
pub open spec fn spec_pool_entry(s: Seq<u8>, p: int) -> Step<(PoolModel, int)> {
    if p + 1 > s.len() {
        Step::Abort
    } else {
        let q = p + 1;
        let t = s[p];
        if t == 0 || t == 2 {
            match spec_lstr(s, q) {
                Step::Done((b, r)) => Step::Done(
                    (if t == 0 {
                        PoolModel::Str(b)
                    } else {
                        PoolModel::SStr(b)
                    }, r),
                ),
                Step::Fail(e) => Step::Fail(e),
                Step::Abort => Step::Abort,
            }
        } else if t == 1 {
            if q + 4 > s.len() {
                Step::Abort
            } else {
                Step::Done((PoolModel::Int32(be32_at(s, q) as i32), q + 4))
            }
        } else if t == 3 {
            if q + 8 > s.len() {
                Step::Abort
            } else {
                Step::Done((PoolModel::Int64(le64_at(s, q) as i64), q + 8))
            }
        } else if t == 5 {
            if q + 8 > s.len() {
                Step::Abort
            } else {
                Step::Done((PoolModel::Float(le64_at(s, q) as u64), q + 8))
            }
        } else if t == 7 {
            if q + 2 > s.len() {
                Step::Abort
            } else {
                let n = be16_at(s, q);
                if q + 2 + n > s.len() {
                    Step::Abort
                } else {
                    Step::Done((PoolModel::BigInt(s.subrange(q + 2, q + 2 + n)), q + 2 + n))
                }
            }
        } else {
            Step::Fail(Error::UnknownPoolType(t))
        }
    }
}

/// `n` pool entries from `p`.
pub open spec fn spec_pool(s: Seq<u8>, p: int, n: nat) -> Step<(Seq<PoolModel>, int)>
    decreases n,
{
    if n == 0 {
        Step::Done((seq![], p))
    } else {
        match spec_pool(s, p, (n - 1) as nat) {
            Step::Done((ps, q)) => match spec_pool_entry(s, q) {
                Step::Done((v, r)) => Step::Done((ps.push(v), r)),
                Step::Fail(e) => Step::Fail(e),
                Step::Abort => Step::Abort,
            },
            Step::Fail(e) => Step::Fail(e),
            Step::Abort => Step::Abort,
        }
    }
}

/// `n` length-prefixed symbol names from `p`.
pub open spec fn spec_syms(s: Seq<u8>, p: int, n: nat) -> Step<(Seq<Seq<u8>>, int)>
    decreases n,
{
    if n == 0 {
        Step::Done((seq![], p))
    } else {
        match spec_syms(s, p, (n - 1) as nat) {
            Step::Done((ss, q)) => match spec_lstr(s, q) {
                Step::Done((v, r)) => Step::Done((ss.push(v), r)),
                Step::Fail(e) => Step::Fail(e),
                Step::Abort => Step::Abort,
            },
            Step::Fail(e) => Step::Fail(e),
            Step::Abort => Step::Abort,
        }
    }
}

/// The symbol table that closes a record, from `p`.
pub open spec fn spec_record_syms(s: Seq<u8>, c: int, insn: Seq<u8>, hs: Seq<CatchHandler>, plen: int, pool: Seq<PoolModel>, p: int) -> Step<(IrepModel, int)> {
    if p + 2 > s.len() {
        Step::Abort
    } else {
        let slen = be16_at(s, p);
        match spec_syms(s, p + 2, slen as nat) {
            Step::Done((syms, _)) => Step::Done(
                (IrepModel {
                    size: be32_at(s, c),
                    nlocals: be16_at(s, c + 4),
                    nregs: be16_at(s, c + 6),
                    rlen: be16_at(s, c + 8),
                    clen: be16_at(s, c + 10),
                    ilen: be32_at(s, c + 12),
                    insn,
                    plen,
                    pool,
                    slen,
                    syms,
                    handlers: hs,
                    lv: seq![],
                    lines: seq![],
                }, c + be32_at(s, c)),
            ),
            Step::Fail(e) => Step::Fail(e),
            Step::Abort => Step::Abort,
        }
    }
}

/// The pool and symbols of a record, from `p`.
pub open spec fn spec_record_pool(s: Seq<u8>, c: int, insn: Seq<u8>, hs: Seq<CatchHandler>, p: int) -> Step<(IrepModel, int)> {
    if p + 2 > s.len() {
        Step::Abort
    } else {
        let plen = be16_at(s, p);
        match spec_pool(s, p + 2, plen as nat) {
            Step::Done((pool, q)) => spec_record_syms(s, c, insn, hs, plen, pool, q),
            Step::Fail(e) => Step::Fail(e),
            Step::Abort => Step::Abort,
        }
    }
}

/// One IREP record at `c`: the record and where the next one starts
/// (`c` plus the record's declared size).
#[verifier::opaque]
pub open spec fn spec_record(s: Seq<u8>, c: int) -> Step<(IrepModel, int)> {
    if c + IREP_RECORD_SIZE > s.len() {
        Step::Abort
    } else {
        let ilen = be32_at(s, c + 12);
        let p0 = c + IREP_RECORD_SIZE;
        if p0 + ilen > s.len() {
            Step::Abort
        } else {
            let insn = s.subrange(p0, p0 + ilen);
            match spec_handlers(s, p0 + ilen, be16_at(s, c + 10) as nat) {
                Step::Done((hs, p)) => spec_record_pool(s, c, insn, hs, p),
                Step::Fail(e) => Step::Fail(e),
                Step::Abort => Step::Abort,
            }
        }
    }
}

/// Records from `cur` while `cur < end`. A record that does not move the
/// cursor forward, or moves it past the address space, would never end.
pub open spec fn spec_ireps(s: Seq<u8>, cur: int, end: int) -> Step<Seq<IrepModel>>
    decreases end - cur,
{
    if cur >= end {
        Step::Done(seq![])
    } else {
        match spec_record(s, cur) {
            Step::Done((m, next)) => if next <= cur || next > usize::MAX {
                Step::Abort
            } else if next >= end {
                Step::Done(seq![m])
            } else {
                match spec_ireps(s, next, end) {
                    Step::Done(rest) => Step::Done(seq![m] + rest),
                    Step::Fail(e) => Step::Fail(e),
                    Step::Abort => Step::Abort,
                }
            },
            Step::Fail(e) => Step::Fail(e),
            Step::Abort => Step::Abort,
        }
    }
}

/// The IREP section at the start of `head`: its size and records.
pub open spec fn spec_section_irep(head: Seq<u8>) -> Step<(int, Seq<IrepModel>)> {
    if head.len() < IREP_HEADER_SIZE {
        Step::Abort
    } else {
        let size = be32_at(head, 4);
        if head.len() < size {
            Step::Fail(Error::TooShort)
        } else {
            match spec_ireps(head, IREP_HEADER_SIZE as int, size) {
                Step::Done(irs) => Step::Done((size, irs)),
                Step::Fail(e) => Step::Fail(e),
                Step::Abort => Step::Abort,
            }
        }
    }
}

proof fn lemma_handlers_stuck(s: Seq<u8>, p: int, i: nat, n: nat)
    requires
        i <= n,
        spec_handlers(s, p, i) !is Done,
    ensures
        spec_handlers(s, p, n) == spec_handlers(s, p, i),
    decreases n,
{
    if n > i {
        lemma_handlers_stuck(s, p, i, (n - 1) as nat);
    }
}

proof fn lemma_pool_stuck(s: Seq<u8>, p: int, i: nat, n: nat)
    requires
        i <= n,
        spec_pool(s, p, i) !is Done,
    ensures
        spec_pool(s, p, n) == spec_pool(s, p, i),
    decreases n,
{
    if n > i {
        lemma_pool_stuck(s, p, i, (n - 1) as nat);
    }
}

proof fn lemma_syms_stuck(s: Seq<u8>, p: int, i: nat, n: nat)
    requires
        i <= n,
        spec_syms(s, p, i) !is Done,
    ensures
        spec_syms(s, p, n) == spec_syms(s, p, i),
    decreases n,
{
    if n > i {
        lemma_syms_stuck(s, p, i, (n - 1) as nat);
    }
}

/// Reads `n` bytes at `p` as a NUL-terminated string without interior NUL.
fn read_cstr(head: &[u8], p: usize, n: usize) -> (r: Result<(Vec<u8>, usize), Error>)
    requires
        spec_cstr(head@, p as int, n as int) !is Abort,
    ensures
        match spec_cstr(head@, p as int, n as int) {
            Step::Done((b, q)) => r matches Ok((v, q2)) && v@ == b && q2 == q,
            Step::Fail(e) => r == Err::<(Vec<u8>, usize), Error>(e),
            Step::Abort => false,
        },
{
    let len = head.len();
    if n == 0 {
        return Err(Error::InvalidFormat);
    }
    let last = p + (n - 1);
    if head[last] != 0 {
        return Err(Error::InvalidFormat);
    }
    let mut out: Vec<u8> = Vec::new();
    let mut i = 0usize;
    while i < n - 1
        invariant
            len == head@.len(),
            p + n <= head@.len(),
            n >= 1,
            i <= n - 1,
            out@ == head@.subrange(p as int, p + i),
            forall|k: int| 0 <= k < i ==> out@[k] != 0,
        decreases n - 1 - i,
    {
        let at = p + i;
        let b = head[at];
        if b == 0 {
            assert(head@.subrange(p as int, p + n)[i as int] == 0);
            return Err(Error::InvalidFormat);
        }
        out.push(b);
        i += 1;
        assert(out@ =~= head@.subrange(p as int, p + i));
    }
    assert(cstr_ok(head@.subrange(p as int, p + n)));
    Ok((out, p + n))
}

/// Reads a length-prefixed string at `p`.
fn read_lstr(head: &[u8], p: usize) -> (r: Result<(Vec<u8>, usize), Error>)
    requires
        spec_lstr(head@, p as int) !is Abort,
    ensures
        match spec_lstr(head@, p as int) {
            Step::Done((b, q)) => r matches Ok((v, q2)) && v@ == b && q2 == q,
            Step::Fail(e) => r == Err::<(Vec<u8>, usize), Error>(e),
            Step::Abort => false,
        },
{
    let n = be16_to_u16([head[p], head[p + 1]]) as usize + 1;
    read_cstr(head, p + 2, n)
}

fn le64(head: &[u8], q: usize) -> (r: u64)
    requires
        q + 8 <= head@.len(),
    ensures
        r as int == le64_at(head@, q as int),
{
    head[q] as u64 + head[q + 1] as u64 * 0x100 + head[q + 2] as u64 * 0x1_0000 + head[q + 3] as u64
        * 0x100_0000 + head[q + 4] as u64 * 0x1_0000_0000 + head[q + 5] as u64 * 0x100_0000_0000
        + head[q + 6] as u64 * 0x1_0000_0000_0000 + head[q + 7] as u64 * 0x100_0000_0000_0000
}

/// Reads one tagged constant-pool entry at `p`.
fn read_pool_entry(head: &[u8], p: usize) -> (r: Result<(PoolValue, usize), Error>)
    requires
        spec_pool_entry(head@, p as int) !is Abort,
    ensures
        match spec_pool_entry(head@, p as int) {
            Step::Done((m, q)) => r matches Ok((v, q2)) && v@ == m && q2 == q,
            Step::Fail(e) => r == Err::<(PoolValue, usize), Error>(e),
            Step::Abort => false,
        },
{
    let typ = head[p];
    let q = p + 1;
    match typ {
        0 | 2 => {
            let (b, r) = read_lstr(head, q)?;
            if typ == 0 {
                Ok((PoolValue::Str(b), r))
            } else {
                Ok((PoolValue::SStr(b), r))
            }
        },
        1 => {
            let v = be32_to_u32([head[q], head[q + 1], head[q + 2], head[q + 3]]);
            Ok((PoolValue::Int32(v as i32), q + 4))
        },
        3 => {
            let v = le64(head, q);
            Ok((PoolValue::Int64(v as i64), q + 8))
        },
        5 => {
            let v = le64(head, q);
            Ok((PoolValue::Float(v), q + 8))
        },
        7 => {
            let n = be16_to_u16([head[q], head[q + 1]]) as usize;
            let data = vstd::slice::slice_to_vec(&head[q + 2..q + 2 + n]);
            Ok((PoolValue::BigInt(data), q + 2 + n))
        },
        v => Err(Error::UnknownPoolType(v)),
    }
}

/// Reads one IREP record at `c`: the record and its declared size.
fn read_record<'a>(head: &'a [u8], c: usize) -> (r: Result<(Irep<'a>, usize), Error>)
    requires
        spec_record(head@, c as int) !is Abort,
    ensures
        match spec_record(head@, c as int) {
            Step::Done((m, next)) => r matches Ok((ir, sz)) && ir@ == m && c + sz == next,
            Step::Fail(e) => r == Err::<(Irep<'a>, usize), Error>(e),
            Step::Abort => false,
        },
{
    reveal(spec_record);
    let ghost s = head@;
    let len = head.len();
    let record = IrepRecord::from_bytes(&head[c..c + IREP_RECORD_SIZE])?;
    let rec_size = be32_to_u32(record.size) as usize;
    let ilen = be32_to_u32(record.ilen) as usize;
    let clen = be16_to_u16(record.clen) as usize;
    assert(be32_at(record.size@, 0) == be32_at(s, c as int));
    assert(be32_at(record.ilen@, 0) == be32_at(s, c + 12));
    assert(be16_at(record.clen@, 0) == be16_at(s, c + 10));
    assert(be16_at(record.nlocals@, 0) == be16_at(s, c + 4));
    assert(be16_at(record.nregs@, 0) == be16_at(s, c + 6));
    assert(be16_at(record.rlen@, 0) == be16_at(s, c + 8));
    let p0 = c + IREP_RECORD_SIZE;
    let insns = &head[p0..p0 + ilen];
    let p1 = p0 + ilen;

    // catch handlers
    let mut cur = p1;
    let mut handlers: Vec<CatchHandler> = Vec::new();
    let mut i = 0usize;
    assert(spec_handlers(s, p1 as int, clen as nat) !is Abort);
    while i < clen
        invariant
            len == s.len(),
            s == head@,
            i <= clen,
            cur <= len,
            spec_handlers(s, p1 as int, i as nat) == Step::Done((handlers@, cur as int)),
            spec_handlers(s, p1 as int, clen as nat) !is Abort,
        decreases clen - i,
    {
        if len - cur < CATCH_HANDLER_SIZE {
            proof {
                lemma_handlers_stuck(s, p1 as int, (i + 1) as nat, clen as nat);
            }
            assert(false);
        }
        let h = CatchHandler {
            type_: head[cur],
            start: be32_to_u32([head[cur + 1], head[cur + 2], head[cur + 3], head[cur + 4]]) as usize,
            end: be32_to_u32([head[cur + 5], head[cur + 6], head[cur + 7], head[cur + 8]]) as usize,
            target: be32_to_u32([head[cur + 9], head[cur + 10], head[cur + 11], head[cur + 12]]) as usize,
        };
        handlers.push(h);
        cur += CATCH_HANDLER_SIZE;
        i += 1;
    }

    // pool
    assert(spec_record_pool(s, c as int, insns@, handlers@, cur as int) !is Abort);
    if cur + 2 > len {
        assert(false);
    }
    let plen = be16_to_u16([head[cur], head[cur + 1]]) as usize;
    let p2 = cur + 2;
    cur = p2;
    let mut pool: Vec<PoolValue> = Vec::new();
    i = 0;
    assert(pool@.map_values(|v: PoolValue| v@) =~= seq![]);
    while i < plen
        invariant
            len == s.len(),
            s == head@,
            i <= plen,
            spec_pool(s, p2 as int, i as nat) == Step::Done(
                (pool@.map_values(|v: PoolValue| v@), cur as int),
            ),
            spec_pool(s, p2 as int, plen as nat) !is Abort,
            match spec_pool(s, p2 as int, plen as nat) {
                Step::Fail(e) => spec_record(s, c as int) == Step::<(IrepModel, int)>::Fail(e),
                _ => true,
            },
        decreases plen - i,
    {
        let ghost before = pool@.map_values(|v: PoolValue| v@);
        proof {
            if spec_pool_entry(s, cur as int) is Abort {
                lemma_pool_stuck(s, p2 as int, (i + 1) as nat, plen as nat);
            }
        }
        match read_pool_entry(head, cur) {
            Ok((v, q)) => {
                pool.push(v);
                cur = q;
                assert(pool@.map_values(|v: PoolValue| v@) =~= before.push(v@));
            },
            Err(e) => {
                proof {
                    lemma_pool_stuck(s, p2 as int, (i + 1) as nat, plen as nat);
                }
                return Err(e);
            },
        }
        i += 1;
    }

    // symbols
    let ghost pool_m = pool@.map_values(|v: PoolValue| v@);
    assert(spec_record_syms(s, c as int, insns@, handlers@, plen as int, pool_m, cur as int) == spec_record(s, c as int));
    if cur + 2 > len {
        assert(false);
    }
    let slen = be16_to_u16([head[cur], head[cur + 1]]) as usize;
    let p3 = cur + 2;
    cur = p3;
    let mut syms: Vec<Vec<u8>> = Vec::new();
    i = 0;
    assert(syms@.map_values(|b: Vec<u8>| b@) =~= seq![]);
    while i < slen
        invariant
            len == s.len(),
            s == head@,
            i <= slen,
            spec_syms(s, p3 as int, i as nat) == Step::Done(
                (syms@.map_values(|b: Vec<u8>| b@), cur as int),
            ),
            spec_syms(s, p3 as int, slen as nat) !is Abort,
            match spec_syms(s, p3 as int, slen as nat) {
                Step::Fail(e) => spec_record(s, c as int) == Step::<(IrepModel, int)>::Fail(e),
                _ => true,
            },
        decreases slen - i,
    {
        let ghost before = syms@.map_values(|b: Vec<u8>| b@);
        proof {
            if spec_lstr(s, cur as int) is Abort {
                lemma_syms_stuck(s, p3 as int, (i + 1) as nat, slen as nat);
            }
        }
        match read_lstr(head, cur) {
            Ok((b, q)) => {
                syms.push(b);
                cur = q;
                assert(syms@.map_values(|b: Vec<u8>| b@) =~= before.push(b@));
            },
            Err(e) => {
                proof {
                    lemma_syms_stuck(s, p3 as int, (i + 1) as nat, slen as nat);
                }
                return Err(e);
            },
        }
        i += 1;
    }
    let irep = Irep {
        header: record,
        insn: insns,
        plen,
        pool,
        slen,
        syms,
        catch_handlers: handlers,
        lv: Vec::new(),
        lines: Vec::new(),
    };
    assert(irep@.lv =~= seq![]);
    Ok((irep, rec_size))
}

pub open spec fn step_prepend(acc: Seq<IrepModel>, st: Step<Seq<IrepModel>>) -> Step<Seq<IrepModel>> {
    match st {
        Step::Done(rest) => Step::Done(acc + rest),
        Step::Fail(e) => Step::Fail(e),
        Step::Abort => Step::Abort,
    }
}

/// Reads the IREP section at the start of `head`: the section size, its
/// header and its records in file order.
pub fn section_irep_1<'a>(head: &'a [u8]) -> (r: Result<(usize, SectionIrepHeader, Vec<Irep<'a>>), Error>)
    requires
        spec_section_irep(head@) !is Abort,
    ensures
        match spec_section_irep(head@) {
            Step::Done((size, irs)) => r matches Ok((sz, h, v)) && {
                &&& sz == size
                &&& ireps_model(v@) == irs
                &&& h.ident@ == head@.subrange(0, 4)
                &&& h.size@ == head@.subrange(4, 8)
                &&& h.rite_version@ == head@.subrange(8, 12)
            },
            Step::Fail(e) => r == Err::<(usize, SectionIrepHeader, Vec<Irep<'a>>), Error>(e),
            Step::Abort => false,
        },
{
    let ghost s = head@;
    let len = head.len();
    let irep_header = SectionIrepHeader::from_bytes(&head[0..IREP_HEADER_SIZE])?;
    let irep_size = be32_to_u32(irep_header.size) as usize;
    assert(be32_at(irep_header.size@, 0) == be32_at(s, 4));
    if len < irep_size {
        return Err(Error::TooShort);
    }
    let mut cur = IREP_HEADER_SIZE;
    let mut ireps: Vec<Irep<'a>> = Vec::new();
    assert(ireps_model(ireps@) =~= seq![]);
    while cur < irep_size
        invariant
            s == head@,
            len == s.len(),
            irep_size <= len,
            irep_size as int == be32_at(s, 4),
            spec_ireps(s, IREP_HEADER_SIZE as int, irep_size as int) == step_prepend(
                ireps_model(ireps@),
                spec_ireps(s, cur as int, irep_size as int),
            ),
            spec_ireps(s, IREP_HEADER_SIZE as int, irep_size as int) !is Abort,
        decreases usize::MAX - cur,
    {
        let ghost before = ireps_model(ireps@);
        assert(spec_record(s, cur as int) !is Abort);
        let (irep, rec_size) = read_record(head, cur)?;
        if rec_size == 0 {
            assert(false);
        }
        if usize::MAX - cur < rec_size {
            assert(false);
        }
        ireps.push(irep);
        assert(ireps_model(ireps@) =~= before.push(irep@));
        cur = cur + rec_size;
        proof {
            if cur as int >= irep_size {
                assert(spec_ireps(s, cur as int, irep_size as int) == Step::<Seq<IrepModel>>::Done(seq![]));
                assert(before.push(irep@) =~= before + seq![irep@] + seq![]);
            } else {
                assert(before + (seq![irep@] + spec_ireps(s, cur as int, irep_size as int)->Done_0)
                    =~= before.push(irep@) + spec_ireps(s, cur as int, irep_size as int)->Done_0);
            }
        }
    }
    proof {
        assert(ireps_model(ireps@) + seq![] =~= ireps_model(ireps@));
    }
    Ok((irep_size, irep_header, ireps))
}

// ---------------------------------------------------------------------------
// LVAR section
// ---------------------------------------------------------------------------

/// Marks an unnamed local-variable slot.
pub const RITE_LV_NULL_MARK: u16 = 0xFFFF;

/// The local-variable name table.
#[derive(Debug)]
pub struct LVar {
    pub header: SectionMiscHeader,
    pub syms: Vec<Vec<u8>>,
}

/// A length-prefixed (big-endian u16) name at `p`, not NUL-terminated; a
/// NUL inside it is `InvalidFormat`.
pub open spec fn spec_raw_str(s: Seq<u8>, p: int) -> Step<(Seq<u8>, int)> {
    if p + 2 > s.len() {
        Step::Abort
    } else {
        let n = be16_at(s, p);
        if p + 2 + n > s.len() {
            Step::Abort
        } else if exists|k: int| p + 2 <= k < p + 2 + n && s[k] == 0 {
            Step::Fail(Error::InvalidFormat)
        } else {
            Step::Done((s.subrange(p + 2, p + 2 + n), p + 2 + n))
        }
    }
}

/// `n` names from `p`.
pub open spec fn spec_lv_syms(s: Seq<u8>, p: int, n: nat) -> Step<(Seq<Seq<u8>>, int)>
    decreases n,
{
    if n == 0 {
        Step::Done((seq![], p))
    } else {
        match spec_lv_syms(s, p, (n - 1) as nat) {
            Step::Done((ss, q)) => match spec_raw_str(s, q) {
                Step::Done((v, r)) => Step::Done((ss.push(v), r)),
                Step::Fail(e) => Step::Fail(e),
                Step::Abort => Step::Abort,
            },
            Step::Fail(e) => Step::Fail(e),
            Step::Abort => Step::Abort,
        }
    }
}

/// `n` local-variable slots from `p`, each a big-endian index into `syms`
/// or the null mark.
pub open spec fn spec_lv_entries(s: Seq<u8>, p: int, n: nat, syms: Seq<Seq<u8>>) -> Step<(Seq<Option<Seq<u8>>>, int)>
    decreases n,
{
    if n == 0 {
        Step::Done((seq![], p))
    } else {
        match spec_lv_entries(s, p, (n - 1) as nat, syms) {
            Step::Done((lv, q)) => if q + 2 > s.len() {
                Step::Abort
            } else {
                let k = be16_at(s, q);
                if k == RITE_LV_NULL_MARK {
                    Step::Done((lv.push(None), q + 2))
                } else if k >= syms.len() {
                    Step::Fail(Error::InvalidFormat)
                } else {
                    Step::Done((lv.push(Some(syms[k])), q + 2))
                }
            },
            Step::Fail(e) => Step::Fail(e),
            Step::Abort => Step::Abort,
        }
    }
}

/// Outcome of a pre-order walk over IREP records (cursor after it and
/// index of the next record) and the records as the walk left them.
pub struct Walk {
    pub outcome: Step<(int, int)>,
    pub ireps: Seq<IrepModel>,
}

/// Names for record `i` and, recursively, its children. Record `i` lists
/// `nlocals - 1` slots; its `rlen` children follow it in pre-order.
pub open spec fn spec_lv_walk(s: Seq<u8>, ms: Seq<IrepModel>, n: int, i: int, cur: int, syms: Seq<Seq<u8>>) -> Walk
    decreases n - i + 1, 0int,
{
    if i >= n {
        Walk { outcome: Step::Done((cur, i)), ireps: ms }
    } else if ms[i].nlocals == 0 {
        Walk { outcome: Step::Fail(Error::InvalidFormat), ireps: ms }
    } else {
        match spec_lv_entries(s, cur, (ms[i].nlocals - 1) as nat, syms) {
            Step::Done((lv, c2)) => spec_lv_children(
                s,
                ms.update(i, IrepModel { lv: lv, ..ms[i] }),
                n,
                i + 1,
                ms[i].rlen as nat,
                c2,
                syms,
            ),
            Step::Fail(e) => Walk { outcome: Step::Fail(e), ireps: ms },
            Step::Abort => Walk { outcome: Step::Abort, ireps: ms },
        }
    }
}

/// `k` consecutive subtrees starting at record `j`.
pub open spec fn spec_lv_children(s: Seq<u8>, ms: Seq<IrepModel>, n: int, j: int, k: nat, cur: int, syms: Seq<Seq<u8>>) -> Walk
    decreases n - j + 1, k,
{
    if k == 0 {
        Walk { outcome: Step::Done((cur, j)), ireps: ms }
    } else if j > n {
        Walk { outcome: Step::Done((cur, j)), ireps: ms }
    } else {
        let w = spec_lv_walk(s, ms, n, j, cur, syms);
        match w.outcome {
            Step::Done((c, e)) => {
                let e2 = if e < j || e > n {
                    j
                } else {
                    e
                };
                spec_lv_children(s, w.ireps, n, e2, (k - 1) as nat, c, syms)
            },
            _ => w,
        }
    }
}

/// The LVAR section at the start of `head`, with the records it names.
pub open spec fn spec_section_lvar(head: Seq<u8>, ms: Seq<IrepModel>) -> (Step<(int, Seq<Seq<u8>>)>, Seq<IrepModel>) {
    if head.len() < 12 {
        (Step::Abort, ms)
    } else {
        match spec_lv_syms(head, 12, be32_at(head, 8) as nat) {
            Step::Done((syms, cur)) => {
                let w = spec_lv_walk(head, ms, ms.len() as int, 0, cur, syms);
                match w.outcome {
                    Step::Done(_) => (Step::Done((be32_at(head, 4), syms)), w.ireps),
                    Step::Fail(e) => (Step::Fail(e), w.ireps),
                    Step::Abort => (Step::Abort, w.ireps),
                }
            },
            Step::Fail(e) => (Step::Fail(e), ms),
            Step::Abort => (Step::Abort, ms),
        }
    }
}

/// Local-variable slots are two bytes each, read as a big-endian `u16`
/// index into the section's symbol list: bytes `00 01` name symbol 1, and
/// `FF FF` marks a slot without a name. Decoding `n` slots from `p` that
/// lie inside the input succeeds exactly when every index is the mark or
/// names an existing symbol; any other index is `InvalidFormat`. On
/// success the `i`-th slot holds the symbol at its index and the cursor
/// ends `2 * n` bytes further on.
pub proof fn law_lv_slots(s: Seq<u8>, p: int, n: nat, syms: Seq<Seq<u8>>)
    requires
        0 <= p,
    ensures
        p + 2 * n <= s.len() ==> (spec_lv_entries(s, p, n, syms) is Done <==> forall|i: int|
            0 <= i < n ==> #[trigger] be16_at(s, p + 2 * i) == 0xFFFF || be16_at(s, p + 2 * i) < syms.len()),
        match spec_lv_entries(s, p, n, syms) {
            Step::Done((lv, q)) => {
                &&& lv.len() == n
                &&& q == p + 2 * n
                &&& forall|i: int| 0 <= i < n ==> #[trigger] lv[i] == if be16_at(s, p + 2 * i) == 0xFFFF {
                    None
                } else {
                    Some(syms[be16_at(s, p + 2 * i)])
                }
            },
            Step::Fail(e) => e == Error::InvalidFormat,
            Step::Abort => p + 2 * n > s.len(),
        },
    decreases n,
{
    if n > 0 {
        let m = (n - 1) as nat;
        law_lv_slots(s, p, m, syms);
        let q = p + 2 * m;
        if p + 2 * n <= s.len() {
            let k = be16_at(s, q);
            if spec_lv_entries(s, p, n, syms) is Done {
                assert forall|i: int| 0 <= i < n implies #[trigger] be16_at(s, p + 2 * i) == 0xFFFF
                    || be16_at(s, p + 2 * i) < syms.len() by {
                    if i == m {
                        assert(p + 2 * i == q);
                    }
                }
            } else {
                if spec_lv_entries(s, p, m, syms) is Done {
                    assert(p + 2 * m == q);
                    assert(!(k == 0xFFFF || k < syms.len()));
                    assert(!(be16_at(s, p + 2 * m) == 0xFFFF || be16_at(s, p + 2 * m) < syms.len()));
                } else {
                    let j = choose|j: int| 0 <= j < m && !(#[trigger] be16_at(s, p + 2 * j) == 0xFFFF
                        || be16_at(s, p + 2 * j) < syms.len());
                    assert(!(be16_at(s, p + 2 * j) == 0xFFFF || be16_at(s, p + 2 * j) < syms.len()));
                }
            }
        }
        if let Step::Done((lv, q2)) = spec_lv_entries(s, p, n, syms) {
            if let Step::Done((lv0, q0)) = spec_lv_entries(s, p, m, syms) {
                assert(lv == lv0.push(lv[m as int]));
                assert forall|i: int| 0 <= i < n implies #[trigger] lv[i] == if be16_at(s, p + 2 * i) == 0xFFFF {
                    None
                } else {
                    Some(syms[be16_at(s, p + 2 * i)])
                } by {
                    if i < m {
                        assert(lv[i] == lv0[i]);
                    } else {
                        assert(p + 2 * i == q0);
                    }
                }
            }
        }
    }
}

proof fn lemma_lv_syms_stuck(s: Seq<u8>, p: int, i: nat, n: nat)
    requires
        i <= n,
        spec_lv_syms(s, p, i) !is Done,
    ensures
        spec_lv_syms(s, p, n) == spec_lv_syms(s, p, i),
    decreases n,
{
    if n > i {
        lemma_lv_syms_stuck(s, p, i, (n - 1) as nat);
    }
}

proof fn lemma_lv_entries_stuck(s: Seq<u8>, p: int, i: nat, n: nat, syms: Seq<Seq<u8>>)
    requires
        i <= n,
        spec_lv_entries(s, p, i, syms) !is Done,
    ensures
        spec_lv_entries(s, p, n, syms) == spec_lv_entries(s, p, i, syms),
    decreases n,
{
    if n > i {
        lemma_lv_entries_stuck(s, p, i, (n - 1) as nat, syms);
    }
}

/// Reads a length-prefixed name at `p` that must not contain NUL.
fn read_raw_str(head: &[u8], p: usize) -> (r: Result<(Vec<u8>, usize), Error>)
    requires
        spec_raw_str(head@, p as int) !is Abort,
    ensures
        match spec_raw_str(head@, p as int) {
            Step::Done((b, q)) => r matches Ok((v, q2)) && v@ == b && q2 == q,
            Step::Fail(e) => r == Err::<(Vec<u8>, usize), Error>(e),
            Step::Abort => false,
        },
{
    let len = head.len();
    let n = be16_to_u16([head[p], head[p + 1]]) as usize;
    let start = p + 2;
    let mut out: Vec<u8> = Vec::new();
    let mut i = 0usize;
    while i < n
        invariant
            len == head@.len(),
            start + n <= len,
            start == p + 2,
            n as int == be16_at(head@, p as int),
            i <= n,
            out@ == head@.subrange(start as int, start + i),
            forall|k: int| 0 <= k < i ==> out@[k] != 0,
        decreases n - i,
    {
        let at = start + i;
        let b = head[at];
        if b == 0 {
            return Err(Error::InvalidFormat);
        }
        out.push(b);
        i += 1;
        assert(out@ =~= head@.subrange(start as int, start + i));
    }
    assert forall|k: int| start <= k < start + n implies head@[k] != 0 by {
        assert(out@[k - start] == head@[k]);
    }
    Ok((out, start + n))
}

/// Reads the names of record `irep_idx` and its subtrees from the absolute
/// position `cur`, storing each record's names into its `lv`. Returns the
/// position after them and the index of the record after the subtree.
fn read_lv_records(
    head: &[u8],
    cur: usize,
    ireps: &mut [Irep],
    irep_idx: usize,
    syms: &Vec<Vec<u8>>,
    syms_len: usize,
) -> (r: Result<(usize, usize), Error>)
    requires
        irep_idx <= old(ireps)@.len(),
        syms_len == syms@.len(),
        spec_lv_walk(
            head@,
            ireps_model(old(ireps)@),
            old(ireps)@.len() as int,
            irep_idx as int,
            cur as int,
            syms@.map_values(|b: Vec<u8>| b@),
        ).outcome !is Abort,
    ensures
        final(ireps)@.len() == old(ireps)@.len(),
        ({
            let w = spec_lv_walk(
                head@,
                ireps_model(old(ireps)@),
                old(ireps)@.len() as int,
                irep_idx as int,
                cur as int,
                syms@.map_values(|b: Vec<u8>| b@),
            );
            &&& ireps_model(final(ireps)@) == w.ireps
            &&& match w.outcome {
                Step::Done((c, e)) => r matches Ok((c2, e2)) && c2 == c && e2 == e && irep_idx <= e
                    <= old(ireps)@.len(),
                Step::Fail(err) => r == Err::<(usize, usize), Error>(err),
                Step::Abort => false,
            }
        }),
    decreases old(ireps)@.len() - irep_idx,
{
    let ghost s = head@;
    let ghost n = ireps@.len() as int;
    let ghost sy = syms@.map_values(|b: Vec<u8>| b@);
    let ghost ms0 = ireps_model(ireps@);
    let len = head.len();
    if irep_idx >= ireps.len() {
        return Ok((cur, irep_idx));
    }
    let nlocals = ireps[irep_idx].nlocals();
    let rlen = ireps[irep_idx].rlen();
    assert(ms0[irep_idx as int] == ireps@[irep_idx as int]@);
    if nlocals == 0 {
        return Err(Error::InvalidFormat);
    }

    // names of this record's slots
    let mut lv: Vec<Option<Vec<u8>>> = Vec::new();
    let mut c = cur;
    let mut i = 0usize;
    let cnt = nlocals - 1;
    assert(lv@.map_values(|o: Option<Vec<u8>>| opt_bytes(o)) =~= seq![]);
    assert(spec_lv_entries(s, cur as int, cnt as nat, sy) !is Abort);
    while i < cnt
        invariant
            len == s.len(),
            s == head@,
            i <= cnt,
            syms_len == syms@.len(),
            sy == syms@.map_values(|b: Vec<u8>| b@),
            ireps@ == old(ireps)@,
            ms0 == ireps_model(old(ireps)@),
            n == old(ireps)@.len(),
            irep_idx < n,
            ms0[irep_idx as int].nlocals != 0,
            cnt as int == ms0[irep_idx as int].nlocals - 1,
            spec_lv_entries(s, cur as int, i as nat, sy) == Step::Done(
                (lv@.map_values(|o: Option<Vec<u8>>| opt_bytes(o)), c as int),
            ),
            spec_lv_entries(s, cur as int, cnt as nat, sy) !is Abort,
        decreases cnt - i,
    {
        let ghost before = lv@.map_values(|o: Option<Vec<u8>>| opt_bytes(o));
        if c > len || len - c < 2 {
            proof {
                lemma_lv_entries_stuck(s, cur as int, (i + 1) as nat, cnt as nat, sy);
            }
            assert(false);
        }
        let sym_idx = be16_to_u16([head[c], head[c + 1]]);
        assert(sym_idx as int == be16_at(s, c as int));
        assert(sy.len() == syms_len);
        c += 2;
        if sym_idx == RITE_LV_NULL_MARK {
            lv.push(None);
            assert(lv@.map_values(|o: Option<Vec<u8>>| opt_bytes(o)) =~= before.push(None));
        } else {
            let k = sym_idx as usize;
            if k >= syms_len {
                proof {
                    assert(spec_lv_entries(s, cur as int, (i + 1) as nat, sy) == Step::<(Seq<Option<Seq<u8>>>, int)>::Fail(Error::InvalidFormat));
                    lemma_lv_entries_stuck(s, cur as int, (i + 1) as nat, cnt as nat, sy);
                    assert(spec_lv_entries(s, cur as int, cnt as nat, sy) == Step::<(Seq<Option<Seq<u8>>>, int)>::Fail(Error::InvalidFormat));
                    assert(ireps_model(ireps@) == ms0);
                    assert(spec_lv_walk(s, ms0, n, irep_idx as int, cur as int, sy).outcome == Step::<(int, int)>::Fail(Error::InvalidFormat));
                }
                return Err(Error::InvalidFormat);
            }
            let name = syms[k].clone();
            assert(name@ == sy[k as int]);
            lv.push(Some(name));
            assert(lv@.map_values(|o: Option<Vec<u8>>| opt_bytes(o)) =~= before.push(Some(sy[k as int])));
        }
        i += 1;
    }
    let ghost lvm = lv@.map_values(|o: Option<Vec<u8>>| opt_bytes(o));
    ireps[irep_idx].lv = lv;
    let ghost ms1 = ms0.update(irep_idx as int, IrepModel { lv: lvm, ..ms0[irep_idx as int] });
    assert(ireps_model(ireps@) =~= ms1);

    // children, in pre-order
    let mut child = irep_idx + 1;
    let mut t = 0usize;
    let ghost target = spec_lv_children(s, ms1, n, irep_idx + 1, rlen as nat, c as int, sy);
    assert(spec_lv_walk(s, ms0, n, irep_idx as int, cur as int, sy) == target);
    while t < rlen
        invariant
            s == head@,
            ireps@.len() == n,
            n == old(ireps)@.len(),
            irep_idx < n,
            irep_idx < child <= n,
            t <= rlen,
            syms_len == syms@.len(),
            sy == syms@.map_values(|b: Vec<u8>| b@),
            target == spec_lv_children(s, ireps_model(ireps@), n, child as int, (rlen - t) as nat, c as int, sy),
            target == spec_lv_walk(s, ireps_model(old(ireps)@), n, irep_idx as int, cur as int, sy),
            target.outcome !is Abort,
        decreases rlen - t,
    {
        let ghost msb = ireps_model(ireps@);
        let ghost cb = c;
        let ghost w = spec_lv_walk(s, msb, n, child as int, c as int, sy);
        assert(target == match w.outcome {
            Step::Done((c3, e)) => {
                let e2 = if e < child || e > n { child as int } else { e };
                spec_lv_children(s, w.ireps, n, e2, (rlen - t - 1) as nat, c3, sy)
            },
            _ => w,
        });
        let res = read_lv_records(head, c, ireps, child, syms, syms_len);
        match res {
            Ok((c2, next)) => {
                c = c2;
                child = next;
            },
            Err(e) => {
                assert(target == w);
                return Err(e);
            },
        }
        t += 1;
    }
    Ok((c, child))
}

/// Reads the LVAR section at the start of `head`: stores the local-variable
/// names of every record (pre-order, record 0 first) and returns the
/// section size and its name table.
pub fn section_lvar(head: &[u8], ireps: &mut [Irep]) -> (r: Result<(usize, LVar), Error>)
    requires
        spec_section_lvar(head@, ireps_model(old(ireps)@)).0 !is Abort,
    ensures
        final(ireps)@.len() == old(ireps)@.len(),
        ({
            let (st, ms) = spec_section_lvar(head@, ireps_model(old(ireps)@));
            &&& ireps_model(final(ireps)@) == ms
            &&& match st {
                Step::Done((size, names)) => r matches Ok((sz, lvar)) && {
                    &&& sz == size
                    &&& lvar.syms@.map_values(|b: Vec<u8>| b@) == names
                    &&& lvar.header.ident@ == head@.subrange(0, 4)
                    &&& lvar.header.size@ == head@.subrange(4, 8)
                },
                Step::Fail(e) => r == Err::<(usize, LVar), Error>(e),
                Step::Abort => false,
            }
        }),
{
    let ghost s = head@;
    let len = head.len();
    let header = SectionMiscHeader::from_bytes(&head[0..MISC_HEADER_SIZE])?;
    let syms_len = be32_to_u32([head[8], head[9], head[10], head[11]]) as usize;
    let mut cur = 12usize;
    let mut syms: Vec<Vec<u8>> = Vec::new();
    let mut i = 0usize;
    assert(syms@.map_values(|b: Vec<u8>| b@) =~= seq![]);
    assert(spec_lv_syms(s, 12, syms_len as nat) !is Abort);
    while i < syms_len
        invariant
            len == s.len(),
            s == head@,
            i <= syms_len,
            syms@.len() == i,
            syms_len as int == be32_at(s, 8),
            ireps@ == old(ireps)@,
            spec_lv_syms(s, 12, i as nat) == Step::Done((syms@.map_values(|b: Vec<u8>| b@), cur as int)),
            spec_lv_syms(s, 12, syms_len as nat) !is Abort,
            match spec_lv_syms(s, 12, syms_len as nat) {
                Step::Fail(e) => spec_section_lvar(s, ireps_model(old(ireps)@)) == (Step::<(int, Seq<Seq<u8>>)>::Fail(e), ireps_model(old(ireps)@)),
                _ => true,
            },
        decreases syms_len - i,
    {
        let ghost before = syms@.map_values(|b: Vec<u8>| b@);
        proof {
            if spec_raw_str(s, cur as int) is Abort {
                lemma_lv_syms_stuck(s, 12, (i + 1) as nat, syms_len as nat);
            }
        }
        match read_raw_str(head, cur) {
            Ok((b, q)) => {
                syms.push(b);
                cur = q;
                assert(syms@.map_values(|b: Vec<u8>| b@) =~= before.push(b@));
            },
            Err(e) => {
                proof {
                    lemma_lv_syms_stuck(s, 12, (i + 1) as nat, syms_len as nat);
                }
                return Err(e);
            },
        }
        i += 1;
    }
    let _ = read_lv_records(head, cur, ireps, 0, &syms, syms_len)?;
    assert(be32_at(header.size@, 0) == be32_at(s, 4));
    let size = be32_to_u32(header.size) as usize;
    Ok((size, LVar { header, syms }))
}

// ---------------------------------------------------------------------------
// DBG section (source line maps)
// ---------------------------------------------------------------------------

/// `lines` after `push_line(lines, pos, line)`.
pub open spec fn spec_push_line(lines: Seq<(u32, u32)>, pos: u32, line: u32) -> Seq<(u32, u32)> {
    if lines.len() > 0 && lines.last().1 == line {
        lines
    } else {
        lines.push((pos, line))
    }
}

/// Skips `n` file-name entries (big-endian u16 length, then bytes).
pub open spec fn spec_dbg_names(s: Seq<u8>, p: int, n: nat) -> Step<int>
    decreases n,
{
    if n == 0 {
        Step::Done(p)
    } else {
        match spec_dbg_names(s, p, (n - 1) as nat) {
            Step::Done(q) => if q + 2 > s.len() {
                Step::Fail(Error::TooShort)
            } else if q + 2 + be16_at(s, q) > usize::MAX {
                Step::Abort
            } else {
                Step::Done(q + 2 + be16_at(s, q))
            },
            Step::Fail(e) => Step::Fail(e),
            Step::Abort => Step::Abort,
        }
    }
}

/// A line array: `n` big-endian u16 lines for the offsets `start`,
/// `start + 1`, ...
pub open spec fn spec_line_ary(s: Seq<u8>, p: int, start: u32, n: nat, lines: Seq<(u32, u32)>) -> Step<(Seq<(u32, u32)>, int)>
    decreases n,
{
    if n == 0 {
        Step::Done((lines, p))
    } else {
        match spec_line_ary(s, p, start, (n - 1) as nat, lines) {
            Step::Done((ls, q)) => if q + 2 > s.len() {
                Step::Fail(Error::TooShort)
            } else if start + (n - 1) > u32::MAX {
                Step::Abort
            } else {
                Step::Done((spec_push_line(ls, (start + (n - 1)) as u32, be16_at(s, q) as u32), q + 2))
            },
            Step::Fail(e) => Step::Fail(e),
            Step::Abort => Step::Abort,
        }
    }
}

/// A flat map: `n` pairs of big-endian u32 offset and u16 line.
pub open spec fn spec_line_flat(s: Seq<u8>, p: int, n: nat, lines: Seq<(u32, u32)>) -> Step<(Seq<(u32, u32)>, int)>
    decreases n,
{
    if n == 0 {
        Step::Done((lines, p))
    } else {
        match spec_line_flat(s, p, (n - 1) as nat, lines) {
            Step::Done((ls, q)) => if q + 6 > s.len() {
                Step::Fail(Error::TooShort)
            } else {
                Step::Done((spec_push_line(ls, be32_at(s, q) as u32, be16_at(s, q + 4) as u32), q + 6))
            },
            Step::Fail(e) => Step::Fail(e),
            Step::Abort => Step::Abort,
        }
    }
}

/// A packed map from `p` up to `end`: pairs of packed offset and line
/// deltas, accumulated modulo 2^32.
pub open spec fn spec_line_packed(s: Seq<u8>, p: int, end: int, pos: u32, line: u32, lines: Seq<(u32, u32)>) -> Step<(Seq<(u32, u32)>, int)>
    decreases end - p,
{
    if p >= end {
        Step::Done((lines, p))
    } else {
        match spec_packed_int(s, p) {
            Ok((d1, u1)) => match spec_packed_int(s, p + u1) {
                Ok((d2, u2)) => {
                    let pos2 = ((pos + d1) % 0x1_0000_0000) as u32;
                    let line2 = ((line + d2) % 0x1_0000_0000) as u32;
                    let ls = spec_push_line(lines, pos2, line2);
                    let q = p + u1 + u2;
                    if q <= p || q >= end {
                        Step::Done((ls, q))
                    } else {
                        spec_line_packed(s, q, end, pos2, line2, ls)
                    }
                },
                Err(e) => Step::Fail(e),
            },
            Err(e) => Step::Fail(e),
        }
    }
}

proof fn lemma_be16_range(s: Seq<u8>, i: int)
    requires
        0 <= i,
        i + 2 <= s.len(),
    ensures
        0 <= be16_at(s, i) < 0x10000,
{
}

/// A line array holds `n` big-endian `u16` lines from `p`, the `j`-th for
/// instruction offset `start + j`. It decodes when all entries lie inside
/// the input (else `TooShort`) and the last offset fits in a `u32`.
/// Decoding keeps the lines recorded before it, every line it records is
/// one of its entries at that entry's offset, and the first entry is
/// recorded at `start` unless its line repeats the last one.
pub proof fn law_line_ary_entries(s: Seq<u8>, p: int, start: u32, n: nat, lines: Seq<(u32, u32)>)
    requires
        0 <= p,
    ensures
        match spec_line_ary(s, p, start, n, lines) {
            Step::Done((out, q)) => {
                &&& q == p + 2 * n
                &&& q <= s.len() || n == 0
                &&& lines.len() <= out.len()
                &&& forall|i: int| 0 <= i < lines.len() ==> #[trigger] out[i] == lines[i]
                &&& forall|i: int| #![trigger out[i]] lines.len() <= i < out.len() ==> exists|j: int| #![trigger be16_at(s, p + 2 * j)]
                    0 <= j < n && p + 2 * j + 2 <= s.len() && out[i].0 as int == start + j
                        && out[i].1 as int == be16_at(s, p + 2 * j)
                &&& n > 0 && (lines.len() == 0 || lines.last().1 as int != be16_at(s, p)) ==> {
                    &&& out.len() > lines.len()
                    &&& out[lines.len() as int].0 == start
                    &&& out[lines.len() as int].1 as int == be16_at(s, p)
                }
            },
            Step::Fail(e) => e == Error::TooShort && p + 2 * n > s.len(),
            Step::Abort => start + n - 1 > u32::MAX,
        },
    decreases n,
{
    if n > 0 {
        let m = (n - 1) as nat;
        law_line_ary_entries(s, p, start, m, lines);
        if let Step::Done((ls, q0)) = spec_line_ary(s, p, start, m, lines) {
            if q0 + 2 <= s.len() && start + m <= u32::MAX {
                lemma_be16_range(s, q0);
                let a = (start + m) as u32;
                let b = be16_at(s, q0) as u32;
                let out = spec_push_line(ls, a, b);
                assert(forall|i: int| 0 <= i < ls.len() ==> #[trigger] out[i] == ls[i]);
                assert forall|i: int| #![trigger out[i]] lines.len() <= i < out.len() implies exists|j: int| #![trigger be16_at(s, p + 2 * j)]
                    0 <= j < n && p + 2 * j + 2 <= s.len() && out[i].0 as int == start + j
                        && out[i].1 as int == be16_at(s, p + 2 * j) by {
                    if i < ls.len() {
                        let j = choose|j: int| #![trigger be16_at(s, p + 2 * j)]
                            0 <= j < m && p + 2 * j + 2 <= s.len() && ls[i].0 as int == start + j
                                && ls[i].1 as int == be16_at(s, p + 2 * j);
                        assert(out[i] == ls[i]);
                        assert(0 <= j < n && p + 2 * j + 2 <= s.len() && out[i].0 as int == start + j
                                && out[i].1 as int == be16_at(s, p + 2 * j));
                    } else {
                        assert(out[i] == (a, b));
                        assert(p + 2 * m == q0);
                    }
                }
                if m == 0 {
                    assert(q0 == p && ls == lines);
                } else if lines.len() == 0 || lines.last().1 as int != be16_at(s, p) {
                    assert(out[lines.len() as int] == ls[lines.len() as int]);
                }
            }
        }
    }
}

/// A flat line map holds `n` six-byte entries from `p`: a big-endian `u32`
/// instruction offset, then a big-endian `u16` line. It decodes exactly
/// when all entries lie inside the input (else `TooShort`). Decoding keeps
/// the lines recorded before it, every line it records is one of its
/// entries (offset first, line second), and the first entry is recorded
/// right after the earlier lines unless its line repeats the last one.
pub proof fn law_line_flat_entries(s: Seq<u8>, p: int, n: nat, lines: Seq<(u32, u32)>)
    requires
        0 <= p,
    ensures
        match spec_line_flat(s, p, n, lines) {
            Step::Done((out, q)) => {
                &&& q == p + 6 * n
                &&& q <= s.len() || n == 0
                &&& lines.len() <= out.len()
                &&& forall|i: int| 0 <= i < lines.len() ==> #[trigger] out[i] == lines[i]
                &&& forall|i: int| #![trigger out[i]] lines.len() <= i < out.len() ==> exists|j: int| #![trigger be32_at(s, p + 6 * j)]
                    0 <= j < n && p + 6 * j + 6 <= s.len() && out[i].0 as int == be32_at(s, p + 6 * j)
                        && out[i].1 as int == be16_at(s, p + 6 * j + 4)
                &&& n > 0 && (lines.len() == 0 || lines.last().1 as int != be16_at(s, p + 4)) ==> {
                    &&& out.len() > lines.len()
                    &&& out[lines.len() as int].0 as int == be32_at(s, p)
                    &&& out[lines.len() as int].1 as int == be16_at(s, p + 4)
                }
            },
            Step::Fail(e) => e == Error::TooShort && p + 6 * n > s.len(),
            Step::Abort => false,
        },
    decreases n,
{
    if n > 0 {
        let m = (n - 1) as nat;
        law_line_flat_entries(s, p, m, lines);
        if let Step::Done((ls, q0)) = spec_line_flat(s, p, m, lines) {
            if q0 + 6 <= s.len() {
                lemma_be32_range(s, q0);
                lemma_be16_range(s, q0 + 4);
                let a = be32_at(s, q0) as u32;
                let b = be16_at(s, q0 + 4) as u32;
                let out = spec_push_line(ls, a, b);
                assert(forall|i: int| 0 <= i < ls.len() ==> #[trigger] out[i] == ls[i]);
                assert forall|i: int| #![trigger out[i]] lines.len() <= i < out.len() implies exists|j: int| #![trigger be32_at(s, p + 6 * j)]
                    0 <= j < n && p + 6 * j + 6 <= s.len() && out[i].0 as int == be32_at(s, p + 6 * j)
                        && out[i].1 as int == be16_at(s, p + 6 * j + 4) by {
                    if i < ls.len() {
                        let j = choose|j: int| #![trigger be32_at(s, p + 6 * j)]
                            0 <= j < m && p + 6 * j + 6 <= s.len() && ls[i].0 as int == be32_at(s, p + 6 * j)
                                && ls[i].1 as int == be16_at(s, p + 6 * j + 4);
                        assert(out[i] == ls[i]);
                        assert(0 <= j < n && p + 6 * j + 6 <= s.len() && out[i].0 as int == be32_at(s, p + 6 * j)
                                && out[i].1 as int == be16_at(s, p + 6 * j + 4));
                    } else {
                        assert(out[i] == (a, b));
                        assert(p + 6 * m == q0);
                    }
                }
                if m == 0 {
                    assert(q0 == p && ls == lines);
                } else if lines.len() == 0 || lines.last().1 as int != be16_at(s, p + 4) {
                    assert(out[lines.len() as int] == ls[lines.len() as int]);
                }
            }
        }
    }
}

/// Decoding a packed map keeps the lines recorded before it as a prefix.
proof fn lemma_line_packed_keeps(s: Seq<u8>, p: int, end: int, pos: u32, line: u32, lines: Seq<(u32, u32)>)
    ensures
        match spec_line_packed(s, p, end, pos, line, lines) {
            Step::Done((out, _)) => lines.len() <= out.len() && forall|i: int|
                0 <= i < lines.len() ==> #[trigger] out[i] == lines[i],
            _ => true,
        },
    decreases end - p,
{
    if p < end {
        if let Ok((d1, u1)) = spec_packed_int(s, p) {
            if let Ok((d2, u2)) = spec_packed_int(s, p + u1) {
                let pos2 = ((pos + d1) % 0x1_0000_0000) as u32;
                let line2 = ((line + d2) % 0x1_0000_0000) as u32;
                let ls = spec_push_line(lines, pos2, line2);
                let q = p + u1 + u2;
                assert(lines.len() <= ls.len() && forall|i: int| 0 <= i < lines.len() ==> #[trigger] ls[i] == lines[i]);
                if !(q <= p || q >= end) {
                    lemma_line_packed_keeps(s, q, end, pos2, line2, ls);
                    if let Step::Done((out, _)) = spec_line_packed(s, p, end, pos, line, lines) {
                        assert forall|i: int| 0 <= i < lines.len() implies #[trigger] out[i] == lines[i] by {
                            assert(out[i] == ls[i]);
                        }
                    }
                }
            }
        }
    }
}

/// In a packed line map each entry is a pair of packed integers: the first
/// advances the instruction offset and the second advances the line
/// number, both modulo 2^32. When the line reached differs from the last
/// one recorded, the map records the offset and line that the first pair
/// reaches, right after the lines recorded before it.
pub proof fn law_line_packed_pair(
    s: Seq<u8>,
    p: int,
    end: int,
    pos: u32,
    line: u32,
    lines: Seq<(u32, u32)>,
    d1: u32,
    u1: usize,
    d2: u32,
    u2: usize,
)
    requires
        p < end,
        spec_packed_int(s, p) == Ok::<(u32, usize), Error>((d1, u1)),
        spec_packed_int(s, p + u1) == Ok::<(u32, usize), Error>((d2, u2)),
        lines.len() == 0 || lines.last().1 as int != (line + d2) % 0x1_0000_0000,
    ensures
        match spec_line_packed(s, p, end, pos, line, lines) {
            Step::Done((out, _)) => {
                &&& out.len() > lines.len()
                &&& out[lines.len() as int].0 as int == (pos + d1) % 0x1_0000_0000
                &&& out[lines.len() as int].1 as int == (line + d2) % 0x1_0000_0000
            },
            _ => true,
        },
{
    let pos2 = ((pos + d1) % 0x1_0000_0000) as u32;
    let line2 = ((line + d2) % 0x1_0000_0000) as u32;
    let ls = spec_push_line(lines, pos2, line2);
    assert(ls == lines.push((pos2, line2)));
    let q = p + u1 + u2;
    if !(q <= p || q >= end) {
        lemma_line_packed_keeps(s, q, end, pos2, line2, ls);
        if let Step::Done((out, _)) = spec_line_packed(s, p, end, pos, line, lines) {
            assert(out[lines.len() as int] == ls[lines.len() as int]);
        }
    }
}

/// One file entry of a debug record at `p`: start offset (u32), file
/// index (u16), entry count (u32), map type (u8), then the map.
pub open spec fn spec_dbg_file(s: Seq<u8>, p: int, lines: Seq<(u32, u32)>) -> Step<(Seq<(u32, u32)>, int)> {
    if p + 11 > s.len() {
        Step::Fail(Error::TooShort)
    } else {
        let start = be32_at(s, p) as u32;
        let count = be32_at(s, p + 6);
        let t = s[p + 10];
        let c = p + 11;
        if t == 0 {
            spec_line_ary(s, c, start, count as nat, lines)
        } else if t == 1 {
            spec_line_flat(s, c, count as nat, lines)
        } else if t == 2 {
            if c + count > usize::MAX {
                Step::Abort
            } else {
                spec_line_packed(s, c, c + count, 0, 0, lines)
            }
        } else {
            Step::Fail(Error::InvalidFormat)
        }
    }
}

/// `n` file entries of a debug record from `p`.
#[verifier::opaque]
pub open spec fn spec_dbg_files(s: Seq<u8>, p: int, n: nat) -> Step<(Seq<(u32, u32)>, int)>
    decreases n,
{
    if n == 0 {
        Step::Done((seq![], p))
    } else {
        match spec_dbg_files(s, p, (n - 1) as nat) {
            Step::Done((ls, q)) => spec_dbg_file(s, q, ls),
            Step::Fail(e) => Step::Fail(e),
            Step::Abort => Step::Abort,
        }
    }
}

/// Debug record for record `i` and, recursively, its children, within the
/// first `limit` bytes. The record's declared size must match the bytes it
/// spans.
pub open spec fn spec_dbg_walk(s: Seq<u8>, ms: Seq<IrepModel>, n: int, i: int, cur: int, limit: int) -> Walk
    decreases n - i + 1, 0int,
{
    if i >= n || cur >= limit {
        Walk { outcome: Step::Done((cur, i)), ireps: ms }
    } else if cur + 6 > s.len() {
        Walk { outcome: Step::Fail(Error::TooShort), ireps: ms }
    } else {
        let size = be32_at(s, cur);
        let files = be16_at(s, cur + 4);
        match spec_dbg_files(s, cur + 6, files as nat) {
            Step::Done((lines, c2)) => {
                let ms2 = ms.update(i, IrepModel { lines: lines, ..ms[i] });
                if c2 - cur != size {
                    Walk { outcome: Step::Fail(Error::InvalidFormat), ireps: ms2 }
                } else {
                    spec_dbg_children(s, ms2, n, i + 1, ms[i].rlen as nat, c2, limit)
                }
            },
            Step::Fail(e) => Walk { outcome: Step::Fail(e), ireps: ms },
            Step::Abort => Walk { outcome: Step::Abort, ireps: ms },
        }
    }
}

/// `k` consecutive debug subtrees starting at record `j`.
pub open spec fn spec_dbg_children(s: Seq<u8>, ms: Seq<IrepModel>, n: int, j: int, k: nat, cur: int, limit: int) -> Walk
    decreases n - j + 1, k,
{
    if k == 0 || j > n {
        Walk { outcome: Step::Done((cur, j)), ireps: ms }
    } else {
        let w = spec_dbg_walk(s, ms, n, j, cur, limit);
        match w.outcome {
            Step::Done((c, e)) => {
                let e2 = if e < j || e > n {
                    j
                } else {
                    e
                };
                spec_dbg_children(s, w.ireps, n, e2, (k - 1) as nat, c, limit)
            },
            _ => w,
        }
    }
}

/// The DBG section at the start of `head`: its size, with the line maps it
/// stores into the records. Parsing stays within the section.
pub open spec fn spec_debug_section(head: Seq<u8>, ms: Seq<IrepModel>) -> (Step<int>, Seq<IrepModel>) {
    if head.len() < MISC_HEADER_SIZE {
        (Step::Fail(Error::TooShort), ms)
    } else {
        let size = be32_at(head, 4);
        if head.len() < size {
            (Step::Fail(Error::TooShort), ms)
        } else {
            let sec = head.subrange(0, size);
            if 10 > size {
                (Step::Fail(Error::TooShort), ms)
            } else {
                match spec_dbg_names(sec, 10, be16_at(sec, 8) as nat) {
                    Step::Done(c) => {
                        let w = spec_dbg_walk(sec, ms, ms.len() as int, 0, c, size);
                        match w.outcome {
                            Step::Done((c2, _)) => if c2 > size {
                                (Step::Fail(Error::InvalidFormat), w.ireps)
                            } else {
                                (Step::Done(size), w.ireps)
                            },
                            Step::Fail(e) => (Step::Fail(e), w.ireps),
                            Step::Abort => (Step::Abort, w.ireps),
                        }
                    },
                    Step::Fail(e) => (Step::Fail(e), ms),
                    Step::Abort => (Step::Abort, ms),
                }
            }
        }
    }
}

proof fn lemma_names_stuck(s: Seq<u8>, p: int, i: nat, n: nat)
    requires
        i <= n,
        spec_dbg_names(s, p, i) !is Done,
    ensures
        spec_dbg_names(s, p, n) == spec_dbg_names(s, p, i),
    decreases n,
{
    if n > i {
        lemma_names_stuck(s, p, i, (n - 1) as nat);
    }
}

proof fn lemma_ary_stuck(s: Seq<u8>, p: int, start: u32, i: nat, n: nat, ls: Seq<(u32, u32)>)
    requires
        i <= n,
        spec_line_ary(s, p, start, i, ls) !is Done,
    ensures
        spec_line_ary(s, p, start, n, ls) == spec_line_ary(s, p, start, i, ls),
    decreases n,
{
    if n > i {
        lemma_ary_stuck(s, p, start, i, (n - 1) as nat, ls);
    }
}

proof fn lemma_flat_stuck(s: Seq<u8>, p: int, i: nat, n: nat, ls: Seq<(u32, u32)>)
    requires
        i <= n,
        spec_line_flat(s, p, i, ls) !is Done,
    ensures
        spec_line_flat(s, p, n, ls) == spec_line_flat(s, p, i, ls),
    decreases n,
{
    if n > i {
        lemma_flat_stuck(s, p, i, (n - 1) as nat, ls);
    }
}

proof fn lemma_files_stuck(s: Seq<u8>, p: int, i: nat, n: nat)
    requires
        i <= n,
        spec_dbg_files(s, p, i) !is Done,
    ensures
        spec_dbg_files(s, p, n) == spec_dbg_files(s, p, i),
    decreases n,
{
    reveal(spec_dbg_files);
    if n > i {
        lemma_files_stuck(s, p, i, (n - 1) as nat);
    }
}

fn read_line_ary(head: &[u8], p: usize, start: u32, n: usize, lines: &mut Vec<(u32, u32)>) -> (r: Result<usize, Error>)
    requires
        spec_line_ary(head@, p as int, start, n as nat, old(lines)@) !is Abort,
    ensures
        match spec_line_ary(head@, p as int, start, n as nat, old(lines)@) {
            Step::Done((ls, q)) => r matches Ok(q2) && q2 == q && final(lines)@ == ls,
            Step::Fail(e) => r == Err::<usize, Error>(e),
            Step::Abort => false,
        },
{
    let ghost s = head@;
    let ghost l0 = lines@;
    let len = head.len();
    let mut cur = p;
    let mut i = 0usize;
    while i < n
        invariant
            s == head@,
            len == s.len(),
            l0 == old(lines)@,
            i <= n,
            spec_line_ary(s, p as int, start, i as nat, l0) == Step::Done((lines@, cur as int)),
            spec_line_ary(s, p as int, start, n as nat, l0) !is Abort,
        decreases n - i,
    {
        let line = match u16_at(head, cur) {
            Ok(v) => v as u32,
            Err(e) => {
                proof {
                    assert(e == Error::TooShort);
                    assert(spec_line_ary(s, p as int, start, (i + 1) as nat, l0) == Step::<(Seq<(u32, u32)>, int)>::Fail(Error::TooShort));
                    lemma_ary_stuck(s, p as int, start, (i + 1) as nat, n as nat, l0);
                }
                return Err(e);
            },
        };
        if start as u64 + i as u64 > u32::MAX as u64 {
            proof {
                lemma_ary_stuck(s, p as int, start, (i + 1) as nat, n as nat, l0);
            }
            assert(false);
        }
        cur += 2;
        push_line(lines, start + i as u32, line);
        i += 1;
    }
    assert(l0 == old(lines)@);
    Ok(cur)
}

fn read_line_flat(head: &[u8], p: usize, n: usize, lines: &mut Vec<(u32, u32)>) -> (r: Result<usize, Error>)
    requires
        spec_line_flat(head@, p as int, n as nat, old(lines)@) !is Abort,
    ensures
        match spec_line_flat(head@, p as int, n as nat, old(lines)@) {
            Step::Done((ls, q)) => r matches Ok(q2) && q2 == q && final(lines)@ == ls,
            Step::Fail(e) => r == Err::<usize, Error>(e),
            Step::Abort => false,
        },
{
    let ghost s = head@;
    let ghost l0 = lines@;
    let len = head.len();
    let mut cur = p;
    let mut i = 0usize;
    while i < n
        invariant
            s == head@,
            len == s.len(),
            l0 == old(lines)@,
            i <= n,
            spec_line_flat(s, p as int, i as nat, l0) == Step::Done((lines@, cur as int)),
            spec_line_flat(s, p as int, n as nat, l0) !is Abort,
        decreases n - i,
    {
        let pos = match u32_at(head, cur) {
            Ok(v) => v,
            Err(e) => {
                proof {
                    assert(cur + 4 > len);
                    assert(e == Error::TooShort);
                    assert(spec_line_flat(s, p as int, (i + 1) as nat, l0) == Step::<(Seq<(u32, u32)>, int)>::Fail(Error::TooShort));
                    lemma_flat_stuck(s, p as int, (i + 1) as nat, n as nat, l0);
                    assert(spec_line_flat(s, p as int, n as nat, l0) == Step::<(Seq<(u32, u32)>, int)>::Fail(Error::TooShort));
                }
                return Err(e);
            },
        };
        cur += 4;
        let line = match u16_at(head, cur) {
            Ok(v) => v as u32,
            Err(e) => {
                proof {
                    assert(e == Error::TooShort);
                    assert(spec_line_flat(s, p as int, (i + 1) as nat, l0) == Step::<(Seq<(u32, u32)>, int)>::Fail(Error::TooShort));
                    lemma_flat_stuck(s, p as int, (i + 1) as nat, n as nat, l0);
                }
                return Err(e);
            },
        };
        cur += 2;
        push_line(lines, pos, line);
        i += 1;
    }
    assert(l0 == old(lines)@);
    Ok(cur)
}

#[verifier::spinoff_prover]
#[verifier::rlimit(40)]
fn read_line_packed(head: &[u8], p: usize, end: usize, lines: &mut Vec<(u32, u32)>) -> (r: Result<usize, Error>)
    requires
        spec_line_packed(head@, p as int, end as int, 0, 0, old(lines)@) !is Abort,
    ensures
        match spec_line_packed(head@, p as int, end as int, 0, 0, old(lines)@) {
            Step::Done((ls, q)) => r matches Ok(q2) && q2 == q && final(lines)@ == ls,
            Step::Fail(e) => r == Err::<usize, Error>(e),
            Step::Abort => false,
        },
{
    let ghost s = head@;
    let ghost target = spec_line_packed(head@, p as int, end as int, 0, 0, lines@);
    assert(target == spec_line_packed(head@, p as int, end as int, 0, 0, old(lines)@));
    let len = head.len();
    let mut cur = p;
    let mut pos: u32 = 0;
    let mut line: u32 = 0;
    while cur < end
        invariant
            s == head@,
            len == s.len(),
            target == spec_line_packed(head@, p as int, end as int, 0, 0, old(lines)@),
            target == spec_line_packed(s, cur as int, end as int, pos, line, lines@),
        decreases usize::MAX - cur,
    {
        let ghost c0 = cur;
        let (delta, used) = match decode_packed_int(head, cur) {
            Ok(x) => x,
            Err(e) => {
                assert(spec_line_packed(s, cur as int, end as int, pos, line, lines@) == Step::<(Seq<(u32, u32)>, int)>::Fail(e));
                return Err(e);
            },
        };
        proof {
            lemma_packed_len(s, cur as int, 0);
        }
        cur += used;
        let (delta2, used2) = match decode_packed_int(head, cur) {
            Ok(x) => x,
            Err(e) => {
                assert(spec_line_packed(s, c0 as int, end as int, pos, line, lines@) == Step::<(Seq<(u32, u32)>, int)>::Fail(e));
                return Err(e);
            },
        };
        proof {
            lemma_packed_len(s, cur as int, 0);
        }
        cur += used2;
        pos = pos.wrapping_add(delta);
        line = line.wrapping_add(delta2);
        push_line(lines, pos, line);
    }
    Ok(cur)
}

/// Reads one file entry of a debug record at `p`, adding its lines.
fn read_dbg_file(head: &[u8], p: usize, lines: &mut Vec<(u32, u32)>) -> (r: Result<usize, Error>)
    requires
        spec_dbg_file(head@, p as int, old(lines)@) !is Abort,
    ensures
        match spec_dbg_file(head@, p as int, old(lines)@) {
            Step::Done((ls, q)) => r matches Ok(q2) && q2 == q && final(lines)@ == ls,
            Step::Fail(e) => r == Err::<usize, Error>(e),
            Step::Abort => false,
        },
{
    let len = head.len();
    if p > len || len - p < 11 {
        return Err(Error::TooShort);
    }
    let start_pos = be32_to_u32([head[p], head[p + 1], head[p + 2], head[p + 3]]);
    let entry_count = be32_to_u32([head[p + 6], head[p + 7], head[p + 8], head[p + 9]]) as usize;
    let line_type = head[p + 10];
    let cur = p + 11;
    match line_type {
        0 => read_line_ary(head, cur, start_pos, entry_count, lines),
        1 => read_line_flat(head, cur, entry_count, lines),
        2 => {
            if usize::MAX - cur < entry_count {
                assert(false);
            }
            read_line_packed(head, cur, cur + entry_count, lines)
        },
        _ => Err(Error::InvalidFormat),
    }
}

/// Reads the debug record of record `*irep_idx` and its subtrees from the
/// absolute position `cur`, storing each record's line map. On success
/// `*irep_idx` is the index of the record after the subtree.
fn read_debug_record(
    head: &[u8],
    cur: usize,
    ireps: &mut [Irep],
    irep_idx: &mut usize,
    limit: usize,
) -> (r: Result<usize, Error>)
    requires
        *old(irep_idx) <= old(ireps)@.len(),
        spec_dbg_walk(
            head@,
            ireps_model(old(ireps)@),
            old(ireps)@.len() as int,
            *old(irep_idx) as int,
            cur as int,
            limit as int,
        ).outcome !is Abort,
    ensures
        final(ireps)@.len() == old(ireps)@.len(),
        ({
            let w = spec_dbg_walk(
                head@,
                ireps_model(old(ireps)@),
                old(ireps)@.len() as int,
                *old(irep_idx) as int,
                cur as int,
                limit as int,
            );
            &&& ireps_model(final(ireps)@) == w.ireps
            &&& match w.outcome {
                Step::Done((c, e)) => r matches Ok(c2) && c2 == c && *final(irep_idx) == e
                    && *old(irep_idx) <= e <= old(ireps)@.len(),
                Step::Fail(err) => r == Err::<usize, Error>(err),
                Step::Abort => false,
            }
        }),
    decreases old(ireps)@.len() - *old(irep_idx),
{
    let ghost s = head@;
    let ghost n = ireps@.len() as int;
    let ghost ms0 = ireps_model(ireps@);
    let ghost i0 = *irep_idx;
    let len = head.len();
    if *irep_idx >= ireps.len() || cur >= limit {
        return Ok(cur);
    }
    let idx = *irep_idx;
    let rlen = ireps[idx].rlen();
    assert(ms0[idx as int] == ireps@[idx as int]@);
    let record_start = cur;
    let record_size = match u32_at(head, cur) {
        Ok(v) => v as usize,
        Err(e) => {
            assert(e == Error::TooShort);
            return Err(e);
        },
    };
    let mut at = cur + 4;
    let file_count = match u16_at(head, at) {
        Ok(v) => v as usize,
        Err(e) => {
            assert(e == Error::TooShort);
            return Err(e);
        },
    };
    at += 2;
    let p0 = at;
    let mut lines: Vec<(u32, u32)> = Vec::new();
    let mut f = 0usize;
    assert(spec_dbg_files(s, p0 as int, file_count as nat) !is Abort);
    assert(spec_dbg_files(s, p0 as int, 0) == Step::Done((lines@, at as int))) by {
        reveal(spec_dbg_files);
    }
    while f < file_count
        invariant
            s == head@,
            f <= file_count,
            ireps@ == old(ireps)@,
            *irep_idx == i0,
            i0 == *old(irep_idx),
            n == old(ireps)@.len(),
            record_start == cur,
            ms0 == ireps_model(old(ireps)@),
            match spec_dbg_files(s, p0 as int, file_count as nat) {
                Step::Fail(e) => spec_dbg_walk(s, ms0, n, i0 as int, record_start as int, limit as int) == Walk { outcome: Step::Fail(e), ireps: ms0 },
                _ => true,
            },
            spec_dbg_files(s, p0 as int, f as nat) == Step::Done((lines@, at as int)),
            spec_dbg_files(s, p0 as int, file_count as nat) !is Abort,
        decreases file_count - f,
    {
        let ghost prev = lines@;
        let ghost pc = at;
        assert(spec_dbg_files(s, p0 as int, (f + 1) as nat) == spec_dbg_file(s, pc as int, prev)) by {
            reveal(spec_dbg_files);
        }
        proof {
            if spec_dbg_file(s, at as int, lines@) is Abort {
                lemma_files_stuck(s, p0 as int, (f + 1) as nat, file_count as nat);
            }
        }
        match read_dbg_file(head, at, &mut lines) {
            Ok(q) => {
                at = q;
            },
            Err(e) => {
                proof {
                    lemma_files_stuck(s, p0 as int, (f + 1) as nat, file_count as nat);
                    assert(ireps_model(ireps@) == ms0);
                }
                return Err(e);
            },
        }
        f += 1;
    }
    let ghost lm = lines@;
    ireps[idx].lines = lines;
    let ghost ms1 = ms0.update(idx as int, IrepModel { lines: lm, ..ms0[idx as int] });
    assert(ireps_model(ireps@) =~= ms1);
    if at < record_start || at - record_start != record_size {
        return Err(Error::InvalidFormat);
    }
    *irep_idx += 1;
    let mut child = *irep_idx;
    let mut t = 0usize;
    let ghost target = spec_dbg_children(s, ms1, n, idx + 1, rlen as nat, at as int, limit as int);
    assert(spec_dbg_walk(s, ms0, n, idx as int, record_start as int, limit as int) == target);
    while t < rlen
        invariant
            s == head@,
            ireps@.len() == n,
            n == old(ireps)@.len(),
            idx < n,
            idx < child <= n,
            t <= rlen,
            target == spec_dbg_children(s, ireps_model(ireps@), n, child as int, (rlen - t) as nat, at as int, limit as int),
            target == spec_dbg_walk(s, ireps_model(old(ireps)@), n, i0 as int, record_start as int, limit as int),
            i0 == idx,
            idx == *old(irep_idx),
            record_start == cur,
            *irep_idx == idx + 1,
            target.outcome !is Abort,
        decreases rlen - t,
    {
        let ghost msb = ireps_model(ireps@);
        let ghost w = spec_dbg_walk(s, msb, n, child as int, at as int, limit as int);
        assert(target == match w.outcome {
            Step::Done((c3, e)) => {
                let e2 = if e < child || e > n { child as int } else { e };
                spec_dbg_children(s, w.ireps, n, e2, (rlen - t - 1) as nat, c3, limit as int)
            },
            _ => w,
        });
        match read_debug_record(head, at, ireps, &mut child, limit) {
            Ok(c2) => {
                at = c2;
            },
            Err(e) => {
                assert(target == w);
                assert(ireps_model(ireps@) == w.ireps);
                assert(w.outcome == Step::<(int, int)>::Fail(e));
                assert(target == spec_dbg_walk(head@, ireps_model(old(ireps)@), old(ireps)@.len() as int, *old(irep_idx) as int, record_start as int, limit as int));
                assert(ireps_model(ireps@) == target.ireps);
                return Err(e);
            },
        }
        t += 1;
    }
    *irep_idx = child;
    Ok(at)
}

/// Parses the debug section. File names are consumed but not kept: only the
/// per-irep source line maps are stored, in the same DFS pre-order as the
/// irep records.
pub fn parse_debug_section(head: &[u8], ireps: &mut [Irep]) -> (r: Result<usize, Error>)
    requires
        spec_debug_section(head@, ireps_model(old(ireps)@)).0 !is Abort,
    ensures
        final(ireps)@.len() == old(ireps)@.len(),
        ({
            let (st, ms) = spec_debug_section(head@, ireps_model(old(ireps)@));
            &&& ireps_model(final(ireps)@) == ms
            &&& match st {
                Step::Done(size) => r matches Ok(sz) && sz == size,
                Step::Fail(e) => r == Err::<usize, Error>(e),
                Step::Abort => false,
            }
        }),
{
    let ghost ms0 = ireps_model(ireps@);
    let header = SectionMiscHeader::from_bytes(head)?;
    let section_size = be32_to_u32(header.size) as usize;
    assert(be32_at(header.size@, 0) == be32_at(head@, 4));
    if head.len() < section_size {
        return Err(Error::TooShort);
    }
    let sec = &head[0..section_size];
    let ghost s = sec@;
    assert(s == head@.subrange(0, section_size as int));
    let mut cur = MISC_HEADER_SIZE;
    let file_count = match u16_at(sec, cur) {
        Ok(v) => v as usize,
        Err(e) => {
            assert(e == Error::TooShort);
            return Err(e);
        },
    };
    cur += 2;
    let mut f = 0usize;
    assert(spec_dbg_names(s, 10, file_count as nat) !is Abort);
    while f < file_count
        invariant
            s == sec@,
            f <= file_count,
            ireps@ == old(ireps)@,
            spec_dbg_names(s, 10, f as nat) == Step::<int>::Done(cur as int),
            spec_dbg_names(s, 10, file_count as nat) !is Abort,
            match spec_dbg_names(s, 10, file_count as nat) {
                Step::Fail(e) => spec_debug_section(head@, ireps_model(old(ireps)@)) == (Step::<int>::Fail(e), ireps_model(old(ireps)@)),
                _ => true,
            },
        decreases file_count - f,
    {
        let len = match u16_at(sec, cur) {
            Ok(v) => v as usize,
            Err(e) => {
                proof {
                    assert(e == Error::TooShort);
                    assert(spec_dbg_names(s, 10, (f + 1) as nat) == Step::<int>::Fail(Error::TooShort));
                    lemma_names_stuck(s, 10, (f + 1) as nat, file_count as nat);
                }
                return Err(e);
            },
        };
        if usize::MAX - cur < 2 || usize::MAX - cur - 2 < len {
            proof {
                lemma_names_stuck(s, 10, (f + 1) as nat, file_count as nat);
            }
            assert(false);
        }
        cur += 2 + len;
        f += 1;
    }
    let mut idx = 0usize;
    let ghost w = spec_dbg_walk(s, ms0, ms0.len() as int, 0, cur as int, section_size as int);
    cur = read_debug_record(sec, cur, ireps, &mut idx, section_size)?;
    if cur > section_size {
        return Err(Error::InvalidFormat);
    }
    Ok(section_size)
}

// ---------------------------------------------------------------------------
// Whole container
// ---------------------------------------------------------------------------

/// A loaded RITE container; `irep` borrows its instruction bytes from the
/// input.
#[derive(Debug)]
pub struct Rite<'a> {
    pub binary_header: RiteBinaryHeader,
    pub irep_header: SectionIrepHeader,
    pub irep: Vec<Irep<'a>>,
    pub lvar: Option<LVar>,
}

/// What a loader state holds: the IREP section header bytes (zero until an
/// IREP section is read), the records, and the LVAR header bytes with the
/// name table.
pub struct RiteModel {
    pub irep_header: Seq<u8>,
    pub ireps: Seq<IrepModel>,
    pub lvar: Option<(Seq<u8>, Seq<Seq<u8>>)>,
}

pub open spec fn irep_header_bytes(h: SectionIrepHeader) -> Seq<u8> {
    h.ident@ + h.size@ + h.rite_version@
}

pub open spec fn lvar_model(l: Option<LVar>) -> Option<(Seq<u8>, Seq<Seq<u8>>)> {
    match l {
        Some(l) => Some((l.header.ident@ + l.header.size@, l.syms@.map_values(|b: Vec<u8>| b@))),
        None => None,
    }
}

pub open spec fn rite_model<'a>(r: Rite<'a>) -> RiteModel {
    RiteModel {
        irep_header: irep_header_bytes(r.irep_header),
        ireps: ireps_model(r.irep@),
        lvar: lvar_model(r.lvar),
    }
}

pub open spec fn tag_is(head: Seq<u8>, a: u8, b: u8, c: u8, d: u8) -> bool {
    head[0] == a && head[1] == b && head[2] == c && head[3] == d
}

/// One section at the start of `head` applied to the loader state `st`:
/// the bytes the section spans and the state after it.
#[verifier::opaque]
pub open spec fn spec_section_step(head: Seq<u8>, st: RiteModel) -> (Step<int>, RiteModel) {
    if tag_is(head, 0x49, 0x52, 0x45, 0x50) {
        match spec_section_irep(head) {
            Step::Done((size, irs)) => (
                Step::Done(size),
                RiteModel { irep_header: head.subrange(0, 12), ireps: irs, ..st },
            ),
            Step::Fail(e) => (Step::Fail(e), st),
            Step::Abort => (Step::Abort, st),
        }
    } else if tag_is(head, 0x4c, 0x56, 0x41, 0x52) {
        let (r, ms) = spec_section_lvar(head, st.ireps);
        match r {
            Step::Done((size, names)) => (
                Step::Done(size),
                RiteModel { ireps: ms, lvar: Some((head.subrange(0, 8), names)), ..st },
            ),
            Step::Fail(e) => (Step::Fail(e), st),
            Step::Abort => (Step::Abort, st),
        }
    } else if tag_is(head, 0x44, 0x42, 0x47, 0x00) {
        let (r, ms) = spec_debug_section(head, st.ireps);
        match r {
            Step::Done(size) => (Step::Done(size), RiteModel { ireps: ms, ..st }),
            Step::Fail(e) => (Step::Fail(e), st),
            Step::Abort => (Step::Abort, st),
        }
    } else if tag_is(head, 0x45, 0x4e, 0x44, 0x00) {
        match spec_section_size(head) {
            Ok(size) => (Step::Done(size as int), st),
            Err(e) => (Step::Fail(e), st),
        }
    } else {
        (Step::Fail(Error::InvalidFormat), st)
    }
}

/// Sections from `pos` on, each applied to the loader state `st`. A
/// section that spans zero bytes would repeat forever; one that claims
/// more bytes than remain cannot be skipped.
pub open spec fn spec_sections(s: Seq<u8>, pos: int, st: RiteModel) -> Step<RiteModel>
    decreases s.len() - pos,
{
    let head = s.subrange(pos, s.len() as int);
    if pos < 0 || pos > s.len() || head.len() < 4 {
        Step::Done(st)
    } else {
        let r = spec_section_step(head, st);
        match r.0 {
            Step::Done(size) => if size <= 0 || size > head.len() {
                Step::Abort
            } else {
                spec_sections(s, pos + size, r.1)
            },
            Step::Fail(e) => Step::Fail(e),
            Step::Abort => Step::Abort,
        }
    }
}

/// Reads the section at the start of `head` into `rite`: the bytes it spans.
fn load_section<'a>(head: &'a [u8], rite: &mut Rite<'a>) -> (r: Result<usize, Error>)
    requires
        head@.len() >= 4,
        spec_section_step(head@, rite_model(*old(rite))).0 !is Abort,
    ensures
        final(rite).binary_header == old(rite).binary_header,
        ({
            let (st, m) = spec_section_step(head@, rite_model(*old(rite)));
            match st {
                Step::Done(size) => r matches Ok(c) && c == size && rite_model(*final(rite)) == m,
                Step::Fail(e) => r == Err::<usize, Error>(e),
                Step::Abort => false,
            }
        }),
{
    reveal(spec_section_step);
    let chrs = match peek4(head) {
        Some(c) => c,
        None => {
            assert(false);
            return Err(Error::TooShort);
        },
    };
    if chrs[0] == 'I' && chrs[1] == 'R' && chrs[2] == 'E' && chrs[3] == 'P' {
        assert(tag_is(head@, 0x49, 0x52, 0x45, 0x50));
        let (c, irep_header, irep) = section_irep_1(head)?;
        rite.irep_header = irep_header;
        rite.irep = irep;
        assert(irep_header_bytes(irep_header) =~= head@.subrange(0, 12));
        Ok(c)
    } else if chrs[0] == 'L' && chrs[1] == 'V' && chrs[2] == 'A' && chrs[3] == 'R' {
        assert(tag_is(head@, 0x4c, 0x56, 0x41, 0x52));
        assert(!tag_is(head@, 0x49, 0x52, 0x45, 0x50));
        let (c, lvar) = section_lvar(head, rite.irep.as_mut_slice())?;
        assert(lvar.header.ident@ + lvar.header.size@ =~= head@.subrange(0, 8));
        rite.lvar = Some(lvar);
        Ok(c)
    } else if chrs[0] == 'D' && chrs[1] == 'B' && chrs[2] == 'G' && chrs[3] == '\0' {
        assert(tag_is(head@, 0x44, 0x42, 0x47, 0x00));
        assert(!tag_is(head@, 0x49, 0x52, 0x45, 0x50));
        assert(!tag_is(head@, 0x4c, 0x56, 0x41, 0x52));
        parse_debug_section(head, rite.irep.as_mut_slice())
    } else if chrs[0] == 'E' && chrs[1] == 'N' && chrs[2] == 'D' && chrs[3] == '\0' {
        assert(tag_is(head@, 0x45, 0x4e, 0x44, 0x00));
        assert(!tag_is(head@, 0x49, 0x52, 0x45, 0x50));
        assert(!tag_is(head@, 0x4c, 0x56, 0x41, 0x52));
        assert(!tag_is(head@, 0x44, 0x42, 0x47, 0x00));
        section_end(head)
    } else {
        Err(Error::InvalidFormat)
    }
}

/// How loading ends.
pub enum LoadOutcome {
    Abort,
    BadVersion,
    Fail(Error),
    Done(RiteModel),
}

/// Loading `src`: the 20-byte binary header (format major version "04"),
/// room for at least an IREP section header, then the sections.
pub open spec fn spec_load(src: Seq<u8>) -> LoadOutcome {
    if src.len() < BINARY_HEADER_SIZE {
        LoadOutcome::Fail(Error::TooShort)
    } else if !(src[4] == 0x30 && src[5] == 0x34) {
        LoadOutcome::BadVersion
    } else if src.len() - BINARY_HEADER_SIZE < IREP_HEADER_SIZE {
        LoadOutcome::Fail(Error::TooShort)
    } else {
        let init = RiteModel { irep_header: Seq::new(12, |i: int| 0u8), ireps: seq![], lvar: None };
        match spec_sections(src, BINARY_HEADER_SIZE as int, init) {
            Step::Done(m) => LoadOutcome::Done(m),
            Step::Fail(e) => LoadOutcome::Fail(e),
            Step::Abort => LoadOutcome::Abort,
        }
    }
}

/// Loads a RITE container: checks the binary header (only format major
/// version "04" is accepted) and reads the IREP, LVAR, DBG and END sections
/// in the order they come.
pub fn load<'a>(src: &'a [u8]) -> (r: Result<Rite<'a>, Error>)
    requires
        spec_load(src@) !is Abort,
    ensures
        match spec_load(src@) {
            LoadOutcome::Done(m) => r matches Ok(rite) && rite_model(rite) == m
                && rite.binary_header.ident@ == src@.subrange(0, 4)
                && rite.binary_header.major_version@ == src@.subrange(4, 6)
                && rite.binary_header.minor_version@ == src@.subrange(6, 8)
                && rite.binary_header.size@ == src@.subrange(8, 12)
                && rite.binary_header.compiler_name@ == src@.subrange(12, 16)
                && rite.binary_header.compiler_version@ == src@.subrange(16, 20),
            LoadOutcome::BadVersion => r matches Err(Error::UnsupportedVersion(v)) && v@
                == src@.subrange(4, 6),
            LoadOutcome::Fail(e) => r == Err::<Rite<'a>, Error>(e),
            LoadOutcome::Abort => false,
        },
{
    let ghost s = src@;
    let size = src.len();
    if size < BINARY_HEADER_SIZE {
        return Err(Error::TooShort);
    }
    let binary_header = RiteBinaryHeader::from_bytes(&src[0..BINARY_HEADER_SIZE])?;
    if !(binary_header.major_version[0] == 0x30 && binary_header.major_version[1] == 0x34) {
        return Err(Error::UnsupportedVersion(binary_header.major_version));
    }
    if size - BINARY_HEADER_SIZE < IREP_HEADER_SIZE {
        return Err(Error::TooShort);
    }
    let mut rite = Rite {
        binary_header,
        irep_header: SectionIrepHeader { ident: [0, 0, 0, 0], size: [0, 0, 0, 0], rite_version: [0, 0, 0, 0] },
        irep: Vec::new(),
        lvar: None,
    };
    let ghost init = RiteModel { irep_header: Seq::new(12, |i: int| 0u8), ireps: seq![], lvar: None };
    assert(rite_model(rite) =~= init) by {
        assert(irep_header_bytes(rite.irep_header) =~= Seq::new(12, |i: int| 0u8));
        assert(ireps_model(rite.irep@) =~= seq![]);
    }
    let ghost target = spec_sections(s, BINARY_HEADER_SIZE as int, init);
    let mut head: &'a [u8] = &src[BINARY_HEADER_SIZE..size];
    let mut pos = BINARY_HEADER_SIZE;
    while head.len() >= 4
        invariant
            s == src@,
            size == s.len(),
            pos <= size,
            head@ == s.subrange(pos as int, size as int),
            target == spec_sections(s, pos as int, rite_model(rite)),
            target !is Abort,
            spec_load(s) == match target {
                Step::Done(m) => LoadOutcome::Done(m),
                Step::Fail(e) => LoadOutcome::Fail(e),
                Step::Abort => LoadOutcome::Abort,
            },
            rite.binary_header == binary_header,
            binary_header.ident@ == s.subrange(0, 4),
            binary_header.major_version@ == s.subrange(4, 6),
            binary_header.minor_version@ == s.subrange(6, 8),
            binary_header.size@ == s.subrange(8, 12),
            binary_header.compiler_name@ == s.subrange(12, 16),
            binary_header.compiler_version@ == s.subrange(16, 20),
        decreases size - pos,
    {
        let hl = head.len();
        let cur = load_section(head, &mut rite)?;
        if cur == 0 || cur > hl {
            assert(false);
        }
        head = &head[cur..hl];
        pos = pos + cur;
        assert(head@ =~= s.subrange(pos as int, size as int));
    }
    Ok(rite)
}

} // verus!
