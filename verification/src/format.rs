//! Binary layout of the CHM container.
//!
//! Parsers for the ITSF/ITSP headers, the PMGL/PMGI directory blocks, and the LZXC
//! control-data and reset-table structures that describe the compressed section.
//!
//! Every parser validates signatures and lengths up front, so the fixed-offset readers can
//! rely on the buffer already being long enough.

use vstd::arithmetic::power2::{
    lemma2_to64, lemma_pow2_strictly_increases, lemma_pow2_unfold, pow2,
};
use vstd::prelude::*;
use vstd::utf8::{decode_utf8, valid_utf8};

use crate::error::{outcome, ChmError, Fault, Result};
use crate::le::{i32_le, le32, le64, signed32, u32_le, u64_le};

verus! {

pub const ITSF_V2_LEN: usize = 0x58;

pub const ITSF_V3_LEN: usize = 0x60;

pub const ITSP_V1_LEN: usize = 0x54;

pub const PMGL_HEADER_LEN: usize = 0x14;

pub const PMGI_HEADER_LEN: usize = 0x08;

pub const LZXC_RESET_TABLE_LEN: usize = 0x28;

pub const LZXC_MIN_LEN: usize = 0x18;

pub const MAX_PATH_LEN: usize = 512;

/// Upper bound accepted for the ITSP directory block size.
///
/// Real files always use 0x1000. The cap exists so a corrupt header cannot make us allocate
/// a multi-gigabyte block buffer.
pub const MAX_BLOCK_LEN: u32 = 0x10_0000;

/// Largest accumulator a cword may reach before the next 7-bit shift would overflow.
pub const MAX_CWORD_ACCUM: u64 = 0x1ff_ffff_ffff_ffff;

/// Bytes that version 2 control data counts as one unit.
pub const LZXC_UNIT: u32 = 0x8000;

/// `ITSF`
pub const SIG_ITSF: [u8; 4] = [0x49, 0x54, 0x53, 0x46];

/// `ITSP`
pub const SIG_ITSP: [u8; 4] = [0x49, 0x54, 0x53, 0x50];

/// `PMGL`
pub const SIG_PMGL: [u8; 4] = [0x50, 0x4d, 0x47, 0x4c];

/// `PMGI`
pub const SIG_PMGI: [u8; 4] = [0x50, 0x4d, 0x47, 0x49];

/// `LZXC`
pub const SIG_LZXC: [u8; 4] = [0x4c, 0x5a, 0x58, 0x43];

/// Which kind of directory block is being parsed, so the shared cword and path helpers can
/// report the matching error variant.
#[derive(Debug, Clone, Copy, PartialEq, Eq, Structural)]
pub enum BlockKind {
    Pmgl,
    Pmgi,
}

impl BlockKind {
    /// What is reported of a malformed block of this kind.
    pub open spec fn fault(self) -> Fault {
        match self {
            BlockKind::Pmgl => Fault::BadPmgl,
            BlockKind::Pmgi => Fault::BadPmgi,
        }
    }

    pub fn malformed(self) -> (e: ChmError)
        ensures
            e@ == self.fault(),
    {
        match self {
            BlockKind::Pmgl => ChmError::BadPmgl,
            BlockKind::Pmgi => ChmError::BadPmgi,
        }
    }
}

#[derive(Debug, Clone)]
pub struct ItsfHeader {
    pub dir_offset: u64,
    pub data_offset: u64,
}

#[derive(Debug, Clone)]
pub struct ItspHeader {
    pub block_len: u32,
    pub index_root: i32,
    pub index_head: i32,
    pub header_len: u32,
}

#[derive(Debug, Clone)]
pub struct PmglHeader {
    pub free_space: u32,
    pub block_next: i32,
}

#[derive(Debug, Clone)]
pub struct PmgiHeader {
    pub free_space: u32,
}

#[derive(Debug, Clone)]
pub struct LzxcResetTable {
    pub block_count: u32,
    pub table_offset: u32,
    pub compressed_len: u64,
    pub block_len: u64,
}

#[derive(Debug, Clone)]
pub struct LzxcControlData {
    pub reset_interval: u32,
    pub window_size: u32,
    pub windows_per_reset: u32,
}

#[derive(Debug, Clone)]
pub struct PmglEntry {
    pub path: String,
    pub space: u8,
    pub start: u64,
    pub length: u64,
}

/// What a PMGL entry says.
pub struct EntryRecord {
    pub path: Seq<char>,
    pub space: u8,
    pub start: u64,
    pub length: u64,
}

impl View for PmglEntry {
    type V = EntryRecord;

    open spec fn view(&self) -> EntryRecord {
        EntryRecord {
            path: self.path@,
            space: self.space,
            start: self.start,
            length: self.length,
        }
    }
}

/// `buf` holds the four bytes `sig` at `at`.
pub open spec fn has_signature(buf: Seq<u8>, at: int, sig: Seq<u8>) -> bool {
    &&& at + 4 <= buf.len()
    &&& buf.subrange(at, at + 4) == sig
}

/// Whether `buf` holds the four bytes `sig` at `at`.
pub fn signed_with(buf: &[u8], at: usize, sig: [u8; 4]) -> (r: bool)
    ensures
        r == has_signature(buf@, at as int, sig@),
{
    if buf.len() < 4 || at > buf.len() - 4 {
        return false;
    }
    let r: bool = buf[at] == sig[0] && buf[at + 1] == sig[1] && buf[at + 2] == sig[2] && buf[at
        + 3] == sig[3];
    let ghost held = buf@.subrange(at as int, at + 4);
    assert(r ==> held =~= sig@);
    assert(held[0] == buf@[at as int] && held[1] == buf@[at + 1] && held[2] == buf@[at + 2]
        && held[3] == buf@[at + 3]);
    r
}

/// What an ITSF header says. Version 3 gives the content offset; version 2 has no such
/// field, and its content starts behind the directory.
pub open spec fn itsf_header(buf: Seq<u8>) -> core::result::Result<ItsfHeader, Fault> {
    let version = le32(buf, 4);
    let dir_offset = le64(buf, 0x48);
    let data_offset = if version == 3 {
        le64(buf, 0x58)
    } else {
        dir_offset + le64(buf, 0x50)
    };
    if buf.len() < ITSF_V2_LEN || !has_signature(buf, 0, SIG_ITSF@) {
        Err(Fault::BadItsf)
    } else if version == 2 && le32(buf, 8) < ITSF_V2_LEN {
        Err(Fault::BadItsf)
    } else if version == 3 && (le32(buf, 8) < ITSF_V3_LEN || buf.len() < ITSF_V3_LEN) {
        Err(Fault::BadItsf)
    } else if version != 2 && version != 3 {
        Err(Fault::BadItsf)
    } else if data_offset > u64::MAX {
        Err(Fault::Overflow)
    } else {
        Ok(ItsfHeader { dir_offset: dir_offset as u64, data_offset: data_offset as u64 })
    }
}

pub fn parse_itsf(buf: &[u8]) -> (r: Result<ItsfHeader>)
    ensures
        outcome(r) == itsf_header(buf@),
{
    if buf.len() < ITSF_V2_LEN || !signed_with(buf, 0, SIG_ITSF) {
        return Err(ChmError::BadItsf);
    }
    let version: u32 = u32_le(buf, 4);
    let header_len: u32 = u32_le(buf, 8);
    let min_len: u32 = if version == 2 {
        ITSF_V2_LEN as u32
    } else if version == 3 {
        ITSF_V3_LEN as u32
    } else {
        return Err(ChmError::BadItsf);
    };
    if header_len < min_len {
        return Err(ChmError::BadItsf);
    }
    let dir_offset: u64 = u64_le(buf, 0x48);
    let dir_len: u64 = u64_le(buf, 0x50);
    // V3 stores the content offset explicitly; V2 has no such field, so content starts
    // immediately after the directory.
    let data_offset: u64 = if version == 3 {
        if buf.len() < ITSF_V3_LEN {
            return Err(ChmError::BadItsf);
        }
        u64_le(buf, 0x58)
    } else {
        match dir_offset.checked_add(dir_len) {
            Some(end) => end,
            None => {
                return Err(ChmError::Overflow);
            },
        }
    };
    Ok(ItsfHeader { dir_offset, data_offset })
}

/// What an ITSP header says. A block must at least hold a PMGL header, and must stay small
/// enough that allocating a block buffer per directory walk is harmless.
pub open spec fn itsp_header(buf: Seq<u8>) -> core::result::Result<ItspHeader, Fault> {
    if buf.len() < ITSP_V1_LEN || !has_signature(buf, 0, SIG_ITSP@) || le32(buf, 4) != 1 || le32(
        buf,
        8,
    ) != ITSP_V1_LEN || !(PMGL_HEADER_LEN <= le32(buf, 0x10) <= MAX_BLOCK_LEN) {
        Err(Fault::BadItsp)
    } else {
        Ok(
            ItspHeader {
                block_len: le32(buf, 0x10) as u32,
                index_root: signed32(le32(buf, 0x1c)) as i32,
                index_head: signed32(le32(buf, 0x20)) as i32,
                header_len: le32(buf, 8) as u32,
            },
        )
    }
}

pub fn parse_itsp(buf: &[u8]) -> (r: Result<ItspHeader>)
    ensures
        outcome(r) == itsp_header(buf@),
{
    if buf.len() < ITSP_V1_LEN || !signed_with(buf, 0, SIG_ITSP) {
        return Err(ChmError::BadItsp);
    }
    if u32_le(buf, 4) != 1 {
        return Err(ChmError::BadItsp);
    }
    let header_len: u32 = u32_le(buf, 8);
    if header_len != ITSP_V1_LEN as u32 {
        return Err(ChmError::BadItsp);
    }
    let block_len: u32 = u32_le(buf, 0x10);
    if block_len < PMGL_HEADER_LEN as u32 || block_len > MAX_BLOCK_LEN {
        return Err(ChmError::BadItsp);
    }
    Ok(
        ItspHeader {
            block_len,
            index_root: i32_le(buf, 0x1c),
            index_head: i32_le(buf, 0x20),
            header_len,
        },
    )
}

/// What the header of a PMGL block says.
pub open spec fn pmgl_header(buf: Seq<u8>) -> core::result::Result<PmglHeader, Fault> {
    if buf.len() < PMGL_HEADER_LEN || !has_signature(buf, 0, SIG_PMGL@) {
        Err(Fault::BadPmgl)
    } else {
        Ok(
            PmglHeader {
                free_space: le32(buf, 4) as u32,
                block_next: signed32(le32(buf, 0x10)) as i32,
            },
        )
    }
}

pub fn parse_pmgl(buf: &[u8]) -> (r: Result<PmglHeader>)
    ensures
        outcome(r) == pmgl_header(buf@),
{
    if buf.len() < PMGL_HEADER_LEN || !signed_with(buf, 0, SIG_PMGL) {
        return Err(ChmError::BadPmgl);
    }
    Ok(PmglHeader { free_space: u32_le(buf, 4), block_next: i32_le(buf, 0x10) })
}

/// What the header of a PMGI block says.
pub open spec fn pmgi_header(buf: Seq<u8>) -> core::result::Result<PmgiHeader, Fault> {
    if buf.len() < PMGI_HEADER_LEN || !has_signature(buf, 0, SIG_PMGI@) {
        Err(Fault::BadPmgi)
    } else {
        Ok(PmgiHeader { free_space: le32(buf, 4) as u32 })
    }
}

pub fn parse_pmgi(buf: &[u8]) -> (r: Result<PmgiHeader>)
    ensures
        outcome(r) == pmgi_header(buf@),
{
    if buf.len() < PMGI_HEADER_LEN || !signed_with(buf, 0, SIG_PMGI) {
        return Err(ChmError::BadPmgi);
    }
    Ok(PmgiHeader { free_space: u32_le(buf, 4) })
}

/// What the header of a reset table says. `block_len` divides every address in the
/// compressed space and `block_count` bounds every reset-table lookup, so neither may be
/// zero.
pub open spec fn reset_table(buf: Seq<u8>) -> core::result::Result<LzxcResetTable, Fault> {
    if buf.len() < LZXC_RESET_TABLE_LEN || le32(buf, 0) != 2 || le32(buf, 4) == 0 || le64(
        buf,
        0x20,
    ) == 0 {
        Err(Fault::BadResetTable)
    } else {
        Ok(
            LzxcResetTable {
                block_count: le32(buf, 4) as u32,
                table_offset: le32(buf, 0x0c) as u32,
                compressed_len: le64(buf, 0x18) as u64,
                block_len: le64(buf, 0x20) as u64,
            },
        )
    }
}

pub fn parse_lzxc_reset_table(buf: &[u8]) -> (r: Result<LzxcResetTable>)
    ensures
        outcome(r) == reset_table(buf@),
{
    if buf.len() < LZXC_RESET_TABLE_LEN {
        return Err(ChmError::BadResetTable);
    }
    if u32_le(buf, 0) != 2 {
        return Err(ChmError::BadResetTable);
    }
    let table = LzxcResetTable {
        block_count: u32_le(buf, 4),
        table_offset: u32_le(buf, 0x0c),
        compressed_len: u64_le(buf, 0x18),
        block_len: u64_le(buf, 0x20),
    };
    if table.block_len == 0 || table.block_count == 0 {
        return Err(ChmError::BadResetTable);
    }
    Ok(table)
}

impl LzxcControlData {
    /// Nothing is zero, and the window is a power of two whose half divides the reset
    /// interval.
    pub open spec fn wf(&self) -> bool {
        &&& self.reset_interval > 0
        &&& self.windows_per_reset > 0
        &&& self.window_size >= 2
        &&& is_pow2(self.window_size as int)
        &&& self.reset_interval as int % (self.window_size as int / 2) == 0
    }
}

/// A length field of the control data in bytes: version 2 stores it in units of
/// [`LZXC_UNIT`], and what does not fit in 32 bits counts as the largest number that does.
pub open spec fn control_len(version: nat, stored: nat) -> nat {
    if version != 2 {
        stored
    } else if stored * LZXC_UNIT > u32::MAX {
        u32::MAX as nat
    } else {
        stored * LZXC_UNIT as nat
    }
}

/// `v` is a power of two.
pub open spec fn is_pow2(v: int) -> bool {
    exists|k: nat| #[trigger] pow2(k) == v
}

/// What the control data says. The window is a power of two whose half divides the reset
/// interval, and nothing is zero, so that `reset_interval / (window_size / 2)` is at least
/// one.
pub open spec fn control_data(buf: Seq<u8>) -> core::result::Result<LzxcControlData, Fault> {
    let version = le32(buf, 8);
    let reset_interval = control_len(version, le32(buf, 0x0c));
    let window_size = control_len(version, le32(buf, 0x10));
    let windows_per_reset = le32(buf, 0x14);
    if buf.len() < LZXC_MIN_LEN || !has_signature(buf, 4, SIG_LZXC@) || reset_interval == 0
        || windows_per_reset == 0 || window_size < 2 || !is_pow2(window_size as int)
        || reset_interval % (window_size / 2) != 0 {
        Err(Fault::BadLzxc)
    } else {
        Ok(
            LzxcControlData {
                reset_interval: reset_interval as u32,
                window_size: window_size as u32,
                windows_per_reset: windows_per_reset as u32,
            },
        )
    }
}

/// A length field of the control data in bytes.
fn scaled_len(version: u32, stored: u32) -> (r: u32)
    ensures
        r == control_len(version as nat, stored as nat),
{
    if version != 2 {
        stored
    } else {
        match stored.checked_mul(LZXC_UNIT) {
            Some(len) => len,
            None => u32::MAX,
        }
    }
}

/// The logarithm of a power of two to base two.
pub open spec fn log2(v: int) -> nat {
    choose|k: nat| #[trigger] pow2(k) == v
}

/// The logarithm undoes the power.
pub proof fn lemma_log2(k: nat)
    ensures
        log2(pow2(k) as int) == k,
{
    let j = log2(pow2(k) as int);
    assert(pow2(j) == pow2(k));
    if j < k {
        lemma_pow2_strictly_increases(j, k);
    } else if k < j {
        lemma_pow2_strictly_increases(k, j);
    }
}

/// The logarithm of a power of two to base two.
pub fn exact_log2(v: u32) -> (r: Option<u8>)
    ensures
        match r {
            Some(k) => k < 32 && v == pow2(k as nat) && k == log2(v as int),
            None => !is_pow2(v as int),
        },
{
    proof {
        lemma2_to64();
    }
    let mut k: u8 = 0;
    let mut p: u64 = 1;
    while p < v as u64
        invariant
            p == pow2(k as nat),
            k <= 32,
            k < 32 || p >= 0x1_0000_0000,
            forall|j: nat| j < k ==> #[trigger] pow2(j) < v,
        decreases 32 - k,
    {
        proof {
            assert(pow2((k + 1) as nat) == 2 * pow2(k as nat)) by {
                lemma_pow2_unfold((k + 1) as nat);
            }
            assert(k + 1 == 32 ==> pow2((k + 1) as nat) == 0x1_0000_0000) by {
                lemma2_to64();
            }
            if k < 32 {
                lemma_pow2_strictly_increases(k as nat, 33);
                lemma2_to64();
            }
        }
        p = p * 2;
        k = k + 1;
    }
    if p == v as u64 {
        proof {
            lemma2_to64();
            lemma_log2(k as nat);
        }
        Some(k)
    } else {
        assert forall|j: nat| #[trigger] pow2(j) != v by {
            if j > k {
                lemma_pow2_strictly_increases(k as nat, j);
            }
        }
        None
    }
}

pub fn parse_lzxc_control_data(buf: &[u8]) -> (r: Result<LzxcControlData>)
    ensures
        outcome(r) == control_data(buf@),
        r matches Ok(ctl) ==> ctl.wf(),
{
    if buf.len() < LZXC_MIN_LEN || !signed_with(buf, 4, SIG_LZXC) {
        return Err(ChmError::BadLzxc);
    }
    let version: u32 = u32_le(buf, 8);
    // Version 2 stores both fields in 0x8000-byte units.
    let reset_interval: u32 = scaled_len(version, u32_le(buf, 0x0c));
    let window_size: u32 = scaled_len(version, u32_le(buf, 0x10));
    let windows_per_reset: u32 = u32_le(buf, 0x14);
    if window_size == 0 || reset_interval == 0 || windows_per_reset == 0 {
        return Err(ChmError::BadLzxc);
    }
    if exact_log2(window_size).is_none() {
        return Err(ChmError::BadLzxc);
    }
    // Guarantees `reset_interval / (window_size / 2) >= 1`, so the reset block count the
    // decompressor derives from these fields can never be zero.
    if window_size == 1 || reset_interval % (window_size / 2) != 0 {
        return Err(ChmError::BadLzxc);
    }
    Ok(LzxcControlData { reset_interval, window_size, windows_per_reset })
}

/// The position of the first byte without the continuation bit from `from` on, or the end
/// of the buffer if there is none.
pub open spec fn cword_last(buf: Seq<u8>, from: int) -> int
    decreases buf.len() - from,
{
    if from >= buf.len() {
        buf.len() as int
    } else if buf[from] < 0x80 {
        from
    } else {
        cword_last(buf, from + 1)
    }
}

/// The big-endian base-128 number made of the low seven bits of the bytes `lo..hi`.
pub open spec fn base128(buf: Seq<u8>, lo: int, hi: int) -> nat
    decreases hi - lo,
{
    if hi <= lo {
        0
    } else {
        base128(buf, lo, hi - 1) * 128 + buf[hi - 1] as nat % 128
    }
}

/// The cword at `offset`, with the position behind it: a big-endian base-128 integer each
/// of whose bytes but the last has the high bit set. A number that does not fit in 64 bits
/// is an overflow, even where the buffer ends before the number does.
pub open spec fn cword(buf: Seq<u8>, offset: int, kind: BlockKind) -> core::result::Result<
    (u64, int),
    Fault,
> {
    let last = cword_last(buf, offset);
    if last >= buf.len() {
        if base128(buf, offset, buf.len() as int) > u64::MAX {
            Err(Fault::Overflow)
        } else {
            Err(kind.fault())
        }
    } else if base128(buf, offset, last + 1) > u64::MAX {
        Err(Fault::Overflow)
    } else {
        Ok((base128(buf, offset, last + 1) as u64, last + 1))
    }
}

/// More bytes make a larger number.
proof fn lemma_base128_grows(buf: Seq<u8>, lo: int, mid: int, hi: int)
    requires
        mid <= hi,
    ensures
        base128(buf, lo, mid) <= base128(buf, lo, hi),
    decreases hi - mid,
{
    if mid < hi {
        lemma_base128_grows(buf, lo, mid, hi - 1);
    }
}

/// The last byte of a cword lies at or behind its start.
proof fn lemma_cword_last(buf: Seq<u8>, from: int)
    ensures
        cword_last(buf, from) <= buf.len(),
        from <= buf.len() ==> from <= cword_last(buf, from),
        0 <= from && cword_last(buf, from) < buf.len() ==> from <= cword_last(buf, from),
    decreases buf.len() - from,
{
    if from < buf.len() && buf[from] >= 0x80 {
        lemma_cword_last(buf, from + 1);
    }
}

/// Parses one cword from `buf` starting at byte index `offset`. Returns
/// `(value, new_offset)`.
///
/// A cword is a big-endian base-128 integer: each byte contributes seven bits, and the high
/// bit marks "another byte follows".
pub fn parse_cword(buf: &[u8], offset: usize, kind: BlockKind) -> (r: Result<(u64, usize)>)
    ensures
        match r {
            Ok((v, end)) => cword(buf@, offset as int, kind) == Ok::<_, Fault>((v, end as int)),
            Err(e) => cword(buf@, offset as int, kind) == Err::<(u64, int), _>(e@),
        },
        r matches Ok((_, end)) ==> offset < end <= buf@.len(),
{
    assert(buf.len() == buf@.len());
    let mut accum: u64 = 0;
    let mut i: usize = offset;
    proof {
        lemma_cword_last(buf@, offset as int);
    }
    while i < buf.len()
        invariant
            offset <= i,
            i <= buf@.len() || i == offset,
            buf.len() == buf@.len(),
            accum == base128(buf@, offset as int, i as int),
            cword_last(buf@, offset as int) == cword_last(buf@, i as int),
            cword_last(buf@, offset as int) <= buf@.len(),
            i <= buf@.len() ==> i <= cword_last(buf@, offset as int),
        decreases buf@.len() - i,
    {
        let b: u8 = buf[i];
        // Reject a run of continuation bytes long enough to shift bits off the top.
        if accum > MAX_CWORD_ACCUM {
            proof {
                let last = cword_last(buf@, offset as int);
                lemma_base128_grows(
                    buf@,
                    offset as int,
                    i + 1,
                    if last < buf@.len() {
                        last + 1
                    } else {
                        last
                    },
                );
            }
            return Err(ChmError::Overflow);
        }
        accum = accum * 128 + (b % 128) as u64;
        i = i + 1;
        proof {
            lemma_cword_last(buf@, i as int);
        }
        if b < 0x80 {
            return Ok((accum, i));
        }
    }
    Err(kind.malformed())
}

/// `String::from_utf8`: the string that the bytes encode if they are UTF-8, and an error if
/// they are not. What the error holds is left unsaid.
pub assume_specification[ String::from_utf8 ](vec: Vec<u8>) -> (r: core::result::Result<
    String,
    std::string::FromUtf8Error,
>)
    ensures
        match r {
            Ok(s) => valid_utf8(vec@) && s@ == decode_utf8(vec@),
            Err(_) => !valid_utf8(vec@),
        },
;

/// The bytes `lo..hi` of a buffer.
pub fn bytes_between(buf: &[u8], lo: usize, hi: usize) -> (r: Vec<u8>)
    requires
        lo <= hi <= buf@.len(),
    ensures
        r@ == buf@.subrange(lo as int, hi as int),
{
    let mut r: Vec<u8> = Vec::new();
    let mut i: usize = lo;
    while i < hi
        invariant
            lo <= i <= hi <= buf@.len(),
            r@ == buf@.subrange(lo as int, i as int),
        decreases hi - i,
    {
        r.push(buf[i]);
        i = i + 1;
        assert(r@ =~= buf@.subrange(lo as int, i as int));
    }
    r
}

/// The path at `offset`, with the position behind it: a cword giving its length in bytes,
/// and as many bytes of UTF-8.
pub open spec fn path_at(buf: Seq<u8>, offset: int, kind: BlockKind) -> core::result::Result<
    (Seq<char>, int),
    Fault,
> {
    match cword(buf, offset, kind) {
        Err(e) => Err(e),
        Ok((len, pos)) => {
            let bytes = buf.subrange(pos, pos + len);
            if len > MAX_PATH_LEN {
                Err(Fault::PathTooLong)
            } else if pos + len > usize::MAX {
                Err(Fault::Overflow)
            } else if pos + len > buf.len() {
                Err(kind.fault())
            } else if !valid_utf8(bytes) {
                Err(Fault::Utf8)
            } else {
                Ok((decode_utf8(bytes), pos + len))
            }
        },
    }
}

/// Parses a cword-length-prefixed path from `buf` at `offset`. Returns
/// `(path, new_offset)`.
fn parse_path(buf: &[u8], offset: usize, kind: BlockKind) -> (r: Result<(String, usize)>)
    ensures
        match r {
            Ok((path, end)) => path_at(buf@, offset as int, kind) == Ok::<_, Fault>(
                (path@, end as int),
            ),
            Err(e) => path_at(buf@, offset as int, kind) == Err::<(Seq<char>, int), _>(e@),
        },
        r matches Ok((_, end)) ==> offset < end <= buf@.len(),
{
    let (path_len, pos): (u64, usize) = match parse_cword(buf, offset, kind) {
        Ok(v) => v,
        Err(e) => {
            return Err(e);
        },
    };
    if path_len > MAX_PATH_LEN as u64 {
        return Err(ChmError::PathTooLong);
    }
    let end: usize = match pos.checked_add(path_len as usize) {
        Some(end) => end,
        None => {
            return Err(ChmError::Overflow);
        },
    };
    if end > buf.len() {
        return Err(kind.malformed());
    }
    match String::from_utf8(bytes_between(buf, pos, end)) {
        Ok(path) => Ok((path, end)),
        Err(e) => Err(ChmError::Utf8(e)),
    }
}

/// The PMGL entry at `offset`, with the position behind it: a path and three cwords.
pub open spec fn pmgl_entry(buf: Seq<u8>, offset: int) -> core::result::Result<
    (EntryRecord, int),
    Fault,
> {
    let kind = BlockKind::Pmgl;
    match path_at(buf, offset, kind) {
        Err(e) => Err(e),
        Ok((path, p1)) => match cword(buf, p1, kind) {
            Err(e) => Err(e),
            Ok((space, p2)) => match cword(buf, p2, kind) {
                Err(e) => Err(e),
                Ok((start, p3)) => match cword(buf, p3, kind) {
                    Err(e) => Err(e),
                    Ok((length, p4)) => if space > u8::MAX {
                        Err(Fault::BadPmgl)
                    } else {
                        Ok((EntryRecord { path, space: space as u8, start, length }, p4))
                    },
                },
            },
        },
    }
}

/// Parses one PMGL entry from `buf` starting at byte `offset`. Returns
/// `(entry, new_offset)`.
pub fn parse_pmgl_entry(buf: &[u8], offset: usize) -> (r: Result<(PmglEntry, usize)>)
    ensures
        match r {
            Ok((entry, end)) => pmgl_entry(buf@, offset as int) == Ok::<_, Fault>(
                (entry@, end as int),
            ),
            Err(e) => pmgl_entry(buf@, offset as int) == Err::<(EntryRecord, int), _>(e@),
        },
        r matches Ok((_, end)) ==> offset < end <= buf@.len(),
{
    let kind = BlockKind::Pmgl;
    let (path, p1): (String, usize) = match parse_path(buf, offset, kind) {
        Ok(v) => v,
        Err(e) => {
            return Err(e);
        },
    };
    let (space, p2): (u64, usize) = match parse_cword(buf, p1, kind) {
        Ok(v) => v,
        Err(e) => {
            return Err(e);
        },
    };
    let (start, p3): (u64, usize) = match parse_cword(buf, p2, kind) {
        Ok(v) => v,
        Err(e) => {
            return Err(e);
        },
    };
    let (length, p4): (u64, usize) = match parse_cword(buf, p3, kind) {
        Ok(v) => v,
        Err(e) => {
            return Err(e);
        },
    };
    if space > u8::MAX as u64 {
        return Err(ChmError::BadPmgl);
    }
    Ok((PmglEntry { path, space: space as u8, start, length }, p4))
}

/// The PMGI entry at `offset`, with the position behind it: a path and the index of the
/// block whose paths start there.
pub open spec fn pmgi_entry(buf: Seq<u8>, offset: int) -> core::result::Result<
    (Seq<char>, i32, int),
    Fault,
> {
    let kind = BlockKind::Pmgi;
    match path_at(buf, offset, kind) {
        Err(e) => Err(e),
        Ok((key, p1)) => match cword(buf, p1, kind) {
            Err(e) => Err(e),
            Ok((child, p2)) => if child > i32::MAX {
                Err(Fault::Overflow)
            } else {
                Ok((key, child as i32, p2))
            },
        },
    }
}

/// Parses one PMGI entry (key + child block index) from `buf` at `offset`. Returns
/// `(key, child_block, new_offset)`.
pub fn parse_pmgi_entry(buf: &[u8], offset: usize) -> (r: Result<(String, i32, usize)>)
    ensures
        match r {
            Ok((key, child, end)) => pmgi_entry(buf@, offset as int) == Ok::<_, Fault>(
                (key@, child, end as int),
            ),
            Err(e) => pmgi_entry(buf@, offset as int) == Err::<(Seq<char>, i32, int), _>(e@),
        },
        r matches Ok((_, _, end)) ==> offset < end <= buf@.len(),
{
    let kind = BlockKind::Pmgi;
    let (key, p1): (String, usize) = match parse_path(buf, offset, kind) {
        Ok(v) => v,
        Err(e) => {
            return Err(e);
        },
    };
    let (child, p2): (u64, usize) = match parse_cword(buf, p1, kind) {
        Ok(v) => v,
        Err(e) => {
            return Err(e);
        },
    };
    if child > 0x7fff_ffff {
        return Err(ChmError::Overflow);
    }
    Ok((key, child as i32, p2))
}

/// A cword takes up at least one byte of the buffer.
pub proof fn lemma_cword_moves_on(buf: Seq<u8>, offset: int, kind: BlockKind)
    requires
        0 <= offset,
    ensures
        cword(buf, offset, kind) matches Ok((_, end)) ==> offset < end <= buf.len(),
{
    lemma_cword_last(buf, offset);
}

/// A PMGL entry takes up at least one byte of the buffer.
pub proof fn lemma_pmgl_entry_moves_on(buf: Seq<u8>, offset: int)
    requires
        0 <= offset,
    ensures
        pmgl_entry(buf, offset) matches Ok((_, end)) ==> offset < end <= buf.len(),
{
    let kind = BlockKind::Pmgl;
    lemma_cword_moves_on(buf, offset, kind);
    if let Ok((_, p1)) = path_at(buf, offset, kind) {
        lemma_cword_moves_on(buf, p1, kind);
        if let Ok((_, p2)) = cword(buf, p1, kind) {
            lemma_cword_moves_on(buf, p2, kind);
            if let Ok((_, p3)) = cword(buf, p2, kind) {
                lemma_cword_moves_on(buf, p3, kind);
            }
        }
    }
}

/// A PMGI entry takes up at least one byte of the buffer.
pub proof fn lemma_pmgi_entry_moves_on(buf: Seq<u8>, offset: int)
    requires
        0 <= offset,
    ensures
        pmgi_entry(buf, offset) matches Ok((_, _, end)) ==> offset < end <= buf.len(),
{
    let kind = BlockKind::Pmgi;
    lemma_cword_moves_on(buf, offset, kind);
    if let Ok((_, p1)) = path_at(buf, offset, kind) {
        lemma_cword_moves_on(buf, p1, kind);
    }
}

} // verus!
