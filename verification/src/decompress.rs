//! Random access into the LZX-compressed `MSCompressed` section.
//!
//! The section is split into fixed-size blocks whose compressed offsets live in a reset
//! table. LZX carries its window and match offsets across block boundaries, so reading block
//! *n* means replaying every block since the last reset point; a small cache of decoded
//! blocks keeps sequential reads from replaying the same work.

use vstd::arithmetic::div_mod::{
    lemma_fundamental_div_mod, lemma_fundamental_div_mod_converse, lemma_mod_bound,
    lemma_mod_decreases, lemma_mod_multiples_basic,
};
use vstd::arithmetic::power2::pow2;
use vstd::prelude::*;
use vstd::slice::slice_subrange;

use crate::error::{outcome, ChmError, Fault, LzxError, Result};
use crate::format::{exact_log2, is_pow2, log2, LzxcControlData, LzxcResetTable};
use crate::le::{le64, u64_le};
use crate::lzx::{lemma_initial, LzxModel, LzxState};

verus! {

/// Number of decoded blocks kept around, indexed directly by `block % CACHE_SLOTS`.
pub const CACHE_SLOTS: usize = 5;

/// What a cache holds after block `block` went into it: the block takes the place of the one
/// that shares its slot.
pub open spec fn with_block(cache: Map<u64, Seq<u8>>, block: u64, data: Seq<u8>) -> Map<
    u64,
    Seq<u8>,
> {
    Map::new(
        |b: u64|
            b == block || (cache.dom().contains(b) && b % (CACHE_SLOTS as u64) != block % (
            CACHE_SLOTS as u64)),
        |b: u64|
            if b == block {
                data
            } else {
                cache[b]
            },
    )
}

/// Direct-mapped cache of decoded blocks.
pub struct BlockCache {
    slots: Vec<Option<(u64, Vec<u8>)>>,
}

impl View for BlockCache {
    type V = Map<u64, Seq<u8>>;

    closed spec fn view(&self) -> Map<u64, Seq<u8>> {
        Map::new(
            |b: u64|
                self.slots@[(b % (CACHE_SLOTS as u64)) as int] matches Some((held, _)) && held
                    == b,
            |b: u64| self.slots@[(b % (CACHE_SLOTS as u64)) as int]->Some_0.1@,
        )
    }
}

impl BlockCache {
    /// The cache has its slots.
    pub closed spec fn wf(&self) -> bool {
        self.slots@.len() == CACHE_SLOTS
    }

    pub fn new() -> (r: Self)
        ensures
            r.wf(),
            r@ == Map::<u64, Seq<u8>>::empty(),
    {
        let mut slots: Vec<Option<(u64, Vec<u8>)>> = Vec::new();
        while slots.len() < CACHE_SLOTS
            invariant
                slots@.len() <= CACHE_SLOTS,
                forall|i: int| 0 <= i < slots@.len() ==> slots@[i] is None,
            decreases CACHE_SLOTS - slots@.len(),
        {
            slots.push(None);
        }
        let r = BlockCache { slots };
        assert(r@ =~= Map::<u64, Seq<u8>>::empty());
        r
    }

    fn slot(block_idx: u64) -> (r: usize)
        ensures
            r == block_idx % (CACHE_SLOTS as u64),
            r < CACHE_SLOTS,
    {
        (block_idx % (CACHE_SLOTS as u64)) as usize
    }

    /// The decoded bytes of a block, if they are in the cache.
    pub fn get(&self, block_idx: u64) -> (r: Option<&[u8]>)
        requires
            self.wf(),
        ensures
            match r {
                Some(data) => self@.dom().contains(block_idx) && data@ == self@[block_idx],
                None => !self@.dom().contains(block_idx),
            },
    {
        match &self.slots[Self::slot(block_idx)] {
            Some((idx, data)) => {
                if *idx == block_idx {
                    Some(data.as_slice())
                } else {
                    None
                }
            },
            None => None,
        }
    }

    pub fn contains(&self, block_idx: u64) -> (r: bool)
        requires
            self.wf(),
        ensures
            r == self@.dom().contains(block_idx),
    {
        self.get(block_idx).is_some()
    }

    /// Puts a block into the cache, in place of the one that shares its slot.
    pub fn insert(&mut self, block_idx: u64, data: Vec<u8>)
        requires
            old(self).wf(),
        ensures
            final(self).wf(),
            final(self)@ == with_block(old(self)@, block_idx, data@),
    {
        let ghost bytes = data@;
        let at: usize = Self::slot(block_idx);
        self.slots.set(at, Some((block_idx, data)));
        assert(self@ =~= with_block(old(self)@, block_idx, bytes));
    }
}

/// The compressed section and what has been decoded of it so far.
pub struct Section {
    /// Absolute file offset of the compressed content stream start.
    pub cn_abs_start: int,
    /// Compressed start offset of every block, plus a final entry for the stream end.
    pub offsets: Seq<u64>,
    /// Uncompressed size of every block.
    pub block_len: int,
    /// Number of blocks between LZX resets.
    pub reset_blkcount: int,
    /// The stream state, and the block that it stands behind, if any.
    pub lzx: LzxModel,
    pub last: Option<u64>,
    /// The decoded blocks kept around.
    pub cache: Map<u64, Seq<u8>>,
}

impl Section {
    /// Number of blocks.
    pub open spec fn count(self) -> int {
        self.offsets.len() - 1
    }

    /// Total uncompressed size of the section, which bounds any valid read.
    pub open spec fn uncompressed_len(self) -> int {
        self.count() * self.block_len
    }

    /// Block numbers fit in 64 bits, and there is something to count them by.
    pub open spec fn sized(self) -> bool {
        &&& 1 <= self.offsets.len() <= 0x1_0000_0000
        &&& self.reset_blkcount >= 1
    }

    /// The blocks lie one behind the other in the file, and every block in the cache has its
    /// full length.
    pub open spec fn wf(self) -> bool {
        &&& self.sized()
        &&& ascending(self.offsets)
        &&& 0 <= self.cn_abs_start
        &&& self.cn_abs_start + self.offsets.last() <= u64::MAX
        &&& 0 <= self.block_len <= self.lzx.window.len()
        &&& self.lzx.wf()
        &&& self.last matches Some(b) ==> b < self.count()
        &&& self.cache_full()
    }

    /// The block from which decoding has to go on to get at block `target`. If the last
    /// block decoded already sits inside the target's reset window, decoding resumes behind
    /// it rather than replaying the whole window.
    pub open spec fn resume_at(self, target: int) -> int {
        let window_start = target - target % self.reset_blkcount;
        match self.last {
            Some(last) => if window_start <= last < target {
                last + 1
            } else {
                window_start
            },
            None => window_start,
        }
    }

    /// Block `block` can be decoded next: it opens a reset window, or it follows the last
    /// block decoded.
    pub open spec fn due(self, block: int) -> bool {
        &&& 0 <= block < self.count()
        &&& block % self.reset_blkcount == 0 || (self.last matches Some(last) && last + 1
            == block)
    }

    /// Decodes block `block` from its compressed bytes: the stream is reset where a reset
    /// window opens, and the decoded block goes into the cache. Behind a block that does not
    /// decode the stream stands nowhere, so that it takes a reset to go on.
    pub open spec fn supplied(self, block: u64, compressed: Seq<u8>) -> (
        Section,
        core::result::Result<(), Fault>,
    ) {
        let lzx = if block as int % self.reset_blkcount == 0 {
            self.lzx.reset()
        } else {
            self.lzx
        };
        let frame = lzx.frame(compressed, self.block_len as nat);
        match frame.result {
            Err(e) => (Section { lzx: frame.m, last: None, ..self }, Err(Fault::Lzx(e))),
            Ok(data) => (
                Section {
                    lzx: frame.m,
                    last: Some(block),
                    cache: with_block(self.cache, block, data),
                    ..self
                },
                Ok(()),
            ),
        }
    }

    /// How far a read from `pos` gets within one block.
    pub open spec fn reach(self, pos: int, end: int) -> int {
        let left = self.block_len - pos % self.block_len;
        if left < end - pos {
            left
        } else {
            end - pos
        }
    }

    /// The bytes `pos..end` of the section as far as they lie in one decoded block.
    pub open spec fn piece(self, data: Seq<u8>, pos: int, end: int) -> Seq<u8> {
        let offset = pos % self.block_len;
        data.subrange(offset, offset + self.reach(pos, end))
    }

    /// The bytes from `pos` on that can be had from the cache alone.
    pub open spec fn available(self, pos: int, end: int) -> Seq<u8>
        decreases end - pos,
        when self.block_len > 0
    {
        if pos >= end || !self.cache.dom().contains((pos / self.block_len) as u64) {
            Seq::empty()
        } else {
            self.piece(self.cache[(pos / self.block_len) as u64], pos, end) + self.available(
                pos + self.reach(pos, end),
                end,
            )
        }
    }

    /// The compressed bytes of block `b`, out of those of the whole stream.
    pub open spec fn input(self, stream: Seq<u8>, b: int) -> Seq<u8> {
        stream.subrange(self.offsets[b] as int, self.offsets[b + 1] as int)
    }

    /// Decodes block `target`, and first whatever precedes it in its reset window and has
    /// not just been decoded.
    pub open spec fn replayed_to(self, stream: Seq<u8>, target: int) -> (
        Section,
        core::result::Result<(), Fault>,
    )
        decreases target - self.resume_at(target),
        when 0 <= target < self.count() && self.sized()
    {
        let b = self.resume_at(target);
        let (s, r) = self.supplied(b as u64, self.input(stream, b));
        if r is Err || b >= target {
            (s, r)
        } else {
            proof {
                lemma_resume(self, target, self.input(stream, b));
            }
            s.replayed_to(stream, target)
        }
    }

    /// Reads the bytes `pos..end` of the section, decoding what is not in the cache.
    pub open spec fn read_from(self, stream: Seq<u8>, pos: int, end: int) -> (
        Section,
        core::result::Result<Seq<u8>, Fault>,
    )
        decreases end - pos,
        when self.block_len >= 1 && 0 <= pos
    {
        if pos >= end {
            (self, Ok(Seq::empty()))
        } else {
            let block = pos / self.block_len;
            let (s, r) = if self.cache.dom().contains(block as u64) {
                (self, Ok(()))
            } else {
                self.replayed_to(stream, block)
            };
            match r {
                Err(e) => (s, Err(e)),
                Ok(()) => {
                    proof {
                        lemma_mod_bound(pos, self.block_len);
                    }
                    let (t, rest) = s.read_from(stream, pos + self.reach(pos, end), end);
                    match rest {
                        Err(e) => (t, Err(e)),
                        Ok(bytes) => (t, Ok(s.piece(s.cache[block as u64], pos, end) + bytes)),
                    }
                },
            }
        }
    }
}

/// A block that has just been decoded brings the one behind it closer.
pub proof fn lemma_resume(s: Section, target: int, compressed: Seq<u8>)
    requires
        s.sized(),
        0 <= target < s.count(),
    ensures
        s.due(s.resume_at(target)),
        s.resume_at(target) <= target,
        ({
            let b = s.resume_at(target);
            let (t, r) = s.supplied(b as u64, compressed);
            r is Ok && b < target ==> t.resume_at(target) == b + 1
        }),
{
    let n = s.reset_blkcount;
    lemma_mod_bound(target, n);
    lemma_mod_decreases(target as nat, n as nat);
    let w = target - target % n;
    lemma_fundamental_div_mod(target, n);
    lemma_mod_multiples_basic(target / n, n);
    assert(w == (target / n) * n) by (nonlinear_arith)
        requires
            w == target - target % n,
            target == n * (target / n) + target % n,
    ;
}

impl Section {
    /// Reads `len` bytes from the compressed address space starting at `start`.
    pub open spec fn read(self, stream: Seq<u8>, start: int, len: int) -> (
        Section,
        core::result::Result<Seq<u8>, Fault>,
    ) {
        if start + len > u64::MAX {
            (self, Err(Fault::Overflow))
        } else if start + len > self.uncompressed_len() {
            (self, Err(Fault::BadResetTable))
        } else if len > usize::MAX {
            (self, Err(Fault::Overflow))
        } else if len == 0 {
            (self, Ok(Seq::empty()))
        } else {
            self.read_from(stream, start, start + len)
        }
    }
}

/// What was read so far, in front of what the rest of a read comes to.
pub open spec fn prepended(
    bytes: Seq<u8>,
    rest: (Section, core::result::Result<Seq<u8>, Fault>),
) -> (Section, core::result::Result<Seq<u8>, Fault>) {
    match rest.1 {
        Ok(more) => (rest.0, Ok(bytes + more)),
        Err(e) => (rest.0, Err(e)),
    }
}

impl Section {
    /// Two states of one section.
    pub open spec fn same_shape(self, other: Section) -> bool {
        &&& self.cn_abs_start == other.cn_abs_start
        &&& self.offsets == other.offsets
        &&& self.block_len == other.block_len
        &&& self.reset_blkcount == other.reset_blkcount
    }

    /// Every block in the cache has its full length.
    pub open spec fn cache_full(self) -> bool {
        forall|b: u64| #[trigger]
            self.cache.dom().contains(b) ==> self.cache[b].len() == self.block_len
    }
}

/// What lies in the cache is read as it is.
pub proof fn lemma_available(s: Section, stream: Seq<u8>, pos: int, end: int)
    requires
        s.block_len >= 1,
        s.cache_full(),
        0 <= pos,
    ensures
        s.read_from(stream, pos, end) == prepended(
            s.available(pos, end),
            s.read_from(stream, pos + s.available(pos, end).len(), end),
        ),
        pos <= end ==> pos + s.available(pos, end).len() <= end,
        pos + s.available(pos, end).len() < end ==> !s.cache.dom().contains(
            ((pos + s.available(pos, end).len()) / s.block_len) as u64,
        ),
    decreases end - pos,
{
    let block = pos / s.block_len;
    let all = s.available(pos, end);
    if pos < end && s.cache.dom().contains(block as u64) {
        lemma_mod_bound(pos, s.block_len);
        let n = s.reach(pos, end);
        let piece = s.piece(s.cache[block as u64], pos, end);
        let rest = s.available(pos + n, end);
        assert(piece.len() == n);
        lemma_available(s, stream, pos + n, end);
        assert(pos + all.len() == pos + n + rest.len());
        let after = s.read_from(stream, pos + all.len(), end);
        if let Ok(bytes) = after.1 {
            assert(piece + (rest + bytes) =~= all + bytes);
        }
    } else {
        let after = s.read_from(stream, pos, end);
        if let Ok(bytes) = after.1 {
            assert(all + bytes =~= bytes);
        }
    }
}

/// Supplying the block that is due brings a read on.
pub proof fn lemma_supply_step(s: Section, stream: Seq<u8>, pos: int, end: int)
    requires
        s.sized(),
        s.block_len >= 1,
        0 <= pos < end <= s.uncompressed_len(),
        !s.cache.dom().contains((pos / s.block_len) as u64),
    ensures
        ({
            let b = s.resume_at(pos / s.block_len);
            let (t, r) = s.supplied(b as u64, s.input(stream, b));
            s.read_from(stream, pos, end) == match r {
                Ok(()) => t.read_from(stream, pos, end),
                Err(e) => (t, Err(e)),
            }
        }),
        0 <= pos / s.block_len < s.count(),
{
    let target = pos / s.block_len;
    lemma_block_in_range(s, pos, end);
    let b = s.resume_at(target);
    lemma_resume(s, target, s.input(stream, b));
}

/// A position inside the section lies in one of its blocks.
pub proof fn lemma_block_in_range(s: Section, pos: int, end: int)
    requires
        s.block_len >= 1,
        0 <= pos < end <= s.uncompressed_len(),
    ensures
        0 <= pos / s.block_len < s.count(),
{
    lemma_fundamental_div_mod(pos, s.block_len);
    lemma_mod_bound(pos, s.block_len);
    let q = pos / s.block_len;
    let n = s.block_len;
    let c = s.count();
    assert(0 <= q < c) by (nonlinear_arith)
        requires
            n >= 1,
            0 <= pos < c * n,
            pos == n * q + pos % n,
            0 <= pos % n < n,
    ;
}

/// A read under way.
pub struct Reading {
    pub pos: u64,
    pub end: u64,
    pub bytes: Vec<u8>,
}

/// A block whose compressed bytes are needed next, and where they lie in the file.
pub struct Demand {
    pub block: u64,
    pub offset: u64,
    pub len: usize,
}

/// A decompressor for the `MSCompressed` section.
pub struct Decompressor {
    /// Absolute file offset of the compressed content stream start.
    cn_abs_start: u64,
    /// Compressed start offset of every block, plus a final entry for the stream end, so
    /// block `n` spans `block_offsets[n]..block_offsets[n + 1]`.
    block_offsets: Vec<u64>,
    /// Uncompressed size of every block but (possibly) the last.
    block_len: usize,
    /// Number of blocks between LZX resets.
    reset_blkcount: u64,
    lzx: Box<LzxState>,
    /// The block that the stream stands behind, if any.
    lzx_last_block: Option<u64>,
    cache: BlockCache,
}

impl View for Decompressor {
    type V = Section;

    closed spec fn view(&self) -> Section {
        Section {
            cn_abs_start: self.cn_abs_start as int,
            offsets: self.block_offsets@,
            block_len: self.block_len as int,
            reset_blkcount: self.reset_blkcount as int,
            lzx: self.lzx@,
            last: self.lzx_last_block,
            cache: self.cache@,
        }
    }
}

/// How a compressed section is laid out in the file, and where its table of block offsets
/// is to be read.
#[derive(Debug)]
pub struct Layout {
    pub cn_abs_start: u64,
    pub compressed_len: u64,
    pub block_len: usize,
    pub window_size: u32,
    pub reset_blkcount: u64,
    pub table_at: u64,
    pub table_len: usize,
}

impl Layout {
    /// A block fits in the window, which is a power of two; the stream ends within 64 bits,
    /// and the table holds whole 64-bit numbers.
    pub open spec fn wf(&self) -> bool {
        &&& self.cn_abs_start + self.compressed_len <= u64::MAX
        &&& self.block_len <= self.window_size
        &&& is_pow2(self.window_size as int)
        &&& self.reset_blkcount >= 1
        &&& self.table_len <= 8 * 0xffff_ffff
        &&& self.table_len % 8 == 0
    }
}

/// The number of blocks between resets that the control data gives.
pub open spec fn reset_blocks(ctl: LzxcControlData) -> int {
    (ctl.reset_interval as int / (ctl.window_size as int / 2)) * ctl.windows_per_reset
}

/// The layout of the section whose content, reset table and control data are given. The
/// compressed stream must lie inside the file, and the block offsets inside the reset table
/// entry and the file; a block is one LZX frame, which must fit inside the window.
pub open spec fn layout(
    data_offset: u64,
    cn_unit_start: u64,
    rt_unit_start: u64,
    rt_entry_len: u64,
    reset_table: LzxcResetTable,
    ctl: LzxcControlData,
    file_len: u64,
) -> core::result::Result<Layout, Fault> {
    let cn_abs_start = data_offset + cn_unit_start;
    let rt_abs_start = data_offset + rt_unit_start;
    let table_len = reset_table.block_count * 8;
    let table_at = rt_abs_start + reset_table.table_offset;
    if reset_table.block_len > usize::MAX {
        Err(Fault::Overflow)
    } else if reset_table.block_len > ctl.window_size {
        Err(Fault::BadResetTable)
    } else if cn_abs_start + reset_table.compressed_len > u64::MAX {
        Err(Fault::Overflow)
    } else if cn_abs_start + reset_table.compressed_len > file_len {
        Err(Fault::BadResetTable)
    } else if rt_abs_start > u64::MAX {
        Err(Fault::Overflow)
    } else if reset_table.table_offset + table_len > rt_entry_len {
        Err(Fault::BadResetTable)
    } else if table_len > usize::MAX || table_at > u64::MAX {
        Err(Fault::Overflow)
    } else if table_at + table_len > file_len {
        Err(Fault::BadResetTable)
    } else {
        Ok(
            Layout {
                cn_abs_start: cn_abs_start as u64,
                compressed_len: reset_table.compressed_len,
                block_len: reset_table.block_len as usize,
                window_size: ctl.window_size,
                reset_blkcount: reset_blocks(ctl) as u64,
                table_at: table_at as u64,
                table_len: table_len as usize,
            },
        )
    }
}

/// The compressed start offset of every block, and behind them the end of the stream.
pub open spec fn table_offsets(table: Seq<u8>, compressed_len: u64) -> Seq<u64> {
    Seq::new((table.len() / 8) as nat, |i: int| le64(table, 8 * i) as u64).push(compressed_len)
}

/// The offsets never decrease.
pub open spec fn ascending(offsets: Seq<u64>) -> bool {
    forall|i: int, j: int| 0 <= i <= j < offsets.len() ==> offsets[i] <= offsets[j]
}

/// The section of a given layout and table of block offsets, with nothing decoded yet.
pub open spec fn opened(layout: Layout, table: Seq<u8>) -> core::result::Result<Section, Fault> {
    let offsets = table_offsets(table, layout.compressed_len);
    let window_bits = log2(layout.window_size as int);
    if !ascending(offsets) {
        Err(Fault::BadResetTable)
    } else if !(15 <= window_bits <= 21) {
        Err(Fault::Lzx(LzxError::InvalidWindow(window_bits as u8)))
    } else {
        Ok(
            Section {
                cn_abs_start: layout.cn_abs_start as int,
                offsets,
                block_len: layout.block_len as int,
                reset_blkcount: layout.reset_blkcount as int,
                lzx: LzxModel::initial(window_bits),
                last: None,
                cache: Map::empty(),
            },
        )
    }
}

/// A section that was opened is well-formed, and every block that it will ever ask for lies
/// inside the file; so does the table of block offsets, and inside its entry too. What is
/// allocated for a block or for the table is bounded by these.
pub proof fn lemma_section_lies_in_file(
    data_offset: u64,
    cn_unit_start: u64,
    rt_unit_start: u64,
    rt_entry_len: u64,
    reset_table: LzxcResetTable,
    ctl: LzxcControlData,
    file_len: u64,
    table: Seq<u8>,
)
    requires
        ctl.wf(),
    ensures
        layout(
            data_offset,
            cn_unit_start,
            rt_unit_start,
            rt_entry_len,
            reset_table,
            ctl,
            file_len,
        ) matches Ok(l) ==> {
            &&& l.table_len <= rt_entry_len
            &&& l.table_at + l.table_len <= file_len
            &&& table.len() == l.table_len ==> (opened(l, table) matches Ok(s) ==> {
                &&& s.wf()
                &&& s.block_len <= 0x20_0000
                &&& forall|b: int|
                    0 <= b < s.count() ==> s.cn_abs_start + #[trigger] s.offsets[b + 1] <= file_len
            })
        },
{
    let r = layout(
        data_offset,
        cn_unit_start,
        rt_unit_start,
        rt_entry_len,
        reset_table,
        ctl,
        file_len,
    );
    if let Ok(l) = r {
        let half = ctl.window_size as int / 2;
        let windows = ctl.reset_interval as int / half;
        let per_reset = ctl.windows_per_reset as int;
        lemma_fundamental_div_mod(ctl.reset_interval as int, half);
        assert(1 <= windows <= 0xffff_ffff) by (nonlinear_arith)
            requires
                ctl.reset_interval == half * windows + 0,
                0 < ctl.reset_interval <= 0xffff_ffff,
                half >= 1,
        ;
        assert(1 <= windows * per_reset <= 0xffff_ffff * 0xffff_ffff) by (nonlinear_arith)
            requires
                1 <= windows <= 0xffff_ffff,
                1 <= per_reset <= 0xffff_ffff,
        ;
        if table.len() == l.table_len {
            if let Ok(s) = opened(l, table) {
                let bits = log2(l.window_size as int);
                assert(pow2(bits) == l.window_size);
                lemma_initial(bits);
                assert(s.offsets.last() == l.compressed_len);
                assert forall|b: int| 0 <= b < s.count() implies s.cn_abs_start
                    + #[trigger] s.offsets[b + 1] <= file_len by {
                    assert(s.offsets[b + 1] <= s.offsets[s.count()]);
                }
            }
        }
    }
}

/// Reads the reset table's array of per-block compressed offsets.
///
/// A trailing entry holding the total compressed length is appended, which lets callers
/// derive every block's length by subtracting adjacent entries.
fn read_block_offsets(table: &[u8], compressed_len: u64) -> (r: Result<Vec<u64>>)
    ensures
        match r {
            Ok(offsets) => offsets@ == table_offsets(table@, compressed_len) && ascending(
                offsets@,
            ),
            Err(e) => e@ == Fault::BadResetTable && !ascending(
                table_offsets(table@, compressed_len),
            ),
        },
{
    let ghost all = table_offsets(table@, compressed_len);
    let mut offsets: Vec<u64> = Vec::new();
    let count: usize = table.len() / 8;
    let mut i: usize = 0;
    let mut prev: u64 = 0;
    while i < count
        invariant
            i <= count,
            count == table@.len() / 8,
            table@.len() <= usize::MAX,
            i == 0 ==> prev == 0,
            all == table_offsets(table@, compressed_len),
            offsets@ =~= all.subrange(0, i as int),
            ascending(offsets@),
            forall|j: int| 0 <= j < i ==> #[trigger] offsets@[j] <= prev,
            i > 0 ==> prev == all[i - 1],
        decreases count - i,
    {
        let offset: u64 = u64_le(table, 8 * i);
        // Offsets must be non-decreasing for block lengths to make sense.
        if offset < prev {
            assert(all[i as int] < all[i - 1]);
            return Err(ChmError::BadResetTable);
        }
        offsets.push(offset);
        prev = offset;
        i = i + 1;
    }
    // The last block runs to the end of the compressed stream.
    if compressed_len < prev {
        assert(all[i as int] < all[i - 1]);
        return Err(ChmError::BadResetTable);
    }
    offsets.push(compressed_len);
    assert(offsets@ =~= all);
    Ok(offsets)
}

/// The place in a reset window of a block that does not open one.
pub proof fn lemma_next_in_window(b: int, n: int)
    requires
        b >= 0,
        n >= 1,
        (b + 1) % n != 0,
    ensures
        (b + 1) % n == b % n + 1,
        b % n <= b,
{
    let q = b / n;
    let r = b % n;
    lemma_fundamental_div_mod(b, n);
    lemma_mod_bound(b, n);
    if r + 1 < n {
        assert(b + 1 == q * n + (r + 1)) by (nonlinear_arith)
            requires
                b == n * q + r,
        ;
        lemma_fundamental_div_mod_converse(b + 1, n, q, r + 1);
    } else {
        assert(b + 1 == (q + 1) * n + 0) by (nonlinear_arith)
            requires
                b == n * q + r,
                r + 1 == n,
        ;
        lemma_fundamental_div_mod_converse(b + 1, n, q + 1, 0);
    }
    lemma_mod_decreases(b as nat, n as nat);
}

/// Appends the bytes `lo..hi` of `src` to `dst`.
fn append_between(dst: &mut Vec<u8>, src: &[u8], lo: usize, hi: usize)
    requires
        lo <= hi <= src@.len(),
    ensures
        final(dst)@ == old(dst)@ + src@.subrange(lo as int, hi as int),
{
    let mut i: usize = lo;
    assert(dst@ =~= old(dst)@ + src@.subrange(lo as int, lo as int));
    while i < hi
        invariant
            lo <= i <= hi <= src@.len(),
            dst@ == old(dst)@ + src@.subrange(lo as int, i as int),
        decreases hi - i,
    {
        dst.push(src[i]);
        i = i + 1;
        assert(dst@ =~= old(dst)@ + src@.subrange(lo as int, i as int));
    }
}

impl Decompressor {
    /// The decompressor is in a state that its operations keep.
    pub closed spec fn wf(&self) -> bool {
        &&& self@.wf()
        &&& self.lzx.wf()
        &&& self.cache.wf()
    }

    /// A decompressor in a valid state stands for a valid section.
    pub proof fn lemma_wf(&self)
        requires
            self.wf(),
        ensures
            self@.wf(),
    {
    }

    /// Lays out the `MSCompressed` section.
    ///
    /// `rt_entry_len` is the stored length of the reset-table entry, which bounds how many
    /// block offsets the table can legitimately contain.
    pub fn plan(
        data_offset: u64,
        cn_unit_start: u64,
        rt_unit_start: u64,
        rt_entry_len: u64,
        reset_table: &LzxcResetTable,
        ctl: &LzxcControlData,
        file_len: u64,
    ) -> (r: Result<Layout>)
        requires
            ctl.wf(),
        ensures
            outcome(r) == layout(
                data_offset,
                cn_unit_start,
                rt_unit_start,
                rt_entry_len,
                *reset_table,
                *ctl,
                file_len,
            ),
            r matches Ok(l) ==> l.wf(),
    {
        // A block is one LZX frame, which must fit inside the window for the frame copy at
        // the end of each `decompress` call to be meaningful.
        if reset_table.block_len > usize::MAX as u64 {
            return Err(ChmError::Overflow);
        }
        if reset_table.block_len > ctl.window_size as u64 {
            return Err(ChmError::BadResetTable);
        }
        // The control data guarantees the division is at least one, so the reset interval
        // this yields is non-zero and safe to use as a divisor.
        let windows: u32 = ctl.reset_interval / (ctl.window_size / 2);
        let per_reset: u32 = ctl.windows_per_reset;
        proof {
            let half = ctl.window_size as int / 2;
            lemma_fundamental_div_mod(ctl.reset_interval as int, half);
            assert(windows >= 1) by (nonlinear_arith)
                requires
                    ctl.reset_interval == half * windows + 0,
                    ctl.reset_interval > 0,
                    half >= 1,
            ;
            assert(1 <= windows * per_reset <= 0xffff_ffff * 0xffff_ffff) by (nonlinear_arith)
                requires
                    1 <= windows <= 0xffff_ffff,
                    1 <= per_reset <= 0xffff_ffff,
            ;
        }
        let reset_blkcount: u64 = windows as u64 * per_reset as u64;
        // Keeping the compressed stream inside the file bounds every per-block read by a
        // length the file can actually back.
        let cn_abs_start: u64 = match data_offset.checked_add(cn_unit_start) {
            Some(v) => v,
            None => {
                return Err(ChmError::Overflow);
            },
        };
        let stream_end: u64 = match cn_abs_start.checked_add(reset_table.compressed_len) {
            Some(v) => v,
            None => {
                return Err(ChmError::Overflow);
            },
        };
        if stream_end > file_len {
            return Err(ChmError::BadResetTable);
        }
        let rt_abs_start: u64 = match data_offset.checked_add(rt_unit_start) {
            Some(v) => v,
            None => {
                return Err(ChmError::Overflow);
            },
        };
        // The offsets must lie inside the reset-table entry.
        let table_len: u64 = reset_table.block_count as u64 * 8;
        let table_end: u64 = reset_table.table_offset as u64 + table_len;
        if table_end > rt_entry_len {
            return Err(ChmError::BadResetTable);
        }
        if table_len > usize::MAX as u64 {
            return Err(ChmError::Overflow);
        }
        let table_at: u64 = match rt_abs_start.checked_add(reset_table.table_offset as u64) {
            Some(v) => v,
            None => {
                return Err(ChmError::Overflow);
            },
        };
        // An entry may claim any length, but what is read has to be there.
        if table_at > file_len || table_len > file_len - table_at {
            return Err(ChmError::BadResetTable);
        }
        Ok(
            Layout {
                cn_abs_start,
                compressed_len: reset_table.compressed_len,
                block_len: reset_table.block_len as usize,
                window_size: ctl.window_size,
                reset_blkcount,
                table_at,
                table_len: table_len as usize,
            },
        )
    }

    /// Builds a decompressor for a section, given the bytes of its table of block offsets.
    pub fn new(layout: &Layout, table: &[u8]) -> (r: Result<Self>)
        requires
            layout.wf(),
            table@.len() == layout.table_len,
        ensures
            match r {
                Ok(d) => d.wf() && opened(*layout, table@) == Ok::<_, Fault>(d@),
                Err(e) => opened(*layout, table@) == Err::<Section, _>(e@),
            },
    {
        let block_offsets: Vec<u64> = match read_block_offsets(table, layout.compressed_len) {
            Ok(v) => v,
            Err(e) => {
                return Err(e);
            },
        };
        // `window_size` is a validated power of two, so this is its logarithm.
        let window_bits: u8 = match exact_log2(layout.window_size) {
            Some(bits) => bits,
            None => {
                return Err(ChmError::BadLzxc);
            },
        };
        let lzx = match LzxState::new(window_bits) {
            Ok(lzx) => lzx,
            Err(e) => {
                return Err(ChmError::Lzx(e));
            },
        };
        Ok(
            Decompressor {
                cn_abs_start: layout.cn_abs_start,
                block_offsets,
                block_len: layout.block_len,
                reset_blkcount: layout.reset_blkcount,
                lzx,
                lzx_last_block: None,
                cache: BlockCache::new(),
            },
        )
    }

    /// Total uncompressed size of the section, which bounds any valid read.
    pub fn uncompressed_len(&self) -> (r: u64)
        requires
            self.wf(),
        ensures
            r == self@.uncompressed_len(),
    {
        let count: u64 = self.block_offsets.len() as u64 - 1;
        proof {
            let n = self.block_len;
            assert(count * n <= 0xffff_ffff * 0x20_0000) by (nonlinear_arith)
                requires
                    0 <= count <= 0xffff_ffff,
                    0 <= n <= 0x20_0000,
            ;
        }
        // `block_offsets` holds one entry per block plus the end sentinel.
        count * self.block_len as u64
    }

    /// Starts reading `len` bytes from the compressed address space at `start`.
    pub fn begin_read(&self, start: u64, len: u64) -> (r: Result<Reading>)
        requires
            self.wf(),
        ensures
            match r {
                Ok(reading) => {
                    &&& start + len <= self@.uncompressed_len()
                    &&& len <= usize::MAX
                    &&& reading.pos == start
                    &&& reading.end == start + len
                    &&& reading.bytes@.len() == 0
                },
                Err(e) => if start + len > u64::MAX {
                    e@ == Fault::Overflow
                } else if start + len > self@.uncompressed_len() {
                    e@ == Fault::BadResetTable
                } else {
                    len > usize::MAX && e@ == Fault::Overflow
                },
            },
    {
        let end: u64 = match start.checked_add(len) {
            Some(end) => end,
            None => {
                return Err(ChmError::Overflow);
            },
        };
        if end > self.uncompressed_len() {
            return Err(ChmError::BadResetTable);
        }
        if len > usize::MAX as u64 {
            return Err(ChmError::Overflow);
        }
        Ok(Reading { pos: start, end, bytes: Vec::new() })
    }

    /// Decodes one block from its compressed bytes and puts it into the cache.
    ///
    /// Every predecessor since the last reset must be decoded to advance the LZX window and
    /// match offsets, even when its output is already cached and will be overwritten.
    pub fn supply(&mut self, block: u64, compressed: &[u8]) -> (r: Result<()>)
        requires
            old(self).wf(),
            old(self)@.due(block as int),
        ensures
            final(self).wf(),
            final(self)@ == old(self)@.supplied(block, compressed@).0,
            match r {
                Ok(()) => old(self)@.supplied(block, compressed@).1 is Ok,
                Err(e) => old(self)@.supplied(block, compressed@).1 == Err::<(), _>(e@),
            },
    {
        proof {
            if block as int % self@.reset_blkcount != 0 {
                lemma_next_in_window(block - 1, self@.reset_blkcount);
            }
        }
        if block % self.reset_blkcount == 0 {
            self.lzx.reset();
        }
        let mut decompressed: Vec<u8> = vec![0u8; self.block_len];
        match self.lzx.decompress(compressed, decompressed.as_mut_slice()) {
            Ok(()) => {},
            Err(e) => {
                // Nothing can be resumed from a stream that failed half-way.
                self.lzx_last_block = None;
                return Err(ChmError::Lzx(e));
            },
        }
        self.cache.insert(block, decompressed);
        self.lzx_last_block = Some(block);
        Ok(())
    }

    /// Takes what the cache holds of a read, and says which block is needed to go on; `None`
    /// means that the read is complete.
    pub fn advance(&self, reading: &mut Reading) -> (r: Result<Option<Demand>>)
        requires
            self.wf(),
            old(reading).pos <= old(reading).end <= self@.uncompressed_len(),
        ensures
            final(reading).end == old(reading).end,
            final(reading).pos <= final(reading).end,
            self@.block_len >= 1 ==> ({
                let bytes = self@.available(old(reading).pos as int, old(reading).end as int);
                &&& final(reading).bytes@ == old(reading).bytes@ + bytes
                &&& final(reading).pos == old(reading).pos + bytes.len()
            }),
            self@.block_len == 0 ==> *final(reading) == *old(reading),
            match r {
                Ok(None) => final(reading).pos == final(reading).end,
                Ok(Some(demand)) => {
                    let target = final(reading).pos as int / self@.block_len;
                    let b = self@.resume_at(target);
                    &&& final(reading).pos < final(reading).end
                    &&& !self@.cache.dom().contains(target as u64)
                    &&& demand.block == b
                    &&& self@.due(b)
                    &&& demand.offset == self@.cn_abs_start + self@.offsets[b]
                    &&& demand.len == self@.offsets[b + 1] - self@.offsets[b]
                },
                Err(e) => {
                    let b = self@.resume_at(final(reading).pos as int / self@.block_len);
                    &&& final(reading).pos < final(reading).end
                    &&& self@.offsets[b + 1] - self@.offsets[b] > usize::MAX
                    &&& e@ == Fault::Overflow
                },
            },
    {
        let ghost all = self@.available(reading.pos as int, reading.end as int);
        let ghost start = reading.pos;
        let ghost head = reading.bytes@;
        proof {
            assert(head + all =~= head + Seq::<u8>::empty() + all);
            assert(head + Seq::<u8>::empty() =~= head);
        }
        let block_len: u64 = self.block_len as u64;
        while reading.pos < reading.end
            invariant
                self.wf(),
                block_len == self.block_len,
                reading.end == old(reading).end,
                reading.pos <= reading.end <= self@.uncompressed_len(),
                start <= reading.pos,
                self@.block_len >= 1 ==> head + all == reading.bytes@ + self@.available(
                    reading.pos as int,
                    reading.end as int,
                ),
                self@.block_len >= 1 ==> reading.bytes@.len() == head.len() + reading.pos - start,
                self@.block_len == 0 ==> *reading == *old(reading),
                head == old(reading).bytes@,
                start == old(reading).pos,
                all == self@.available(old(reading).pos as int, old(reading).end as int),
            decreases reading.end - reading.pos,
        {
            proof {
                assert(self@.block_len >= 1) by (nonlinear_arith)
                    requires
                        self@.block_len >= 0,
                        self@.count() * self@.block_len > 0,
                ;
                lemma_block_in_range(self@, reading.pos as int, reading.end as int);
                lemma_mod_bound(reading.pos as int, self@.block_len);
            }
            let block: u64 = reading.pos / block_len;
            let offset: usize = (reading.pos % block_len) as usize;
            let remaining: u64 = reading.end - reading.pos;
            let left: usize = self.block_len - offset;
            let avail: usize = if remaining < left as u64 {
                remaining as usize
            } else {
                left
            };
            match self.cache.get(block) {
                Some(data) => {
                    let ghost before = reading.bytes@;
                    let ghost pos = reading.pos as int;
                    let ghost end = reading.end as int;
                    append_between(&mut reading.bytes, data, offset, offset + avail);
                    reading.pos = reading.pos + avail as u64;
                    proof {
                        let piece = self@.piece(data@, pos, end);
                        let rest = self@.available(reading.pos as int, end);
                        assert(avail == self@.reach(pos, end));
                        assert(reading.bytes@ == before + piece);
                        assert(before + (piece + rest) =~= before + piece + rest);
                    }
                },
                None => {
                    let b: u64 = self.next_block(block);
                    proof {
                        lemma_resume(self@, block as int, Seq::empty());
                        assert(reading.bytes@ + Seq::<u8>::empty() =~= reading.bytes@);
                        assert(self@.available(reading.pos as int, reading.end as int)
                            =~= Seq::empty());
                    }
                    let from: u64 = self.block_offsets[b as usize];
                    let to: u64 = self.block_offsets[b as usize + 1];
                    let clen: u64 = to - from;
                    if clen > usize::MAX as u64 {
                        return Err(ChmError::Overflow);
                    }
                    assert(self@.offsets[b as int] <= self@.offsets.last());
                    return Ok(
                        Some(
                            Demand {
                                block: b,
                                offset: self.cn_abs_start + from,
                                len: clen as usize,
                            },
                        ),
                    );
                },
            }
        }
        proof {
            if self@.block_len >= 1 {
                assert(self@.available(reading.pos as int, reading.end as int) =~= Seq::empty());
                assert(reading.bytes@ + Seq::<u8>::empty() =~= reading.bytes@);
            }
        }
        Ok(None)
    }

    /// The block from which decoding has to go on to get at block `target`.
    fn next_block(&self, target: u64) -> (r: u64)
        requires
            self.wf(),
            target < self@.count(),
        ensures
            r == self@.resume_at(target as int),
    {
        proof {
            lemma_mod_bound(target as int, self@.reset_blkcount);
            lemma_mod_decreases(target as nat, self@.reset_blkcount as nat);
        }
        let window_start: u64 = target - target % self.reset_blkcount;
        match self.lzx_last_block {
            Some(last) => {
                if last >= window_start && last < target {
                    last + 1
                } else {
                    window_start
                }
            },
            None => window_start,
        }
    }

    /// Reads `len` bytes from the compressed address space starting at `start`, taking the
    /// compressed stream from memory.
    pub fn read(&mut self, stream: &[u8], start: u64, len: u64) -> (r: Result<Vec<u8>>)
        requires
            old(self).wf(),
            old(self)@.offsets.last() <= stream@.len(),
        ensures
            final(self).wf(),
            final(self)@ == old(self)@.read(stream@, start as int, len as int).0,
            match r {
                Ok(bytes) => old(self)@.read(stream@, start as int, len as int).1 == Ok::<
                    _,
                    Fault,
                >(bytes@),
                Err(e) => old(self)@.read(stream@, start as int, len as int).1 == Err::<
                    Seq<u8>,
                    _,
                >(e@),
            },
    {
        let mut reading = match self.begin_read(start, len) {
            Ok(reading) => reading,
            Err(e) => {
                return Err(e);
            },
        };
        if len == 0 {
            assert(reading.bytes@ =~= Seq::empty());
            return Ok(reading.bytes);
        }
        let ghost all = self@.read_from(stream@, start as int, start + len);
        let ghost end = start + len;
        assert(stream.len() == stream@.len());
        proof {
            assert(self@.block_len >= 1) by (nonlinear_arith)
                requires
                    self@.block_len >= 0,
                    self@.count() * self@.block_len > 0,
            ;
            if let Ok(bytes) = all.1 {
                assert(reading.bytes@ + bytes =~= bytes);
            }
        }
        loop
            invariant
                self.wf(),
                self@.same_shape(old(self)@),
                self@.block_len >= 1,
                old(self)@.offsets.last() <= stream@.len() <= usize::MAX,
                reading.end == end,
                reading.pos <= reading.end <= self@.uncompressed_len(),
                all == old(self)@.read(stream@, start as int, len as int),
                all == prepended(
                    reading.bytes@,
                    self@.read_from(stream@, reading.pos as int, end as int),
                ),
            decreases
                    end - reading.pos,
                    if self@.cache.dom().contains((reading.pos as int / self@.block_len) as u64) {
                        0
                    } else {
                        1 + reading.pos as int / self@.block_len - self@.resume_at(
                            reading.pos as int / self@.block_len,
                        )
                    },
        {
            let ghost before = reading;
            let ghost now = self@;
            let step = self.advance(&mut reading);
            proof {
                lemma_available(now, stream@, before.pos as int, end as int);
                let taken = now.available(before.pos as int, end as int);
                let rest = now.read_from(stream@, reading.pos as int, end as int);
                if let Ok(bytes) = rest.1 {
                    assert(before.bytes@ + (taken + bytes) =~= before.bytes@ + taken + bytes);
                }
            }
            match step {
                Ok(None) => {
                    assert(reading.bytes@ + Seq::<u8>::empty() =~= reading.bytes@);
                    return Ok(reading.bytes);
                },
                Ok(Some(demand)) => {
                    let ghost target = reading.pos as int / now.block_len;
                    proof {
                        lemma_supply_step(now, stream@, reading.pos as int, end as int);
                        lemma_resume(now, target, now.input(stream@, demand.block as int));
                        assert(now.offsets[demand.block as int] <= now.offsets[demand.block + 1]
                            <= now.offsets.last());
                    }
                    let from: usize = (demand.offset - self.cn_abs_start) as usize;
                    let compressed: &[u8] = slice_subrange(stream, from, from + demand.len);
                    match self.supply(demand.block, compressed) {
                        Ok(()) => {},
                        Err(e) => {
                            return Err(e);
                        },
                    }
                },
                Err(e) => {
                    proof {
                        let target = reading.pos as int / now.block_len;
                        lemma_block_in_range(now, reading.pos as int, end as int);
                        lemma_resume(now, target, Seq::empty());
                        let b = now.resume_at(target);
                        assert(now.offsets[b + 1] <= now.offsets.last());
                    }
                    return Err(e);
                },
            }
        }
    }
}

} // verus!
