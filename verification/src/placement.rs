//! Where the parts of an archive lie in its file.

use vstd::arithmetic::div_mod::lemma_fundamental_div_mod;
use vstd::arithmetic::power2::{lemma2_to64, pow2};
use vstd::prelude::*;

use crate::archive::{header_len, read_plan, ReadPlan, Span};
use crate::decompress::{ascending, layout, opened, reset_blocks, table_offsets, Layout, Section};
use crate::directory::Directory;
use crate::encoding::holds_at;
use crate::entry::EntrySel;
use crate::error::{Fault, LzxError};
use crate::format::{
    control_data, itsf_header, itsp_header, lemma_log2, reset_table, EntryRecord, ItsfHeader,
    LzxcControlData, LzxcResetTable,
};
use crate::headers::{field32, field64, field_signed, lemma_field64, lemma_itsp_round_trip};
use crate::le::{le32, le64};
use crate::lzx::position_slots;
use crate::tokens::range_start;

verus! {

/// As much of a file is read as its header can take up: the header says the same in the whole
/// file, and a file that nothing is read of has none.
pub proof fn lemma_header_is_read_whole(file: Seq<u8>)
    requires
        file.len() <= u64::MAX,
    ensures
        match header_len(file.len() as u64) {
            Ok(len) => len <= file.len() && itsf_header(file.take(len as int)) == itsf_header(
                file,
            ),
            Err(e) => e == Fault::BadItsf && itsf_header(file) == Err::<ItsfHeader, _>(e),
        },
{
    if let Ok(len) = header_len(file.len() as u64) {
        let read = file.take(len as int);
        assert forall|i: int| 0 <= i < len implies read[i] == file[i] by {}
        assert(read.subrange(0, 4) =~= file.subrange(0, 4));
        assert(le32(read, 4) == le32(file, 4) && le32(read, 8) == le32(file, 8));
        assert(le64(read, 0x48) == le64(file, 0x48) && le64(read, 0x50) == le64(file, 0x50));
        if len >= 0x60 {
            assert(le64(read, 0x58) == le64(file, 0x58));
        }
    }
}

/// The first 0x54 bytes of a directory header say all that it does, and so do the first 0x28 of
/// a reset table and the first 0x18 of control data.
pub proof fn lemma_headers_are_read_whole(bytes: Seq<u8>)
    ensures
        bytes.len() >= 0x54 ==> itsp_header(bytes.take(0x54)) == itsp_header(bytes),
        bytes.len() >= 0x28 ==> reset_table(bytes.take(0x28)) == reset_table(bytes),
        bytes.len() >= 0x18 ==> control_data(bytes.take(0x18)) == control_data(bytes),
{
    if bytes.len() >= 0x54 {
        let read = bytes.take(0x54);
        assert(read.subrange(0, 4) =~= bytes.subrange(0, 4));
        assert(le32(read, 4) == le32(bytes, 4) && le32(read, 8) == le32(bytes, 8));
        assert(le32(read, 0x10) == le32(bytes, 0x10));
        assert(le32(read, 0x1c) == le32(bytes, 0x1c) && le32(read, 0x20) == le32(bytes, 0x20));
    }
    if bytes.len() >= 0x28 {
        let read = bytes.take(0x28);
        assert(le32(read, 0) == le32(bytes, 0) && le32(read, 4) == le32(bytes, 4));
        assert(le32(read, 0x0c) == le32(bytes, 0x0c));
        assert(le64(read, 0x18) == le64(bytes, 0x18) && le64(read, 0x20) == le64(bytes, 0x20));
    }
    if bytes.len() >= 0x18 {
        let read = bytes.take(0x18);
        assert(read.subrange(4, 8) =~= bytes.subrange(4, 8));
        assert(le32(read, 8) == le32(bytes, 8) && le32(read, 0x0c) == le32(bytes, 0x0c));
        assert(le32(read, 0x10) == le32(bytes, 0x10) && le32(read, 0x14) == le32(bytes, 0x14));
    }
}

/// The blocks of a directory follow its header of 0x54 bytes. A search starts at the index root,
/// be it block 0, or at the first leaf block where there is no root; an enumeration starts at
/// the first leaf block.
pub proof fn lemma_directory_opened(
    buf: Seq<u8>,
    dir_offset: u64,
    block_len: u32,
    index_root: i32,
    index_head: i32,
    blocks: spec_fn(int) -> Seq<u8>,
    path: Seq<char>,
    sel: EntrySel,
)
    requires
        buf.len() >= 0x54,
        holds_at(buf, 0, seq![0x49u8, 0x54, 0x53, 0x50]),
        field32(buf, 4, 1),
        field32(buf, 8, 0x54),
        field32(buf, 0x10, block_len),
        field_signed(buf, 0x1c, index_root),
        field_signed(buf, 0x20, index_head),
        0x14 <= block_len <= 0x10_0000,
        dir_offset + 0x54 <= u64::MAX,
    ensures
        itsp_header(buf) is Ok,
        ({
            let d = Directory::described(dir_offset, itsp_header(buf)->Ok_0);
            &&& d.offset_of(0) == Ok::<_, Fault>((dir_offset + 0x54) as u64)
            &&& d.block_len == block_len
            &&& index_root >= 0 ==> d.found(blocks, path) == d.search(blocks, index_root, 0, path)
            &&& index_root < 0 ==> d.found(blocks, path) == d.search(blocks, index_head, 0, path)
            &&& d.entries(blocks, None, sel) == d.walk(blocks, index_head, None, sel)
        }),
{
    lemma_itsp_round_trip(buf, 1, 0x54, block_len, index_root, index_head);
    let d = Directory::described(dir_offset, itsp_header(buf)->Ok_0);
    assert(0 * d.block_len == 0);
}

/// A table of block offsets, eight bytes each, is read as the offsets that it was made of, with
/// the end of the stream behind them.
pub proof fn lemma_table_round_trip(table: Seq<u8>, offsets: Seq<u64>, compressed_len: u64)
    requires
        table.len() == 8 * offsets.len(),
        forall|i: int| 0 <= i < offsets.len() ==> field64(table, 8 * i, #[trigger] offsets[i]),
    ensures
        table_offsets(table, compressed_len) == offsets.push(compressed_len),
{
    let got = table_offsets(table, compressed_len);
    assert(table.len() / 8 == offsets.len());
    assert forall|i: int| 0 <= i < offsets.len() implies got[i] == offsets[i] by {
        lemma_field64(table, 8 * i, offsets[i]);
    }
    assert(got =~= offsets.push(compressed_len));
}

/// The blocks between two resets make up as many half windows as the reset intervals do.
pub proof fn lemma_reset_span(ctl: LzxcControlData)
    requires
        ctl.wf(),
    ensures
        reset_blocks(ctl) * (ctl.window_size as int / 2) == ctl.reset_interval
            * ctl.windows_per_reset,
{
    let half = ctl.window_size as int / 2;
    let n = ctl.reset_interval as int / half;
    let k = ctl.windows_per_reset as int;
    lemma_fundamental_div_mod(ctl.reset_interval as int, half);
    assert((n * k) * half == (half * n) * k) by (nonlinear_arith);
}

/// The compressed stream starts `cn` bytes into the content and the table of block offsets as
/// far into the reset table entry, itself `rt` bytes into the content, as its header says. A
/// section is laid out exactly if both lie inside the file, the table inside its entry, and a
/// block inside the window.
pub proof fn lemma_layout_exactly(
    data_offset: u64,
    cn: u64,
    rt: u64,
    rt_len: u64,
    table: LzxcResetTable,
    ctl: LzxcControlData,
    file_len: u64,
)
    requires
        table.block_len <= usize::MAX,
        table.block_count * 8 <= usize::MAX,
    ensures
        ({
            let l = layout(data_offset, cn, rt, rt_len, table, ctl, file_len);
            &&& l is Ok <==> {
                &&& table.block_len <= ctl.window_size
                &&& data_offset + cn + table.compressed_len <= file_len
                &&& table.table_offset + 8 * table.block_count <= rt_len
                &&& data_offset + rt + table.table_offset + 8 * table.block_count <= file_len
            }
            &&& l matches Ok(l) ==> {
                &&& l.cn_abs_start - data_offset == cn
                &&& l.table_at - data_offset == rt + table.table_offset
                &&& l.table_len == 8 * table.block_count
                &&& l.compressed_len == table.compressed_len
                &&& l.block_len == table.block_len
                &&& l.window_size == ctl.window_size
                &&& l.reset_blkcount == reset_blocks(ctl) as u64
            }
            &&& l matches Err(e) ==> e == Fault::Overflow || e == Fault::BadResetTable
            &&& l is Err && data_offset + cn + table.compressed_len <= u64::MAX && data_offset + rt
                + table.table_offset <= u64::MAX ==> l->Err_0 == Fault::BadResetTable
            &&& table.block_len <= ctl.window_size && data_offset + cn + table.compressed_len
                > u64::MAX ==> l == Err::<Layout, _>(Fault::Overflow)
        }),
{
}

/// The match offsets of a window are covered exactly by its position slots.
pub proof fn lemma_slots_cover_window(bits: nat)
    requires
        15 <= bits <= 21,
    ensures
        range_start(position_slots(bits as int) as nat) == pow2(bits),
{
    lemma2_to64();
}

/// A section opens with a window of the size that its layout says, where that is `2^15` to
/// `2^21` bytes, and with as many main symbols as the window calls for.
pub proof fn lemma_opened_exactly(l: Layout, table: Seq<u8>, bits: nat)
    requires
        l.window_size == pow2(bits),
        bits < 32,
        ascending(table_offsets(table, l.compressed_len)),
    ensures
        match opened(l, table) {
            Ok(s) => {
                &&& 15 <= bits <= 21
                &&& s.lzx.window.len() == l.window_size
                &&& s.lzx.main_elements == 256 + 8 * position_slots(bits as int)
                &&& s.offsets == table_offsets(table, l.compressed_len)
                &&& s.block_len == l.block_len
                &&& s.reset_blkcount == l.reset_blkcount
                &&& s.cn_abs_start == l.cn_abs_start
                &&& s.last is None
                &&& s.cache.dom() == Set::<u64>::empty()
            },
            Err(e) => !(15 <= bits <= 21) && e == Fault::Lzx(
                LzxError::InvalidWindow(bits as u8),
            ),
        },
{
    lemma_log2(bits);
    if let Ok(s) = opened(l, table) {
        assert(s.cache.dom() =~= Set::<u64>::empty());
    }
}

/// Offsets that go back are refused.
pub proof fn lemma_descending_refused(l: Layout, table: Seq<u8>, i: int, j: int)
    requires
        0 <= i <= j < table_offsets(table, l.compressed_len).len(),
        table_offsets(table, l.compressed_len)[i] > table_offsets(table, l.compressed_len)[j],
    ensures
        opened(l, table) is Err,
        opened(l, table)->Err_0 == Fault::BadResetTable,
{
}

/// An uncompressed entry that is not empty is the part of the file that starts as far behind the
/// start of the content as the entry says, where the file is long enough; a compressed one is
/// that part of the compressed section, where there is one.
pub proof fn lemma_plan_exactly(
    entry: EntryRecord,
    data_offset: u64,
    file_len: u64,
    has_compression: bool,
)
    requires
        0 < entry.length <= usize::MAX,
    ensures
        ({
            let plan = read_plan(entry, data_offset, file_len, has_compression);
            let inside = data_offset + entry.start + entry.length <= file_len;
            &&& entry.space == 0 ==> (plan is Ok <==> inside)
            &&& entry.space == 0 && inside ==> plan == Ok::<_, Fault>(
                ReadPlan::Plain {
                    span: Span {
                        offset: (data_offset + entry.start) as u64,
                        len: entry.length as usize,
                    },
                },
            )
            &&& entry.space == 0 && !inside ==> plan == Err::<ReadPlan, _>(
                if data_offset + entry.start + entry.length > u64::MAX {
                    Fault::Overflow
                } else {
                    Fault::BadPmgl
                },
            )
            &&& entry.space == 1 && has_compression ==> plan == Ok::<_, Fault>(
                ReadPlan::Compressed { start: entry.start, len: entry.length },
            )
            &&& entry.space > 1 || entry.space == 1 && !has_compression ==> plan == Err::<
                ReadPlan,
                _,
            >(Fault::NoCompression)
        }),
{
}

/// A read that goes past the last block is refused, and leaves the section as it was. So is one
/// whose end does not fit in 64 bits. An empty read inside the section gives nothing.
pub proof fn lemma_read_bounds(s: Section, stream: Seq<u8>, start: u64, len: u64)
    ensures
        start + len > s.count() * s.block_len ==> s.read(stream, start as int, len as int) == (
            s,
            Err::<Seq<u8>, _>(
                if start + len > 0xffff_ffff_ffff_ffff {
                    Fault::Overflow
                } else {
                    Fault::BadResetTable
                },
            ),
        ),
        len == 0 && start <= s.count() * s.block_len ==> s.read(stream, start as int, 0) == (
            s,
            Ok::<_, Fault>(Seq::<u8>::empty()),
        ),
{
}

} // verus!
