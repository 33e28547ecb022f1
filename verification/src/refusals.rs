//! Streams that are not decoded.

use vstd::arithmetic::power2::lemma2_to64;
use vstd::prelude::*;

use crate::acceptance::lemma_accepted_exactly;
use crate::bits::BitState;
use crate::bitstream::stream_number;
use crate::code_tree::lemma_first_node;
use crate::error::LzxError;
use crate::huffman::coded;
use crate::lens::{fields, lens_read};
use crate::lzx::LzxModel;
use crate::matches::{decoded_run, BlockTrees, Offsets};
use crate::sent_blocks::lemma_header_told;
use crate::sent_lengths::{lemma_numbers_told, numbers_at, usable};
use crate::tokens::{
    lemma_repeat_read, reads_at, registers_after, repeat_read, repeat_symbol, token_sent,
    trees_for, Codes, Token,
};

verus! {

/// Only the block types 1, 2 and 3 are known.
pub proof fn lemma_unknown_type_refused(m: LzxModel, src: Seq<u8>, b: BitState, p: int)
    requires
        reads_at(src, m.realigned(src, b), p),
        stream_number(src, p, 3) == 0 || stream_number(src, p, 3) > 3,
    ensures
        m.block_started(src, b).result == Err::<(), _>(LzxError::IllegalData),
{
    reveal(LzxModel::block_started);
    lemma2_to64();
    lemma_header_told(m, src, b, p);
    crate::stored::lemma_number_bound(src, p, 3);
}

/// A pretree whose lengths do not fill the code space is refused.
pub proof fn lemma_unusable_pretree_refused(
    src: Seq<u8>,
    b: BitState,
    p: int,
    pre: Seq<u8>,
    pretree_len: Seq<u8>,
    pretree_table: Seq<u16>,
    lens: Seq<u8>,
    first: nat,
    last: nat,
)
    requires
        reads_at(src, b, p),
        pre.len() == 20,
        numbers_at(src, p, pre, 4),
        !usable(pre, 6),
        pretree_len.len() >= 20,
        pretree_table.len() >= 104,
    ensures
        !lens_read(src, b, pretree_len, pretree_table, lens, first, last).ok,
        lens_read(src, b, pretree_len, pretree_table, lens, first, last).lens == lens,
{
    lemma2_to64();
    assert(p + 0 * 4 == p);
    lemma_numbers_told(src, b, p, pretree_len, pre, 0, 4);
    let head = fields(src, b, pretree_len, 0, 20, 4);
    assert(coded(head.lens, 20) =~= pre);
    lemma_first_node(6);
    lemma_accepted_exactly(pre, 6, pretree_table);
}

/// An aligned code whose lengths do not fill the code space is refused.
pub proof fn lemma_unusable_aligned_refused(
    m: LzxModel,
    src: Seq<u8>,
    b: BitState,
    p: int,
    a: Seq<u8>,
)
    requires
        m.wf(),
        reads_at(src, m.realigned(src, b), p),
        stream_number(src, p, 3) == 2,
        a.len() == 8,
        numbers_at(src, p + 27, a, 3),
        !usable(a, 7),
    ensures
        m.block_started(src, b).result == Err::<(), _>(LzxError::IllegalData),
{
    reveal(LzxModel::block_started);
    lemma2_to64();
    lemma_header_told(m, src, b, p);
    let (m1, b1) = m.block_header(src, b);
    assert(p + 27 + 0 * 3 == p + 27);
    lemma_numbers_told(src, b1, p + 27, m1.aligned_len, a, 0, 3);
    let head = fields(src, b1, m1.aligned_len, 0, 8, 3);
    assert(coded(head.lens, 8) =~= a);
    lemma_first_node(7);
    lemma_accepted_exactly(a, 7, m1.aligned_table);
}

/// A run that starts with such a match ends there.
proof fn lemma_bad_match(
    src: Seq<u8>,
    b: BitState,
    window: Seq<u8>,
    wp: nat,
    run: nat,
    o: Offsets,
    trees: BlockTrees,
    sym: nat,
    len: nat,
    offset: u32,
    after: Offsets,
    b3: BitState,
)
    requires
        repeat_read(src, b, o, trees, sym, len, offset, after, b3),
        run > 0,
        offset == 0 || offset > window.len() || wp + len > window.len(),
    ensures
        decoded_run(src, b, window, wp, run, o, trees).result == Err::<(), _>(
            if offset == 0 || offset > window.len() {
                LzxError::IllegalData
            } else {
                LzxError::DataFormat
            },
        ),
        decoded_run(src, b, window, wp, run, o, trees).window == window,
{
}

/// A match that goes back nowhere, or further than the window, is refused. So is one that runs
/// past the end of the window.
pub proof fn lemma_bad_repeat_refused(
    src: Seq<u8>,
    b: BitState,
    p: int,
    window: Seq<u8>,
    wp: nat,
    run: nat,
    o: Offsets,
    trees: BlockTrees,
    codes: Codes,
    offset: nat,
    len: nat,
    slot: nat,
)
    requires
        reads_at(src, b, p),
        trees_for(trees, codes),
        token_sent(src, codes, o, p, Token::Repeat { offset, len, slot }),
        run > 0,
        offset == 0 || offset > window.len() || wp + len > window.len(),
    ensures
        decoded_run(src, b, window, wp, run, o, trees).result == Err::<(), _>(
            if offset == 0 || offset > window.len() {
                LzxError::IllegalData
            } else {
                LzxError::DataFormat
            },
        ),
        decoded_run(src, b, window, wp, run, o, trees).window == window,
{
    let b3 = lemma_repeat_read(src, b, p, o, trees, codes, offset, len, slot);
    let after = registers_after(o, Token::Repeat { offset, len, slot });
    lemma_bad_match(
        src,
        b,
        window,
        wp,
        run,
        o,
        trees,
        repeat_symbol(len, slot) as nat,
        len,
        offset as u32,
        after,
        b3,
    );
}

/// A run of stored bytes that the input ends in is refused.
pub proof fn lemma_cut_bytes_refused(m: LzxModel, src: Seq<u8>, b: BitState, run: nat)
    requires
        m.block_type == 3,
        b.pos + run > src.len(),
        m.window_posn % (m.window.len() as int) + run <= m.window.len(),
    ensures
        m.run_decoded(src, b, run).result == Err::<(), _>(LzxError::IllegalData),
        m.run_decoded(src, b, run).m.window == m.window,
{
    reveal(LzxModel::run_decoded);
}

/// A frame of `2^31` bytes or more is refused.
pub proof fn lemma_large_frame_refused(m: LzxModel, src: Seq<u8>, out_len: nat)
    requires
        out_len >= 0x8000_0000,
    ensures
        m.frame(src, out_len).result == Err::<Seq<u8>, _>(LzxError::DataFormat),
        m.frame(src, out_len).m == m,
{
    reveal(LzxModel::frame);
}

} // verus!
