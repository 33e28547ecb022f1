//! The blocks that an encoder sends, and what decoding them gives back.

use vstd::arithmetic::power2::{lemma2_to64, pow2};
use vstd::prelude::*;

use crate::bits::BitState;
use crate::bitstream::stream_number;
use crate::code_tree::lemma_first_node;
use crate::encoding::holds_at;
use crate::headers::{field32, lemma_field32};
use crate::huffman::{coded, lemma_built_shape};
use crate::lens::fields;
use crate::lzx::{
    lemma_block_started, lemma_run_decoded, lemma_trees_read_keeps, overwritten, LzxModel,
};
use crate::matches::{aligned_tree, length_tree, main_tree, match_offset, Offsets};
use crate::sent_lengths::{
    lemma_built_for, lemma_numbers_told, lemma_sent_lengths_told, numbers_at, usable, SentLengths,
};
use crate::stored::{lemma_number_bound, lemma_number_splits};
use crate::tokens::{
    behind, built_for, code_at, footer_bits, lemma_number_read, lemma_offset_told, lemma_run_told,
    lemma_slot_ranges_exactly, mirrors, range_start, reaches_back, reads_at, registers_behind,
    spelled, tokens_end, tokens_sent, total_len, trees_for, Codes, Token,
};

verus! {

/// Where an encoder stands in a stream.
pub struct Sender {
    /// The code lengths of the last block.
    pub main: Seq<u8>,
    pub length: Seq<u8>,
    pub aligned: Seq<u8>,
    /// The type of the current block, its length, and how much of that is still to be sent.
    pub kind: u8,
    pub block_len: nat,
    pub remaining: nat,
    /// The last three offsets.
    pub registers: Offsets,
    /// All that has been sent.
    pub data: Seq<u8>,
    /// The window position behind it.
    pub posn: int,
    /// A block so far was stored or had a code for the byte `0xE8`.
    pub calls: bool,
}

impl Sender {
    /// The codes in effect for the current block.
    pub open spec fn codes(self) -> Codes {
        Codes {
            main: self.main,
            length: self.length,
            aligned: if self.kind == 2 {
                Some(self.aligned)
            } else {
                None
            },
        }
    }
}

/// The header of a block.
pub enum Head {
    /// A block of literals and repeats, with its codes and how their lengths are sent: the
    /// literals of the main code, the rest of it, and the length code.
    Coded {
        aligned: Option<Seq<u8>>,
        main: Seq<u8>,
        length: Seq<u8>,
        low: SentLengths,
        high: SentLengths,
        lengths: SentLengths,
        block_len: nat,
    },
    /// A block of bytes as they are, with the offsets that the block behind it starts with.
    Stored { registers: Offsets, block_len: nat },
}

/// The bit at which the lengths of the main code start, for a header that is sent from bit `p`
/// on.
pub open spec fn lengths_start(p: int, aligned: Option<Seq<u8>>) -> int {
    if aligned is Some {
        p + 51
    } else {
        p + 27
    }
}

/// The byte behind the 16-bit word that bit `p` lies in.
pub open spec fn next_word(p: int) -> int {
    2 * (p / 16 + 1)
}

/// The header is sent from bit `p` on: three bits for the type, 24 for the length, and then what
/// the type calls for. Of the main code the first `elements` lengths are sent, of the length code
/// 249.
#[verifier::opaque]
pub open spec fn head_sent(src: Seq<u8>, s: Sender, p: int, head: Head, elements: int) -> bool {
    match head {
        Head::Coded { aligned, main, length, low, high, lengths, block_len } => {
            let p1 = lengths_start(p, aligned);
            let p2 = low.end(p1);
            let p3 = high.end(p2);
            &&& stream_number(src, p, 3) == if aligned is Some {
                2int
            } else {
                1
            }
            &&& stream_number(src, p + 3, 24) == block_len
            &&& aligned matches Some(a) ==> a.len() == 8 && usable(a, 7) && numbers_at(
                src,
                p + 27,
                a,
                3,
            )
            &&& main.len() == 656 && usable(main, 12)
            &&& length.len() == 250 && usable(length, 12)
            &&& forall|i: int| elements <= i < 656 ==> #[trigger] main[i] == s.main[i]
            &&& length[249] == s.length[249]
            &&& low.sent(src, p1, s.main, main, 0, 256)
            &&& high.sent(src, p2, s.main, main, 256, elements)
            &&& lengths.sent(src, p3, s.length, length, 0, 249)
        },
        Head::Stored { registers, block_len } => {
            let at = next_word(p + 27);
            &&& stream_number(src, p, 3) == 3
            &&& stream_number(src, p + 3, 24) == block_len
            &&& field32(src, at, registers.r0)
            &&& field32(src, at + 4, registers.r1)
            &&& field32(src, at + 8, registers.r2)
        },
    }
}

/// The bit behind a header that is sent from bit `p` on.
pub open spec fn head_end(p: int, head: Head) -> int {
    match head {
        Head::Coded { aligned, low, high, lengths, .. } => lengths.end(
            high.end(low.end(lengths_start(p, aligned))),
        ),
        Head::Stored { .. } => 8 * (next_word(p + 27) + 12),
    }
}

/// Where the encoder stands after a header.
pub open spec fn headed(s: Sender, head: Head) -> Sender {
    match head {
        Head::Coded { aligned, main, length, block_len, .. } => Sender {
            main,
            length,
            aligned: match aligned {
                Some(a) => a,
                None => s.aligned,
            },
            kind: if aligned is Some {
                2
            } else {
                1
            },
            block_len,
            remaining: block_len,
            calls: s.calls || main[0xE8] != 0,
            ..s
        },
        Head::Stored { registers, block_len } => Sender {
            kind: 3,
            block_len,
            remaining: block_len,
            registers,
            calls: true,
            ..s
        },
    }
}

/// What a block holds, or a part of it.
pub enum Body {
    Tokens(Seq<Token>),
    Bytes(Seq<u8>),
}

/// How many bytes a body stands for.
pub open spec fn body_len(body: Body) -> nat {
    match body {
        Body::Tokens(tokens) => total_len(tokens),
        Body::Bytes(bytes) => bytes.len(),
    }
}

/// The body is sent from bit `p` on, for a window of `room` bytes.
#[verifier::opaque]
pub open spec fn body_sent(src: Seq<u8>, s: Sender, p: int, body: Body, room: nat) -> bool {
    match body {
        Body::Tokens(tokens) => {
            &&& s.kind == 1 || s.kind == 2
            &&& tokens_sent(src, s.codes(), s.registers, p, tokens)
            &&& reaches_back(s.data.len(), room, tokens)
        },
        Body::Bytes(bytes) => {
            &&& s.kind == 3
            &&& p % 8 == 0
            &&& holds_at(src, p / 8, bytes)
        },
    }
}

/// The bit behind a body that is sent from bit `p` on.
pub open spec fn body_end(s: Sender, p: int, body: Body) -> int {
    match body {
        Body::Tokens(tokens) => tokens_end(s.codes(), p, tokens),
        Body::Bytes(bytes) => p + 8 * bytes.len(),
    }
}

/// Where the encoder stands after a body.
pub open spec fn bodied(s: Sender, body: Body, room: nat) -> Sender {
    Sender {
        remaining: (s.remaining - body_len(body)) as nat,
        registers: match body {
            Body::Tokens(tokens) => registers_behind(s.registers, tokens),
            Body::Bytes(_) => s.registers,
        },
        data: match body {
            Body::Tokens(tokens) => spelled(s.data, tokens),
            Body::Bytes(bytes) => s.data + bytes,
        },
        posn: s.posn % (room as int) + body_len(body),
        ..s
    }
}

/// The decoder has come to where the encoder stands.
#[verifier::opaque]
pub open spec fn follows(m: LzxModel, s: Sender) -> bool {
    &&& m.wf()
    &&& m.maintree_len.take(656) == s.main
    &&& m.length_len.take(250) == s.length
    &&& m.block_type == s.kind
    &&& s.kind == 3 ==> m.block_length == s.block_len
    &&& m.block_remaining == s.remaining
    &&& m.offsets == s.registers
    &&& m.window_posn == s.posn
    &&& m.intel_started == s.calls
    &&& mirrors(m.window, s.posn, s.data)
    &&& s.remaining > 0 && (s.kind == 1 || s.kind == 2) ==> trees_for(m.trees(), s.codes())
}

/// The reader has come to bit `p`.
pub open spec fn placed(src: Seq<u8>, s: Sender, b: BitState, p: int) -> bool {
    if s.kind == 3 {
        &&& b.wf(src)
        &&& b.pos <= src.len()
        &&& p == 8 * b.pos
    } else {
        reads_at(src, b, p)
    }
}

/// What does not change within a frame.
pub open spec fn same_settings(m: LzxModel, m2: LzxModel) -> bool {
    &&& m2.header_read == m.header_read
    &&& m2.intel_filesize == m.intel_filesize
    &&& m2.intel_curpos == m.intel_curpos
    &&& m2.frames_read == m.frames_read
    &&& m2.main_elements == m.main_elements
    &&& m2.window.len() == m.window.len()
}

/// Three bits for the type and 24 for the length are read as they were sent.
pub proof fn lemma_header_told(m: LzxModel, src: Seq<u8>, b: BitState, p: int)
    requires
        reads_at(src, m.realigned(src, b), p),
    ensures
        ({
            let (m1, b1) = m.block_header(src, b);
            &&& m1 == (LzxModel {
                block_type: stream_number(src, p, 3) as u8,
                block_length: stream_number(src, p + 3, 24) as int,
                block_remaining: stream_number(src, p + 3, 24) as int,
                ..m
            })
            &&& reads_at(src, b1, p + 27)
        }),
{
    lemma2_to64();
    let b0 = m.realigned(src, b);
    let b1 = b0.advance(src, 3);
    let b2 = b1.advance(src, 16);
    lemma_number_read(src, b0, p, 3);
    lemma_number_read(src, b1, p + 3, 16);
    lemma_number_read(src, b2, p + 19, 8);
    lemma_number_splits(src, p + 3, 16, 8);
}

/// The trees of a block are read as they were sent.
proof fn lemma_trees_told(
    m: LzxModel,
    src: Seq<u8>,
    b: BitState,
    p: int,
    s: Sender,
    main: Seq<u8>,
    length: Seq<u8>,
    low: SentLengths,
    high: SentLengths,
    lengths: SentLengths,
)
    requires
        m.wf(),
        m.maintree_len.take(656) == s.main,
        m.length_len.take(250) == s.length,
        reads_at(src, b, p),
        main.len() == 656,
        usable(main, 12),
        length.len() == 250,
        usable(length, 12),
        forall|i: int| m.main_elements <= i < 656 ==> #[trigger] main[i] == s.main[i],
        length[249] == s.length[249],
        low.sent(src, p, s.main, main, 0, 256),
        high.sent(src, low.end(p), s.main, main, 256, m.main_elements),
        lengths.sent(src, high.end(low.end(p)), s.length, length, 0, 249),
    ensures
        ({
            let r = m.trees_read(src, b);
            &&& r.result is Ok
            &&& reads_at(src, r.b, lengths.end(high.end(low.end(p))))
            &&& r.m.maintree_len.take(656) == main
            &&& r.m.length_len.take(250) == length
            &&& built_for(main_tree(r.m.maintree_table, r.m.maintree_len), main)
            &&& built_for(length_tree(r.m.length_table, r.m.length_len), length)
        }),
{
    lemma2_to64();
    lemma_first_node(12);
    let all = m.main_elements as nat;
    assert(forall|i: int| 0 <= i < 656 ==> m.maintree_len[i] == #[trigger] s.main[i]) by {
        assert(forall|i: int| 0 <= i < 656 ==> m.maintree_len.take(656)[i] == m.maintree_len[i]);
    }
    assert(forall|i: int| 0 <= i < 250 ==> m.length_len[i] == #[trigger] s.length[i]) by {
        assert(forall|i: int| 0 <= i < 250 ==> m.length_len.take(250)[i] == m.length_len[i]);
    }
    lemma_sent_lengths_told(
        src,
        b,
        p,
        m.pretree_len,
        m.pretree_table,
        m.maintree_len,
        s.main,
        main,
        0,
        256,
        low,
    );
    let s1 = m.main_lens(src, b, 0, 256);
    lemma_sent_lengths_told(
        src,
        s1.b,
        low.end(p),
        s1.m.pretree_len,
        s1.m.pretree_table,
        s1.m.maintree_len,
        s.main,
        main,
        256,
        all,
        high,
    );
    let s2 = s1.m.main_lens(src, s1.b, 256, all);
    assert(s2.m.maintree_len.take(656) =~= main);
    assert(coded(s2.m.maintree_len, 656) =~= main);
    let (m3, ok3) = s2.m.main_built();
    lemma_built_for(main_tree(m3.maintree_table, m3.maintree_len), s2.m.maintree_table);
    lemma_sent_lengths_told(
        src,
        s2.b,
        high.end(low.end(p)),
        m3.pretree_len,
        m3.pretree_table,
        m3.length_len,
        s.length,
        length,
        0,
        249,
        lengths,
    );
    let s4 = m3.length_lens(src, s2.b);
    assert(s4.m.length_len.take(250) =~= length);
    assert(coded(s4.m.length_len, 250) =~= length);
    let (m5, ok5) = s4.m.length_built();
    lemma_built_for(length_tree(m5.length_table, m5.length_len), s4.m.length_table);
}

/// The aligned code of a block is read as it was sent.
proof fn lemma_aligned_told(m: LzxModel, src: Seq<u8>, b: BitState, p: int, a: Seq<u8>)
    requires
        m.wf(),
        reads_at(src, b, p),
        a.len() == 8,
        usable(a, 7),
        numbers_at(src, p, a, 3),
    ensures
        ({
            let head = fields(src, b, m.aligned_len, 0, 8, 3);
            let (m1, ok1) = (LzxModel { aligned_len: head.lens, ..m }).aligned_built();
            &&& ok1
            &&& m1 == (LzxModel {
                aligned_len: m1.aligned_len,
                aligned_table: m1.aligned_table,
                ..m
            })
            &&& m1.wf()
            &&& reads_at(src, head.b, p + 24)
            &&& built_for(aligned_tree(m1.aligned_table, m1.aligned_len), a)
        }),
{
    lemma2_to64();
    lemma_first_node(7);
    assert(p + 0 * 3 == p);
    lemma_numbers_told(src, b, p, m.aligned_len, a, 0, 3);
    let head = fields(src, b, m.aligned_len, 0, 8, 3);
    crate::lens::lemma_fields(src, b, m.aligned_len, 0, 8, 3);
    let mid = LzxModel { aligned_len: head.lens, ..m };
    assert(coded(head.lens, 8) =~= a);
    let (m1, ok1) = mid.aligned_built();
    lemma_built_for(aligned_tree(m1.aligned_table, m1.aligned_len), m.aligned_table);
    lemma_built_shape(a, 7, m.aligned_table);
}

/// A coded block is started as its header was sent.
proof fn lemma_coded_head_told(
    m: LzxModel,
    src: Seq<u8>,
    b: BitState,
    p: int,
    s: Sender,
    head: Head,
)
    requires
        follows(m, s),
        s.remaining == 0,
        head is Coded,
        head_sent(src, s, p, head, m.main_elements),
        reads_at(src, m.realigned(src, b), p),
        b.wf(src),
    ensures
        ({
            let r = m.block_started(src, b);
            &&& r.result is Ok
            &&& follows(r.m, headed(s, head))
            &&& placed(src, headed(s, head), r.b, head_end(p, head))
            &&& same_settings(m, r.m)
            &&& !LzxModel::overrun(src, r.b)
        }),
{
    reveal(head_sent);
    reveal(follows);
    lemma_block_started(m, src, b);
    reveal(LzxModel::block_started);
    lemma_header_told(m, src, b, p);
    let (m1, b1) = m.block_header(src, b);
    if let Head::Coded { aligned, main, length, low, high, lengths, block_len } = head {
        match aligned {
            Some(a) => {
                lemma_aligned_told(m1, src, b1, p + 27, a);
                let f = fields(src, b1, m1.aligned_len, 0, 8, 3);
                let (m2, ok2) = (LzxModel { aligned_len: f.lens, ..m1 }).aligned_built();
                lemma_trees_told(m2, src, f.b, p + 51, s, main, length, low, high, lengths);
                lemma_trees_read_keeps(m2, src, f.b);
                let r = m2.trees_read(src, f.b);
                assert(r.m.maintree_len[0xE8] == r.m.maintree_len.take(656)[0xE8]);
            },
            None => {
                lemma_trees_told(m1, src, b1, p + 27, s, main, length, low, high, lengths);
                lemma_trees_read_keeps(m1, src, b1);
                let r = m1.trees_read(src, b1);
                assert(r.m.maintree_len[0xE8] == r.m.maintree_len.take(656)[0xE8]);
            },
        }
    }
}

/// The registers of a stored block stand behind the word in which its header ends.
proof fn lemma_registers_place(src: Seq<u8>, b: BitState, p: int)
    requires
        reads_at(src, b, p),
        next_word(p) + 12 <= src.len(),
    ensures
        LzxModel::registers_at(src, b) == next_word(p),
        b.fetch(src, 16).wf(src),
{
    crate::bitstream::lemma_looks_ahead(src, b, p, 16);
}

/// A stored block is started as its header was sent.
proof fn lemma_stored_head_told(
    m: LzxModel,
    src: Seq<u8>,
    b: BitState,
    p: int,
    s: Sender,
    head: Head,
)
    requires
        follows(m, s),
        s.remaining == 0,
        head is Stored,
        head_sent(src, s, p, head, m.main_elements),
        reads_at(src, m.realigned(src, b), p),
        b.wf(src),
    ensures
        ({
            let r = m.block_started(src, b);
            &&& r.result is Ok
            &&& follows(r.m, headed(s, head))
            &&& placed(src, headed(s, head), r.b, head_end(p, head))
            &&& same_settings(m, r.m)
            &&& !LzxModel::overrun(src, r.b)
        }),
{
    reveal(head_sent);
    reveal(follows);
    lemma_block_started(m, src, b);
    reveal(LzxModel::block_started);
    lemma_header_told(m, src, b, p);
    let (m1, b1) = m.block_header(src, b);
    if let Head::Stored { registers, block_len } = head {
        let at = next_word(p + 27);
        lemma_field32(src, at, registers.r0);
        lemma_field32(src, at + 4, registers.r1);
        lemma_field32(src, at + 8, registers.r2);
        lemma_registers_place(src, b1, p + 27);
    }
}

/// A block is started as its header was sent.
pub proof fn lemma_head_told(
    m: LzxModel,
    src: Seq<u8>,
    b: BitState,
    p: int,
    s: Sender,
    head: Head,
)
    requires
        follows(m, s),
        s.remaining == 0,
        head_sent(src, s, p, head, m.main_elements),
        reads_at(src, m.realigned(src, b), p),
        b.wf(src),
    ensures
        ({
            let r = m.block_started(src, b);
            &&& r.result is Ok
            &&& follows(r.m, headed(s, head))
            &&& placed(src, headed(s, head), r.b, head_end(p, head))
            &&& same_settings(m, r.m)
            &&& !LzxModel::overrun(src, r.b)
        }),
{
    if head is Coded {
        lemma_coded_head_told(m, src, b, p, s, head);
    } else {
        lemma_stored_head_told(m, src, b, p, s, head);
    }
}

/// The end of the window is its start.
proof fn lemma_mirrors_wrap(window: Seq<u8>, posn: int, data: Seq<u8>)
    requires
        mirrors(window, posn, data),
        window.len() > 0,
    ensures
        mirrors(window, posn % (window.len() as int), data),
        0 <= posn % (window.len() as int) <= window.len(),
{
    let n = window.len() as int;
    let wp = posn % n;
    vstd::arithmetic::div_mod::lemma_mod_bound(posn, n);
    assert forall|k: int| 1 <= k <= n && k <= data.len() implies #[trigger] behind(window, wp, k)
        == data[data.len() - k] by {
        assert(behind(window, posn, k) == data[data.len() - k]);
        vstd::arithmetic::div_mod::lemma_sub_mod_noop(posn, k, n);
        vstd::arithmetic::div_mod::lemma_sub_mod_noop(wp, k, n);
        vstd::arithmetic::div_mod::lemma_mod_twice(posn, n);
    }
}

/// Bytes written to the window are bytes behind the data.
proof fn lemma_mirrors_bytes(window: Seq<u8>, wp: int, data: Seq<u8>, bytes: Seq<u8>)
    requires
        mirrors(window, wp, data),
        wp + bytes.len() <= window.len(),
    ensures
        mirrors(overwritten(window, wp, bytes), wp + bytes.len(), data + bytes),
    decreases bytes.len(),
{
    if bytes.len() == 0 {
        assert(overwritten(window, wp, bytes) =~= window);
        assert(data + bytes =~= data);
    } else {
        let start = bytes.drop_last();
        lemma_mirrors_bytes(window, wp, data, start);
        let w = overwritten(window, wp, start);
        crate::tokens::lemma_mirrors_push(w, wp + start.len(), data + start, bytes.last());
        assert(w.update(wp + start.len(), bytes.last()) =~= overwritten(window, wp, bytes));
        assert((data + start).push(bytes.last()) =~= data + bytes);
    }
}

/// The body of a block is decoded as it was sent.
pub proof fn lemma_body_told(
    m: LzxModel,
    src: Seq<u8>,
    b: BitState,
    p: int,
    s: Sender,
    body: Body,
)
    requires
        follows(m, s),
        placed(src, s, b, p),
        body_sent(src, s, p, body, m.window.len()),
        1 <= body_len(body) <= s.remaining,
        s.posn % (m.window.len() as int) + body_len(body) <= m.window.len(),
    ensures
        ({
            let r = m.run_decoded(src, b, body_len(body));
            let t = bodied(s, body, m.window.len());
            &&& r.result is Ok
            &&& follows(r.m, t)
            &&& placed(src, t, r.b, body_end(s, p, body))
            &&& same_settings(m, r.m)
        }),
{
    reveal(body_sent);
    reveal(follows);
    lemma_run_decoded(m, src, b, body_len(body));
    reveal(LzxModel::run_decoded);
    let wp = m.window_posn % (m.window.len() as int);
    lemma_mirrors_wrap(m.window, m.window_posn, s.data);
    match body {
        Body::Tokens(tokens) => {
            lemma_run_told(
                src,
                b,
                p,
                m.window,
                wp as nat,
                s.data,
                s.registers,
                m.trees(),
                s.codes(),
                tokens,
            );
        },
        Body::Bytes(bytes) => {
            assert(src.subrange(b.pos, b.pos + bytes.len()) =~= bytes);
            lemma_mirrors_bytes(m.window, wp, s.data, bytes);
        },
    }
}

/// In a block of type 2 an offset in a slot with three or more footer bits is made up of the
/// plain bits, the low three of which are left out, and a symbol of the aligned code; the reader
/// then stands behind that symbol.
pub proof fn lemma_aligned_offset(
    m: LzxModel,
    src: Seq<u8>,
    b: BitState,
    p: int,
    codes: Codes,
    slot: nat,
    primary: nat,
    y: nat,
)
    requires
        m.block_type == 2,
        codes.aligned is Some,
        trees_for(m.trees(), codes),
        reads_at(src, b, p),
        slot < 51,
        primary < 8,
        footer_bits(slot) >= 3,
        y < 8,
        code_at(src, codes.aligned->0, p + footer_bits(slot) - 3, y as int),
    ensures
        ({
            let e = footer_bits(slot);
            let h = stream_number(src, p, (e - 3) as nat);
            let sym = 256 + 8 * slot + primary;
            let (offset, after, b1) = match_offset(src, b, sym, m.offsets, m.trees().aligned);
            &&& offset == Some((range_start(slot) - 2 + 8 * h + y) as u32)
            &&& after == (Offsets { r0: offset->0, r1: m.offsets.r0, r2: m.offsets.r1 })
            &&& reads_at(src, b1, p + e - 3 + codes.aligned->0[y as int])
        }),
{
    let e = footer_bits(slot);
    let n = (e - 3) as nat;
    let h = stream_number(src, p, n);
    lemma2_to64();
    lemma_slot_ranges_exactly(slot);
    lemma_number_bound(src, p, n);
    vstd::arithmetic::power2::lemma_pow2_adds(n, 3);
    let offset = (range_start(slot) - 2 + 8 * h + y) as nat;
    assert((8 * h + y) as int / 8 == h && (8 * h + y) as int % 8 == y);
    assert(8 * h + y < pow2(e)) by {
        assert(pow2(n) * 8 == pow2(e));
    }
    let sym = 256 + 8 * slot + primary;
    lemma_offset_told(src, b, p, m.trees(), codes, m.offsets, sym, offset, slot);
}

/// In a block of type 1 all footer bits of an offset are plain.
pub proof fn lemma_verbatim_offset(
    m: LzxModel,
    src: Seq<u8>,
    b: BitState,
    p: int,
    codes: Codes,
    slot: nat,
    primary: nat,
)
    requires
        m.block_type == 1,
        codes.aligned is None,
        trees_for(m.trees(), codes),
        reads_at(src, b, p),
        3 <= slot < 51,
        primary < 8,
    ensures
        ({
            let e = footer_bits(slot);
            let sym = 256 + 8 * slot + primary;
            let (offset, after, b1) = match_offset(src, b, sym, m.offsets, m.trees().aligned);
            &&& offset == Some((range_start(slot) - 2 + stream_number(src, p, e)) as u32)
            &&& after == (Offsets { r0: offset->0, r1: m.offsets.r0, r2: m.offsets.r1 })
            &&& reads_at(src, b1, p + e)
        }),
{
    let e = footer_bits(slot);
    let q = stream_number(src, p, e);
    lemma2_to64();
    lemma_slot_ranges_exactly(slot);
    lemma_number_bound(src, p, e);
    let offset = (range_start(slot) - 2 + q) as nat;
    let sym = 256 + 8 * slot + primary;
    lemma_offset_told(src, b, p, m.trees(), codes, m.offsets, sym, offset, slot);
}

} // verus!
