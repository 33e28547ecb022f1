//! The frames that an encoder sends, and what decoding them gives back.

use vstd::arithmetic::div_mod::{lemma_mod_bound, lemma_mod_decreases, lemma_small_mod};
use vstd::arithmetic::power2::lemma2_to64;
use vstd::prelude::*;

use crate::bits::BitState;
use crate::bitstream::{lemma_start_stands, stream_bit, stream_number};
use crate::decompress::{lemma_next_in_window, Section};
use crate::e8::{e8_done, lemma_e8_round_trip};
use crate::error::LzxError;
use crate::huffman::top_bit;
use crate::le::lemma_signed_round_trip;
use crate::lzx::{
    counted, lemma_block_started, lemma_frame, lemma_reset, lemma_run_decoded, LzxModel,
};
use crate::matches::Offsets;
use crate::sent_blocks::{
    bodied, body_end, body_len, body_sent, follows, head_end, head_sent, headed, lemma_body_told,
    lemma_head_told, placed, same_settings, Body, Head, Sender,
};
use crate::stored::lemma_number_splits;
use crate::tokens::{behind, lemma_number_read, mirrors, reads_at};

verus! {

/// A part of a frame: the rest of the block that the frame before ended in, or a block with its
/// header, or as much of it as the frame takes.
pub struct Part {
    pub head: Option<Head>,
    pub body: Body,
}

/// Where the next header is sent: a stored block is padded to an even length.
pub open spec fn header_at(s: Sender, p: int) -> int {
    if s.kind == 3 && s.block_len % 2 == 1 {
        p + 8
    } else {
        p
    }
}

/// Where the encoder stands before the body of a part.
pub open spec fn opened(s: Sender, part: Part) -> Sender {
    match part.head {
        Some(head) => headed(s, head),
        None => s,
    }
}

/// The bit at which the body of a part that is sent from bit `p` on starts.
pub open spec fn opened_at(s: Sender, p: int, part: Part) -> int {
    match part.head {
        Some(head) => head_end(header_at(s, p), head),
        None => p,
    }
}

/// The part is sent from bit `p` on. There is a header where no block is under way.
pub open spec fn part_sent(
    src: Seq<u8>,
    s: Sender,
    p: int,
    part: Part,
    elements: int,
    room: nat,
) -> bool {
    let s1 = opened(s, part);
    &&& match part.head {
        Some(head) => {
            let p0 = header_at(s, p);
            &&& s.remaining == 0
            &&& s.kind == 3 ==> p0 % 16 == 0 && p0 <= 8 * src.len()
            &&& head_sent(src, s, p0, head, elements)
        },
        None => s.remaining > 0,
    }
    &&& body_sent(src, s1, opened_at(s, p, part), part.body, room)
    &&& 1 <= body_len(part.body) <= s1.remaining
}

/// Where the encoder stands after a part.
pub open spec fn parted(s: Sender, part: Part, room: nat) -> Sender {
    bodied(opened(s, part), part.body, room)
}

/// The bit behind a part that is sent from bit `p` on.
pub open spec fn part_end(s: Sender, p: int, part: Part) -> int {
    body_end(opened(s, part), opened_at(s, p, part), part.body)
}

/// How many bytes the parts stand for.
pub open spec fn parts_len(parts: Seq<Part>) -> nat
    decreases parts.len(),
{
    if parts.len() == 0 {
        0
    } else {
        body_len(parts[0].body) + parts_len(parts.drop_first())
    }
}

/// The parts are sent from bit `p` on, one behind the other. All but the last end their block.
pub open spec fn parts_sent(
    src: Seq<u8>,
    s: Sender,
    p: int,
    parts: Seq<Part>,
    elements: int,
    room: nat,
) -> bool
    decreases parts.len(),
{
    parts.len() == 0 || {
        let s1 = parted(s, parts[0], room);
        &&& part_sent(src, s, p, parts[0], elements, room)
        &&& parts.len() > 1 ==> s1.remaining == 0
        &&& parts_sent(src, s1, part_end(s, p, parts[0]), parts.drop_first(), elements, room)
    }
}

/// Where the encoder stands after the parts.
pub open spec fn parted_all(s: Sender, parts: Seq<Part>, room: nat) -> Sender
    decreases parts.len(),
{
    if parts.len() == 0 {
        s
    } else {
        parted_all(parted(s, parts[0], room), parts.drop_first(), room)
    }
}

/// The bit behind the parts that are sent from bit `p` on.
pub open spec fn parts_end(s: Sender, p: int, parts: Seq<Part>, room: nat) -> int
    decreases parts.len(),
{
    if parts.len() == 0 {
        p
    } else {
        parts_end(
            parted(s, parts[0], room),
            part_end(s, p, parts[0]),
            parts.drop_first(),
            room,
        )
    }
}

/// The next header is looked for where it is sent.
proof fn lemma_header_place(m: LzxModel, src: Seq<u8>, b: BitState, p: int, s: Sender)
    requires
        follows(m, s),
        placed(src, s, b, p),
        s.kind == 3 ==> header_at(s, p) % 16 == 0 && header_at(s, p) <= 8 * src.len(),
    ensures
        reads_at(src, m.realigned(src, b), header_at(s, p)),
        b.wf(src),
{
    reveal(follows);
    if s.kind == 3 {
        let b0 = m.realigned(src, b);
        let p0 = header_at(s, p);
        lemma_start_stands(seq![0u8]);
        let zero = BitState { buf: 0, left: 0, pos: 0 };
        assert(forall|j: nat| 0 <= j < 32 ==> #[trigger] top_bit(0u32, j) == 0) by {
            assert(zero.stands_at(seq![0u8], 0));
            assert forall|j: nat| 0 <= j < 32 implies #[trigger] top_bit(0u32, j) == 0 by {
                assert(top_bit(zero.buf, j) == 0);
            }
        }
        assert(8 * b0.pos == p0);
        if b0.pos >= src.len() {
            assert forall|j: nat| j < 32 implies #[trigger] top_bit(b0.buf, j) == stream_bit(
                src,
                p0 + j,
            ) by {
                assert(2 * ((p0 + j) / 16) >= src.len());
            }
        }
    }
}

/// Decoding goes on behind a part as it was sent.
proof fn lemma_part_step(
    m: LzxModel,
    src: Seq<u8>,
    b: BitState,
    p: int,
    s: Sender,
    part: Part,
    togo: int,
) -> (d: (LzxModel, BitState))
    requires
        follows(m, s),
        placed(src, s, b, p),
        part_sent(src, s, p, part, m.main_elements, m.window.len()),
        body_len(part.body) <= togo,
        body_len(part.body) < togo ==> parted(s, part, m.window.len()).remaining == 0,
        s.posn % (m.window.len() as int) + body_len(part.body) <= m.window.len(),
    ensures
        follows(d.0, parted(s, part, m.window.len())),
        placed(src, parted(s, part, m.window.len()), d.1, part_end(s, p, part)),
        same_settings(m, d.0),
        d.1.wf(src),
        m.decoded(src, b, togo) == d.0.decoded(src, d.1, togo - body_len(part.body)),
{
    reveal(follows);
    if part.head is Some {
        lemma_header_place(m, src, b, p, s);
        lemma_block_started(m, src, b);
        lemma_head_told(m, src, b, header_at(s, p), s, part.head->0);
    }
    let r = m.in_block(src, b);
    let s1 = opened(s, part);
    assert(r.result is Ok && follows(r.m, s1) && placed(src, s1, r.b, opened_at(s, p, part)));
    assert(!LzxModel::overrun(src, r.b));
    lemma_body_told(r.m, src, r.b, opened_at(s, p, part), s1, part.body);
    lemma_run_decoded(r.m, src, r.b, body_len(part.body));
    let d = r.m.run_decoded(src, r.b, body_len(part.body));
    (d.m, d.b)
}

/// Behind a part that leaves room for more, the window position is what it was taken for.
proof fn lemma_next_place(posn: int, n: int, more: int, room: int)
    requires
        room > 0,
        1 <= n,
        0 <= more,
        posn % room + n + more <= room,
    ensures
        more > 0 ==> (posn % room + n) % room == posn % room + n,
        (posn % room + n) % room + more <= room,
{
    vstd::arithmetic::div_mod::lemma_mod_bound(posn, room);
    let next = posn % room + n;
    if next < room {
        vstd::arithmetic::div_mod::lemma_small_mod(next as nat, room as nat);
    } else {
        vstd::arithmetic::div_mod::lemma_mod_self_0(room);
    }
}

/// The parts of a frame are decoded as they were sent.
pub proof fn lemma_parts_told(
    m: LzxModel,
    src: Seq<u8>,
    b: BitState,
    p: int,
    s: Sender,
    parts: Seq<Part>,
)
    requires
        follows(m, s),
        placed(src, s, b, p),
        parts_sent(src, s, p, parts, m.main_elements, m.window.len()),
        s.posn % (m.window.len() as int) + parts_len(parts) <= m.window.len(),
    ensures
        ({
            let d = m.decoded(src, b, parts_len(parts) as int);
            let t = parted_all(s, parts, m.window.len());
            &&& d.result == Ok::<(), LzxError>(())
            &&& follows(d.m, t)
            &&& placed(src, t, d.b, parts_end(s, p, parts, m.window.len()))
            &&& same_settings(m, d.m)
            &&& parts.len() > 0 ==> t.posn == s.posn % (m.window.len() as int) + parts_len(parts)
        }),
    decreases parts.len(),
{
    if parts.len() > 0 {
        let n = parts_len(parts);
        let n0 = body_len(parts[0].body);
        let room = m.window.len();
        let rest = parts.drop_first();
        let s1 = parted(s, parts[0], room);
        if parts.len() == 1 {
            assert(rest.len() == 0);
            assert(parts_len(rest) == 0);
        } else {
            assert(body_len(rest[0].body) >= 1) by {
                reveal_with_fuel(parts_sent, 2);
            }
        }
        let (m1, b1) = lemma_part_step(m, src, b, p, s, parts[0], n as int);
        let more = parts_len(rest);
        assert(room > 0) by {
            reveal(follows);
        }
        assert(s1.posn == s.posn % (room as int) + n0);
        lemma_next_place(s.posn, n0 as int, more as int, room as int);
        lemma_parts_told(m1, src, b1, part_end(s, p, parts[0]), s1, rest);
    } else {
        assert(m.wf() && b.wf(src)) by {
            reveal(follows);
        }
        assert(m.decoded(src, b, 0).result == Ok::<(), LzxError>(()));
    }
}

/// A frame starts with the stream header where none has been sent yet: a zero bit, or a one bit
/// and the size of the executable that the call transform was applied to.
pub open spec fn opening_sent(src: Seq<u8>, continued: bool, filesize: i32) -> bool {
    continued || if filesize == 0 {
        stream_number(src, 0, 1) == 0
    } else {
        &&& stream_number(src, 0, 1) == 1
        &&& stream_number(src, 1, 32) == filesize as int % 0x1_0000_0000
    }
}

/// The bit behind the stream header.
pub open spec fn opening_end(continued: bool, filesize: i32) -> int {
    if continued {
        0
    } else if filesize == 0 {
        1
    } else {
        33
    }
}

/// The stream header is read as it was sent.
proof fn lemma_opening_told(m: LzxModel, src: Seq<u8>, filesize: i32)
    requires
        opening_sent(src, m.header_read, filesize),
        m.header_read ==> m.intel_filesize == filesize,
    ensures
        ({
            let (m1, b1) = m.begun(src, BitState { buf: 0, left: 0, pos: 0 });
            &&& m1 == (LzxModel { header_read: true, intel_filesize: filesize as int, ..m })
            &&& m.header_read ==> b1 == (BitState { buf: 0, left: 0, pos: 0 })
            &&& reads_at(src, b1, opening_end(m.header_read, filesize))
        }),
{
    lemma2_to64();
    let b = BitState { buf: 0, left: 0, pos: 0 };
    lemma_start_stands(src);
    if !m.header_read {
        let b1 = b.advance(src, 1);
        lemma_number_read(src, b, 0, 1);
        if filesize != 0 {
            let b2 = b1.advance(src, 16);
            lemma_number_read(src, b1, 1, 16);
            lemma_number_read(src, b2, 17, 16);
            lemma_number_splits(src, 1, 16, 16);
            lemma_signed_round_trip(filesize);
        }
    }
}

/// The call transform is on for a frame: an executable is announced, the frame is one of the
/// first 32768, and a block so far was stored or had a code for the byte `0xE8`.
pub open spec fn transformed(frames: int, filesize: i32, calls: bool) -> bool {
    filesize != 0 && frames < 32768 && calls
}

/// `plain` is sent as the bytes `raw` of a frame at position `at` of the executable.
pub open spec fn stands_for(
    raw: Seq<u8>,
    plain: Seq<u8>,
    on: bool,
    at: int,
    filesize: i32,
) -> bool {
    if on {
        &&& filesize > 0
        &&& at + plain.len() <= 0x7fff_ffff
        &&& raw == e8_done(plain, 0, at, filesize as int)
    } else {
        raw == plain
    }
}

/// The end of the data is found at the end of the window.
proof fn lemma_window_end(window: Seq<u8>, end: int, data: Seq<u8>, raw: Seq<u8>, before: Seq<u8>)
    requires
        mirrors(window, end, data),
        data == before + raw,
        1 <= raw.len() <= end <= window.len(),
    ensures
        window.subrange(end - raw.len(), end) == raw,
{
    let n = raw.len() as int;
    let w = window.len();
    assert forall|i: int| 0 <= i < n implies window.subrange(end - n, end)[i] == raw[i] by {
        assert(behind(window, end, n - i) == data[data.len() - (n - i)]);
        vstd::arithmetic::div_mod::lemma_small_mod((end - (n - i)) as nat, w);
    }
    assert(window.subrange(end - n, end) =~= raw);
}

/// A frame is decoded to what was sent: the data that its literals, repeats and stored bytes
/// stand for, with the call transform undone. The decoder then stands where the encoder does.
pub proof fn lemma_frame_told(
    m: LzxModel,
    src: Seq<u8>,
    s: Sender,
    parts: Seq<Part>,
    filesize: i32,
    raw: Seq<u8>,
    plain: Seq<u8>,
)
    requires
        follows(m, s),
        opening_sent(src, m.header_read, filesize),
        m.header_read ==> m.intel_filesize == filesize,
        !m.header_read ==> s.kind != 3,
        parts_sent(
            src,
            s,
            opening_end(m.header_read, filesize),
            parts,
            m.main_elements,
            m.window.len(),
        ),
        parts.len() > 0,
        s.posn % (m.window.len() as int) + parts_len(parts) <= m.window.len(),
        raw.len() == plain.len() == parts_len(parts),
        parted_all(s, parts, m.window.len()).data == s.data + raw,
        stands_for(
            raw,
            plain,
            transformed(
                m.frames_read,
                filesize,
                parted_all(s, parts, m.window.len()).calls,
            ),
            m.intel_curpos,
            filesize,
        ),
    ensures
        ({
            let f = m.frame(src, plain.len());
            &&& f.result == Ok::<_, LzxError>(plain)
            &&& follows(f.m, parted_all(s, parts, m.window.len()))
            &&& f.m.header_read
            &&& f.m.intel_filesize == filesize
            &&& f.m.frames_read == counted(m.frames_read)
            &&& f.m.intel_curpos == m.intel_curpos + if filesize != 0 && m.frames_read < 32768 {
                plain.len() as int
            } else {
                0
            }
            &&& f.m.main_elements == m.main_elements
            &&& f.m.window.len() == m.window.len()
        }),
{
    reveal(follows);
    reveal(LzxModel::frame);
    lemma_frame(m, src, plain.len());
    lemma_opening_told(m, src, filesize);
    let p = opening_end(m.header_read, filesize);
    let (m1, b1) = m.begun(src, BitState { buf: 0, left: 0, pos: 0 });
    let room = m.window.len();
    let n = plain.len() as int;
    assert(m1.trees() == m.trees());
    assert(follows(m1, s));
    assert(placed(src, s, b1, p));
    assert(body_len(parts[0].body) >= 1);
    lemma_parts_told(m1, src, b1, p, s, parts);
    let d = m1.decoded(src, b1, n);
    let t = parted_all(s, parts, room);
    vstd::arithmetic::div_mod::lemma_mod_bound(s.posn, room as int);
    assert(d.m.window_posn == t.posn && t.posn >= n);
    lemma_window_end(d.m.window, t.posn, t.data, raw, s.data);
    let on = transformed(m.frames_read, filesize, t.calls);
    if on {
        lemma_e8_round_trip(plain, 0, m.intel_curpos, filesize as int);
    }
    assert(m.frame(src, plain.len()).m.trees() == d.m.trees());
}

/// An encoder at the start of a stream.
pub open spec fn fresh() -> Sender {
    Sender {
        main: Seq::new(656, |i: int| 0u8),
        length: Seq::new(250, |i: int| 0u8),
        aligned: Seq::empty(),
        kind: 0,
        block_len: 0,
        remaining: 0,
        registers: Offsets { r0: 1, r1: 1, r2: 1 },
        data: Seq::empty(),
        posn: 0,
        calls: false,
    }
}

/// A decoder that was reset stands where an encoder starts.
pub proof fn lemma_fresh(m: LzxModel)
    requires
        m.wf(),
    ensures
        follows(m.reset(), fresh()),
{
    reveal(follows);
    lemma_reset(m, 15);
    assert(m.reset().maintree_len.take(656) =~= fresh().main);
    assert(m.reset().length_len.take(250) =~= fresh().length);
}

/// A frame as it is sent: its parts, and the bytes that they stand for.
pub struct SentFrame {
    pub parts: Seq<Part>,
    pub raw: Seq<u8>,
}

/// Where the encoder stands before frame `b`, starting anew every `every` frames.
pub open spec fn sender_before(frames: Seq<SentFrame>, b: int, every: int, room: nat) -> Sender
    decreases b,
{
    if b <= 0 || b % every == 0 {
        fresh()
    } else {
        parted_all(sender_before(frames, b - 1, every, room), frames[b - 1].parts, room)
    }
}

/// How much of the executable lies before frame number `k` of a stream with frames of `n` bytes.
pub open spec fn call_position(k: int, n: int, filesize: i32) -> int {
    if filesize == 0 {
        0
    } else if k < 32768 {
        k * n
    } else {
        32768 * n
    }
}

/// Block `b` of the section is a frame that stands for `plain`.
pub open spec fn block_sent(
    sec: Section,
    stream: Seq<u8>,
    frames: Seq<SentFrame>,
    plain: Seq<u8>,
    filesize: i32,
    b: int,
) -> bool {
    let src = sec.input(stream, b);
    let k = b % sec.reset_blkcount;
    let room = sec.lzx.window.len();
    let s = sender_before(frames, b, sec.reset_blkcount, room);
    let t = parted_all(s, frames[b].parts, room);
    &&& opening_sent(src, k != 0, filesize)
    &&& parts_sent(
        src,
        s,
        opening_end(k != 0, filesize),
        frames[b].parts,
        sec.lzx.main_elements,
        room,
    )
    &&& frames[b].parts.len() > 0
    &&& s.posn % (room as int) + sec.block_len <= room
    &&& parts_len(frames[b].parts) == sec.block_len
    &&& frames[b].raw.len() == sec.block_len
    &&& plain.len() == sec.block_len
    &&& t.data == s.data + frames[b].raw
    &&& stands_for(
        frames[b].raw,
        plain,
        transformed(k, filesize, t.calls),
        call_position(k, sec.block_len, filesize),
        filesize,
    )
}

/// Every block of the section is a frame that stands for its part of the data.
pub open spec fn section_sent(
    sec: Section,
    stream: Seq<u8>,
    frames: Seq<SentFrame>,
    plain: Seq<Seq<u8>>,
    filesize: i32,
) -> bool {
    &&& plain.len() == sec.count()
    &&& frames.len() == sec.count()
    &&& forall|b: int|
        0 <= b < sec.count() ==> block_sent(
            sec,
            stream,
            frames,
            #[trigger] plain[b],
            filesize,
            b,
        )
}

/// Replaying a block that was sent gives back its data.
proof fn lemma_sent_replay(
    sec: Section,
    m: LzxModel,
    stream: Seq<u8>,
    frames: Seq<SentFrame>,
    plain: Seq<Seq<u8>>,
    filesize: i32,
    b: int,
)
    requires
        sec.wf(),
        sec.can_hold(m),
        section_sent(sec, stream, frames, plain, filesize),
        0 <= b < sec.count(),
    ensures
        ({
            let f = sec.replay(m, stream, b);
            let n = sec.block_len;
            let k = b % sec.reset_blkcount;
            let room = sec.lzx.window.len();
            &&& f.result == Ok::<_, LzxError>(plain[b])
            &&& follows(
                f.m,
                parted_all(
                    sender_before(frames, b, sec.reset_blkcount, room),
                    frames[b].parts,
                    room,
                ),
            )
            &&& f.m.header_read
            &&& f.m.intel_filesize == filesize
            &&& f.m.frames_read == k + 1
            &&& f.m.intel_curpos == call_position(k + 1, n, filesize)
            &&& f.m.main_elements == m.main_elements
            &&& f.m.window.len() == m.window.len()
        }),
    decreases b,
{
    let every = sec.reset_blkcount;
    let n = sec.block_len;
    let k = b % every;
    let room = sec.lzx.window.len();
    let s = sender_before(frames, b, every, room);
    assert(block_sent(sec, stream, frames, plain[b], filesize, b));
    lemma_mod_bound(b, every);
    lemma_mod_decreases(b as nat, every as nat);
    let before = if k == 0 || b == 0 {
        m.reset()
    } else {
        sec.replay(m, stream, b - 1).m
    };
    if k == 0 {
        lemma_fresh(m);
        assert(0 * n == 0);
    } else {
        if b == 0 {
            lemma_small_mod(0, every as nat);
        }
        lemma_sent_replay(sec, m, stream, frames, plain, filesize, b - 1);
        lemma_next_in_window(b - 1, every);
    }
    assert(before.frames_read == k);
    assert(before.intel_curpos == call_position(k, n, filesize));
    assert((k + 1) * n == k * n + n) by (nonlinear_arith);
    assert(32768 * n == (k + 1) * n || k + 1 != 32768);
    lemma_frame_told(
        before,
        sec.input(stream, b),
        s,
        frames[b].parts,
        filesize,
        frames[b].raw,
        plain[b],
    );
}

/// A section decodes to the data that went into it: what an encoder sends as literals, repeats
/// and stored bytes, frame by frame and starting anew at every reset point, is what decoding
/// any of its blocks gives. With [`crate::random_access::lemma_read_is_transparent`] any range
/// that is read is that range of the data.
pub proof fn lemma_section_told(
    sec: Section,
    stream: Seq<u8>,
    frames: Seq<SentFrame>,
    plain: Seq<Seq<u8>>,
    filesize: i32,
)
    requires
        sec.wf(),
        section_sent(sec, stream, frames, plain, filesize),
    ensures
        sec.decodes_to(stream, plain, 0, sec.count()),
{
    assert forall|m: LzxModel, b: int|
        sec.can_hold(m) && 0 <= b < sec.count() implies (#[trigger] sec.replay(
        m,
        stream,
        b,
    )).result == Ok::<_, LzxError>(plain[b]) by {
        lemma_sent_replay(sec, m, stream, frames, plain, filesize, b);
    }
}

} // verus!
