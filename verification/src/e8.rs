//! The Intel E8 call transform.
//!
//! An encoder may rewrite the operand of every `call rel32` (opcode `0xE8`) to an absolute
//! target, which makes repeated calls of one target repeat byte for byte.

use vstd::prelude::*;

use crate::le::{i32_le, le32, lemma_with_le32, put_le32, signed32, with_le32};

verus! {

/// The opcode scan stops this many bytes short of the frame end.
pub const E8_TAIL_MARGIN: usize = 10;

/// `target` is an operand that the transform produces for a call at stream position `pos`
/// of an executable of `filesize` bytes.
pub open spec fn e8_in_range(target: int, pos: int, filesize: int) -> bool {
    -pos <= target < filesize
}

/// The displacement that the transform turned into `target`.
pub open spec fn e8_displacement(target: int, pos: int, filesize: int) -> int {
    if target >= 0 {
        target - pos
    } else {
        target + filesize
    }
}

/// `frame` with its calls from byte `i` on converted back to displacements, where byte
/// zero stands at stream position `start`.
pub open spec fn e8_undone(frame: Seq<u8>, i: int, start: int, filesize: int) -> Seq<u8>
    decreases frame.len() - i,
{
    if i < 0 || i + E8_TAIL_MARGIN >= frame.len() {
        frame
    } else if frame[i] != 0xE8 {
        e8_undone(frame, i + 1, start, filesize)
    } else {
        let target = signed32(le32(frame, i + 1));
        if e8_in_range(target, start + i, filesize) {
            e8_undone(
                with_le32(frame, i + 1, e8_displacement(target, start + i, filesize)),
                i + 5,
                start,
                filesize,
            )
        } else {
            e8_undone(frame, i + 5, start, filesize)
        }
    }
}

/// Converting calls from byte `i` on writes no byte up to it, and none of the last six.
proof fn lemma_e8_undone_keeps(frame: Seq<u8>, i: int, start: int, filesize: int)
    requires
        0 <= i,
    ensures
        ({
            let r = e8_undone(frame, i, start, filesize);
            &&& r.len() == frame.len()
            &&& forall|k: int|
                0 <= k < frame.len() && (k <= i || k + 6 >= frame.len()) ==> #[trigger] r[k]
                    == frame[k]
        }),
    decreases frame.len() - i,
{
    if i + E8_TAIL_MARGIN >= frame.len() {
    } else if frame[i] != 0xE8 {
        lemma_e8_undone_keeps(frame, i + 1, start, filesize);
    } else {
        let target = signed32(le32(frame, i + 1));
        let v = e8_displacement(target, start + i, filesize);
        lemma_with_le32(frame, i + 1, v);
        lemma_e8_undone_keeps(frame, i + 5, start, filesize);
        lemma_e8_undone_keeps(with_le32(frame, i + 1, v), i + 5, start, filesize);
    }
}

/// Undoing the transform keeps the length of a frame, its first byte and its last six, and all
/// of a frame that is too short to scan.
pub proof fn lemma_e8_undone_ends(frame: Seq<u8>, start: int, filesize: int)
    ensures
        ({
            let r = e8_undone(frame, 0, start, filesize);
            &&& r.len() == frame.len()
            &&& frame.len() <= E8_TAIL_MARGIN ==> r == frame
            &&& frame.len() > E8_TAIL_MARGIN ==> r[0] == frame[0] && r.subrange(
                frame.len() - 6,
                frame.len() as int,
            ) == frame.subrange(frame.len() - 6, frame.len() as int)
        }),
{
    lemma_e8_undone_keeps(frame, 0, start, filesize);
    let r = e8_undone(frame, 0, start, filesize);
    if frame.len() > E8_TAIL_MARGIN {
        assert(r.subrange(frame.len() - 6, frame.len() as int) =~= frame.subrange(
            frame.len() - 6,
            frame.len() as int,
        ));
    }
}

/// Converts the calls of a frame back to displacements, in place.
pub fn undo_e8(frame: &mut [u8], start: i64, filesize: i32)
    requires
        i64::MIN < start,
        old(frame)@.len() <= i64::MAX,
        start + old(frame)@.len() <= i64::MAX,
    ensures
        final(frame)@.len() == old(frame)@.len(),
        final(frame)@ == e8_undone(old(frame)@, 0, start as int, filesize as int),
{
    let len: usize = frame.len();
    if len <= E8_TAIL_MARGIN {
        return;
    }
    let end: usize = len - E8_TAIL_MARGIN;
    let ghost all = e8_undone(frame@, 0, start as int, filesize as int);
    let mut i: usize = 0;
    while i < end
        invariant
            i <= end + 4,
            end + E8_TAIL_MARGIN == len == frame@.len() == old(frame)@.len(),
            len <= i64::MAX,
            i64::MIN < start,
            start + len <= i64::MAX,
            all == e8_undone(frame@, i as int, start as int, filesize as int),
        decreases end + 4 - i,
    {
        if frame[i] != 0xE8 {
            i = i + 1;
        } else {
            let pos: i64 = start + i as i64;
            let target: i64 = i32_le(frame, i + 1) as i64;
            if target >= -pos && target < filesize as i64 {
                let displacement: i64 = if target >= 0 {
                    target - pos
                } else {
                    target + filesize as i64
                };
                put_le32(frame, i + 1, displacement);
            }
            i = i + 5;
        }
    }
}

/// The operand that an encoder puts in place of the displacement `v` of a call at stream
/// position `pos`: the absolute target if it lies inside the executable, and otherwise what
/// cannot be mistaken for one.
pub open spec fn e8_target(v: int, pos: int, filesize: int) -> int {
    if v < filesize - pos {
        v + pos
    } else {
        v - filesize
    }
}

/// `frame` with its calls from byte `i` on converted to absolute targets, where byte zero
/// stands at stream position `start`. The last ten bytes hold no call.
pub open spec fn e8_done(frame: Seq<u8>, i: int, start: int, filesize: int) -> Seq<u8>
    decreases frame.len() - i,
{
    if i < 0 || i + 10 >= frame.len() {
        frame
    } else if frame[i] != 0xE8 {
        e8_done(frame, i + 1, start, filesize)
    } else {
        let v = signed32(le32(frame, i + 1));
        if -(start + i) <= v < filesize {
            e8_done(
                with_le32(frame, i + 1, e8_target(v, start + i, filesize)),
                i + 5,
                start,
                filesize,
            )
        } else {
            e8_done(frame, i + 5, start, filesize)
        }
    }
}

/// Conversion from byte `i` on leaves what comes before, and keeps the length.
proof fn lemma_e8_done_prefix(frame: Seq<u8>, i: int, start: int, filesize: int)
    ensures
        e8_done(frame, i, start, filesize).len() == frame.len(),
        forall|k: int|
            0 <= k < i && k < frame.len() ==> #[trigger] e8_done(frame, i, start, filesize)[k]
                == frame[k],
        0 <= i < frame.len() && frame[i] == 0xE8 ==> e8_done(frame, i, start, filesize)[i] == 0xE8,
    decreases frame.len() - i,
{
    if i < 0 || i + E8_TAIL_MARGIN >= frame.len() {
    } else if frame[i] != 0xE8 {
        lemma_e8_done_prefix(frame, i + 1, start, filesize);
    } else {
        let v = signed32(le32(frame, i + 1));
        let t = e8_target(v, start + i, filesize);
        lemma_with_le32(frame, i + 1, t);
        lemma_e8_done_prefix(frame, i + 5, start, filesize);
        lemma_e8_done_prefix(with_le32(frame, i + 1, t), i + 5, start, filesize);
    }
}

/// The bytes that a 32-bit number is made of.
proof fn lemma_four_bytes(b0: int, b1: int, b2: int, b3: int)
    requires
        0 <= b0 < 0x100,
        0 <= b1 < 0x100,
        0 <= b2 < 0x100,
        0 <= b3 < 0x100,
    ensures
        ({
            let w = b0 + 0x100 * b1 + 0x1_0000 * b2 + 0x100_0000 * b3;
            &&& w % 0x100 == b0
            &&& w / 0x100 % 0x100 == b1
            &&& w / 0x1_0000 % 0x100 == b2
            &&& w / 0x100_0000 == b3
        }),
{
    let w = b0 + 0x100 * b1 + 0x1_0000 * b2 + 0x100_0000 * b3;
    assert(w / 0x100 == b1 + 0x100 * b2 + 0x1_0000 * b3);
    assert(w / 0x1_0000 == b2 + 0x100 * b3);
}

/// A signed number is the pattern that it was read from, modulo `2^32`.
proof fn lemma_signed_pattern(w: nat)
    requires
        w < 0x1_0000_0000,
    ensures
        signed32(w) % 0x1_0000_0000 == w,
{
    if w >= 0x8000_0000 {
        vstd::arithmetic::div_mod::lemma_mod_add_multiples_vanish(signed32(w), 0x1_0000_0000);
    }
    vstd::arithmetic::div_mod::lemma_small_mod(w, 0x1_0000_0000);
}

/// Writing a number over the one that is there, and back again.
proof fn lemma_le32_restored(frame: Seq<u8>, o: int, t: int)
    requires
        0 <= o,
        o + 4 <= frame.len(),
    ensures
        with_le32(with_le32(frame, o, t), o, signed32(le32(frame, o))) == frame,
{
    let v = signed32(le32(frame, o));
    let w = le32(frame, o);
    lemma_four_bytes(
        frame[o] as int,
        frame[o + 1] as int,
        frame[o + 2] as int,
        frame[o + 3] as int,
    );
    lemma_signed_pattern(w);
    lemma_with_le32(frame, o, t);
    let g = with_le32(frame, o, t);
    let r = with_le32(g, o, v);
    lemma_with_le32(g, o, v);
    assert(r[o] == frame[o] && r[o + 1] == frame[o + 1] && r[o + 2] == frame[o + 2] && r[o + 3]
        == frame[o + 3]);
    assert forall|k: int| 0 <= k < frame.len() implies r[k] == frame[k] by {
        if !(o <= k < o + 4) {
            assert(r[k] == g[k] && g[k] == frame[k]);
        }
    }
    assert(r =~= frame);
}

/// Undoing the transform gives back the frame that an encoder applied it to.
pub proof fn lemma_e8_round_trip(frame: Seq<u8>, i: int, start: int, filesize: int)
    requires
        0 <= i,
        0 <= start,
        0 < filesize <= 0x7fff_ffff,
        start + frame.len() <= 0x7fff_ffff,
    ensures
        e8_undone(e8_done(frame, i, start, filesize), i, start, filesize) == frame,
    decreases frame.len() - i,
{
    lemma_e8_done_prefix(frame, i, start, filesize);
    if i + E8_TAIL_MARGIN >= frame.len() {
    } else if frame[i] != 0xE8 {
        lemma_e8_done_prefix(frame, i + 1, start, filesize);
        lemma_e8_round_trip(frame, i + 1, start, filesize);
    } else {
        let pos = start + i;
        let v = signed32(le32(frame, i + 1));
        lemma_e8_done_prefix(frame, i + 5, start, filesize);
        if e8_in_range(v, pos, filesize) {
            let t = e8_target(v, pos, filesize);
            let sent = with_le32(frame, i + 1, t);
            let all = e8_done(sent, i + 5, start, filesize);
            lemma_with_le32(frame, i + 1, t);
            lemma_e8_done_prefix(sent, i + 5, start, filesize);
            assert(le32(all, i + 1) == le32(sent, i + 1));
            assert(t % 0x1_0000_0000 == if t >= 0 {
                t
            } else {
                t + 0x1_0000_0000
            }) by {
                if t >= 0 {
                    vstd::arithmetic::div_mod::lemma_small_mod(t as nat, 0x1_0000_0000);
                } else {
                    vstd::arithmetic::div_mod::lemma_mod_add_multiples_vanish(t, 0x1_0000_0000);
                    vstd::arithmetic::div_mod::lemma_small_mod(
                        (t + 0x1_0000_0000) as nat,
                        0x1_0000_0000,
                    );
                }
            }
            assert(signed32(le32(all, i + 1)) == t);
            assert(e8_in_range(t, pos, filesize) && e8_displacement(t, pos, filesize) == v);
            lemma_e8_swap(sent, i + 5, start, filesize, i + 1, v);
            lemma_le32_restored(frame, i + 1, t);
            assert(e8_undone(all, i, start, filesize) == e8_undone(
                with_le32(all, i + 1, v),
                i + 5,
                start,
                filesize,
            ));
            lemma_e8_round_trip(frame, i + 5, start, filesize);
        } else {
            let all = e8_done(frame, i + 5, start, filesize);
            assert(le32(all, i + 1) == le32(frame, i + 1));
            lemma_e8_round_trip(frame, i + 5, start, filesize);
        }
    }
}

/// Conversion from byte `i` on does not depend on what is written before it.
proof fn lemma_e8_swap(frame: Seq<u8>, i: int, start: int, filesize: int, o: int, v: int)
    requires
        0 <= o,
        o + 4 <= i,
        o + 4 <= frame.len(),
    ensures
        with_le32(e8_done(frame, i, start, filesize), o, v) == e8_done(
            with_le32(frame, o, v),
            i,
            start,
            filesize,
        ),
    decreases frame.len() - i,
{
    let other = with_le32(frame, o, v);
    lemma_with_le32(frame, o, v);
    if i + E8_TAIL_MARGIN >= frame.len() {
    } else if frame[i] != 0xE8 {
        lemma_e8_swap(frame, i + 1, start, filesize, o, v);
    } else {
        let x = signed32(le32(frame, i + 1));
        assert(le32(other, i + 1) == le32(frame, i + 1));
        if e8_in_range(x, start + i, filesize) {
            let t = e8_target(x, start + i, filesize);
            lemma_with_le32(frame, i + 1, t);
            lemma_e8_swap(with_le32(frame, i + 1, t), i + 5, start, filesize, o, v);
            assert(with_le32(with_le32(frame, i + 1, t), o, v) =~= with_le32(other, i + 1, t));
        } else {
            lemma_e8_swap(frame, i + 5, start, filesize, o, v);
        }
    }
}

} // verus!
