//! What random access into the compressed section comes to: the bytes that decoding it from
//! front to back would give, whatever was read before.

use vstd::arithmetic::div_mod::{
    lemma_div_is_ordered, lemma_fundamental_div_mod, lemma_fundamental_div_mod_converse,
    lemma_mod_bound,
};
use vstd::prelude::*;

use crate::decompress::{
    lemma_block_in_range, lemma_next_in_window, lemma_resume, opened, Layout, Section,
};
use crate::error::{Fault, LzxError};
use crate::lzx::{lemma_frame, Frame, LzxModel};

verus! {

impl Section {
    /// Block `b` as it comes out of replaying its reset window, where the decoder held `m`
    /// before the reset.
    pub open spec fn replay(self, m: LzxModel, stream: Seq<u8>, b: int) -> Frame
        decreases b,
        when 0 <= b && self.reset_blkcount >= 1
    {
        let before = if b % self.reset_blkcount == 0 || b == 0 {
            m.reset()
        } else {
            self.replay(m, stream, b - 1).m
        };
        before.frame(self.input(stream, b), self.block_len as nat)
    }

    /// A state that the section's decoder can be in.
    pub open spec fn can_hold(self, m: LzxModel) -> bool {
        &&& m.wf()
        &&& m.window.len() == self.lzx.window.len()
        &&& m.main_elements == self.lzx.main_elements
    }

    /// The blocks `from..to` of the stream decode to those in `plain`, and do so whatever the
    /// decoder held before the reset. That is so where no match reaches back past a reset
    /// point: see [`crate::self_contained::lemma_self_contained`].
    pub open spec fn decodes_to(
        self,
        stream: Seq<u8>,
        plain: Seq<Seq<u8>>,
        from: int,
        to: int,
    ) -> bool {
        &&& plain.len() == self.count()
        &&& forall|m: LzxModel, b: int|
            self.can_hold(m) && from <= b < to ==> (#[trigger] self.replay(m, stream, b)).result
                == Ok::<_, LzxError>(plain[b])
    }

    /// The first block of the reset window that block `b` lies in.
    pub open spec fn window_start(self, b: int) -> int {
        b - b % self.reset_blkcount
    }

    /// What the cache holds of the blocks `from..to` is as in `plain`, and the decoder stands
    /// behind the last block decoded.
    pub open spec fn coherent(
        self,
        stream: Seq<u8>,
        plain: Seq<Seq<u8>>,
        from: int,
        to: int,
    ) -> bool {
        &&& forall|b: u64| #[trigger]
            self.cache.dom().contains(b) && from <= b < to ==> self.cache[b] == plain[b as int]
        &&& self.last matches Some(b) ==> exists|m: LzxModel| #[trigger]
            self.stands_behind(m, stream, b as int)
    }

    /// The decoder is in the state that replaying block `b` leaves behind.
    pub open spec fn stands_behind(self, m: LzxModel, stream: Seq<u8>, b: int) -> bool {
        &&& self.can_hold(m)
        &&& self.lzx == self.replay(m, stream, b).m
    }

    /// The section from front to back.
    pub open spec fn joined(self, plain: Seq<Seq<u8>>) -> Seq<u8> {
        Seq::new(
            self.uncompressed_len() as nat,
            |i: int| plain[i / self.block_len][i % self.block_len],
        )
    }
}

/// How a block is replayed is a matter of the section, not of what was decoded so far.
proof fn lemma_same_replay(s: Section, t: Section, m: LzxModel, stream: Seq<u8>, b: int)
    requires
        s.same_shape(t),
        s.reset_blkcount >= 1,
        0 <= b,
    ensures
        s.replay(m, stream, b) == t.replay(m, stream, b),
    decreases b,
{
    if b > 0 {
        lemma_same_replay(s, t, m, stream, b - 1);
    }
}

/// Whichever block is due next, and whether it decodes or not, the section stays coherent. A
/// block that is known to decode does.
pub proof fn lemma_supplied(
    s: Section,
    stream: Seq<u8>,
    plain: Seq<Seq<u8>>,
    from: int,
    to: int,
    block: int,
)
    requires
        s.wf(),
        0 <= from <= to <= s.count(),
        s.decodes_to(stream, plain, from, to),
        s.coherent(stream, plain, from, to),
        s.due(block),
    ensures
        ({
            let (t, r) = s.supplied(block as u64, s.input(stream, block));
            &&& t.wf()
            &&& t.same_shape(s)
            &&& t.decodes_to(stream, plain, from, to)
            &&& t.coherent(stream, plain, from, to)
            &&& r is Ok ==> t.last == Some(block as u64) && t.cache.dom().contains(block as u64)
            &&& from <= block < to ==> r is Ok
        }),
{
    let bytes = s.input(stream, block);
    let opens = block % s.reset_blkcount == 0;
    let m = if opens {
        s.lzx
    } else {
        choose|m: LzxModel| #[trigger] s.stands_behind(m, stream, block - 1)
    };
    let lzx = if opens {
        s.lzx.reset()
    } else {
        s.lzx
    };
    assert(s.can_hold(m));
    assert(s.replay(m, stream, block) == lzx.frame(bytes, s.block_len as nat));
    let (t, r) = s.supplied(block as u64, bytes);
    lemma_frame(lzx, bytes, s.block_len as nat);
    assert(lzx.wf());
    if !opens {
        lemma_next_in_window(block - 1, s.reset_blkcount);
    } else {
        lemma_mod_bound(block, s.reset_blkcount);
    }
    assert(t.wf());
    lemma_same_plain(s, t, stream, plain, from, to);
    if r is Ok {
        lemma_same_replay(t, s, m, stream, block);
        assert(t.stands_behind(m, stream, block));
    }
}

/// What the blocks decode to is a matter of the section, not of what was decoded so far.
proof fn lemma_same_plain(
    s: Section,
    t: Section,
    stream: Seq<u8>,
    plain: Seq<Seq<u8>>,
    from: int,
    to: int,
)
    requires
        s.decodes_to(stream, plain, from, to),
        t.same_shape(s),
        t.lzx.window.len() == s.lzx.window.len(),
        t.lzx.main_elements == s.lzx.main_elements,
        s.reset_blkcount >= 1,
        0 <= from,
    ensures
        t.decodes_to(stream, plain, from, to),
{
    assert forall|m: LzxModel, b: int|
        t.can_hold(m) && from <= b < to implies (#[trigger] t.replay(m, stream, b)).result == Ok::<
        _,
        LzxError,
    >(plain[b]) by {
        lemma_same_replay(t, s, m, stream, b);
        assert(s.can_hold(m));
    }
}

/// Decoding up to any block leaves the section coherent. It succeeds, and leaves that block in
/// the cache, if the block and those before it in its reset window are known to decode.
pub proof fn lemma_replayed_to(
    s: Section,
    stream: Seq<u8>,
    plain: Seq<Seq<u8>>,
    from: int,
    to: int,
    target: int,
)
    requires
        s.wf(),
        0 <= from <= to <= s.count(),
        0 <= target < s.count(),
        s.decodes_to(stream, plain, from, to),
        s.coherent(stream, plain, from, to),
    ensures
        ({
            let (t, r) = s.replayed_to(stream, target);
            &&& t.wf()
            &&& t.same_shape(s)
            &&& t.decodes_to(stream, plain, from, to)
            &&& t.coherent(stream, plain, from, to)
            &&& r is Ok ==> t.cache.dom().contains(target as u64)
            &&& from <= s.window_start(target) && target < to ==> r is Ok
        }),
    decreases target - s.resume_at(target),
{
    let b = s.resume_at(target);
    lemma_resume(s, target, s.input(stream, b));
    lemma_supplied(s, stream, plain, from, to, b);
    let (t, r) = s.supplied(b as u64, s.input(stream, b));
    if r is Ok && b < target {
        lemma_replayed_to(t, stream, plain, from, to, target);
    }
}

/// Later blocks lie in later reset windows.
pub proof fn lemma_window_start_ordered(s: Section, a: int, b: int)
    requires
        0 <= a <= b,
        s.reset_blkcount >= 1,
    ensures
        s.window_start(a) <= s.window_start(b),
{
    let n = s.reset_blkcount;
    lemma_fundamental_div_mod(a, n);
    lemma_fundamental_div_mod(b, n);
    lemma_div_is_ordered(a, b, n);
    let x = a / n;
    let y = b / n;
    assert(n * x <= n * y) by (nonlinear_arith)
        requires
            x <= y,
            n >= 1,
    ;
}

/// A position below the end of some blocks lies in one of them.
proof fn lemma_block_below(pos: int, n: int, to: int)
    requires
        0 <= pos < to * n,
        n >= 1,
    ensures
        pos / n < to,
{
    lemma_fundamental_div_mod(pos, n);
    lemma_mod_bound(pos, n);
    let q = pos / n;
    assert(q < to) by (nonlinear_arith)
        requires
            pos == n * q + pos % n,
            0 <= pos % n,
            pos < to * n,
            n >= 1,
    ;
}

/// Any read, whether it succeeds or not, leaves the section coherent.
proof fn lemma_read_from_keeps(
    s: Section,
    stream: Seq<u8>,
    plain: Seq<Seq<u8>>,
    from: int,
    to: int,
    pos: int,
    end: int,
)
    requires
        s.wf(),
        s.block_len >= 1,
        0 <= from <= to <= s.count(),
        s.decodes_to(stream, plain, from, to),
        s.coherent(stream, plain, from, to),
        0 <= pos,
        end <= s.uncompressed_len(),
    ensures
        ({
            let t = s.read_from(stream, pos, end).0;
            &&& t.wf()
            &&& t.same_shape(s)
            &&& t.decodes_to(stream, plain, from, to)
            &&& t.coherent(stream, plain, from, to)
        }),
    decreases end - pos,
{
    if pos < end {
        let block = pos / s.block_len;
        lemma_block_in_range(s, pos, end);
        lemma_mod_bound(pos, s.block_len);
        let (t, r) = if s.cache.dom().contains(block as u64) {
            (s, Ok::<(), Fault>(()))
        } else {
            lemma_replayed_to(s, stream, plain, from, to, block);
            s.replayed_to(stream, block)
        };
        if r is Ok {
            lemma_read_from_keeps(t, stream, plain, from, to, pos + s.reach(pos, end), end);
        }
    }
}

/// Any bytes of the section read from a coherent state are those of the section from front
/// to back, and the state stays coherent.
pub proof fn lemma_read_from(
    s: Section,
    stream: Seq<u8>,
    plain: Seq<Seq<u8>>,
    from: int,
    to: int,
    pos: int,
    end: int,
)
    requires
        s.wf(),
        s.block_len >= 1,
        0 <= from <= to <= s.count(),
        s.decodes_to(stream, plain, from, to),
        s.coherent(stream, plain, from, to),
        0 <= pos <= end <= to * s.block_len,
        pos < end ==> from <= s.window_start(pos / s.block_len),
    ensures
        ({
            let (t, r) = s.read_from(stream, pos, end);
            &&& r == Ok::<_, Fault>(s.joined(plain).subrange(pos, end))
            &&& t.wf()
            &&& t.same_shape(s)
            &&& t.decodes_to(stream, plain, from, to)
            &&& t.coherent(stream, plain, from, to)
        }),
    decreases end - pos,
{
    let all = s.joined(plain).subrange(pos, end);
    assert(end <= s.uncompressed_len()) by (nonlinear_arith)
        requires
            end <= to * s.block_len,
            to <= s.count(),
            s.block_len >= 1,
            s.uncompressed_len() == s.count() * s.block_len,
    ;
    if pos >= end {
        assert(all =~= Seq::empty());
    } else {
        let block = pos / s.block_len;
        lemma_block_in_range(s, pos, end);
        lemma_block_below(pos, s.block_len, to);
        lemma_mod_bound(pos, s.block_len);
        let t = if s.cache.dom().contains(block as u64) {
            s
        } else {
            lemma_replayed_to(s, stream, plain, from, to, block);
            s.replayed_to(stream, block).0
        };
        let n = s.reach(pos, end);
        assert(t.joined(plain) =~= s.joined(plain));
        lemma_div_is_ordered(pos, pos + n, s.block_len);
        lemma_window_start_ordered(s, block, (pos + n) / s.block_len);
        lemma_read_from(t, stream, plain, from, to, pos + n, end);
        let piece = t.piece(t.cache[block as u64], pos, end);
        assert(t.cache[block as u64] == plain[block]);
        assert forall|i: int| 0 <= i < n implies all[i] == piece[i] by {
            let offset = pos % s.block_len;
            lemma_fundamental_div_mod(pos, s.block_len);
            assert(pos + i == block * s.block_len + (offset + i)) by (nonlinear_arith)
                requires
                    pos == s.block_len * block + offset,
            ;
            lemma_fundamental_div_mod_converse(pos + i, s.block_len, block, offset + i);
        }
        let rest = s.joined(plain).subrange(pos + n, end);
        assert(all =~= piece + rest);
    }
}

/// A section that was just opened is coherent.
pub proof fn lemma_opened_coherent(
    layout: Layout,
    table: Seq<u8>,
    stream: Seq<u8>,
    plain: Seq<Seq<u8>>,
    from: int,
    to: int,
)
    ensures
        opened(layout, table) matches Ok(section) ==> section.coherent(stream, plain, from, to),
{
}

/// Any read of any range, be it refused or of blocks that do not decode, leaves a coherent
/// section coherent.
pub proof fn lemma_any_read_keeps(
    s: Section,
    stream: Seq<u8>,
    plain: Seq<Seq<u8>>,
    from: int,
    to: int,
    start: int,
    len: int,
)
    requires
        s.wf(),
        0 <= from <= to <= s.count(),
        s.decodes_to(stream, plain, from, to),
        s.coherent(stream, plain, from, to),
        0 <= start,
        0 <= len,
    ensures
        ({
            let t = s.read(stream, start, len).0;
            &&& t.wf()
            &&& t.same_shape(s)
            &&& t.decodes_to(stream, plain, from, to)
            &&& t.coherent(stream, plain, from, to)
        }),
{
    if 0 < len && start + len <= s.uncompressed_len() {
        let c = s.count();
        let n = s.block_len;
        assert(n >= 1) by (nonlinear_arith)
            requires
                n >= 0,
                c * n > 0,
        ;
        lemma_read_from_keeps(s, stream, plain, from, to, start, start + len);
    }
}

/// Reading gives the bytes of the section from front to back, whatever was read before: the
/// cache, and where decoding resumed, do not show. It takes no more than that the blocks read
/// decode, with those before them in the reset window of the first, and a coherent section:
/// one that was just opened is ([`lemma_opened_coherent`]), and any read leaves it so
/// ([`lemma_any_read_keeps`]).
pub proof fn lemma_read_is_transparent(
    s: Section,
    stream: Seq<u8>,
    plain: Seq<Seq<u8>>,
    from: int,
    to: int,
    start: int,
    len: int,
)
    requires
        s.wf(),
        0 <= from <= to <= s.count(),
        s.decodes_to(stream, plain, from, to),
        s.coherent(stream, plain, from, to),
        0 <= start,
        0 <= len <= usize::MAX,
        len > 0 ==> from <= s.window_start(start / s.block_len),
        start + len <= to * s.block_len,
    ensures
        ({
            let (t, r) = s.read(stream, start, len);
            &&& r == Ok::<_, Fault>(s.joined(plain).subrange(start, start + len))
            &&& t.wf()
            &&& t.same_shape(s)
            &&& t.decodes_to(stream, plain, from, to)
            &&& t.coherent(stream, plain, from, to)
        }),
{
    let c = s.count();
    let n = s.block_len;
    assert(to * n <= c * n <= 0xffff_ffff * 0x20_0000) by (nonlinear_arith)
        requires
            0 <= to <= c <= 0xffff_ffff,
            0 <= n <= 0x20_0000,
    ;
    if len > 0 {
        assert(n >= 1) by (nonlinear_arith)
            requires
                n >= 0,
                to * n > 0,
        ;
        lemma_read_from(s, stream, plain, from, to, start, start + len);
    } else {
        assert(s.joined(plain).subrange(start, start) =~= Seq::empty());
    }
}

} // verus!
