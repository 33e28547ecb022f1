//! Stored frames: data that an uncompressed block carries as it is, and what decoding gives
//! back of it.

use vstd::arithmetic::div_mod::{lemma_fundamental_div_mod, lemma_small_mod};
use vstd::arithmetic::power2::{lemma2_to64, lemma_pow2_unfold, pow2};
use vstd::prelude::*;

use crate::bits::BitState;
use crate::bitstream::{
    lemma_reads_the_stream, lemma_start_stands, stream_bit, stream_number,
};
use crate::decompress::Section;
use crate::error::LzxError;
use crate::lzx::{
    lemma_block_started, lemma_frame, lemma_run_decoded, overwritten, LzxModel, BLOCKTYPE_INVALID,
    BLOCKTYPE_UNCOMPRESSED,
};

verus! {

/// Reading on: the number made up of `a + b` bits.
pub proof fn lemma_number_splits(src: Seq<u8>, p: int, a: nat, b: nat)
    ensures
        stream_number(src, p, a + b) == stream_number(src, p, a) * pow2(b) + stream_number(
            src,
            p + a,
            b,
        ),
    decreases b,
{
    lemma2_to64();
    if b > 0 {
        lemma_number_splits(src, p, a, (b - 1) as nat);
        lemma_pow2_unfold(b);
        let x = stream_number(src, p, a) as int;
        let k = pow2((b - 1) as nat) as int;
        assert(2 * (x * k) == x * (2 * k)) by (nonlinear_arith);
        assert(x * pow2(b) == x * (2 * k));
        assert((a + b - 1) as nat == a + (b - 1) as nat);
    } else {
        assert(stream_number(src, p, a) * 1 == stream_number(src, p, a));
    }
}

/// A number of `n` bits is below `2^n`.
pub proof fn lemma_number_bound(src: Seq<u8>, p: int, n: nat)
    requires
        0 <= p,
    ensures
        stream_number(src, p, n) < pow2(n),
    decreases n,
{
    lemma2_to64();
    if n > 0 {
        lemma_number_bound(src, p, (n - 1) as nat);
        lemma_pow2_unfold(n);
        lemma_bit_bound(src, p + n - 1);
    }
}

proof fn lemma_bit_bound(src: Seq<u8>, i: int)
    requires
        0 <= i,
    ensures
        stream_bit(src, i) <= 1,
{
    let byte = 2 * (i / 16) + if i % 16 < 8 {
        1int
    } else {
        0
    };
    if byte < src.len() {
        let x = src[byte] as u32;
        let k = (7 - i % 8) as u32;
        assert((x >> k) & 1 <= 1) by (bit_vector);
    }
}

/// The first bits of a byte of the input.
proof fn lemma_number_in_byte(src: Seq<u8>, p: int, at: int, k: nat)
    requires
        0 <= p,
        p % 8 == 0,
        at == 2 * (p / 16) + if p % 16 < 8 {
            1int
        } else {
            0
        },
        at < src.len(),
        k <= 8,
    ensures
        stream_number(src, p, k) == src[at] as u32 >> ((8 - k) as u32),
    decreases k,
{
    let x = src[at] as u32;
    if k > 0 {
        lemma_number_in_byte(src, p, at, (k - 1) as nat);
        let i = p + k - 1;
        assert(i / 16 == p / 16 && i % 8 == k - 1 && (i % 16 < 8 <==> p % 16 < 8));
        let w = (8 - k) as u32;
        assert(w < 8 ==> (x >> w) == 2 * (x >> ((w + 1) as u32)) + ((x >> w) & 1)) by (bit_vector);
    } else {
        assert(x < 256 ==> (x >> 8u32) == 0) by (bit_vector);
    }
}

/// Eight bits of the stream are a byte of the input.
proof fn lemma_number_byte(src: Seq<u8>, p: int, at: int)
    requires
        0 <= p,
        p % 8 == 0,
        at == 2 * (p / 16) + if p % 16 < 8 {
            1int
        } else {
            0
        },
        at < src.len(),
    ensures
        stream_number(src, p, 8) == src[at],
{
    lemma_number_in_byte(src, p, at, 8);
    let x = src[at] as u32;
    assert((x >> 0u32) == x) by (bit_vector);
}

/// The first 32 bits of the stream.
pub open spec fn first_word_pair(src: Seq<u8>) -> int {
    src[1] * 0x100_0000 + src[0] * 0x1_0000 + src[3] * 0x100 + src[2]
}

proof fn lemma_first_bits(src: Seq<u8>)
    requires
        src.len() >= 4,
    ensures
        stream_number(src, 0, 32) == first_word_pair(src),
{
    lemma2_to64();
    lemma_number_byte(src, 0, 1);
    lemma_number_byte(src, 8, 0);
    lemma_number_byte(src, 16, 3);
    lemma_number_byte(src, 24, 2);
    lemma_number_splits(src, 0, 8, 8);
    lemma_number_splits(src, 0, 16, 8);
    lemma_number_splits(src, 0, 24, 8);
}

/// The four bytes that a stored frame starts with: the stream header bit where the frame
/// opens a stream, the block type and the length.
pub open spec fn stored_head(len: nat, opens: bool) -> Seq<u8> {
    let v = if opens {
        0x3000_0000 + len * 0x10
    } else {
        0x6000_0000 + len * 0x20
    };
    seq![
        (v / 0x1_0000 % 0x100) as u8,
        (v / 0x100_0000) as u8,
        (v % 0x100) as u8,
        (v / 0x100 % 0x100) as u8,
    ]
}

/// The offset registers of a stream at its start.
pub open spec fn stored_registers() -> Seq<u8> {
    seq![1u8, 0, 0, 0, 1, 0, 0, 0, 1, 0, 0, 0]
}

/// `data` as a frame with one uncompressed block.
pub open spec fn stored_frame(data: Seq<u8>, opens: bool) -> Seq<u8> {
    stored_head(data.len(), opens) + stored_registers() + data
}

/// A stream that the next stored frame of `n` bytes can be decoded from.
pub open spec fn takes_stored(m: LzxModel, n: nat, opens: bool) -> bool {
    &&& m.wf()
    &&& m.block_remaining == 0
    &&& m.window_posn % (n as int) == 0
    &&& if opens {
        !m.header_read && m.block_type == BLOCKTYPE_INVALID
    } else {
        &&& m.header_read
        &&& m.intel_filesize == 0
        &&& m.block_type == BLOCKTYPE_UNCOMPRESSED
        &&& m.block_length == n
    }
}

/// Five numbers of known width are the digits of the number they make up.
proof fn lemma_digits(len: nat, a: nat, t: nat, x: nat, y: nat, z: nat)
    requires
        len < 0x100_0000,
        a < 2,
        t < 8,
        x < 0x1_0000,
        y < 0x100,
        z < 0x10,
        0x3000_0000 + len * 0x10 == a * 0x8000_0000 + t * 0x1000_0000 + x * 0x1000 + y * 0x10 + z,
    ensures
        a == 0,
        t == 3,
        x * 0x100 + y == len,
{
}

/// The same without the first bit.
proof fn lemma_digits_after(len: nat, t: nat, x: nat, y: nat, z: nat)
    requires
        len < 0x100_0000,
        t < 8,
        x < 0x1_0000,
        y < 0x100,
        z < 0x20,
        0x6000_0000 + len * 0x20 == t * 0x2000_0000 + x * 0x2000 + y * 0x20 + z,
    ensures
        t == 3,
        x * 0x100 + y == len,
{
}

/// Three bits, sixteen, eight and what is left of two words make up the number they are.
proof fn lemma_four_fields(src: Seq<u8>, p: int)
    requires
        0 <= p <= 1,
    ensures
        ({
            let t = stream_number(src, p, 3);
            let x = stream_number(src, p + 3, 16);
            let y = stream_number(src, p + 19, 8);
            let z = stream_number(src, p + 27, (5 - p) as nat);
            &&& p == 0 ==> stream_number(src, 0, 32) == t * 0x2000_0000 + x * 0x2000 + y * 0x20 + z
                && z < 0x20
            &&& p == 1 ==> stream_number(src, 1, 31) == t * 0x1000_0000 + x * 0x1000 + y * 0x10 + z
                && z < 0x10
            &&& t < 8
            &&& x < 0x1_0000
            &&& y < 0x100
        }),
{
    assert(pow2(3) == 8 && pow2(16) == 0x1_0000 && pow2(8) == 0x100 && pow2(4) == 0x10 && pow2(5)
        == 0x20) by {
        lemma2_to64();
    }
    lemma_number_bound(src, p, 3);
    lemma_number_bound(src, p + 3, 16);
    lemma_number_bound(src, p + 19, 8);
    lemma_number_bound(src, p + 27, (5 - p) as nat);
    lemma_number_splits(src, p, 3, 16);
    lemma_number_splits(src, p, 19, 8);
    lemma_number_splits(src, p, 27, (5 - p) as nat);
}

/// The fields of the header of a stored frame, from bit `p` of the stream on.
proof fn lemma_stored_fields(src: Seq<u8>, len: nat, opens: bool, p: int)
    requires
        src.len() >= 16,
        len < 0x100_0000,
        src.subrange(0, 4) == stored_head(len, opens),
        p == if opens {
            1int
        } else {
            0
        },
    ensures
        opens ==> stream_number(src, 0, 1) == 0,
        stream_number(src, p, 3) == 3,
        stream_number(src, p + 3, 16) * 0x100 + stream_number(src, p + 19, 8) == len,
{
    let head = stored_head(len, opens);
    assert(src[0] == head[0] && src[1] == head[1] && src[2] == head[2] && src[3] == head[3]) by {
        let s = src.subrange(0, 4);
        assert(s[0] == src[0] && s[1] == src[1] && s[2] == src[2] && s[3] == src[3]);
    }
    lemma_first_bits(src);
    lemma_four_fields(src, p);
    let t = stream_number(src, p, 3);
    let x = stream_number(src, p + 3, 16);
    let y = stream_number(src, p + 19, 8);
    let z = stream_number(src, p + 27, (5 - p) as nat);
    if opens {
        let a = stream_number(src, 0, 1);
        assert(a < 2) by {
            lemma2_to64();
            lemma_number_bound(src, 0, 1);
        }
        assert(stream_number(src, 0, 32) == a * 0x8000_0000 + stream_number(src, 1, 31)) by {
            lemma2_to64();
            lemma_number_splits(src, 0, 1, 31);
        }
        lemma_head_value(src, len, opens);
        lemma_digits(len, a, t, x, y, z);
    } else {
        lemma_head_value(src, len, opens);
        lemma_digits_after(len, t, x, y, z);
    }
}

/// The number that the first four bytes of a stored frame make up.
proof fn lemma_head_value(src: Seq<u8>, len: nat, opens: bool)
    requires
        src.len() >= 4,
        len < 0x100_0000,
        src[0] == stored_head(len, opens)[0],
        src[1] == stored_head(len, opens)[1],
        src[2] == stored_head(len, opens)[2],
        src[3] == stored_head(len, opens)[3],
    ensures
        first_word_pair(src) == if opens {
            0x3000_0000 + len * 0x10
        } else {
            0x6000_0000 + len * 0x20
        },
{
    let v = if opens {
        0x3000_0000 + len * 0x10
    } else {
        0x6000_0000 + len * 0x20
    };
    assert(v == (v / 0x100_0000) * 0x100_0000 + (v / 0x1_0000 % 0x100) * 0x1_0000 + (v / 0x100
        % 0x100) * 0x100 + v % 0x100);
    assert(v / 0x100_0000 < 0x100);
}

/// Where a reader stands after the header of a stored frame.
proof fn lemma_stored_reader(src: Seq<u8>, opens: bool)
    requires
        src.len() >= 16,
    ensures
        ({
            let b0 = BitState { buf: 0, left: 0, pos: 0 };
            let b1 = if opens {
                b0.advance(src, 1)
            } else {
                b0
            };
            let b4 = b1.advance(src, 3).advance(src, 16).advance(src, 8);
            &&& b4.left == if opens {
                4int
            } else {
                5
            }
            &&& b4.pos == 4
        }),
{
    let b0 = BitState { buf: 0, left: 0, pos: 0 };
    let b1 = if opens {
        b0.advance(src, 1)
    } else {
        b0
    };
    assert(opens ==> b1.left == 15 && b1.pos == 2);
    let b2 = b1.advance(src, 3);
    assert(b2.left == (if opens { 12int } else { 13 }) && b2.pos == 2);
    let b3 = b2.advance(src, 16);
    assert(b3.left == (if opens { 12int } else { 13 }) && b3.pos == 4);
}

/// The reader behind the block header of a stored frame, and what it read.
proof fn lemma_stored_header(src: Seq<u8>, len: nat, opens: bool)
    requires
        src.len() >= 16,
        len < 0x100_0000,
        src.subrange(0, 4) == stored_head(len, opens),
    ensures
        ({
            let b0 = BitState { buf: 0, left: 0, pos: 0 };
            let b1 = if opens {
                b0.advance(src, 1)
            } else {
                b0
            };
            let b2 = b1.advance(src, 3);
            let b3 = b2.advance(src, 16);
            let b4 = b3.advance(src, 8);
            &&& opens ==> b0.value(src, 1) == 0
            &&& b1.value(src, 3) == 3
            &&& b2.value(src, 16) * 0x100 + b3.value(src, 8) == len
            &&& b4.left == if opens {
                4int
            } else {
                5
            }
            &&& b4.pos == 4
        }),
{
    let b0 = BitState { buf: 0, left: 0, pos: 0 };
    let p: int = if opens {
        1
    } else {
        0
    };
    lemma_start_stands(src);
    if opens {
        lemma_reads_the_stream(src, b0, 0, 1);
    }
    let b1 = if opens {
        b0.advance(src, 1)
    } else {
        b0
    };
    lemma_reads_the_stream(src, b1, p, 3);
    let b2 = b1.advance(src, 3);
    lemma_reads_the_stream(src, b2, p + 3, 16);
    let b3 = b2.advance(src, 16);
    lemma_reads_the_stream(src, b3, p + 19, 8);
    lemma_stored_fields(src, len, opens, p);
    lemma_stored_reader(src, opens);
}

/// The block of a stored frame starts as an uncompressed one of the right length, with its
/// bytes behind the registers.
proof fn lemma_stored_start(m: LzxModel, data: Seq<u8>, opens: bool)
    requires
        takes_stored(m, data.len(), opens),
        2 <= data.len() <= m.window.len(),
        data.len() % 2 == 0,
    ensures
        ({
            let src = stored_frame(data, opens);
            let (m1, b1) = m.begun(src, BitState { buf: 0, left: 0, pos: 0 });
            let s = m1.block_started(src, b1);
            &&& m1.wf()
            &&& b1.wf(src)
            &&& m1.block_remaining == 0
            &&& s.result is Ok
            &&& s.b.pos == 16
            &&& s.m.window == m.window
            &&& s.m.window_posn == m.window_posn
            &&& s.m.block_type == BLOCKTYPE_UNCOMPRESSED
            &&& s.m.block_length == data.len()
            &&& s.m.block_remaining == data.len()
            &&& s.m.header_read
            &&& s.m.intel_filesize == 0
        }),
{
    let src = stored_frame(data, opens);
    assert(src.subrange(0, 4) =~= stored_head(data.len(), opens));
    lemma_stored_header(src, data.len(), opens);
    let b0 = BitState { buf: 0, left: 0, pos: 0 };
    let (m1, b1) = m.begun(src, b0);
    reveal(LzxModel::block_started);
    let (mh, bh) = m1.block_header(src, b1);
    assert(m1.realigned(src, b1) == b1);
    assert(mh.block_type == BLOCKTYPE_UNCOMPRESSED && mh.block_length == data.len());
    assert(LzxModel::registers_at(src, bh) == 4);
}

/// A stored frame decodes to the data that it carries, and leaves the stream ready for the
/// next one.
pub proof fn lemma_stored_frame(m: LzxModel, data: Seq<u8>, opens: bool)
    requires
        takes_stored(m, data.len(), opens),
        2 <= data.len() <= m.window.len(),
        data.len() % 2 == 0,
        m.window.len() as int % (data.len() as int) == 0,
    ensures
        ({
            let f = m.frame(stored_frame(data, opens), data.len());
            &&& f.result == Ok::<_, LzxError>(data)
            &&& takes_stored(f.m, data.len(), false)
            &&& f.m.window.len() == m.window.len()
        }),
{
    let src = stored_frame(data, opens);
    let n = data.len() as int;
    let w = m.window.len() as int;
    lemma_frame(m, src, data.len());
    lemma_stored_start(m, data, opens);
    lemma_room(m.window_posn, n, w);
    let wp = m.window_posn % w;
    let (m1, b1) = m.begun(src, BitState { buf: 0, left: 0, pos: 0 });
    let s = m1.block_started(src, b1);
    let d = s.m.run_decoded(src, s.b, n as nat);
    assert(src.subrange(16, 16 + n) =~= data);
    assert(d.result is Ok && d.m.window == overwritten(m.window, wp, data) && d.m.window_posn == wp
        + n && d.m.block_remaining == 0 && d.m.block_type == BLOCKTYPE_UNCOMPRESSED
        && d.m.block_length == n && d.m.header_read && d.m.intel_filesize == 0) by {
        reveal(LzxModel::run_decoded);
    }
    lemma_frame_parts(m1, src, b1, n);
    assert(d.m.window.subrange(wp, wp + n) =~= data);
    reveal(LzxModel::frame);
}

/// Decoding one whole block is starting it and taking its bytes.
proof fn lemma_frame_parts(m: LzxModel, src: Seq<u8>, b: BitState, n: int)
    requires
        m.wf(),
        b.wf(src),
        n > 0,
        m.block_remaining == 0,
        m.block_started(src, b).result is Ok,
        m.block_started(src, b).m.block_remaining == n,
        !LzxModel::overrun(src, m.block_started(src, b).b),
        m.block_started(src, b).m.run_decoded(
            src,
            m.block_started(src, b).b,
            n as nat,
        ).result is Ok,
    ensures
        m.decoded(src, b, n) == m.block_started(src, b).m.run_decoded(
            src,
            m.block_started(src, b).b,
            n as nat,
        ),
{
    let s = m.block_started(src, b);
    lemma_block_started(m, src, b);
    lemma_run_decoded(s.m, src, s.b, n as nat);
    let d = s.m.run_decoded(src, s.b, n as nat);
    assert(d.result->Ok_0 == ());
    assert(d.m.decoded(src, d.b, 0) == d);
}

/// A frame that starts at a multiple of its length fits in the window.
proof fn lemma_room(posn: int, n: int, w: int)
    requires
        0 <= posn <= w,
        1 <= n <= w,
        posn % n == 0,
        w % n == 0,
    ensures
        posn % w + n <= w,
        (posn % w + n) % n == 0,
{
    let wp = if posn == w {
        0
    } else {
        posn
    };
    if posn == w {
        vstd::arithmetic::div_mod::lemma_mod_self_0(w);
        lemma_small_mod(0, n as nat);
    } else {
        lemma_small_mod(posn as nat, w as nat);
    }
    lemma_fundamental_div_mod(wp, n);
    lemma_fundamental_div_mod(w, n);
    let a = wp / n;
    let c = w / n;
    assert(wp + n <= w) by (nonlinear_arith)
        requires
            wp == n * a,
            w == n * c,
            wp < w,
            n >= 1,
    {
        assert(a < c) by (nonlinear_arith)
            requires
                n * a < n * c,
                n >= 1,
        ;
        assert(n * (a + 1) <= n * c) by (nonlinear_arith)
            requires
                a + 1 <= c,
                n >= 1,
        ;
    }
    vstd::arithmetic::div_mod::lemma_mod_add_multiples_vanish(wp, n);
}

/// The blocks of `stream` are those of `plain`, each as a stored frame that opens a stream
/// where a reset window starts.
pub open spec fn holds_stored(s: Section, stream: Seq<u8>, plain: Seq<Seq<u8>>) -> bool {
    &&& plain.len() == s.count()
    &&& forall|b: int|
        0 <= b < s.count() ==> (#[trigger] plain[b]).len() == s.block_len && s.input(stream, b)
            == stored_frame(plain[b], b % s.reset_blkcount == 0)
}

/// Replaying a stored block gives back its data.
proof fn lemma_stored_replay(
    s: Section,
    m: LzxModel,
    stream: Seq<u8>,
    plain: Seq<Seq<u8>>,
    b: int,
)
    requires
        s.wf(),
        s.can_hold(m),
        holds_stored(s, stream, plain),
        s.block_len >= 2,
        s.block_len % 2 == 0,
        s.lzx.window.len() as int % s.block_len == 0,
        0 <= b < s.count(),
    ensures
        s.replay(m, stream, b).result == Ok::<_, LzxError>(plain[b]),
        takes_stored(s.replay(m, stream, b).m, s.block_len as nat, false),
        s.replay(m, stream, b).m.window.len() == m.window.len(),
    decreases b,
{
    let n = s.block_len as nat;
    let opens = b % s.reset_blkcount == 0;
    assert(plain[b].len() == n);
    if opens {
        lemma_small_mod(0, n);
        lemma_stored_frame(m.reset(), plain[b], true);
    } else {
        if b == 0 {
            lemma_small_mod(0, s.reset_blkcount as nat);
        }
        lemma_stored_replay(s, m, stream, plain, b - 1);
        lemma_stored_frame(s.replay(m, stream, b - 1).m, plain[b], false);
    }
}

/// A section of stored frames decodes to the data that went into it, whatever the decoder
/// held before. With [`crate::random_access::lemma_read_is_transparent`] any range that is
/// read is that range of the data.
pub proof fn lemma_stored_section(s: Section, stream: Seq<u8>, plain: Seq<Seq<u8>>)
    requires
        s.wf(),
        holds_stored(s, stream, plain),
        s.block_len >= 2,
        s.block_len % 2 == 0,
        s.lzx.window.len() as int % s.block_len == 0,
    ensures
        s.decodes_to(stream, plain, 0, s.count()),
{
    assert forall|m: LzxModel, b: int|
        s.can_hold(m) && 0 <= b < s.count() implies (#[trigger] s.replay(m, stream, b)).result
        == Ok::<_, LzxError>(plain[b]) by {
        lemma_stored_replay(s, m, stream, plain, b);
    }
}

} // verus!
