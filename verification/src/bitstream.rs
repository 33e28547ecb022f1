//! The bit stream that a reader reads.
//!
//! An LZX bit stream is a sequence of 16-bit little-endian words, each consumed from its
//! most significant bit downwards. Past the end of the input it continues with zero bits.

use vstd::prelude::*;

use crate::bits::{lemma_fetch, BitState};
use crate::huffman::top_bit;

verus! {

/// Bit number `i` of the stream: the words are little-endian, so the byte at the odd
/// position comes first.
pub open spec fn stream_bit(src: Seq<u8>, i: int) -> nat {
    let byte = 2 * (i / 16) + if i % 16 < 8 {
        1int
    } else {
        0
    };
    if byte < src.len() {
        byte_bit(src[byte], (7 - i % 8) as u32)
    } else {
        0
    }
}

/// Bit number `k` of a byte, counted from the least significant one.
pub open spec fn byte_bit(byte: u8, k: u32) -> nat {
    ((byte as u32 >> k) & 1) as nat
}

/// The number made up of the `n` bits of the stream from bit `p` on, first bit most
/// significant.
pub open spec fn stream_number(src: Seq<u8>, p: int, n: nat) -> nat
    decreases n,
{
    if n == 0 {
        0
    } else {
        2 * stream_number(src, p, (n - 1) as nat) + stream_bit(src, p + n - 1)
    }
}

impl BitState {
    /// The reader stands at bit `p` of the stream: its buffer holds the bits from there on,
    /// those that are loaded while input is left, and all that remain once it is not.
    pub open spec fn stands_at(self, src: Seq<u8>, p: int) -> bool {
        &&& self.wf(src)
        &&& 0 <= p
        &&& if self.pos < src.len() {
            &&& self.pos % 2 == 0
            &&& self.left == 8 * self.pos - p
            &&& forall|j: nat|
                j < self.left ==> #[trigger] top_bit(self.buf, j) == stream_bit(src, p + j)
            &&& forall|j: nat| self.left <= j < 32 ==> #[trigger] top_bit(self.buf, j) == 0
        } else {
            &&& forall|j: nat|
                j < 32 ==> #[trigger] top_bit(self.buf, j) == stream_bit(src, p + j)
            &&& p + 32 >= 16 * ((src.len() + 1) / 2)
        }
    }
}

/// A word put behind the loaded bits.
proof fn lemma_appended(buf: u32, w: u32, left: u32, j: u32)
    by (bit_vector)
    requires
        left <= 16,
        j < 32,
        w <= 0xffff,
    ensures
        j < left ==> ((buf | (w << ((16 - left) as u32))) >> ((31 - j) as u32)) & 1 == (buf >> ((31
            - j) as u32)) & 1,
        left <= j < left + 16 && (buf >> ((31 - j) as u32)) & 1 == 0 ==> ((buf | (w << ((16
            - left) as u32))) >> ((31 - j) as u32)) & 1 == (w >> ((15 + left - j) as u32)) & 1,
        j >= left + 16 ==> ((buf | (w << ((16 - left) as u32))) >> ((31 - j) as u32)) & 1 == (buf
            >> ((31 - j) as u32)) & 1,
{
}

/// The bits of a word are those of its two bytes, high byte first.
proof fn lemma_word_bits(low: u8, high: u8, k: u32)
    by (bit_vector)
    requires
        k < 16,
    ensures
        (low as u32 | ((high as u32) << 8u32)) <= 0xffff,
        k < 8 ==> ((low as u32 | ((high as u32) << 8u32)) >> ((15 - k) as u32)) & 1 == (high as u32
            >> ((7 - k) as u32)) & 1,
        k >= 8 ==> ((low as u32 | ((high as u32) << 8u32)) >> ((15 - k) as u32)) & 1 == (low as u32
            >> ((15 - k) as u32)) & 1,
{
}

/// Loading a word keeps the reader where it stands.
proof fn lemma_load_stands(src: Seq<u8>, b: BitState, p: int)
    requires
        b.stands_at(src, p),
        b.left <= 16,
    ensures
        b.load(src).stands_at(src, p),
{
    let b2 = b.load(src);
    if b.pos < src.len() {
        let left = b.left as u32;
        let low = src[b.pos];
        let high = if b.pos + 1 < src.len() {
            src[b.pos + 1]
        } else {
            0u8
        };
        let w = low as u32 | ((high as u32) << 8u32);
        assert((low as u32 | (0u32 << 8u32)) == low as u32) by (bit_vector);
        lemma_word_bits(low, high, 0);
        assert(b2.buf == b.buf | (w << ((16 - b.left) as u32)));
        assert forall|j: nat| j < 32 implies #[trigger] top_bit(b2.buf, j) == if j < b.left + 16 {
            stream_bit(src, p + j)
        } else {
            0
        } by {
            lemma_appended(b.buf, w, left, j as u32);
            if j < b.left {
                assert(top_bit(b.buf, j) == stream_bit(src, p + j));
            } else {
                assert(top_bit(b.buf, j) == 0);
                if j < b.left + 16 {
                    let k = (j - b.left) as u32;
                    lemma_word_bits(low, high, k);
                    let i = p + j;
                    assert(i == 8 * b.pos + k && i / 16 == b.pos / 2 && i % 16 == k);
                    assert(15 + left - j as u32 == 15 - k);
                    if k < 8 {
                        assert(k < 8 ==> (0u32 >> ((7 - k) as u32)) & 1 == 0) by (bit_vector);
                        assert(i % 8 == k);
                    } else {
                        assert(i % 8 == k - 8);
                    }
                }
            }
        }
        if b2.pos >= src.len() {
            assert forall|j: nat| j < 32 implies #[trigger] top_bit(b2.buf, j) == stream_bit(
                src,
                p + j,
            ) by {
                if j >= b.left + 16 {
                    assert(p + j >= 8 * b.pos + 16);
                }
            }
        }
    }
}

/// Loading keeps the reader where it stands.
proof fn lemma_fetch_stands(src: Seq<u8>, b: BitState, p: int, n: int)
    requires
        b.stands_at(src, p),
        n <= 17,
    ensures
        b.fetch(src, n).stands_at(src, p),
{
    if b.left < n {
        lemma_load_stands(src, b, p);
        let b1 = b.load(src);
        if b1.left < n {
            lemma_load_stands(src, b1, p);
        }
    }
}

/// Consuming bits moves the reader on.
proof fn lemma_skip_stands(src: Seq<u8>, b: BitState, p: int, n: int)
    requires
        b.stands_at(src, p),
        0 <= n <= 31,
        n <= b.left,
    ensures
        b.skip(n).stands_at(src, p + n),
{
    let b2 = b.skip(n);
    let buf = b.buf;
    let w = n as u32;
    assert forall|j: nat| j < 32 implies #[trigger] top_bit(b2.buf, j) == if j + n < 32 {
        top_bit(b.buf, (j + n) as nat)
    } else {
        0
    } by {
        let i = j as u32;
        assert(w <= 31 && i < 32 ==> (if i + w < 32 {
            ((buf << w) >> ((31 - i) as u32)) & 1 == (buf >> ((31 - (i + w)) as u32)) & 1
        } else {
            ((buf << w) >> ((31 - i) as u32)) & 1 == 0
        })) by (bit_vector);
    }
    if b.pos >= src.len() {
        assert forall|j: nat| j < 32 implies #[trigger] top_bit(b2.buf, j) == stream_bit(
            src,
            p + n + j,
        ) by {
            if j + n < 32 {
                assert(top_bit(b.buf, (j + n) as nat) == stream_bit(src, p + (j + n)));
            } else {
                assert(2 * ((p + n + j) / 16) >= src.len());
            }
        }
    } else {
        assert forall|j: nat| j < b2.left implies #[trigger] top_bit(b2.buf, j) == stream_bit(
            src,
            p + n + j,
        ) by {
            assert(top_bit(b.buf, (j + n) as nat) == stream_bit(src, p + (j + n)));
        }
    }
}

/// The first bits of the buffer as a number.
proof fn lemma_peek_number(src: Seq<u8>, b: BitState, p: int, n: nat)
    requires
        1 <= n <= 17,
        forall|j: nat| j < n ==> #[trigger] top_bit(b.buf, j) == stream_bit(src, p + j),
    ensures
        b.peek(n as int) == stream_number(src, p, n),
    decreases n,
{
    let buf = b.buf;
    let w = n as u32;
    assert(1 <= w <= 17 ==> (buf >> ((32 - w) as u32)) == (if w == 1 {
        0
    } else {
        2 * (buf >> ((33 - w) as u32))
    }) + ((buf >> ((32 - w) as u32)) & 1)) by (bit_vector);
    assert(top_bit(buf, (n - 1) as nat) == stream_bit(src, p + (n - 1)));
    if n > 1 {
        lemma_peek_number(src, b, p, (n - 1) as nat);
    } else {
        assert(stream_number(src, p, 0) == 0);
    }
}

/// A reader at the start of the input stands at the first bit.
pub proof fn lemma_start_stands(src: Seq<u8>)
    ensures
        (BitState { buf: 0, left: 0, pos: 0 }).stands_at(src, 0),
{
    let b = BitState { buf: 0, left: 0, pos: 0 };
    assert forall|j: nat| j < 32 implies #[trigger] top_bit(b.buf, j) == 0 by {
        let i = j as u32;
        assert(i < 32 ==> (0u32 >> ((31 - i) as u32)) & 1 == 0) by (bit_vector);
    }
}

/// Reading `n` bits gives the next `n` bits of the stream, first bit most significant, and
/// moves the reader behind them.
pub proof fn lemma_reads_the_stream(src: Seq<u8>, b: BitState, p: int, n: int)
    requires
        b.stands_at(src, p),
        1 <= n <= 17,
    ensures
        b.value(src, n) == stream_number(src, p, n as nat),
        b.advance(src, n).stands_at(src, p + n),
{
    let f = b.fetch(src, n);
    lemma_fetch(src, b, n);
    lemma_fetch_stands(src, b, p, n);
    lemma_peek_number(src, f, p, n as nat);
    lemma_skip_stands(src, f, p, n);
}

/// Looking `n` bits ahead does not move the reader, and shows the next bits of the stream.
pub proof fn lemma_looks_ahead(src: Seq<u8>, b: BitState, p: int, n: int)
    requires
        b.stands_at(src, p),
        1 <= n <= 17,
    ensures
        b.fetch(src, n).stands_at(src, p),
        b.fetch(src, n).left >= n,
        b.fetch(src, n).peek(n) == stream_number(src, p, n as nat),
{
    let f = b.fetch(src, n);
    lemma_fetch(src, b, n);
    lemma_fetch_stands(src, b, p, n);
    lemma_peek_number(src, f, p, n as nat);
}

/// Consuming bits that are loaded moves the reader behind them.
pub proof fn lemma_steps_over(src: Seq<u8>, b: BitState, p: int, n: int)
    requires
        b.stands_at(src, p),
        0 <= n <= 31,
        n <= b.left,
    ensures
        b.skip(n).stands_at(src, p + n),
{
    lemma_skip_stands(src, b, p, n);
}

} // verus!
