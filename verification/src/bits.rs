//! The LZX bit reader.
//!
//! An LZX bit stream is a sequence of 16-bit little-endian words, each consumed from its
//! most significant bit downwards. Past the end of the input the stream continues with
//! zero bits.

use vstd::prelude::*;

verus! {

/// The state of a bit reader over a fixed input: the 32-bit buffer holding the next bits
/// of the stream in its high end, how many of them count as loaded, and the byte position
/// from which the next word is fetched.
pub struct BitState {
    pub buf: u32,
    pub left: int,
    pub pos: int,
}

impl BitState {
    /// A reader state that the operations below keep: the buffer never counts more than 32
    /// bits, and the fetch position is at most one byte past the end of the input.
    pub open spec fn wf(self, src: Seq<u8>) -> bool {
        &&& 0 <= self.left <= 32
        &&& 0 <= self.pos <= src.len() + 1
    }

    /// Appends the next word of the input to the loaded bits. A lone last byte stands for
    /// a word whose high half is zero, but counts for eight bits only; at the end of the
    /// input sixteen zero bits are counted without fetching anything.
    pub open spec fn load(self, src: Seq<u8>) -> BitState {
        let shift = (16 - self.left) as u32;
        if self.pos + 1 < src.len() {
            BitState {
                buf: self.buf | ((src[self.pos] as u32 | ((src[self.pos + 1] as u32) << 8))
                    << shift),
                left: self.left + 16,
                pos: self.pos + 2,
            }
        } else if self.pos < src.len() {
            BitState {
                buf: self.buf | ((src[self.pos] as u32) << shift),
                left: self.left + 8,
                pos: self.pos + 1,
            }
        } else {
            BitState { left: self.left + 16, ..self }
        }
    }

    /// Loads a word if fewer than `n` bits are counted.
    pub open spec fn load_below(self, src: Seq<u8>, n: int) -> BitState {
        if self.left < n {
            self.load(src)
        } else {
            self
        }
    }

    /// Loads words until at least `n <= 17` bits are counted, which takes two at most.
    pub open spec fn fetch(self, src: Seq<u8>, n: int) -> BitState {
        self.load_below(src, n).load_below(src, n)
    }

    /// The next `n` bits of the buffer as a number, first bit most significant.
    pub open spec fn peek(self, n: int) -> u32 {
        self.buf >> ((32 - n) as u32)
    }

    /// The state with `n` bits consumed.
    pub open spec fn skip(self, n: int) -> BitState {
        BitState { buf: self.buf << (n as u32), left: self.left - n, ..self }
    }

    /// The value of the next `n` bits of the stream.
    pub open spec fn value(self, src: Seq<u8>, n: int) -> u32 {
        self.fetch(src, n).peek(n)
    }

    /// The state after reading `n` bits of the stream.
    pub open spec fn advance(self, src: Seq<u8>, n: int) -> BitState {
        self.fetch(src, n).skip(n)
    }
}

impl BitState {
    /// How much a reader has left to give. It never grows, and it is zero once only zero
    /// bits follow.
    pub open spec fn progress(self, src: Seq<u8>) -> nat {
        if self.pos < src.len() {
            (8 * (src.len() - self.pos) + self.left + 2) as nat
        } else if self.buf != 0 {
            1
        } else {
            0
        }
    }
}

/// Loading bits keeps the reader well-formed and does not add to what it has left.
pub proof fn lemma_fetch(src: Seq<u8>, b: BitState, n: int)
    requires
        b.wf(src),
        n <= 17,
    ensures
        b.fetch(src, n).wf(src),
        b.fetch(src, n).left >= n,
        b.fetch(src, n).pos >= b.pos,
        b.fetch(src, n).progress(src) <= b.progress(src),
        b.pos >= src.len() ==> b.fetch(src, n).pos == b.pos && b.fetch(src, n).buf == b.buf,
{
}

/// Consuming loaded bits keeps the reader well-formed and lowers what it has left.
pub proof fn lemma_skip(src: Seq<u8>, b: BitState, n: int)
    requires
        b.wf(src),
        0 <= n <= 31,
        n <= b.left,
    ensures
        b.skip(n).wf(src),
        b.skip(n).progress(src) <= b.progress(src),
        b.pos < src.len() ==> b.skip(n).progress(src) == b.progress(src) - n,
{
    let k = n as u32;
    assert(k <= 31 ==> (0u32 << k) == 0) by (bit_vector);
}

/// Reading bits keeps the reader well-formed and lowers what it has left.
pub proof fn lemma_advance(src: Seq<u8>, b: BitState, n: int)
    requires
        b.wf(src),
        1 <= n <= 17,
    ensures
        b.advance(src, n).wf(src),
        b.advance(src, n).pos >= b.pos,
        b.advance(src, n).progress(src) <= b.progress(src),
        b.pos < src.len() ==> b.advance(src, n).progress(src) < b.progress(src),
        b.pos >= src.len() ==> b.advance(src, n).pos == b.pos && b.advance(src, n).buf == b.buf
            << (n as u32),
        b.value(src, n) < (1u32 << (n as u32)),
{
    lemma_fetch(src, b, n);
    lemma_skip(src, b.fetch(src, n), n);
    let buf = b.fetch(src, n).buf;
    let k = n as u32;
    assert(1 <= k <= 17 ==> (buf >> ((32 - k) as u32)) < (1u32 << k)) by (bit_vector);
}

/// A reader of the bits of `src`.
pub struct Bits<'a> {
    pub buf: u32,
    pub left: u32,
    pub src: &'a [u8],
    pub pos: usize,
}

impl<'a> View for Bits<'a> {
    type V = BitState;

    open spec fn view(&self) -> BitState {
        BitState { buf: self.buf, left: self.left as int, pos: self.pos as int }
    }
}

impl<'a> Bits<'a> {
    /// The reader is in a state that its operations keep.
    pub open spec fn wf(&self) -> bool {
        self@.wf(self.src@)
    }

    /// A reader at the start of `src`, with nothing loaded.
    pub fn new(src: &'a [u8]) -> (bits: Self)
        ensures
            bits.wf(),
            bits.src == src,
            bits@ == (BitState { buf: 0, left: 0, pos: 0 }),
    {
        Bits { buf: 0, left: 0, src, pos: 0 }
    }

    /// Forgets every loaded bit, so that the next word is fetched from `pos`.
    pub fn reinit(&mut self)
        ensures
            final(self).src == old(self).src,
            final(self)@ == (BitState { buf: 0, left: 0, pos: old(self)@.pos }),
    {
        self.buf = 0;
        self.left = 0;
    }

    /// Steps over one byte of the input.
    pub fn skip_byte(&mut self)
        requires
            old(self).pos < usize::MAX,
        ensures
            final(self).src == old(self).src,
            final(self)@ == (BitState { pos: old(self)@.pos + 1, ..old(self)@ }),
    {
        self.pos = self.pos + 1;
    }

    /// Fills the bit buffer until it holds at least `n` bits, padding with zeros at the end
    /// of the input.
    pub fn ensure(&mut self, n: u32)
        requires
            old(self).wf(),
            n <= 17,
        ensures
            final(self).wf(),
            final(self).src == old(self).src,
            final(self)@ == old(self)@.fetch(old(self).src@, n as int),
            final(self)@.left >= n,
    {
        self.load_below(n);
        self.load_below(n);
    }

    /// Appends the next word of the input to the loaded bits if these are fewer than `n`.
    fn load_below(&mut self, n: u32)
        requires
            old(self).wf(),
            n <= 17,
        ensures
            final(self).wf(),
            final(self).src == old(self).src,
            final(self)@ == old(self)@.load_below(old(self).src@, n as int),
    {
        if self.left >= n {
            return;
        }
        let shift: u32 = 16 - self.left;
        if self.pos >= self.src.len() {
            self.left = self.left + 16;
        } else if self.src.len() - self.pos == 1 {
            let w: u32 = self.src[self.pos] as u32;
            self.buf = self.buf | (w << shift);
            self.left = self.left + 8;
            self.pos = self.pos + 1;
        } else {
            let w: u32 = self.src[self.pos] as u32 | ((self.src[self.pos + 1] as u32) << 8);
            self.buf = self.buf | (w << shift);
            self.left = self.left + 16;
            self.pos = self.pos + 2;
        }
    }

    /// The next `n` loaded bits, first bit most significant.
    pub fn peek(&self, n: u32) -> (v: u32)
        requires
            1 <= n <= 32,
        ensures
            v == self@.peek(n as int),
    {
        self.buf >> (32 - n)
    }

    /// Consumes `n` loaded bits.
    pub fn remove(&mut self, n: u32)
        requires
            n <= 31,
            n <= old(self).left,
        ensures
            final(self).src == old(self).src,
            final(self)@ == old(self)@.skip(n as int),
    {
        self.buf = self.buf << n;
        self.left = self.left - n;
    }

    /// Reads `n` bits. `n` must be in `1..=17`; reading zero bits would shift by the full
    /// width of the buffer.
    pub fn read(&mut self, n: u32) -> (v: u32)
        requires
            old(self).wf(),
            1 <= n <= 17,
        ensures
            final(self).wf(),
            final(self).src == old(self).src,
            final(self)@ == old(self)@.advance(old(self).src@, n as int),
            v == old(self)@.value(old(self).src@, n as int),
            v < (1u32 << n),
    {
        self.ensure(n);
        let v: u32 = self.peek(n);
        let b: u32 = self.buf;
        assert(1 <= n <= 17 ==> (b >> ((32 - n) as u32)) < (1u32 << n)) by (bit_vector);
        self.remove(n);
        v
    }
}

} // verus!
