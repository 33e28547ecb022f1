//! LZX decompression, as used by the `MSCompressed` section of a CHM archive.
//!
//! This is the CHM dialect of LZX: a sliding-window LZ77 coder with canonical Huffman
//! trees whose code lengths are delta-coded against the previous block, three
//! most-recently-used match offsets, and an "Intel E8" call-target transform applied to
//! each finished frame.

use vstd::arithmetic::power2::*;
use vstd::prelude::*;

use crate::bits::{lemma_advance, lemma_fetch, BitState, Bits};
use crate::e8::{e8_undone, lemma_e8_undone_ends, undo_e8, E8_TAIL_MARGIN};
use crate::error::LzxError;
use crate::huffman::{
    built_table, coded, fill_range, lemma_built_shape, lens_bounded,
    make_decode_table,
};
use crate::le::{le32, signed32, to_signed, u32_le};
use crate::lens::{
    fields, least, lemma_fields, lemma_fields_drain, lemma_lens_read, lemma_lens_read_keeps,
    lens_read, read_fields, read_lens, LZX_LENTABLE_SAFETY, PRETREE_LENS,
    PRETREE_TABLE_SIZE,
};
use crate::matches::{
    aligned_tree, decode_matches, decoded_run, lemma_decoded_run, length_tree, main_tree,
    BlockTrees, Offsets, Trees,
    LZX_ALIGNED_MAXSYMBOLS, LZX_ALIGNED_TABLEBITS, LZX_LENGTH_MAXSYMBOLS, LZX_LENGTH_TABLEBITS,
    LZX_MAINTREE_MAXSYMBOLS, LZX_MAINTREE_TABLEBITS, LZX_NUM_CHARS,
};

verus! {

pub const LZX_ALIGNED_NUM_ELEMENTS: usize = 8;

pub const LZX_NUM_SECONDARY_LENGTHS: usize = 249;

/// No block header has been read yet, so no block type is in effect.
pub const BLOCKTYPE_INVALID: u8 = 0;

pub const BLOCKTYPE_VERBATIM: u8 = 1;

pub const BLOCKTYPE_ALIGNED: u8 = 2;

pub const BLOCKTYPE_UNCOMPRESSED: u8 = 3;

/// The Intel E8 transform is only applied to the first 32768 frames of a stream.
pub const LZX_MAX_E8_FRAMES: u32 = 32768;

pub const MAINTREE_LENS: usize = LZX_MAINTREE_MAXSYMBOLS + LZX_LENTABLE_SAFETY;

pub const LENGTH_LENS: usize = LZX_LENGTH_MAXSYMBOLS + LZX_LENTABLE_SAFETY;

pub const ALIGNED_LENS: usize = LZX_ALIGNED_MAXSYMBOLS + LZX_LENTABLE_SAFETY;

/// Entries of the decode tables: `2^tablebits` direct ones and two per symbol.
pub const MAINTREE_TABLE_SIZE: usize = 4096 + LZX_MAINTREE_MAXSYMBOLS * 2;

pub const LENGTH_TABLE_SIZE: usize = 4096 + LZX_LENGTH_MAXSYMBOLS * 2;

pub const ALIGNED_TABLE_SIZE: usize = 128 + LZX_ALIGNED_MAXSYMBOLS * 2;

/// The state of an LZX stream between frames.
pub struct LzxModel {
    /// The sliding window, and the position behind the last byte decoded into it.
    pub window: Seq<u8>,
    pub window_posn: int,
    pub offsets: Offsets,
    /// Number of main tree elements that the window size calls for.
    pub main_elements: int,
    pub header_read: bool,
    pub block_type: u8,
    pub block_length: int,
    pub block_remaining: int,
    pub frames_read: int,
    pub intel_filesize: int,
    pub intel_curpos: int,
    pub intel_started: bool,
    pub pretree_len: Seq<u8>,
    pub maintree_len: Seq<u8>,
    pub length_len: Seq<u8>,
    pub aligned_len: Seq<u8>,
    pub pretree_table: Seq<u16>,
    pub maintree_table: Seq<u16>,
    pub length_table: Seq<u16>,
    pub aligned_table: Seq<u16>,
}

/// Number of position slots of a window of `2^window_bits` bytes.
pub open spec fn position_slots(window_bits: int) -> int {
    if window_bits == 20 {
        42
    } else if window_bits == 21 {
        50
    } else {
        window_bits * 2
    }
}

/// `n` zeros.
pub open spec fn zeros8(n: nat) -> Seq<u8> {
    Seq::new(n, |i: int| 0u8)
}

/// `n` zeros.
pub open spec fn zeros16(n: nat) -> Seq<u16> {
    Seq::new(n, |i: int| 0u16)
}

/// `window` with `bytes` written at `at`.
pub open spec fn overwritten(window: Seq<u8>, at: int, bytes: Seq<u8>) -> Seq<u8> {
    Seq::new(
        window.len(),
        |i: int|
            if at <= i < at + bytes.len() {
                bytes[i - at]
            } else {
                window[i]
            },
    )
}

/// One frame more than `frames`, as far as the counter goes. It only tells the first frames of
/// a stream from the rest, so it may stop at its end.
pub open spec fn counted(frames: int) -> int {
    least(frames + 1, u32::MAX as int)
}

/// A stream state and a reader, with the outcome of the step that led to them.
pub struct Step {
    pub m: LzxModel,
    pub b: BitState,
    pub result: Result<(), LzxError>,
}

/// A stream state with the outcome of decoding one frame.
pub struct Frame {
    pub m: LzxModel,
    pub result: Result<Seq<u8>, LzxError>,
}

impl LzxModel {
    /// The arrays have their sizes, every code length is in range, and the positions lie where
    /// they can.
    pub open spec fn wf(self) -> bool {
        &&& 0x8000 <= self.window.len() <= 0x20_0000
        &&& 0 <= self.window_posn <= self.window.len()
        &&& LZX_NUM_CHARS <= self.main_elements <= LZX_MAINTREE_MAXSYMBOLS
        &&& self.block_length >= 0
        &&& self.block_remaining >= 0
        &&& 0 <= self.frames_read <= u32::MAX
        &&& 0 <= self.intel_curpos <= 0x7fff_ffff * self.frames_read
        &&& self.pretree_len.len() == PRETREE_LENS && lens_bounded(self.pretree_len)
        &&& self.maintree_len.len() == MAINTREE_LENS && lens_bounded(self.maintree_len)
        &&& self.length_len.len() == LENGTH_LENS && lens_bounded(self.length_len)
        &&& self.aligned_len.len() == ALIGNED_LENS && lens_bounded(self.aligned_len)
        &&& self.pretree_table.len() == PRETREE_TABLE_SIZE
        &&& self.maintree_table.len() == MAINTREE_TABLE_SIZE
        &&& self.length_table.len() == LENGTH_TABLE_SIZE
        &&& self.aligned_table.len() == ALIGNED_TABLE_SIZE
    }

    /// A stream with a window of `2^window_bits` bytes at its start.
    pub open spec fn initial(window_bits: nat) -> LzxModel {
        LzxModel {
            window: zeros8(pow2(window_bits)),
            window_posn: 0,
            offsets: Offsets::initial(),
            main_elements: LZX_NUM_CHARS + position_slots(window_bits as int) * 8,
            header_read: false,
            block_type: BLOCKTYPE_INVALID,
            block_length: 0,
            block_remaining: 0,
            frames_read: 0,
            intel_filesize: 0,
            intel_curpos: 0,
            intel_started: false,
            pretree_len: zeros8(PRETREE_LENS as nat),
            maintree_len: zeros8(MAINTREE_LENS as nat),
            length_len: zeros8(LENGTH_LENS as nat),
            aligned_len: zeros8(ALIGNED_LENS as nat),
            pretree_table: zeros16(PRETREE_TABLE_SIZE as nat),
            maintree_table: zeros16(MAINTREE_TABLE_SIZE as nat),
            length_table: zeros16(LENGTH_TABLE_SIZE as nat),
            aligned_table: zeros16(ALIGNED_TABLE_SIZE as nat),
        }
    }

    /// The stream returned to its start. The window contents and what every block sets up
    /// anew before using it stay as they are.
    pub open spec fn reset(self) -> LzxModel {
        LzxModel {
            offsets: Offsets::initial(),
            header_read: false,
            frames_read: 0,
            block_remaining: 0,
            block_type: BLOCKTYPE_INVALID,
            intel_curpos: 0,
            intel_started: false,
            window_posn: 0,
            maintree_len: zeros8(self.maintree_len.len()),
            length_len: zeros8(self.length_len.len()),
            ..self
        }
    }

    /// The trees in effect for the current block.
    pub open spec fn trees(self) -> BlockTrees {
        BlockTrees {
            main: main_tree(self.maintree_table, self.maintree_len),
            length: length_tree(self.length_table, self.length_len),
            aligned: if self.block_type == BLOCKTYPE_ALIGNED {
                Some(aligned_tree(self.aligned_table, self.aligned_len))
            } else {
                None
            },
        }
    }

    /// Reads the code lengths `first..last` of the main tree.
    pub open spec fn main_lens(self, src: Seq<u8>, b: BitState, first: nat, last: nat) -> Step {
        let r = lens_read(
            src,
            b,
            self.pretree_len,
            self.pretree_table,
            self.maintree_len,
            first,
            last,
        );
        Step {
            m: LzxModel {
                pretree_len: r.pretree_len,
                pretree_table: r.pretree_table,
                maintree_len: r.lens,
                ..self
            },
            b: r.b,
            result: if r.ok {
                Ok(())
            } else {
                Err(LzxError::IllegalData)
            },
        }
    }

    /// Reads the code lengths of the length tree.
    pub open spec fn length_lens(self, src: Seq<u8>, b: BitState) -> Step {
        let r = lens_read(
            src,
            b,
            self.pretree_len,
            self.pretree_table,
            self.length_len,
            0,
            LZX_NUM_SECONDARY_LENGTHS as nat,
        );
        Step {
            m: LzxModel {
                pretree_len: r.pretree_len,
                pretree_table: r.pretree_table,
                length_len: r.lens,
                ..self
            },
            b: r.b,
            result: if r.ok {
                Ok(())
            } else {
                Err(LzxError::IllegalData)
            },
        }
    }

    /// Builds the decode table of the main tree. A coded `0xE8` literal means that the
    /// encoder used the Intel call transform.
    pub open spec fn main_built(self) -> (LzxModel, bool) {
        let built = built_table(
            coded(self.maintree_len, LZX_MAINTREE_MAXSYMBOLS as int),
            LZX_MAINTREE_TABLEBITS as nat,
            self.maintree_table,
        );
        (
            LzxModel {
                maintree_table: built.0,
                intel_started: self.intel_started || (built.1 && self.maintree_len[0xE8] != 0),
                ..self
            },
            built.1,
        )
    }

    /// Builds the decode table of the length tree.
    pub open spec fn length_built(self) -> (LzxModel, bool) {
        let built = built_table(
            coded(self.length_len, LZX_LENGTH_MAXSYMBOLS as int),
            LZX_LENGTH_TABLEBITS as nat,
            self.length_table,
        );
        (LzxModel { length_table: built.0, ..self }, built.1)
    }

    /// Builds the decode table of the aligned-offset tree.
    pub open spec fn aligned_built(self) -> (LzxModel, bool) {
        let built = built_table(
            coded(self.aligned_len, LZX_ALIGNED_MAXSYMBOLS as int),
            LZX_ALIGNED_TABLEBITS as nat,
            self.aligned_table,
        );
        (LzxModel { aligned_table: built.0, ..self }, built.1)
    }

    /// Reads the main tree, sent in two halves (literals, then match symbols), and the
    /// length tree.
    pub open spec fn trees_read(self, src: Seq<u8>, b: BitState) -> Step {
        let s1 = self.main_lens(src, b, 0, LZX_NUM_CHARS as nat);
        if s1.result is Err {
            s1
        } else {
            let s2 = s1.m.main_lens(
                src,
                s1.b,
                LZX_NUM_CHARS as nat,
                self.main_elements as nat,
            );
            if s2.result is Err {
                s2
            } else {
                let (m3, ok3) = s2.m.main_built();
                if !ok3 {
                    Step { m: m3, b: s2.b, result: Err(LzxError::IllegalData) }
                } else {
                    let s4 = m3.length_lens(src, s2.b);
                    if s4.result is Err {
                        s4
                    } else {
                        let (m5, ok5) = s4.m.length_built();
                        Step {
                            m: m5,
                            b: s4.b,
                            result: if ok5 {
                                Ok(())
                            } else {
                                Err(LzxError::IllegalData)
                            },
                        }
                    }
                }
            }
        }
    }

    /// The reader from which the next block header is read: an uncompressed block is
    /// padded to an even length, and bits start anew behind it. At the end of the input there
    /// is no padding to step over.
    pub open spec fn realigned(self, src: Seq<u8>, b: BitState) -> BitState {
        if self.block_type == BLOCKTYPE_UNCOMPRESSED {
            BitState {
                buf: 0,
                left: 0,
                pos: if self.block_length % 2 != 0 && b.pos < src.len() {
                    b.pos + 1
                } else {
                    b.pos
                },
            }
        } else {
            b
        }
    }

    /// Reads the type and length of the next block.
    pub open spec fn block_header(self, src: Seq<u8>, b: BitState) -> (LzxModel, BitState) {
        let b0 = self.realigned(src, b);
        let b1 = b0.advance(src, 3);
        let b2 = b1.advance(src, 16);
        let length = b1.value(src, 16) * 0x100 + b2.value(src, 8);
        (
            LzxModel {
                block_type: b0.value(src, 3) as u8,
                block_length: length,
                block_remaining: length,
                ..self
            },
            b2.advance(src, 8),
        )
    }

    /// Sets up the trees of an aligned-offset block: eight 3-bit code lengths, and then the
    /// trees that a verbatim block has too.
    pub open spec fn aligned_read(self, src: Seq<u8>, b: BitState) -> Step {
        let head = fields(src, b, self.aligned_len, 0, LZX_ALIGNED_NUM_ELEMENTS as nat, 3);
        let (m1, ok1) = (LzxModel { aligned_len: head.lens, ..self }).aligned_built();
        if !ok1 {
            Step { m: m1, b: head.b, result: Err(LzxError::IllegalData) }
        } else {
            m1.trees_read(src, head.b)
        }
    }

    /// The input position of the offset registers that an uncompressed block starts with:
    /// the next 16-bit boundary of the bit stream.
    pub open spec fn registers_at(src: Seq<u8>, b: BitState) -> int {
        let f = b.fetch(src, 16);
        if f.left > 16 {
            f.pos - 2
        } else {
            f.pos
        }
    }

    /// Starts an uncompressed block: three 32-bit offset registers at the next 16-bit
    /// boundary.
    pub open spec fn uncompressed_read(self, src: Seq<u8>, b: BitState) -> Step {
        let f = b.fetch(src, 16);
        let at = LzxModel::registers_at(src, b);
        let m = LzxModel { intel_started: true, ..self };
        if at < 0 || at + 12 > src.len() {
            Step { m, b: f, result: Err(LzxError::IllegalData) }
        } else {
            Step {
                m: LzxModel {
                    offsets: Offsets {
                        r0: le32(src, at) as u32,
                        r1: le32(src, at + 4) as u32,
                        r2: le32(src, at + 8) as u32,
                    },
                    ..m
                },
                b: BitState { pos: at + 12, ..f },
                result: Ok(()),
            }
        }
    }

    /// Reads the header of the next block and sets up what its type calls for.
    #[verifier::opaque]
    pub open spec fn block_started(self, src: Seq<u8>, b: BitState) -> Step {
        let (m1, b1) = self.block_header(src, b);
        if m1.block_type == BLOCKTYPE_ALIGNED {
            m1.aligned_read(src, b1)
        } else if m1.block_type == BLOCKTYPE_VERBATIM {
            m1.trees_read(src, b1)
        } else if m1.block_type == BLOCKTYPE_UNCOMPRESSED {
            m1.uncompressed_read(src, b1)
        } else {
            Step { m: m1, b: b1, result: Err(LzxError::IllegalData) }
        }
    }

    /// How much the stream has left to give. Every block header lowers it.
    pub open spec fn progress(self, src: Seq<u8>, b: BitState) -> nat {
        if self.block_type == BLOCKTYPE_UNCOMPRESSED {
            (BitState { buf: 0, left: 0, pos: b.pos }).progress(src)
        } else {
            b.progress(src)
        }
    }

    /// The reader has run so far past the end of the input that its bits are made up.
    pub open spec fn overrun(src: Seq<u8>, b: BitState) -> bool {
        b.pos > src.len() + 2 || (b.pos > src.len() && b.left < 16)
    }

    /// Decodes `run` bytes of the current block into the window, which they may not
    /// straddle the end of.
    #[verifier::opaque]
    pub open spec fn run_decoded(self, src: Seq<u8>, b: BitState, run: nat) -> Step {
        let wp = self.window_posn % (self.window.len() as int);
        let m1 = LzxModel {
            block_remaining: self.block_remaining - run,
            window_posn: wp,
            ..self
        };
        if wp + run > self.window.len() {
            Step { m: m1, b, result: Err(LzxError::DataFormat) }
        } else if self.block_type == BLOCKTYPE_VERBATIM || self.block_type == BLOCKTYPE_ALIGNED {
            let r = decoded_run(
                src,
                b,
                self.window,
                wp as nat,
                run,
                self.offsets,
                self.trees(),
            );
            Step {
                m: LzxModel {
                    window: r.window,
                    offsets: r.offsets,
                    window_posn: if r.result is Ok {
                        wp + run
                    } else {
                        wp
                    },
                    ..m1
                },
                b: r.b,
                result: r.result,
            }
        } else if self.block_type == BLOCKTYPE_UNCOMPRESSED && b.pos + run <= src.len() {
            Step {
                m: LzxModel {
                    window: overwritten(
                        self.window,
                        wp,
                        src.subrange(b.pos, b.pos + run),
                    ),
                    window_posn: wp + run,
                    ..m1
                },
                b: BitState { pos: b.pos + run, ..b },
                result: Ok(()),
            }
        } else {
            Step { m: m1, b, result: Err(LzxError::IllegalData) }
        }
    }

    /// The current block, or the next one if the current one is used up.
    pub open spec fn in_block(self, src: Seq<u8>, b: BitState) -> Step {
        if self.block_remaining == 0 {
            self.block_started(src, b)
        } else {
            Step { m: self, b, result: Ok(()) }
        }
    }

    /// Decodes the next `togo` bytes of the stream into the window, block by block.
    pub open spec fn decoded(self, src: Seq<u8>, b: BitState, togo: int) -> Step
        decreases togo, self.progress(src, b),
        when self.wf() && b.wf(src)
    {
        if togo <= 0 {
            Step { m: self, b, result: Ok(()) }
        } else {
            let s = self.in_block(src, b);
            if s.result is Err {
                s
            } else if LzxModel::overrun(src, s.b) {
                Step { result: Err(LzxError::IllegalData), ..s }
            } else {
                let run = least(s.m.block_remaining, togo);
                let d = s.m.run_decoded(src, s.b, run as nat);
                if d.result is Err {
                    d
                } else {
                    proof {
                        lemma_block_started(self, src, b);
                        lemma_empty_run(s.m, src, s.b);
                    }
                    if run >= 0 {
                        d.m.decoded(src, d.b, togo - run)
                    } else {
                        d
                    }
                }
            }
        }
    }

    /// Reads the stream header if that has not been done yet: an optional 32-bit field
    /// giving the size of the executable that the Intel transform was applied to.
    pub open spec fn begun(self, src: Seq<u8>, b: BitState) -> (LzxModel, BitState) {
        let b1 = b.advance(src, 1);
        let b2 = b1.advance(src, 16);
        if self.header_read {
            (self, b)
        } else if b.value(src, 1) == 0 {
            (LzxModel { header_read: true, intel_filesize: 0, ..self }, b1)
        } else {
            (
                LzxModel {
                    header_read: true,
                    intel_filesize: signed32(
                        (b1.value(src, 16) * 0x1_0000 + b2.value(src, 16)) as nat,
                    ),
                    ..self
                },
                b2.advance(src, 16),
            )
        }
    }

    /// The Intel transform applies to the frame decoded next.
    pub open spec fn e8_applies(self) -> bool {
        self.frames_read < LZX_MAX_E8_FRAMES && self.intel_filesize != 0
    }

    /// The frame `bytes` with the Intel transform undone.
    pub open spec fn e8_frame(self, bytes: Seq<u8>) -> Seq<u8> {
        if self.intel_started {
            e8_undone(bytes, 0, self.intel_curpos, self.intel_filesize)
        } else {
            bytes
        }
    }

    /// Decodes one frame of `out_len` bytes from the input `src`.
    #[verifier::opaque]
    pub open spec fn frame(self, src: Seq<u8>, out_len: nat) -> Frame {
        if out_len > i32::MAX {
            Frame { m: self, result: Err(LzxError::DataFormat) }
        } else {
            let (m1, b1) = self.begun(src, BitState { buf: 0, left: 0, pos: 0 });
            let d = m1.decoded(src, b1, out_len as int);
            let m = d.m;
            // A window position of zero means the run ended exactly on the wraparound.
            let end = if m.window_posn == 0 {
                m.window.len() as int
            } else {
                m.window_posn
            };
            match d.result {
                Err(e) => Frame { m, result: Err(e) },
                Ok(()) => if end < out_len {
                    Frame { m, result: Err(LzxError::DataFormat) }
                } else {
                    let bytes = m.window.subrange(end - out_len, end);
                    if m.e8_applies() {
                        Frame {
                            m: LzxModel {
                                intel_curpos: m.intel_curpos + out_len,
                                frames_read: counted(m.frames_read),
                                ..m
                            },
                            result: Ok(m.e8_frame(bytes)),
                        }
                    } else {
                        Frame {
                            m: LzxModel { frames_read: counted(m.frames_read), ..m },
                            result: Ok(bytes),
                        }
                    }
                },
            }
        }
    }
}

impl LzxModel {
    /// Two states of one stream between which no frame was finished.
    pub open spec fn same_frame(self, other: LzxModel) -> bool {
        &&& self.window.len() == other.window.len()
        &&& self.main_elements == other.main_elements
        &&& self.frames_read == other.frames_read
        &&& self.intel_curpos == other.intel_curpos
    }
}

/// Reading the trees of a block keeps the state well-formed and does not add to what the
/// reader has left after the first field of the first pretree.
proof fn lemma_trees_read(m: LzxModel, src: Seq<u8>, b: BitState)
    requires
        m.wf(),
        b.wf(src),
    ensures
        ({
            let s = m.trees_read(src, b);
            let head = fields(src, b, m.pretree_len, 0, 20, 4);
            &&& s.b.progress(src) <= head.b.progress(src) <= b.progress(src)
            &&& s.m.block_type == m.block_type
            &&& s.m.wf()
            &&& s.b.wf(src)
            &&& s.m.same_frame(m)
        }),
{
    lemma2_to64();
    lemma_lens_read(
        src,
        b,
        m.pretree_len,
        m.pretree_table,
        m.maintree_len,
        0,
        LZX_NUM_CHARS as nat,
    );
    let s1 = m.main_lens(src, b, 0, LZX_NUM_CHARS as nat);
    if s1.result is Ok {
        lemma_lens_read(
            src,
            s1.b,
            s1.m.pretree_len,
            s1.m.pretree_table,
            s1.m.maintree_len,
            LZX_NUM_CHARS as nat,
            m.main_elements as nat,
        );
        let s2 = s1.m.main_lens(src, s1.b, LZX_NUM_CHARS as nat, m.main_elements as nat);
        if s2.result is Ok {
            lemma_built_shape(
                coded(s2.m.maintree_len, LZX_MAINTREE_MAXSYMBOLS as int),
                LZX_MAINTREE_TABLEBITS as nat,
                s2.m.maintree_table,
            );
            let (m3, ok3) = s2.m.main_built();
            if ok3 {
                lemma_lens_read(
                    src,
                    s2.b,
                    m3.pretree_len,
                    m3.pretree_table,
                    m3.length_len,
                    0,
                    LZX_NUM_SECONDARY_LENGTHS as nat,
                );
                let s4 = m3.length_lens(src, s2.b);
                lemma_built_shape(
                    coded(s4.m.length_len, LZX_LENGTH_MAXSYMBOLS as int),
                    LZX_LENGTH_TABLEBITS as nat,
                    s4.m.length_table,
                );
            }
        }
    }
}

/// Reading the trees of a block touches nothing else: the window, the offset registers and what
/// the block header said stay as they were, and so do the code lengths behind the elements that
/// are sent. The Intel transform counts as used from the first block on in which the `0xE8`
/// literal is coded.
pub proof fn lemma_trees_read_keeps(m: LzxModel, src: Seq<u8>, b: BitState)
    requires
        m.wf(),
    ensures
        ({
            let s = m.trees_read(src, b);
            &&& s.m == (LzxModel {
                intel_started: s.m.intel_started,
                pretree_len: s.m.pretree_len,
                pretree_table: s.m.pretree_table,
                maintree_len: s.m.maintree_len,
                maintree_table: s.m.maintree_table,
                length_len: s.m.length_len,
                length_table: s.m.length_table,
                ..m
            })
            &&& s.m.maintree_len.len() == m.maintree_len.len()
            &&& s.m.length_len.len() == m.length_len.len()
            &&& forall|i: int|
                m.main_elements <= i < m.maintree_len.len() ==> #[trigger] s.m.maintree_len[i]
                    == m.maintree_len[i]
            &&& forall|i: int|
                LZX_NUM_SECONDARY_LENGTHS <= i < m.length_len.len() ==> #[trigger] s.m.length_len[i]
                    == m.length_len[i]
            &&& s.result is Ok ==> s.m.intel_started == (m.intel_started
                || s.m.maintree_len[0xE8] != 0)
        }),
{
    let chars = LZX_NUM_CHARS as nat;
    let all = m.main_elements as nat;
    lemma_lens_read_keeps(src, b, m.pretree_len, m.pretree_table, m.maintree_len, 0, chars);
    let s1 = m.main_lens(src, b, 0, chars);
    if s1.result is Ok {
        lemma_lens_read_keeps(
            src,
            s1.b,
            s1.m.pretree_len,
            s1.m.pretree_table,
            s1.m.maintree_len,
            chars,
            all,
        );
        let s2 = s1.m.main_lens(src, s1.b, chars, all);
        if s2.result is Ok {
            let (m3, ok3) = s2.m.main_built();
            if ok3 {
                lemma_lens_read_keeps(
                    src,
                    s2.b,
                    m3.pretree_len,
                    m3.pretree_table,
                    m3.length_len,
                    0,
                    LZX_NUM_SECONDARY_LENGTHS as nat,
                );
            }
        }
    }
}

/// Starting a block keeps the state well-formed and lowers what the stream has left.
pub proof fn lemma_block_started(m: LzxModel, src: Seq<u8>, b: BitState)
    requires
        m.wf(),
        b.wf(src),
    ensures
        ({
            let s = m.block_started(src, b);
            &&& s.m.wf()
            &&& s.m.same_frame(m)
            &&& s.result is Ok ==> s.m.progress(src, s.b) < m.progress(src, b) && s.b.wf(src)
        }),
{
    reveal(LzxModel::block_started);
    let b0 = m.realigned(src, b);
    let (m1, bh) = m.block_header(src, b);
    let s = m.block_started(src, b);
    let b1 = b0.advance(src, 3);
    let b2 = b1.advance(src, 16);
    if b0.pos > src.len() + 1 {
        if b0.value(src, 3) != 0 {
            lemma_type_bits(b0, src);
        }
        assert(m1.block_type == 0);
    } else {
        assert(b0.progress(src) <= m.progress(src, b));
        lemma_advance(src, b0, 3);
        lemma_advance(src, b1, 16);
        lemma_advance(src, b2, 8);
        if m1.block_type == BLOCKTYPE_ALIGNED {
            let head = fields(src, bh, m1.aligned_len, 0, LZX_ALIGNED_NUM_ELEMENTS as nat, 3);
            lemma_fields(src, bh, m1.aligned_len, 0, LZX_ALIGNED_NUM_ELEMENTS as nat, 3);
            let (m2, ok2) = (LzxModel { aligned_len: head.lens, ..m1 }).aligned_built();
            lemma_aligned_shape(LzxModel { aligned_len: head.lens, ..m1 });
            lemma_trees_read(m2, src, head.b);
            if b0.pos >= src.len() {
                lemma_type_bits(b0, src);
                lemma_fields_drain(
                    src,
                    bh,
                    m1.aligned_len,
                    LZX_ALIGNED_NUM_ELEMENTS as nat,
                    3,
                    b0.buf,
                );
            }
        } else if m1.block_type == BLOCKTYPE_VERBATIM {
            lemma_trees_read(m1, src, bh);
            if b0.pos >= src.len() {
                lemma_type_bits(b0, src);
                lemma_fields_drain(src, bh, m1.pretree_len, 20, 4, b0.buf);
            }
        } else {
            lemma_fetch(src, bh, 16);
            if b0.pos > src.len() {
                if b0.value(src, 3) != 0 {
                    lemma_type_bits(b0, src);
                }
            }
        }
    }
}

/// Decoding a run keeps the state well-formed.
pub proof fn lemma_run_decoded(m: LzxModel, src: Seq<u8>, b: BitState, run: nat)
    requires
        m.wf(),
        b.wf(src),
        run <= m.block_remaining,
    ensures
        ({
            let d = m.run_decoded(src, b, run);
            &&& d.m.wf()
            &&& d.b.wf(src)
            &&& d.m.same_frame(m)
        }),
{
    reveal(LzxModel::run_decoded);
    lemma2_to64();
    let wp = m.window_posn % (m.window.len() as int);
    if wp + run <= m.window.len() && (m.block_type == BLOCKTYPE_VERBATIM || m.block_type
        == BLOCKTYPE_ALIGNED) {
        lemma_decoded_run(src, b, m.window, wp as nat, run, m.offsets, m.trees());
    }
}

/// Decoding any number of bytes keeps the state well-formed.
pub proof fn lemma_decoded(m: LzxModel, src: Seq<u8>, b: BitState, togo: int)
    requires
        m.wf(),
        b.wf(src),
    ensures
        ({
            let d = m.decoded(src, b, togo);
            &&& d.m.wf()
            &&& d.m.same_frame(m)
        }),
    decreases togo, m.progress(src, b),
{
    if togo > 0 {
        lemma_block_started(m, src, b);
        let s = m.in_block(src, b);
        if s.result is Ok && !LzxModel::overrun(src, s.b) {
            let run = least(s.m.block_remaining, togo);
            let d = s.m.run_decoded(src, s.b, run as nat);
            lemma_run_decoded(s.m, src, s.b, run as nat);
            if d.result is Ok {
                lemma_empty_run(s.m, src, s.b);
                lemma_decoded(d.m, src, d.b, togo - run);
            }
        }
    }
}

/// Decoding a frame keeps the state well-formed. A frame that was decoded has the length
/// asked for.
pub proof fn lemma_frame(m: LzxModel, src: Seq<u8>, out_len: nat)
    requires
        m.wf(),
    ensures
        ({
            let f = m.frame(src, out_len);
            &&& f.m.wf()
            &&& f.m.window.len() == m.window.len()
            &&& f.m.main_elements == m.main_elements
            &&& f.m.frames_read == if f.result is Ok {
                counted(m.frames_read)
            } else {
                m.frames_read
            }
            &&& f.result matches Ok(bytes) ==> bytes.len() == out_len
        }),
{
    reveal(LzxModel::frame);
    let b = BitState { buf: 0, left: 0, pos: 0 };
    if out_len <= i32::MAX {
        lemma_advance(src, b, 1);
        let b1 = b.advance(src, 1);
        lemma_advance(src, b1, 16);
        lemma_advance(src, b1.advance(src, 16), 16);
        let (m1, r1) = m.begun(src, b);
        lemma_decoded(m1, src, r1, out_len as int);
        let d = m1.decoded(src, r1, out_len as int);
        let end = if d.m.window_posn == 0 {
            d.m.window.len() as int
        } else {
            d.m.window_posn
        };
        if d.result is Ok && end >= out_len {
            lemma_e8_undone_ends(
                d.m.window.subrange(end - out_len, end),
                d.m.intel_curpos,
                d.m.intel_filesize,
            );
        }
    }
}

/// Decoding nothing keeps what the stream has left.
pub proof fn lemma_empty_run(m: LzxModel, src: Seq<u8>, b: BitState)
    ensures
        ({
            let d = m.run_decoded(src, b, 0);
            d.result is Ok ==> d.m.progress(src, d.b) == m.progress(src, b)
        }),
{
    reveal(LzxModel::run_decoded);
}

/// Building the aligned tree keeps the state well-formed.
proof fn lemma_aligned_shape(m: LzxModel)
    requires
        m.wf(),
    ensures
        m.aligned_built().0.wf(),
{
    lemma2_to64();
    lemma_built_shape(
        coded(m.aligned_len, LZX_ALIGNED_MAXSYMBOLS as int),
        LZX_ALIGNED_TABLEBITS as nat,
        m.aligned_table,
    );
}

/// A block type other than zero takes a buffer that is not empty.
pub proof fn lemma_type_bits(b: BitState, src: Seq<u8>)
    requires
        b.left >= 0,
        b.pos >= src.len(),
        b.value(src, 3) != 0,
    ensures
        b.buf != 0,
{
    assert(b.fetch(src, 3).buf == b.buf);
    assert((0u32 >> 29u32) == 0) by (bit_vector);
}

/// A stream at its start is well-formed.
pub proof fn lemma_initial(window_bits: nat)
    requires
        15 <= window_bits <= 21,
    ensures
        LzxModel::initial(window_bits).wf(),
        LzxModel::initial(window_bits).window.len() == pow2(window_bits) <= 0x20_0000,
{
    lemma2_to64();
    lemma_window_sizes(window_bits);
}

/// A reset returns the stream to its start: nothing that a stream carries from frame to frame
/// is left, resetting again changes nothing, and a stream that has not been used is not
/// changed at all.
pub proof fn lemma_reset(m: LzxModel, window_bits: nat)
    ensures
        m.reset().reset() == m.reset(),
        LzxModel::initial(window_bits).reset() == LzxModel::initial(window_bits),
        m.wf() ==> m.reset().wf(),
        ({
            let r = m.reset();
            let start = LzxModel::initial(window_bits);
            &&& r.window_posn == start.window_posn
            &&& r.offsets == start.offsets
            &&& r.header_read == start.header_read
            &&& r.block_type == start.block_type
            &&& r.block_remaining == start.block_remaining
            &&& r.frames_read == start.frames_read
            &&& r.intel_curpos == start.intel_curpos
            &&& r.intel_started == start.intel_started
            &&& m.wf() ==> r.maintree_len == start.maintree_len && r.length_len
                == start.length_len
        }),
{
    let start = LzxModel::initial(window_bits);
    assert(zeros8(zeros8(m.maintree_len.len()).len()) =~= zeros8(m.maintree_len.len()));
    assert(zeros8(zeros8(m.length_len.len()).len()) =~= zeros8(m.length_len.len()));
    assert(start.reset().maintree_len =~= start.maintree_len);
    assert(start.reset().length_len =~= start.length_len);
}

/// The window sizes are powers of two.
proof fn lemma_window_sizes(bits: nat)
    requires
        15 <= bits <= 21,
    ensures
        0x8000 <= pow2(bits) <= 0x20_0000,
        1 * pow2(bits) <= u32::MAX,
{
    lemma2_to64();
}

/// Copies `n` bytes of `src` from `from` on to `at` in `dst`.
fn copy_into(dst: &mut [u8], at: usize, src: &[u8], from: usize, n: usize)
    requires
        at + n <= old(dst)@.len(),
        from + n <= src@.len(),
    ensures
        final(dst)@ == overwritten(old(dst)@, at as int, src@.subrange(from as int, from + n)),
{
    assert(dst.len() <= usize::MAX && src.len() <= usize::MAX);
    let mut i: usize = 0;
    while i < n
        invariant
            i <= n,
            at + n <= dst@.len() <= usize::MAX,
            from + n <= src@.len() <= usize::MAX,
            dst@.len() == old(dst)@.len(),
            forall|k: int| 0 <= k < dst@.len() ==> #[trigger] dst@[k] == if at <= k < at + i {
                src@[from + k - at]
            } else {
                old(dst)@[k]
            },
        decreases n - i,
    {
        dst[at + i] = src[from + i];
        i = i + 1;
    }
    assert(dst@ =~= overwritten(old(dst)@, at as int, src@.subrange(from as int, from + n)));
}

/// An LZX stream decoder.
pub struct LzxState {
    pub window: Vec<u8>,
    pub window_size: u32,
    pub window_posn: u32,
    pub offsets: Offsets,
    pub main_elements: u16,
    pub header_read: bool,
    pub block_type: u8,
    pub block_length: u32,
    pub block_remaining: u32,
    pub frames_read: u32,
    pub intel_filesize: i32,
    pub intel_curpos: i64,
    pub intel_started: bool,
    // Code-length tables (persist across decompress calls; deltas applied each block)
    pub pretree_len: Vec<u8>,
    pub maintree_len: Vec<u8>,
    pub length_len: Vec<u8>,
    pub aligned_len: Vec<u8>,
    // Fast-lookup decode tables (rebuilt at the start of each block)
    pub pretree_table: Vec<u16>,
    pub maintree_table: Vec<u16>,
    pub length_table: Vec<u16>,
    pub aligned_table: Vec<u16>,
}

impl View for LzxState {
    type V = LzxModel;

    open spec fn view(&self) -> LzxModel {
        LzxModel {
            window: self.window@,
            window_posn: self.window_posn as int,
            offsets: self.offsets,
            main_elements: self.main_elements as int,
            header_read: self.header_read,
            block_type: self.block_type,
            block_length: self.block_length as int,
            block_remaining: self.block_remaining as int,
            frames_read: self.frames_read as int,
            intel_filesize: self.intel_filesize as int,
            intel_curpos: self.intel_curpos as int,
            intel_started: self.intel_started,
            pretree_len: self.pretree_len@,
            maintree_len: self.maintree_len@,
            length_len: self.length_len@,
            aligned_len: self.aligned_len@,
            pretree_table: self.pretree_table@,
            maintree_table: self.maintree_table@,
            length_table: self.length_table@,
            aligned_table: self.aligned_table@,
        }
    }
}

impl LzxState {
    /// The decoder is in a state that its operations keep.
    pub open spec fn wf(&self) -> bool {
        &&& self@.wf()
        &&& self.window_size == self.window@.len()
    }

    /// A decoder for a window of `2^window_bits` bytes, at the start of a stream.
    pub fn new(window_bits: u8) -> (r: Result<Box<Self>, LzxError>)
        ensures
            match r {
                Ok(state) => 15 <= window_bits <= 21 && state.wf() && state@ == LzxModel::initial(
                    window_bits as nat,
                ),
                Err(e) => !(15 <= window_bits <= 21) && e == LzxError::InvalidWindow(window_bits),
            },
    {
        if window_bits < 15 || window_bits > 21 {
            return Err(LzxError::InvalidWindow(window_bits));
        }
        let bits: u32 = window_bits as u32;
        proof {
            lemma2_to64();
            vstd::bits::lemma_u32_shl_is_mul(1, bits);
            assert(15 <= bits <= 21 ==> 0x8000 <= (1u32 << bits) <= 0x20_0000) by (bit_vector);
            assert((1u32 << bits) == pow2(bits as nat)) by {
                lemma_window_sizes(bits as nat);
            }
        }
        let window_size: u32 = 1u32 << bits;
        let posn_slots: u16 = if window_bits == 20 {
            42
        } else if window_bits == 21 {
            50
        } else {
            window_bits as u16 * 2
        };
        let state = LzxState {
            window: vec![0u8; window_size as usize],
            window_size,
            window_posn: 0,
            offsets: Offsets::new(),
            main_elements: 256 + posn_slots * 8,
            header_read: false,
            block_type: BLOCKTYPE_INVALID,
            block_length: 0,
            block_remaining: 0,
            frames_read: 0,
            intel_filesize: 0,
            intel_curpos: 0,
            intel_started: false,
            pretree_len: vec![0u8; PRETREE_LENS],
            maintree_len: vec![0u8; MAINTREE_LENS],
            length_len: vec![0u8; LENGTH_LENS],
            aligned_len: vec![0u8; ALIGNED_LENS],
            pretree_table: vec![0u16; PRETREE_TABLE_SIZE],
            maintree_table: vec![0u16; MAINTREE_TABLE_SIZE],
            length_table: vec![0u16; LENGTH_TABLE_SIZE],
            aligned_table: vec![0u16; ALIGNED_TABLE_SIZE],
        };
        proof {
            let m = LzxModel::initial(window_bits as nat);
            assert(state.window@ =~= m.window);
            assert(state.pretree_len@ =~= m.pretree_len);
            assert(state.maintree_len@ =~= m.maintree_len);
            assert(state.length_len@ =~= m.length_len);
            assert(state.aligned_len@ =~= m.aligned_len);
            assert(state.pretree_table@ =~= m.pretree_table);
            assert(state.maintree_table@ =~= m.maintree_table);
            assert(state.length_table@ =~= m.length_table);
            assert(state.aligned_table@ =~= m.aligned_table);
        }
        Ok(Box::new(state))
    }

    /// Returns the stream to its initial state, as required at every LZX reset interval.
    ///
    /// The window contents are left alone: a stream that keeps to what it has produced
    /// since does not look at them, as [`crate::self_contained::lemma_frame_alike`] shows.
    pub fn reset(&mut self)
        ensures
            final(self)@ == old(self)@.reset(),
            final(self).window_size == old(self).window_size,
            old(self).wf() ==> final(self).wf(),
    {
        self.offsets = Offsets::new();
        self.header_read = false;
        self.frames_read = 0;
        self.block_remaining = 0;
        self.block_type = BLOCKTYPE_INVALID;
        self.intel_curpos = 0;
        self.intel_started = false;
        self.window_posn = 0;
        let main_len: usize = self.maintree_len.len();
        let length_len: usize = self.length_len.len();
        fill_range(self.maintree_len.as_mut_slice(), 0, main_len, 0);
        fill_range(self.length_len.as_mut_slice(), 0, length_len, 0);
        proof {
            assert(self.maintree_len@ =~= zeros8(main_len as nat));
            assert(self.length_len@ =~= zeros8(length_len as nat));
        }
    }

    /// Reads the code lengths `first..last` of the main tree.
    fn read_main_lens(&mut self, bits: &mut Bits, first: usize, last: usize) -> (r: Result<
        (),
        LzxError,
    >)
        requires
            old(self).wf(),
            old(bits).wf(),
            first <= last <= LZX_MAINTREE_MAXSYMBOLS,
        ensures
            final(self).wf(),
            final(self).window_size == old(self).window_size,
            final(bits).wf(),
            final(bits).src == old(bits).src,
            old(self)@.main_lens(old(bits).src@, old(bits)@, first as nat, last as nat) == (Step {
                m: final(self)@,
                b: final(bits)@,
                result: r,
            }),
    {
        proof {
            lemma2_to64();
        }
        read_lens(
            bits,
            &mut self.pretree_len,
            &mut self.pretree_table,
            &mut self.maintree_len,
            first,
            last,
        )
    }

    /// Reads the code lengths of the length tree.
    fn read_length_lens(&mut self, bits: &mut Bits) -> (r: Result<(), LzxError>)
        requires
            old(self).wf(),
            old(bits).wf(),
        ensures
            final(self).wf(),
            final(self).window_size == old(self).window_size,
            final(bits).wf(),
            final(bits).src == old(bits).src,
            old(self)@.length_lens(old(bits).src@, old(bits)@) == (Step {
                m: final(self)@,
                b: final(bits)@,
                result: r,
            }),
    {
        proof {
            lemma2_to64();
        }
        read_lens(
            bits,
            &mut self.pretree_len,
            &mut self.pretree_table,
            &mut self.length_len,
            0,
            LZX_NUM_SECONDARY_LENGTHS,
        )
    }

    /// Builds the decode table of the main tree.
    fn build_main_tree(&mut self) -> (r: Result<(), LzxError>)
        requires
            old(self).wf(),
        ensures
            final(self).wf(),
            final(self).window_size == old(self).window_size,
            old(self)@.main_built() == (final(self)@, r is Ok),
            r is Err ==> r == Err::<(), LzxError>(LzxError::IllegalData),
    {
        proof {
            lemma2_to64();
        }
        match make_decode_table(
            LZX_MAINTREE_MAXSYMBOLS,
            LZX_MAINTREE_TABLEBITS,
            self.maintree_len.as_slice(),
            self.maintree_table.as_mut_slice(),
        ) {
            Ok(()) => {},
            Err(e) => {
                return Err(e);
            },
        }
        // A coded 0xE8 literal means the encoder used the Intel call transform.
        if self.maintree_len[0xE8] != 0 {
            self.intel_started = true;
        }
        Ok(())
    }

    /// Builds the decode table of the length tree.
    fn build_length_tree(&mut self) -> (r: Result<(), LzxError>)
        requires
            old(self).wf(),
        ensures
            final(self).wf(),
            final(self).window_size == old(self).window_size,
            old(self)@.length_built() == (final(self)@, r is Ok),
            r is Err ==> r == Err::<(), LzxError>(LzxError::IllegalData),
    {
        proof {
            lemma2_to64();
        }
        make_decode_table(
            LZX_LENGTH_MAXSYMBOLS,
            LZX_LENGTH_TABLEBITS,
            self.length_len.as_slice(),
            self.length_table.as_mut_slice(),
        )
    }

    /// Reads the main and length trees that follow a verbatim or aligned block header.
    ///
    /// The main tree is transmitted in two halves (literals, then match symbols) and each
    /// half is delta-coded against the lengths still held from the previous block.
    /// Nothing else of the state changes.
    pub fn read_main_and_length_trees(&mut self, bits: &mut Bits) -> (r: Result<(), LzxError>)
        requires
            old(self).wf(),
            old(bits).wf(),
        ensures
            final(self).wf(),
            final(self).window_size == old(self).window_size,
            final(bits).wf(),
            final(bits).src == old(bits).src,
            old(self)@.trees_read(old(bits).src@, old(bits)@) == (Step {
                m: final(self)@,
                b: final(bits)@,
                result: r,
            }),
            r is Ok ==> final(self).intel_started == (old(self).intel_started
                || final(self).maintree_len@[0xE8] != 0),
            forall|i: int|
                old(self).main_elements <= i < MAINTREE_LENS
                    ==> #[trigger] final(self).maintree_len@[i] == old(self).maintree_len@[i],
            forall|i: int|
                LZX_NUM_SECONDARY_LENGTHS <= i < LENGTH_LENS
                    ==> #[trigger] final(self).length_len@[i] == old(self).length_len@[i],
            final(self).window@ == old(self).window@,
            final(self).window_posn == old(self).window_posn,
            final(self).offsets == old(self).offsets,
            final(self).block_type == old(self).block_type,
            final(self).block_length == old(self).block_length,
            final(self).block_remaining == old(self).block_remaining,
    {
        proof {
            lemma_trees_read_keeps(self@, bits.src@, bits@);
        }
        match self.read_main_lens(bits, 0, LZX_NUM_CHARS) {
            Ok(()) => {},
            Err(e) => {
                return Err(e);
            },
        }
        let elements: usize = self.main_elements as usize;
        match self.read_main_lens(bits, LZX_NUM_CHARS, elements) {
            Ok(()) => {},
            Err(e) => {
                return Err(e);
            },
        }
        match self.build_main_tree() {
            Ok(()) => {},
            Err(e) => {
                return Err(e);
            },
        }
        match self.read_length_lens(bits) {
            Ok(()) => {},
            Err(e) => {
                return Err(e);
            },
        }
        match self.build_length_tree() {
            Ok(()) => {},
            Err(e) => {
                return Err(e);
            },
        }
        Ok(())
    }

    /// Reads the type and length of the next block.
    fn read_block_header(&mut self, bits: &mut Bits)
        requires
            old(self).wf(),
            old(bits).wf(),
            old(self).block_type == BLOCKTYPE_UNCOMPRESSED ==> old(bits).pos
                <= old(bits).src@.len(),
        ensures
            final(self).wf(),
            final(self).window_size == old(self).window_size,
            final(bits).wf(),
            final(bits).src == old(bits).src,
            old(self)@.block_header(old(bits).src@, old(bits)@) == (final(self)@, final(bits)@),
    {
        if self.block_type == BLOCKTYPE_UNCOMPRESSED {
            // Re-align to word boundary after an uncompressed block
            if self.block_length % 2 != 0 && bits.pos < bits.src.len() {
                bits.skip_byte();
            }
            bits.reinit();
        }
        proof {
            assert((1u32 << 3u32) == 8 && (1u32 << 8u32) == 0x100 && (1u32 << 16u32) == 0x1_0000)
                by (bit_vector);
        }
        self.block_type = bits.read(3) as u8;
        let high: u32 = bits.read(16);
        let low: u32 = bits.read(8);
        self.block_length = high * 0x100 + low;
        self.block_remaining = self.block_length;
    }

    /// Reads the trees that follow an aligned-offset block header.
    fn read_aligned_trees(&mut self, bits: &mut Bits) -> (r: Result<(), LzxError>)
        requires
            old(self).wf(),
            old(bits).wf(),
        ensures
            final(self).wf(),
            final(self).window_size == old(self).window_size,
            final(bits).wf(),
            final(bits).src == old(bits).src,
            old(self)@.aligned_read(old(bits).src@, old(bits)@) == (Step {
                m: final(self)@,
                b: final(bits)@,
                result: r,
            }),
    {
        proof {
            lemma2_to64();
        }
        read_fields(bits, self.aligned_len.as_mut_slice(), LZX_ALIGNED_NUM_ELEMENTS, 3);
        match make_decode_table(
            LZX_ALIGNED_MAXSYMBOLS,
            LZX_ALIGNED_TABLEBITS,
            self.aligned_len.as_slice(),
            self.aligned_table.as_mut_slice(),
        ) {
            Ok(()) => {},
            Err(e) => {
                return Err(e);
            },
        }
        // Aligned blocks carry the main and length trees too.
        self.read_main_and_length_trees(bits)
    }

    /// Reads the three offset registers that an uncompressed block starts with.
    fn read_offset_registers(&mut self, bits: &mut Bits) -> (r: Result<(), LzxError>)
        requires
            old(self).wf(),
            old(bits).wf(),
        ensures
            final(self).wf(),
            final(self).window_size == old(self).window_size,
            final(bits).wf(),
            final(bits).src == old(bits).src,
            r is Ok ==> final(bits).pos <= old(bits).src@.len(),
            old(self)@.uncompressed_read(old(bits).src@, old(bits)@) == (Step {
                m: final(self)@,
                b: final(bits)@,
                result: r,
            }),
    {
        self.intel_started = true;
        // Align bitstream to 16-bit boundary
        bits.ensure(16);
        let mut at: usize = bits.pos;
        if bits.left > 16 {
            if at < 2 {
                return Err(LzxError::IllegalData);
            }
            at = at - 2;
        }
        if at > bits.src.len() || bits.src.len() - at < 12 {
            return Err(LzxError::IllegalData);
        }
        self.offsets = Offsets {
            r0: u32_le(bits.src, at),
            r1: u32_le(bits.src, at + 4),
            r2: u32_le(bits.src, at + 8),
        };
        bits.pos = at + 12;
        Ok(())
    }

    /// Reads the header of the next block and sets up its Huffman tables.
    fn start_block(&mut self, bits: &mut Bits) -> (r: Result<(), LzxError>)
        requires
            old(self).wf(),
            old(bits).wf(),
            old(self).block_type == BLOCKTYPE_UNCOMPRESSED ==> old(bits).pos
                <= old(bits).src@.len(),
        ensures
            final(self).wf(),
            final(self).frames_read == old(self).frames_read,
            final(self).window_size == old(self).window_size,
            final(bits).wf(),
            final(bits).src == old(bits).src,
            r is Ok && final(self).block_type == BLOCKTYPE_UNCOMPRESSED ==> final(bits).pos
                <= old(bits).src@.len(),
            old(self)@.block_started(old(bits).src@, old(bits)@) == (Step {
                m: final(self)@,
                b: final(bits)@,
                result: r,
            }),
    {
        reveal(LzxModel::block_started);
        self.read_block_header(bits);
        if self.block_type == BLOCKTYPE_ALIGNED {
            self.read_aligned_trees(bits)
        } else if self.block_type == BLOCKTYPE_VERBATIM {
            self.read_main_and_length_trees(bits)
        } else if self.block_type == BLOCKTYPE_UNCOMPRESSED {
            self.read_offset_registers(bits)
        } else {
            Err(LzxError::IllegalData)
        }
    }

    /// Undoes the Intel E8 call transform over a finished frame, in place.
    ///
    /// The encoder rewrote the operand of every `call rel32` to an absolute target; this
    /// walks the frame and converts each one back to a displacement.
    pub fn undo_intel_e8(&mut self, output: &mut [u8], frame_size: i32)
        requires
            i64::MIN <= old(self).intel_curpos + frame_size <= i64::MAX,
            old(self).intel_started ==> {
                &&& i64::MIN < old(self).intel_curpos
                &&& old(output)@.len() <= i64::MAX
                &&& old(self).intel_curpos + old(output)@.len() <= i64::MAX
            },
        ensures
            final(self)@ == (LzxModel {
                intel_curpos: old(self)@.intel_curpos + frame_size,
                ..old(self)@
            }),
            final(output)@.len() == old(output)@.len(),
            final(self).window_size == old(self).window_size,
            final(output)@ == old(self)@.e8_frame(old(output)@),
            !old(self).intel_started || old(output)@.len() <= E8_TAIL_MARGIN ==> final(output)@
                == old(output)@,
            old(output)@.len() > E8_TAIL_MARGIN ==> final(output)@[0] == old(output)@[0],
            old(output)@.len() > E8_TAIL_MARGIN ==> final(output)@.subrange(
                old(output)@.len() - 6,
                old(output)@.len() as int,
            ) == old(output)@.subrange(old(output)@.len() - 6, old(output)@.len() as int),
    {
        proof {
            lemma_e8_undone_ends(
                output@,
                self.intel_curpos as int,
                self.intel_filesize as int,
            );
        }
        let curpos_start: i64 = self.intel_curpos;
        self.intel_curpos = curpos_start + frame_size as i64;
        if self.intel_started {
            undo_e8(output, curpos_start, self.intel_filesize);
        }
    }

    /// Reads the stream header if that has not been done yet.
    fn read_stream_header(&mut self, bits: &mut Bits)
        requires
            old(self).wf(),
            old(bits).wf(),
            old(bits).pos <= old(bits).src@.len(),
        ensures
            final(self).wf(),
            final(self).window_size == old(self).window_size,
            final(self).frames_read == old(self).frames_read,
            final(bits).wf(),
            final(bits).src == old(bits).src,
            final(bits).pos <= old(bits).src@.len(),
            old(self)@.begun(old(bits).src@, old(bits)@) == (final(self)@, final(bits)@),
    {
        if self.header_read {
            return;
        }
        proof {
            assert((1u32 << 16u32) == 0x1_0000) by (bit_vector);
        }
        // An optional 32-bit field giving the size of the original Intel executable.
        let present: u32 = bits.read(1);
        let filesize: u32 = if present == 0 {
            0
        } else {
            let high: u32 = bits.read(16);
            let low: u32 = bits.read(16);
            high * 0x1_0000 + low
        };
        self.intel_filesize = to_signed(filesize);
        self.header_read = true;
    }

    /// Decodes `run` bytes of the current block into the window.
    fn decode_run(&mut self, bits: &mut Bits, run: u32) -> (r: Result<(), LzxError>)
        requires
            old(self).wf(),
            old(bits).wf(),
            run <= old(self).block_remaining,
            old(self).block_type == BLOCKTYPE_UNCOMPRESSED ==> old(bits).pos
                <= old(bits).src@.len(),
        ensures
            final(self).wf(),
            final(self).frames_read == old(self).frames_read,
            final(self).window_size == old(self).window_size,
            final(bits).wf(),
            final(bits).src == old(bits).src,
            r is Ok && final(self).block_type == BLOCKTYPE_UNCOMPRESSED ==> final(bits).pos
                <= old(bits).src@.len(),
            old(self)@.run_decoded(old(bits).src@, old(bits)@, run as nat) == (Step {
                m: final(self)@,
                b: final(bits)@,
                result: r,
            }),
    {
        reveal(LzxModel::run_decoded);
        proof {
            lemma2_to64();
        }
        self.block_remaining = self.block_remaining - run;
        // Wrap to the start of the window; a run may not straddle the wraparound.
        self.window_posn = self.window_posn % self.window_size;
        if run > self.window_size - self.window_posn {
            return Err(LzxError::DataFormat);
        }
        let wp: usize = self.window_posn as usize;
        let n: usize = run as usize;
        if self.block_type == BLOCKTYPE_VERBATIM || self.block_type == BLOCKTYPE_ALIGNED {
            let trees = Trees {
                maintree_table: self.maintree_table.as_slice(),
                maintree_len: self.maintree_len.as_slice(),
                length_table: self.length_table.as_slice(),
                length_len: self.length_len.as_slice(),
                aligned: if self.block_type == BLOCKTYPE_ALIGNED {
                    Some((self.aligned_table.as_slice(), self.aligned_len.as_slice()))
                } else {
                    None
                },
            };
            assert(trees@ == old(self)@.trees());
            match decode_matches(
                bits,
                self.window.as_mut_slice(),
                wp,
                n,
                &mut self.offsets,
                &trees,
            ) {
                Ok(unit) => {
                    assert(unit == ());
                },
                Err(e) => {
                    return Err(e);
                },
            }
        } else if self.block_type == BLOCKTYPE_UNCOMPRESSED {
            if n > bits.src.len() - bits.pos {
                return Err(LzxError::IllegalData);
            }
            copy_into(self.window.as_mut_slice(), wp, bits.src, bits.pos, n);
            bits.pos = bits.pos + n;
        } else {
            return Err(LzxError::IllegalData);
        }
        self.window_posn = self.window_posn + run;
        Ok(())
    }

    /// Decodes one frame: fills `output` from the compressed bytes `input`.
    pub fn decompress(&mut self, input: &[u8], output: &mut [u8]) -> (r: Result<(), LzxError>)
        requires
            old(self).wf(),
        ensures
            final(self).wf(),
            final(self)@.window.len() == old(self)@.window.len(),
            final(self)@.frames_read == if r is Ok {
                counted(old(self)@.frames_read)
            } else {
                old(self)@.frames_read
            },
            final(output)@.len() == old(output)@.len(),
            ({
                let frame = old(self)@.frame(input@, old(output)@.len());
                &&& final(self)@ == frame.m
                &&& match r {
                    Ok(()) => frame.result == Ok::<Seq<u8>, LzxError>(final(output)@),
                    Err(e) => frame.result == Err::<Seq<u8>, LzxError>(e) && final(output)@
                        == old(output)@,
                }
            }),
    {
        reveal(LzxModel::frame);
        let out_len: usize = output.len();
        if out_len > 0x7fff_ffff {
            return Err(LzxError::DataFormat);
        }
        let mut bits = Bits::new(input);
        self.read_stream_header(&mut bits);
        let ghost all = self@.decoded(input@, bits@, out_len as int);
        let mut togo: u32 = out_len as u32;
        while togo > 0
            invariant
                self.wf(),
                bits.wf(),
                bits.src == input,
                self.block_type == BLOCKTYPE_UNCOMPRESSED ==> bits.pos <= input@.len(),
                self.frames_read == old(self).frames_read,
                self.window_size == old(self).window_size,
                old(self).wf(),
                out_len == output@.len(),
                output@ == old(output)@,
                out_len <= 0x7fff_ffff,
                all == self@.decoded(input@, bits@, togo as int),
                all == ({
                    let begun = old(self)@.begun(input@, BitState { buf: 0, left: 0, pos: 0 });
                    begun.0.decoded(input@, begun.1, out_len as int)
                }),
            decreases togo, self@.progress(input@, bits@),
        {
            reveal(LzxModel::frame);
            if self.block_remaining == 0 {
                proof {
                    lemma_block_started(self@, input@, bits@);
                }
                match self.start_block(&mut bits) {
                    Ok(()) => {},
                    Err(e) => {
                        return Err(e);
                    },
                }
            }
            proof {
                lemma_empty_run(self@, input@, bits@);
            }
            if bits.pos > input.len() && (bits.pos - input.len() > 2 || bits.left < 16) {
                return Err(LzxError::IllegalData);
            }
            let this_run: u32 = if self.block_remaining < togo {
                self.block_remaining
            } else {
                togo
            };
            match self.decode_run(&mut bits, this_run) {
                Ok(()) => {},
                Err(e) => {
                    return Err(e);
                },
            }
            togo = togo - this_run;
        }
        // A window_posn of zero means the run ended exactly on the wraparound.
        let final_pos: usize = if self.window_posn == 0 {
            self.window_size as usize
        } else {
            self.window_posn as usize
        };
        if final_pos < out_len {
            return Err(LzxError::DataFormat);
        }
        copy_into(output, 0, self.window.as_slice(), final_pos - out_len, out_len);
        assert(output@ =~= self.window@.subrange(final_pos - out_len, final_pos as int));
        if self.frames_read < LZX_MAX_E8_FRAMES && self.intel_filesize != 0 {
            self.undo_intel_e8(output, out_len as i32);
        }
        if self.frames_read < u32::MAX {
            self.frames_read = self.frames_read + 1;
        }
        Ok(())
    }
}

} // verus!
