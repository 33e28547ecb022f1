//! Literals and matches: the body of a compressed LZX block.

use vstd::arithmetic::power2::*;
use vstd::prelude::*;

use crate::bits::{lemma_advance, BitState, Bits};
use crate::error::LzxError;
use crate::huffman::{lemma_after, Tree};

verus! {

pub const LZX_MIN_MATCH: usize = 2;

pub const LZX_NUM_CHARS: usize = 256;

pub const LZX_NUM_PRIMARY_LENGTHS: usize = 7;

pub const LZX_MAINTREE_MAXSYMBOLS: usize = 656;

pub const LZX_MAINTREE_TABLEBITS: usize = 12;

pub const LZX_LENGTH_MAXSYMBOLS: usize = 250;

pub const LZX_LENGTH_TABLEBITS: usize = 12;

pub const LZX_ALIGNED_MAXSYMBOLS: usize = 8;

pub const LZX_ALIGNED_TABLEBITS: usize = 7;

/// Number of position slots.
pub const POSITION_SLOTS: usize = 51;

/// Number of extra bits that follow a match symbol of each position slot.
pub const EXTRA_BITS: [u8; 51] = [
    0, 0, 0, 0, 1, 1, 2, 2, 3, 3, 4, 4, 5, 5, 6, 6, 7, 7, 8, 8, 9, 9, 10, 10, 11, 11, 12, 12, 13,
    13, 14, 14, 15, 15, 16, 16, 17, 17, 17, 17, 17, 17, 17, 17, 17, 17, 17, 17, 17, 17, 17,
];

/// The lowest offset of each position slot, plus two.
pub const POSITION_BASE: [u32; 51] = [
    0, 1, 2, 3, 4, 6, 8, 12, 16, 24, 32, 48, 64, 96, 128, 192, 256, 384, 512, 768, 1_024, 1_536,
    2_048, 3_072, 4_096, 6_144, 8_192, 12_288, 16_384, 24_576, 32_768, 49_152, 65_536, 98_304,
    131_072, 196_608, 262_144, 393_216, 524_288, 655_360, 786_432, 917_504, 1_048_576, 1_179_648,
    1_310_720, 1_441_792, 1_572_864, 1_703_936, 1_835_008, 1_966_080, 2_097_152,
];

/// The three most-recently-used match offsets (LZX's R0/R1/R2 registers).
#[derive(Debug, Clone, Copy)]
pub struct Offsets {
    pub r0: u32,
    pub r1: u32,
    pub r2: u32,
}

impl Offsets {
    /// The registers at the start of a stream.
    pub open spec fn initial() -> Offsets {
        Offsets { r0: 1, r1: 1, r2: 1 }
    }

    /// The registers at the start of a stream.
    pub fn new() -> (offsets: Self)
        ensures
            offsets == Offsets::initial(),
    {
        Offsets { r0: 1, r1: 1, r2: 1 }
    }

    /// The registers after replaying the offset number `slot`, which becomes the most
    /// recent one.
    pub open spec fn replayed(self, slot: nat) -> Offsets {
        if slot == 1 {
            Offsets { r0: self.r1, r1: self.r0, r2: self.r2 }
        } else if slot == 2 {
            Offsets { r0: self.r2, r1: self.r1, r2: self.r0 }
        } else {
            self
        }
    }

    /// The registers after using a new offset.
    pub open spec fn pushed(self, offset: u32) -> Offsets {
        Offsets { r0: offset, r1: self.r0, r2: self.r1 }
    }
}

/// The Huffman trees in effect for a block. `aligned` is present only for aligned-offset
/// blocks.
pub struct BlockTrees {
    pub main: Tree,
    pub length: Tree,
    pub aligned: Option<Tree>,
}

/// The main tree that a decode table and its code lengths make up.
pub open spec fn main_tree(table: Seq<u16>, lens: Seq<u8>) -> Tree {
    Tree {
        table,
        lens,
        nbits: LZX_MAINTREE_TABLEBITS as nat,
        nsyms: LZX_MAINTREE_MAXSYMBOLS as nat,
    }
}

/// The length tree that a decode table and its code lengths make up.
pub open spec fn length_tree(table: Seq<u16>, lens: Seq<u8>) -> Tree {
    Tree {
        table,
        lens,
        nbits: LZX_LENGTH_TABLEBITS as nat,
        nsyms: LZX_LENGTH_MAXSYMBOLS as nat,
    }
}

/// The aligned-offset tree that a decode table and its code lengths make up.
pub open spec fn aligned_tree(table: Seq<u16>, lens: Seq<u8>) -> Tree {
    Tree {
        table,
        lens,
        nbits: LZX_ALIGNED_TABLEBITS as nat,
        nsyms: LZX_ALIGNED_MAXSYMBOLS as nat,
    }
}

impl BlockTrees {
    /// Every tree can be used for decoding.
    pub open spec fn wf(self) -> bool {
        &&& self.main.wf()
        &&& self.main.nsyms == LZX_MAINTREE_MAXSYMBOLS
        &&& self.length.wf()
        &&& self.length.nsyms == LZX_LENGTH_MAXSYMBOLS
        &&& self.aligned matches Some(tree) ==> tree.wf() && tree.nsyms == LZX_ALIGNED_MAXSYMBOLS
    }
}

/// Borrowed view of the Huffman tables in effect for the current block.
///
/// `aligned` is present only for aligned-offset blocks.
pub struct Trees<'a> {
    pub maintree_table: &'a [u16],
    pub maintree_len: &'a [u8],
    pub length_table: &'a [u16],
    pub length_len: &'a [u8],
    pub aligned: Option<(&'a [u16], &'a [u8])>,
}

/// The aligned-offset tree held by a pair of borrowed arrays, if any.
pub open spec fn aligned_view(aligned: Option<(&[u16], &[u8])>) -> Option<Tree> {
    match aligned {
        Some((table, lens)) => Some(aligned_tree(table@, lens@)),
        None => None,
    }
}

impl<'a> View for Trees<'a> {
    type V = BlockTrees;

    open spec fn view(&self) -> BlockTrees {
        BlockTrees {
            main: main_tree(self.maintree_table@, self.maintree_len@),
            length: length_tree(self.length_table@, self.length_len@),
            aligned: aligned_view(self.aligned),
        }
    }
}

/// An explicit match offset (`None` where the stream holds no aligned-offset code) and the
/// reader after it.
pub struct OffsetRead {
    pub b: BitState,
    pub offset: Option<u32>,
}

/// Reads the offset of a match in position slot `slot`: the base of the slot plus its
/// extra bits. In an aligned-offset block the low three of three or more extra bits are a
/// symbol of the aligned tree; otherwise all of them are plain bits.
pub open spec fn offset_read(
    src: Seq<u8>,
    b: BitState,
    slot: nat,
    aligned: Option<Tree>,
) -> OffsetRead {
    let extra = EXTRA_BITS@[slot as int] as int;
    let base = POSITION_BASE@[slot as int] - 2;
    if extra == 0 {
        OffsetRead { b, offset: Some(base as u32) }
    } else if aligned is None || extra <= 2 {
        OffsetRead {
            b: b.advance(src, extra),
            offset: Some((base + b.value(src, extra)) as u32),
        }
    } else {
        let tree = aligned.unwrap();
        let high = if extra == 3 {
            0
        } else {
            b.value(src, extra - 3) as int
        };
        let b1 = if extra == 3 {
            b
        } else {
            b.advance(src, extra - 3)
        };
        OffsetRead {
            b: tree.after(src, b1),
            offset: match tree.symbol(src, b1) {
                Some(low) => Some((base + 8 * high + low) as u32),
                None => None,
            },
        }
    }
}

/// The facts about the position slot table that decoding relies on.
proof fn lemma_slot_ranges(slot: int)
    requires
        3 <= slot < POSITION_SLOTS,
    ensures
        EXTRA_BITS@[slot] <= 17,
        3 <= POSITION_BASE@[slot] <= 0x20_0000,
{
}

/// Reads an explicit match offset for `slot` (always above 2).
///
/// Aligned-offset blocks split the low three bits into their own Huffman tree; verbatim
/// blocks read every extra bit literally.
pub fn read_match_offset(
    bits: &mut Bits,
    slot: usize,
    aligned: Option<(&[u16], &[u8])>,
) -> (r: Result<u32, LzxError>)
    requires
        old(bits).wf(),
        3 <= slot < POSITION_SLOTS,
        aligned_view(aligned) matches Some(tree) ==> tree.wf(),
    ensures
        final(bits).wf(),
        final(bits).src == old(bits).src,
        ({
            let read = offset_read(old(bits).src@, old(bits)@, slot as nat, aligned_view(aligned));
            &&& final(bits)@ == read.b
            &&& r == (match read.offset {
                Some(offset) => Ok(offset),
                None => Err(LzxError::IllegalData),
            })
        }),
{
    let extra: u32 = EXTRA_BITS[slot] as u32;
    proof {
        lemma_slot_ranges(slot as int);
        assert(forall|n: u32| 1 <= n <= 17 ==> #[trigger] (1u32 << n) <= 0x2_0000)
            by (bit_vector);
    }
    let base: u32 = POSITION_BASE[slot] - 2;
    if extra == 0 {
        return Ok(base);
    }
    match aligned {
        None => Ok(base + bits.read(extra)),
        Some((table, lens)) => {
            if extra <= 2 {
                return Ok(base + bits.read(extra));
            }
            let high: u32 = if extra == 3 {
                0
            } else {
                bits.read(extra - 3)
            };
            match bits.read_huffsym(table, lens, LZX_ALIGNED_TABLEBITS, LZX_ALIGNED_MAXSYMBOLS) {
                Ok(low) => Ok(base + 8 * high + low as u32),
                Err(e) => Err(e),
            }
        },
    }
}

/// The window after copying `len` bytes, one at a time, from `offset` bytes behind the
/// write position `wp`, taken around the end of the window.
pub open spec fn copied(window: Seq<u8>, wp: int, offset: int, len: nat) -> Seq<u8>
    decreases len,
{
    if len == 0 {
        window
    } else {
        copied(
            window.update(wp, window[(wp - offset) % (window.len() as int)]),
            wp + 1,
            offset,
            (len - 1) as nat,
        )
    }
}

/// Copying keeps the size of the window.
pub proof fn lemma_copied_len(window: Seq<u8>, wp: int, offset: int, len: nat)
    requires
        0 <= wp,
        wp + len <= window.len(),
    ensures
        copied(window, wp, offset, len).len() == window.len(),
    decreases len,
{
    if len > 0 {
        lemma_copied_len(
            window.update(wp, window[(wp - offset) % (window.len() as int)]),
            wp + 1,
            offset,
            (len - 1) as nat,
        );
    }
}

/// A match repeats what lies `offset` bytes behind it: every byte that it writes is the one
/// found there at the time, be it an old one or one that the match itself wrote before.
/// Nothing else changes.
pub proof fn lemma_copied(window: Seq<u8>, wp: int, offset: int, len: nat, i: int)
    requires
        0 <= wp,
        wp + len <= window.len(),
        1 <= offset <= window.len(),
        0 <= i < window.len(),
    ensures
        ({
            let r = copied(window, wp, offset, len);
            let from = (i - offset) % (window.len() as int);
            r[i] == if wp <= i < wp + len {
                if wp <= from < i {
                    r[from]
                } else {
                    window[from]
                }
            } else {
                window[i]
            }
        }),
    decreases len,
{
    lemma_copied_len(window, wp, offset, len);
    if len > 0 {
        let n = window.len() as int;
        let from = (i - offset) % n;
        let next = window.update(wp, window[(wp - offset) % n]);
        lemma_copied(next, wp + 1, offset, (len - 1) as nat, i);
        lemma_copied(next, wp + 1, offset, (len - 1) as nat, wp);
        vstd::arithmetic::div_mod::lemma_mod_bound(i - offset, n);
    }
}

/// The position slots follow each other without a gap: a slot with `e` extra bits covers
/// `2^e` positions.
pub proof fn lemma_slots_tile(slot: int)
    requires
        0 <= slot < POSITION_SLOTS - 1,
    ensures
        POSITION_BASE@[slot + 1] == POSITION_BASE@[slot] + pow2(EXTRA_BITS@[slot] as nat),
        EXTRA_BITS@[slot] <= 17,
{
    lemma2_to64();
}

/// Reading an offset keeps the reader well-formed.
proof fn lemma_offset_read(src: Seq<u8>, b: BitState, slot: nat, aligned: Option<Tree>)
    requires
        b.wf(src),
        3 <= slot < POSITION_SLOTS,
        aligned matches Some(tree) ==> tree.wf(),
    ensures
        offset_read(src, b, slot, aligned).b.wf(src),
{
    let extra = EXTRA_BITS@[slot as int] as int;
    lemma_slot_ranges(slot as int);
    if extra == 0 {
    } else if aligned is None || extra <= 2 {
        lemma_advance(src, b, extra);
    } else {
        let tree = aligned.unwrap();
        if extra == 3 {
            lemma_after(src, tree, b);
        } else {
            lemma_advance(src, b, extra - 3);
            lemma_after(src, tree, b.advance(src, extra - 3));
        }
    }
}

/// What decoding a run leaves behind.
pub struct Run {
    pub b: BitState,
    pub window: Seq<u8>,
    pub offsets: Offsets,
    pub result: Result<(), LzxError>,
}

/// The length of the match that the main symbol `sym` announces, and the reader after it;
/// `None` where the stream holds no length code.
pub open spec fn match_length(
    src: Seq<u8>,
    b: BitState,
    sym: nat,
    length: Tree,
) -> (Option<nat>, BitState) {
    let primary = ((sym - LZX_NUM_CHARS) % 8) as nat;
    if primary == LZX_NUM_PRIMARY_LENGTHS {
        (
            match length.symbol(src, b) {
                Some(more) => Some(primary + more + LZX_MIN_MATCH as nat),
                None => None,
            },
            length.after(src, b),
        )
    } else {
        (Some(primary + LZX_MIN_MATCH as nat), b)
    }
}

/// The offset of the match that the main symbol `sym` announces, the registers with that
/// offset made the most recent one, and the reader after it.
pub open spec fn match_offset(
    src: Seq<u8>,
    b: BitState,
    sym: nat,
    offsets: Offsets,
    aligned: Option<Tree>,
) -> (Option<u32>, Offsets, BitState) {
    let slot = ((sym - LZX_NUM_CHARS) / 8) as nat;
    if slot <= 2 {
        (Some(offsets.replayed(slot).r0), offsets.replayed(slot), b)
    } else {
        let read = offset_read(src, b, slot, aligned);
        match read.offset {
            Some(offset) => (Some(offset), offsets.pushed(offset), read.b),
            None => (None, offsets, read.b),
        }
    }
}

/// Decodes literals and matches into `window` at `wp` until `run` bytes are produced. A
/// main symbol below 256 is a literal; any other one announces a match. The last match may
/// produce more bytes than the run asks for, but none may run past the end of the window.
pub open spec fn decoded_run(
    src: Seq<u8>,
    b: BitState,
    window: Seq<u8>,
    wp: nat,
    run: nat,
    offsets: Offsets,
    trees: BlockTrees,
) -> Run
    decreases run,
{
    if run == 0 {
        Run { b, window, offsets, result: Ok(()) }
    } else {
        let b1 = trees.main.after(src, b);
        match trees.main.symbol(src, b) {
            None => Run { b: b1, window, offsets, result: Err(LzxError::IllegalData) },
            Some(sym) => {
                if sym < LZX_NUM_CHARS {
                    decoded_run(
                        src,
                        b1,
                        window.update(wp as int, sym as u8),
                        wp + 1,
                        (run - 1) as nat,
                        offsets,
                        trees,
                    )
                } else {
                    let (len, b2) = match_length(src, b1, sym, trees.length);
                    match len {
                        None => Run {
                            b: b2,
                            window,
                            offsets,
                            result: Err(LzxError::IllegalData),
                        },
                        Some(len) => {
                            let (offset, offsets1, b3) = match_offset(
                                src,
                                b2,
                                sym,
                                offsets,
                                trees.aligned,
                            );
                            if offset is None || offset == Some(0u32) || offset.unwrap()
                                > window.len() {
                                Run {
                                    b: b3,
                                    window,
                                    offsets: offsets1,
                                    result: Err(LzxError::IllegalData),
                                }
                            } else if wp + len > window.len() {
                                Run {
                                    b: b3,
                                    window,
                                    offsets: offsets1,
                                    result: Err(LzxError::DataFormat),
                                }
                            } else {
                                decoded_run(
                                    src,
                                    b3,
                                    copied(window, wp as int, offset.unwrap() as int, len),
                                    wp + len,
                                    if run > len {
                                        (run - len) as nat
                                    } else {
                                        0
                                    },
                                    offsets1,
                                    trees,
                                )
                            }
                        },
                    }
                }
            },
        }
    }
}

/// Decoding a run keeps the reader well-formed and the window at its size.
pub proof fn lemma_decoded_run(
    src: Seq<u8>,
    b: BitState,
    window: Seq<u8>,
    wp: nat,
    run: nat,
    offsets: Offsets,
    trees: BlockTrees,
)
    requires
        b.wf(src),
        trees.wf(),
        wp + run <= window.len(),
    ensures
        ({
            let r = decoded_run(src, b, window, wp, run, offsets, trees);
            &&& r.b.wf(src)
            &&& r.window.len() == window.len()
        }),
    decreases run,
{
    if run > 0 {
        let b1 = trees.main.after(src, b);
        lemma_after(src, trees.main, b);
        if let Some(sym) = trees.main.symbol(src, b) {
            if sym < LZX_NUM_CHARS {
                lemma_decoded_run(
                    src,
                    b1,
                    window.update(wp as int, sym as u8),
                    wp + 1,
                    (run - 1) as nat,
                    offsets,
                    trees,
                );
            } else {
                let (len, b2) = match_length(src, b1, sym, trees.length);
                lemma_after(src, trees.length, b1);
                if let Some(len) = len {
                    let slot = ((sym - LZX_NUM_CHARS) / 8) as nat;
                    if slot > 2 {
                        lemma_offset_read(src, b2, slot, trees.aligned);
                    }
                    let (offset, offsets1, b3) = match_offset(
                        src,
                        b2,
                        sym,
                        offsets,
                        trees.aligned,
                    );
                    if offset is None || offset == Some(0u32) || offset.unwrap() > window.len()
                        || wp + len > window.len() {
                    } else {
                        lemma_copied_len(window, wp as int, offset.unwrap() as int, len);
                        lemma_decoded_run(
                            src,
                            b3,
                            copied(window, wp as int, offset.unwrap() as int, len),
                            wp + len,
                            if run > len {
                                (run - len) as nat
                            } else {
                                0
                            },
                            offsets1,
                            trees,
                        );
                    }
                }
            }
        }
    }
}

/// Copies `len` bytes inside `window` to `wp` from `offset` bytes behind it, around the end
/// of the window.
pub fn copy_match(window: &mut [u8], wp: usize, offset: usize, len: usize)
    requires
        1 <= offset <= old(window)@.len(),
        wp + len <= old(window)@.len(),
    ensures
        final(window)@.len() == old(window)@.len(),
        final(window)@ == copied(old(window)@, wp as int, offset as int, len as nat),
{
    let ghost all = copied(window@, wp as int, offset as int, len as nat);
    assert(window.len() == window@.len());
    let mut i: usize = 0;
    while i < len
        invariant
            i <= len,
            1 <= offset <= window@.len(),
            wp + len <= window@.len() == old(window)@.len(),
            window@.len() <= usize::MAX,
            all == copied(window@, wp + i, offset as int, (len - i) as nat),
        decreases len - i,
    {
        let at: usize = wp + i;
        let from: usize = if at >= offset {
            at - offset
        } else {
            window.len() - (offset - at)
        };
        proof {
            let n = window@.len() as int;
            if at >= offset {
                vstd::arithmetic::div_mod::lemma_small_mod(from as nat, n as nat);
            } else {
                vstd::arithmetic::div_mod::lemma_fundamental_div_mod_converse(
                    at - offset,
                    n,
                    -1,
                    from as int,
                );
            }
            assert(from == (at - offset) % n);
        }
        let byte: u8 = window[from];
        window[at] = byte;
        i = i + 1;
    }
}

/// Decodes `this_run` bytes of literals and matches into `window` starting at `wp`.
pub fn decode_matches(
    bits: &mut Bits,
    window: &mut [u8],
    wp: usize,
    this_run: usize,
    offsets: &mut Offsets,
    trees: &Trees,
) -> (r: Result<(), LzxError>)
    requires
        old(bits).wf(),
        trees@.wf(),
        wp + this_run <= old(window)@.len(),
    ensures
        final(bits).wf(),
        final(bits).src == old(bits).src,
        final(window)@.len() == old(window)@.len(),
        decoded_run(
            old(bits).src@,
            old(bits)@,
            old(window)@,
            wp as nat,
            this_run as nat,
            *old(offsets),
            trees@,
        ) == (Run {
            b: final(bits)@,
            window: final(window)@,
            offsets: *final(offsets),
            result: r,
        }),
{
    let ghost src = bits.src@;
    let ghost all = decoded_run(
        src,
        bits@,
        window@,
        wp as nat,
        this_run as nat,
        *offsets,
        trees@,
    );
    let mut at: usize = wp;
    let mut togo: usize = this_run;
    while togo > 0
        invariant
            bits.wf(),
            bits.src == old(bits).src,
            src == bits.src@,
            trees@.wf(),
            at + togo <= window@.len(),
            window@.len() == old(window)@.len(),
            all == decoded_run(
                old(bits).src@,
                old(bits)@,
                old(window)@,
                wp as nat,
                this_run as nat,
                *old(offsets),
                trees@,
            ),
            all == decoded_run(
                src,
                bits@,
                window@,
                at as nat,
                togo as nat,
                *offsets,
                trees@,
            ),
        decreases togo,
    {
        let main_element: usize = match bits.read_huffsym(
            trees.maintree_table,
            trees.maintree_len,
            LZX_MAINTREE_TABLEBITS,
            LZX_MAINTREE_MAXSYMBOLS,
        ) {
            Ok(sym) => sym,
            Err(e) => {
                return Err(e);
            },
        };
        if main_element < LZX_NUM_CHARS {
            window[at] = main_element as u8;
            at = at + 1;
            togo = togo - 1;
        } else {
            // Match symbols pack a length footer and an offset slot into one element.
            let me: usize = main_element - LZX_NUM_CHARS;
            let mut len: usize = me % 8;
            if len == LZX_NUM_PRIMARY_LENGTHS {
                match bits.read_huffsym(
                    trees.length_table,
                    trees.length_len,
                    LZX_LENGTH_TABLEBITS,
                    LZX_LENGTH_MAXSYMBOLS,
                ) {
                    Ok(more) => {
                        len = len + more;
                    },
                    Err(e) => {
                        return Err(e);
                    },
                }
            }
            len = len + LZX_MIN_MATCH;
            let slot: usize = me / 8;
            if slot == 1 {
                // Slots 0-2 replay a recently used offset, promoting it to most recent.
                let r: u32 = offsets.r0;
                offsets.r0 = offsets.r1;
                offsets.r1 = r;
            } else if slot == 2 {
                let r: u32 = offsets.r0;
                offsets.r0 = offsets.r2;
                offsets.r2 = r;
            } else if slot > 2 {
                match read_match_offset(bits, slot, trees.aligned) {
                    Ok(offset) => {
                        offsets.r2 = offsets.r1;
                        offsets.r1 = offsets.r0;
                        offsets.r0 = offset;
                    },
                    Err(e) => {
                        return Err(e);
                    },
                }
            }
            let offset: usize = offsets.r0 as usize;
            if offset == 0 || offset > window.len() {
                return Err(LzxError::IllegalData);
            }
            // A match may not run past the end of the window.
            if len > window.len() - at {
                return Err(LzxError::DataFormat);
            }
            copy_match(window, at, offset, len);
            at = at + len;
            togo = if togo > len {
                togo - len
            } else {
                0
            };
        }
    }
    Ok(())
}

} // verus!
