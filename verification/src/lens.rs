//! Transmission of the code lengths of an LZX tree.
//!
//! The lengths of a tree are sent as differences from the lengths that the tree had in the
//! previous block, run-length coded, through a small tree of their own (the pretree) that
//! precedes them.

use vstd::arithmetic::power2::*;
use vstd::prelude::*;

use crate::bits::{lemma_advance, BitState, Bits};
use crate::error::LzxError;
use crate::huffman::{
    bounded_to, built_table, coded, fill_range, filled, lemma_after, lemma_built_shape,
    lens_bounded, make_decode_table, table_fits, Tree,
};

verus! {

pub const LZX_PRETREE_NUM_ELEMENTS: usize = 20;

pub const LZX_PRETREE_MAXSYMBOLS: usize = LZX_PRETREE_NUM_ELEMENTS;

pub const LZX_PRETREE_TABLEBITS: usize = 6;

/// Unused elements behind the code lengths of every tree.
pub const LZX_LENTABLE_SAFETY: usize = 64;

/// Number of elements of the pretree's code length array.
pub const PRETREE_LENS: usize = LZX_PRETREE_MAXSYMBOLS + LZX_LENTABLE_SAFETY;

/// Number of entries of the pretree's decode table: `2^LZX_PRETREE_TABLEBITS` direct ones
/// and two per symbol.
pub const PRETREE_TABLE_SIZE: usize = 64 + LZX_PRETREE_MAXSYMBOLS * 2;

/// A code length table together with the reader after filling it.
pub struct Fields {
    pub b: BitState,
    pub lens: Seq<u8>,
}

/// Reads a `width`-bit number into each of the elements `i..count` of `lens`.
pub open spec fn fields(
    src: Seq<u8>,
    b: BitState,
    lens: Seq<u8>,
    i: nat,
    count: nat,
    width: nat,
) -> Fields
    decreases count - i,
{
    if i >= count {
        Fields { b, lens }
    } else {
        fields(
            src,
            b.advance(src, width as int),
            lens.update(i as int, b.value(src, width as int) as u8),
            i + 1,
            count,
            width,
        )
    }
}

/// Reads a `width`-bit number into each of the first `count` elements of `lens`.
pub fn read_fields(bits: &mut Bits, lens: &mut [u8], count: usize, width: u32)
    requires
        old(bits).wf(),
        1 <= width <= 4,
        count <= old(lens)@.len(),
    ensures
        final(bits).wf(),
        final(bits).src == old(bits).src,
        final(lens)@.len() == old(lens)@.len(),
        bounded_to(final(lens)@, count as nat),
        lens_bounded(old(lens)@) ==> lens_bounded(final(lens)@),
        fields(old(bits).src@, old(bits)@, old(lens)@, 0, count as nat, width as nat) == (Fields {
            b: final(bits)@,
            lens: final(lens)@,
        }),
{
    let ghost src = bits.src@;
    let ghost all = fields(src, bits@, lens@, 0, count as nat, width as nat);
    let mut i: usize = 0;
    while i < count
        invariant
            i <= count <= lens@.len(),
            1 <= width <= 4,
            bits.wf(),
            bits.src == old(bits).src,
            src == bits.src@,
            lens@.len() == old(lens)@.len(),
            bounded_to(lens@, i as nat),
            lens_bounded(old(lens)@) ==> lens_bounded(lens@),
            all == fields(src, bits@, lens@, i as nat, count as nat, width as nat),
        decreases count - i,
    {
        let v: u32 = bits.read(width);
        assert(1 <= width <= 4 ==> (1u32 << width) <= 16) by (bit_vector);
        lens[i] = v as u8;
        i = i + 1;
    }
}

/// The length `len` lowered by `by`, modulo 17.
pub open spec fn lowered(len: u8, by: nat) -> u8 {
    ((len as int - by as int) % 17) as u8
}

/// The smaller of two numbers.
pub open spec fn least(a: int, b: int) -> int {
    if a <= b {
        a
    } else {
        b
    }
}

/// The outcome of reading code lengths.
pub struct Deltas {
    pub b: BitState,
    pub lens: Seq<u8>,
    pub ok: bool,
}

/// Reads the code lengths `x..last` through the pretree `tree`. The symbols 17 and 18 zero
/// a run of lengths, 19 lowers one length and copies the result over a run, and any other
/// symbol lowers one length by its own value. A run stops at `last`. Fails where the stream
/// holds no pretree code.
pub open spec fn deltas(
    src: Seq<u8>,
    tree: Tree,
    b: BitState,
    lens: Seq<u8>,
    x: nat,
    last: nat,
) -> Deltas
    decreases last - x,
{
    if x >= last {
        Deltas { b, lens, ok: true }
    } else {
        let b1 = tree.after(src, b);
        match tree.symbol(src, b) {
            None => Deltas { b: b1, lens, ok: false },
            Some(z) => {
                if z == 17 {
                    let end = least(x + b1.value(src, 4) + 4, last as int);
                    deltas(
                        src,
                        tree,
                        b1.advance(src, 4),
                        filled(lens, x as int, end, 0u8),
                        end as nat,
                        last,
                    )
                } else if z == 18 {
                    let end = least(x + b1.value(src, 5) + 20, last as int);
                    deltas(
                        src,
                        tree,
                        b1.advance(src, 5),
                        filled(lens, x as int, end, 0u8),
                        end as nat,
                        last,
                    )
                } else if z == 19 {
                    let end = least(x + b1.value(src, 1) + 4, last as int);
                    let b2 = b1.advance(src, 1);
                    let b3 = tree.after(src, b2);
                    match tree.symbol(src, b2) {
                        None => Deltas { b: b3, lens, ok: false },
                        Some(sym) => deltas(
                            src,
                            tree,
                            b3,
                            filled(lens, x as int, end, lowered(lens[x as int], sym)),
                            end as nat,
                            last,
                        ),
                    }
                } else {
                    deltas(
                        src,
                        tree,
                        b1,
                        lens.update(x as int, lowered(lens[x as int], z)),
                        x + 1,
                        last,
                    )
                }
            },
        }
    }
}

/// The pretree that a code length table and a decode table make up.
pub open spec fn pretree(lens: Seq<u8>, table: Seq<u16>) -> Tree {
    Tree {
        table,
        lens,
        nbits: LZX_PRETREE_TABLEBITS as nat,
        nsyms: LZX_PRETREE_MAXSYMBOLS as nat,
    }
}

/// The pretree arrays have room for the elements that are read and for the direct entries.
pub open spec fn pretree_fits(lens: Seq<u8>, table: Seq<u16>) -> bool {
    &&& lens.len() >= LZX_PRETREE_NUM_ELEMENTS
    &&& table_fits(table, LZX_PRETREE_TABLEBITS as int)
}

/// What `read_lens` leaves behind.
pub struct LensRead {
    pub b: BitState,
    pub pretree_len: Seq<u8>,
    pub pretree_table: Seq<u16>,
    pub lens: Seq<u8>,
    pub ok: bool,
}

/// Reads a pretree (twenty 4-bit code lengths) and then the lengths `first..last` of
/// `lens` through it.
pub open spec fn lens_read(
    src: Seq<u8>,
    b: BitState,
    pretree_len: Seq<u8>,
    pretree_table: Seq<u16>,
    lens: Seq<u8>,
    first: nat,
    last: nat,
) -> LensRead {
    let head = fields(src, b, pretree_len, 0, LZX_PRETREE_NUM_ELEMENTS as nat, 4);
    let built = built_table(
        coded(head.lens, LZX_PRETREE_MAXSYMBOLS as int),
        LZX_PRETREE_TABLEBITS as nat,
        pretree_table,
    );
    if !built.1 {
        LensRead {
            b: head.b,
            pretree_len: head.lens,
            pretree_table: built.0,
            lens,
            ok: false,
        }
    } else {
        let body = deltas(src, pretree(head.lens, built.0), head.b, lens, first, last);
        LensRead {
            b: body.b,
            pretree_len: head.lens,
            pretree_table: built.0,
            lens: body.lens,
            ok: body.ok,
        }
    }
}

/// Reading fields keeps the reader and the lengths in shape.
pub proof fn lemma_fields(
    src: Seq<u8>,
    b: BitState,
    lens: Seq<u8>,
    i: nat,
    count: nat,
    width: nat,
)
    requires
        b.wf(src),
        bounded_to(lens, i),
        i <= count <= lens.len(),
        1 <= width <= 4,
    ensures
        ({
            let r = fields(src, b, lens, i, count, width);
            &&& r.b.wf(src)
            &&& r.b.progress(src) <= b.progress(src)
            &&& r.lens.len() == lens.len()
            &&& bounded_to(r.lens, count)
            &&& lens_bounded(lens) ==> lens_bounded(r.lens)
        }),
    decreases count - i,
{
    if i < count {
        lemma_advance(src, b, width as int);
        let w = width as u32;
        assert(1 <= w <= 4 ==> (1u32 << w) <= 16) by (bit_vector);
        let v = b.value(src, width as int) as u8;
        assert(v <= 16);
        lemma_fields(
            src,
            b.advance(src, width as int),
            lens.update(i as int, v),
            i + 1,
            count,
            width,
        );
    }
}

/// Once the input is used up, reading at least two fields after 27 more bits of the buffer
/// leaves nothing but zero bits.
pub proof fn lemma_fields_drain(
    src: Seq<u8>,
    b: BitState,
    lens: Seq<u8>,
    count: nat,
    width: nat,
    before: u32,
)
    requires
        b.wf(src),
        3 <= width <= 4,
        2 <= count <= lens.len(),
        b.pos >= src.len(),
        b.buf == ((before << 3) << 16) << 8,
    ensures
        fields(src, b, lens, 0, count, width).b.progress(src) == 0,
{
    lemma_advance(src, b, width as int);
    let w = width as u32;
    let b1 = b.advance(src, width as int);
    lemma_advance(src, b1, width as int);
    let b2 = b1.advance(src, width as int);
    assert((3 <= w <= 4) ==> ((((((before << 3) << 16) << 8) << w) << w) == 0)) by (bit_vector);
    assert(b2.progress(src) == 0);
    assert(1 <= w <= 4 ==> (1u32 << w) <= 16) by (bit_vector);
    let lens1 = lens.update(0, b.value(src, width as int) as u8);
    let lens2 = lens1.update(1, b1.value(src, width as int) as u8);
    lemma_fields(src, b2, lens2, 2, count, width);
    reveal_with_fuel(fields, 3);
}

/// Reading code lengths keeps the reader and the lengths in shape.
pub proof fn lemma_deltas(
    src: Seq<u8>,
    tree: Tree,
    b: BitState,
    lens: Seq<u8>,
    x: nat,
    last: nat,
)
    requires
        b.wf(src),
        tree.wf(),
        last <= lens.len(),
    ensures
        ({
            let r = deltas(src, tree, b, lens, x, last);
            &&& r.b.wf(src)
            &&& r.b.progress(src) <= b.progress(src)
            &&& r.lens.len() == lens.len()
            &&& lens_bounded(lens) ==> lens_bounded(r.lens)
        }),
    decreases last - x,
{
    if x < last {
        let b1 = tree.after(src, b);
        lemma_after(src, tree, b);
        if let Some(z) = tree.symbol(src, b) {
            if z == 17 {
                let end = least(x + b1.value(src, 4) + 4, last as int);
                lemma_advance(src, b1, 4);
                lemma_deltas(
                    src,
                    tree,
                    b1.advance(src, 4),
                    filled(lens, x as int, end, 0u8),
                    end as nat,
                    last,
                );
            } else if z == 18 {
                let end = least(x + b1.value(src, 5) + 20, last as int);
                lemma_advance(src, b1, 5);
                lemma_deltas(
                    src,
                    tree,
                    b1.advance(src, 5),
                    filled(lens, x as int, end, 0u8),
                    end as nat,
                    last,
                );
            } else if z == 19 {
                let end = least(x + b1.value(src, 1) + 4, last as int);
                let b2 = b1.advance(src, 1);
                lemma_advance(src, b1, 1);
                lemma_after(src, tree, b2);
                if let Some(sym) = tree.symbol(src, b2) {
                    lemma_deltas(
                        src,
                        tree,
                        tree.after(src, b2),
                        filled(lens, x as int, end, lowered(lens[x as int], sym)),
                        end as nat,
                        last,
                    );
                }
            } else {
                lemma_deltas(
                    src,
                    tree,
                    b1,
                    lens.update(x as int, lowered(lens[x as int], z)),
                    x + 1,
                    last,
                );
            }
        }
    }
}

/// Reading a pretree and code lengths keeps the reader and the arrays in shape.
pub proof fn lemma_lens_read(
    src: Seq<u8>,
    b: BitState,
    pretree_len: Seq<u8>,
    pretree_table: Seq<u16>,
    lens: Seq<u8>,
    first: nat,
    last: nat,
)
    requires
        b.wf(src),
        pretree_fits(pretree_len, pretree_table),
        last <= lens.len(),
    ensures
        ({
            let r = lens_read(src, b, pretree_len, pretree_table, lens, first, last);
            let head = fields(src, b, pretree_len, 0, LZX_PRETREE_NUM_ELEMENTS as nat, 4);
            &&& r.b.wf(src)
            &&& r.b.progress(src) <= head.b.progress(src) <= b.progress(src)
            &&& r.pretree_len.len() == pretree_len.len()
            &&& r.pretree_table.len() == pretree_table.len()
            &&& lens_bounded(pretree_len) ==> lens_bounded(r.pretree_len)
            &&& r.lens.len() == lens.len()
            &&& lens_bounded(lens) ==> lens_bounded(r.lens)
        }),
{
    lemma2_to64();
    let head = fields(src, b, pretree_len, 0, LZX_PRETREE_NUM_ELEMENTS as nat, 4);
    lemma_fields(src, b, pretree_len, 0, LZX_PRETREE_NUM_ELEMENTS as nat, 4);
    let sent = coded(head.lens, LZX_PRETREE_MAXSYMBOLS as int);
    lemma_built_shape(sent, LZX_PRETREE_TABLEBITS as nat, pretree_table);
    let built = built_table(sent, LZX_PRETREE_TABLEBITS as nat, pretree_table);
    if built.1 {
        lemma_deltas(src, pretree(head.lens, built.0), head.b, lens, first, last);
    }
}

/// Reading the code lengths `x..last` leaves the others as they were.
proof fn lemma_deltas_keep(
    src: Seq<u8>,
    tree: Tree,
    b: BitState,
    lens: Seq<u8>,
    x: nat,
    last: nat,
)
    requires
        last <= lens.len(),
    ensures
        ({
            let r = deltas(src, tree, b, lens, x, last).lens;
            &&& r.len() == lens.len()
            &&& forall|i: int|
                0 <= i < lens.len() && !(x <= i < last) ==> #[trigger] r[i] == lens[i]
        }),
    decreases last - x,
{
    if x < last {
        let b1 = tree.after(src, b);
        if let Some(z) = tree.symbol(src, b) {
            if z == 17 {
                let end = least(x + b1.value(src, 4) + 4, last as int);
                let filled1 = filled(lens, x as int, end, 0u8);
                lemma_deltas_keep(src, tree, b1.advance(src, 4), filled1, end as nat, last);
            } else if z == 18 {
                let end = least(x + b1.value(src, 5) + 20, last as int);
                let filled1 = filled(lens, x as int, end, 0u8);
                lemma_deltas_keep(src, tree, b1.advance(src, 5), filled1, end as nat, last);
            } else if z == 19 {
                let end = least(x + b1.value(src, 1) + 4, last as int);
                let b2 = b1.advance(src, 1);
                if let Some(sym) = tree.symbol(src, b2) {
                    let filled1 = filled(lens, x as int, end, lowered(lens[x as int], sym));
                    lemma_deltas_keep(src, tree, tree.after(src, b2), filled1, end as nat, last);
                }
            } else {
                let lens1 = lens.update(x as int, lowered(lens[x as int], z));
                lemma_deltas_keep(src, tree, b1, lens1, x + 1, last);
            }
        }
    }
}

/// Reading the code lengths `first..last` of a tree leaves the others as they were.
pub proof fn lemma_lens_read_keeps(
    src: Seq<u8>,
    b: BitState,
    pretree_len: Seq<u8>,
    pretree_table: Seq<u16>,
    lens: Seq<u8>,
    first: nat,
    last: nat,
)
    requires
        last <= lens.len(),
    ensures
        ({
            let r = lens_read(src, b, pretree_len, pretree_table, lens, first, last).lens;
            &&& r.len() == lens.len()
            &&& forall|i: int|
                0 <= i < lens.len() && !(first <= i < last) ==> #[trigger] r[i] == lens[i]
        }),
{
    let head = fields(src, b, pretree_len, 0, LZX_PRETREE_NUM_ELEMENTS as nat, 4);
    let built = built_table(
        coded(head.lens, LZX_PRETREE_MAXSYMBOLS as int),
        LZX_PRETREE_TABLEBITS as nat,
        pretree_table,
    );
    if built.1 {
        lemma_deltas_keep(src, pretree(head.lens, built.0), head.b, lens, first, last);
    }
}

/// Lowers the length `len` by `by`, modulo 17.
fn lower(len: u8, by: usize) -> (r: u8)
    requires
        by < 20,
    ensures
        r == lowered(len, by as nat),
        r <= 16,
{
    ((len as u32 + 34 - by as u32) % 17) as u8
}

/// Reads the code lengths `first..last` of a tree, each coded against the length that the
/// element already holds.
pub fn read_lens(
    bits: &mut Bits,
    pretree_len: &mut Vec<u8>,
    pretree_table: &mut Vec<u16>,
    lens: &mut Vec<u8>,
    first: usize,
    last: usize,
) -> (r: Result<(), LzxError>)
    requires
        old(bits).wf(),
        pretree_fits(old(pretree_len)@, old(pretree_table)@),
        first <= last <= old(lens)@.len(),
    ensures
        final(bits).wf(),
        final(bits).src == old(bits).src,
        final(pretree_len)@.len() == old(pretree_len)@.len(),
        final(pretree_table)@.len() == old(pretree_table)@.len(),
        lens_bounded(old(pretree_len)@) ==> lens_bounded(final(pretree_len)@),
        final(lens)@.len() == old(lens)@.len(),
        lens_bounded(old(lens)@) ==> lens_bounded(final(lens)@),
        ({
            let read = lens_read(
                old(bits).src@,
                old(bits)@,
                old(pretree_len)@,
                old(pretree_table)@,
                old(lens)@,
                first as nat,
                last as nat,
            );
            &&& final(bits)@ == read.b
            &&& final(pretree_len)@ == read.pretree_len
            &&& final(pretree_table)@ == read.pretree_table
            &&& final(lens)@ == read.lens
            &&& r == (if read.ok {
                Ok(())
            } else {
                Err(LzxError::IllegalData)
            })
        }),
{
    let ghost src = bits.src@;
    proof {
        lemma2_to64();
    }
    read_fields(bits, pretree_len.as_mut_slice(), LZX_PRETREE_NUM_ELEMENTS, 4);
    match make_decode_table(
        LZX_PRETREE_MAXSYMBOLS,
        LZX_PRETREE_TABLEBITS,
        pretree_len.as_slice(),
        pretree_table.as_mut_slice(),
    ) {
        Ok(()) => {},
        Err(e) => {
            return Err(e);
        },
    }
    let ghost tree = pretree(pretree_len@, pretree_table@);
    let ghost all = deltas(src, tree, bits@, lens@, first as nat, last as nat);
    let mut x: usize = first;
    while x < last
        invariant
            first <= x <= last <= lens@.len(),
            bits.wf(),
            bits.src == old(bits).src,
            src == bits.src@,
            tree.wf(),
            tree == pretree(pretree_len@, pretree_table@),
            pretree_len@.len() == old(pretree_len)@.len(),
            pretree_table@.len() == old(pretree_table)@.len(),
            lens_bounded(old(pretree_len)@) ==> lens_bounded(pretree_len@),
            lens@.len() == old(lens)@.len(),
            lens_bounded(old(lens)@) ==> lens_bounded(lens@),
            all == deltas(src, tree, bits@, lens@, x as nat, last as nat),
            lens_read(
                old(bits).src@,
                old(bits)@,
                old(pretree_len)@,
                old(pretree_table)@,
                old(lens)@,
                first as nat,
                last as nat,
            ) == (LensRead {
                b: all.b,
                pretree_len: pretree_len@,
                pretree_table: pretree_table@,
                lens: all.lens,
                ok: all.ok,
            }),
        decreases last - x,
    {
        // Symbols 17-19 are run-length escapes; anything else is a delta against the
        // length this slot already holds from the previous block.
        let z: usize = match bits.read_huffsym(
            pretree_table.as_slice(),
            pretree_len.as_slice(),
            LZX_PRETREE_TABLEBITS,
            LZX_PRETREE_MAXSYMBOLS,
        ) {
            Ok(z) => z,
            Err(e) => {
                return Err(e);
            },
        };
        assert((1u32 << 4u32) == 16 && (1u32 << 5u32) == 32 && (1u32 << 1u32) == 2)
            by (bit_vector);
        if z == 17 || z == 18 {
            let run: usize = if z == 17 {
                bits.read(4) as usize + 4
            } else {
                bits.read(5) as usize + 20
            };
            let end: usize = if run < last - x {
                x + run
            } else {
                last
            };
            fill_range(lens.as_mut_slice(), x, end, 0);
            x = end;
        } else if z == 19 {
            let run: usize = bits.read(1) as usize + 4;
            let sym: usize = match bits.read_huffsym(
                pretree_table.as_slice(),
                pretree_len.as_slice(),
                LZX_PRETREE_TABLEBITS,
                LZX_PRETREE_MAXSYMBOLS,
            ) {
                Ok(sym) => sym,
                Err(e) => {
                    return Err(e);
                },
            };
            let val: u8 = lower(lens[x], sym);
            let end: usize = if run < last - x {
                x + run
            } else {
                last
            };
            fill_range(lens.as_mut_slice(), x, end, val);
            x = end;
        } else {
            let val: u8 = lower(lens[x], z);
            lens.set(x, val);
            x = x + 1;
        }
    }
    Ok(())
}

} // verus!
