//! Streams that keep to what they have produced since a reset, and why what the decoder held
//! before the reset does not show in them.

use vstd::arithmetic::div_mod::{lemma_mod_bound, lemma_small_mod};
use vstd::arithmetic::power2::{lemma2_to64, pow2};
use vstd::prelude::*;

use crate::acceptance::lemma_accepted_exactly;
use crate::bits::{lemma_advance, BitState};
use crate::canonical::lemma_lookup_by_lengths;
use crate::code_tree::first_node;
use crate::decompress::{lemma_next_in_window, Section};
use crate::error::LzxError;
use crate::huffman::{
    built_table, coded, filled, lemma_built_shape, lemma_walk_below, table_fits, Tree,
};
use crate::lens::{
    deltas, fields, least, lemma_fields, lemma_lens_read, lens_read, lowered, pretree,
    LZX_PRETREE_NUM_ELEMENTS, LZX_PRETREE_TABLEBITS, PRETREE_LENS, PRETREE_TABLE_SIZE,
};
use crate::lzx::{
    lemma_block_started, lemma_empty_run, lemma_frame, lemma_run_decoded, lemma_type_bits,
    LzxModel, BLOCKTYPE_ALIGNED, BLOCKTYPE_INVALID, BLOCKTYPE_UNCOMPRESSED, BLOCKTYPE_VERBATIM,
    LZX_ALIGNED_NUM_ELEMENTS, LZX_NUM_SECONDARY_LENGTHS,
};
use crate::matches::{
    aligned_tree, copied, decoded_run, lemma_copied_len, match_length, match_offset, BlockTrees,
    Offsets, LZX_ALIGNED_TABLEBITS, LZX_LENGTH_MAXSYMBOLS, LZX_LENGTH_TABLEBITS,
    LZX_MAINTREE_MAXSYMBOLS, LZX_MAINTREE_TABLEBITS, LZX_NUM_CHARS,
};
use crate::random_access::lemma_window_start_ordered;

verus! {

/// Two trees that read every stream alike.
pub open spec fn reads_alike(t1: Tree, t2: Tree) -> bool {
    forall|src: Seq<u8>, b: BitState|
        #![trigger t1.symbol(src, b)]
        #![trigger t1.after(src, b)]
        t1.symbol(src, b) == t2.symbol(src, b) && t1.after(src, b) == t2.after(src, b)
}

/// Trees that are built from the same code lengths read alike, whatever their tables held
/// before, and can be built from the same lengths.
proof fn lemma_built_alike(
    lens1: Seq<u8>,
    lens2: Seq<u8>,
    n: nat,
    nb: nat,
    table1: Seq<u16>,
    table2: Seq<u16>,
)
    requires
        1 <= n <= lens1.len(),
        lens1.len() == lens2.len(),
        forall|k: int| 0 <= k < n ==> lens1[k] == lens2[k],
        table_fits(table1, nb as int),
        table_fits(table2, nb as int),
        n <= first_node(nb),
        pow2(nb) + 2 * n <= table1.len(),
        pow2(nb) + 2 * n <= table2.len(),
    ensures
        ({
            let built1 = built_table(coded(lens1, n as int), nb, table1);
            let built2 = built_table(coded(lens2, n as int), nb, table2);
            &&& built1.1 == built2.1
            &&& built1.1 ==> reads_alike(
                Tree { table: built1.0, lens: lens1, nbits: nb, nsyms: n },
                Tree { table: built2.0, lens: lens2, nbits: nb, nsyms: n },
            )
        }),
{
    let c = coded(lens1, n as int);
    assert(c =~= coded(lens2, n as int));
    assert(c.len() == n);
    lemma_accepted_exactly(c, nb, table1);
    lemma_accepted_exactly(c, nb, table2);
    let built1 = built_table(c, nb, table1);
    let built2 = built_table(c, nb, table2);
    if built1.1 {
        let t1 = Tree { table: built1.0, lens: lens1, nbits: nb, nsyms: n };
        let t2 = Tree { table: built2.0, lens: lens2, nbits: nb, nsyms: n };
        assert forall|src: Seq<u8>, b: BitState|
            #![trigger t1.symbol(src, b)]
            #![trigger t1.after(src, b)]
            t1.symbol(src, b) == t2.symbol(src, b) && t1.after(src, b) == t2.after(src, b) by {
            let buf = b.fetch(src, 16).buf;
            lemma_lookup_by_lengths(c, nb, table1, table2, buf);
            lemma_walk_below(
                built1.0,
                n,
                built1.0[(buf >> ((32 - nb) as u32)) as int] as nat,
                buf,
                nb,
            );
        }
    }
}

/// The fields that are read do not depend on what the array held.
proof fn lemma_fields_alike(
    src: Seq<u8>,
    b: BitState,
    lens1: Seq<u8>,
    lens2: Seq<u8>,
    i: nat,
    count: nat,
    width: nat,
)
    requires
        i <= count <= lens1.len(),
        lens1.len() == lens2.len(),
        forall|k: int| 0 <= k < i ==> lens1[k] == lens2[k],
    ensures
        ({
            let r1 = fields(src, b, lens1, i, count, width);
            let r2 = fields(src, b, lens2, i, count, width);
            &&& r1.b == r2.b
            &&& r1.lens.len() == r2.lens.len() == lens1.len()
            &&& forall|k: int| 0 <= k < count ==> r1.lens[k] == r2.lens[k]
        }),
    decreases count - i,
{
    if i < count {
        let v = b.value(src, width as int) as u8;
        lemma_fields_alike(
            src,
            b.advance(src, width as int),
            lens1.update(i as int, v),
            lens2.update(i as int, v),
            i + 1,
            count,
            width,
        );
    }
}

/// Trees that read alike give the same code lengths.
proof fn lemma_deltas_alike(
    src: Seq<u8>,
    t1: Tree,
    t2: Tree,
    b: BitState,
    lens: Seq<u8>,
    x: nat,
    last: nat,
)
    requires
        reads_alike(t1, t2),
    ensures
        deltas(src, t1, b, lens, x, last) == deltas(src, t2, b, lens, x, last),
    decreases last - x,
{
    if x < last {
        let b1 = t1.after(src, b);
        if let Some(z) = t1.symbol(src, b) {
            if z == 17 {
                let end = least(x + b1.value(src, 4) + 4, last as int);
                lemma_deltas_alike(
                    src,
                    t1,
                    t2,
                    b1.advance(src, 4),
                    filled(lens, x as int, end, 0u8),
                    end as nat,
                    last,
                );
            } else if z == 18 {
                let end = least(x + b1.value(src, 5) + 20, last as int);
                lemma_deltas_alike(
                    src,
                    t1,
                    t2,
                    b1.advance(src, 5),
                    filled(lens, x as int, end, 0u8),
                    end as nat,
                    last,
                );
            } else if z == 19 {
                let end = least(x + b1.value(src, 1) + 4, last as int);
                let b2 = b1.advance(src, 1);
                if let Some(sym) = t1.symbol(src, b2) {
                    lemma_deltas_alike(
                        src,
                        t1,
                        t2,
                        t1.after(src, b2),
                        filled(lens, x as int, end, lowered(lens[x as int], sym)),
                        end as nat,
                        last,
                    );
                }
            } else {
                lemma_deltas_alike(
                    src,
                    t1,
                    t2,
                    b1,
                    lens.update(x as int, lowered(lens[x as int], z)),
                    x + 1,
                    last,
                );
            }
        }
    }
}

/// The code lengths that are read do not depend on the pretree that was held before.
proof fn lemma_lens_read_alike(
    src: Seq<u8>,
    b: BitState,
    pretree1: (Seq<u8>, Seq<u16>),
    pretree2: (Seq<u8>, Seq<u16>),
    lens: Seq<u8>,
    first: nat,
    last: nat,
)
    requires
        b.wf(src),
        pretree1.0.len() == pretree2.0.len() == PRETREE_LENS,
        pretree1.1.len() == pretree2.1.len() == PRETREE_TABLE_SIZE,
    ensures
        ({
            let r1 = lens_read(src, b, pretree1.0, pretree1.1, lens, first, last);
            let r2 = lens_read(src, b, pretree2.0, pretree2.1, lens, first, last);
            &&& r1.b == r2.b
            &&& r1.lens == r2.lens
            &&& r1.ok == r2.ok
        }),
{
    lemma2_to64();
    let n = LZX_PRETREE_NUM_ELEMENTS as nat;
    let nb = LZX_PRETREE_TABLEBITS as nat;
    lemma_fields_alike(src, b, pretree1.0, pretree2.0, 0, n, 4);
    let head1 = fields(src, b, pretree1.0, 0, n, 4);
    let head2 = fields(src, b, pretree2.0, 0, n, 4);
    lemma_built_alike(head1.lens, head2.lens, n, nb, pretree1.1, pretree2.1);
    let built1 = built_table(coded(head1.lens, n as int), nb, pretree1.1);
    let built2 = built_table(coded(head2.lens, n as int), nb, pretree2.1);
    if built1.1 {
        lemma_deltas_alike(
            src,
            pretree(head1.lens, built1.0),
            pretree(head2.lens, built2.0),
            head1.b,
            lens,
            first,
            last,
        );
    }
}

/// Two states with the same code lengths, between which trees are read alike.
pub open spec fn lengths_alike(m1: LzxModel, m2: LzxModel) -> bool {
    &&& m1.wf()
    &&& m2.wf()
    &&& m1.main_elements == m2.main_elements
    &&& m1.maintree_len == m2.maintree_len
    &&& m1.length_len == m2.length_len
    &&& m1.intel_started == m2.intel_started
}

/// Nothing but the main and length trees differs between the two states.
pub open spec fn but_for_trees(m: LzxModel, r: LzxModel) -> bool {
    &&& r.window == m.window
    &&& r.window_posn == m.window_posn
    &&& r.offsets == m.offsets
    &&& r.main_elements == m.main_elements
    &&& r.header_read == m.header_read
    &&& r.block_type == m.block_type
    &&& r.block_length == m.block_length
    &&& r.block_remaining == m.block_remaining
    &&& r.frames_read == m.frames_read
    &&& r.intel_filesize == m.intel_filesize
    &&& r.intel_curpos == m.intel_curpos
    &&& r.aligned_len == m.aligned_len
    &&& r.aligned_table == m.aligned_table
}

proof fn lemma_main_lens_alike(
    m1: LzxModel,
    m2: LzxModel,
    src: Seq<u8>,
    b: BitState,
    first: nat,
    last: nat,
)
    requires
        lengths_alike(m1, m2),
        b.wf(src),
        last <= LZX_MAINTREE_MAXSYMBOLS,
    ensures
        ({
            let s1 = m1.main_lens(src, b, first, last);
            let s2 = m2.main_lens(src, b, first, last);
            &&& s1.b == s2.b
            &&& s1.b.wf(src)
            &&& s1.result == s2.result
            &&& lengths_alike(s1.m, s2.m)
            &&& but_for_trees(m1, s1.m)
            &&& but_for_trees(m2, s2.m)
        }),
{
    lemma2_to64();
    lemma_lens_read(src, b, m1.pretree_len, m1.pretree_table, m1.maintree_len, first, last);
    lemma_lens_read(src, b, m2.pretree_len, m2.pretree_table, m2.maintree_len, first, last);
    lemma_lens_read_alike(
        src,
        b,
        (m1.pretree_len, m1.pretree_table),
        (m2.pretree_len, m2.pretree_table),
        m1.maintree_len,
        first,
        last,
    );
}

proof fn lemma_length_lens_alike(m1: LzxModel, m2: LzxModel, src: Seq<u8>, b: BitState)
    requires
        lengths_alike(m1, m2),
        b.wf(src),
    ensures
        ({
            let s1 = m1.length_lens(src, b);
            let s2 = m2.length_lens(src, b);
            &&& s1.b == s2.b
            &&& s1.b.wf(src)
            &&& s1.result == s2.result
            &&& lengths_alike(s1.m, s2.m)
            &&& but_for_trees(m1, s1.m)
            &&& but_for_trees(m2, s2.m)
            &&& s1.m.maintree_table == m1.maintree_table
            &&& s2.m.maintree_table == m2.maintree_table
            &&& s1.m.maintree_len == m1.maintree_len
            &&& s2.m.maintree_len == m2.maintree_len
        }),
{
    let last = LZX_NUM_SECONDARY_LENGTHS as nat;
    lemma2_to64();
    lemma_lens_read(src, b, m1.pretree_len, m1.pretree_table, m1.length_len, 0, last);
    lemma_lens_read(src, b, m2.pretree_len, m2.pretree_table, m2.length_len, 0, last);
    lemma_lens_read_alike(
        src,
        b,
        (m1.pretree_len, m1.pretree_table),
        (m2.pretree_len, m2.pretree_table),
        m1.length_len,
        0,
        last,
    );
}

proof fn lemma_main_built_alike(m1: LzxModel, m2: LzxModel)
    requires
        lengths_alike(m1, m2),
    ensures
        ({
            let (r1, ok1) = m1.main_built();
            let (r2, ok2) = m2.main_built();
            &&& ok1 == ok2
            &&& lengths_alike(r1, r2)
            &&& but_for_trees(m1, r1)
            &&& but_for_trees(m2, r2)
            &&& ok1 ==> reads_alike(r1.trees().main, r2.trees().main)
        }),
{
    lemma2_to64();
    let n = LZX_MAINTREE_MAXSYMBOLS as nat;
    let nb = LZX_MAINTREE_TABLEBITS as nat;
    lemma_built_shape(coded(m1.maintree_len, n as int), nb, m1.maintree_table);
    lemma_built_shape(coded(m2.maintree_len, n as int), nb, m2.maintree_table);
    lemma_built_alike(
        m1.maintree_len,
        m2.maintree_len,
        n,
        nb,
        m1.maintree_table,
        m2.maintree_table,
    );
}

proof fn lemma_length_built_alike(m1: LzxModel, m2: LzxModel)
    requires
        lengths_alike(m1, m2),
    ensures
        ({
            let (r1, ok1) = m1.length_built();
            let (r2, ok2) = m2.length_built();
            &&& ok1 == ok2
            &&& lengths_alike(r1, r2)
            &&& but_for_trees(m1, r1)
            &&& but_for_trees(m2, r2)
            &&& r1.trees().main == m1.trees().main
            &&& r2.trees().main == m2.trees().main
            &&& ok1 ==> reads_alike(r1.trees().length, r2.trees().length)
        }),
{
    lemma2_to64();
    let n = LZX_LENGTH_MAXSYMBOLS as nat;
    let nb = LZX_LENGTH_TABLEBITS as nat;
    lemma_built_shape(coded(m1.length_len, n as int), nb, m1.length_table);
    lemma_built_shape(coded(m2.length_len, n as int), nb, m2.length_table);
    lemma_built_alike(m1.length_len, m2.length_len, n, nb, m1.length_table, m2.length_table);
}

/// The trees of a block are read alike.
proof fn lemma_trees_read_alike(m1: LzxModel, m2: LzxModel, src: Seq<u8>, b: BitState)
    requires
        lengths_alike(m1, m2),
        b.wf(src),
    ensures
        ({
            let s1 = m1.trees_read(src, b);
            let s2 = m2.trees_read(src, b);
            &&& s1.b == s2.b
            &&& s1.result == s2.result
            &&& s1.result is Ok ==> {
                &&& s1.b.wf(src)
                &&& lengths_alike(s1.m, s2.m)
                &&& but_for_trees(m1, s1.m)
                &&& but_for_trees(m2, s2.m)
                &&& reads_alike(s1.m.trees().main, s2.m.trees().main)
                &&& reads_alike(s1.m.trees().length, s2.m.trees().length)
            }
        }),
{
    let chars = LZX_NUM_CHARS as nat;
    let all = m1.main_elements as nat;
    lemma_main_lens_alike(m1, m2, src, b, 0, chars);
    let p1 = m1.main_lens(src, b, 0, chars);
    let p2 = m2.main_lens(src, b, 0, chars);
    if p1.result is Ok {
        lemma_main_lens_alike(p1.m, p2.m, src, p1.b, chars, all);
        let q1 = p1.m.main_lens(src, p1.b, chars, all);
        let q2 = p2.m.main_lens(src, p2.b, chars, all);
        if q1.result is Ok {
            lemma_main_built_alike(q1.m, q2.m);
            let (r1, ok1) = q1.m.main_built();
            let (r2, ok2) = q2.m.main_built();
            if ok1 {
                lemma_length_lens_alike(r1, r2, src, q1.b);
                let t1 = r1.length_lens(src, q1.b);
                let t2 = r2.length_lens(src, q2.b);
                if t1.result is Ok {
                    lemma_length_built_alike(t1.m, t2.m);
                }
            }
        }
    }
}

/// Two windows with the same first `n` bytes.
pub open spec fn agree(w1: Seq<u8>, w2: Seq<u8>, n: int) -> bool {
    &&& w1.len() == w2.len()
    &&& forall|i: int| 0 <= i < w1.len() && i < n ==> #[trigger] w1[i] == w2[i]
}

/// Two states of one stream that differ in nothing but what the window holds and what a block
/// sets up anew before using it.
pub open spec fn parallel(m1: LzxModel, m2: LzxModel) -> bool {
    &&& lengths_alike(m1, m2)
    &&& m1.window.len() == m2.window.len()
    &&& m1.window_posn == m2.window_posn
    &&& m1.offsets == m2.offsets
    &&& m1.header_read == m2.header_read
    &&& m1.block_type == m2.block_type
    &&& m1.block_remaining == m2.block_remaining
    &&& m1.frames_read == m2.frames_read
    &&& m1.intel_curpos == m2.intel_curpos
    &&& m1.header_read ==> m1.intel_filesize == m2.intel_filesize
    &&& m1.block_type == BLOCKTYPE_UNCOMPRESSED ==> m1.block_length == m2.block_length
    &&& m1.block_type == BLOCKTYPE_VERBATIM || m1.block_type == BLOCKTYPE_ALIGNED ==> {
        &&& reads_alike(m1.trees().main, m2.trees().main)
        &&& reads_alike(m1.trees().length, m2.trees().length)
    }
    &&& m1.block_type == BLOCKTYPE_ALIGNED ==> reads_alike(
        m1.trees().aligned.unwrap(),
        m2.trees().aligned.unwrap(),
    )
}

/// Two states of one stream, `n` bytes after a reset, that differ in nothing but what they
/// held before it.
pub open spec fn alike(m1: LzxModel, m2: LzxModel, n: int) -> bool {
    &&& parallel(m1, m2)
    &&& 0 <= n
    &&& agree(m1.window, m2.window, n)
    &&& n < m1.window.len() ==> m1.window_posn == n
}

/// The aligned-offset tree of a block is read alike.
proof fn lemma_aligned_alike(m1: LzxModel, m2: LzxModel, src: Seq<u8>, b: BitState)
    requires
        lengths_alike(m1, m2),
        b.wf(src),
    ensures
        ({
            let n = LZX_ALIGNED_NUM_ELEMENTS as nat;
            let head1 = fields(src, b, m1.aligned_len, 0, n, 3);
            let head2 = fields(src, b, m2.aligned_len, 0, n, 3);
            let (r1, ok1) = (LzxModel { aligned_len: head1.lens, ..m1 }).aligned_built();
            let (r2, ok2) = (LzxModel { aligned_len: head2.lens, ..m2 }).aligned_built();
            &&& head1.b == head2.b
            &&& head1.b.wf(src)
            &&& ok1 == ok2
            &&& lengths_alike(r1, r2)
            &&& ok1 ==> reads_alike(
                aligned_tree(r1.aligned_table, r1.aligned_len),
                aligned_tree(r2.aligned_table, r2.aligned_len),
            )
        }),
{
    lemma2_to64();
    let n = LZX_ALIGNED_NUM_ELEMENTS as nat;
    let nb = LZX_ALIGNED_TABLEBITS as nat;
    let head1 = fields(src, b, m1.aligned_len, 0, n, 3);
    let head2 = fields(src, b, m2.aligned_len, 0, n, 3);
    lemma_fields(src, b, m1.aligned_len, 0, n, 3);
    lemma_fields(src, b, m2.aligned_len, 0, n, 3);
    lemma_fields_alike(src, b, m1.aligned_len, m2.aligned_len, 0, n, 3);
    lemma_built_shape(coded(head1.lens, n as int), nb, m1.aligned_table);
    lemma_built_shape(coded(head2.lens, n as int), nb, m2.aligned_table);
    lemma_built_alike(head1.lens, head2.lens, n, nb, m1.aligned_table, m2.aligned_table);
}

/// The reader behind a block header that is not one of type zero.
proof fn lemma_header_reader(m: LzxModel, src: Seq<u8>, b: BitState)
    requires
        b.wf(src),
        m.block_header(src, b).0.block_type != BLOCKTYPE_INVALID,
    ensures
        m.block_header(src, b).1.wf(src),
{
    let b0 = m.realigned(src, b);
    if b0.pos > src.len() {
        lemma_type_bits(b0, src);
    }
    let b1 = b0.advance(src, 3);
    lemma_advance(src, b0, 3);
    lemma_advance(src, b1, 16);
    lemma_advance(src, b1.advance(src, 16), 8);
}

/// A block starts alike, and leaves the window as it is.
proof fn lemma_block_started_alike(m1: LzxModel, m2: LzxModel, src: Seq<u8>, b: BitState)
    requires
        parallel(m1, m2),
        b.wf(src),
    ensures
        ({
            let s1 = m1.block_started(src, b);
            let s2 = m2.block_started(src, b);
            &&& s1.b == s2.b
            &&& s1.result == s2.result
            &&& s1.result is Ok ==> {
                &&& parallel(s1.m, s2.m)
                &&& s1.m.window == m1.window
                &&& s2.m.window == m2.window
                &&& s1.m.window_posn == m1.window_posn
            }
        }),
{
    lemma_block_started(m1, src, b);
    lemma_block_started(m2, src, b);
    reveal(LzxModel::block_started);
    let (h1, bh) = m1.block_header(src, b);
    let (h2, _) = m2.block_header(src, b);
    let b0 = m1.realigned(src, b);
    assert(b0 == m2.realigned(src, b));
    if h1.block_type == BLOCKTYPE_ALIGNED || h1.block_type == BLOCKTYPE_VERBATIM {
        lemma_header_reader(m1, src, b);
        if h1.block_type == BLOCKTYPE_ALIGNED {
            let k = LZX_ALIGNED_NUM_ELEMENTS as nat;
            let head1 = fields(src, bh, h1.aligned_len, 0, k, 3);
            let head2 = fields(src, bh, h2.aligned_len, 0, k, 3);
            lemma_aligned_alike(h1, h2, src, bh);
            let (a1, ok1) = (LzxModel { aligned_len: head1.lens, ..h1 }).aligned_built();
            let (a2, ok2) = (LzxModel { aligned_len: head2.lens, ..h2 }).aligned_built();
            if ok1 {
                lemma_trees_read_alike(a1, a2, src, head1.b);
            }
        } else {
            lemma_trees_read_alike(h1, h2, src, bh);
        }
    }
}

/// No match of the run reaches back further than the `n` bytes produced so far, unless those
/// fill the window of `size` bytes.
pub open spec fn keeps_to(
    src: Seq<u8>,
    b: BitState,
    size: nat,
    wp: nat,
    run: nat,
    offsets: Offsets,
    trees: BlockTrees,
    n: int,
) -> bool
    decreases run,
{
    if run == 0 {
        true
    } else {
        let b1 = trees.main.after(src, b);
        match trees.main.symbol(src, b) {
            None => true,
            Some(sym) => if sym < LZX_NUM_CHARS {
                keeps_to(src, b1, size, wp + 1, (run - 1) as nat, offsets, trees, n + 1)
            } else {
                let (len, b2) = match_length(src, b1, sym, trees.length);
                let (offset, offsets1, b3) = match_offset(src, b2, sym, offsets, trees.aligned);
                if len is None || offset is None || wp + len.unwrap() > size {
                    true
                } else {
                    let rest = if run > len.unwrap() {
                        (run - len.unwrap()) as nat
                    } else {
                        0
                    };
                    &&& offset.unwrap() <= n || size <= n
                    &&& keeps_to(
                        src,
                        b3,
                        size,
                        wp + len.unwrap(),
                        rest,
                        offsets1,
                        trees,
                        n + len.unwrap(),
                    )
                }
            },
        }
    }
}

/// A match that keeps to what was produced writes the same bytes.
proof fn lemma_copied_alike(w1: Seq<u8>, w2: Seq<u8>, wp: int, offset: int, len: nat, n: int)
    requires
        agree(w1, w2, n),
        0 <= wp,
        wp + len <= w1.len(),
        1 <= offset <= w1.len(),
        n < w1.len() ==> wp == n && offset <= n,
    ensures
        agree(copied(w1, wp, offset, len), copied(w2, wp, offset, len), n + len),
        copied(w1, wp, offset, len).len() == w1.len(),
    decreases len,
{
    if len > 0 {
        let size = w1.len() as int;
        let from = (wp - offset) % size;
        if n < size {
            lemma_small_mod((wp - offset) as nat, size as nat);
        } else {
            lemma_mod_bound(wp - offset, size);
        }
        assert(w1[from] == w2[from]);
        let v1 = w1.update(wp, w1[from]);
        let v2 = w2.update(wp, w2[from]);
        assert(agree(v1, v2, n + 1));
        lemma_copied_alike(v1, v2, wp + 1, offset, (len - 1) as nat, n + 1);
    }
}

/// The trees of two blocks read alike.
pub open spec fn block_reads_alike(t1: BlockTrees, t2: BlockTrees) -> bool {
    &&& reads_alike(t1.main, t2.main)
    &&& reads_alike(t1.length, t2.length)
    &&& (t1.aligned is Some) == (t2.aligned is Some)
    &&& t1.aligned is Some ==> reads_alike(t1.aligned.unwrap(), t2.aligned.unwrap())
}

/// A run that keeps to what was produced decodes alike.
proof fn lemma_run_alike(
    src: Seq<u8>,
    b: BitState,
    w1: Seq<u8>,
    w2: Seq<u8>,
    wp: nat,
    run: nat,
    offsets: Offsets,
    t1: BlockTrees,
    t2: BlockTrees,
    n: int,
)
    requires
        block_reads_alike(t1, t2),
        agree(w1, w2, n),
        n < w1.len() ==> wp == n,
        wp + run <= w1.len(),
        keeps_to(src, b, w1.len(), wp, run, offsets, t1, n),
    ensures
        ({
            let r1 = decoded_run(src, b, w1, wp, run, offsets, t1);
            let r2 = decoded_run(src, b, w2, wp, run, offsets, t2);
            &&& r1.b == r2.b
            &&& r1.offsets == r2.offsets
            &&& r1.result == r2.result
            &&& r1.result is Ok ==> agree(r1.window, r2.window, n + run)
        }),
    decreases run,
{
    if run > 0 {
        let b1 = t1.main.after(src, b);
        if let Some(sym) = t1.main.symbol(src, b) {
            if sym < LZX_NUM_CHARS {
                lemma_run_alike(
                    src,
                    b1,
                    w1.update(wp as int, sym as u8),
                    w2.update(wp as int, sym as u8),
                    wp + 1,
                    (run - 1) as nat,
                    offsets,
                    t1,
                    t2,
                    n + 1,
                );
            } else {
                let (len, b2) = match_length(src, b1, sym, t1.length);
                assert((len, b2) == match_length(src, b1, sym, t2.length));
                let (offset, offsets1, b3) = match_offset(src, b2, sym, offsets, t1.aligned);
                assert((offset, offsets1, b3) == match_offset(src, b2, sym, offsets, t2.aligned));
                if len is None || offset is None || offset == Some(0u32) || offset.unwrap()
                    > w1.len() || wp + len.unwrap() > w1.len() {
                } else {
                    let k = len.unwrap();
                    let rest = if run > k {
                        (run - k) as nat
                    } else {
                        0
                    };
                    let o = offset.unwrap() as int;
                    lemma_copied_alike(w1, w2, wp as int, o, k, n);
                    lemma_run_alike(
                        src,
                        b3,
                        copied(w1, wp as int, o, k),
                        copied(w2, wp as int, o, k),
                        wp + k,
                        rest,
                        offsets1,
                        t1,
                        t2,
                        n + k,
                    );
                }
            }
        }
    }
}

impl LzxModel {
    /// The next `run` bytes of the current block keep to the `n` bytes produced so far.
    pub open spec fn run_keeps_to(self, src: Seq<u8>, b: BitState, run: nat, n: int) -> bool {
        let wp = self.window_posn % (self.window.len() as int);
        self.block_type == BLOCKTYPE_VERBATIM || self.block_type == BLOCKTYPE_ALIGNED ==> keeps_to(
            src,
            b,
            self.window.len(),
            wp as nat,
            run,
            self.offsets,
            self.trees(),
            n,
        )
    }

    /// The next `togo` bytes of the stream keep to what was produced before them, which is `n`
    /// bytes at first.
    pub open spec fn keeps_to(self, src: Seq<u8>, b: BitState, togo: int, n: int) -> bool
        decreases togo, self.progress(src, b),
        when self.wf() && b.wf(src)
    {
        if togo <= 0 {
            true
        } else {
            let s = self.in_block(src, b);
            if s.result is Err || LzxModel::overrun(src, s.b) {
                true
            } else {
                let run = least(s.m.block_remaining, togo);
                let d = s.m.run_decoded(src, s.b, run as nat);
                &&& s.m.run_keeps_to(src, s.b, run as nat, n)
                &&& if d.result is Err {
                    true
                } else {
                    proof {
                        lemma_block_started(self, src, b);
                        lemma_empty_run(s.m, src, s.b);
                    }
                    if run >= 0 {
                        d.m.keeps_to(src, d.b, togo - run, n + run)
                    } else {
                        true
                    }
                }
            }
        }
    }

    /// No match of the next frame reaches back further than the `n` bytes that the stream has
    /// produced before, and those that the frame itself has.
    pub open spec fn frame_keeps_to(self, src: Seq<u8>, out_len: nat, n: int) -> bool {
        let (m, b) = self.begun(src, BitState { buf: 0, left: 0, pos: 0 });
        m.keeps_to(src, b, out_len as int, n)
    }
}

/// A run of the current block decodes alike.
proof fn lemma_run_decoded_alike(
    m1: LzxModel,
    m2: LzxModel,
    src: Seq<u8>,
    b: BitState,
    run: nat,
    n: int,
)
    requires
        alike(m1, m2, n),
        b.wf(src),
        run <= m1.block_remaining,
        m1.run_keeps_to(src, b, run, n),
    ensures
        ({
            let d1 = m1.run_decoded(src, b, run);
            let d2 = m2.run_decoded(src, b, run);
            &&& d1.b == d2.b
            &&& d1.result == d2.result
            &&& d1.result is Ok ==> alike(d1.m, d2.m, n + run)
        }),
{
    lemma_run_decoded(m1, src, b, run);
    lemma_run_decoded(m2, src, b, run);
    reveal(LzxModel::run_decoded);
    let size = m1.window.len() as int;
    let wp = m1.window_posn % size;
    if n < size {
        lemma_small_mod(n as nat, size as nat);
    } else {
        lemma_mod_bound(m1.window_posn, size);
    }
    if wp + run <= size && (m1.block_type == BLOCKTYPE_VERBATIM || m1.block_type
        == BLOCKTYPE_ALIGNED) {
        lemma_run_alike(
            src,
            b,
            m1.window,
            m2.window,
            wp as nat,
            run,
            m1.offsets,
            m1.trees(),
            m2.trees(),
            n,
        );
    }
}

/// What a run reads, and whether it decodes, does not depend on what the window holds.
proof fn lemma_run_parallel(
    src: Seq<u8>,
    b: BitState,
    w1: Seq<u8>,
    w2: Seq<u8>,
    wp: nat,
    run: nat,
    offsets: Offsets,
    t1: BlockTrees,
    t2: BlockTrees,
)
    requires
        block_reads_alike(t1, t2),
        w1.len() == w2.len(),
        wp + run <= w1.len(),
    ensures
        ({
            let r1 = decoded_run(src, b, w1, wp, run, offsets, t1);
            let r2 = decoded_run(src, b, w2, wp, run, offsets, t2);
            &&& r1.b == r2.b
            &&& r1.offsets == r2.offsets
            &&& r1.result == r2.result
        }),
    decreases run,
{
    if run > 0 {
        let b1 = t1.main.after(src, b);
        if let Some(sym) = t1.main.symbol(src, b) {
            if sym < LZX_NUM_CHARS {
                lemma_run_parallel(
                    src,
                    b1,
                    w1.update(wp as int, sym as u8),
                    w2.update(wp as int, sym as u8),
                    wp + 1,
                    (run - 1) as nat,
                    offsets,
                    t1,
                    t2,
                );
            } else {
                let (len, b2) = match_length(src, b1, sym, t1.length);
                assert((len, b2) == match_length(src, b1, sym, t2.length));
                let (offset, offsets1, b3) = match_offset(src, b2, sym, offsets, t1.aligned);
                assert((offset, offsets1, b3) == match_offset(src, b2, sym, offsets, t2.aligned));
                if len is None || offset is None || offset == Some(0u32) || offset.unwrap()
                    > w1.len() || wp + len.unwrap() > w1.len() {
                } else {
                    let k = len.unwrap();
                    let rest = if run > k {
                        (run - k) as nat
                    } else {
                        0
                    };
                    let o = offset.unwrap() as int;
                    lemma_copied_len(w1, wp as int, o, k);
                    lemma_copied_len(w2, wp as int, o, k);
                    lemma_run_parallel(
                        src,
                        b3,
                        copied(w1, wp as int, o, k),
                        copied(w2, wp as int, o, k),
                        wp + k,
                        rest,
                        offsets1,
                        t1,
                        t2,
                    );
                }
            }
        }
    }
}

/// A run of the current block decodes or fails alike, whatever the window holds.
proof fn lemma_run_decoded_parallel(
    m1: LzxModel,
    m2: LzxModel,
    src: Seq<u8>,
    b: BitState,
    run: nat,
)
    requires
        parallel(m1, m2),
        b.wf(src),
        run <= m1.block_remaining,
    ensures
        ({
            let d1 = m1.run_decoded(src, b, run);
            let d2 = m2.run_decoded(src, b, run);
            &&& d1.b == d2.b
            &&& d1.result == d2.result
            &&& d1.result is Ok ==> parallel(d1.m, d2.m)
        }),
{
    lemma_run_decoded(m1, src, b, run);
    lemma_run_decoded(m2, src, b, run);
    reveal(LzxModel::run_decoded);
    let size = m1.window.len() as int;
    let wp = m1.window_posn % size;
    lemma_mod_bound(m1.window_posn, size);
    if wp + run <= size && (m1.block_type == BLOCKTYPE_VERBATIM || m1.block_type
        == BLOCKTYPE_ALIGNED) {
        lemma_run_parallel(
            src,
            b,
            m1.window,
            m2.window,
            wp as nat,
            run,
            m1.offsets,
            m1.trees(),
            m2.trees(),
        );
    }
}

/// Bytes decode or fail alike, whatever the window holds.
proof fn lemma_decoded_parallel(
    m1: LzxModel,
    m2: LzxModel,
    src: Seq<u8>,
    b: BitState,
    togo: int,
)
    requires
        parallel(m1, m2),
        b.wf(src),
        0 <= togo,
    ensures
        ({
            let d1 = m1.decoded(src, b, togo);
            let d2 = m2.decoded(src, b, togo);
            &&& d1.result == d2.result
            &&& d1.result is Ok ==> parallel(d1.m, d2.m)
        }),
    decreases togo, m1.progress(src, b),
{
    if togo > 0 {
        lemma_block_started(m1, src, b);
        lemma_block_started(m2, src, b);
        lemma_block_started_alike(m1, m2, src, b);
        let s1 = m1.in_block(src, b);
        let s2 = m2.in_block(src, b);
        if s1.result is Ok && !LzxModel::overrun(src, s1.b) {
            let run = least(s1.m.block_remaining, togo);
            lemma_run_decoded_parallel(s1.m, s2.m, src, s1.b, run as nat);
            lemma_run_decoded(s1.m, src, s1.b, run as nat);
            let d1 = s1.m.run_decoded(src, s1.b, run as nat);
            let d2 = s2.m.run_decoded(src, s2.b, run as nat);
            if d1.result is Ok {
                lemma_empty_run(s1.m, src, s1.b);
                lemma_empty_run(s2.m, src, s2.b);
                lemma_decoded_parallel(d1.m, d2.m, src, d1.b, togo - run);
            }
        }
    }
}

/// Bytes that keep to what was produced decode alike.
proof fn lemma_decoded_alike(
    m1: LzxModel,
    m2: LzxModel,
    src: Seq<u8>,
    b: BitState,
    togo: int,
    n: int,
)
    requires
        alike(m1, m2, n),
        b.wf(src),
        0 <= togo,
        m1.keeps_to(src, b, togo, n),
    ensures
        ({
            let d1 = m1.decoded(src, b, togo);
            let d2 = m2.decoded(src, b, togo);
            &&& d1.result == d2.result
            &&& d1.result is Ok ==> alike(d1.m, d2.m, n + togo)
        }),
    decreases togo, m1.progress(src, b),
{
    if togo > 0 {
        lemma_block_started(m1, src, b);
        lemma_block_started(m2, src, b);
        lemma_block_started_alike(m1, m2, src, b);
        let s1 = m1.in_block(src, b);
        let s2 = m2.in_block(src, b);
        if s1.result is Ok && !LzxModel::overrun(src, s1.b) {
            let run = least(s1.m.block_remaining, togo);
            lemma_run_decoded_alike(s1.m, s2.m, src, s1.b, run as nat, n);
            lemma_run_decoded(s1.m, src, s1.b, run as nat);
            let d1 = s1.m.run_decoded(src, s1.b, run as nat);
            let d2 = s2.m.run_decoded(src, s2.b, run as nat);
            if d1.result is Ok {
                lemma_empty_run(s1.m, src, s1.b);
                lemma_empty_run(s2.m, src, s2.b);
                lemma_decoded_alike(d1.m, d2.m, src, d1.b, togo - run, n + run);
            }
        }
    }
}

/// The stream header is read alike, and leaves the window as it is.
proof fn lemma_begun_alike(m1: LzxModel, m2: LzxModel, src: Seq<u8>)
    requires
        parallel(m1, m2),
    ensures
        ({
            let b = BitState { buf: 0, left: 0, pos: 0 };
            let (r1, b1) = m1.begun(src, b);
            let (r2, b2) = m2.begun(src, b);
            &&& b1 == b2
            &&& b1.wf(src)
            &&& parallel(r1, r2)
            &&& r1.window == m1.window
            &&& r2.window == m2.window
            &&& r1.window_posn == m1.window_posn
            &&& r1.header_read
        }),
{
    let b = BitState { buf: 0, left: 0, pos: 0 };
    lemma_advance(src, b, 1);
    let b1 = b.advance(src, 1);
    lemma_advance(src, b1, 16);
    lemma_advance(src, b1.advance(src, 16), 16);
}

/// A frame that keeps to what its stream has produced since a reset decodes alike in two states
/// that differ in what they held before the reset.
pub proof fn lemma_frame_alike(
    m1: LzxModel,
    m2: LzxModel,
    src: Seq<u8>,
    out_len: nat,
    n: int,
)
    requires
        alike(m1, m2, n),
        m1.frame_keeps_to(src, out_len, n),
    ensures
        ({
            let f1 = m1.frame(src, out_len);
            let f2 = m2.frame(src, out_len);
            &&& f1.result == f2.result
            &&& f1.result is Ok ==> alike(f1.m, f2.m, n + out_len)
        }),
{
    lemma_frame(m1, src, out_len);
    lemma_frame(m2, src, out_len);
    reveal(LzxModel::frame);
    if out_len <= i32::MAX {
        lemma_begun_alike(m1, m2, src);
        let (r1, b) = m1.begun(src, BitState { buf: 0, left: 0, pos: 0 });
        let (r2, _) = m2.begun(src, BitState { buf: 0, left: 0, pos: 0 });
        lemma_decoded_alike(r1, r2, src, b, out_len as int, n);
        lemma_header_kept(r1, src, b, out_len as int);
        let d1 = r1.decoded(src, b, out_len as int);
        let d2 = r2.decoded(src, b, out_len as int);
        if d1.result is Ok {
            let end = if d1.m.window_posn == 0 {
                d1.m.window.len() as int
            } else {
                d1.m.window_posn
            };
            if end >= out_len {
                assert(d1.m.window.subrange(end - out_len, end) =~= d2.m.window.subrange(
                    end - out_len,
                    end,
                ));
            }
        }
    }
}

/// Whether a frame decodes, and which error it comes to if it does not, depends neither on what
/// the window holds nor on what a block sets up anew, be there a match that reaches back past a
/// reset or not. The states stay such that the same holds of the next frame.
pub proof fn lemma_frame_decodes_alike(
    m1: LzxModel,
    m2: LzxModel,
    src: Seq<u8>,
    out_len: nat,
)
    requires
        parallel(m1, m2),
    ensures
        ({
            let f1 = m1.frame(src, out_len);
            let f2 = m2.frame(src, out_len);
            &&& f1.result is Ok <==> f2.result is Ok
            &&& f1.result matches Err(e) ==> f2.result == Err::<Seq<u8>, _>(e)
            &&& f1.result is Ok ==> parallel(f1.m, f2.m)
        }),
{
    lemma_frame(m1, src, out_len);
    lemma_frame(m2, src, out_len);
    reveal(LzxModel::frame);
    if out_len <= i32::MAX {
        lemma_begun_alike(m1, m2, src);
        let (r1, b) = m1.begun(src, BitState { buf: 0, left: 0, pos: 0 });
        let (r2, _) = m2.begun(src, BitState { buf: 0, left: 0, pos: 0 });
        lemma_decoded_parallel(r1, r2, src, b, out_len as int);
        lemma_header_kept(r1, src, b, out_len as int);
    }
}

/// A stream header stays read.
proof fn lemma_header_kept(m: LzxModel, src: Seq<u8>, b: BitState, togo: int)
    requires
        m.wf(),
        b.wf(src),
    ensures
        m.decoded(src, b, togo).m.header_read == m.header_read,
    decreases togo, m.progress(src, b),
{
    if togo > 0 {
        lemma_block_started(m, src, b);
        let s = m.in_block(src, b);
        assert(s.m.header_read == m.header_read) by {
            reveal(LzxModel::block_started);
        }
        if s.result is Ok && !LzxModel::overrun(src, s.b) {
            let run = least(s.m.block_remaining, togo);
            let d = s.m.run_decoded(src, s.b, run as nat);
            lemma_run_decoded(s.m, src, s.b, run as nat);
            assert(d.m.header_read == s.m.header_read) by {
                reveal(LzxModel::run_decoded);
            }
            if d.result is Ok {
                lemma_empty_run(s.m, src, s.b);
                lemma_header_kept(d.m, src, d.b, togo - run);
            }
        }
    }
}

/// After a reset nothing but what lies behind it differs.
pub proof fn lemma_reset_alike(m1: LzxModel, m2: LzxModel)
    requires
        m1.wf(),
        m2.wf(),
        m1.window.len() == m2.window.len(),
        m1.main_elements == m2.main_elements,
    ensures
        alike(m1.reset(), m2.reset(), 0),
{
}

impl Section {
    /// The decoder's state before block `b`, where it held `m` before the reset of the window
    /// that the block lies in.
    pub open spec fn before(self, m: LzxModel, stream: Seq<u8>, b: int) -> LzxModel {
        if b % self.reset_blkcount == 0 || b == 0 {
            m.reset()
        } else {
            self.replay(m, stream, b - 1).m
        }
    }

    /// Number of bytes between the reset point of the window that block `b` lies in and the
    /// block.
    pub open spec fn produced_before(self, b: int) -> int {
        (b % self.reset_blkcount) * self.block_len
    }

    /// Replayed from `m`, block `b` decodes to `data`, and no match in it reaches back past
    /// the reset point of its window.
    pub open spec fn decodes_within(
        self,
        m: LzxModel,
        stream: Seq<u8>,
        b: int,
        data: Seq<u8>,
    ) -> bool {
        &&& self.replay(m, stream, b).result == Ok::<_, LzxError>(data)
        &&& self.before(m, stream, b).frame_keeps_to(
            self.input(stream, b),
            self.block_len as nat,
            self.produced_before(b),
        )
    }
}

/// Two replays of a block that keeps to its reset window come out alike.
proof fn lemma_replay_alike(
    s: Section,
    m1: LzxModel,
    m2: LzxModel,
    stream: Seq<u8>,
    plain: Seq<Seq<u8>>,
    b: int,
)
    requires
        s.wf(),
        s.can_hold(m1),
        s.can_hold(m2),
        0 <= b,
        forall|k: int|
            s.window_start(b) <= k <= b ==> #[trigger] s.decodes_within(m1, stream, k, plain[k]),
    ensures
        s.replay(m1, stream, b).result == s.replay(m2, stream, b).result,
        alike(
            s.replay(m1, stream, b).m,
            s.replay(m2, stream, b).m,
            s.produced_before(b) + s.block_len,
        ),
    decreases b,
{
    let len = s.block_len as nat;
    let n = s.produced_before(b);
    lemma_mod_bound(b, s.reset_blkcount);
    assert(s.decodes_within(m1, stream, b, plain[b]));
    if b % s.reset_blkcount == 0 {
        lemma_reset_alike(m1, m2);
        assert(n == 0);
    } else {
        if b == 0 {
            lemma_small_mod(0, s.reset_blkcount as nat);
        }
        lemma_next_in_window(b - 1, s.reset_blkcount);
        lemma_replay_alike(s, m1, m2, stream, plain, b - 1);
        let k = b % s.reset_blkcount;
        let size = s.block_len;
        assert(n == (k - 1) * size + size) by (nonlinear_arith)
            requires
                n == k * size,
        ;
    }
    lemma_frame_alike(
        s.before(m1, stream, b),
        s.before(m2, stream, b),
        s.input(stream, b),
        len,
        n,
    );
}

/// Two replays of a block whose predecessors in its reset window decode come to the same error,
/// or both decode, whatever the decoder held before the reset.
pub proof fn lemma_replay_decodes_alike(
    s: Section,
    m1: LzxModel,
    m2: LzxModel,
    stream: Seq<u8>,
    b: int,
)
    requires
        s.wf(),
        s.can_hold(m1),
        s.can_hold(m2),
        0 <= b,
        forall|k: int|
            s.window_start(b) <= k < b ==> (#[trigger] s.replay(m1, stream, k)).result is Ok,
    ensures
        ({
            let f1 = s.replay(m1, stream, b);
            let f2 = s.replay(m2, stream, b);
            &&& f1.result is Ok <==> f2.result is Ok
            &&& f1.result matches Err(e) ==> f2.result == Err::<Seq<u8>, _>(e)
            &&& f1.result is Ok ==> parallel(f1.m, f2.m)
        }),
    decreases b,
{
    lemma_mod_bound(b, s.reset_blkcount);
    if b % s.reset_blkcount == 0 || b == 0 {
        lemma_reset_alike(m1, m2);
    } else {
        lemma_next_in_window(b - 1, s.reset_blkcount);
        lemma_replay_decodes_alike(s, m1, m2, stream, b - 1);
        assert(s.replay(m1, stream, b - 1).result is Ok);
    }
    lemma_frame_decodes_alike(
        s.before(m1, stream, b),
        s.before(m2, stream, b),
        s.input(stream, b),
        s.block_len as nat,
    );
}

/// What a decoder held before a reset does not show, as long as no match reaches back past the
/// reset point: blocks that decode so from one state decode to the same from every state that
/// the section's decoder can be in. With [`crate::random_access::lemma_read_is_transparent`]
/// any range that is read is that range of the section from front to back.
pub proof fn lemma_self_contained(
    s: Section,
    m: LzxModel,
    stream: Seq<u8>,
    plain: Seq<Seq<u8>>,
    from: int,
    to: int,
)
    requires
        s.wf(),
        s.can_hold(m),
        plain.len() == s.count(),
        0 <= from <= to <= s.count(),
        from % s.reset_blkcount == 0,
        forall|b: int| from <= b < to ==> #[trigger] s.decodes_within(m, stream, b, plain[b]),
    ensures
        s.decodes_to(stream, plain, from, to),
{
    assert forall|m2: LzxModel, b: int|
        s.can_hold(m2) && from <= b < to implies (#[trigger] s.replay(m2, stream, b)).result
        == Ok::<_, LzxError>(plain[b]) by {
        assert(s.window_start(from) == from);
        lemma_window_start_ordered(s, from, b);
        assert(s.decodes_within(m, stream, b, plain[b]));
        lemma_mod_bound(b, s.reset_blkcount);
        lemma_replay_alike(s, m, m2, stream, plain, b);
    }
}

} // verus!
