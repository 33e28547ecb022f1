//! Decode tables decode the canonical Huffman code.

use vstd::arithmetic::power2::*;
use vstd::prelude::*;

use crate::bits::BitState;
use crate::bitstream::{lemma_looks_ahead, lemma_steps_over, stream_number};
use crate::code_place::{lemma_cleared, lemma_long_part};
use crate::code_tree::{
    before, cell, comes_later, first_node, held, hi, leads_to, lemma_ancestors,
    lemma_before_aligned, lemma_before_grows, lemma_before_scales, lemma_before_whole,
    lemma_first_node, lemma_place_short, lemma_pre_unique, lemma_short_size, live, lo, pre, size,
    tree_ok,
};
use crate::huffman::{
    built_table, coded, filled, lemma_built_shape, lookup, no_codes, place_long,
    place_short, table_fits, top_bit, walk, Placed, Tree,
};

verus! {

/// Where the canonical code of symbol `y` starts among the 16-bit numbers: behind the codes
/// of smaller length, and those of the same length and a smaller symbol.
pub open spec fn code_start(lens: Seq<u8>, y: int) -> nat {
    before(lens, 0, lens[y] as nat, y as nat)
}

/// How many 16-bit numbers start with a code of `l` bits.
pub open spec fn code_room(l: nat) -> nat {
    pow2((16 - l) as nat)
}

/// The next 16 bits of the stream, `x`, start with the canonical code of symbol `y`.
pub open spec fn starts_with_code(lens: Seq<u8>, y: int, x: nat) -> bool {
    &&& 0 <= y < lens.len()
    &&& 1 <= lens[y] <= 16
    &&& code_start(lens, y) <= x < code_start(lens, y) + code_room(lens[y] as nat)
}

/// `x` written in the units of a table with `nb` bits of direct entries.
pub open spec fn scaled(nb: nat, buf: u32) -> nat {
    (buf as nat / 0x10000) * pow2(nb)
}

/// The first `k` bits of the buffer as a prefix.
proof fn lemma_buffer_prefix(nb: nat, buf: u32, k: nat)
    requires
        1 <= k <= 16,
    ensures
        pre(nb, scaled(nb, buf), k) == buf >> ((32 - k) as u32),
        pre(nb, scaled(nb, buf), k) == buf as nat / pow2((32 - k) as nat),
{
    let w = (32 - k) as u32;
    vstd::bits::lemma_u32_shr_is_div(buf, w);
    let x = buf as int / 0x10000;
    let a = pow2((16 - k) as nat) as int;
    let m = pow2(nb) as int;
    lemma_pow2_pos((16 - k) as nat);
    lemma_pow2_pos(nb);
    lemma_pow2_adds((16 - k) as nat, nb);
    lemma_pow2_adds(16, (16 - k) as nat);
    lemma2_to64();
    vstd::arithmetic::div_mod::lemma_div_denominator(buf as int, 0x10000, a);
    assert(size(nb, k) == a * m);
    vstd::arithmetic::div_mod::lemma_div_denominator(x * m, m, a);
    vstd::arithmetic::div_mod::lemma_div_multiples_vanish(x, m);
    assert(m * x == x * m) by (nonlinear_arith);
    assert(m * a == a * m) by (nonlinear_arith);
}

/// One more bit of the buffer makes one more bit of the prefix.
proof fn lemma_buffer_bit(nb: nat, buf: u32, k: nat)
    requires
        1 <= k < 16,
    ensures
        pre(nb, scaled(nb, buf), k + 1) == 2 * pre(nb, scaled(nb, buf), k) + top_bit(buf, k),
{
    lemma_buffer_prefix(nb, buf, k);
    lemma_buffer_prefix(nb, buf, k + 1);
    let w = (31 - k) as u32;
    assert(w <= 30 ==> (buf >> w) == 2 * (buf >> ((w + 1) as u32)) + ((buf >> w) & 1)) by (
        bit_vector);
}

/// Walking down from any level of the path to a symbol ends at that symbol.
proof fn lemma_walk_down(t: Seq<u16>, nb: nat, nsyms: nat, buf: u32, k: nat, l: nat, y: nat)
    requires
        1 <= nb <= k <= l <= 16,
        nsyms <= first_node(nb),
        y < nsyms,
        leads_to(t, nb, scaled(nb, buf), l, y),
        exists|n: nat| #[trigger] tree_ok(t, nb, n),
    ensures
        walk(t, nsyms, held(t, nb, pre(nb, scaled(nb, buf), k), k), buf, k) == Some(y),
    decreases l - k,
{
    let x = scaled(nb, buf);
    if k < l {
        lemma_ancestors(t, nb, x, l, k);
        lemma_buffer_bit(nb, buf, k);
        if k + 1 < l {
            lemma_ancestors(t, nb, x, l, k + 1);
        }
        let next = choose|n: nat| #[trigger] tree_ok(t, nb, n);
        assert(cell(t, nb, pre(nb, x, k + 1), k + 1) < 2 * next);
        assert((buf >> ((31 - k) as u32)) & 1 <= 1) by {
            let w = (31 - k) as u32;
            assert((buf >> w) & 1 <= 1) by (bit_vector);
        }
        lemma_walk_down(t, nb, nsyms, buf, k + 1, l, y);
    }
}

/// Every coded symbol has the entry of its canonical code in a table that was built.
proof fn lemma_built_codes(lens: Seq<u8>, nb: nat, table: Seq<u16>, y: int, x: nat)
    requires
        table_fits(table, nb as int),
        lens.len() <= first_node(nb),
        built_table(lens, nb, table).1,
        0 <= y < lens.len(),
        1 <= lens[y] <= 16,
        ({
            let st = before(lens, nb, lens[y] as nat, y as nat);
            st <= x < st + size(nb, lens[y] as nat)
        }),
        x < pow2(nb) * 0x10000,
    ensures
        ({
            let f = built_table(lens, nb, table).0;
            let l = lens[y] as nat;
            if l <= nb {
                f[(x / 0x10000) as int] == y
            } else {
                &&& leads_to(f, nb, x, l, y as nat)
                &&& exists|n: nat| #[trigger] tree_ok(f, nb, n)
            }
        }),
{
    let l = lens[y] as nat;
    let st = before(lens, nb, l, y as nat);
    let f = built_table(lens, nb, table).0;
    let short = place_short(lens, nb, table, 1, 0, 0);
    lemma_pow2_pos((nb - 1) as nat);
    lemma_pow2_unfold(nb);
    lemma_first_node(nb);
    lemma_place_short(lens, nb, table, 1, 0, 0);
    lemma_before_aligned(lens, nb, l, y as nat);
    let c = pre(nb, st, l);
    lemma_pow2_pos((nb + 16 - l) as nat);
    vstd::arithmetic::div_mod::lemma_fundamental_div_mod(st as int, size(nb, l) as int);
    assert(lo(nb, c, l) == st && hi(nb, c, l) == st + size(nb, l)) by (nonlinear_arith)
        requires
            lo(nb, c, l) == c * size(nb, l),
            hi(nb, c, l) == (c + 1) * size(nb, l),
            st == size(nb, l) * c + 0,
    ;
    lemma_pre_unique(nb, x, c, l);
    if l <= nb {
        lemma_short_size(nb, l);
        lemma_before_whole(lens, nb, l, y as nat);
        let i = (x / 0x10000) as int;
        assert(st <= i * 0x10000 < st + size(nb, l));
        assert(short.table[i] == y);
        lemma_before_grows(lens, nb, l, y as nat + 1, nb, lens.len());
        assert(i < short.pos);
        if short.pos != pow2(nb) {
            let cleared = filled(short.table, short.pos as int, pow2(nb) as int, 0u16);
            lemma_cleared(lens, nb, table);
            assert(cleared[i] == y);
            lemma_long_part(lens, nb, table);
            assert(live(cleared, nb, i as nat, nb));
            lemma2_to64();
            lemma_pow2_adds(nb, 16);
            assert(hi(nb, i as nat, nb) <= short.pos * 0x10000);
        }
    } else {
        lemma_before_grows(lens, nb, nb, lens.len(), l, y as nat);
        if short.pos == pow2(nb) {
            assert(false);
        }
        lemma_cleared(lens, nb, table);
        lemma_long_part(lens, nb, table);
        assert(lens[y as nat as int] == l);
        assert(comes_later(nb + 1, 0, l, y as nat));
        assert(leads_to(f, nb, st, l, y as nat));
    }
}

/// A decode table that was built without complaint decodes the canonical Huffman code of its
/// lengths: whatever follows it in the stream, the code of a symbol is looked up as that
/// symbol.
pub proof fn lemma_decodes_canonical_code(
    lens: Seq<u8>,
    nb: nat,
    table: Seq<u16>,
    buf: u32,
    y: int,
)
    requires
        table_fits(table, nb as int),
        lens.len() <= first_node(nb),
        built_table(lens, nb, table).1,
        starts_with_code(lens, y, (buf >> 16) as nat),
    ensures
        lookup(built_table(lens, nb, table).0, nb, lens.len(), buf) == Some(y as nat),
{
    let f = built_table(lens, nb, table).0;
    let l = lens[y] as nat;
    let x = scaled(nb, buf);
    vstd::bits::lemma_u32_shr_is_div(buf, 16);
    lemma2_to64();
    let w = buf as nat / 0x10000;
    let m = pow2(nb);
    lemma_pow2_pos(nb);
    lemma_before_scales(lens, nb, l, y as nat);
    let st = before(lens, nb, l, y as nat);
    let s0 = code_start(lens, y);
    assert(st <= x < st + size(nb, l) && x < m * 0x10000) by (nonlinear_arith)
        requires
            st == s0 * m,
            size(nb, l) == code_room(l) * m,
            x == w * m,
            s0 <= w < s0 + code_room(l),
            w < 0x10000,
            m > 0,
    ;
    lemma_built_codes(lens, nb, table, y, x);
    lemma_built_shape(lens, nb, table);
    lemma_buffer_prefix(nb, buf, nb);
    assert(size(nb, nb) == 0x10000);
    lemma_pow2_unfold(nb);
    if l > nb {
        lemma_walk_down(f, nb, lens.len(), buf, nb, l, y as nat);
    }
}

/// No stream starts with the codes of two symbols: the canonical code is free of prefixes.
pub proof fn lemma_codes_are_apart(lens: Seq<u8>, y: int, z: int, x: nat)
    requires
        starts_with_code(lens, y, x),
        starts_with_code(lens, z, x),
    ensures
        y == z,
{
    let l = lens[y] as nat;
    let m = lens[z] as nat;
    if comes_later(l, y as nat + 1, m, z as nat) {
        lemma_before_grows(lens, 0, l, y as nat + 1, m, z as nat);
    } else if comes_later(m, z as nat + 1, l, y as nat) {
        lemma_before_grows(lens, 0, m, z as nat + 1, l, y as nat);
    }
}

/// Code lengths are only accepted if they fill the code space exactly, if those that fit the
/// direct entries do, or if there are none.
pub proof fn lemma_accepted_lengths(lens: Seq<u8>, nb: nat, table: Seq<u16>)
    requires
        table_fits(table, nb as int),
        lens.len() <= first_node(nb),
        built_table(lens, nb, table).1,
    ensures
        no_codes(lens) || before(lens, 0, nb, lens.len()) == 0x10000 || before(
            lens,
            0,
            16,
            lens.len(),
        ) == 0x10000,
{
    let short = place_short(lens, nb, table, 1, 0, 0);
    let m = pow2(nb);
    lemma_pow2_pos(nb);
    lemma_pow2_pos((nb - 1) as nat);
    lemma_pow2_unfold(nb);
    lemma_first_node(nb);
    lemma_place_short(lens, nb, table, 1, 0, 0);
    lemma_before_scales(lens, nb, nb, lens.len());
    lemma_before_scales(lens, nb, 16, lens.len());
    let a = before(lens, 0, nb, lens.len());
    let b = before(lens, 0, 16, lens.len());
    if short.pos == m {
        assert(a == 0x10000) by (nonlinear_arith)
            requires
                a * m == m * 0x10000,
                m > 0,
        ;
    } else {
        lemma_long_part(lens, nb, table);
        if !no_codes(lens) {
            assert(b == 0x10000) by (nonlinear_arith)
                requires
                    b * m == m * 0x10000,
                    m > 0,
            ;
        }
    }
}

/// Whatever lies before the end of some codes starts with one of them.
proof fn lemma_covered(lens: Seq<u8>, l: nat, s: nat, x: nat) -> (y: int)
    requires
        1 <= l <= 16,
        s <= lens.len(),
        x < before(lens, 0, l, s),
    ensures
        starts_with_code(lens, y, x),
    decreases l, s,
{
    if s > 0 {
        if x < before(lens, 0, l, (s - 1) as nat) {
            lemma_covered(lens, l, (s - 1) as nat, x)
        } else {
            s - 1
        }
    } else {
        lemma_covered(lens, (l - 1) as nat, lens.len(), x)
    }
}

/// If any symbol is coded, every stream starts with the code of a symbol.
pub proof fn lemma_every_stream_has_a_code(
    lens: Seq<u8>,
    nb: nat,
    table: Seq<u16>,
    x: nat,
) -> (y: int)
    requires
        table_fits(table, nb as int),
        lens.len() <= first_node(nb),
        built_table(lens, nb, table).1,
        !no_codes(lens),
        x < 0x10000,
    ensures
        starts_with_code(lens, y, x),
{
    lemma_accepted_lengths(lens, nb, table);
    if before(lens, 0, nb, lens.len()) == 0x10000 {
        lemma_covered(lens, nb, lens.len(), x)
    } else {
        lemma_covered(lens, 16, lens.len(), x)
    }
}

/// A table can be built without codes.
pub proof fn lemma_no_codes_accepted(lens: Seq<u8>, nb: nat, table: Seq<u16>)
    requires
        no_codes(lens),
    ensures
        built_table(lens, nb, table).1,
{
    lemma_no_short(lens, nb, table, 1, 0, 0);
    lemma_pow2_pos(nb);
    let cleared = filled(table, 0, pow2(nb) as int, 0u16);
    lemma_no_long(lens, nb, cleared, first_node(nb), nb + 1, 0, 0);
}

/// Without codes, everything is looked up as the first symbol.
pub proof fn lemma_no_codes_lookup(lens: Seq<u8>, nb: nat, table: Seq<u16>, buf: u32)
    requires
        table_fits(table, nb as int),
        1 <= lens.len() <= first_node(nb),
        no_codes(lens),
    ensures
        lookup(built_table(lens, nb, table).0, nb, lens.len(), buf) == Some(0nat),
{
    lemma_no_short(lens, nb, table, 1, 0, 0);
    lemma_pow2_pos(nb);
    let cleared = filled(table, 0, pow2(nb) as int, 0u16);
    lemma_no_long(lens, nb, cleared, first_node(nb), nb + 1, 0, 0);
    lemma_buffer_prefix(nb, buf, nb);
    let w = (32 - nb) as u32;
    lemma_pow2_adds(nb, w as nat);
    lemma2_to64();
    vstd::arithmetic::div_mod::lemma_multiply_divide_lt(
        buf as int,
        pow2(w as nat) as int,
        pow2(nb) as int,
    );
}

proof fn lemma_no_short(lens: Seq<u8>, nb: nat, t: Seq<u16>, l: nat, s: nat, pos: nat)
    requires
        no_codes(lens),
        l >= 1,
    ensures
        place_short(lens, nb, t, l, s, pos) == (Placed { table: t, pos, ok: true }),
    decreases nb + 1 - l, lens.len() - s,
{
    if l <= nb {
        if s >= lens.len() {
            lemma_no_short(lens, nb, t, l + 1, 0, pos);
        } else {
            lemma_no_short(lens, nb, t, l, s + 1, pos);
        }
    }
}

proof fn lemma_no_long(
    lens: Seq<u8>,
    nb: nat,
    t: Seq<u16>,
    next: nat,
    l: nat,
    s: nat,
    pos: nat,
)
    requires
        no_codes(lens),
        l >= 1,
    ensures
        place_long(lens, nb, t, next, l, s, pos) == (Placed { table: t, pos, ok: true }),
    decreases 17 - l, lens.len() - s,
{
    if l <= 16 {
        if s >= lens.len() {
            lemma_no_long(lens, nb, t, next, l + 1, 0, pos);
        } else {
            lemma_no_long(lens, nb, t, next, l, s + 1, pos);
        }
    }
}

/// What a table decodes is a matter of the code lengths alone: what the table held before it
/// was built does not show.
pub proof fn lemma_lookup_by_lengths(
    lens: Seq<u8>,
    nb: nat,
    t1: Seq<u16>,
    t2: Seq<u16>,
    buf: u32,
)
    requires
        table_fits(t1, nb as int),
        table_fits(t2, nb as int),
        1 <= lens.len() <= first_node(nb),
        built_table(lens, nb, t1).1,
        built_table(lens, nb, t2).1,
    ensures
        lookup(built_table(lens, nb, t1).0, nb, lens.len(), buf) == lookup(
            built_table(lens, nb, t2).0,
            nb,
            lens.len(),
            buf,
        ),
        lookup(built_table(lens, nb, t1).0, nb, lens.len(), buf) is Some,
{
    if no_codes(lens) {
        lemma_no_codes_lookup(lens, nb, t1, buf);
        lemma_no_codes_lookup(lens, nb, t2, buf);
    } else {
        vstd::bits::lemma_u32_shr_is_div(buf, 16);
        lemma2_to64();
        let y = lemma_every_stream_has_a_code(lens, nb, t1, (buf >> 16) as nat);
        lemma_decodes_canonical_code(lens, nb, t1, buf, y);
        lemma_decodes_canonical_code(lens, nb, t2, buf, y);
    }
}

/// A tree whose table was built from its own code lengths reads the symbol whose canonical
/// code stands next in the stream, and steps over that code and nothing else.
pub proof fn lemma_tree_reads_code(
    tree: Tree,
    table: Seq<u16>,
    src: Seq<u8>,
    b: BitState,
    p: int,
    y: int,
)
    requires
        b.stands_at(src, p),
        tree.nsyms <= tree.lens.len(),
        table_fits(table, tree.nbits as int),
        tree.nsyms <= first_node(tree.nbits),
        built_table(coded(tree.lens, tree.nsyms as int), tree.nbits, table) == (tree.table, true),
        starts_with_code(coded(tree.lens, tree.nsyms as int), y, stream_number(src, p, 16)),
    ensures
        tree.symbol(src, b) == Some(y as nat),
        tree.after(src, b).stands_at(src, p + tree.lens[y]),
{
    let lens = coded(tree.lens, tree.nsyms as int);
    assert(lens.len() == tree.nsyms);
    assert(lens[y] == tree.lens[y]);
    let f = b.fetch(src, 16);
    lemma_looks_ahead(src, b, p, 16);
    lemma_decodes_canonical_code(lens, tree.nbits, table, f.buf, y);
    lemma_steps_over(src, f, p, tree.lens[y] as int);
}

/// A tree whose table was built from its own code lengths, at least one of which is not zero,
/// reads a symbol from any reader: the one whose canonical code makes up its next bits, zero
/// bits following behind the end of the input. It steps over that code and nothing else.
pub proof fn lemma_tree_reads_any(tree: Tree, table: Seq<u16>, src: Seq<u8>, b: BitState) -> (y:
    int)
    requires
        tree.nsyms <= tree.lens.len(),
        table_fits(table, tree.nbits as int),
        tree.nsyms <= first_node(tree.nbits),
        built_table(coded(tree.lens, tree.nsyms as int), tree.nbits, table) == (tree.table, true),
        !no_codes(coded(tree.lens, tree.nsyms as int)),
    ensures
        0 <= y < tree.nsyms,
        1 <= tree.lens[y] <= 16,
        starts_with_code(coded(tree.lens, tree.nsyms as int), y, b.value(src, 16) as nat),
        tree.symbol(src, b) == Some(y as nat),
        tree.after(src, b) == b.fetch(src, 16).skip(tree.lens[y] as int),
        forall|p: int| #[trigger]
            b.stands_at(src, p) ==> starts_with_code(
                coded(tree.lens, tree.nsyms as int),
                y,
                stream_number(src, p, 16),
            ) && tree.after(src, b).stands_at(src, p + tree.lens[y]),
{
    let lens = coded(tree.lens, tree.nsyms as int);
    assert(lens.len() == tree.nsyms);
    let f = b.fetch(src, 16);
    let x = f.buf >> 16;
    vstd::bits::lemma_u32_shr_is_div(f.buf, 16);
    lemma2_to64();
    let y = lemma_every_stream_has_a_code(lens, tree.nbits, table, x as nat);
    assert(lens[y] == tree.lens[y]);
    lemma_decodes_canonical_code(lens, tree.nbits, table, f.buf, y);
    assert forall|p: int| #[trigger] b.stands_at(src, p) implies starts_with_code(
        lens,
        y,
        stream_number(src, p, 16),
    ) && tree.after(src, b).stands_at(src, p + tree.lens[y]) by {
        lemma_looks_ahead(src, b, p, 16);
        lemma_tree_reads_code(tree, table, src, b, p, y);
    }
    y
}

} // verus!
