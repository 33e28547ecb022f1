//! Placing the long codes of a decode table in the tree of codes.

use vstd::arithmetic::power2::*;
use vstd::prelude::*;

use crate::code_count::{
    lemma_nodes_after_code, lemma_nodes_after_row, lemma_nodes_at_first, lemma_nodes_bound,
    nodes_before,
};
use crate::code_tree::{
    before, comes_later, first_node, hi, kept, leads_to, lemma_first_node, lemma_kept_trans,
    lemma_place_short, lemma_with_code, live, lo, right_empty, size, split_by_nodes, tree_ok,
    with_code,
};
use crate::huffman::{built_table, filled, grow_path, no_codes, place_long, place_short, table_fits};

verus! {

/// The long codes are placed where the canonical order puts them, and what was there before
/// stays.
pub proof fn lemma_place_long(
    lens: Seq<u8>,
    nb: nat,
    t: Seq<u16>,
    next: nat,
    l: nat,
    s: nat,
    pos: nat,
)
    requires
        tree_ok(t, nb, next),
        lens.len() <= first_node(nb),
        nb < l <= 17,
        s <= lens.len(),
        l == 17 ==> s == 0,
        pos == before(lens, nb, l, s),
        pos <= pow2(nb) * 0x10000,
        l <= 16 ==> pos % size(nb, l) == 0 && next <= nodes_before(lens, nb, l, s, pos),
        right_empty(t, nb, pos, nb),
        split_by_nodes(t, nb, pos),
        place_long(lens, nb, t, next, l, s, pos).ok,
    ensures
        ({
            let f = place_long(lens, nb, t, next, l, s, pos);
            &&& kept(t, f.table, nb, pos)
            &&& exists|n: nat| #[trigger] tree_ok(f.table, nb, n)
            &&& f.table.len() == t.len()
            &&& f.pos == before(lens, nb, 16, lens.len())
            &&& forall|y: nat|
                #![trigger lens[y as int]]
                y < lens.len() && lens[y as int] <= 16 && comes_later(
                    l,
                    s,
                    lens[y as int] as nat,
                    y,
                ) ==> leads_to(
                    f.table,
                    nb,
                    before(lens, nb, lens[y as int] as nat, y),
                    lens[y as int] as nat,
                    y,
                )
        }),
    decreases 17 - l, lens.len() - s, 1nat,
{
    let f = place_long(lens, nb, t, next, l, s, pos);
    if l > 16 {
    } else if s >= lens.len() {
        if l < 16 {
            lemma_nodes_after_row(lens, nb, l, pos);
        }
        lemma_place_long(lens, nb, t, next, l + 1, 0, pos);
    } else if lens[s as int] == l {
        lemma_place_code(lens, nb, t, next, l, s, pos);
    } else {
        lemma_place_long(lens, nb, t, next, l, s + 1, pos);
    }
}

/// One long code is placed where it belongs, and so are those that follow.
proof fn lemma_place_code(
    lens: Seq<u8>,
    nb: nat,
    t: Seq<u16>,
    next: nat,
    l: nat,
    s: nat,
    pos: nat,
)
    requires
        tree_ok(t, nb, next),
        lens.len() <= first_node(nb),
        nb < l <= 16,
        s < lens.len(),
        lens[s as int] == l,
        pos == before(lens, nb, l, s),
        pos <= pow2(nb) * 0x10000,
        pos % size(nb, l) == 0,
        next <= nodes_before(lens, nb, l, s, pos),
        right_empty(t, nb, pos, nb),
        split_by_nodes(t, nb, pos),
        place_long(lens, nb, t, next, l, s, pos).ok,
    ensures
        ({
            let f = place_long(lens, nb, t, next, l, s, pos);
            &&& kept(t, f.table, nb, pos)
            &&& exists|n: nat| #[trigger] tree_ok(f.table, nb, n)
            &&& f.table.len() == t.len()
            &&& f.pos == before(lens, nb, 16, lens.len())
            &&& forall|y: nat|
                #![trigger lens[y as int]]
                y < lens.len() && lens[y as int] <= 16 && comes_later(
                    l,
                    s,
                    lens[y as int] as nat,
                    y,
                ) ==> leads_to(
                    f.table,
                    nb,
                    before(lens, nb, lens[y as int] as nat, y),
                    lens[y as int] as nat,
                    y,
                )
        }),
    decreases 17 - l, lens.len() - s, 0nat,
{
    let f = place_long(lens, nb, t, next, l, s, pos);
    let sym = s as u16;
    lemma_nodes_bound(lens, nb, l, s, pos);
    lemma_nodes_after_code(lens, nb, l, s, pos);
    lemma_with_code(t, nb, next, l, pos, sym);
    let path = grow_path(t, next, pos / 0x10000, pos, 0, (l - nb) as nat);
    let t2 = with_code(t, nb, next, l, pos, sym);
    let end = pos + size(nb, l);
    lemma_place_long(lens, nb, t2, path.next, l, s + 1, end);
    lemma_kept_trans(t, t2, f.table, nb, pos, end);
    assert(leads_to(f.table, nb, pos, l, s));
}

/// A table that only has direct entries is a tree.
proof fn lemma_flat_tree(t: Seq<u16>, nb: nat)
    requires
        1 <= nb <= 15,
        pow2(nb) <= t.len(),
        forall|i: int| 0 <= i < pow2(nb) ==> #[trigger] t[i] < first_node(nb),
    ensures
        tree_ok(t, nb, first_node(nb)),
        forall|q: nat, e: nat| #[trigger] live(t, nb, q, e) ==> e == nb,
{
    lemma_pow2_unfold(nb);
    lemma_pow2_pos((nb - 1) as nat);
    lemma_first_node(nb);
    assert forall|q: nat, e: nat| #[trigger] live(t, nb, q, e) implies e == nb by {
        lemma_flat_live(t, nb, q, e);
    }
}

proof fn lemma_flat_live(t: Seq<u16>, nb: nat, q: nat, e: nat)
    requires
        forall|i: int| 0 <= i < pow2(nb) ==> #[trigger] t[i] < first_node(nb),
        live(t, nb, q, e),
    ensures
        e == nb,
    decreases e,
{
    if e > nb {
        lemma_flat_live(t, nb, q / 2, (e - 1) as nat);
    }
}

/// Behind the short codes the direct entries are empty, and the table is a tree.
pub proof fn lemma_cleared(lens: Seq<u8>, nb: nat, table: Seq<u16>)
    requires
        table_fits(table, nb as int),
        lens.len() <= first_node(nb),
        place_short(lens, nb, table, 1, 0, 0).ok,
    ensures
        ({
            let short = place_short(lens, nb, table, 1, 0, 0);
            let cleared = filled(short.table, short.pos as int, pow2(nb) as int, 0u16);
            &&& tree_ok(cleared, nb, first_node(nb))
            &&& right_empty(cleared, nb, short.pos * 0x10000, nb)
            &&& split_by_nodes(cleared, nb, short.pos * 0x10000)
        }),
{
    let short = place_short(lens, nb, table, 1, 0, 0);
    let cleared = filled(short.table, short.pos as int, pow2(nb) as int, 0u16);
    lemma_pow2_pos((nb - 1) as nat);
    lemma_pow2_unfold(nb);
    lemma_first_node(nb);
    lemma_place_short(lens, nb, table, 1, 0, 0);
    lemma_flat_tree(cleared, nb);
    lemma2_to64();
    lemma_pow2_adds(nb, 16);
    assert(size(nb, nb) == 0x10000);
    assert forall|q: nat, e: nat| #[trigger] live(cleared, nb, q, e) implies e == nb && lo(nb, q, e)
        == q * 0x10000 && hi(nb, q, e) == (q + 1) * 0x10000 by {
        assert(lo(nb, q, nb) == q * size(nb, nb));
        assert(hi(nb, q, nb) == (q + 1) * size(nb, nb));
    }
}

/// The long codes are placed where the canonical order puts them.
pub proof fn lemma_long_part(lens: Seq<u8>, nb: nat, table: Seq<u16>)
    requires
        table_fits(table, nb as int),
        lens.len() <= first_node(nb),
        built_table(lens, nb, table).1,
        place_short(lens, nb, table, 1, 0, 0).pos != pow2(nb),
    ensures
        ({
            let short = place_short(lens, nb, table, 1, 0, 0);
            let cleared = filled(short.table, short.pos as int, pow2(nb) as int, 0u16);
            let f = built_table(lens, nb, table).0;
            &&& kept(cleared, f, nb, short.pos * 0x10000)
            &&& exists|n: nat| #[trigger] tree_ok(f, nb, n)
            &&& before(lens, nb, 16, lens.len()) == pow2(nb) * 0x10000 || no_codes(lens)
            &&& forall|y: nat|
                #![trigger lens[y as int]]
                y < lens.len() && lens[y as int] <= 16 && comes_later(
                    nb + 1,
                    0,
                    lens[y as int] as nat,
                    y,
                ) ==> leads_to(
                    f,
                    nb,
                    before(lens, nb, lens[y as int] as nat, y),
                    lens[y as int] as nat,
                    y,
                )
        }),
{
    let short = place_short(lens, nb, table, 1, 0, 0);
    let cleared = filled(short.table, short.pos as int, pow2(nb) as int, 0u16);
    lemma_pow2_pos((nb - 1) as nat);
    lemma_pow2_unfold(nb);
    lemma_first_node(nb);
    lemma_place_short(lens, nb, table, 1, 0, 0);
    lemma_cleared(lens, nb, table);
    lemma_nodes_at_first(lens, nb, short.pos * 0x10000);
    lemma_place_long(lens, nb, cleared, first_node(nb), nb + 1, 0, short.pos * 0x10000);
}

} // verus!
