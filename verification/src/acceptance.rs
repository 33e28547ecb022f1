//! Which code lengths a decode table can be built from.

use vstd::arithmetic::power2::*;
use vstd::prelude::*;

use crate::canonical::{lemma_accepted_lengths, lemma_no_codes_accepted};
use crate::code_count::{
    lemma_long_codes_count, lemma_long_symbols_bound, lemma_nodes_after_code,
    lemma_nodes_after_row, lemma_nodes_at_first, lemma_nodes_bound, lemma_open_bound,
    lemma_room_left, long_codes, nodes_before,
};
use crate::code_place::{lemma_cleared, lemma_place_long};
use crate::code_tree::{
    before, first_node, lemma_before_grows, lemma_before_scales, lemma_first_node,
    lemma_place_short, lemma_short_size, lemma_with_code, right_empty, size, split_by_nodes,
    tree_ok, with_code,
};
use crate::huffman::{built_table, filled, grow_path, no_codes, place_long, place_short, table_fits};

verus! {

/// With room for a node per long code, complete lengths place every long code.
proof fn lemma_long_codes_fit(
    lens: Seq<u8>,
    nb: nat,
    t: Seq<u16>,
    next: nat,
    l: nat,
    s: nat,
    pos: nat,
)
    requires
        tree_ok(t, nb, next),
        lens.len() <= first_node(nb),
        nb < l <= 17,
        s <= lens.len(),
        l == 17 ==> s == 0,
        pos == before(lens, nb, l, s),
        before(lens, nb, 16, lens.len()) == pow2(nb) * 0x10000,
        l <= 16 ==> pos % size(nb, l) == 0 && next <= nodes_before(lens, nb, l, s, pos),
        right_empty(t, nb, pos, nb),
        split_by_nodes(t, nb, pos),
        2 * (first_node(nb) + long_codes(lens, nb, 16, lens.len())) <= t.len(),
    ensures
        place_long(lens, nb, t, next, l, s, pos).ok,
    decreases 17 - l, lens.len() - s,
{
    if l <= 16 {
        lemma_before_grows(lens, nb, l, s, 16, lens.len());
        lemma_pow2_pos((nb + 16 - l) as nat);
        let a = size(nb, l) as int;
        let q = pos as int / a;
        vstd::arithmetic::div_mod::lemma_fundamental_div_mod(pos as int, a);
        if s >= lens.len() {
            if l < 16 {
                lemma_nodes_after_row(lens, nb, l, pos);
            }
            lemma_long_codes_fit(lens, nb, t, next, l + 1, 0, pos);
        } else if lens[s as int] == l {
            let end = pos + size(nb, l);
            let k = (l - nb) as nat;
            let full = pow2(nb) * 0x10000;
            lemma_before_grows(lens, nb, l, s + 1, 16, lens.len());
            lemma_nodes_bound(lens, nb, l, s, pos);
            lemma_nodes_after_code(lens, nb, l, s, pos);
            lemma_with_code(t, nb, next, l, pos, s as u16);
            // The places of this length in the whole code space.
            let places = pow2(l) as int;
            lemma_pow2_adds(l, (nb + 16 - l) as nat);
            lemma_pow2_adds(nb, 16);
            lemma_pow2_adds(nb, k);
            lemma2_to64();
            assert(places * a == full);
            assert(end == (q + 1) * a + 0) by (nonlinear_arith)
                requires
                    pos == a * q + 0,
                    end == pos + a,
            ;
            vstd::arithmetic::div_mod::lemma_fundamental_div_mod_converse(
                end as int,
                a,
                q + 1,
                0,
            );
            assert(q + 1 <= places) by (nonlinear_arith)
                requires
                    (q + 1) * a <= places * a,
                    a > 0,
            ;
            lemma_pow2_pos(k);
            assert(places as nat % pow2(k) == 0) by {
                vstd::arithmetic::div_mod::lemma_mod_multiples_basic(
                    pow2(nb) as int,
                    pow2(k) as int,
                );
            }
            lemma_open_bound((q + 1) as nat, k, places as nat);
            lemma_room_left(lens, nb, l, s + 1, 16, lens.len());
            let left = long_codes(lens, nb, 16, lens.len()) - long_codes(lens, nb, l, s + 1);
            assert(places - (q + 1) <= left) by (nonlinear_arith)
                requires
                    places * a - (q + 1) * a <= left * a,
                    a > 0,
            ;
            let path = grow_path(t, next, pos / 0x10000, pos, 0, k);
            assert(path.ok);
            lemma_long_codes_fit(
                lens,
                nb,
                with_code(t, nb, next, l, pos, s as u16),
                path.next,
                l,
                s + 1,
                end,
            );
        } else {
            lemma_long_codes_fit(lens, nb, t, next, l, s + 1, pos);
        }
    }
}

/// The short codes of complete lengths fit the direct entries.
proof fn lemma_short_codes_fit(lens: Seq<u8>, nb: nat, t: Seq<u16>, l: nat, s: nat, pos: nat)
    requires
        1 <= nb <= 16,
        1 <= l <= nb + 1,
        s <= lens.len(),
        l == nb + 1 ==> s == 0,
        pos * 0x10000 == before(lens, nb, l, s),
        before(lens, nb, nb, lens.len()) <= pow2(nb) * 0x10000,
    ensures
        place_short(lens, nb, t, l, s, pos).ok,
    decreases nb + 1 - l, lens.len() - s,
{
    if l <= nb {
        if s >= lens.len() {
            lemma_short_codes_fit(lens, nb, t, l + 1, 0, pos);
        } else if lens[s as int] == l {
            lemma_short_size(nb, l);
            let end = pos + pow2((nb - l) as nat);
            lemma_before_grows(lens, nb, l, s + 1, nb, lens.len());
            assert(end <= pow2(nb));
            lemma_short_codes_fit(
                lens,
                nb,
                filled(t, pos as int, end as int, s as u16),
                l,
                s + 1,
                end,
            );
        } else {
            lemma_short_codes_fit(lens, nb, t, l, s + 1, pos);
        }
    }
}

/// Complete code lengths are accepted.
proof fn lemma_complete_lengths(lens: Seq<u8>, nb: nat, table: Seq<u16>)
    requires
        table_fits(table, nb as int),
        lens.len() <= first_node(nb),
        pow2(nb) + 2 * lens.len() <= table.len(),
        before(lens, 0, 16, lens.len()) == 0x10000,
    ensures
        built_table(lens, nb, table).1,
{
    let n = lens.len();
    lemma_pow2_pos((nb - 1) as nat);
    lemma_pow2_unfold(nb);
    lemma_before_scales(lens, nb, 16, n);
    let full = pow2(nb) * 0x10000;
    assert(before(lens, nb, 16, n) == full);
    lemma_before_grows(lens, nb, nb, n, 16, n);
    lemma_short_codes_fit(lens, nb, table, 1, 0, 0);
    let short = place_short(lens, nb, table, 1, 0, 0);
    lemma_first_node(nb);
    lemma_place_short(lens, nb, table, 1, 0, 0);
    if short.pos != pow2(nb) {
        let cleared = filled(short.table, short.pos as int, pow2(nb) as int, 0u16);
        let pos = short.pos * 0x10000;
        lemma_cleared(lens, nb, table);
        lemma_nodes_at_first(lens, nb, pos);
        lemma_long_codes_count(lens, nb, 16);
        lemma_long_symbols_bound(lens, nb, 16, n);
        lemma_long_codes_fit(lens, nb, cleared, first_node(nb), nb + 1, 0, pos);
        lemma_place_long(lens, nb, cleared, first_node(nb), nb + 1, 0, pos);
    }
}

/// Short code lengths that fill the direct entries are accepted.
proof fn lemma_complete_short_lengths(lens: Seq<u8>, nb: nat, table: Seq<u16>)
    requires
        table_fits(table, nb as int),
        lens.len() <= first_node(nb),
        before(lens, 0, nb, lens.len()) == 0x10000,
    ensures
        built_table(lens, nb, table).1,
{
    lemma_pow2_pos((nb - 1) as nat);
    lemma_pow2_unfold(nb);
    lemma_before_scales(lens, nb, nb, lens.len());
    lemma_short_codes_fit(lens, nb, table, 1, 0, 0);
    lemma_first_node(nb);
    lemma_place_short(lens, nb, table, 1, 0, 0);
}

/// The code lengths that a table can be built from are those that fill the code space
/// exactly, those of which the short ones alone do, and none at all. What the table held
/// before does not matter, given two entries per symbol behind the direct ones.
pub proof fn lemma_accepted_exactly(lens: Seq<u8>, nb: nat, table: Seq<u16>)
    requires
        table_fits(table, nb as int),
        lens.len() <= first_node(nb),
        pow2(nb) + 2 * lens.len() <= table.len(),
    ensures
        built_table(lens, nb, table).1 <==> (no_codes(lens) || before(lens, 0, nb, lens.len())
            == 0x10000 || before(lens, 0, 16, lens.len()) == 0x10000),
{
    if built_table(lens, nb, table).1 {
        lemma_accepted_lengths(lens, nb, table);
    } else {
        if no_codes(lens) {
            lemma_no_codes_accepted(lens, nb, table);
        } else if before(lens, 0, nb, lens.len()) == 0x10000 {
            lemma_complete_short_lengths(lens, nb, table);
        } else if before(lens, 0, 16, lens.len()) == 0x10000 {
            lemma_complete_lengths(lens, nb, table);
        }
    }
}

} // verus!
