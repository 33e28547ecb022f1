//! The tree of codes that a decode table holds.
//!
//! A prefix of `d` bits with the value `p` is written `(p, d)`. The entries that a decode
//! table reaches from its direct ones make up a binary tree of such prefixes.

use vstd::arithmetic::power2::*;
use vstd::prelude::*;

use crate::huffman::{bit_of, filled, grow_path, place_short};

verus! {

/// The entry that the prefix `(p, d)` leads to, with `nb` bits taken by the direct entries.
pub open spec fn cell(t: Seq<u16>, nb: nat, p: nat, d: nat) -> nat
    decreases d,
{
    if d <= nb {
        p
    } else {
        2 * (t[cell(t, nb, p / 2, (d - 1) as nat) as int] as nat) + p % 2
    }
}

/// The content of that entry.
pub open spec fn held(t: Seq<u16>, nb: nat, p: nat, d: nat) -> nat {
    t[cell(t, nb, p, d) as int] as nat
}

/// The first number that stands for a node.
pub open spec fn first_node(nb: nat) -> nat {
    pow2((nb - 1) as nat)
}

/// There are few direct entries, so node numbers start low.
pub proof fn lemma_first_node(nb: nat)
    requires
        1 <= nb <= 15,
    ensures
        1 <= first_node(nb) <= 0x4000,
        2 * first_node(nb) == pow2(nb),
{
    lemma2_to64();
    lemma_pow2_unfold(nb);
    lemma_pow2_pos((nb - 1) as nat);
    if nb < 15 {
        lemma_pow2_strictly_increases((nb - 1) as nat, 14);
    }
}

/// Every proper prefix of `(p, d)` leads to a node.
pub open spec fn live(t: Seq<u16>, nb: nat, p: nat, d: nat) -> bool
    decreases d,
{
    if d < nb {
        false
    } else if d == nb {
        p < pow2(nb)
    } else {
        live(t, nb, p / 2, (d - 1) as nat) && held(t, nb, p / 2, (d - 1) as nat) >= first_node(nb)
    }
}

/// The nodes below `next` make up a tree: no two prefixes share an entry.
pub open spec fn tree_ok(t: Seq<u16>, nb: nat, next: nat) -> bool {
    &&& nb >= 1
    &&& first_node(nb) <= next
    &&& 2 * next <= t.len()
    &&& next <= 0x10000
    &&& forall|p: nat, d: nat| #[trigger]
        live(t, nb, p, d) ==> cell(t, nb, p, d) < 2 * next && held(t, nb, p, d) < next
    &&& forall|p: nat, d: nat, q: nat, e: nat| #[trigger]
        live(t, nb, p, d) && #[trigger] live(t, nb, q, e) && cell(t, nb, p, d) == cell(
            t,
            nb,
            q,
            e,
        ) ==> p == q && d == e
}

/// The table after turning the empty entry of `(p, d)` into the node `next`.
pub open spec fn with_node(t: Seq<u16>, nb: nat, next: nat, p: nat, d: nat) -> Seq<u16> {
    t.update((2 * next) as int, 0).update((2 * next + 1) as int, 0).update(
        cell(t, nb, p, d) as int,
        next as u16,
    )
}

/// A new node leaves every other prefix as it was.
proof fn lemma_node_keeps(t: Seq<u16>, nb: nat, next: nat, p: nat, d: nat, q: nat, e: nat)
    requires
        tree_ok(t, nb, next),
        live(t, nb, p, d),
        held(t, nb, p, d) == 0,
        2 * next + 1 < t.len(),
        next < 0x10000,
        live(t, nb, q, e),
    ensures
        ({
            let t2 = with_node(t, nb, next, p, d);
            &&& live(t2, nb, q, e)
            &&& cell(t2, nb, q, e) == cell(t, nb, q, e)
            &&& held(t2, nb, q, e) == if q == p && e == d {
                next
            } else {
                held(t, nb, q, e)
            }
        }),
    decreases e,
{
    lemma_pow2_pos((nb - 1) as nat);
    if e > nb {
        lemma_node_keeps(t, nb, next, p, d, q / 2, (e - 1) as nat);
    }
}

/// A new node adds its two children and no other prefix.
proof fn lemma_node_adds(t: Seq<u16>, nb: nat, next: nat, p: nat, d: nat, q: nat, e: nat)
    requires
        tree_ok(t, nb, next),
        live(t, nb, p, d),
        held(t, nb, p, d) == 0,
        2 * next + 1 < t.len(),
        next < 0x10000,
        live(with_node(t, nb, next, p, d), nb, q, e),
    ensures
        live(t, nb, q, e) || (q / 2 == p && e == d + 1),
    decreases e,
{
    let t2 = with_node(t, nb, next, p, d);
    lemma_pow2_pos((nb - 1) as nat);
    if e > nb {
        let q1 = q / 2;
        let e1 = (e - 1) as nat;
        lemma_node_adds(t, nb, next, p, d, q1, e1);
        lemma_node_keeps(t, nb, next, p, d, p, d);
        if live(t, nb, q1, e1) {
            lemma_node_keeps(t, nb, next, p, d, q1, e1);
        } else {
            assert(cell(t2, nb, q1, e1) == 2 * next + q1 % 2);
            assert(held(t2, nb, q1, e1) == 0);
        }
    }
}

/// Turning an empty entry into a node keeps the tree a tree.
proof fn lemma_with_node(t: Seq<u16>, nb: nat, next: nat, p: nat, d: nat)
    requires
        tree_ok(t, nb, next),
        live(t, nb, p, d),
        held(t, nb, p, d) == 0,
        2 * next + 1 < t.len(),
        next < 0x10000,
    ensures
        ({
            let t2 = with_node(t, nb, next, p, d);
            &&& tree_ok(t2, nb, next + 1)
            &&& forall|q: nat, e: nat| #[trigger]
                live(t, nb, q, e) ==> {
                    &&& live(t2, nb, q, e)
                    &&& cell(t2, nb, q, e) == cell(t, nb, q, e)
                    &&& held(t2, nb, q, e) == if q == p && e == d {
                        next
                    } else {
                        held(t, nb, q, e)
                    }
                }
            &&& forall|q: nat, e: nat| #[trigger]
                live(t2, nb, q, e) ==> live(t, nb, q, e) || (q / 2 == p && e == d + 1 && held(
                    t2,
                    nb,
                    q,
                    e,
                ) == 0)
            &&& live(t2, nb, 2 * p, d + 1)
            &&& live(t2, nb, 2 * p + 1, d + 1)
        }),
{
    let t2 = with_node(t, nb, next, p, d);
    lemma_pow2_pos((nb - 1) as nat);
    assert forall|q: nat, e: nat| #[trigger] live(t, nb, q, e) implies live(t2, nb, q, e) && cell(
        t2,
        nb,
        q,
        e,
    ) == cell(t, nb, q, e) && held(t2, nb, q, e) == if q == p && e == d {
        next
    } else {
        held(t, nb, q, e)
    } by {
        lemma_node_keeps(t, nb, next, p, d, q, e);
    }
    assert forall|q: nat, e: nat| #[trigger] live(t2, nb, q, e) && !live(t, nb, q, e) implies q / 2
        == p && e == d + 1 && held(t2, nb, q, e) == 0 && cell(t2, nb, q, e) == 2 * next + q
        % 2 by {
        lemma_node_adds(t, nb, next, p, d, q, e);
    }
    assert forall|q: nat, e: nat| #[trigger] live(t2, nb, q, e) implies cell(t2, nb, q, e) < 2 * (
    next + 1) && held(t2, nb, q, e) < next + 1 by {
        if live(t, nb, q, e) {
        }
    }
    assert forall|q: nat, e: nat, r: nat, f: nat| #[trigger]
        live(t2, nb, q, e) && #[trigger] live(t2, nb, r, f) && cell(t2, nb, q, e) == cell(
            t2,
            nb,
            r,
            f,
        ) implies q == r && e == f by {
        if live(t, nb, q, e) && live(t, nb, r, f) {
        } else if live(t, nb, q, e) || live(t, nb, r, f) {
        } else {
            assert(q % 2 == r % 2);
        }
    }
}

/// Putting a symbol into the entry of `(p, d)` leaves every other prefix as it was.
proof fn lemma_leaf_keeps(
    t: Seq<u16>,
    nb: nat,
    next: nat,
    p: nat,
    d: nat,
    sym: u16,
    q: nat,
    e: nat,
)
    requires
        tree_ok(t, nb, next),
        live(t, nb, p, d),
        held(t, nb, p, d) < first_node(nb),
        sym < first_node(nb),
        live(t, nb, q, e) || live(t.update(cell(t, nb, p, d) as int, sym), nb, q, e),
    ensures
        ({
            let t2 = t.update(cell(t, nb, p, d) as int, sym);
            &&& live(t, nb, q, e)
            &&& live(t2, nb, q, e)
            &&& cell(t2, nb, q, e) == cell(t, nb, q, e)
            &&& held(t2, nb, q, e) == if q == p && e == d {
                sym as nat
            } else {
                held(t, nb, q, e)
            }
        }),
    decreases e,
{
    if e > nb {
        lemma_leaf_keeps(t, nb, next, p, d, sym, q / 2, (e - 1) as nat);
    }
}

/// Putting a symbol into an entry keeps the tree a tree.
proof fn lemma_with_leaf(t: Seq<u16>, nb: nat, next: nat, p: nat, d: nat, sym: u16)
    requires
        tree_ok(t, nb, next),
        live(t, nb, p, d),
        held(t, nb, p, d) < first_node(nb),
        sym < first_node(nb),
    ensures
        ({
            let t2 = t.update(cell(t, nb, p, d) as int, sym);
            &&& tree_ok(t2, nb, next)
            &&& forall|q: nat, e: nat|
                #![trigger live(t, nb, q, e)]
                #![trigger live(t2, nb, q, e)]
                {
                    &&& live(t, nb, q, e) == live(t2, nb, q, e)
                    &&& live(t, nb, q, e) ==> {
                        &&& cell(t2, nb, q, e) == cell(t, nb, q, e)
                        &&& held(t2, nb, q, e) == if q == p && e == d {
                            sym as nat
                        } else {
                            held(t, nb, q, e)
                        }
                    }
                }
        }),
{
    let t2 = t.update(cell(t, nb, p, d) as int, sym);
    assert forall|q: nat, e: nat|
        #![trigger live(t, nb, q, e)]
        #![trigger live(t2, nb, q, e)]
        {
            &&& live(t, nb, q, e) == live(t2, nb, q, e)
            &&& live(t, nb, q, e) ==> {
                &&& cell(t2, nb, q, e) == cell(t, nb, q, e)
                &&& held(t2, nb, q, e) == if q == p && e == d {
                    sym as nat
                } else {
                    held(t, nb, q, e)
                }
            }
        } by {
        if live(t, nb, q, e) || live(t2, nb, q, e) {
            lemma_leaf_keeps(t, nb, next, p, d, sym, q, e);
        }
    }
    assert forall|q: nat, e: nat| #[trigger] live(t2, nb, q, e) implies cell(t2, nb, q, e) < 2
        * next && held(t2, nb, q, e) < next by {
        assert(live(t, nb, q, e));
    }
    assert forall|q: nat, e: nat, r: nat, f: nat| #[trigger]
        live(t2, nb, q, e) && #[trigger] live(t2, nb, r, f) && cell(t2, nb, q, e) == cell(
            t2,
            nb,
            r,
            f,
        ) implies q == r && e == f by {
        assert(live(t, nb, q, e) && live(t, nb, r, f));
    }
}

/// How much of the code space a code of `d` bits takes, in units of `2^-16` direct entries.
pub open spec fn size(nb: nat, d: nat) -> nat {
    pow2((nb + 16 - d) as nat)
}

/// Where the prefix `(p, d)` starts in the code space.
pub open spec fn lo(nb: nat, p: nat, d: nat) -> nat {
    p * size(nb, d)
}

/// Where the prefix `(p, d)` ends in the code space.
pub open spec fn hi(nb: nat, p: nat, d: nat) -> nat {
    (p + 1) * size(nb, d)
}

/// The prefix of `d` bits that the position `x` of the code space lies in.
pub open spec fn pre(nb: nat, x: nat, d: nat) -> nat {
    x / size(nb, d)
}

/// A prefix of one more bit takes half the room.
pub proof fn lemma_size(nb: nat, d: nat)
    requires
        d < nb + 16,
    ensures
        size(nb, d) == 2 * size(nb, d + 1),
        size(nb, d) > 0,
        size(nb, d + 1) > 0,
{
    lemma_pow2_unfold((nb + 16 - d) as nat);
    lemma_pow2_pos((nb + 16 - d) as nat);
    lemma_pow2_pos((nb + 16 - d - 1) as nat);
}

/// The prefix of one more bit is one of the two children.
proof fn lemma_pre(nb: nat, x: nat, d: nat)
    requires
        d < nb + 16,
    ensures
        pre(nb, x, d + 1) / 2 == pre(nb, x, d),
        lo(nb, pre(nb, x, d), d) <= x < hi(nb, pre(nb, x, d), d),
{
    lemma_size(nb, d);
    let s = size(nb, d + 1) as int;
    vstd::arithmetic::div_mod::lemma_div_denominator(x as int, s, 2);
    assert(s * 2 == size(nb, d)) by (nonlinear_arith)
        requires
            size(nb, d) == 2 * s,
    ;
    lemma_within(nb, x, d);
}

/// A position lies in its prefix.
proof fn lemma_within(nb: nat, x: nat, d: nat)
    requires
        d <= nb + 16,
    ensures
        lo(nb, pre(nb, x, d), d) <= x < hi(nb, pre(nb, x, d), d),
{
    lemma_pow2_pos((nb + 16 - d) as nat);
    let s = size(nb, d) as int;
    let q = x as int / s;
    vstd::arithmetic::div_mod::lemma_fundamental_div_mod(x as int, s);
    vstd::arithmetic::div_mod::lemma_mod_bound(x as int, s);
    assert(q * s <= x < (q + 1) * s) by (nonlinear_arith)
        requires
            x == s * q + x as int % s,
            0 <= x as int % s < s,
    ;
}

/// A prefix that holds a position is the prefix of that position.
pub proof fn lemma_pre_unique(nb: nat, x: nat, q: nat, d: nat)
    requires
        d <= nb + 16,
        lo(nb, q, d) <= x < hi(nb, q, d),
    ensures
        pre(nb, x, d) == q,
{
    lemma_pow2_pos((nb + 16 - d) as nat);
    let s = size(nb, d) as int;
    let r = x - q * s;
    assert(0 <= r < s) by (nonlinear_arith)
        requires
            q * s <= x < (q + 1) * s,
            r == x - q * s,
    ;
    vstd::arithmetic::div_mod::lemma_fundamental_div_mod_converse(x as int, s, q as int, r);
}

/// Everything to the right of `pos` is empty, save the first `d` levels of the path to `pos`
/// itself.
pub open spec fn right_empty(t: Seq<u16>, nb: nat, pos: nat, d: nat) -> bool {
    forall|q: nat, e: nat| #[trigger]
        live(t, nb, q, e) && e <= 16 && lo(nb, q, e) >= pos && !(e < d && q == pre(nb, pos, e))
            ==> held(t, nb, q, e) == 0
}

/// Every prefix that `pos` splits leads to a node.
pub open spec fn split_by_nodes(t: Seq<u16>, nb: nat, pos: nat) -> bool {
    forall|q: nat, e: nat| #[trigger]
        live(t, nb, q, e) && e <= 16 && lo(nb, q, e) < pos < hi(nb, q, e) ==> held(t, nb, q, e)
            >= first_node(nb)
}

/// `t2` came from `t` without touching what lies left of `pos`, nor what is in use.
pub open spec fn kept(t: Seq<u16>, t2: Seq<u16>, nb: nat, pos: nat) -> bool {
    forall|q: nat, e: nat| #[trigger]
        live(t, nb, q, e) && e <= 16 ==> {
            &&& live(t2, nb, q, e)
            &&& cell(t2, nb, q, e) == cell(t, nb, q, e)
            &&& held(t, nb, q, e) != 0 || hi(nb, q, e) <= pos ==> held(t2, nb, q, e) == held(
                t,
                nb,
                q,
                e,
            )
        }
}

/// One level of the path to `pos` that is not there yet: it starts at `pos`, and growing it
/// leaves everything else in place.
proof fn lemma_grow_level(t: Seq<u16>, nb: nat, next: nat, pos: nat, d: nat)
    requires
        tree_ok(t, nb, next),
        nb <= d < 16,
        live(t, nb, pre(nb, pos, d), d),
        right_empty(t, nb, pos, d),
        split_by_nodes(t, nb, pos),
        held(t, nb, pre(nb, pos, d), d) == 0,
    ensures
        lo(nb, pre(nb, pos, d), d) == pos,
        2 * next + 1 < t.len() && next < 0x10000 ==> ({
            let p = pre(nb, pos, d);
            let t2 = with_node(t, nb, next, p, d);
            let p2 = pre(nb, pos, d + 1);
            &&& tree_ok(t2, nb, next + 1)
            &&& live(t2, nb, p2, d + 1)
            &&& cell(t2, nb, p2, d + 1) == 2 * next + p2 % 2
            &&& right_empty(t2, nb, pos, d + 1)
            &&& split_by_nodes(t2, nb, pos)
            &&& kept(t, t2, nb, pos)
        }),
{
    let p = pre(nb, pos, d);
    lemma_pow2_pos((nb - 1) as nat);
    lemma_pre(nb, pos, d);
    lemma_size(nb, d);
    let p2 = pre(nb, pos, d + 1);
    assert(lo(nb, p, d) == pos);
    if 2 * next + 1 < t.len() && next < 0x10000 {
        let t2 = with_node(t, nb, next, p, d);
        lemma_with_node(t, nb, next, p, d);
        assert(p2 == 2 * p || p2 == 2 * p + 1);
        assert forall|q: nat, e: nat| #[trigger]
            live(t2, nb, q, e) && e <= 16 && lo(nb, q, e) >= pos && !(e < d + 1 && q == pre(
                nb,
                pos,
                e,
            )) implies held(t2, nb, q, e) == 0 by {
            if live(t, nb, q, e) {
                assert(!(q == p && e == d));
            }
        }
        assert forall|q: nat, e: nat| #[trigger]
            live(t2, nb, q, e) && e <= 16 && lo(nb, q, e) < pos < hi(nb, q, e) implies held(
            t2,
            nb,
            q,
            e,
        ) >= first_node(nb) by {
            if !live(t, nb, q, e) {
                assert(lo(nb, q, e) >= lo(nb, p, d)) by (nonlinear_arith)
                    requires
                        size(nb, d) == 2 * size(nb, d + 1),
                        lo(nb, q, e) == q * size(nb, d + 1),
                        lo(nb, p, d) == p * size(nb, d),
                        q >= 2 * p,
                        size(nb, d + 1) > 0,
                ;
            }
        }
    }
}

/// Following the path to `pos` and growing it leads to the entry of the prefix of `pos`, and
/// leaves everything else in place. A node is added for every level that starts at `pos`.
proof fn lemma_grow(t: Seq<u16>, nb: nat, next: nat, pos: nat, level: nat, depth: nat)
    requires
        tree_ok(t, nb, next),
        level <= depth,
        nb + depth <= 16,
        next + new_levels(nb, pos, nb + level, nb + depth) <= 0x10000,
        live(t, nb, pre(nb, pos, nb + level), nb + level),
        right_empty(t, nb, pos, nb + level),
        split_by_nodes(t, nb, pos),
    ensures
        ({
            let p = pre(nb, pos, nb + level);
            let path = grow_path(t, next, cell(t, nb, p, nb + level), pos, level, depth);
            let added = new_levels(nb, pos, nb + level, nb + depth);
            &&& path.ok ==> {
                &&& tree_ok(path.table, nb, path.next)
                &&& path.table.len() == t.len()
                &&& live(path.table, nb, pre(nb, pos, nb + depth), nb + depth)
                &&& path.entry == cell(path.table, nb, pre(nb, pos, nb + depth), nb + depth)
                &&& right_empty(path.table, nb, pos, nb + depth)
                &&& split_by_nodes(path.table, nb, pos)
                &&& kept(t, path.table, nb, pos)
                &&& path.next == next + added
            }
            &&& 2 * (next + added) <= t.len() ==> path.ok
        }),
    decreases depth - level,
{
    let d = nb + level;
    let p = pre(nb, pos, d);
    let entry = cell(t, nb, p, d);
    let path = grow_path(t, next, entry, pos, level, depth);
    lemma_pow2_pos((nb - 1) as nat);
    if level < depth {
        lemma_pre(nb, pos, d);
        lemma_size(nb, d);
        let p2 = pre(nb, pos, d + 1);
        assert(p2 % 2 == bit_of(pos, (15 - level) as nat));
        if t[entry as int] == 0 {
            lemma_grow_level(t, nb, next, pos, d);
            if 2 * next + 1 < t.len() {
                let t2 = with_node(t, nb, next, p, d);
                lemma_grow(t2, nb, next + 1, pos, level + 1, depth);
                if path.ok {
                    lemma_kept_trans(t, t2, path.table, nb, pos, pos);
                }
            }
        } else {
            assert(lo(nb, p, d) < pos);
            lemma_grow(t, nb, next, pos, level + 1, depth);
        }
    }
}

/// The number of levels from `d` up to `l` at which a prefix starts at `pos`.
pub open spec fn new_levels(nb: nat, pos: nat, d: nat, l: nat) -> nat
    decreases l - d,
{
    if d >= l {
        0
    } else {
        new_levels(nb, pos, d + 1, l) + if lo(nb, pre(nb, pos, d), d) == pos {
            1nat
        } else {
            0
        }
    }
}

/// How much of the code space is taken by the codes that come before symbol `s` of length
/// `l`: the shorter ones, and those of the same length and a smaller symbol.
pub open spec fn before(lens: Seq<u8>, nb: nat, l: nat, s: nat) -> nat
    decreases l, s,
{
    if s > 0 {
        before(lens, nb, l, (s - 1) as nat) + if lens[s - 1] == l {
            size(nb, l)
        } else {
            0
        }
    } else if l <= 1 {
        0
    } else {
        before(lens, nb, (l - 1) as nat, lens.len())
    }
}

/// Symbol `s` of length `l` has its turn at `(l0, s0)` or later.
pub open spec fn comes_later(l0: nat, s0: nat, l: nat, s: nat) -> bool {
    l > l0 || (l == l0 && s >= s0)
}

/// The prefix that starts at `pos` and has `l` bits leads to the symbol `s`.
pub open spec fn leads_to(t: Seq<u16>, nb: nat, pos: nat, l: nat, s: nat) -> bool {
    &&& live(t, nb, pre(nb, pos, l), l)
    &&& held(t, nb, pre(nb, pos, l), l) == s
}

/// A prefix that the end of a code splits is a proper prefix of that code.
proof fn lemma_split(nb: nat, pos: nat, l: nat, q: nat, e: nat)
    requires
        l <= 16,
        e <= 16,
        pos % size(nb, l) == 0,
        lo(nb, q, e) < pos + size(nb, l) < hi(nb, q, e),
    ensures
        e < l,
        q == pre(nb, pos, e),
{
    let s = size(nb, l) as int;
    lemma_pow2_pos((nb + 16 - l) as nat);
    lemma_pow2_pos((nb + 16 - e) as nat);
    vstd::arithmetic::div_mod::lemma_fundamental_div_mod(pos as int, s);
    let c = pos as int / s;
    let z = size(nb, e) as int;
    if e >= l {
        let k = pow2((e - l) as nat) as int;
        lemma_pow2_adds((nb + 16 - e) as nat, (e - l) as nat);
        assert(s == z * k);
        assert(pos + s == z * (k * (c + 1))) by (nonlinear_arith)
            requires
                pos == s * c + 0,
                s == z * k,
        ;
        let m = k * (c + 1);
        assert(false) by (nonlinear_arith)
            requires
                q * z < z * m < (q + 1) * z,
                z > 0,
        ;
    } else {
        let k = pow2((l - e) as nat) as int;
        lemma_pow2_adds((nb + 16 - l) as nat, (l - e) as nat);
        assert(z == s * k);
        assert(q * z <= pos) by (nonlinear_arith)
            requires
                q * z < pos + s,
                pos == s * c,
                z == s * k,
                s > 0,
        {
            let m = q * k;
            assert(q * z == s * m) by (nonlinear_arith)
                requires
                    z == s * k,
                    m == q * k,
            ;
            assert(s * m < s * (c + 1)) by (nonlinear_arith)
                requires
                    s * m < pos + s,
                    pos == s * c,
            ;
            assert(m < c + 1) by (nonlinear_arith)
                requires
                    s * m < s * (c + 1),
                    s > 0,
            ;
            assert(s * m <= s * c) by (nonlinear_arith)
                requires
                    m <= c,
                    s > 0,
            ;
        }
        lemma_pre_unique(nb, pos, q, e);
    }
}

/// Every proper prefix of a live one leads to a node.
pub proof fn lemma_ancestors(t: Seq<u16>, nb: nat, x: nat, d: nat, e: nat)
    requires
        live(t, nb, pre(nb, x, d), d),
        nb <= e < d <= 16,
    ensures
        live(t, nb, pre(nb, x, e), e),
        held(t, nb, pre(nb, x, e), e) >= first_node(nb),
    decreases d - e,
{
    lemma_pre(nb, x, (d - 1) as nat);
    if e < d - 1 {
        lemma_ancestors(t, nb, x, (d - 1) as nat, e);
    }
}

/// What was kept up to a position further to the right was kept.
pub proof fn lemma_kept_trans(
    t: Seq<u16>,
    t1: Seq<u16>,
    t2: Seq<u16>,
    nb: nat,
    pos: nat,
    pos1: nat,
)
    requires
        kept(t, t1, nb, pos),
        kept(t1, t2, nb, pos1),
        pos <= pos1,
    ensures
        kept(t, t2, nb, pos),
{
}

/// The table with the leaf of a code of `l` bits at `pos`, before anything else is placed.
pub open spec fn with_code(t: Seq<u16>, nb: nat, next: nat, l: nat, pos: nat, sym: u16) -> Seq<
    u16,
> {
    let path = grow_path(t, next, pos / 0x10000, pos, 0, (l - nb) as nat);
    path.table.update(path.entry as int, sym)
}

/// Placing one long code leads its prefix to the symbol, and leaves everything in order up to
/// its end.
pub proof fn lemma_with_code(t: Seq<u16>, nb: nat, next: nat, l: nat, pos: nat, sym: u16)
    requires
        tree_ok(t, nb, next),
        sym < first_node(nb),
        nb < l <= 16,
        pos + size(nb, l) <= pow2(nb) * 0x10000,
        pos % size(nb, l) == 0,
        next + new_levels(nb, pos, nb, l) <= 0x10000,
        right_empty(t, nb, pos, nb),
        split_by_nodes(t, nb, pos),
    ensures
        ({
            let path = grow_path(t, next, pos / 0x10000, pos, 0, (l - nb) as nat);
            let t2 = with_code(t, nb, next, l, pos, sym);
            let end = pos + size(nb, l);
            let added = new_levels(nb, pos, nb, l);
            &&& path.ok ==> {
                &&& tree_ok(t2, nb, path.next)
                &&& t2.len() == t.len()
                &&& right_empty(t2, nb, end, nb)
                &&& split_by_nodes(t2, nb, end)
                &&& kept(t, t2, nb, pos)
                &&& leads_to(t2, nb, pos, l, sym as nat)
                &&& hi(nb, pre(nb, pos, l), l) == end
                &&& path.next == next + added
            }
            &&& 2 * (next + added) <= t.len() ==> path.ok
            &&& end % size(nb, l) == 0
        }),
{
    let depth = (l - nb) as nat;
    let root = pre(nb, pos, nb);
    lemma_pow2_pos((nb - 1) as nat);
    lemma_pow2_pos((nb + 16 - l) as nat);
    lemma_pow2_adds(nb, 16);
    lemma2_to64();
    let path = grow_path(t, next, pos / 0x10000, pos, 0, depth);
    let end = pos + size(nb, l);
    assert(root == pos / 0x10000);
    assert(root < pow2(nb)) by {
        vstd::arithmetic::div_mod::lemma_multiply_divide_lt(
            pos as int,
            0x10000,
            pow2(nb) as int,
        );
    }
    assert(live(t, nb, root, nb));
    lemma_grow(t, nb, next, pos, 0, depth);
    assert(end % size(nb, l) == 0) by {
        vstd::arithmetic::div_mod::lemma_mod_add_multiples_vanish(
            pos as int,
            size(nb, l) as int,
        );
    }
    if path.ok {
        let c = pre(nb, pos, l);
        lemma_within(nb, pos, l);
        vstd::arithmetic::div_mod::lemma_fundamental_div_mod(pos as int, size(nb, l) as int);
        assert(lo(nb, c, l) == pos) by (nonlinear_arith)
            requires
                lo(nb, c, l) == c * size(nb, l),
                pos == size(nb, l) * c + 0,
        ;
        assert(hi(nb, c, l) == end) by (nonlinear_arith)
            requires
                hi(nb, c, l) == (c + 1) * size(nb, l),
                pos == size(nb, l) * c + 0,
                end == pos + size(nb, l),
        ;
        assert(held(path.table, nb, c, l) == 0);
        let t2 = path.table.update(path.entry as int, sym);
        lemma_with_leaf(path.table, nb, path.next, c, l, sym);
        assert forall|q: nat, e: nat| #[trigger]
            live(t2, nb, q, e) && e <= 16 && lo(nb, q, e) >= end implies held(t2, nb, q, e)
            == 0 by {
            assert(live(path.table, nb, q, e));
            if e < l && q == pre(nb, pos, e) {
                lemma_within(nb, pos, e);
            }
        }
        assert forall|q: nat, e: nat| #[trigger]
            live(t2, nb, q, e) && e <= 16 && lo(nb, q, e) < end < hi(nb, q, e) implies held(
            t2,
            nb,
            q,
            e,
        ) >= first_node(nb) by {
            assert(live(path.table, nb, q, e));
            lemma_split(nb, pos, l, q, e);
            assert(e >= nb);
            lemma_ancestors(path.table, nb, pos, l, e);
        }
        assert(kept(path.table, t2, nb, pos));
        lemma_kept_trans(t, path.table, t2, nb, pos, pos);
    }
}

/// A code of at most `nb` bits takes whole direct entries.
pub proof fn lemma_short_size(nb: nat, l: nat)
    requires
        l <= nb,
    ensures
        size(nb, l) == pow2((nb - l) as nat) * 0x10000,
{
    lemma2_to64();
    lemma_pow2_adds((nb - l) as nat, 16);
}

/// The short codes are placed where the canonical order puts them.
pub proof fn lemma_place_short(lens: Seq<u8>, nb: nat, t: Seq<u16>, l: nat, s: nat, pos: nat)
    requires
        1 <= nb,
        1 <= l <= nb + 1,
        s <= lens.len() <= 0x10000,
        l == nb + 1 ==> s == 0,
        pos * 0x10000 == before(lens, nb, l, s),
        pos <= pow2(nb) <= t.len(),
        place_short(lens, nb, t, l, s, pos).ok,
    ensures
        ({
            let f = place_short(lens, nb, t, l, s, pos);
            &&& f.table.len() == t.len()
            &&& pos <= f.pos <= pow2(nb)
            &&& f.pos * 0x10000 == before(lens, nb, nb, lens.len())
            &&& forall|i: int| 0 <= i < pos ==> #[trigger] f.table[i] == t[i]
            &&& forall|i: int| pos <= i < f.pos ==> #[trigger] f.table[i] < lens.len()
            &&& forall|y: nat, i: int|
                #![trigger lens[y as int], f.table[i]]
                y < lens.len() && lens[y as int] <= nb && comes_later(
                    l,
                    s,
                    lens[y as int] as nat,
                    y,
                ) && before(lens, nb, lens[y as int] as nat, y) <= i * 0x10000 < before(
                    lens,
                    nb,
                    lens[y as int] as nat,
                    y,
                ) + size(nb, lens[y as int] as nat) ==> f.table[i] == y
        }),
    decreases nb + 1 - l, lens.len() - s,
{
    let f = place_short(lens, nb, t, l, s, pos);
    if l > nb {
    } else if s >= lens.len() {
        lemma_place_short(lens, nb, t, l + 1, 0, pos);
    } else if lens[s as int] == l {
        lemma_short_size(nb, l);
        let n = pow2((nb - l) as nat);
        lemma_pow2_pos((nb - l) as nat);
        let end = pos + n;
        let t2 = filled(t, pos as int, end as int, s as u16);
        lemma_place_short(lens, nb, t2, l, s + 1, end);
        assert forall|i: int| pos <= i < f.pos implies #[trigger] f.table[i] < lens.len() by {
            if i < end {
                assert(f.table[i] == t2[i]);
            }
        }
        assert forall|y: nat, i: int|
            #![trigger lens[y as int], f.table[i]]
            y < lens.len() && lens[y as int] <= nb && comes_later(l, s, lens[y as int] as nat, y)
                && before(lens, nb, lens[y as int] as nat, y) <= i * 0x10000 < before(
                lens,
                nb,
                lens[y as int] as nat,
                y,
            ) + size(nb, lens[y as int] as nat) implies f.table[i] == y by {
            if y == s {
                assert(pos <= i < end);
                assert(f.table[i] == t2[i]);
            } else {
                assert(comes_later(l, s + 1, lens[y as int] as nat, y));
            }
        }
    } else {
        lemma_place_short(lens, nb, t, l, s + 1, pos);
    }
}

/// The codes before one of length `l` take a multiple of its room.
pub proof fn lemma_before_aligned(lens: Seq<u8>, nb: nat, l: nat, s: nat)
    requires
        l <= 16,
        s <= lens.len(),
    ensures
        before(lens, nb, l, s) % size(nb, l) == 0,
    decreases l, s,
{
    let a = size(nb, l) as int;
    lemma_pow2_pos((nb + 16 - l) as nat);
    if s > 0 {
        lemma_before_aligned(lens, nb, l, (s - 1) as nat);
        vstd::arithmetic::div_mod::lemma_mod_add_multiples_vanish(
            before(lens, nb, l, (s - 1) as nat) as int,
            a,
        );
    } else if l <= 1 {
        vstd::arithmetic::div_mod::lemma_small_mod(0, a as nat);
    } else {
        let x = before(lens, nb, (l - 1) as nat, lens.len()) as int;
        lemma_before_aligned(lens, nb, (l - 1) as nat, lens.len());
        lemma_size(nb, (l - 1) as nat);
        let b = size(nb, (l - 1) as nat) as int;
        vstd::arithmetic::div_mod::lemma_fundamental_div_mod(x, b);
        let c = x / b;
        assert(x == (2 * c) * a + 0) by (nonlinear_arith)
            requires
                x == b * c + 0,
                b == 2 * a,
        ;
        vstd::arithmetic::div_mod::lemma_fundamental_div_mod_converse(x, a, 2 * c, 0);
    }
}

/// The room before a code scales with the unit.
pub proof fn lemma_before_scales(lens: Seq<u8>, nb: nat, l: nat, s: nat)
    requires
        l <= 16,
        s <= lens.len(),
    ensures
        before(lens, nb, l, s) == before(lens, 0, l, s) * pow2(nb),
        size(nb, l) == size(0, l) * pow2(nb),
    decreases l, s,
{
    lemma_pow2_adds((16 - l) as nat, nb);
    if s > 0 {
        lemma_before_scales(lens, nb, l, (s - 1) as nat);
        let a = before(lens, 0, l, (s - 1) as nat);
        let b = size(0, l);
        let k = pow2(nb);
        assert((a + b) * k == a * k + b * k) by (nonlinear_arith);
    } else if l > 1 {
        lemma_before_scales(lens, nb, (l - 1) as nat, lens.len());
    } else {
        assert(0 * pow2(nb) == 0);
    }
}

/// The room before later codes includes that before earlier ones.
pub proof fn lemma_before_grows(lens: Seq<u8>, nb: nat, l: nat, s: nat, l2: nat, s2: nat)
    requires
        l >= 1,
        comes_later(l, s, l2, s2),
        s <= lens.len(),
        s2 <= lens.len(),
    ensures
        before(lens, nb, l, s) <= before(lens, nb, l2, s2),
    decreases l2, s2,
{
    if l == l2 && s == s2 {
    } else if s2 > 0 {
        lemma_before_grows(lens, nb, l, s, l2, (s2 - 1) as nat);
    } else if l2 > 1 {
        lemma_before_grows(lens, nb, l, s, (l2 - 1) as nat, lens.len());
    }
}

/// The codes before a short one take whole direct entries.
pub proof fn lemma_before_whole(lens: Seq<u8>, nb: nat, l: nat, s: nat)
    requires
        l <= nb,
        s <= lens.len(),
    ensures
        before(lens, nb, l, s) % 0x10000 == 0,
    decreases l, s,
{
    lemma_short_size(nb, l);
    if s > 0 {
        lemma_before_whole(lens, nb, l, (s - 1) as nat);
    } else if l > 1 {
        lemma_before_whole(lens, nb, (l - 1) as nat, lens.len());
    }
}

} // verus!
