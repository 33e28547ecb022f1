//! How many nodes the tree of codes in a decode table takes.

use vstd::arithmetic::power2::*;
use vstd::prelude::*;

use crate::code_tree::{
    before, comes_later, first_node, lemma_first_node, lemma_size, lo, new_levels, pre, size,
};

verus! {

/// How many times `q` can be halved, up to `k` times.
pub open spec fn halvings(q: nat, k: nat) -> nat
    decreases k,
{
    if k == 0 || q % 2 != 0 {
        0
    } else {
        1 + halvings(q / 2, (k - 1) as nat)
    }
}

/// The empty entries that the path to the `q`-th place of depth `k` leaves to its right.
pub open spec fn open_slots(q: nat, k: nat) -> nat
    decreases k,
{
    if k == 0 {
        0
    } else if q % 2 == 0 {
        open_slots(q / 2, (k - 1) as nat)
    } else {
        1 + open_slots((q + 1) / 2, (k - 1) as nat)
    }
}

/// Filling one place takes away an empty entry and adds one for every new node.
proof fn lemma_open_step(q: nat, k: nat)
    ensures
        open_slots(q, k) + halvings(q, k) <= open_slots(q + 1, k) + 1,
    decreases k,
{
    if k > 0 {
        if q % 2 == 0 {
            lemma_open_step(q / 2, (k - 1) as nat);
            assert((q + 1 + 1) / 2 == q / 2 + 1);
        } else {
            assert((q + 1) % 2 == 0);
        }
    }
}

/// There are no more empty entries than places left.
pub proof fn lemma_open_bound(q: nat, k: nat, full: nat)
    requires
        q <= full,
        full % pow2(k) == 0,
    ensures
        open_slots(q, k) <= full - q,
    decreases k,
{
    if k > 0 {
        lemma_pow2_unfold(k);
        let a = pow2((k - 1) as nat) as int;
        lemma_pow2_pos((k - 1) as nat);
        vstd::arithmetic::div_mod::lemma_fundamental_div_mod(full as int, 2 * a);
        let c = full as int / (2 * a);
        assert(full == 2 * (a * c)) by (nonlinear_arith)
            requires
                full == (2 * a) * c + 0,
        ;
        assert(full / 2 == a * c);
        assert((a * c) % a == 0) by {
            vstd::arithmetic::div_mod::lemma_mod_multiples_basic(c, a);
            assert(a * c == c * a) by (nonlinear_arith);
        }
        if q % 2 == 0 {
            lemma_open_bound(q / 2, (k - 1) as nat, full / 2);
        } else {
            lemma_open_bound((q + 1) / 2, (k - 1) as nat, full / 2);
        }
    }
}

/// One more level at the lower end.
proof fn lemma_new_levels_last(nb: nat, pos: nat, d: nat, l: nat)
    requires
        d <= l,
    ensures
        new_levels(nb, pos, d, l + 1) == new_levels(nb, pos, d, l) + if lo(
            nb,
            pre(nb, pos, l),
            l,
        ) == pos {
            1nat
        } else {
            0
        },
    decreases l - d,
{
    if d < l {
        lemma_new_levels_last(nb, pos, d + 1, l);
    } else {
        assert(new_levels(nb, pos, d + 1, l + 1) == 0);
    }
}

/// A prefix starts at a position exactly if the position is a multiple of its room.
proof fn lemma_lo_aligned(nb: nat, pos: nat, d: nat)
    requires
        d <= nb + 16,
    ensures
        lo(nb, pre(nb, pos, d), d) == pos <==> pos % size(nb, d) == 0,
{
    lemma_pow2_pos((nb + 16 - d) as nat);
    let a = size(nb, d) as int;
    vstd::arithmetic::div_mod::lemma_fundamental_div_mod(pos as int, a);
    let c = pos as int / a;
    assert(c * a == a * c) by (nonlinear_arith);
}

/// The levels that start at `pos` are those that its place can be halved to.
proof fn lemma_new_levels(nb: nat, pos: nat, d: nat, l: nat)
    requires
        d <= l <= 16,
        pos % size(nb, l) == 0,
    ensures
        new_levels(nb, pos, d, l) == halvings(pos / size(nb, l), (l - d) as nat),
    decreases l - d,
{
    if d < l {
        let u = (l - 1) as nat;
        lemma_size(nb, u);
        let a = size(nb, l) as int;
        let b = size(nb, u) as int;
        let q = pos as int / a;
        vstd::arithmetic::div_mod::lemma_fundamental_div_mod(pos as int, a);
        assert(pos == a * q);
        lemma_new_levels_last(nb, pos, d, u);
        lemma_lo_aligned(nb, pos, u);
        if q % 2 == 0 {
            let h = q / 2;
            assert(pos == h * b + 0) by (nonlinear_arith)
                requires
                    pos == a * q,
                    q == 2 * h,
                    b == 2 * a,
            ;
            vstd::arithmetic::div_mod::lemma_fundamental_div_mod_converse(pos as int, b, h, 0);
            lemma_new_levels(nb, pos, d, u);
            assert(pos / size(nb, u) == (pos / size(nb, l)) / 2);
            assert((u - d) as nat == ((l - d) as nat - 1) as nat);
        } else {
            let h = q / 2;
            assert(pos == h * b + a) by (nonlinear_arith)
                requires
                    pos == a * q,
                    q == 2 * h + 1,
                    b == 2 * a,
            ;
            vstd::arithmetic::div_mod::lemma_fundamental_div_mod_converse(pos as int, b, h, a);
            lemma_no_new_levels(nb, pos, d, u);
            assert((pos / size(nb, l)) % 2 != 0);
        }
    } else {
        lemma_pow2_pos((nb + 16 - l) as nat);
    }
}

/// If no prefix of `u` bits starts at `pos`, no shorter one does.
proof fn lemma_no_new_levels(nb: nat, pos: nat, d: nat, u: nat)
    requires
        d <= u <= 16,
        pos % size(nb, u) != 0,
    ensures
        new_levels(nb, pos, d, u) == 0,
    decreases u - d,
{
    if d < u {
        let v = (u - 1) as nat;
        lemma_size(nb, v);
        let a = size(nb, u) as int;
        let b = size(nb, v) as int;
        if pos % size(nb, v) == 0 {
            vstd::arithmetic::div_mod::lemma_fundamental_div_mod(pos as int, b);
            let c = pos as int / b;
            assert(pos == (2 * c) * a + 0) by (nonlinear_arith)
                requires
                    pos == b * c + 0,
                    b == 2 * a,
            ;
            vstd::arithmetic::div_mod::lemma_fundamental_div_mod_converse(
                pos as int,
                a,
                2 * c,
                0,
            );
        }
        lemma_new_levels_last(nb, pos, d, v);
        lemma_lo_aligned(nb, pos, v);
        lemma_no_new_levels(nb, pos, d, v);
    }
}

/// The number of codes longer than `nb` bits that come before symbol `s` of length `l`.
pub open spec fn long_codes(lens: Seq<u8>, nb: nat, l: nat, s: nat) -> nat
    decreases l, s,
{
    if l <= nb {
        0
    } else if s > 0 {
        long_codes(lens, nb, l, (s - 1) as nat) + if lens[s - 1] == l {
            1nat
        } else {
            0
        }
    } else {
        long_codes(lens, nb, (l - 1) as nat, lens.len())
    }
}

/// Codes from a place on take no more room than as many codes of the length that comes first
/// there.
pub proof fn lemma_room_left(lens: Seq<u8>, nb: nat, l: nat, s: nat, l2: nat, s2: nat)
    requires
        nb < l,
        l2 <= 16,
        comes_later(l, s, l2, s2),
        s <= lens.len(),
        s2 <= lens.len(),
    ensures
        long_codes(lens, nb, l, s) <= long_codes(lens, nb, l2, s2),
        before(lens, nb, l2, s2) - before(lens, nb, l, s) <= (long_codes(lens, nb, l2, s2)
            - long_codes(lens, nb, l, s)) * size(nb, l),
    decreases l2, s2,
{
    let a = size(nb, l) as int;
    if l == l2 && s == s2 {
        assert(0 * a == 0);
    } else if s2 > 0 {
        lemma_room_left(lens, nb, l, s, l2, (s2 - 1) as nat);
        if lens[s2 - 1] == l2 {
            lemma_size_order(nb, l, l2);
            let k = long_codes(lens, nb, l2, (s2 - 1) as nat) - long_codes(lens, nb, l, s);
            assert((k + 1) * a == k * a + a) by (nonlinear_arith);
        }
    } else {
        lemma_room_left(lens, nb, l, s, (l2 - 1) as nat, lens.len());
    }
}

/// Longer codes take less room.
proof fn lemma_size_order(nb: nat, l: nat, l2: nat)
    requires
        l <= l2 <= 16,
    ensures
        size(nb, l2) <= size(nb, l),
    decreases l2 - l,
{
    if l < l2 {
        lemma_size_order(nb, l, (l2 - 1) as nat);
        lemma_size(nb, (l2 - 1) as nat);
    }
}

/// The number of symbols below `m` with a length above `nb` and up to `l`.
pub open spec fn long_symbols(lens: Seq<u8>, nb: nat, l: nat, m: nat) -> nat
    decreases m,
{
    if m == 0 {
        0
    } else {
        long_symbols(lens, nb, l, (m - 1) as nat) + if nb < lens[m - 1] <= l {
            1nat
        } else {
            0
        }
    }
}

/// The long codes, counted by length or by symbol.
pub proof fn lemma_long_codes_count(lens: Seq<u8>, nb: nat, l: nat)
    ensures
        long_codes(lens, nb, l, lens.len()) == long_symbols(lens, nb, l, lens.len()),
    decreases l,
{
    if l <= nb {
        lemma_no_long_symbols(lens, nb, l, lens.len());
    } else {
        lemma_long_codes_count(lens, nb, (l - 1) as nat);
        lemma_long_codes_row(lens, nb, l, lens.len());
        if l - 1 <= nb {
            lemma_no_long_symbols(lens, nb, (l - 1) as nat, lens.len());
        }
    }
}

proof fn lemma_no_long_symbols(lens: Seq<u8>, nb: nat, l: nat, m: nat)
    requires
        l <= nb,
    ensures
        long_symbols(lens, nb, l, m) == 0,
    decreases m,
{
    if m > 0 {
        lemma_no_long_symbols(lens, nb, l, (m - 1) as nat);
    }
}

proof fn lemma_long_codes_row(lens: Seq<u8>, nb: nat, l: nat, m: nat)
    requires
        nb < l,
        m <= lens.len(),
    ensures
        long_codes(lens, nb, l, m) - long_codes(lens, nb, (l - 1) as nat, lens.len())
            == long_symbols(lens, nb, l, m) - long_symbols(lens, nb, (l - 1) as nat, m),
    decreases m,
{
    if m > 0 {
        lemma_long_codes_row(lens, nb, l, (m - 1) as nat);
    }
}

pub proof fn lemma_long_symbols_bound(lens: Seq<u8>, nb: nat, l: nat, m: nat)
    ensures
        long_symbols(lens, nb, l, m) <= m,
    decreases m,
{
    if m > 0 {
        lemma_long_symbols_bound(lens, nb, l, (m - 1) as nat);
    }
}

/// There is at most one empty entry, and at most one new node, per level of a path.
proof fn lemma_per_level(q: nat, k: nat)
    ensures
        open_slots(q, k) <= k,
        halvings(q, k) <= k,
    decreases k,
{
    if k > 0 {
        lemma_per_level(q / 2, (k - 1) as nat);
        lemma_per_level((q + 1) / 2, (k - 1) as nat);
    }
}

/// The most nodes that there are before the code of symbol `s` of length `l` is placed at
/// `pos`: one for each long code before it, and one for each entry left empty.
pub open spec fn nodes_before(lens: Seq<u8>, nb: nat, l: nat, s: nat, pos: nat) -> nat {
    first_node(nb) + long_codes(lens, nb, l, s) + open_slots(pos / size(nb, l), (l - nb) as nat)
}

/// Node numbers stay within 16 bits.
pub proof fn lemma_nodes_bound(lens: Seq<u8>, nb: nat, l: nat, s: nat, pos: nat)
    requires
        1 <= nb < l <= 16,
        s <= lens.len() <= first_node(nb),
        pos % size(nb, l) == 0,
    ensures
        nodes_before(lens, nb, l, s, pos) + new_levels(nb, pos, nb, l) <= 0x10000,
{
    let k = (l - nb) as nat;
    lemma_pow2_pos((nb + 16 - l) as nat);
    let q = pos / size(nb, l);
    lemma_per_level(q, k);
    lemma_new_levels(nb, pos, nb, l);
    lemma_room_left(lens, nb, l, s, 16, lens.len());
    lemma_long_codes_count(lens, nb, 16);
    lemma_long_symbols_bound(lens, nb, 16, lens.len());
    lemma_first_node(nb);
}

/// Placing a code adds no more nodes than there may be before the next one.
pub proof fn lemma_nodes_after_code(lens: Seq<u8>, nb: nat, l: nat, s: nat, pos: nat)
    requires
        nb < l <= 16,
        s < lens.len(),
        lens[s as int] == l,
        pos % size(nb, l) == 0,
    ensures
        nodes_before(lens, nb, l, s, pos) + new_levels(nb, pos, nb, l) <= nodes_before(
            lens,
            nb,
            l,
            s + 1,
            pos + size(nb, l),
        ),
{
    let k = (l - nb) as nat;
    let a = size(nb, l) as int;
    lemma_pow2_pos((nb + 16 - l) as nat);
    vstd::arithmetic::div_mod::lemma_fundamental_div_mod(pos as int, a);
    let q = pos as int / a;
    lemma_new_levels(nb, pos, nb, l);
    lemma_open_step(q as nat, k);
    assert(pos + a == (q + 1) * a + 0) by (nonlinear_arith)
        requires
            pos == a * q + 0,
    ;
    vstd::arithmetic::div_mod::lemma_fundamental_div_mod_converse(pos + a, a, q + 1, 0);
}

/// Going on to the next length leaves as many.
pub proof fn lemma_nodes_after_row(lens: Seq<u8>, nb: nat, l: nat, pos: nat)
    requires
        nb < l < 16,
        pos % size(nb, l) == 0,
    ensures
        pos % size(nb, l + 1) == 0,
        nodes_before(lens, nb, l, lens.len(), pos) == nodes_before(lens, nb, l + 1, 0, pos),
{
    lemma_size(nb, l);
    let a = size(nb, l) as int;
    let b = size(nb, l + 1) as int;
    lemma_pow2_pos((nb + 16 - l) as nat);
    vstd::arithmetic::div_mod::lemma_fundamental_div_mod(pos as int, a);
    let q = pos as int / a;
    assert(pos == (2 * q) * b + 0) by (nonlinear_arith)
        requires
            pos == a * q + 0,
            a == 2 * b,
    ;
    vstd::arithmetic::div_mod::lemma_fundamental_div_mod_converse(pos as int, b, 2 * q, 0);
    let k = (l - nb) as nat;
    assert(open_slots((2 * q) as nat, k + 1) == open_slots(q as nat, k)) by {
        assert((2 * q) as nat % 2 == 0 && (2 * q) as nat / 2 == q as nat);
    }
    assert((l + 1 - nb) as nat == k + 1);
}

/// There are no nodes before the first long code.
pub proof fn lemma_nodes_at_first(lens: Seq<u8>, nb: nat, pos: nat)
    requires
        pos % 0x10000 == 0,
        nb <= 15,
    ensures
        nodes_before(lens, nb, nb + 1, 0, pos) == first_node(nb),
        pos % size(nb, nb + 1) == 0,
{
    lemma2_to64();
    assert(size(nb, nb + 1) == 0x8000);
    assert(pos / 0x8000 == 2 * (pos / 0x10000));
    assert((pos / 0x8000) % 2 == 0);
    assert(open_slots(pos / 0x8000, 1) == open_slots((pos / 0x8000) / 2, 0));
    assert(long_codes(lens, nb, nb + 1, 0) == long_codes(lens, nb, nb, lens.len()));
}

} // verus!
