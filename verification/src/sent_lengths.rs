//! The stream that the code lengths of a tree are sent as, and what reading it gives back.
//!
//! An encoder sends the new lengths of a tree against the old ones: one difference at a time, or
//! in runs of zeros and of equal lengths. The symbols go through a small code of their own, the
//! pretree, whose lengths stand before them.

use vstd::prelude::*;

use crate::acceptance::lemma_accepted_exactly;
use crate::bits::BitState;
use crate::bitstream::stream_number;
use crate::code_tree::{before, first_node, lemma_first_node};
use crate::huffman::{built_table, coded, lemma_built_shape, no_codes, table_fits, Tree};
use crate::lens::{
    deltas, fields, lens_read, lowered, pretree, LZX_PRETREE_MAXSYMBOLS,
    LZX_PRETREE_TABLEBITS,
};
use crate::tokens::{built_for, code_at, lemma_number_read, lemma_symbol_read, reads_at};

verus! {

/// One step of sending code lengths.
pub enum LengthToken {
    /// The next length is the old one less `by`, modulo 17.
    Lower { by: nat },
    /// The next `count` lengths are zero.
    Zeros { count: nat },
    /// The next `count` lengths are the old one of the first of them less `by`, modulo 17.
    Same { count: nat, by: nat },
}

/// How many lengths a token stands for.
pub open spec fn lengths_in(token: LengthToken) -> nat {
    match token {
        LengthToken::Lower { .. } => 1,
        LengthToken::Zeros { count } => count,
        LengthToken::Same { count, .. } => count,
    }
}

/// The token is sent from bit `p` on, `pre` being the lengths of the pretree's code. Runs of 4
/// to 19 zeros have the symbol 17 and four bits, those of 20 to 51 zeros the symbol 18 and five
/// bits, and runs of 4 or 5 equal lengths the symbol 19, one bit and the difference.
pub open spec fn length_token_sent(
    src: Seq<u8>,
    pre: Seq<u8>,
    p: int,
    token: LengthToken,
) -> bool {
    match token {
        LengthToken::Lower { by } => by <= 16 && code_at(src, pre, p, by as int),
        LengthToken::Zeros { count } => if count < 20 {
            &&& count >= 4
            &&& code_at(src, pre, p, 17)
            &&& stream_number(src, p + pre[17], 4) == count - 4
        } else {
            &&& count <= 51
            &&& code_at(src, pre, p, 18)
            &&& stream_number(src, p + pre[18], 5) == count - 20
        },
        LengthToken::Same { count, by } => {
            &&& 4 <= count <= 5
            &&& by <= 16
            &&& code_at(src, pre, p, 19)
            &&& stream_number(src, p + pre[19], 1) == count - 4
            &&& code_at(src, pre, p + pre[19] + 1, by as int)
        },
    }
}

/// The bit behind a token that is sent from bit `p` on.
pub open spec fn length_token_end(pre: Seq<u8>, p: int, token: LengthToken) -> int {
    match token {
        LengthToken::Lower { by } => p + pre[by as int],
        LengthToken::Zeros { count } => if count < 20 {
            p + pre[17] + 4
        } else {
            p + pre[18] + 5
        },
        LengthToken::Same { by, .. } => p + pre[19] + 1 + pre[by as int],
    }
}

/// The tokens are sent from bit `p` on, one behind the other.
pub open spec fn lengths_sent(
    src: Seq<u8>,
    pre: Seq<u8>,
    p: int,
    tokens: Seq<LengthToken>,
) -> bool
    decreases tokens.len(),
{
    tokens.len() == 0 || {
        &&& length_token_sent(src, pre, p, tokens[0])
        &&& lengths_sent(src, pre, length_token_end(pre, p, tokens[0]), tokens.drop_first())
    }
}

/// The bit behind the tokens that are sent from bit `p` on.
pub open spec fn lengths_end(pre: Seq<u8>, p: int, tokens: Seq<LengthToken>) -> int
    decreases tokens.len(),
{
    if tokens.len() == 0 {
        p
    } else {
        lengths_end(pre, length_token_end(pre, p, tokens[0]), tokens.drop_first())
    }
}

/// The tokens make the lengths `x..last` of `old` those of `new`. The last run may be longer
/// than what is left.
pub open spec fn describes(
    old_lens: Seq<u8>,
    new_lens: Seq<u8>,
    x: int,
    last: int,
    tokens: Seq<LengthToken>,
) -> bool
    decreases tokens.len(),
{
    if tokens.len() == 0 {
        x == last
    } else {
        let end = if x + lengths_in(tokens[0]) < last {
            x + lengths_in(tokens[0])
        } else {
            last
        };
        &&& x < last
        &&& match tokens[0] {
            LengthToken::Lower { by } => new_lens[x] <= 16 && (new_lens[x] + by) % 17
                == old_lens[x],
            LengthToken::Zeros { .. } => forall|i: int|
                x <= i < end ==> #[trigger] new_lens[i] == 0,
            LengthToken::Same { by, .. } => {
                &&& new_lens[x] <= 16
                &&& (new_lens[x] + by) % 17 == old_lens[x]
                &&& forall|i: int| x <= i < end ==> #[trigger] new_lens[i] == new_lens[x]
            },
        }
        &&& describes(old_lens, new_lens, end, last, tokens.drop_first())
    }
}

/// Lowering undoes raising.
proof fn lemma_lowered_back(v: u8, by: nat, len: u8)
    requires
        v <= 16,
        by <= 16,
        (v + by) % 17 == len,
    ensures
        lowered(len, by) == v,
{
}

/// Lengths sent against old ones come back: reading the tokens over the old lengths leaves the
/// new ones, touches nothing else, and ends behind the last token.
pub proof fn lemma_lengths_told(
    src: Seq<u8>,
    tree: Tree,
    pre: Seq<u8>,
    b: BitState,
    p: int,
    lens: Seq<u8>,
    old_lens: Seq<u8>,
    new_lens: Seq<u8>,
    x: nat,
    last: nat,
    tokens: Seq<LengthToken>,
)
    requires
        built_for(tree, pre),
        reads_at(src, b, p),
        lengths_sent(src, pre, p, tokens),
        describes(old_lens, new_lens, x as int, last as int, tokens),
        last <= lens.len(),
        forall|i: int| x <= i < last ==> lens[i] == #[trigger] old_lens[i],
    ensures
        ({
            let d = deltas(src, tree, b, lens, x, last);
            &&& d.ok
            &&& reads_at(src, d.b, lengths_end(pre, p, tokens))
            &&& d.lens.len() == lens.len()
            &&& forall|i: int|
                0 <= i < lens.len() ==> #[trigger] d.lens[i] == if x <= i < last {
                    new_lens[i]
                } else {
                    lens[i]
                }
        }),
    decreases tokens.len(),
{
    if tokens.len() > 0 {
        let rest = tokens.drop_first();
        let p1 = length_token_end(pre, p, tokens[0]);
        let b1 = tree.after(src, b);
        let end = if x + lengths_in(tokens[0]) < last {
            x + lengths_in(tokens[0])
        } else {
            last
        };
        let lens1 = Seq::new(
            lens.len(),
            |i: int|
                if x <= i < end {
                    new_lens[i]
                } else {
                    lens[i]
                },
        );
        assert(lens[x as int] == old_lens[x as int]);
        match tokens[0] {
            LengthToken::Lower { by } => {
                lemma_symbol_read(tree, pre, src, b, p, by as int);
                lemma_lowered_back(new_lens[x as int], by, lens[x as int]);
                assert(lens.update(x as int, lowered(lens[x as int], by)) =~= lens1);
                lemma_lengths_told(
                    src,
                    tree,
                    pre,
                    b1,
                    p1,
                    lens1,
                    old_lens,
                    new_lens,
                    end,
                    last,
                    rest,
                );
            },
            LengthToken::Zeros { count } => {
                let (sym, n) = if count < 20 {
                    (17int, 4int)
                } else {
                    (18, 5)
                };
                lemma_symbol_read(tree, pre, src, b, p, sym);
                lemma_number_read(src, b1, p + pre[sym], n);
                assert(crate::huffman::filled(lens, x as int, end as int, 0u8) =~= lens1);
                lemma_lengths_told(
                    src,
                    tree,
                    pre,
                    b1.advance(src, n),
                    p1,
                    lens1,
                    old_lens,
                    new_lens,
                    end,
                    last,
                    rest,
                );
            },
            LengthToken::Same { count, by } => {
                lemma_symbol_read(tree, pre, src, b, p, 19);
                lemma_number_read(src, b1, p + pre[19], 1);
                let b2 = b1.advance(src, 1);
                lemma_symbol_read(tree, pre, src, b2, p + pre[19] + 1, by as int);
                lemma_lowered_back(new_lens[x as int], by, lens[x as int]);
                assert(crate::huffman::filled(
                    lens,
                    x as int,
                    end as int,
                    lowered(lens[x as int], by),
                ) =~= lens1);
                lemma_lengths_told(
                    src,
                    tree,
                    pre,
                    tree.after(src, b2),
                    p1,
                    lens1,
                    old_lens,
                    new_lens,
                    end,
                    last,
                    rest,
                );
            },
        }
    }
}

/// The lengths `x..last` sent one at a time, each as its difference from the old one.
pub open spec fn differences(
    old_lens: Seq<u8>,
    new_lens: Seq<u8>,
    x: int,
    last: int,
) -> Seq<LengthToken>
    decreases last - x,
{
    if x >= last {
        Seq::empty()
    } else {
        seq![LengthToken::Lower { by: ((old_lens[x] - new_lens[x]) % 17) as nat }] + differences(
            old_lens,
            new_lens,
            x + 1,
            last,
        )
    }
}

/// Sending every length as its difference from the old one describes the new lengths, whatever
/// they are. A length that stays is sent as the difference 0.
pub proof fn lemma_differences_describe(
    old_lens: Seq<u8>,
    new_lens: Seq<u8>,
    x: int,
    last: int,
)
    requires
        0 <= x <= last,
        forall|i: int| x <= i < last ==> #[trigger] old_lens[i] <= 16,
        forall|i: int| x <= i < last ==> #[trigger] new_lens[i] <= 16,
    ensures
        describes(old_lens, new_lens, x, last, differences(old_lens, new_lens, x, last)),
        differences(old_lens, new_lens, x, last).len() == last - x,
        forall|i: int|
            x <= i < last && old_lens[i] == new_lens[i] ==> #[trigger] differences(
                old_lens,
                new_lens,
                x,
                last,
            )[i - x] == (LengthToken::Lower { by: 0 }),
    decreases last - x,
{
    if x < last {
        let all = differences(old_lens, new_lens, x, last);
        let rest = differences(old_lens, new_lens, x + 1, last);
        lemma_differences_describe(old_lens, new_lens, x + 1, last);
        assert(all.drop_first() =~= rest);
        let by = ((old_lens[x] - new_lens[x]) % 17) as nat;
        assert((new_lens[x] + by) % 17 == old_lens[x]);
        assert forall|i: int|
            x <= i < last && old_lens[i] == new_lens[i] implies #[trigger] all[i - x] == (
        LengthToken::Lower { by: 0 }) by {
            if i > x {
                assert(all[i - x] == rest[i - (x + 1)]);
            }
        }
    }
}

/// The numbers `vals`, `width` bits each, stand from bit `p` on.
pub open spec fn numbers_at(src: Seq<u8>, p: int, vals: Seq<u8>, width: nat) -> bool {
    forall|k: int|
        0 <= k < vals.len() ==> stream_number(src, p + k * width, width) == #[trigger] vals[k]
}

/// Numbers of a fixed width come back in order.
pub proof fn lemma_numbers_told(
    src: Seq<u8>,
    b: BitState,
    p: int,
    lens: Seq<u8>,
    vals: Seq<u8>,
    i: nat,
    width: nat,
)
    requires
        numbers_at(src, p, vals, width),
        reads_at(src, b, p + i * width),
        1 <= width <= 4,
        i <= vals.len() <= lens.len(),
    ensures
        ({
            let f = fields(src, b, lens, i, vals.len(), width);
            &&& reads_at(src, f.b, p + vals.len() * width)
            &&& f.lens.len() == lens.len()
            &&& forall|k: int|
                0 <= k < lens.len() ==> #[trigger] f.lens[k] == if i <= k < vals.len() {
                    vals[k]
                } else {
                    lens[k]
                }
        }),
    decreases vals.len() - i,
{
    if i < vals.len() {
        assert(stream_number(src, p + i * width, width) == vals[i as int]);
        lemma_number_read(src, b, p + i * width, width as int);
        assert(p + i * width + width == p + (i + 1) * width) by (nonlinear_arith);
        lemma_numbers_told(
            src,
            b.advance(src, width as int),
            p,
            lens.update(i as int, vals[i as int]),
            vals,
            i + 1,
            width,
        );
    }
}

/// A code that a table with `nb` bits of direct entries can be built for: its codes fill the
/// code space exactly, or there is none.
pub open spec fn usable(code: Seq<u8>, nb: nat) -> bool {
    ||| no_codes(code)
    ||| before(code, 0, nb, code.len()) == 0x10000
    ||| before(code, 0, 16, code.len()) == 0x10000
}

/// A table built for usable code lengths makes a tree of them.
pub proof fn lemma_built_for(tree: Tree, table: Seq<u16>)
    requires
        tree.nsyms <= tree.lens.len(),
        tree.nsyms <= first_node(tree.nbits),
        table_fits(table, tree.nbits as int),
        vstd::arithmetic::power2::pow2(tree.nbits) + 2 * tree.nsyms <= table.len(),
        usable(coded(tree.lens, tree.nsyms as int), tree.nbits),
        built_table(coded(tree.lens, tree.nsyms as int), tree.nbits, table).0 == tree.table,
    ensures
        built_table(coded(tree.lens, tree.nsyms as int), tree.nbits, table).1,
        built_for(tree, coded(tree.lens, tree.nsyms as int)),
{
    let code = coded(tree.lens, tree.nsyms as int);
    assert(code.len() == tree.nsyms);
    lemma_accepted_exactly(code, tree.nbits, table);
    assert(table_fits(table, tree.nbits as int) && built_table(code, tree.nbits, table) == (
        tree.table,
        true,
    ));
}

/// Code lengths behind their pretree: twenty numbers of four bits, and the tokens.
pub struct SentLengths {
    pub pre: Seq<u8>,
    pub tokens: Seq<LengthToken>,
}

impl SentLengths {
    /// The lengths `first..last` are sent from bit `p` on, to become those of `new_lens`.
    pub open spec fn sent(
        self,
        src: Seq<u8>,
        p: int,
        old_lens: Seq<u8>,
        new_lens: Seq<u8>,
        first: int,
        last: int,
    ) -> bool {
        &&& self.pre.len() == 20
        &&& usable(self.pre, 6)
        &&& numbers_at(src, p, self.pre, 4)
        &&& lengths_sent(src, self.pre, p + 80, self.tokens)
        &&& describes(old_lens, new_lens, first, last, self.tokens)
    }

    /// The bit behind the lengths that are sent from bit `p` on.
    pub open spec fn end(self, p: int) -> int {
        lengths_end(self.pre, p + 80, self.tokens)
    }
}

/// Lengths sent behind their pretree come back, whatever the pretree was before.
pub proof fn lemma_sent_lengths_told(
    src: Seq<u8>,
    b: BitState,
    p: int,
    pretree_len: Seq<u8>,
    pretree_table: Seq<u16>,
    lens: Seq<u8>,
    old_lens: Seq<u8>,
    new_lens: Seq<u8>,
    first: nat,
    last: nat,
    sent: SentLengths,
)
    requires
        reads_at(src, b, p),
        sent.sent(src, p, old_lens, new_lens, first as int, last as int),
        forall|i: int| first <= i < last ==> lens[i] == #[trigger] old_lens[i],
        pretree_len.len() >= 20,
        pretree_table.len() >= 104,
        last <= lens.len(),
    ensures
        ({
            let r = lens_read(src, b, pretree_len, pretree_table, lens, first, last);
            &&& r.ok
            &&& reads_at(src, r.b, sent.end(p))
            &&& r.pretree_len.len() == pretree_len.len()
            &&& r.pretree_table.len() == pretree_table.len()
            &&& r.lens.len() == lens.len()
            &&& forall|i: int|
                0 <= i < lens.len() ==> #[trigger] r.lens[i] == if first <= i < last {
                    new_lens[i]
                } else {
                    lens[i]
                }
        }),
{
    vstd::arithmetic::power2::lemma2_to64();
    assert(p + 0 * 4 == p);
    lemma_numbers_told(src, b, p, pretree_len, sent.pre, 0, 4);
    let head = fields(src, b, pretree_len, 0, 20, 4);
    let code = coded(head.lens, 20);
    assert(code =~= sent.pre);
    lemma_first_node(6);
    let built = built_table(code, 6, pretree_table);
    let tree = pretree(head.lens, built.0);
    assert(LZX_PRETREE_TABLEBITS == 6 && LZX_PRETREE_MAXSYMBOLS == 20);
    lemma_built_for(tree, pretree_table);
    lemma_built_shape(code, 6, pretree_table);
    lemma_lengths_told(
        src,
        tree,
        sent.pre,
        head.b,
        p + 80,
        lens,
        old_lens,
        new_lens,
        first,
        last,
        sent.tokens,
    );
}

} // verus!
