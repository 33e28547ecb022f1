//! The stream that a compressed block is sent as, and what decoding it gives back.
//!
//! An encoder turns data into literals and into repeats of earlier data, and sends both through
//! canonical Huffman codes. Here a block is described from the encoder's side, bit by bit.

use vstd::arithmetic::power2::*;
use vstd::prelude::*;

use crate::bits::BitState;
use crate::bitstream::{lemma_reads_the_stream, stream_number};
use crate::canonical::{lemma_tree_reads_code, starts_with_code};
use crate::code_tree::first_node;
use crate::error::LzxError;
use crate::huffman::{built_table, coded, table_fits, Tree};
use crate::matches::{
    copied, decoded_run, match_length, match_offset, BlockTrees, Offsets, EXTRA_BITS,
    POSITION_BASE, POSITION_SLOTS,
};

verus! {

/// A reader that has come to bit `p` of the stream, and has fetched nothing past its end.
pub open spec fn reads_at(src: Seq<u8>, b: BitState, p: int) -> bool {
    &&& b.stands_at(src, p)
    &&& b.pos <= src.len()
}

/// The canonical code of symbol `y` stands at bit `p`, where `code` gives the code lengths.
pub open spec fn code_at(src: Seq<u8>, code: Seq<u8>, p: int, y: int) -> bool {
    starts_with_code(code, y, stream_number(src, p, 16))
}

/// The tree was built for the code lengths `code`.
pub open spec fn built_for(tree: Tree, code: Seq<u8>) -> bool {
    &&& tree.nsyms <= tree.lens.len()
    &&& tree.nsyms <= first_node(tree.nbits)
    &&& code == coded(tree.lens, tree.nsyms as int)
    &&& exists|table: Seq<u16>| #[trigger]
        table_fits(table, tree.nbits as int) && built_table(code, tree.nbits, table) == (
            tree.table,
            true,
        )
}

/// Reading a number that stands next.
pub proof fn lemma_number_read(src: Seq<u8>, b: BitState, p: int, n: int)
    requires
        reads_at(src, b, p),
        1 <= n <= 17,
    ensures
        b.value(src, n) == stream_number(src, p, n as nat),
        reads_at(src, b.advance(src, n), p + n),
{
    lemma_reads_the_stream(src, b, p, n);
}

/// Reading a symbol whose code stands next.
pub proof fn lemma_symbol_read(
    tree: Tree,
    code: Seq<u8>,
    src: Seq<u8>,
    b: BitState,
    p: int,
    y: int,
)
    requires
        built_for(tree, code),
        reads_at(src, b, p),
        code_at(src, code, p, y),
    ensures
        tree.symbol(src, b) == Some(y as nat),
        reads_at(src, tree.after(src, b), p + code[y]),
        0 <= y < code.len(),
        code.len() == tree.nsyms,
{
    let table = choose|table: Seq<u16>| #[trigger]
        table_fits(table, tree.nbits as int) && built_table(code, tree.nbits, table) == (
            tree.table,
            true,
        );
    lemma_tree_reads_code(tree, table, src, b, p, y);
}

/// One step of what an encoder sends.
pub enum Token {
    /// A byte as it is.
    Literal(u8),
    /// `len` bytes that repeat those `offset` bytes back. `slot` says how the offset is sent:
    /// 0 to 2 for one of the last three offsets, more for a range that the offset lies in.
    Repeat { offset: nat, len: nat, slot: nat },
}

/// `data` with `len` bytes behind it, each the same as the one `offset` bytes back.
pub open spec fn repeated(data: Seq<u8>, offset: nat, len: nat) -> Seq<u8>
    decreases len,
{
    if len == 0 {
        data
    } else {
        repeated(data.push(data[data.len() - offset]), offset, (len - 1) as nat)
    }
}

/// `data` with what the tokens stand for behind it.
pub open spec fn spelled(data: Seq<u8>, tokens: Seq<Token>) -> Seq<u8>
    decreases tokens.len(),
{
    if tokens.len() == 0 {
        data
    } else {
        let more = match tokens[0] {
            Token::Literal(c) => data.push(c),
            Token::Repeat { offset, len, .. } => repeated(data, offset, len),
        };
        spelled(more, tokens.drop_first())
    }
}

/// How many bytes a token stands for.
pub open spec fn token_len(token: Token) -> nat {
    match token {
        Token::Literal(_) => 1,
        Token::Repeat { len, .. } => len,
    }
}

/// How many bytes the tokens stand for.
pub open spec fn total_len(tokens: Seq<Token>) -> nat
    decreases tokens.len(),
{
    if tokens.len() == 0 {
        0
    } else {
        token_len(tokens[0]) + total_len(tokens.drop_first())
    }
}

/// Every repeat goes back to data that is there, and no further than a window of `room` bytes.
pub open spec fn reaches_back(have: nat, room: nat, tokens: Seq<Token>) -> bool
    decreases tokens.len(),
{
    tokens.len() == 0 || {
        &&& tokens[0] matches Token::Repeat { offset, .. } ==> 1 <= offset <= have && offset <= room
        &&& reaches_back(have + token_len(tokens[0]), room, tokens.drop_first())
    }
}

/// The code lengths in effect for a block. `aligned` is there in an aligned-offset block only.
pub struct Codes {
    pub main: Seq<u8>,
    pub length: Seq<u8>,
    pub aligned: Option<Seq<u8>>,
}

/// How many bits follow a match symbol of a slot to say where in its range the offset lies.
pub open spec fn footer_bits(slot: nat) -> nat {
    if slot < 4 {
        0
    } else if slot < 36 {
        ((slot - 2) / 2) as nat
    } else {
        17
    }
}

/// Where the range of a slot starts. The ranges double in length with every second slot, until
/// they are `2^17` long. An offset lies two places up from where it would by its number.
pub open spec fn range_start(slot: nat) -> nat {
    if slot < 2 {
        slot
    } else if slot >= 36 {
        ((slot - 34) * 0x2_0000) as nat
    } else if slot % 2 == 0 {
        2 * pow2(footer_bits(slot))
    } else {
        3 * pow2(footer_bits(slot))
    }
}

/// The registers after a token: a repeat of one of the last three offsets exchanges it with the
/// most recent one, and any other offset pushes the oldest one out.
pub open spec fn registers_after(o: Offsets, token: Token) -> Offsets {
    match token {
        Token::Literal(_) => o,
        Token::Repeat { offset, slot, .. } => if slot == 0 {
            o
        } else if slot == 1 {
            Offsets { r0: o.r1, r1: o.r0, r2: o.r2 }
        } else if slot == 2 {
            Offsets { r0: o.r2, r1: o.r1, r2: o.r0 }
        } else {
            Offsets { r0: offset as u32, r1: o.r0, r2: o.r1 }
        },
    }
}

/// The main symbol of a repeat.
pub open spec fn repeat_symbol(len: nat, slot: nat) -> int {
    256 + 8 * slot + if len < 9 {
        len - 2
    } else {
        7
    }
}

/// The offset of a repeat is sent from bit `p` on: the low three of three or more bits go
/// through the aligned code where there is one.
pub open spec fn offset_sent(
    src: Seq<u8>,
    codes: Codes,
    o: Offsets,
    p: int,
    offset: nat,
    slot: nat,
) -> bool {
    let e = footer_bits(slot);
    let q = offset + 2 - range_start(slot);
    if slot == 0 {
        offset == o.r0
    } else if slot == 1 {
        offset == o.r1
    } else if slot == 2 {
        offset == o.r2
    } else {
        &&& slot < 51
        &&& 0 <= q < pow2(e)
        &&& if codes.aligned is Some && e >= 3 {
            &&& stream_number(src, p, (e - 3) as nat) == q / 8
            &&& code_at(src, codes.aligned->0, p + e - 3, q % 8)
        } else {
            stream_number(src, p, e) == q
        }
    }
}

/// The bit behind an offset that is sent from bit `p` on.
pub open spec fn offset_end(codes: Codes, p: int, offset: nat, slot: nat) -> int {
    let e = footer_bits(slot);
    let q = offset + 2 - range_start(slot);
    if slot <= 2 {
        p
    } else if codes.aligned is Some && e >= 3 {
        p + e - 3 + codes.aligned->0[q % 8]
    } else {
        p + e
    }
}

/// The token is sent from bit `p` on: its main symbol, for long repeats a length symbol, and
/// the offset.
pub open spec fn token_sent(src: Seq<u8>, codes: Codes, o: Offsets, p: int, token: Token) -> bool {
    match token {
        Token::Literal(c) => code_at(src, codes.main, p, c as int),
        Token::Repeat { offset, len, slot } => {
            let sym = repeat_symbol(len, slot);
            let p1 = p + codes.main[sym];
            let p2 = if len < 9 {
                p1
            } else {
                p1 + codes.length[len - 9]
            };
            &&& len >= 2
            &&& code_at(src, codes.main, p, sym)
            &&& len >= 9 ==> code_at(src, codes.length, p1, len - 9)
            &&& offset_sent(src, codes, o, p2, offset, slot)
        },
    }
}

/// The bit behind a token that is sent from bit `p` on.
pub open spec fn token_end(codes: Codes, p: int, token: Token) -> int {
    match token {
        Token::Literal(c) => p + codes.main[c as int],
        Token::Repeat { offset, len, slot } => {
            let p1 = p + codes.main[repeat_symbol(len, slot)];
            let p2 = if len < 9 {
                p1
            } else {
                p1 + codes.length[len - 9]
            };
            offset_end(codes, p2, offset, slot)
        },
    }
}

/// The tokens are sent from bit `p` on, one behind the other, starting with the registers `o`.
pub open spec fn tokens_sent(
    src: Seq<u8>,
    codes: Codes,
    o: Offsets,
    p: int,
    tokens: Seq<Token>,
) -> bool
    decreases tokens.len(),
{
    tokens.len() == 0 || {
        &&& token_sent(src, codes, o, p, tokens[0])
        &&& tokens_sent(
            src,
            codes,
            registers_after(o, tokens[0]),
            token_end(codes, p, tokens[0]),
            tokens.drop_first(),
        )
    }
}

/// The bit behind the tokens that are sent from bit `p` on.
pub open spec fn tokens_end(codes: Codes, p: int, tokens: Seq<Token>) -> int
    decreases tokens.len(),
{
    if tokens.len() == 0 {
        p
    } else {
        tokens_end(codes, token_end(codes, p, tokens[0]), tokens.drop_first())
    }
}

/// The registers after the tokens.
pub open spec fn registers_behind(o: Offsets, tokens: Seq<Token>) -> Offsets
    decreases tokens.len(),
{
    if tokens.len() == 0 {
        o
    } else {
        registers_behind(registers_after(o, tokens[0]), tokens.drop_first())
    }
}

/// The slot tables are those that the ranges call for.
pub proof fn lemma_slot_ranges_exactly(slot: nat)
    requires
        slot < POSITION_SLOTS,
    ensures
        EXTRA_BITS@[slot as int] == footer_bits(slot),
        POSITION_BASE@[slot as int] == range_start(slot),
        footer_bits(slot) <= 17,
{
    lemma2_to64();
}

/// The byte `k` places behind the write position of a window.
pub open spec fn behind(window: Seq<u8>, wp: int, k: int) -> u8 {
    window[(wp - k) % (window.len() as int)]
}

/// The window holds the end of `data` behind its write position, as much of it as fits.
pub open spec fn mirrors(window: Seq<u8>, wp: int, data: Seq<u8>) -> bool {
    &&& 0 <= wp <= window.len()
    &&& forall|k: int|
        1 <= k <= window.len() && k <= data.len() ==> #[trigger] behind(window, wp, k)
            == data[data.len() - k]
}

/// A byte written to the window is a byte behind the data.
pub proof fn lemma_mirrors_push(window: Seq<u8>, wp: int, data: Seq<u8>, c: u8)
    requires
        mirrors(window, wp, data),
        wp < window.len(),
    ensures
        mirrors(window.update(wp, c), wp + 1, data.push(c)),
{
    let n = window.len() as int;
    let w = window.update(wp, c);
    let more = data.push(c);
    assert forall|k: int| 1 <= k <= n && k <= more.len() implies #[trigger] behind(w, wp + 1, k)
        == more[more.len() - k] by {
        let at = (wp + 1 - k) % n;
        vstd::arithmetic::div_mod::lemma_mod_bound(wp + 1 - k, n);
        if wp + 1 - k >= 0 {
            vstd::arithmetic::div_mod::lemma_small_mod((wp + 1 - k) as nat, n as nat);
        } else {
            vstd::arithmetic::div_mod::lemma_mod_add_multiples_vanish(wp + 1 - k, n);
            vstd::arithmetic::div_mod::lemma_small_mod((n + wp + 1 - k) as nat, n as nat);
        }
        if k > 1 {
            assert(behind(window, wp, k - 1) == data[data.len() - (k - 1)]);
            assert(wp - (k - 1) == wp + 1 - k);
        }
    }
}

/// A match copied in the window is a repeat of the data.
proof fn lemma_mirrors_repeat(window: Seq<u8>, wp: int, data: Seq<u8>, offset: nat, len: nat)
    requires
        mirrors(window, wp, data),
        wp + len <= window.len(),
        1 <= offset <= data.len(),
        offset <= window.len(),
    ensures
        mirrors(copied(window, wp, offset as int, len), wp + len, repeated(data, offset, len)),
        copied(window, wp, offset as int, len).len() == window.len(),
        repeated(data, offset, len).len() == data.len() + len,
    decreases len,
{
    if len > 0 {
        let c = window[(wp - offset) % (window.len() as int)];
        assert(behind(window, wp, offset as int) == data[data.len() - offset]);
        lemma_mirrors_push(window, wp, data, c);
        lemma_mirrors_repeat(
            window.update(wp, c),
            wp + 1,
            data.push(c),
            offset,
            (len - 1) as nat,
        );
    }
}

/// The trees of a block were built for its codes.
pub open spec fn trees_for(trees: BlockTrees, codes: Codes) -> bool {
    &&& built_for(trees.main, codes.main)
    &&& built_for(trees.length, codes.length)
    &&& match codes.aligned {
        Some(code) => trees.aligned is Some && built_for(trees.aligned->0, code),
        None => trees.aligned is None,
    }
}

/// The offset of a repeat is read as it was sent.
pub proof fn lemma_offset_told(
    src: Seq<u8>,
    b: BitState,
    p: int,
    trees: BlockTrees,
    codes: Codes,
    o: Offsets,
    sym: nat,
    offset: nat,
    slot: nat,
)
    requires
        reads_at(src, b, p),
        trees_for(trees, codes),
        offset_sent(src, codes, o, p, offset, slot),
        sym >= 256,
        (sym - 256) / 8 == slot,
    ensures
        ({
            let (got, after, b1) = match_offset(src, b, sym, o, trees.aligned);
            &&& got == Some(offset as u32)
            &&& after == registers_after(o, Token::Repeat { offset, len: 0, slot })
            &&& reads_at(src, b1, offset_end(codes, p, offset, slot))
        }),
        offset <= u32::MAX,
{
    if slot > 2 {
        let e = footer_bits(slot) as int;
        let q = offset + 2 - range_start(slot);
        lemma_slot_ranges_exactly(slot);
        lemma2_to64();
        if e == 0 {
        } else if codes.aligned is Some && e >= 3 {
            let tree = trees.aligned->0;
            let code = codes.aligned->0;
            if e == 3 {
                assert(stream_number(src, p, 0) == 0);
                lemma_symbol_read(tree, code, src, b, p, q % 8);
            } else {
                lemma_number_read(src, b, p, e - 3);
                lemma_symbol_read(tree, code, src, b.advance(src, e - 3), p + e - 3, q % 8);
            }
        } else {
            lemma_number_read(src, b, p, e);
        }
    }
}

/// The window with what a token stands for written to it.
spec fn written(window: Seq<u8>, wp: int, token: Token) -> Seq<u8> {
    match token {
        Token::Literal(c) => window.update(wp, c),
        Token::Repeat { offset, len, .. } => copied(window, wp, offset as int, len),
    }
}

/// A literal that stands next is taken, and the run goes on behind it.
proof fn lemma_literal_step(
    src: Seq<u8>,
    b: BitState,
    p: int,
    window: Seq<u8>,
    wp: nat,
    run: nat,
    o: Offsets,
    trees: BlockTrees,
    codes: Codes,
    c: u8,
) -> (b1: BitState)
    requires
        reads_at(src, b, p),
        trees_for(trees, codes),
        token_sent(src, codes, o, p, Token::Literal(c)),
        run >= 1,
    ensures
        reads_at(src, b1, token_end(codes, p, Token::Literal(c))),
        decoded_run(src, b, window, wp, run, o, trees) == decoded_run(
            src,
            b1,
            window.update(wp as int, c),
            wp + 1,
            (run - 1) as nat,
            o,
            trees,
        ),
{
    lemma_symbol_read(trees.main, codes.main, src, b, p, c as int);
    trees.main.after(src, b)
}

/// What a decoder reads of a match: the main symbol, the length with the reader behind it, and
/// the offset with the registers and the reader behind that.
pub open spec fn repeat_read(
    src: Seq<u8>,
    b: BitState,
    o: Offsets,
    trees: BlockTrees,
    sym: nat,
    len: nat,
    offset: u32,
    after: Offsets,
    b3: BitState,
) -> bool {
    let (got, b2) = match_length(src, trees.main.after(src, b), sym, trees.length);
    &&& sym >= 256
    &&& trees.main.symbol(src, b) == Some(sym)
    &&& got == Some(len)
    &&& match_offset(src, b2, sym, o, trees.aligned) == (Some(offset), after, b3)
}

/// A repeat that stands next is read as it was sent.
pub proof fn lemma_repeat_read(
    src: Seq<u8>,
    b: BitState,
    p: int,
    o: Offsets,
    trees: BlockTrees,
    codes: Codes,
    offset: nat,
    len: nat,
    slot: nat,
) -> (b3: BitState)
    requires
        reads_at(src, b, p),
        trees_for(trees, codes),
        token_sent(src, codes, o, p, Token::Repeat { offset, len, slot }),
    ensures
        reads_at(src, b3, token_end(codes, p, Token::Repeat { offset, len, slot })),
        offset <= u32::MAX,
        repeat_read(
            src,
            b,
            o,
            trees,
            repeat_symbol(len, slot) as nat,
            len,
            offset as u32,
            registers_after(o, Token::Repeat { offset, len, slot }),
            b3,
        ),
{
    let sym = repeat_symbol(len, slot);
    let p1 = p + codes.main[sym];
    let b1 = trees.main.after(src, b);
    lemma_symbol_read(trees.main, codes.main, src, b, p, sym);
    if len >= 9 {
        lemma_symbol_read(trees.length, codes.length, src, b1, p1, len - 9);
    }
    let (got, b2) = match_length(src, b1, sym as nat, trees.length);
    assert(got == Some(len));
    let p2 = if len < 9 {
        p1
    } else {
        p1 + codes.length[len - 9]
    };
    assert(reads_at(src, b2, p2));
    lemma_offset_told(src, b2, p2, trees, codes, o, sym as nat, offset, slot);
    match_offset(src, b2, sym as nat, o, trees.aligned).2
}

/// A run that starts with a match copies it, and goes on behind it.
proof fn lemma_repeat_taken(
    src: Seq<u8>,
    b: BitState,
    window: Seq<u8>,
    wp: nat,
    run: nat,
    o: Offsets,
    trees: BlockTrees,
    sym: nat,
    len: nat,
    offset: u32,
    after: Offsets,
    b3: BitState,
)
    requires
        repeat_read(src, b, o, trees, sym, len, offset, after, b3),
        run >= len >= 2,
        wp + len <= window.len(),
        1 <= offset <= window.len(),
    ensures
        decoded_run(src, b, window, wp, run, o, trees) == decoded_run(
            src,
            b3,
            copied(window, wp as int, offset as int, len),
            wp + len,
            (run - len) as nat,
            after,
            trees,
        ),
{
}

/// A repeat that stands next is taken, and the run goes on behind it.
proof fn lemma_repeat_step(
    src: Seq<u8>,
    b: BitState,
    p: int,
    window: Seq<u8>,
    wp: nat,
    run: nat,
    o: Offsets,
    trees: BlockTrees,
    codes: Codes,
    offset: nat,
    len: nat,
    slot: nat,
) -> (b3: BitState)
    requires
        reads_at(src, b, p),
        trees_for(trees, codes),
        token_sent(src, codes, o, p, Token::Repeat { offset, len, slot }),
        run >= len,
        wp + len <= window.len() <= 0x20_0000,
        1 <= offset <= window.len(),
    ensures
        reads_at(src, b3, token_end(codes, p, Token::Repeat { offset, len, slot })),
        decoded_run(src, b, window, wp, run, o, trees) == decoded_run(
            src,
            b3,
            copied(window, wp as int, offset as int, len),
            wp + len,
            (run - len) as nat,
            registers_after(o, Token::Repeat { offset, len, slot }),
            trees,
        ),
{
    let b3 = lemma_repeat_read(src, b, p, o, trees, codes, offset, len, slot);
    lemma_repeat_taken(
        src,
        b,
        window,
        wp,
        run,
        o,
        trees,
        repeat_symbol(len, slot) as nat,
        len,
        offset as u32,
        registers_after(o, Token::Repeat { offset, len, slot }),
        b3,
    );
    b3
}

/// A token that stands next is taken, and the run goes on behind it.
proof fn lemma_token_step(
    src: Seq<u8>,
    b: BitState,
    p: int,
    window: Seq<u8>,
    wp: nat,
    data: Seq<u8>,
    run: nat,
    o: Offsets,
    trees: BlockTrees,
    codes: Codes,
    token: Token,
) -> (b1: BitState)
    requires
        reads_at(src, b, p),
        trees_for(trees, codes),
        token_sent(src, codes, o, p, token),
        mirrors(window, wp as int, data),
        reaches_back(data.len(), window.len(), seq![token]),
        run >= token_len(token),
        wp + token_len(token) <= window.len() <= 0x20_0000,
    ensures
        reads_at(src, b1, token_end(codes, p, token)),
        decoded_run(src, b, window, wp, run, o, trees) == decoded_run(
            src,
            b1,
            written(window, wp as int, token),
            wp + token_len(token),
            (run - token_len(token)) as nat,
            registers_after(o, token),
            trees,
        ),
        written(window, wp as int, token).len() == window.len(),
        mirrors(
            written(window, wp as int, token),
            (wp + token_len(token)) as int,
            spelled(data, seq![token]),
        ),
        spelled(data, seq![token]).len() == data.len() + token_len(token),
{
    reveal_with_fuel(spelled, 2);
    reveal_with_fuel(reaches_back, 2);
    match token {
        Token::Literal(c) => {
            lemma_mirrors_push(window, wp as int, data, c);
            lemma_literal_step(src, b, p, window, wp, run, o, trees, codes, c)
        },
        Token::Repeat { offset, len, slot } => {
            lemma_mirrors_repeat(window, wp as int, data, offset, len);
            lemma_repeat_step(
                src,
                b,
                p,
                window,
                wp,
                run,
                o,
                trees,
                codes,
                offset,
                len,
                slot,
            )
        },
    }
}

/// The tokens of a run are decoded as they were sent: the data that they stand for comes out,
/// the registers are those that the encoder has come to, and the reader stands behind the last
/// token.
pub proof fn lemma_run_told(
    src: Seq<u8>,
    b: BitState,
    p: int,
    window: Seq<u8>,
    wp: nat,
    data: Seq<u8>,
    o: Offsets,
    trees: BlockTrees,
    codes: Codes,
    tokens: Seq<Token>,
)
    requires
        reads_at(src, b, p),
        trees_for(trees, codes),
        tokens_sent(src, codes, o, p, tokens),
        mirrors(window, wp as int, data),
        reaches_back(data.len(), window.len(), tokens),
        wp + total_len(tokens) <= window.len() <= 0x20_0000,
    ensures
        ({
            let r = decoded_run(src, b, window, wp, total_len(tokens), o, trees);
            &&& r.result == Ok::<(), LzxError>(())
            &&& reads_at(src, r.b, tokens_end(codes, p, tokens))
            &&& r.offsets == registers_behind(o, tokens)
            &&& r.window.len() == window.len()
            &&& mirrors(r.window, (wp + total_len(tokens)) as int, spelled(data, tokens))
        }),
        spelled(data, tokens).len() == data.len() + total_len(tokens),
    decreases tokens.len(),
{
    if tokens.len() > 0 {
        let rest = tokens.drop_first();
        let token = tokens[0];
        let run = total_len(tokens);
        assert(seq![token].drop_first() =~= Seq::empty());
        reveal_with_fuel(reaches_back, 2);
        reveal_with_fuel(spelled, 2);
        let b1 = lemma_token_step(src, b, p, window, wp, data, run, o, trees, codes, token);
        let more = spelled(data, seq![token]);
        assert(spelled(data, tokens) == spelled(more, rest));
        lemma_run_told(
            src,
            b1,
            token_end(codes, p, token),
            written(window, wp as int, token),
            wp + token_len(token),
            more,
            registers_after(o, token),
            trees,
            codes,
            rest,
        );
    }
}

/// A run that starts with a match longer than the run still copies all of it, and ends there.
proof fn lemma_overlong_taken(
    src: Seq<u8>,
    b: BitState,
    window: Seq<u8>,
    wp: nat,
    run: nat,
    o: Offsets,
    trees: BlockTrees,
    sym: nat,
    len: nat,
    offset: u32,
    after: Offsets,
    b3: BitState,
)
    requires
        repeat_read(src, b, o, trees, sym, len, offset, after, b3),
        0 < run < len,
        wp + len <= window.len(),
        1 <= offset <= window.len(),
    ensures
        ({
            let r = decoded_run(src, b, window, wp, run, o, trees);
            &&& r.result is Ok
            &&& r.window == copied(window, wp as int, offset as int, len)
            &&& r.offsets == after
            &&& r.b == b3
        }),
{
    reveal_with_fuel(decoded_run, 2);
}

/// The last repeat of a run may stand for more than the run asks for: all of it goes into the
/// window.
pub proof fn lemma_overlong_repeat_told(
    src: Seq<u8>,
    b: BitState,
    p: int,
    window: Seq<u8>,
    wp: nat,
    run: nat,
    data: Seq<u8>,
    o: Offsets,
    trees: BlockTrees,
    codes: Codes,
    offset: nat,
    len: nat,
    slot: nat,
)
    requires
        reads_at(src, b, p),
        trees_for(trees, codes),
        token_sent(src, codes, o, p, Token::Repeat { offset, len, slot }),
        mirrors(window, wp as int, data),
        0 < run < len,
        wp + len <= window.len(),
        1 <= offset <= data.len(),
        offset <= window.len(),
    ensures
        ({
            let r = decoded_run(src, b, window, wp, run, o, trees);
            &&& r.result is Ok
            &&& reads_at(src, r.b, token_end(codes, p, Token::Repeat { offset, len, slot }))
            &&& r.offsets == registers_after(o, Token::Repeat { offset, len, slot })
            &&& mirrors(r.window, (wp + len) as int, repeated(data, offset, len))
        }),
{
    let b3 = lemma_repeat_read(src, b, p, o, trees, codes, offset, len, slot);
    lemma_overlong_taken(
        src,
        b,
        window,
        wp,
        run,
        o,
        trees,
        repeat_symbol(len, slot) as nat,
        len,
        offset as u32,
        registers_after(o, Token::Repeat { offset, len, slot }),
        b3,
    );
    lemma_mirrors_repeat(window, wp as int, data, offset, len);
}

/// A match that names one of the last three offsets uses the one it names and exchanges it with
/// the most recent one; the third stays. Naming it again restores the registers.
pub proof fn lemma_registers_exchange(
    src: Seq<u8>,
    b: BitState,
    slot: nat,
    primary: nat,
    o: Offsets,
    aligned: Option<Tree>,
)
    requires
        slot <= 2,
        primary <= 7,
    ensures
        ({
            let sym = 256 + 8 * slot + primary;
            let (got, after, b1) = match_offset(src, b, sym, o, aligned);
            &&& b1 == b
            &&& got == Some(after.r0)
            &&& after.r0 == (if slot == 0 { o.r0 } else if slot == 1 { o.r1 } else { o.r2 })
            &&& after.r1 == (if slot == 1 { o.r0 } else { o.r1 })
            &&& after.r2 == (if slot == 2 { o.r0 } else { o.r2 })
            &&& match_offset(src, b1, sym, after, aligned).1 == o
        }),
{
}

} // verus!
