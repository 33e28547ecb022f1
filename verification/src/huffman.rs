//! Canonical Huffman decoding tables.
//!
//! A decode table for codes of at most 16 bits starts with `2^nbits` entries indexed by the
//! next `nbits` bits of the stream. Codes of at most `nbits` bits own a run of identical
//! entries holding their symbol. Longer codes go on through a binary tree stored behind
//! those entries: an entry that is not a symbol is a node number `k`, and the two children
//! of that node are the entries `2k` and `2k + 1`.

use vstd::arithmetic::power2::*;
use vstd::prelude::*;

use crate::bits::{lemma_fetch, lemma_skip, BitState, Bits};
use crate::error::LzxError;

verus! {

/// The longest code length that a decode table places.
pub const MAX_CODE_BITS: usize = 16;

/// `s` with the elements `lo..hi` replaced by `v`.
pub open spec fn filled<T>(s: Seq<T>, lo: int, hi: int, v: T) -> Seq<T> {
    Seq::new(
        s.len(),
        |i: int|
            if lo <= i < hi {
                v
            } else {
                s[i]
            },
    )
}

/// Sets the elements `lo..hi` of `s` to `v`.
pub fn fill_range<T: Copy>(s: &mut [T], lo: usize, hi: usize, v: T)
    requires
        lo <= hi <= old(s)@.len(),
    ensures
        final(s)@ == filled(old(s)@, lo as int, hi as int, v),
{
    let ghost s0 = s@;
    let mut k: usize = lo;
    assert(s@ =~= filled(s0, lo as int, lo as int, v));
    while k < hi
        invariant
            lo <= k <= hi <= s0.len(),
            s@ == filled(s0, lo as int, k as int, v),
        decreases hi - k,
    {
        s[k] = v;
        k = k + 1;
        assert(s@ =~= filled(s0, lo as int, k as int, v));
    }
}

/// What a pass over the symbols leaves behind: the table, the position after the last
/// placed code, and whether every code found room.
pub struct Placed {
    pub table: Seq<u16>,
    pub pos: nat,
    pub ok: bool,
}

/// Places the codes of at most `nbits` bits, in order of length and then of symbol, from
/// length `bit_num` and symbol `sym` on. A code of `l` bits takes the next `2^(nbits - l)`
/// entries from `pos`; it fails when they would run past entry `2^nbits`.
pub open spec fn place_short(
    lens: Seq<u8>,
    nbits: nat,
    table: Seq<u16>,
    bit_num: nat,
    sym: nat,
    pos: nat,
) -> Placed
    decreases nbits + 1 - bit_num, lens.len() - sym,
{
    if bit_num > nbits {
        Placed { table, pos, ok: true }
    } else if sym >= lens.len() {
        place_short(lens, nbits, table, bit_num + 1, 0, pos)
    } else if lens[sym as int] == bit_num {
        let end = pos + pow2((nbits - bit_num) as nat);
        if end > pow2(nbits) {
            Placed { table, pos: end, ok: false }
        } else {
            place_short(
                lens,
                nbits,
                filled(table, pos as int, end as int, sym as u16),
                bit_num,
                sym + 1,
                end,
            )
        }
    } else {
        place_short(lens, nbits, table, bit_num, sym + 1, pos)
    }
}

/// What following (and growing) a tree path leaves behind: the table, the next node number
/// to hand out, the entry that the path ends in, and whether that lies in the table and every
/// new node found room.
pub struct Path {
    pub table: Seq<u16>,
    pub next: nat,
    pub entry: nat,
    pub ok: bool,
}

/// Bit number `k` (from the least significant one) of `x`.
pub open spec fn bit_of(x: nat, k: nat) -> nat {
    (x / pow2(k)) % 2
}

/// Follows the bits 15, 14, ... of `code` down from `entry` for `depth - level` levels,
/// turning each empty (zero) entry on the way into the next free node with two empty
/// children. It fails when the path leaves the table.
pub open spec fn grow_path(
    table: Seq<u16>,
    next: nat,
    entry: nat,
    code: nat,
    level: nat,
    depth: nat,
) -> Path
    decreases depth - level,
{
    if entry >= table.len() {
        Path { table, next, entry, ok: false }
    } else if level >= depth {
        Path { table, next, entry, ok: true }
    } else if table[entry as int] == 0 {
        if 2 * next + 1 >= table.len() {
            Path { table, next, entry, ok: false }
        } else {
            let grown = table.update((2 * next) as int, 0).update((2 * next + 1) as int, 0).update(
                entry as int,
                next as u16,
            );
            grow_path(
                grown,
                next + 1,
                2 * (grown[entry as int] as nat) + bit_of(code, (15 - level) as nat),
                code,
                level + 1,
                depth,
            )
        }
    } else {
        grow_path(
            table,
            next,
            2 * (table[entry as int] as nat) + bit_of(code, (15 - level) as nat),
            code,
            level + 1,
            depth,
        )
    }
}

/// Places the codes of more than `nbits` bits, in order of length and then of symbol, from
/// length `bit_num` and symbol `sym` on. Positions are in units of `2^-16` entries: a code
/// of `l` bits takes `2^(nbits + 16 - l)` of them and ends in the tree entry that the path
/// of its first unit leads to. It fails when a node finds no room, when the path leaves the
/// table, or when the codes run past entry `2^nbits`.
pub open spec fn place_long(
    lens: Seq<u8>,
    nbits: nat,
    table: Seq<u16>,
    next: nat,
    bit_num: nat,
    sym: nat,
    pos: nat,
) -> Placed
    decreases MAX_CODE_BITS + 1 - bit_num, lens.len() - sym,
{
    if bit_num > MAX_CODE_BITS {
        Placed { table, pos, ok: true }
    } else if sym >= lens.len() {
        place_long(lens, nbits, table, next, bit_num + 1, 0, pos)
    } else if lens[sym as int] == bit_num {
        let path = grow_path(table, next, pos / 0x10000, pos, 0, (bit_num - nbits) as nat);
        if !path.ok {
            Placed { table: path.table, pos, ok: false }
        } else {
            let end = pos + pow2((nbits + 16 - bit_num) as nat);
            let leafed = path.table.update(path.entry as int, sym as u16);
            if end > pow2(nbits) * 0x10000 {
                Placed { table: leafed, pos: end, ok: false }
            } else {
                place_long(lens, nbits, leafed, path.next, bit_num, sym + 1, end)
            }
        }
    } else {
        place_long(lens, nbits, table, next, bit_num, sym + 1, pos)
    }
}

/// No symbol has a code.
pub open spec fn no_codes(lens: Seq<u8>) -> bool {
    forall|i: int| 0 <= i < lens.len() ==> #[trigger] lens[i] == 0
}

/// The decode table built over `table` for the code lengths `lens`, and whether the
/// lengths are acceptable: they fill the direct entries exactly, or together with the
/// longer codes they fill the whole code space exactly, or no symbol has a code.
pub open spec fn built_table(lens: Seq<u8>, nbits: nat, table: Seq<u16>) -> (Seq<u16>, bool) {
    let short = place_short(lens, nbits, table, 1, 0, 0);
    if !short.ok || short.pos == pow2(nbits) {
        (short.table, short.ok)
    } else {
        let cleared = filled(short.table, short.pos as int, pow2(nbits) as int, 0u16);
        let long = place_long(
            lens,
            nbits,
            cleared,
            pow2((nbits - 1) as nat),
            nbits + 1,
            0,
            short.pos * 0x10000,
        );
        (long.table, long.ok && (long.pos == pow2(nbits) * 0x10000 || no_codes(lens)))
    }
}

/// The code lengths of the first `nsyms` symbols.
pub open spec fn coded(lengths: Seq<u8>, nsyms: int) -> Seq<u8> {
    if nsyms < lengths.len() {
        lengths.take(nsyms)
    } else {
        lengths
    }
}

/// `table` has room for `2^nbits` direct entries.
pub open spec fn table_fits(table: Seq<u16>, nbits: int) -> bool {
    &&& 1 <= nbits <= 15
    &&& pow2(nbits as nat) <= table.len()
}

/// Growing a path keeps the table's size, and ends inside the table.
proof fn lemma_path_shape(
    table: Seq<u16>,
    next: nat,
    entry: nat,
    code: nat,
    level: nat,
    depth: nat,
)
    ensures
        ({
            let path = grow_path(table, next, entry, code, level, depth);
            &&& path.table.len() == table.len()
            &&& path.ok ==> path.entry < table.len()
        }),
    decreases depth - level,
{
    if level < depth && entry < table.len() {
        let bit = bit_of(code, (15 - level) as nat);
        if table[entry as int] == 0 {
            if 2 * next + 1 < table.len() {
                let emptied = table.update((2 * next) as int, 0).update((2 * next + 1) as int, 0);
                let grown = emptied.update(entry as int, next as u16);
                lemma_path_shape(
                    grown,
                    next + 1,
                    2 * (grown[entry as int] as nat) + bit,
                    code,
                    level + 1,
                    depth,
                );
            }
        } else {
            lemma_path_shape(
                table,
                next,
                2 * (table[entry as int] as nat) + bit,
                code,
                level + 1,
                depth,
            );
        }
    }
}

/// Placing the short codes keeps the table's size.
proof fn lemma_short_shape(
    lens: Seq<u8>,
    nbits: nat,
    table: Seq<u16>,
    bit_num: nat,
    sym: nat,
    pos: nat,
)
    ensures
        place_short(lens, nbits, table, bit_num, sym, pos).table.len() == table.len(),
    decreases nbits + 1 - bit_num, lens.len() - sym,
{
    if bit_num <= nbits {
        if sym >= lens.len() {
            lemma_short_shape(lens, nbits, table, bit_num + 1, 0, pos);
        } else if lens[sym as int] == bit_num {
            let end = pos + pow2((nbits - bit_num) as nat);
            if end <= pow2(nbits) {
                lemma_short_shape(
                    lens,
                    nbits,
                    filled(table, pos as int, end as int, sym as u16),
                    bit_num,
                    sym + 1,
                    end,
                );
            }
        } else {
            lemma_short_shape(lens, nbits, table, bit_num, sym + 1, pos);
        }
    }
}

/// Placing the long codes keeps the table's size.
proof fn lemma_long_shape(
    lens: Seq<u8>,
    nbits: nat,
    table: Seq<u16>,
    next: nat,
    bit_num: nat,
    sym: nat,
    pos: nat,
)
    ensures
        place_long(lens, nbits, table, next, bit_num, sym, pos).table.len() == table.len(),
    decreases MAX_CODE_BITS + 1 - bit_num, lens.len() - sym,
{
    if bit_num <= MAX_CODE_BITS {
        if sym >= lens.len() {
            lemma_long_shape(lens, nbits, table, next, bit_num + 1, 0, pos);
        } else if lens[sym as int] == bit_num {
            let depth = (bit_num - nbits) as nat;
            let path = grow_path(table, next, pos / 0x10000, pos, 0, depth);
            lemma_path_shape(table, next, pos / 0x10000, pos, 0, depth);
            if path.ok {
                let end = pos + pow2((nbits + 16 - bit_num) as nat);
                let leafed = path.table.update(path.entry as int, sym as u16);
                if end <= pow2(nbits) * 0x10000 {
                    lemma_long_shape(lens, nbits, leafed, path.next, bit_num, sym + 1, end);
                }
            }
        } else {
            lemma_long_shape(lens, nbits, table, next, bit_num, sym + 1, pos);
        }
    }
}

/// Building a decode table keeps its size.
pub proof fn lemma_built_shape(lens: Seq<u8>, nbits: nat, table: Seq<u16>)
    ensures
        built_table(lens, nbits, table).0.len() == table.len(),
{
    let short = place_short(lens, nbits, table, 1, 0, 0);
    lemma_short_shape(lens, nbits, table, 1, 0, 0);
    if short.ok && short.pos != pow2(nbits) {
        lemma_long_shape(
            lens,
            nbits,
            filled(short.table, short.pos as int, pow2(nbits) as int, 0u16),
            pow2((nbits - 1) as nat),
            nbits + 1,
            0,
            short.pos * 0x10000,
        );
    }
}

/// Follows the path of `code` from `entry` for `depth` levels, growing the tree as
/// needed. Gives the next free node number and the entry that the path ends in.
fn grow(table: &mut [u16], next: usize, entry: usize, code: u32, depth: usize) -> (r: Option<
    (usize, usize),
>)
    requires
        depth <= 15,
    ensures
        final(table)@.len() == old(table)@.len(),
        ({
            let path = grow_path(
                old(table)@,
                next as nat,
                entry as nat,
                code as nat,
                0,
                depth as nat,
            );
            &&& final(table)@ == path.table
            &&& r is Some <==> path.ok
            &&& r matches Some((n, e)) ==> n == path.next && e == path.entry && e < old(
                table,
            )@.len()
        }),
{
    let ghost all = grow_path(table@, next as nat, entry as nat, code as nat, 0, depth as nat);
    let mut free: usize = next;
    let mut leaf: usize = entry;
    let mut level: usize = 0;
    while level < depth
        invariant
            level <= depth <= 15,
            table@.len() == old(table)@.len(),
            all == grow_path(
                old(table)@,
                next as nat,
                entry as nat,
                code as nat,
                0,
                depth as nat,
            ),
            all == grow_path(
                table@,
                free as nat,
                leaf as nat,
                code as nat,
                level as nat,
                depth as nat,
            ),
        decreases depth - level,
    {
        if leaf >= table.len() {
            return None;
        }
        if table[leaf] == 0 {
            if free >= table.len() / 2 {
                return None;
            }
            table[2 * free] = 0;
            table[2 * free + 1] = 0;
            table[leaf] = free as u16;
            free = free + 1;
        }
        let bit: u32 = (code >> (15 - level as u32)) & 1;
        proof {
            let k = (15 - level) as u32;
            vstd::bits::lemma_u32_shr_is_div(code, k);
            let q = code >> k;
            assert(q & 1 == q % 2) by (bit_vector);
            assert(bit == bit_of(code as nat, (15 - level) as nat));
        }
        leaf = 2 * table[leaf] as usize + bit as usize;
        level = level + 1;
    }
    if leaf >= table.len() {
        return None;
    }
    Some((free, leaf))
}

/// The powers of two that the table sizes and positions below are made of.
proof fn lemma_table_sizes(nbits: nat)
    requires
        1 <= nbits <= 15,
    ensures
        2 <= pow2(nbits) <= 0x8000,
        pow2(nbits) == 2 * pow2((nbits - 1) as nat),
{
    lemma2_to64();
    lemma_pow2_unfold(nbits);
    if nbits < 15 {
        lemma_pow2_strictly_increases(nbits, 15);
    }
    lemma_pow2_pos((nbits - 1) as nat);
}

/// Builds the decode table for the first `nsyms` code lengths, with `2^nbits` direct
/// entries.
pub fn make_decode_table(nsyms: usize, nbits: usize, lengths: &[u8], table: &mut [u16]) -> (r:
    Result<(), LzxError>)
    requires
        table_fits(old(table)@, nbits as int),
    ensures
        final(table)@.len() == old(table)@.len(),
        ({
            let built = built_table(coded(lengths@, nsyms as int), nbits as nat, old(table)@);
            &&& final(table)@ == built.0
            &&& r == (if built.1 {
                Ok(())
            } else {
                Err(LzxError::IllegalData)
            })
        }),
{
    let n: usize = if nsyms < lengths.len() {
        nsyms
    } else {
        lengths.len()
    };
    let ghost lens = coded(lengths@, nsyms as int);
    let ghost nb = nbits as nat;
    proof {
        lemma_table_sizes(nb);
        vstd::bits::lemma_usize_shl_is_mul(1, nbits);
    }
    let table_mask: usize = 1usize << nbits;
    let half: usize = table_mask / 2;
    let mut bit_mask: usize = half;
    let mut pos: usize = 0;
    let mut bit_num: usize = 1;
    let ghost short = place_short(lens, nb, table@, 1, 0, 0);
    // Codes short enough to index the table directly get a run of identical entries.
    while bit_num <= nbits
        invariant
            1 <= bit_num <= nbits + 1,
            1 <= nbits <= 15,
            nb == nbits,
            n == lens.len(),
            n <= lengths.len(),
            lens == coded(lengths@, nsyms as int),
            n == nsyms || n == lengths.len(),
            table_mask == pow2(nb) <= 0x8000,
            bit_num <= nbits ==> bit_mask == pow2((nbits - bit_num) as nat),
            pos <= table_mask <= table@.len(),
            table@.len() == old(table)@.len(),
            short == place_short(lens, nb, old(table)@, 1, 0, 0),
            short == place_short(lens, nb, table@, bit_num as nat, 0, pos as nat),
        decreases nbits + 1 - bit_num,
    {
        let mut sym: usize = 0;
        while sym < n
            invariant
                1 <= bit_num <= nbits <= 15,
                nb == nbits,
                sym <= n == lens.len(),
                n <= lengths.len(),
                lens == coded(lengths@, nsyms as int),
                table_mask == pow2(nb) <= 0x8000,
                bit_mask == pow2((nbits - bit_num) as nat),
                pos <= table_mask <= table@.len(),
                table@.len() == old(table)@.len(),
                short == place_short(lens, nb, old(table)@, 1, 0, 0),
                short == place_short(lens, nb, table@, bit_num as nat, sym as nat, pos as nat),
            decreases n - sym,
        {
            if lengths[sym] as usize == bit_num {
                let leaf: usize = pos;
                if bit_mask > table_mask - pos {
                    return Err(LzxError::IllegalData);
                }
                pos = pos + bit_mask;
                fill_range(table, leaf, pos, sym as u16);
            }
            sym = sym + 1;
        }
        proof {
            if bit_num < nbits {
                lemma_pow2_unfold((nbits - bit_num) as nat);
            }
        }
        bit_mask = bit_mask / 2;
        bit_num = bit_num + 1;
    }
    if pos == table_mask {
        return Ok(());
    }
    fill_range(table, pos, table_mask, 0);
    // Longer codes are spilled into a binary tree stored after the direct table.
    let full: u32 = table_mask as u32 * 0x10000;
    let mut pos32: u32 = pos as u32 * 0x10000;
    let mut unit: u32 = 0x8000;
    let mut next: usize = half;
    let ghost long = place_long(
        lens,
        nb,
        table@,
        pow2((nb - 1) as nat),
        nb + 1,
        0,
        short.pos * 0x10000,
    );
    proof {
        lemma2_to64();
        assert(nb + 16 - (nb + 1) == 15);
    }
    while bit_num <= 16
        invariant
            nbits + 1 <= bit_num <= 17,
            1 <= nbits <= 15,
            nb == nbits,
            n == lens.len(),
            n <= lengths.len(),
            lens == coded(lengths@, nsyms as int),
            table_mask == pow2(nb) <= 0x8000,
            bit_num <= 16 ==> unit == pow2((nbits + 16 - bit_num) as nat),
            unit <= 0x8000,
            full == table_mask * 0x10000,
            pos32 <= full,
            table_mask <= table@.len(),
            table@.len() == old(table)@.len(),
            built_table(lens, nb, old(table)@) == (
                long.table,
                long.ok && (long.pos == pow2(nb) * 0x10000 || no_codes(lens)),
            ),
            long == place_long(
                lens,
                nb,
                table@,
                next as nat,
                bit_num as nat,
                0,
                pos32 as nat,
            ),
        decreases 17 - bit_num,
    {
        let mut sym: usize = 0;
        while sym < n
            invariant
                nbits + 1 <= bit_num <= 16,
                1 <= nbits <= 15,
                nb == nbits,
                sym <= n == lens.len(),
                n <= lengths.len(),
                lens == coded(lengths@, nsyms as int),
                table_mask == pow2(nb) <= 0x8000,
                unit == pow2((nbits + 16 - bit_num) as nat),
                unit <= 0x8000,
                full == table_mask * 0x10000,
                pos32 <= full,
                table_mask <= table@.len(),
                table@.len() == old(table)@.len(),
                built_table(lens, nb, old(table)@) == (
                    long.table,
                    long.ok && (long.pos == pow2(nb) * 0x10000 || no_codes(lens)),
                ),
                long == place_long(
                    lens,
                    nb,
                    table@,
                    next as nat,
                    bit_num as nat,
                    sym as nat,
                    pos32 as nat,
                ),
            decreases n - sym,
        {
            if lengths[sym] as usize == bit_num {
                match grow(table, next, (pos32 / 0x10000) as usize, pos32, bit_num - nbits) {
                    None => {
                        return Err(LzxError::IllegalData);
                    },
                    Some((free, leaf)) => {
                        next = free;
                        table[leaf] = sym as u16;
                    },
                }
                pos32 = pos32 + unit;
                if pos32 > full {
                    return Err(LzxError::IllegalData);
                }
            }
            sym = sym + 1;
        }
        proof {
            if bit_num < 16 {
                lemma_pow2_unfold((nbits + 16 - bit_num) as nat);
            }
        }
        unit = unit / 2;
        bit_num = bit_num + 1;
    }
    // An incomplete table is only legal when no symbol is actually coded.
    if pos32 != full {
        let mut sym: usize = 0;
        while sym < n
            invariant
                sym <= n == lens.len(),
                n <= lengths.len(),
                lens == coded(lengths@, nsyms as int),
                forall|i: int| 0 <= i < sym ==> #[trigger] lens[i] == 0,
                built_table(lens, nb, old(table)@) == (table@, no_codes(lens)),
                table@.len() == old(table)@.len(),
                nb == nbits,
            decreases n - sym,
        {
            if lengths[sym] != 0 {
                assert(lens[sym as int] != 0);
                return Err(LzxError::IllegalData);
            }
            sym = sym + 1;
        }
    }
    Ok(())
}

/// Bit number `k` of `buf`, counted from the most significant one.
pub open spec fn top_bit(buf: u32, k: nat) -> nat {
    ((buf >> ((31 - k) as u32)) & 1) as nat
}

/// The symbol that the table leads to from `entry`, taking the bits `k`, `k + 1`, ... of
/// `buf` on the way down: `None` if the path leaves the table or uses up the buffer.
pub open spec fn walk(
    table: Seq<u16>,
    nsyms: nat,
    entry: nat,
    buf: u32,
    k: nat,
) -> Option<nat>
    decreases 32 - k,
{
    if entry < nsyms {
        Some(entry)
    } else if k >= 31 {
        None
    } else {
        let child = 2 * entry + top_bit(buf, k);
        if child < table.len() {
            walk(table, nsyms, table[child as int] as nat, buf, k + 1)
        } else {
            None
        }
    }
}

/// The symbol that the table gives for the bits in `buf`.
pub open spec fn lookup(table: Seq<u16>, nbits: nat, nsyms: nat, buf: u32) -> Option<nat> {
    walk(table, nsyms, table[(buf >> ((32 - nbits) as u32)) as int] as nat, buf, nbits)
}

/// Every code length is one that the table builder knows.
pub open spec fn lens_bounded(lens: Seq<u8>) -> bool {
    forall|i: int| 0 <= i < lens.len() ==> #[trigger] lens[i] <= 16
}

/// The first `n` code lengths are ones that the table builder knows.
pub open spec fn bounded_to(lens: Seq<u8>, n: nat) -> bool {
    forall|i: int| 0 <= i < n && i < lens.len() ==> #[trigger] lens[i] <= 16
}

/// A decode table and the code lengths of its symbols.
pub struct Tree {
    pub table: Seq<u16>,
    pub lens: Seq<u8>,
    pub nbits: nat,
    pub nsyms: nat,
}

impl Tree {
    /// The table and the lengths are large enough to be used for decoding.
    pub open spec fn wf(self) -> bool {
        &&& 1 <= self.nbits <= 15
        &&& pow2(self.nbits) <= self.table.len()
        &&& self.nsyms <= self.lens.len()
        &&& bounded_to(self.lens, self.nsyms)
    }

    /// The symbol coded next in the stream.
    pub open spec fn symbol(self, src: Seq<u8>, b: BitState) -> Option<nat> {
        lookup(self.table, self.nbits, self.nsyms, b.fetch(src, 16).buf)
    }

    /// The reader after that symbol: its code is consumed, or nothing if there is none.
    pub open spec fn after(self, src: Seq<u8>, b: BitState) -> BitState {
        match self.symbol(src, b) {
            Some(sym) => b.fetch(src, 16).skip(self.lens[sym as int] as int),
            None => b.fetch(src, 16),
        }
    }
}

/// Reading a symbol keeps the reader well-formed and does not add to what it has left.
pub proof fn lemma_after(src: Seq<u8>, tree: Tree, b: BitState)
    requires
        b.wf(src),
        tree.wf(),
    ensures
        tree.after(src, b).wf(src),
        tree.after(src, b).progress(src) <= b.progress(src),
        tree.symbol(src, b) matches Some(sym) ==> sym < tree.nsyms,
{
    let f = b.fetch(src, 16);
    lemma_fetch(src, b, 16);
    lemma_walk_below(
        tree.table,
        tree.nsyms,
        tree.table[(f.buf >> ((32 - tree.nbits) as u32)) as int] as nat,
        f.buf,
        tree.nbits,
    );
    if let Some(sym) = tree.symbol(src, b) {
        lemma_skip(src, f, tree.lens[sym as int] as int);
    }
}

/// A walk only ends in a symbol.
pub proof fn lemma_walk_below(table: Seq<u16>, nsyms: nat, entry: nat, buf: u32, k: nat)
    ensures
        walk(table, nsyms, entry, buf, k) matches Some(sym) ==> sym < nsyms,
    decreases 32 - k,
{
    if entry >= nsyms && k < 31 {
        let child = 2 * entry + top_bit(buf, k);
        if child < table.len() {
            lemma_walk_below(table, nsyms, table[child as int] as nat, buf, k + 1);
        }
    }
}

impl<'a> Bits<'a> {
    /// Reads one symbol coded by the decode table `table` with the code lengths `lens`.
    pub fn read_huffsym(
        &mut self,
        table: &[u16],
        lens: &[u8],
        tablebits: usize,
        maxsymbols: usize,
    ) -> (r: Result<usize, LzxError>)
        requires
            old(self).wf(),
            (Tree {
                table: table@,
                lens: lens@,
                nbits: tablebits as nat,
                nsyms: maxsymbols as nat,
            }).wf(),
        ensures
            final(self).wf(),
            final(self).src == old(self).src,
            ({
                let tree = Tree {
                    table: table@,
                    lens: lens@,
                    nbits: tablebits as nat,
                    nsyms: maxsymbols as nat,
                };
                let src = old(self).src@;
                &&& final(self)@ == tree.after(src, old(self)@)
                &&& tree.symbol(src, old(self)@) matches Some(sym) ==> r == Ok::<usize, LzxError>(
                    sym as usize,
                ) && sym < maxsymbols
                &&& tree.symbol(src, old(self)@) is None ==> r == Err::<usize, LzxError>(
                    LzxError::IllegalData,
                )
            }),
    {
        self.ensure(16);
        let ghost fetched = self@;
        let ghost tree = Tree {
            table: table@,
            lens: lens@,
            nbits: tablebits as nat,
            nsyms: maxsymbols as nat,
        };
        let buf: u32 = self.buf;
        proof {
            let n = tablebits as u32;
            assert(1 <= n <= 15 ==> (buf >> ((32 - n) as u32)) < (1u32 << n)) by (bit_vector);
            lemma_table_sizes(n as nat);
            vstd::bits::lemma_u32_shl_is_mul(1, n);
        }
        let mut i: usize = table[self.peek(tablebits as u32) as usize] as usize;
        let mut k: u32 = tablebits as u32;
        // Codes longer than `tablebits` continue down a bit-by-bit tree past the table.
        while i >= maxsymbols
            invariant
                1 <= k <= 31,
                i <= 0xffff,
                buf == fetched.buf,
                self@ == fetched,
                fetched == old(self)@.fetch(old(self).src@, 16),
                self.wf(),
                self.src == old(self).src,
                tree == (Tree {
                    table: table@,
                    lens: lens@,
                    nbits: tablebits as nat,
                    nsyms: maxsymbols as nat,
                }),
                tree.symbol(old(self).src@, old(self)@) == walk(
                    table@,
                    maxsymbols as nat,
                    i as nat,
                    buf,
                    k as nat,
                ),
            decreases 31 - k,
        {
            let bit: u32 = (buf >> (31 - k)) & 1;
            assert(bit <= 1) by (bit_vector)
                requires
                    bit == (buf >> ((31 - k) as u32)) & 1,
            ;
            if k == 31 {
                return Err(LzxError::IllegalData);
            }
            let child: usize = 2 * i + bit as usize;
            if child >= table.len() {
                return Err(LzxError::IllegalData);
            }
            i = table[child] as usize;
            k = k + 1;
        }
        self.remove(lens[i] as u32);
        Ok(i)
    }
}

} // verus!
