//! The blocks that a directory is stored as, and what reading them gives back.

use vstd::prelude::*;
use vstd::utf8::encode_utf8;

use crate::directory::{chosen, first_match, sent_to, Directory, Found, Listing};
use crate::encoding::{
    cword_bytes, holds_at, index_entries, leaf_entries, lemma_cword_round_trip,
    lemma_index_round_trip, lemma_listing_round_trip, lemma_path_round_trip, path_entry,
};
use crate::entry::{EntrySel, SEL_ALL};
use crate::error::Fault;
use crate::format::{path_at, pmgi_entry, pmgl_entry, BlockKind, EntryRecord};
use crate::headers::{
    field32, field_signed, lemma_pmgi_round_trip, lemma_pmgl_round_trip,
};
use crate::lookup::{lemma_all_chosen, lemma_chosen_concat, lemma_search_without_index};
use crate::naming::{lemma_same_path_exactly, path_variants};
use crate::paths::{folded, sorts_before};

verus! {

/// `buf` is a leaf block with some entries: the signature, the free space at 4, the block behind
/// it at 0x10, and the entries from 0x14 on up to the free space.
pub open spec fn leaf_block(
    buf: Seq<u8>,
    block_len: int,
    records: Seq<EntryRecord>,
    free_space: u32,
    next: i32,
) -> bool {
    &&& buf.len() <= usize::MAX
    &&& holds_at(buf, 0, seq![0x50u8, 0x4d, 0x47, 0x4c])
    &&& field32(buf, 4, free_space)
    &&& field_signed(buf, 0x10, next)
    &&& holds_at(buf, 0x14, leaf_entries(records))
    &&& 0x14 + leaf_entries(records).len() + free_space == block_len
    &&& forall|i: int|
        0 <= i < records.len() ==> encode_utf8((#[trigger] records[i]).path).len() <= 512
}

/// A leaf block lists the entries that it holds, and leads to the block behind it where that
/// lies further on.
pub proof fn lemma_leaf_block_round_trip(
    d: &Directory,
    cur: i32,
    buf: Seq<u8>,
    records: Seq<EntryRecord>,
    free_space: u32,
    next: i32,
    prefix: Option<Seq<u8>>,
    sel: EntrySel,
)
    requires
        leaf_block(buf, d.block_len as int, records, free_space, next),
    ensures
        d.leaf(buf) == Ok::<_, Fault>(Listing { records, fault: None }),
        d.listed(cur, buf, prefix, sel) == if next < 0 || cur < next {
            Ok((chosen(records, prefix, sel), next))
        } else {
            Err(Fault::BadPmgl)
        },
{
    lemma_pmgl_round_trip(buf, free_space, next);
    lemma_listing_round_trip(buf, 0x14, records);
}

/// A leaf block that says it has more free space than there is room is refused.
pub proof fn lemma_overfull_leaf(d: &Directory, buf: Seq<u8>, free_space: u32, next: i32)
    requires
        holds_at(buf, 0, seq![0x50u8, 0x4d, 0x47, 0x4c]),
        field32(buf, 4, free_space),
        field_signed(buf, 0x10, next),
        free_space > d.block_len,
    ensures
        d.leaf(buf) == Err::<Listing, _>(Fault::BadPmgl),
{
    lemma_pmgl_round_trip(buf, free_space, next);
}

/// The first entry of a list under a path is the one that no earlier entry shares the path of.
pub proof fn lemma_first_match_exactly(
    records: Seq<EntryRecord>,
    target: Seq<char>,
    i: int,
)
    requires
        0 <= i <= records.len(),
        forall|j: int| 0 <= j < i ==> !path_variants((#[trigger] records[j]).path, target),
        i < records.len() ==> path_variants(records[i].path, target),
    ensures
        first_match(records, target) == if i < records.len() {
            Some(records[i])
        } else {
            None
        },
    decreases records.len(),
{
    if records.len() > 0 {
        lemma_same_path_exactly(records[0].path, target);
        if i > 0 {
            let rest = records.drop_first();
            assert(!path_variants(records[0].path, target));
            assert forall|j: int| 0 <= j < i - 1 implies !path_variants(
                (#[trigger] rest[j]).path,
                target,
            ) by {
                assert(rest[j] == records[j + 1]);
            }
            lemma_first_match_exactly(rest, target, i - 1);
        }
    }
}

/// A lookup in a leaf block finds the entry with the path, but for the case of letters, and no
/// other one.
pub proof fn lemma_leaf_lookup(
    d: &Directory,
    buf: Seq<u8>,
    records: Seq<EntryRecord>,
    free_space: u32,
    next: i32,
    target: Seq<char>,
    i: int,
)
    requires
        leaf_block(buf, d.block_len as int, records, free_space, next),
        0 <= i <= records.len(),
        forall|j: int| 0 <= j < i ==> !path_variants((#[trigger] records[j]).path, target),
        i < records.len() ==> path_variants(records[i].path, target),
    ensures
        d.scanned(buf, target) == Ok::<_, Fault>(
            if i < records.len() {
                Some(records[i])
            } else {
                None
            },
        ),
{
    lemma_leaf_block_round_trip(
        d,
        -1i32,
        buf,
        records,
        free_space,
        next,
        None,
        EntrySel { bits: 0 },
    );
    lemma_first_match_exactly(records, target, i);
}

/// `buf` is an index block with some keys: the signature, the free space at 4, and the keys from
/// 8 on up to the free space.
pub open spec fn index_block(
    buf: Seq<u8>,
    block_len: int,
    keys: Seq<(Seq<char>, i32)>,
    free_space: u32,
) -> bool {
    &&& buf.len() <= usize::MAX
    &&& holds_at(buf, 0, seq![0x50u8, 0x4d, 0x47, 0x49])
    &&& field32(buf, 4, free_space)
    &&& holds_at(buf, 8, index_entries(keys))
    &&& 8 + index_entries(keys).len() + free_space == block_len
    &&& forall|i: int|
        0 <= i < keys.len() ==> encode_utf8((#[trigger] keys[i]).0).len() <= 512 && keys[i].1 >= 0
}

/// Where the first `i` keys do not lie past the target and the next one does, the target belongs
/// below the last of the `i`.
proof fn lemma_sent_below(
    keys: Seq<(Seq<char>, i32)>,
    target: Seq<char>,
    i: int,
    before: i32,
)
    requires
        0 <= i <= keys.len(),
        forall|j: int|
            0 <= j < i ==> !sorts_before(folded(target), folded((#[trigger] keys[j]).0)),
        i < keys.len() ==> sorts_before(folded(target), folded(keys[i].0)),
    ensures
        sent_to(keys, None, target, before) == Ok::<_, Fault>(
            if i == 0 {
                before
            } else {
                keys[i - 1].1
            },
        ),
    decreases i,
{
    if i > 0 {
        let rest = keys.drop_first();
        assert(!sorts_before(folded(target), folded(keys[0].0)));
        assert forall|j: int| 0 <= j < i - 1 implies !sorts_before(
            folded(target),
            folded((#[trigger] rest[j]).0),
        ) by {
            assert(rest[j] == keys[j + 1]);
        }
        lemma_sent_below(rest, target, i - 1, keys[0].1);
    }
}

/// An index block sends a target to the block of the last key that does not lie past it, and
/// nowhere if the first key does.
pub proof fn lemma_index_block_round_trip(
    d: &Directory,
    buf: Seq<u8>,
    keys: Seq<(Seq<char>, i32)>,
    free_space: u32,
    target: Seq<char>,
    i: int,
)
    requires
        index_block(buf, d.block_len as int, keys, free_space),
        0 <= i <= keys.len(),
        forall|j: int|
            0 <= j < i ==> !sorts_before(folded(target), folded((#[trigger] keys[j]).0)),
        i < keys.len() ==> sorts_before(folded(target), folded(keys[i].0)),
    ensures
        d.descended(buf, target) == Ok::<_, Fault>(
            if i == 0 {
                -1i32
            } else {
                keys[i - 1].1
            },
        ),
{
    lemma_pmgi_round_trip(buf, free_space);
    lemma_index_round_trip(buf, 8, keys);
    lemma_sent_below(keys, target, i, -1i32);
}

/// A block of any other kind is refused in a search.
pub proof fn lemma_foreign_block(
    d: &Directory,
    cur: i32,
    depth: int,
    buf: Seq<u8>,
    target: Seq<char>,
)
    requires
        !holds_at(buf, 0, seq![0x50u8, 0x4d, 0x47, 0x4c]),
        !holds_at(buf, 0, seq![0x50u8, 0x4d, 0x47, 0x49]),
    ensures
        d.looked_up(cur, depth, buf, target) == Err::<Found, _>(Fault::BadPmgl),
{
    crate::headers::lemma_foreign_headers(buf);
    let leaf = crate::format::SIG_PMGL@;
    assert(leaf =~= seq![0x50u8, 0x4d, 0x47, 0x4c]);
    crate::headers::lemma_signature(buf, 0, leaf);
    let inner = crate::format::SIG_PMGI@;
    assert(inner =~= seq![0x50u8, 0x4d, 0x47, 0x49]);
    crate::headers::lemma_signature(buf, 0, inner);
}

/// Block 0 lies at the start of the directory, and every other one behind the one before it.
pub proof fn lemma_blocks_follow(d: &Directory, idx: i32)
    ensures
        d.offset_of(0) == Ok::<_, Fault>(d.dir_offset),
        idx < 0 ==> d.offset_of(idx) == Err::<u64, _>(Fault::BadPmgl),
        0 <= idx < i32::MAX ==> match d.offset_of(idx) {
            Ok(at) => d.offset_of((idx + 1) as i32) == if at + d.block_len <= u64::MAX {
                Ok((at + d.block_len) as u64)
            } else {
                Err(Fault::Overflow)
            },
            Err(e) => e == Fault::Overflow && d.offset_of((idx + 1) as i32) == Err::<u64, _>(e),
        },
{
    assert(0 * d.block_len == 0);
    assert((idx + 1) * d.block_len == idx * d.block_len + d.block_len) by (nonlinear_arith);
}

/// A path of more than 512 bytes is refused, whatever follows its length.
pub proof fn lemma_long_path_refused(buf: Seq<u8>, at: int, len: u64, kind: BlockKind)
    requires
        holds_at(buf, at, cword_bytes(len as nat)),
        len > 512,
    ensures
        path_at(buf, at, kind) == Err::<(Seq<char>, int), _>(Fault::PathTooLong),
{
    lemma_cword_round_trip(buf, at, len as nat, kind);
}

/// A path that the buffer ends in is refused.
pub proof fn lemma_cut_path_refused(buf: Seq<u8>, at: int, len: u64)
    requires
        holds_at(buf, at, cword_bytes(len as nat)),
        len <= 512,
        at + cword_bytes(len as nat).len() + len > buf.len(),
        buf.len() + 512 <= usize::MAX,
    ensures
        path_at(buf, at, BlockKind::Pmgl) == Err::<(Seq<char>, int), _>(Fault::BadPmgl),
        path_at(buf, at, BlockKind::Pmgi) == Err::<(Seq<char>, int), _>(Fault::BadPmgi),
{
    lemma_cword_round_trip(buf, at, len as nat, BlockKind::Pmgl);
    lemma_cword_round_trip(buf, at, len as nat, BlockKind::Pmgi);
}

/// An entry in a section number that does not fit a byte is refused, and so is a key whose block
/// number does not fit 31 bits.
pub proof fn lemma_large_numbers_refused(
    buf: Seq<u8>,
    at: int,
    path: Seq<char>,
    space: u64,
    start: u64,
    length: u64,
)
    requires
        encode_utf8(path).len() <= 512,
        buf.len() <= usize::MAX,
        holds_at(buf, at, path_entry(path)),
        ({
            let p1 = at + path_entry(path).len();
            let p2 = p1 + cword_bytes(space as nat).len();
            let p3 = p2 + cword_bytes(start as nat).len();
            &&& holds_at(buf, p1, cword_bytes(space as nat))
            &&& holds_at(buf, p2, cword_bytes(start as nat))
            &&& holds_at(buf, p3, cword_bytes(length as nat))
        }),
    ensures
        space > 255 ==> pmgl_entry(buf, at) == Err::<(EntryRecord, int), _>(Fault::BadPmgl),
        space > 0x7fff_ffff ==> pmgi_entry(buf, at) == Err::<(Seq<char>, i32, int), _>(
            Fault::Overflow,
        ),
{
    let p1 = at + path_entry(path).len();
    let p2 = p1 + cword_bytes(space as nat).len();
    let p3 = p2 + cword_bytes(start as nat).len();
    lemma_path_round_trip(buf, at, path, BlockKind::Pmgl);
    lemma_path_round_trip(buf, at, path, BlockKind::Pmgi);
    lemma_cword_round_trip(buf, p1, space as nat, BlockKind::Pmgl);
    lemma_cword_round_trip(buf, p1, space as nat, BlockKind::Pmgi);
    lemma_cword_round_trip(buf, p2, start as nat, BlockKind::Pmgl);
    lemma_cword_round_trip(buf, p3, length as nat, BlockKind::Pmgl);
}

/// Lists one behind the other.
pub open spec fn joined(lists: Seq<Seq<EntryRecord>>) -> Seq<EntryRecord>
    decreases lists.len(),
{
    if lists.len() == 0 {
        Seq::empty()
    } else {
        lists[0] + joined(lists.drop_first())
    }
}

/// From block `cur` on, the leaf blocks of a directory hold the given lists of entries. Every
/// block names the one behind it, and the last one names none.
pub open spec fn chained(
    d: &Directory,
    blocks: spec_fn(int) -> Seq<u8>,
    cur: i32,
    lists: Seq<Seq<EntryRecord>>,
) -> bool
    decreases lists.len(),
{
    if lists.len() == 0 {
        cur < 0
    } else {
        &&& d.offset_of(cur) is Ok
        &&& exists|free_space: u32, next: i32| #[trigger]
            leaf_block(blocks(cur as int), d.block_len as int, lists[0], free_space, next) && (next
                < 0 || cur < next) && chained(d, blocks, next, lists.drop_first())
    }
}

/// An enumeration yields what it goes by of every entry in the chain of leaf blocks, in order.
pub proof fn lemma_chain_enumerated(
    d: &Directory,
    blocks: spec_fn(int) -> Seq<u8>,
    cur: i32,
    lists: Seq<Seq<EntryRecord>>,
    prefix: Option<Seq<u8>>,
    sel: EntrySel,
)
    requires
        chained(d, blocks, cur, lists),
    ensures
        d.walk(blocks, cur, prefix, sel) == Ok::<_, Fault>(chosen(joined(lists), prefix, sel)),
    decreases lists.len(),
{
    if lists.len() > 0 {
        let rest = lists.drop_first();
        let block = blocks(cur as int);
        let (free_space, next) = choose|free_space: u32, next: i32| #[trigger]
            leaf_block(block, d.block_len as int, lists[0], free_space, next) && (next < 0 || cur
                < next) && chained(d, blocks, next, rest);
        lemma_leaf_block_round_trip(d, cur, block, lists[0], free_space, next, prefix, sel);
        lemma_chosen_concat(lists[0], joined(rest), prefix, sel);
        lemma_chain_enumerated(d, blocks, next, rest, prefix, sel);
        if next < 0 {
            if rest.len() > 0 {
                assert(d.offset_of(next) is Err);
            }
            assert(chosen(joined(rest), prefix, sel) =~= Seq::empty());
            assert(chosen(lists[0], prefix, sel) + chosen(joined(rest), prefix, sel) =~= chosen(
                lists[0],
                prefix,
                sel,
            ));
        }
    } else {
        assert(chosen(joined(lists), prefix, sel) =~= Seq::empty());
    }
}

/// In a directory of leaf blocks alone, a search finds the first entry of the chain under the
/// path, but for the case of letters, and reports a path that no entry has as not found.
pub proof fn lemma_chain_searched(
    d: &Directory,
    blocks: spec_fn(int) -> Seq<u8>,
    lists: Seq<Seq<EntryRecord>>,
    path: Seq<char>,
    i: int,
)
    requires
        d.index_root == d.index_head,
        lists.len() > 0,
        chained(d, blocks, d.index_head, lists),
        0 <= i <= joined(lists).len(),
        forall|j: int| 0 <= j < i ==> !path_variants((#[trigger] joined(lists)[j]).path, path),
        i < joined(lists).len() ==> path_variants(joined(lists)[i].path, path),
    ensures
        d.found(blocks, path) == if i < joined(lists).len() {
            Ok(joined(lists)[i])
        } else {
            Err(Fault::NotFound(path))
        },
{
    let all = EntrySel { bits: SEL_ALL };
    lemma_chain_enumerated(d, blocks, d.index_head, lists, None, all);
    lemma_all_chosen(joined(lists));
    lemma_search_without_index(d, blocks, path);
    lemma_first_match_exactly(joined(lists), path, i);
}

/// A search goes down through at most 64 levels of blocks.
pub proof fn lemma_depth_limit(
    d: &Directory,
    blocks: spec_fn(int) -> Seq<u8>,
    cur: i32,
    depth: int,
    path: Seq<char>,
    child: i32,
)
    requires
        d.offset_of(cur) is Ok,
        d.looked_up(cur, depth, blocks(cur as int), path) == Ok::<_, Fault>(Found::Below(child)),
    ensures
        d.search(blocks, cur, depth, path) == if depth < 63 {
            d.search(blocks, child, depth + 1, path)
        } else {
            Err(Fault::BadPmgi)
        },
{
}

} // verus!
