//! What searching and enumerating a directory come to as a whole.
//!
//! A directory is taken here together with the bytes of its blocks, given by their index.

use vstd::prelude::*;
use vstd::utf8::encode_utf8;

use crate::directory::{
    chosen, first_match, index, prefix_bytes, sent_to, wanted, Directory, Found, Index,
    MAX_INDEX_DEPTH,
};
use crate::entry::{
    category_flag, kind_flag, selects, EntrySel, SEL_ALL, SEL_DIRS, SEL_FILES, SEL_META,
    SEL_NORMAL, SEL_SPECIAL,
};
use crate::error::Fault;
use crate::format::{
    has_signature, pmgi_header, pmgl_header, EntryRecord, PMGI_HEADER_LEN, SIG_PMGI, SIG_PMGL,
};
use crate::paths::{
    category_of, folded, kind_of, lemma_before_total, lemma_not_before_itself, same_path,
    sorts_before, EntryKind,
};

verus! {

impl Directory {
    /// The search for `path` from block `cur` on, `depth` levels below the root.
    pub open spec fn search(
        &self,
        blocks: spec_fn(int) -> Seq<u8>,
        cur: i32,
        depth: int,
        path: Seq<char>,
    ) -> core::result::Result<EntryRecord, Fault>
        decreases MAX_INDEX_DEPTH - depth, i32::MAX - cur,
    {
        match self.offset_of(cur) {
            Err(e) => Err(e),
            Ok(_) => match self.looked_up(cur, depth, blocks(cur as int), path) {
                Err(e) => Err(e),
                Ok(Found::Entry(record)) => Ok(record),
                Ok(Found::Behind(leaf)) => self.search(blocks, leaf, depth, path),
                Ok(Found::Below(child)) => if depth + 1 >= MAX_INDEX_DEPTH {
                    Err(Fault::BadPmgi)
                } else {
                    self.search(blocks, child, depth + 1, path)
                },
            },
        }
    }

    /// The entry with the path `path`.
    pub open spec fn found(
        &self,
        blocks: spec_fn(int) -> Seq<u8>,
        path: Seq<char>,
    ) -> core::result::Result<EntryRecord, Fault> {
        self.search(blocks, self.index_root, 0, path)
    }

    /// The entries that match from leaf block `cur` on.
    pub open spec fn walk(
        &self,
        blocks: spec_fn(int) -> Seq<u8>,
        cur: i32,
        prefix: Option<Seq<u8>>,
        sel: EntrySel,
    ) -> core::result::Result<Seq<EntryRecord>, Fault>
        decreases i32::MAX - cur,
    {
        if cur < 0 {
            Ok(Seq::empty())
        } else {
            match self.offset_of(cur) {
                Err(e) => Err(e),
                Ok(_) => match self.listed(cur, blocks(cur as int), prefix, sel) {
                    Err(e) => Err(e),
                    Ok((records, next)) => if next < 0 {
                        Ok(records)
                    } else {
                        match self.walk(blocks, next, prefix, sel) {
                            Err(e) => Err(e),
                            Ok(more) => Ok(records + more),
                        }
                    },
                },
            }
        }
    }

    /// The entries that match, in the order of the directory.
    pub open spec fn entries(
        &self,
        blocks: spec_fn(int) -> Seq<u8>,
        prefix: Option<Seq<u8>>,
        sel: EntrySel,
    ) -> core::result::Result<Seq<EntryRecord>, Fault> {
        self.walk(blocks, self.index_head, prefix, sel)
    }

    /// A leaf block of the directory holds the entry.
    pub open spec fn stores(&self, block: Seq<u8>, record: EntryRecord) -> bool {
        self.leaf(block) matches Ok(list) && list.records.contains(record)
    }
}

/// What is found first is in the list, under the path that was looked for.
proof fn lemma_first_match(records: Seq<EntryRecord>, path: Seq<char>)
    ensures
        first_match(records, path) matches Some(r) ==> records.contains(r) && same_path(
            r.path,
            path,
        ),
        first_match(records, path) is None ==> forall|i: int|
            0 <= i < records.len() ==> !same_path((#[trigger] records[i]).path, path),
    decreases records.len(),
{
    if records.len() > 0 {
        let rest = records.drop_first();
        lemma_first_match(rest, path);
        if same_path(records[0].path, path) {
            assert(records[0] == records[0]);
        } else {
            if let Some(r) = first_match(rest, path) {
                let i = choose|i: int| 0 <= i < rest.len() && rest[i] == r;
                assert(records[i + 1] == r);
            } else {
                assert forall|i: int| 0 <= i < records.len() implies !same_path(
                    (#[trigger] records[i]).path,
                    path,
                ) by {
                    if i > 0 {
                        assert(rest[i - 1] == records[i]);
                    }
                }
            }
        }
    }
}

/// A search ends in an entry whose path is the one looked for, and which a leaf block of the
/// directory holds.
pub proof fn lemma_search_finds(
    d: &Directory,
    blocks: spec_fn(int) -> Seq<u8>,
    cur: i32,
    depth: int,
    path: Seq<char>,
)
    ensures
        d.search(blocks, cur, depth, path) matches Ok(record) ==> same_path(record.path, path)
            && exists|b: int| d.stores(#[trigger] blocks(b), record),
    decreases MAX_INDEX_DEPTH - depth, i32::MAX - cur,
{
    if d.offset_of(cur) is Ok {
        let block = blocks(cur as int);
        match d.looked_up(cur, depth, block, path) {
            Ok(Found::Entry(record)) => {
                lemma_first_match(d.leaf(block)->Ok_0.records, path);
                assert(d.stores(blocks(cur as int), record));
            },
            Ok(Found::Behind(leaf)) => {
                lemma_search_finds(d, blocks, leaf, depth, path);
            },
            Ok(Found::Below(child)) => {
                if depth + 1 < MAX_INDEX_DEPTH {
                    lemma_search_finds(d, blocks, child, depth + 1, path);
                }
            },
            Err(_) => {},
        }
    }
}

/// A leaf block that can be read in full finds every path that it holds, and no other.
pub proof fn lemma_scan_is_complete(d: &Directory, block: Seq<u8>, path: Seq<char>)
    requires
        d.leaf(block) is Ok,
        d.leaf(block)->Ok_0.fault is None,
    ensures
        d.scanned(block, path) is Ok,
        d.scanned(block, path)->Ok_0 is Some <==> exists|i: int|
            0 <= i < d.leaf(block)->Ok_0.records.len() && same_path(
                (#[trigger] d.leaf(block)->Ok_0.records[i]).path,
                path,
            ),
{
    let records = d.leaf(block)->Ok_0.records;
    lemma_first_match(records, path);
    if let Some(r) = first_match(records, path) {
        let i = choose|i: int| 0 <= i < records.len() && records[i] == r;
        assert(same_path(records[i].path, path));
    }
}

/// Two answers that say the same, each about the path that it was asked for.
pub open spec fn same_answer<T>(
    a: core::result::Result<T, Fault>,
    p: Seq<char>,
    b: core::result::Result<T, Fault>,
    q: Seq<char>,
) -> bool {
    a == b || (a == Err::<T, Fault>(Fault::NotFound(p)) && b == Err::<T, Fault>(
        Fault::NotFound(q),
    ))
}

proof fn lemma_first_match_ignores_case(
    records: Seq<EntryRecord>,
    p: Seq<char>,
    q: Seq<char>,
)
    requires
        same_path(p, q),
    ensures
        first_match(records, p) == first_match(records, q),
    decreases records.len(),
{
    if records.len() > 0 {
        lemma_first_match_ignores_case(records.drop_first(), p, q);
    }
}

proof fn lemma_sent_to_ignores_case(
    keys: Seq<(Seq<char>, i32)>,
    fault: Option<Fault>,
    p: Seq<char>,
    q: Seq<char>,
    before: i32,
)
    requires
        same_path(p, q),
    ensures
        sent_to(keys, fault, p, before) == sent_to(keys, fault, q, before),
    decreases keys.len(),
{
    if keys.len() > 0 {
        lemma_sent_to_ignores_case(keys.drop_first(), fault, p, q, keys[0].1);
    }
}

/// Paths are matched case-insensitively: a search for a path that differs in ASCII case only
/// comes to the same.
pub proof fn lemma_search_ignores_case(
    d: &Directory,
    blocks: spec_fn(int) -> Seq<u8>,
    cur: i32,
    depth: int,
    p: Seq<char>,
    q: Seq<char>,
)
    requires
        same_path(p, q),
    ensures
        same_answer(d.search(blocks, cur, depth, p), p, d.search(blocks, cur, depth, q), q),
    decreases MAX_INDEX_DEPTH - depth, i32::MAX - cur,
{
    let block = blocks(cur as int);
    if let Ok(list) = d.leaf(block) {
        lemma_first_match_ignores_case(list.records, p, q);
    }
    if let Ok(h) = pmgi_header(block) {
        let i = index(block, PMGI_HEADER_LEN as int, d.block_len - h.free_space);
        lemma_sent_to_ignores_case(i.keys, i.fault, p, q, -1i32);
    }
    match d.looked_up(cur, depth, block, p) {
        Ok(Found::Behind(leaf)) => {
            lemma_search_ignores_case(d, blocks, leaf, depth, p, q);
        },
        Ok(Found::Below(child)) => {
            if depth + 1 < MAX_INDEX_DEPTH {
                lemma_search_ignores_case(d, blocks, child, depth + 1, p, q);
            }
        },
        _ => {},
    }
}

/// One step of a search leads on to the same answer.
pub proof fn lemma_search_step(
    d: &Directory,
    blocks: spec_fn(int) -> Seq<u8>,
    cur: i32,
    depth: int,
    path: Seq<char>,
)
    requires
        d.offset_of(cur) is Ok,
        depth < MAX_INDEX_DEPTH,
    ensures
        d.search(blocks, cur, depth, path) == match d.looked_up(
            cur,
            depth,
            blocks(cur as int),
            path,
        ) {
            Err(e) => Err(e),
            Ok(Found::Entry(record)) => Ok(record),
            Ok(Found::Behind(leaf)) => d.search(blocks, leaf, depth, path),
            Ok(Found::Below(child)) => if depth + 1 >= MAX_INDEX_DEPTH {
                Err(Fault::BadPmgi)
            } else {
                d.search(blocks, child, depth + 1, path)
            },
        },
{
}

/// The selector for everything selects every path.
pub proof fn lemma_all_selects(path: Seq<char>)
    ensures
        selects(EntrySel { bits: SEL_ALL }, path),
{
    assert(0x1Fu8 & 0x08 != 0 && 0x1Fu8 & 0x10 != 0 && 0x1Fu8 & 0x01 != 0 && 0x1Fu8 & 0x02 != 0
        && 0x1Fu8 & 0x04 != 0) by (bit_vector);
}

/// A selector that names no kind, or no category, selects nothing.
pub proof fn lemma_half_a_selector_selects_nothing(sel: EntrySel, path: Seq<char>)
    requires
        sel.bits & (SEL_FILES | SEL_DIRS) == 0 || sel.bits & (SEL_NORMAL | SEL_SPECIAL | SEL_META)
            == 0,
    ensures
        !selects(sel, path),
{
    let s = sel.bits;
    assert((s & (0x08u8 | 0x10) == 0 ==> s & 0x08 == 0 && s & 0x10 == 0) && (s & (0x01u8 | 0x02
        | 0x04) == 0 ==> s & 0x01 == 0 && s & 0x02 == 0 && s & 0x04 == 0)) by (bit_vector);
}

/// What a union of selectors selects takes a kind from either and a category from either.
pub proof fn lemma_union_selects(a: EntrySel, b: EntrySel, path: Seq<char>)
    ensures
        selects(a.joined(b), path) <==> {
            &&& a.bits & kind_flag(kind_of(path)) != 0 || b.bits & kind_flag(kind_of(path)) != 0
            &&& a.bits & category_flag(category_of(path)) != 0 || b.bits & category_flag(
                category_of(path),
            ) != 0
        },
{
    let x = a.bits;
    let y = b.bits;
    let k = kind_flag(kind_of(path));
    let c = category_flag(category_of(path));
    assert(((x | y) & k != 0 <==> x & k != 0 || y & k != 0) && ((x | y) & c != 0 <==> x & c != 0
        || y & c != 0)) by (bit_vector);
}

/// A prefix and the same prefix with a slash behind it select the same subtree.
pub proof fn lemma_prefix_slash(prefix: Seq<char>)
    requires
        prefix.len() > 0,
        kind_of(prefix) == EntryKind::File,
    ensures
        prefix_bytes(prefix) == prefix_bytes(prefix.push('/')),
{
    let slashed = prefix.push('/');
    lemma_encode_push(prefix, '/');
    assert(0x2fu32 & 0x7f == 0x2f) by (bit_vector);
    assert(encode_utf8(slashed) =~= encode_utf8(prefix).push(0x2f));
}

/// A path is encoded character by character.
pub proof fn lemma_encode_push(path: Seq<char>, c: char)
    ensures
        encode_utf8(path.push(c)) == encode_utf8(path) + vstd::utf8::encode_scalar(c as u32),
    decreases path.len(),
{
    let more = path.push(c);
    if path.len() == 0 {
        assert(more.drop_first() =~= Seq::<char>::empty());
        assert(encode_utf8(more.drop_first()).len() == 0);
        assert(encode_utf8(more) =~= vstd::utf8::encode_scalar(c as u32));
        assert(encode_utf8(path) + vstd::utf8::encode_scalar(c as u32)
            =~= vstd::utf8::encode_scalar(c as u32));
    } else {
        assert(more.drop_first() =~= path.drop_first().push(c));
        lemma_encode_push(path.drop_first(), c);
        assert(encode_utf8(more) =~= encode_utf8(path) + vstd::utf8::encode_scalar(c as u32));
    }
}

/// What an enumeration yields is what it wants of the entries, in order.
pub proof fn lemma_chosen(
    records: Seq<EntryRecord>,
    prefix: Option<Seq<u8>>,
    sel: EntrySel,
)
    ensures
        chosen(records, prefix, sel) == records.filter(|r: EntryRecord| wanted(prefix, sel, r)),
    decreases records.len(),
{
    let f = |r: EntryRecord| wanted(prefix, sel, r);
    if records.len() > 0 {
        let rest = records.drop_first();
        lemma_chosen(rest, prefix, sel);
        assert(records =~= seq![records[0]] + rest);
        Seq::filter_distributes_over_add(seq![records[0]], rest, f);
        reveal(Seq::filter);
        assert(seq![records[0]].drop_last() =~= Seq::<EntryRecord>::empty());
        assert(seq![records[0]].drop_last().filter(f) =~= Seq::<EntryRecord>::empty());
        if wanted(prefix, sel, records[0]) {
            assert(seq![records[0]].filter(f) =~= seq![records[0]]);
        } else {
            assert(seq![records[0]].filter(f) =~= Seq::<EntryRecord>::empty());
            assert(Seq::<EntryRecord>::empty() + rest.filter(f) =~= rest.filter(f));
        }
    } else {
        reveal(Seq::filter);
        assert(records.filter(f) =~= Seq::<EntryRecord>::empty());
    }
}

/// Choosing from two lists in a row is choosing from the list they make up.
pub proof fn lemma_chosen_concat(
    a: Seq<EntryRecord>,
    b: Seq<EntryRecord>,
    prefix: Option<Seq<u8>>,
    sel: EntrySel,
)
    ensures
        chosen(a + b, prefix, sel) == chosen(a, prefix, sel) + chosen(b, prefix, sel),
    decreases a.len(),
{
    if a.len() == 0 {
        assert(a + b =~= b);
        assert(chosen(a, prefix, sel) + chosen(b, prefix, sel) =~= chosen(b, prefix, sel));
    } else {
        assert((a + b).drop_first() =~= a.drop_first() + b);
        lemma_chosen_concat(a.drop_first(), b, prefix, sel);
        assert(seq![a[0]] + (chosen(a.drop_first(), prefix, sel) + chosen(b, prefix, sel)) =~= seq![
            a[0],
        ] + chosen(a.drop_first(), prefix, sel) + chosen(b, prefix, sel));
    }
}

/// Without a prefix, the selector for everything chooses every entry.
pub proof fn lemma_all_chosen(records: Seq<EntryRecord>)
    ensures
        chosen(records, None, EntrySel { bits: SEL_ALL }) == records,
    decreases records.len(),
{
    if records.len() > 0 {
        lemma_all_selects(records[0].path);
        lemma_all_chosen(records.drop_first());
        assert(records =~= seq![records[0]] + records.drop_first());
    }
}

/// Any enumeration is the enumeration of everything with the entries left out that do not
/// match: it fails in the same way, or it yields those entries in the same order. So what
/// `entries_in` yields is part of what `entries` does.
pub proof fn lemma_walk_filters(
    d: &Directory,
    blocks: spec_fn(int) -> Seq<u8>,
    cur: i32,
    prefix: Option<Seq<u8>>,
    sel: EntrySel,
)
    ensures
        d.walk(blocks, cur, prefix, sel) == match d.walk(
            blocks,
            cur,
            None,
            EntrySel { bits: SEL_ALL },
        ) {
            Err(e) => Err(e),
            Ok(all) => Ok(chosen(all, prefix, sel)),
        },
    decreases i32::MAX - cur,
{
    let everything = EntrySel { bits: SEL_ALL };
    if cur < 0 || d.offset_of(cur) is Err {
    } else {
        let block = blocks(cur as int);
        if let Ok((records, next)) = d.listed(cur, block, None, everything) {
            let list = d.leaf(block)->Ok_0;
            lemma_all_chosen(list.records);
            assert(d.listed(cur, block, prefix, sel) == Ok::<(Seq<EntryRecord>, i32), Fault>(
                (chosen(list.records, prefix, sel), next),
            ));
            if next >= 0 {
                lemma_walk_filters(d, blocks, next, prefix, sel);
                if let Ok(more) = d.walk(blocks, next, None, everything) {
                    lemma_chosen_concat(records, more, prefix, sel);
                }
            }
        }
    }
}

/// One step of an enumeration leads on to the same entries.
pub proof fn lemma_walk_step(
    d: &Directory,
    blocks: spec_fn(int) -> Seq<u8>,
    cur: i32,
    prefix: Option<Seq<u8>>,
    sel: EntrySel,
)
    requires
        cur >= 0,
        d.offset_of(cur) is Ok,
    ensures
        d.walk(blocks, cur, prefix, sel) == match d.listed(
            cur,
            blocks(cur as int),
            prefix,
            sel,
        ) {
            Err(e) => Err(e),
            Ok((records, next)) => match d.walk(blocks, next, prefix, sel) {
                Err(e) => Err(e),
                Ok(more) => Ok(records + more),
            },
        },
{
    if let Ok((records, next)) = d.listed(cur, blocks(cur as int), prefix, sel) {
        if next < 0 {
            assert(records + Seq::<EntryRecord>::empty() =~= records);
        }
    }
}

/// One of `records` has the path `path`.
pub open spec fn lists(records: Seq<EntryRecord>, path: Seq<char>) -> bool {
    exists|i: int| 0 <= i < records.len() && same_path((#[trigger] records[i]).path, path)
}

/// The answer to a search for `path` where `records` are all there is.
pub open spec fn answers(
    r: core::result::Result<EntryRecord, Fault>,
    records: Seq<EntryRecord>,
    path: Seq<char>,
) -> bool {
    match r {
        Ok(record) => records.contains(record) && same_path(record.path, path),
        Err(e) => e == Fault::NotFound(path) && !lists(records, path),
    }
}

/// What is found first in a list answers a search.
proof fn lemma_first_match_answers(records: Seq<EntryRecord>, path: Seq<char>)
    ensures
        first_match(records, path) is Some <==> lists(records, path),
        answers(
            match first_match(records, path) {
                Some(record) => Ok(record),
                None => Err(Fault::NotFound(path)),
            },
            records,
            path,
        ),
{
    lemma_first_match(records, path);
    if let Some(r) = first_match(records, path) {
        let i = choose|i: int| 0 <= i < records.len() && records[i] == r;
        assert(same_path(records[i].path, path));
    }
}

/// What is found first in two lists in a row is in the first one, or else in the second.
proof fn lemma_first_match_concat(a: Seq<EntryRecord>, b: Seq<EntryRecord>, path: Seq<char>)
    ensures
        first_match(a + b, path) == match first_match(a, path) {
            Some(r) => Some(r),
            None => first_match(b, path),
        },
    decreases a.len(),
{
    if a.len() == 0 {
        assert(a + b =~= b);
    } else {
        assert((a + b).drop_first() =~= a.drop_first() + b);
        lemma_first_match_concat(a.drop_first(), b, path);
    }
}

/// A search along the chain of leaf blocks comes to the first entry that the chain lists under
/// the path.
proof fn lemma_chain_search(
    d: &Directory,
    blocks: spec_fn(int) -> Seq<u8>,
    cur: i32,
    path: Seq<char>,
)
    requires
        cur >= 0,
        d.walk(blocks, cur, None, EntrySel { bits: SEL_ALL }) is Ok,
    ensures
        d.search(blocks, cur, 0, path) == match first_match(
            d.walk(blocks, cur, None, EntrySel { bits: SEL_ALL })->Ok_0,
            path,
        ) {
            Some(record) => Ok(record),
            None => Err(Fault::NotFound(path)),
        },
    decreases i32::MAX - cur,
{
    let everything = EntrySel { bits: SEL_ALL };
    let block = blocks(cur as int);
    let list = d.leaf(block)->Ok_0;
    let next = pmgl_header(block)->Ok_0.block_next;
    lemma_all_chosen(list.records);
    if next >= 0 {
        let more = d.walk(blocks, next, None, everything)->Ok_0;
        lemma_first_match_concat(list.records, more, path);
        lemma_chain_search(d, blocks, next, path);
    }
}

/// Without an index, a search comes to the first entry with the path that an enumeration lists,
/// in whichever leaf block it lies, and reports that the path is not found if none is listed. A
/// directory without any leaf block is reported as malformed.
pub proof fn lemma_search_without_index(
    d: &Directory,
    blocks: spec_fn(int) -> Seq<u8>,
    path: Seq<char>,
)
    requires
        d.index_root == d.index_head,
        d.entries(blocks, None, EntrySel { bits: SEL_ALL }) is Ok,
    ensures
        ({
            let all = d.entries(blocks, None, EntrySel { bits: SEL_ALL })->Ok_0;
            &&& d.found(blocks, path) == if d.index_head < 0 {
                Err(Fault::BadPmgl)
            } else {
                match first_match(all, path) {
                    Some(record) => Ok(record),
                    None => Err(Fault::NotFound(path)),
                }
            }
            &&& d.found(blocks, path) is Ok <==> lists(all, path)
            &&& d.index_head >= 0 ==> answers(d.found(blocks, path), all, path)
        }),
{
    if d.index_head >= 0 {
        lemma_chain_search(d, blocks, d.index_head, path);
    }
    lemma_first_match_answers(
        d.entries(blocks, None, EntrySel { bits: SEL_ALL })->Ok_0,
        path,
    );
}

/// The paths of `records` are in order, ignoring ASCII case.
pub open spec fn sorted(records: Seq<EntryRecord>) -> bool {
    forall|i: int, j: int|
        0 <= i < j < records.len() ==> !sorts_before(
            folded((#[trigger] records[j]).path),
            folded((#[trigger] records[i]).path),
        )
}

impl Directory {
    /// The keys of an index block.
    pub open spec fn keys_of(&self, block: Seq<u8>) -> Index {
        let free = pmgi_header(block)->Ok_0.free_space;
        index(block, PMGI_HEADER_LEN as int, self.block_len - free)
    }

    /// The entries in the leaf blocks `h` levels below block `b`, in the order of the index.
    pub open spec fn records_below(
        &self,
        blocks: spec_fn(int) -> Seq<u8>,
        b: i32,
        h: nat,
    ) -> Seq<EntryRecord>
        decreases h, 0nat,
    {
        if h == 0 {
            self.leaf(blocks(b as int))->Ok_0.records
        } else {
            self.records_under(blocks, self.keys_of(blocks(b as int)).keys, (h - 1) as nat)
        }
    }

    /// The entries in the leaf blocks `h` levels below the blocks that `keys` lead to.
    pub open spec fn records_under(
        &self,
        blocks: spec_fn(int) -> Seq<u8>,
        keys: Seq<(Seq<char>, i32)>,
        h: nat,
    ) -> Seq<EntryRecord>
        decreases h, 1 + keys.len(),
    {
        if keys.len() == 0 {
            Seq::empty()
        } else {
            self.records_below(blocks, keys[0].1, h) + self.records_under(
                blocks,
                keys.drop_first(),
                h,
            )
        }
    }

    /// Block `b` is the root of an index with the leaf blocks `h` levels below it: every block
    /// can be read in full, and every key is the first path below the block that it leads to.
    pub open spec fn indexed(&self, blocks: spec_fn(int) -> Seq<u8>, b: i32, h: nat) -> bool
        decreases h, 0nat,
    {
        let block = blocks(b as int);
        &&& self.offset_of(b) is Ok
        &&& if h == 0 {
            self.leaf(block) matches Ok(list) && list.fault is None
        } else {
            &&& pmgi_header(block) matches Ok(header) && header.free_space <= self.block_len
            &&& self.keys_of(block).fault is None
            &&& self.keyed(blocks, self.keys_of(block).keys, (h - 1) as nat)
        }
    }

    /// Each of `keys` is the first path below the block that it leads to.
    pub open spec fn keyed(
        &self,
        blocks: spec_fn(int) -> Seq<u8>,
        keys: Seq<(Seq<char>, i32)>,
        h: nat,
    ) -> bool
        decreases h, 1 + keys.len(),
    {
        keys.len() > 0 ==> {
            let below = self.records_below(blocks, keys[0].1, h);
            &&& self.indexed(blocks, keys[0].1, h)
            &&& below.len() > 0
            &&& same_path(below[0].path, keys[0].0)
            &&& self.keyed(blocks, keys.drop_first(), h)
        }
    }
}

/// In a sorted list that starts past the path, nothing has the path.
proof fn lemma_starts_past(records: Seq<EntryRecord>, path: Seq<char>)
    requires
        sorted(records),
        records.len() > 0 ==> sorts_before(folded(path), folded(records[0].path)),
    ensures
        !lists(records, path),
{
    if lists(records, path) {
        let i = choose|i: int|
            0 <= i < records.len() && same_path((#[trigger] records[i]).path, path);
        if i == 0 {
            lemma_not_before_itself(folded(path));
        }
        assert(!sorts_before(folded(records[i].path), folded(records[0].path)));
    }
}

/// The parts of a sorted list are sorted.
proof fn lemma_sorted_parts(a: Seq<EntryRecord>, b: Seq<EntryRecord>)
    requires
        sorted(a + b),
    ensures
        sorted(a),
        sorted(b),
        forall|i: int, j: int|
            0 <= i < a.len() && 0 <= j < b.len() ==> !sorts_before(
                folded((#[trigger] b[j]).path),
                folded((#[trigger] a[i]).path),
            ),
{
    let c = a + b;
    assert forall|i: int, j: int| 0 <= i < j < a.len() implies !sorts_before(
        folded((#[trigger] a[j]).path),
        folded((#[trigger] a[i]).path),
    ) by {
        assert(c[i] == a[i] && c[j] == a[j]);
    }
    assert forall|i: int, j: int| 0 <= i < j < b.len() implies !sorts_before(
        folded((#[trigger] b[j]).path),
        folded((#[trigger] b[i]).path),
    ) by {
        assert(c[a.len() + i] == b[i] && c[a.len() + j] == b[j]);
    }
    assert forall|i: int, j: int| 0 <= i < a.len() && 0 <= j < b.len() implies !sorts_before(
        folded((#[trigger] b[j]).path),
        folded((#[trigger] a[i]).path),
    ) by {
        assert(c[i] == a[i] && c[a.len() + j] == b[j]);
    }
}

/// Two lists in a row list what either does.
proof fn lemma_lists_concat(a: Seq<EntryRecord>, b: Seq<EntryRecord>, path: Seq<char>)
    ensures
        lists(a + b, path) <==> lists(a, path) || lists(b, path),
{
    let c = a + b;
    if lists(a, path) {
        let i = choose|i: int| 0 <= i < a.len() && same_path((#[trigger] a[i]).path, path);
        assert(same_path(c[i].path, path));
    }
    if lists(b, path) {
        let i = choose|i: int| 0 <= i < b.len() && same_path((#[trigger] b[i]).path, path);
        assert(same_path(c[a.len() + i].path, path));
    }
    if lists(c, path) {
        let i = choose|i: int| 0 <= i < c.len() && same_path((#[trigger] c[i]).path, path);
        if i < a.len() {
            assert(a[i] == c[i]);
        } else {
            assert(b[i - a.len()] == c[i]);
        }
    }
}

/// What one of two lists in a row contains, both of them do.
proof fn lemma_contains_concat(a: Seq<EntryRecord>, b: Seq<EntryRecord>, record: EntryRecord)
    ensures
        a.contains(record) || b.contains(record) ==> (a + b).contains(record),
{
    let c = a + b;
    if a.contains(record) {
        let i = choose|i: int| 0 <= i < a.len() && a[i] == record;
        assert(c[i] == record);
    } else if b.contains(record) {
        let i = choose|i: int| 0 <= i < b.len() && b[i] == record;
        assert(c[a.len() + i] == record);
    }
}

/// Of two sorted lists in a row, the second one lists a path that the first one does, if it
/// does not start past it: it starts with it.
proof fn lemma_listed_again(a: Seq<EntryRecord>, b: Seq<EntryRecord>, path: Seq<char>)
    requires
        sorted(a + b),
        b.len() > 0,
        !sorts_before(folded(path), folded(b[0].path)),
        lists(a, path),
    ensures
        lists(b, path),
{
    lemma_sorted_parts(a, b);
    let i = choose|i: int| 0 <= i < a.len() && same_path((#[trigger] a[i]).path, path);
    assert(!sorts_before(folded(b[0].path), folded(a[i].path)));
    lemma_before_total(folded(path), folded(b[0].path));
    assert(same_path(b[0].path, path));
}

/// The block that a path is sent to holds it below if any of `all` has it.
pub open spec fn sent_well(
    d: &Directory,
    blocks: spec_fn(int) -> Seq<u8>,
    b: i32,
    h: nat,
    all: Seq<EntryRecord>,
    path: Seq<char>,
) -> bool {
    let below = d.records_below(blocks, b, h);
    &&& d.indexed(blocks, b, h)
    &&& sorted(below)
    &&& lists(below, path) <==> lists(all, path)
    &&& forall|record: EntryRecord| #[trigger] below.contains(record) ==> all.contains(record)
}

/// The keys of an index send a path to a block below which it lies if it lies below any of
/// them.
proof fn lemma_sent_where_listed(
    d: &Directory,
    blocks: spec_fn(int) -> Seq<u8>,
    keys: Seq<(Seq<char>, i32)>,
    h: nat,
    path: Seq<char>,
    before: i32,
)
    requires
        d.keyed(blocks, keys, h),
        sorted(d.records_under(blocks, keys, h)),
    ensures
        ({
            let r = sent_to(keys, None, path, before);
            let all = d.records_under(blocks, keys, h);
            if keys.len() == 0 || sorts_before(folded(path), folded(keys[0].0)) {
                r == Ok::<i32, Fault>(before) && !lists(all, path)
            } else {
                r is Ok && sent_well(d, blocks, r->Ok_0, h, all, path)
            }
        }),
    decreases keys.len(),
{
    let all = d.records_under(blocks, keys, h);
    if keys.len() > 0 {
        let head = d.records_below(blocks, keys[0].1, h);
        let rest = keys.drop_first();
        let tail = d.records_under(blocks, rest, h);
        assert(all == head + tail);
        assert(all[0] == head[0]);
        if sorts_before(folded(path), folded(keys[0].0)) {
            lemma_starts_past(all, path);
        } else {
            lemma_sorted_parts(head, tail);
            lemma_lists_concat(head, tail, path);
            lemma_sent_where_listed(d, blocks, rest, h, path, keys[0].1);
            let r = sent_to(rest, None, path, keys[0].1);
            assert(r == sent_to(keys, None, path, before));
            if rest.len() == 0 || sorts_before(folded(path), folded(rest[0].0)) {
                assert forall|record: EntryRecord| #[trigger]
                    head.contains(record) implies all.contains(record) by {
                    lemma_contains_concat(head, tail, record);
                }
                assert(sent_well(d, blocks, keys[0].1, h, all, path));
            } else {
                lemma_tail_starts(d, blocks, rest, h);
                if lists(head, path) {
                    lemma_listed_again(head, tail, path);
                }
                let below = d.records_below(blocks, r->Ok_0, h);
                assert forall|record: EntryRecord| #[trigger]
                    below.contains(record) implies all.contains(record) by {
                    lemma_contains_concat(head, tail, record);
                }
                assert(sent_well(d, blocks, r->Ok_0, h, all, path));
            }
        }
    }
}

/// What lies below some keys starts with the first of them.
proof fn lemma_tail_starts(
    d: &Directory,
    blocks: spec_fn(int) -> Seq<u8>,
    keys: Seq<(Seq<char>, i32)>,
    h: nat,
)
    requires
        d.keyed(blocks, keys, h),
        keys.len() > 0,
    ensures
        d.records_under(blocks, keys, h).len() > 0,
        same_path(d.records_under(blocks, keys, h)[0].path, keys[0].0),
{
    let head = d.records_below(blocks, keys[0].1, h);
    assert(d.records_under(blocks, keys, h)[0] == head[0]);
}

/// A search below a block of an index answers for all that lies below it.
proof fn lemma_search_below(
    d: &Directory,
    blocks: spec_fn(int) -> Seq<u8>,
    b: i32,
    h: nat,
    depth: int,
    path: Seq<char>,
)
    requires
        d.indexed(blocks, b, h),
        sorted(d.records_below(blocks, b, h)),
        0 <= depth,
        depth + h < MAX_INDEX_DEPTH,
        depth == 0 ==> h > 0 && b == d.index_root,
    ensures
        answers(d.search(blocks, b, depth, path), d.records_below(blocks, b, h), path),
    decreases h,
{
    let block = blocks(b as int);
    let all = d.records_below(blocks, b, h);
    if h == 0 {
        lemma_first_match_answers(all, path);
        assert(d.scanned(block, path) == Ok::<Option<EntryRecord>, Fault>(first_match(all, path)));
    } else {
        let keys = d.keys_of(block).keys;
        let below = (h - 1) as nat;
        lemma_signatures_differ(block);
        lemma_sent_where_listed(d, blocks, keys, below, path, -1i32);
        let r = sent_to(keys, None, path, -1i32);
        assert(d.descended(block, path) == r);
        if keys.len() == 0 || sorts_before(folded(path), folded(keys[0].0)) {
        } else {
            lemma_search_below(d, blocks, r->Ok_0, below, depth + 1, path);
        }
    }
}

/// Where the leaf blocks below the root of an index are those that an enumeration walks, and
/// their paths are sorted, a search finds a path exactly if the enumeration lists it, and
/// otherwise reports that it is not found.
pub proof fn lemma_search_is_complete(
    d: &Directory,
    blocks: spec_fn(int) -> Seq<u8>,
    h: nat,
    path: Seq<char>,
)
    requires
        0 < h < MAX_INDEX_DEPTH,
        d.indexed(blocks, d.index_root, h),
        d.entries(blocks, None, EntrySel { bits: SEL_ALL }) == Ok::<Seq<EntryRecord>, Fault>(
            d.records_below(blocks, d.index_root, h),
        ),
        sorted(d.records_below(blocks, d.index_root, h)),
    ensures
        ({
            let all = d.entries(blocks, None, EntrySel { bits: SEL_ALL })->Ok_0;
            &&& d.found(blocks, path) is Ok <==> lists(all, path)
            &&& answers(d.found(blocks, path), all, path)
        }),
{
    let all = d.records_below(blocks, d.index_root, h);
    lemma_search_below(d, blocks, d.index_root, h, 0, path);
    if let Ok(record) = d.found(blocks, path) {
        let i = choose|i: int| 0 <= i < all.len() && all[i] == record;
        assert(same_path(all[i].path, path));
    }
}

/// An index block is not taken for a leaf.
proof fn lemma_signatures_differ(block: Seq<u8>)
    ensures
        has_signature(block, 0, SIG_PMGI@) ==> !has_signature(block, 0, SIG_PMGL@),
{
    assert(SIG_PMGI@[3] != SIG_PMGL@[3]);
}

} // verus!
