//! The CHM directory: a B-tree of PMGI index blocks over a linked list of PMGL leaf blocks,
//! each holding length-prefixed entries sorted by path.
//!
//! The blocks themselves are fetched by the caller: [`Directory::block_offset`] says where
//! one lies, and the step functions take its bytes and say what comes next.

use std::cmp::Ordering;

use vstd::prelude::*;
use vstd::utf8::encode_utf8;

use crate::entry::{selects, Entry, EntrySel};
use crate::error::{outcome, ChmError, Fault, Result};
use crate::format::{
    bytes_between, has_signature, lemma_pmgi_entry_moves_on, lemma_pmgl_entry_moves_on, parse_pmgi,
    parse_pmgi_entry, parse_pmgl, parse_pmgl_entry, pmgi_entry, pmgi_header, pmgl_entry,
    pmgl_header, signed_with, EntryRecord, ItspHeader, PMGI_HEADER_LEN, PMGL_HEADER_LEN, SIG_PMGI,
    SIG_PMGL,
};
use crate::paths::{
    classify_kind, cmp_ignore_ascii_case, eq_ignore_ascii_case, fold, folded, folds_to_prefix,
    kind_of, lemma_empty_path, lemma_not_before_itself, lemma_not_both, same_path, sorts_before,
    EntryKind,
};

verus! {

/// Deepest PMGI index chain that will be followed before declaring the tree malformed.
///
/// Real directories are two or three levels deep; the limit only exists so a block that
/// points back at itself cannot spin forever.
pub const MAX_INDEX_DEPTH: u32 = 64;

/// How much lies between `pos` and `end`.
pub open spec fn left(pos: int, end: int) -> int {
    if pos < end {
        end - pos
    } else {
        0
    }
}

/// The entries of a leaf block in order, up to the first that cannot be read.
pub struct Listing {
    pub records: Seq<EntryRecord>,
    pub fault: Option<Fault>,
}

/// The entries stored in `pos..end` of a leaf block.
pub open spec fn listing(buf: Seq<u8>, pos: int, end: int) -> Listing
    decreases left(pos, end),
    when 0 <= pos
{
    if pos >= end {
        Listing { records: Seq::empty(), fault: None }
    } else {
        match pmgl_entry(buf, pos) {
            Err(e) => Listing { records: Seq::empty(), fault: Some(e) },
            Ok((record, next)) => {
                proof {
                    lemma_pmgl_entry_moves_on(buf, pos);
                }
                let rest = listing(buf, next, end);
                Listing { records: seq![record] + rest.records, fault: rest.fault }
            },
        }
    }
}

/// The first of `records` that has the path `target`.
pub open spec fn first_match(records: Seq<EntryRecord>, target: Seq<char>) -> Option<EntryRecord>
    decreases records.len(),
{
    if records.len() == 0 {
        None
    } else if same_path(records[0].path, target) {
        Some(records[0])
    } else {
        first_match(records.drop_first(), target)
    }
}

/// The entry with the path `target` in a list, where one that cannot be read hides those
/// behind it.
pub open spec fn found_in(list: Listing, target: Seq<char>) -> core::result::Result<
    Option<EntryRecord>,
    Fault,
> {
    match (first_match(list.records, target), list.fault) {
        (Some(record), _) => Ok(Some(record)),
        (None, Some(e)) => Err(e),
        (None, None) => Ok(None),
    }
}

/// The keys of an index block in order, each with the block it leads to, up to the first
/// that cannot be read.
pub struct Index {
    pub keys: Seq<(Seq<char>, i32)>,
    pub fault: Option<Fault>,
}

/// The keys stored in `pos..end` of an index block.
pub open spec fn index(buf: Seq<u8>, pos: int, end: int) -> Index
    decreases left(pos, end),
    when 0 <= pos
{
    if pos >= end {
        Index { keys: Seq::empty(), fault: None }
    } else {
        match pmgi_entry(buf, pos) {
            Err(e) => Index { keys: Seq::empty(), fault: Some(e) },
            Ok((key, child, next)) => {
                proof {
                    lemma_pmgi_entry_moves_on(buf, pos);
                }
                let rest = index(buf, next, end);
                Index { keys: seq![(key, child)] + rest.keys, fault: rest.fault }
            },
        }
    }
}

/// The block that an index sends `target` to: that of the last key before the first one
/// past the target, or `before` if there is none.
pub open spec fn sent_to(
    keys: Seq<(Seq<char>, i32)>,
    fault: Option<Fault>,
    target: Seq<char>,
    before: i32,
) -> core::result::Result<i32, Fault>
    decreases keys.len(),
{
    if keys.len() == 0 {
        match fault {
            Some(e) => Err(e),
            None => Ok(before),
        }
    } else if sorts_before(folded(target), folded(keys[0].0)) {
        Ok(before)
    } else {
        sent_to(keys.drop_first(), fault, target, keys[0].1)
    }
}

/// What a step of a search leads to.
pub enum Found {
    /// The entry searched for.
    Entry(EntryRecord),
    /// The block that an index block leads down to.
    Below(i32),
    /// The leaf block behind one that does not hold the entry.
    Behind(i32),
}

/// The prefix that an enumeration goes by: directory paths are stored with a trailing
/// slash, so `/a` and `/a/` select the same subtree.
pub open spec fn prefix_bytes(prefix: Seq<char>) -> Seq<u8> {
    if prefix.len() == 0 || kind_of(prefix) == EntryKind::Dir {
        encode_utf8(prefix)
    } else {
        encode_utf8(prefix).push(0x2f)
    }
}

/// An enumeration yields the entry.
pub open spec fn wanted(prefix: Option<Seq<u8>>, sel: EntrySel, record: EntryRecord) -> bool {
    &&& prefix matches Some(p) ==> fold(p).is_prefix_of(folded(record.path))
    &&& selects(sel, record.path)
}

/// Those of `records` that an enumeration yields, in order.
pub open spec fn chosen(
    records: Seq<EntryRecord>,
    prefix: Option<Seq<u8>>,
    sel: EntrySel,
) -> Seq<EntryRecord>
    decreases records.len(),
{
    if records.len() == 0 {
        Seq::empty()
    } else if wanted(prefix, sel, records[0]) {
        seq![records[0]] + chosen(records.drop_first(), prefix, sel)
    } else {
        chosen(records.drop_first(), prefix, sel)
    }
}

/// A search under way: the block it stands at, and how far that is below the root. Without an
/// index the first leaf block is the root, and those chained behind it are on its level.
#[derive(Debug, Clone, Copy)]
pub struct Search {
    pub block: i32,
    pub depth: u32,
}

/// What a step of a search comes to.
#[derive(Debug)]
pub enum Lookup {
    /// The search has ended at this entry.
    Done(Entry),
    /// The search goes on from here.
    Next(Search),
}

/// What some entries say.
pub open spec fn records_of(entries: Seq<Entry>) -> Seq<EntryRecord> {
    Seq::new(entries.len(), |i: int| entries[i]@)
}

/// Every entry is classified as its path calls for.
pub open spec fn classified(entries: Seq<Entry>) -> bool {
    forall|i: int| 0 <= i < entries.len() ==> (#[trigger] entries[i]).wf()
}

/// An enumeration under way: the leaf block it stands at, what it goes by, and the entries
/// collected so far.
#[derive(Debug)]
pub struct Walk {
    pub block: i32,
    pub prefix: Option<Vec<u8>>,
    pub sel: EntrySel,
    pub entries: Vec<Entry>,
}

impl Walk {
    /// Every entry collected is classified as its path calls for.
    pub open spec fn wf(&self) -> bool {
        classified(self.entries@)
    }

    /// What the entries collected say.
    pub open spec fn records(&self) -> Seq<EntryRecord> {
        records_of(self.entries@)
    }

    /// The prefix that the enumeration goes by.
    pub open spec fn prefix_view(&self) -> Option<Seq<u8>> {
        match self.prefix {
            Some(p) => Some(p@),
            None => None,
        }
    }
}

/// The directory of an archive.
#[derive(Debug)]
pub struct Directory {
    /// Byte offset of the first PMGL block (after ITSP header).
    pub dir_offset: u64,
    pub block_len: usize,
    pub index_root: i32,
    pub index_head: i32,
}

impl Directory {
    /// The directory that an ITSP header at `dir_offset` describes.
    pub open spec fn described(dir_offset: u64, itsp: ItspHeader) -> Directory {
        Directory {
            dir_offset: (dir_offset + itsp.header_len) as u64,
            block_len: itsp.block_len as usize,
            index_root: if itsp.index_root < 0 {
                itsp.index_head
            } else {
                itsp.index_root
            },
            index_head: itsp.index_head,
        }
    }

    /// Where block `idx` lies in the file.
    pub open spec fn offset_of(&self, idx: i32) -> core::result::Result<u64, Fault> {
        if idx < 0 {
            Err(Fault::BadPmgl)
        } else if self.dir_offset + idx * self.block_len > u64::MAX {
            Err(Fault::Overflow)
        } else {
            Ok((self.dir_offset + idx * self.block_len) as u64)
        }
    }

    /// The entries of a leaf block, or what is wrong with its header.
    pub open spec fn leaf(&self, buf: Seq<u8>) -> core::result::Result<Listing, Fault> {
        match pmgl_header(buf) {
            Err(e) => Err(e),
            Ok(h) => if h.free_space > self.block_len {
                Err(Fault::BadPmgl)
            } else {
                Ok(listing(buf, PMGL_HEADER_LEN as int, self.block_len - h.free_space))
            },
        }
    }

    /// The entry that a leaf block holds under the path `target`.
    pub open spec fn scanned(&self, buf: Seq<u8>, target: Seq<char>) -> core::result::Result<
        Option<EntryRecord>,
        Fault,
    > {
        match self.leaf(buf) {
            Err(e) => Err(e),
            Ok(list) => found_in(list, target),
        }
    }

    /// The block that an index block sends `target` to, or -1 if none.
    pub open spec fn descended(&self, buf: Seq<u8>, target: Seq<char>) -> core::result::Result<
        i32,
        Fault,
    > {
        match pmgi_header(buf) {
            Err(e) => Err(e),
            Ok(h) => if h.free_space > self.block_len {
                Err(Fault::BadPmgi)
            } else {
                let i = index(buf, PMGI_HEADER_LEN as int, self.block_len - h.free_space);
                sent_to(i.keys, i.fault, target, -1i32)
            },
        }
    }

    /// A search stands behind the first leaf block of a directory without an index.
    pub open spec fn in_chain(&self, cur: i32, depth: int) -> bool {
        depth == 0 && cur != self.index_root
    }

    /// Where a search for `target` goes on behind the leaf block `cur`, which does not hold it.
    /// As for an enumeration, the chain of leaf blocks has to advance.
    pub open spec fn behind(
        &self,
        cur: i32,
        buf: Seq<u8>,
        target: Seq<char>,
    ) -> core::result::Result<Found, Fault> {
        let next = pmgl_header(buf)->Ok_0.block_next;
        if next < 0 {
            Err(Fault::NotFound(target))
        } else if next <= cur {
            Err(Fault::BadPmgl)
        } else {
            Ok(Found::Behind(next))
        }
    }

    /// What the block `cur`, `depth` levels below the root, says of the path `target`. A leaf
    /// block that an index leads to is the only one that can hold the path; where the root is
    /// a leaf block itself, those chained behind it can hold it too.
    pub open spec fn looked_up(
        &self,
        cur: i32,
        depth: int,
        buf: Seq<u8>,
        target: Seq<char>,
    ) -> core::result::Result<Found, Fault> {
        if self.in_chain(cur, depth) || has_signature(buf, 0, SIG_PMGL@) {
            match self.scanned(buf, target) {
                Err(e) => Err(e),
                Ok(Some(record)) => Ok(Found::Entry(record)),
                Ok(None) => if depth == 0 {
                    self.behind(cur, buf, target)
                } else {
                    Err(Fault::NotFound(target))
                },
            }
        } else if !has_signature(buf, 0, SIG_PMGI@) {
            Err(Fault::BadPmgl)
        } else {
            match self.descended(buf, target) {
                Err(e) => Err(e),
                Ok(child) => if child < 0 {
                    Err(Fault::NotFound(target))
                } else {
                    Ok(Found::Below(child))
                },
            }
        }
    }

    /// What the leaf block `cur` adds to an enumeration, and the block that follows it.
    /// Leaf blocks are chained in file order; requiring the chain to advance keeps a corrupt
    /// link from looping forever.
    pub open spec fn listed(
        &self,
        cur: i32,
        buf: Seq<u8>,
        prefix: Option<Seq<u8>>,
        sel: EntrySel,
    ) -> core::result::Result<(Seq<EntryRecord>, i32), Fault> {
        match self.leaf(buf) {
            Err(e) => Err(e),
            Ok(Listing { records, fault: Some(e) }) => Err(e),
            Ok(Listing { records, fault: None }) => {
                let next = pmgl_header(buf)->Ok_0.block_next;
                if 0 <= next <= cur {
                    Err(Fault::BadPmgl)
                } else {
                    Ok((chosen(records, prefix, sel), next))
                }
            },
        }
    }

    pub fn new(dir_offset: u64, itsp: &ItspHeader) -> (r: Self)
        requires
            dir_offset + itsp.header_len <= u64::MAX,
        ensures
            r.dir_offset == dir_offset + itsp.header_len,
            r.block_len == itsp.block_len,
            r.index_root == if itsp.index_root < 0 {
                itsp.index_head
            } else {
                itsp.index_root
            },
            r.index_head == itsp.index_head,
            r == Directory::described(dir_offset, *itsp),
    {
        Directory {
            dir_offset: dir_offset + itsp.header_len as u64,
            block_len: itsp.block_len as usize,
            // If index_root == -1 there are no PMGI blocks; use index_head as root.
            index_root: if itsp.index_root < 0 {
                itsp.index_head
            } else {
                itsp.index_root
            },
            index_head: itsp.index_head,
        }
    }

    /// Where block `idx` lies in the file.
    pub fn block_offset(&self, idx: i32) -> (r: Result<u64>)
        ensures
            outcome(r) == self.offset_of(idx),
    {
        if idx < 0 {
            return Err(ChmError::BadPmgl);
        }
        let skipped: u64 = match (idx as u64).checked_mul(self.block_len as u64) {
            Some(v) => v,
            None => {
                return Err(ChmError::Overflow);
            },
        };
        match self.dir_offset.checked_add(skipped) {
            Some(v) => Ok(v),
            None => Err(ChmError::Overflow),
        }
    }

    /// The end of the used region of a block, given the free space its header reports.
    fn used_end(&self, free_space: u32, malformed: ChmError) -> (r: Result<usize>)
        ensures
            match r {
                Ok(end) => free_space <= self.block_len && end == self.block_len - free_space,
                Err(e) => free_space > self.block_len && e == malformed,
            },
    {
        match self.block_len.checked_sub(free_space as usize) {
            Some(end) => Ok(end),
            None => Err(malformed),
        }
    }

    /// Scans a PMGL leaf block for `target`. Returns `Ok(None)` if not found.
    pub fn scan_pmgl(&self, buf: &[u8], target: &str) -> (r: Result<Option<Entry>>)
        ensures
            match r {
                Ok(Some(entry)) => entry.wf() && self.scanned(buf@, target@) == Ok::<_, Fault>(
                    Some(entry@),
                ),
                Ok(None) => self.scanned(buf@, target@) == Ok::<Option<EntryRecord>, Fault>(None),
                Err(e) => self.scanned(buf@, target@) == Err::<Option<EntryRecord>, _>(e@),
            },
    {
        let header = match parse_pmgl(buf) {
            Ok(h) => h,
            Err(e) => {
                return Err(e);
            },
        };
        let end: usize = match self.used_end(header.free_space, ChmError::BadPmgl) {
            Ok(end) => end,
            Err(e) => {
                return Err(e);
            },
        };
        let mut pos: usize = PMGL_HEADER_LEN;
        while pos < end
            invariant
                self.scanned(buf@, target@) == found_in(
                    listing(buf@, pos as int, end as int),
                    target@,
                ),
            decreases left(pos as int, end as int),
        {
            let ghost list = listing(buf@, pos as int, end as int);
            let (entry, next_pos) = match parse_pmgl_entry(buf, pos) {
                Ok(v) => v,
                Err(e) => {
                    return Err(e);
                },
            };
            let ghost rest = listing(buf@, next_pos as int, end as int);
            assert(list.records.drop_first() =~= rest.records);
            if eq_ignore_ascii_case(entry.path.as_str(), target) {
                return Ok(Some(Entry::from_pmgl(entry)));
            }
            pos = next_pos;
        }
        Ok(None)
    }

    /// Walks a PMGI index block to find which child block to descend into. Returns the child
    /// block index, or -1 if none.
    pub fn descend_pmgi(&self, buf: &[u8], target: &str) -> (r: Result<i32>)
        ensures
            outcome(r) == self.descended(buf@, target@),
    {
        let header = match parse_pmgi(buf) {
            Ok(h) => h,
            Err(e) => {
                return Err(e);
            },
        };
        let end: usize = match self.used_end(header.free_space, ChmError::BadPmgi) {
            Ok(end) => end,
            Err(e) => {
                return Err(e);
            },
        };
        let mut pos: usize = PMGI_HEADER_LEN;
        let mut last_child: i32 = -1;
        while pos < end
            invariant
                self.descended(buf@, target@) == ({
                    let i = index(buf@, pos as int, end as int);
                    sent_to(i.keys, i.fault, target@, last_child)
                }),
            decreases left(pos as int, end as int),
        {
            let ghost list = index(buf@, pos as int, end as int);
            let (key, child, next_pos) = match parse_pmgi_entry(buf, pos) {
                Ok(v) => v,
                Err(e) => {
                    return Err(e);
                },
            };
            let ghost rest = index(buf@, next_pos as int, end as int);
            assert(list.keys.drop_first() =~= rest.keys);
            // Keys are sorted, so the last key not past the target owns the subtree.
            if is_past(key.as_str(), target) {
                return Ok(last_child);
            }
            last_child = child;
            pos = next_pos;
        }
        Ok(last_child)
    }

    /// Starts a search at the root of the index.
    pub fn begin_find(&self) -> (r: Search)
        ensures
            r.block == self.index_root,
            r.depth == 0,
    {
        Search { block: self.index_root, depth: 0 }
    }

    /// Goes on with a search for `path`, given the bytes of the block that it stands at.
    pub fn find_step(&self, search: Search, buf: &[u8], path: &str) -> (r: Result<Lookup>)
        requires
            search.depth < MAX_INDEX_DEPTH,
        ensures
            match (self.looked_up(search.block, search.depth as int, buf@, path@), r) {
                (Ok(Found::Entry(record)), Ok(Lookup::Done(entry))) => entry.wf() && entry@
                    == record,
                (Ok(Found::Behind(leaf)), Ok(Lookup::Next(next))) => next.block == leaf
                    && next.depth == search.depth,
                (Ok(Found::Below(child)), Ok(Lookup::Next(next))) => next.block == child
                    && next.depth == search.depth + 1 && next.depth < MAX_INDEX_DEPTH,
                (Ok(Found::Below(_)), Err(e)) => search.depth + 1 >= MAX_INDEX_DEPTH && e@
                    == Fault::BadPmgi,
                (Err(fault), Err(e)) => e@ == fault,
                _ => false,
            },
    {
        let chained: bool = search.depth == 0 && search.block != self.index_root;
        if chained || signed_with(buf, 0, SIG_PMGL) {
            return match self.scan_pmgl(buf, path) {
                Ok(Some(entry)) => Ok(Lookup::Done(entry)),
                Ok(None) => if search.depth == 0 {
                    self.find_behind(search, buf, path)
                } else {
                    Err(ChmError::NotFound(path.to_owned()))
                },
                Err(e) => Err(e),
            };
        }
        if !signed_with(buf, 0, SIG_PMGI) {
            return Err(ChmError::BadPmgl);
        }
        let child: i32 = match self.descend_pmgi(buf, path) {
            Ok(child) => child,
            Err(e) => {
                return Err(e);
            },
        };
        if child < 0 {
            return Err(ChmError::NotFound(path.to_owned()));
        }
        if search.depth + 1 >= MAX_INDEX_DEPTH {
            // Deeper than any real directory, so the index blocks must reference each other.
            return Err(ChmError::BadPmgi);
        }
        Ok(Lookup::Next(Search { block: child, depth: search.depth + 1 }))
    }

    /// Goes on with a search for `path` behind a leaf block that does not hold it.
    fn find_behind(&self, search: Search, buf: &[u8], path: &str) -> (r: Result<Lookup>)
        requires
            pmgl_header(buf@) is Ok,
        ensures
            match (self.behind(search.block, buf@, path@), r) {
                (Ok(Found::Behind(leaf)), Ok(Lookup::Next(next))) => next.block == leaf
                    && next.depth == search.depth,
                (Err(fault), Err(e)) => e@ == fault,
                _ => false,
            },
    {
        let next: i32 = match parse_pmgl(buf) {
            Ok(header) => header.block_next,
            Err(e) => {
                return Err(e);
            },
        };
        if next < 0 {
            return Err(ChmError::NotFound(path.to_owned()));
        }
        // Leaf blocks are chained in file order.
        if next <= search.block {
            return Err(ChmError::BadPmgl);
        }
        Ok(Lookup::Next(Search { block: next, depth: search.depth }))
    }

    /// Starts an enumeration of the entries that match `sel`, of those under `prefix` if one
    /// is given.
    pub fn begin_enumerate(&self, prefix: Option<&str>, sel: EntrySel) -> (r: Walk)
        ensures
            r.block == self.index_head,
            r.entries@.len() == 0,
            r.sel == sel,
            match (prefix, r.prefix) {
                (Some(p), Some(bytes)) => bytes@ == prefix_bytes(p@),
                (None, None) => true,
                _ => false,
            },
    {
        let under: Option<Vec<u8>> = match prefix {
            Some(p) => Some(with_slash(p)),
            None => None,
        };
        Walk { block: self.index_head, prefix: under, sel, entries: Vec::new() }
    }

    /// Goes on with an enumeration, given the bytes of the leaf block that it stands at. The
    /// entries are all collected once the block it stands at is negative.
    pub fn enumerate_step(&self, walk: Walk, buf: &[u8]) -> (r: Result<Walk>)
        ensures
            match (self.listed(walk.block, buf@, walk.prefix_view(), walk.sel), r) {
                (Ok((records, next)), Ok(w)) => {
                    &&& w.block == next
                    &&& w.prefix == walk.prefix
                    &&& w.sel == walk.sel
                    &&& w.records() == walk.records() + records
                    &&& walk.wf() ==> w.wf()
                },
                (Err(fault), Err(e)) => e@ == fault,
                _ => false,
            },
            r matches Ok(w) ==> w.block < 0 || w.block > walk.block,
    {
        let mut entries: Vec<Entry> = walk.entries;
        let header = match parse_pmgl(buf) {
            Ok(h) => h,
            Err(e) => {
                return Err(e);
            },
        };
        let end: usize = match self.used_end(header.free_space, ChmError::BadPmgl) {
            Ok(end) => end,
            Err(e) => {
                return Err(e);
            },
        };
        let ghost start = records_of(entries@);
        let ghost prefix = walk.prefix_view();
        let ghost all = listing(buf@, PMGL_HEADER_LEN as int, end as int);
        let mut pos: usize = PMGL_HEADER_LEN;
        while pos < end
            invariant
                self.leaf(buf@) == Ok::<_, Fault>(all),
                prefix == walk.prefix_view(),
                all.fault == listing(buf@, pos as int, end as int).fault,
                start + chosen(all.records, prefix, walk.sel) == records_of(entries@) + chosen(
                    listing(buf@, pos as int, end as int).records,
                    prefix,
                    walk.sel,
                ),
                walk.wf() ==> classified(entries@),
            decreases left(pos as int, end as int),
        {
            let ghost list = listing(buf@, pos as int, end as int);
            let ghost before = entries@;
            let (pmgl_entry, next_pos) = match parse_pmgl_entry(buf, pos) {
                Ok(v) => v,
                Err(e) => {
                    return Err(e);
                },
            };
            let ghost record = pmgl_entry@;
            let ghost rest = listing(buf@, next_pos as int, end as int);
            assert(list.records.drop_first() =~= rest.records);
            pos = next_pos;
            let under: bool = match &walk.prefix {
                Some(p) => folds_to_prefix(pmgl_entry.path.as_str().as_bytes(), p.as_slice()),
                None => true,
            };
            if under {
                let entry = Entry::from_pmgl(pmgl_entry);
                if walk.sel.contains(entry.sel_bits()) {
                    entries.push(entry);
                    assert(records_of(entries@) =~= records_of(before).push(record));
                    assert(records_of(entries@) + chosen(rest.records, prefix, walk.sel)
                        =~= records_of(before) + (seq![record] + chosen(
                        rest.records,
                        prefix,
                        walk.sel,
                    )));
                }
            }
        }
        assert(records_of(entries@) + Seq::<EntryRecord>::empty() =~= records_of(entries@));
        if header.block_next >= 0 && header.block_next <= walk.block {
            return Err(ChmError::BadPmgl);
        }
        Ok(Walk { block: header.block_next, prefix: walk.prefix, sel: walk.sel, entries })
    }
}

/// The bytes of a prefix, with a slash at the end.
fn with_slash(prefix: &str) -> (r: Vec<u8>)
    ensures
        r@ == prefix_bytes(prefix@),
{
    let bytes: &[u8] = prefix.as_bytes();
    let mut r: Vec<u8> = bytes_between(bytes, 0, bytes.len());
    assert(r@ =~= bytes@);
    proof {
        lemma_empty_path(prefix@);
    }
    if bytes.len() != 0 && classify_kind(prefix) != EntryKind::Dir {
        r.push(0x2f);
    }
    r
}

/// Whether `key` sorts after `target`.
fn is_past(key: &str, target: &str) -> (r: bool)
    ensures
        r == sorts_before(folded(target@), folded(key@)),
{
    match cmp_ignore_ascii_case(key, target) {
        Ordering::Greater => true,
        Ordering::Less => {
            proof {
                lemma_not_both(folded(key@), folded(target@));
            }
            false
        },
        Ordering::Equal => {
            proof {
                lemma_not_before_itself(folded(key@));
            }
            false
        },
    }
}

} // verus!
