//! Directory entries, and the selectors that filter them.

use vstd::prelude::*;

use crate::format::{EntryRecord, PmglEntry};
use crate::paths::{
    category_of, classify_category, classify_kind, kind_of, EntryCategory, EntryKind,
};

verus! {

/// Paths starting with `/` but not `/#` or `/$`.
pub const SEL_NORMAL: u8 = 0x01;

/// Paths starting with `/#` or `/$`.
pub const SEL_SPECIAL: u8 = 0x02;

/// Paths not starting with `/` (internal metadata).
pub const SEL_META: u8 = 0x04;

/// Non-directory entries (path does not end with `/`).
pub const SEL_FILES: u8 = 0x08;

/// Directory entries (path ends with `/`).
pub const SEL_DIRS: u8 = 0x10;

/// All entries.
pub const SEL_ALL: u8 = 0x1F;

/// Filter flags for CHM entry enumeration.
///
/// A selector must name both a category (normal, special, meta) and a kind (files,
/// dirs) for an entry to match, so normal and files together yield ordinary files while
/// normal alone yields nothing.
#[derive(Debug, Clone, Copy, PartialEq, Eq, Structural)]
pub struct EntrySel {
    pub bits: u8,
}

impl EntrySel {
    /// Paths starting with `/` but not `/#` or `/$`.
    pub fn normal() -> (r: EntrySel)
        ensures
            r.bits == SEL_NORMAL,
    {
        EntrySel { bits: SEL_NORMAL }
    }

    /// Paths starting with `/#` or `/$`.
    pub fn special() -> (r: EntrySel)
        ensures
            r.bits == SEL_SPECIAL,
    {
        EntrySel { bits: SEL_SPECIAL }
    }

    /// Paths not starting with `/` (internal metadata).
    pub fn meta() -> (r: EntrySel)
        ensures
            r.bits == SEL_META,
    {
        EntrySel { bits: SEL_META }
    }

    /// Non-directory entries (path does not end with `/`).
    pub fn files() -> (r: EntrySel)
        ensures
            r.bits == SEL_FILES,
    {
        EntrySel { bits: SEL_FILES }
    }

    /// Directory entries (path ends with `/`).
    pub fn dirs() -> (r: EntrySel)
        ensures
            r.bits == SEL_DIRS,
    {
        EntrySel { bits: SEL_DIRS }
    }

    /// All entries.
    pub fn all() -> (r: EntrySel)
        ensures
            r.bits == SEL_ALL,
    {
        EntrySel { bits: SEL_ALL }
    }

    /// Every flag of `other` is set.
    pub open spec fn holds(self, other: EntrySel) -> bool {
        self.bits & other.bits == other.bits
    }

    /// The flags of either selector.
    pub open spec fn joined(self, other: EntrySel) -> EntrySel {
        EntrySel { bits: self.bits | other.bits }
    }

    /// Whether every flag of `other` is set.
    pub fn contains(&self, other: EntrySel) -> (r: bool)
        ensures
            r == self.holds(other),
    {
        self.bits & other.bits == other.bits
    }

    /// The flags of either selector.
    pub fn union(self, other: EntrySel) -> (r: EntrySel)
        ensures
            r == self.joined(other),
    {
        EntrySel { bits: self.bits | other.bits }
    }
}

impl std::ops::BitOr for EntrySel {
    type Output = EntrySel;

    fn bitor(self, other: EntrySel) -> (r: EntrySel) {
        EntrySel { bits: self.bits | other.bits }
    }
}

impl vstd::std_specs::ops::BitOrSpecImpl for EntrySel {
    open spec fn obeys_bitor_spec() -> bool {
        true
    }

    open spec fn bitor_req(self, other: EntrySel) -> bool {
        true
    }

    open spec fn bitor_spec(self, other: EntrySel) -> EntrySel {
        self.joined(other)
    }
}

/// The flag that names a kind of entry.
pub open spec fn kind_flag(kind: EntryKind) -> u8 {
    match kind {
        EntryKind::File => SEL_FILES,
        EntryKind::Dir => SEL_DIRS,
    }
}

/// The flag that names a category of entry.
pub open spec fn category_flag(category: EntryCategory) -> u8 {
    match category {
        EntryCategory::Normal => SEL_NORMAL,
        EntryCategory::Special => SEL_SPECIAL,
        EntryCategory::Meta => SEL_META,
    }
}

/// A selector selects a path if it names both the path's category and its kind.
pub open spec fn selects(sel: EntrySel, path: Seq<char>) -> bool {
    &&& sel.bits & kind_flag(kind_of(path)) != 0
    &&& sel.bits & category_flag(category_of(path)) != 0
}

/// A single entry in a CHM archive's directory.
#[derive(Debug, Clone, PartialEq, Eq)]
pub struct Entry {
    /// The entry's path within the archive, as stored in the directory.
    pub path: String,
    /// The entry's uncompressed length in bytes.
    pub length: u64,
    pub start: u64,
    pub space: u8,
    /// Whether this entry is a file or a directory.
    pub kind: EntryKind,
    /// Which part of the namespace this entry belongs to.
    pub category: EntryCategory,
}

impl View for Entry {
    type V = EntryRecord;

    open spec fn view(&self) -> EntryRecord {
        EntryRecord {
            path: self.path@,
            space: self.space,
            start: self.start,
            length: self.length,
        }
    }
}

impl Entry {
    /// The entry is classified as its path calls for.
    pub open spec fn wf(&self) -> bool {
        &&& self.kind == kind_of(self.path@)
        &&& self.category == category_of(self.path@)
    }

    pub fn from_pmgl(e: PmglEntry) -> (r: Self)
        ensures
            r@ == e@,
            r.wf(),
    {
        let kind = classify_kind(e.path.as_str());
        let category = classify_category(e.path.as_str());
        Entry { path: e.path, length: e.length, start: e.start, space: e.space, kind, category }
    }

    /// Whether this entry is a directory.
    #[must_use]
    pub fn is_dir(&self) -> (r: bool)
        ensures
            r == (self.kind == EntryKind::Dir),
            self.wf() ==> r == (self.path@.len() > 0 && self.path@.last() == '/'),
    {
        matches!(self.kind, EntryKind::Dir)
    }

    /// Whether this entry is a regular file.
    #[must_use]
    pub fn is_file(&self) -> (r: bool)
        ensures
            r == (self.kind == EntryKind::File),
            self.wf() ==> r == !(self.path@.len() > 0 && self.path@.last() == '/'),
    {
        matches!(self.kind, EntryKind::File)
    }

    /// Whether this entry is stored compressed inside the `MSCompressed` section.
    #[must_use]
    pub fn is_compressed(&self) -> (r: bool)
        ensures
            r == (self.space != 0),
    {
        self.space != 0
    }

    /// The selector bits this entry matches.
    pub fn sel_bits(&self) -> (r: EntrySel)
        ensures
            r.bits == kind_flag(self.kind) | category_flag(self.category),
            self.wf() ==> forall|sel: EntrySel| #[trigger] sel.holds(r) == selects(sel, self.path@),
    {
        let kind_bit: EntrySel = match self.kind {
            EntryKind::File => EntrySel::files(),
            EntryKind::Dir => EntrySel::dirs(),
        };
        let cat_bit: EntrySel = match self.category {
            EntryCategory::Normal => EntrySel::normal(),
            EntryCategory::Special => EntrySel::special(),
            EntryCategory::Meta => EntrySel::meta(),
        };
        proof {
            assert forall|sel: EntrySel| #[trigger]
                sel.holds(kind_bit.joined(cat_bit)) == (sel.bits & kind_bit.bits != 0 && sel.bits
                    & cat_bit.bits != 0) by {
                lemma_holds_both(sel.bits, kind_bit.bits, cat_bit.bits);
            }
        }
        kind_bit.union(cat_bit)
    }
}

/// A selector holds two flags together exactly if it holds each of them.
proof fn lemma_holds_both(s: u8, k: u8, c: u8)
    by (bit_vector)
    requires
        k == 0x08 || k == 0x10,
        c == 0x01 || c == 0x02 || c == 0x04,
    ensures
        (s & (k | c) == (k | c)) <==> (s & k != 0 && s & c != 0),
{
}

} // verus!
