use std::cmp::Ordering;

use libchm::directory::{Directory, Lookup, Search, Walk, MAX_INDEX_DEPTH};
use libchm::entry::{Entry, EntrySel};
use libchm::error::ChmError;
use libchm::format::{ItspHeader, PmglEntry, PMGI_HEADER_LEN, PMGL_HEADER_LEN};
use libchm::paths::{
    classify_category, classify_kind, cmp_ignore_ascii_case, eq_ignore_ascii_case,
    starts_with_ignore_ascii_case, EntryCategory, EntryKind,
};

#[test]
fn categories_follow_the_path_prefix() {
    assert_eq!(classify_category("/index.html"), EntryCategory::Normal);
    assert_eq!(classify_category("/"), EntryCategory::Normal);
    assert_eq!(classify_category("/#IDXHDR"), EntryCategory::Special);
    assert_eq!(classify_category("/$OBJINST"), EntryCategory::Special);
    assert_eq!(classify_category("::DataSpace/NameList"), EntryCategory::Meta);
    assert_eq!(classify_category(""), EntryCategory::Meta);
}

#[test]
fn kind_follows_the_trailing_slash() {
    assert_eq!(classify_kind("/a/b.html"), EntryKind::File);
    assert_eq!(classify_kind("/a/"), EntryKind::Dir);
    assert_eq!(classify_kind(""), EntryKind::File);
}

fn entry(path: &str) -> Entry {
    Entry::from_pmgl(PmglEntry { path: path.to_owned(), space: 0, start: 0, length: 0 })
}

#[test]
fn selector_requires_both_a_category_and_a_kind() {
    let file = entry("/index.html");
    assert!(EntrySel::all().contains(file.sel_bits()));
    assert!((EntrySel::normal() | EntrySel::files()).contains(file.sel_bits()));
    // A category with no kind (or vice versa) matches nothing.
    assert!(!EntrySel::normal().contains(file.sel_bits()));
    assert!(!EntrySel::files().contains(file.sel_bits()));
    // Wrong kind, right category.
    assert!(!(EntrySel::normal() | EntrySel::dirs()).contains(file.sel_bits()));
}

#[test]
fn selector_bits_cover_every_category_and_kind() {
    assert_eq!(entry("/a.html").sel_bits(), EntrySel::normal() | EntrySel::files());
    assert_eq!(entry("/a/").sel_bits(), EntrySel::normal() | EntrySel::dirs());
    assert_eq!(entry("/#SYSTEM").sel_bits(), EntrySel::special() | EntrySel::files());
    assert_eq!(entry("::DataSpace/NameList").sel_bits(), EntrySel::meta() | EntrySel::files());
    assert_eq!(entry("::DataSpace/").sel_bits(), EntrySel::meta() | EntrySel::dirs());
}

#[test]
fn selector_bits_have_their_values() {
    assert_eq!(EntrySel::normal().bits, 0x01);
    assert_eq!(EntrySel::special().bits, 0x02);
    assert_eq!(EntrySel::meta().bits, 0x04);
    assert_eq!(EntrySel::files().bits, 0x08);
    assert_eq!(EntrySel::dirs().bits, 0x10);
    assert_eq!(EntrySel::all().bits, 0x1F);
    assert_eq!(EntrySel::meta().union(EntrySel::dirs()).bits, 0x14);
}

#[test]
fn entry_predicates_match_kind_and_space() {
    let dir = entry("/a/");
    assert!(dir.is_dir() && !dir.is_file());
    let file = entry("/a.html");
    assert!(file.is_file() && !file.is_dir());
    assert!(!file.is_compressed());
    let compressed = Entry::from_pmgl(PmglEntry { path: "/a".into(), space: 1, start: 0, length: 0 });
    assert!(compressed.is_compressed());
}

#[test]
fn case_insensitive_ordering_matches_a_lowercased_comparison() {
    assert_eq!(cmp_ignore_ascii_case("ABC", "abc"), Ordering::Equal);
    assert_eq!(cmp_ignore_ascii_case("/Index.HTML", "/index.html"), Ordering::Equal);
    assert_eq!(cmp_ignore_ascii_case("/a", "/b"), Ordering::Less);
    assert_eq!(cmp_ignore_ascii_case("/B", "/a"), Ordering::Greater);
    // A prefix sorts before the longer string that extends it.
    assert_eq!(cmp_ignore_ascii_case("/a", "/ab"), Ordering::Less);
    // Lowercasing both sides moves the boundary: underscore (0x5F) sorts after a raw
    // uppercase 'A' (0x41) but before the lowercase 'a' (0x61) it is compared against.
    assert_eq!(cmp_ignore_ascii_case("_", "A"), Ordering::Less);
    assert_eq!(cmp_ignore_ascii_case("_", "a"), Ordering::Less);
}

#[test]
fn case_insensitive_prefix_matching() {
    assert!(starts_with_ignore_ascii_case("/Docs/a.html", "/docs/"));
    assert!(starts_with_ignore_ascii_case("/docs/", "/docs/"));
    assert!(starts_with_ignore_ascii_case("/anything", ""));
    assert!(!starts_with_ignore_ascii_case("/docs", "/docs/"));
    assert!(!starts_with_ignore_ascii_case("/other/a.html", "/docs/"));
}

#[test]
fn case_insensitive_equality_is_ascii_only() {
    assert!(eq_ignore_ascii_case("/Index.HTML", "/index.html"));
    assert!(!eq_ignore_ascii_case("/index.htm", "/index.html"));
    // Only ASCII letters fold.
    assert!(!eq_ignore_ascii_case("/\u{c9}", "/\u{e9}"));
    assert!(eq_ignore_ascii_case("/\u{e9}A", "/\u{e9}a"));
}

#[test]
fn ordering_is_antisymmetric_and_transitive_on_samples() {
    let paths = ["", "/", "/#a", "/A", "/a/b", "/Ab", "/b", "_", "\u{e9}"];
    for a in paths {
        for b in paths {
            assert_eq!(cmp_ignore_ascii_case(a, b), cmp_ignore_ascii_case(b, a).reverse());
            for c in paths {
                let less = Ordering::Less;
                if cmp_ignore_ascii_case(a, b) == less && cmp_ignore_ascii_case(b, c) == less {
                    assert_eq!(cmp_ignore_ascii_case(a, c), less);
                }
            }
        }
    }
}

const BLOCK: usize = 256;

fn cword(n: u32) -> Vec<u8> {
    let mut bytes = vec![(n & 0x7f) as u8];
    let mut rest = n >> 7;
    while rest > 0 {
        bytes.insert(0, 0x80 | (rest & 0x7f) as u8);
        rest >>= 7;
    }
    bytes
}

fn leaf(entries: &[(&str, u8, u32, u32)], next: i32) -> Vec<u8> {
    let mut block = vec![0u8; PMGL_HEADER_LEN];
    block[0..4].copy_from_slice(b"PMGL");
    block[0x10..0x14].copy_from_slice(&next.to_le_bytes());
    for (path, space, start, length) in entries {
        block.extend_from_slice(&cword(path.len() as u32));
        block.extend_from_slice(path.as_bytes());
        block.push(*space);
        block.extend_from_slice(&cword(*start));
        block.extend_from_slice(&cword(*length));
    }
    let free = (BLOCK - block.len()) as u32;
    block[4..8].copy_from_slice(&free.to_le_bytes());
    block.resize(BLOCK, 0);
    block
}

fn index(keys: &[(&str, u32)]) -> Vec<u8> {
    let mut block = vec![0u8; PMGI_HEADER_LEN];
    block[0..4].copy_from_slice(b"PMGI");
    for (path, child) in keys {
        block.extend_from_slice(&cword(path.len() as u32));
        block.extend_from_slice(path.as_bytes());
        block.extend_from_slice(&cword(*child));
    }
    let free = (BLOCK - block.len()) as u32;
    block[4..8].copy_from_slice(&free.to_le_bytes());
    block.resize(BLOCK, 0);
    block
}

fn directory(root: i32, head: i32) -> Directory {
    let itsp = ItspHeader { block_len: BLOCK as u32, index_root: root, index_head: head, header_len: 0x54 };
    Directory::new(0x60, &itsp)
}

fn blocks() -> Vec<Vec<u8>> {
    vec![
        leaf(&[("/", 0, 0, 0), ("/#SYSTEM", 0, 0, 40), ("/a/", 0, 0, 0), ("/a/One.html", 1, 0, 300)], 1),
        leaf(&[("/a/two.html", 1, 300, 20), ("/ab.html", 1, 320, 5), ("::DataSpace/NameList", 0, 40, 9)], -1),
        index(&[("/", 0), ("/a/two.html", 1)]),
    ]
}

fn find(dir: &Directory, blocks: &[Vec<u8>], path: &str) -> Result<Entry, ChmError> {
    let mut search = dir.begin_find();
    loop {
        dir.block_offset(search.block)?;
        match dir.find_step(search, &blocks[search.block as usize], path)? {
            Lookup::Done(entry) => return Ok(entry),
            Lookup::Next(next) => search = next,
        }
    }
}

fn enumerate(
    dir: &Directory,
    blocks: &[Vec<u8>],
    prefix: Option<&str>,
    sel: EntrySel,
) -> Result<Vec<String>, ChmError> {
    let mut walk: Walk = dir.begin_enumerate(prefix, sel);
    while walk.block >= 0 {
        dir.block_offset(walk.block)?;
        let at = walk.block as usize;
        walk = dir.enumerate_step(walk, &blocks[at])?;
    }
    Ok(walk.entries.into_iter().map(|e| e.path).collect())
}

#[test]
fn directory_starts_behind_the_header() {
    let dir = directory(2, 0);
    assert_eq!(dir.dir_offset, 0x60 + 0x54);
    assert_eq!(dir.block_offset(0).unwrap(), 0xb4);
    assert_eq!(dir.block_offset(3).unwrap(), 0xb4 + 3 * 256);
    assert!(matches!(dir.block_offset(-1), Err(ChmError::BadPmgl)));
    // Without an index the leaf chain is the root.
    assert_eq!(directory(-1, 4).index_root, 4);
    let far = Directory { dir_offset: u64::MAX - 10, block_len: BLOCK, index_root: 0, index_head: 0 };
    assert!(matches!(far.block_offset(1), Err(ChmError::Overflow)));
}

#[test]
fn search_descends_through_the_index() {
    let dir = directory(2, 0);
    let found = find(&dir, &blocks(), "/a/two.html").unwrap();
    assert_eq!((found.path.as_str(), found.space, found.start, found.length), ("/a/two.html", 1, 300, 20));
    assert_eq!(found.kind, EntryKind::File);
    assert_eq!(find(&dir, &blocks(), "/a/").unwrap().kind, EntryKind::Dir);
    assert_eq!(find(&dir, &blocks(), "/#SYSTEM").unwrap().category, EntryCategory::Special);
}

#[test]
fn search_ignores_case() {
    let dir = directory(2, 0);
    let a = find(&dir, &blocks(), "/A/ONE.HTML").unwrap();
    let b = find(&dir, &blocks(), "/a/one.html").unwrap();
    assert_eq!(a, b);
    assert_eq!(a.path, "/a/One.html");
}

#[test]
fn search_reports_what_is_missing() {
    let dir = directory(2, 0);
    assert!(matches!(find(&dir, &blocks(), "/nope"), Err(ChmError::NotFound(p)) if p == "/nope"));
    // Sorts before the first key of the index, so no child owns it.
    assert!(matches!(find(&dir, &blocks(), ""), Err(ChmError::NotFound(p)) if p.is_empty()));
    assert!(matches!(find(&directory(-1, -1), &blocks(), "/"), Err(ChmError::BadPmgl)));
}

#[test]
fn search_without_an_index_goes_through_every_leaf() {
    let dir = directory(-1, 0);
    let listed = enumerate(&dir, &blocks(), None, EntrySel::all()).unwrap();
    assert_eq!(listed.len(), 7);
    for path in &listed {
        assert_eq!(&find(&dir, &blocks(), path).unwrap().path, path);
        assert_eq!(&find(&dir, &blocks(), &path.to_uppercase()).unwrap().path, path);
    }
    let found = find(&dir, &blocks(), "/a/two.html").unwrap();
    assert_eq!((found.space, found.start, found.length), (1, 300, 20));
    assert!(matches!(find(&dir, &blocks(), "/Nope"), Err(ChmError::NotFound(p)) if p == "/Nope"));
}

#[test]
fn search_finds_what_is_listed_under_an_index() {
    let dir = directory(2, 0);
    for path in enumerate(&dir, &blocks(), None, EntrySel::all()).unwrap() {
        assert_eq!(find(&dir, &blocks(), &path).unwrap().path, path);
    }
    // A leaf that an index leads to is the only one looked into.
    let astray = vec![blocks()[0].clone(), blocks()[1].clone(), index(&[("/", 0)])];
    assert!(matches!(find(&dir, &astray, "/ab.html"), Err(ChmError::NotFound(p)) if p == "/ab.html"));
}

#[test]
fn search_without_an_index_needs_a_chain_of_leaves() {
    let dir = directory(-1, 0);
    // The chain does not advance.
    let looped = vec![leaf(&[("/", 0, 0, 0)], 0)];
    assert_eq!(find(&dir, &looped, "/").unwrap().path, "/");
    assert!(matches!(find(&dir, &looped, "/a"), Err(ChmError::BadPmgl)));
    let back = vec![leaf(&[("/", 0, 0, 0)], 1), leaf(&[("/a", 0, 0, 0)], 0)];
    assert_eq!(find(&dir, &back, "/a").unwrap().path, "/a");
    assert!(matches!(find(&dir, &back, "/b"), Err(ChmError::BadPmgl)));
    // It leads to a block that is no leaf.
    let mixed = vec![leaf(&[("/", 0, 0, 0)], 1), index(&[("/", 0)])];
    assert!(matches!(find(&dir, &mixed, "/a"), Err(ChmError::BadPmgl)));
}

#[test]
fn search_rejects_other_blocks() {
    let dir = directory(0, 0);
    let mut other = blocks();
    other[0][3] = b'X';
    assert!(matches!(find(&dir, &other, "/"), Err(ChmError::BadPmgl)));
    let mut full = blocks();
    full[0][4..8].copy_from_slice(&300u32.to_le_bytes());
    assert!(matches!(find(&dir, &full, "/"), Err(ChmError::BadPmgl)));
    let mut index_full = blocks();
    index_full[2][4..8].copy_from_slice(&300u32.to_le_bytes());
    assert!(matches!(find(&directory(2, 0), &index_full, "/"), Err(ChmError::BadPmgi)));
}

#[test]
fn search_gives_up_on_an_index_that_points_back_at_itself() {
    let dir = directory(0, 0);
    let looped = vec![index(&[("/", 0)])];
    assert!(matches!(find(&dir, &looped, "/a"), Err(ChmError::BadPmgi)));
    // The last block that is looked into is the one at the greatest depth allowed.
    let last = Search { block: 0, depth: MAX_INDEX_DEPTH - 1 };
    assert!(matches!(dir.find_step(last, &looped[0], "/a"), Err(ChmError::BadPmgi)));
    let before = Search { block: 0, depth: MAX_INDEX_DEPTH - 2 };
    assert!(matches!(
        dir.find_step(before, &looped[0], "/a"),
        Ok(Lookup::Next(s)) if s.depth == MAX_INDEX_DEPTH - 1
    ));
}

#[test]
fn enumeration_walks_every_leaf_in_order() {
    let dir = directory(2, 0);
    let all = enumerate(&dir, &blocks(), None, EntrySel::all()).unwrap();
    let expected = [
        "/", "/#SYSTEM", "/a/", "/a/One.html", "/a/two.html", "/ab.html", "::DataSpace/NameList",
    ];
    assert_eq!(all, expected);
}

#[test]
fn enumeration_filters_by_category_and_kind() {
    let dir = directory(2, 0);
    let pages = enumerate(&dir, &blocks(), None, EntrySel::normal() | EntrySel::files()).unwrap();
    assert_eq!(pages, ["/a/One.html", "/a/two.html", "/ab.html"]);
    assert!(enumerate(&dir, &blocks(), None, EntrySel::normal()).unwrap().is_empty());
    let dirs = enumerate(&dir, &blocks(), None, all_but_files()).unwrap();
    assert_eq!(dirs, ["/", "/a/"]);
}

fn all_but_files() -> EntrySel {
    EntrySel::normal() | EntrySel::special() | EntrySel::meta() | EntrySel::dirs()
}

#[test]
fn enumeration_under_a_prefix_takes_the_subtree() {
    let dir = directory(2, 0);
    let with = enumerate(&dir, &blocks(), Some("/A/"), EntrySel::all()).unwrap();
    assert_eq!(with, ["/a/", "/a/One.html", "/a/two.html"]);
    // With or without the slash, and never the sibling that only shares the letters.
    assert_eq!(enumerate(&dir, &blocks(), Some("/a"), EntrySel::all()).unwrap(), with);
    assert_eq!(enumerate(&dir, &blocks(), Some(""), EntrySel::all()).unwrap().len(), 7);
}

#[test]
fn enumeration_rejects_a_chain_that_does_not_advance() {
    let dir = directory(0, 0);
    let looped = vec![leaf(&[("/", 0, 0, 0)], 0)];
    assert!(matches!(enumerate(&dir, &looped, None, EntrySel::all()), Err(ChmError::BadPmgl)));
    let broken = vec![leaf(&[("/", 0, 0, 0), ("", 0, 0, 0)], -1)];
    assert_eq!(enumerate(&dir, &broken, None, EntrySel::all()).unwrap(), ["/", ""]);
}
