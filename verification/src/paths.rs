//! Entry paths: how they are classified and compared.
//!
//! Paths compare byte by byte in their UTF-8 form, ignoring ASCII case.

use std::cmp::Ordering;

use vstd::prelude::*;
use vstd::utf8::{char_u32_cast, encode_scalar, encode_utf8};

verus! {

/// Whether an entry is a file or a directory, based on whether its path ends with `/`.
#[derive(Debug, Clone, Copy, PartialEq, Eq, Structural)]
pub enum EntryKind {
    /// A regular file entry.
    File,
    /// A directory entry (its path ends with `/`).
    Dir,
}

/// Which part of the CHM namespace an entry belongs to, based on its path.
#[derive(Debug, Clone, Copy, PartialEq, Eq, Structural)]
pub enum EntryCategory {
    /// A user-visible entry: path starts with `/` but not `/#` or `/$`.
    Normal,
    /// A special entry: path starts with `/#` or `/$`.
    Special,
    /// An internal metadata entry: path does not start with `/`.
    Meta,
}

/// The kind of entry that a path names.
pub open spec fn kind_of(path: Seq<char>) -> EntryKind {
    if path.len() > 0 && path.last() == '/' {
        EntryKind::Dir
    } else {
        EntryKind::File
    }
}

/// The part of the namespace that a path lies in.
pub open spec fn category_of(path: Seq<char>) -> EntryCategory {
    if path.len() == 0 || path[0] != '/' {
        EntryCategory::Meta
    } else if path.len() >= 2 && (path[1] == '#' || path[1] == '$') {
        EntryCategory::Special
    } else {
        EntryCategory::Normal
    }
}

/// An ASCII character is encoded as itself, and no other character has an ASCII byte at
/// either end of its encoding.
proof fn lemma_encoded_ends(c: char, a: u8)
    requires
        a < 0x80,
    ensures
        encode_scalar(c as u32).len() >= 1,
        encode_scalar(c as u32)[0] == a <==> c as u32 == a,
        encode_scalar(c as u32).last() == a <==> c as u32 == a,
        c as u32 == a ==> encode_scalar(c as u32).len() == 1,
{
    let v = c as u32;
    assert(v <= 0x10ffff);
    assert((v <= 0x7f ==> (v & 0x7f) as u8 == v) && (0x80u8 | (v & 0x3f) as u8) >= 0x80 && (0xc0u8
        | ((v >> 6u32) & 0x1f) as u8) >= 0x80 && (0xe0u8 | ((v >> 12u32) & 0x0f) as u8) >= 0x80 && (
    0xf0u8 | ((v >> 18u32) & 0x7) as u8) >= 0x80) by (bit_vector);
}

/// A character is known by its number.
proof fn lemma_char_of(c: char, d: char, n: u32)
    requires
        d as u32 == n,
    ensures
        c as u32 == n <==> c == d,
{
    char_u32_cast(d, n);
    if c as u32 == n {
        char_u32_cast(c, n);
    }
}

/// An ASCII byte at either end of a path, or behind an ASCII character at its start, is a
/// character of the path.
proof fn lemma_path_ends(path: Seq<char>, a: u8)
    requires
        a < 0x80,
    ensures
        path.len() == 0 <==> encode_utf8(path).len() == 0,
        path.len() > 0 ==> (encode_utf8(path)[0] == a <==> path[0] as u32 == a) && (encode_utf8(
            path,
        ).last() == a <==> path.last() as u32 == a),
        path.len() > 0 && path[0] as u32 == a ==> encode_utf8(path).drop_first() == encode_utf8(
            path.drop_first(),
        ),
    decreases path.len(),
{
    if path.len() > 0 {
        lemma_encoded_ends(path[0], a);
        let rest = path.drop_first();
        lemma_path_ends(rest, a);
        if path[0] as u32 == a {
            assert(encode_utf8(path).drop_first() =~= encode_utf8(rest));
        }
        if rest.len() > 0 {
            assert(encode_utf8(path).last() == encode_utf8(rest).last());
        } else {
            assert(encode_utf8(path) =~= encode_scalar(path[0] as u32));
        }
    }
}

/// Only the empty path has no bytes.
pub proof fn lemma_empty_path(path: Seq<char>)
    ensures
        path.len() == 0 <==> encode_utf8(path).len() == 0,
{
    lemma_path_ends(path, 0);
}

pub fn classify_kind(path: &str) -> (kind: EntryKind)
    ensures
        kind == kind_of(path@),
{
    let bytes: &[u8] = path.as_bytes();
    proof {
        lemma_path_ends(path@, 0x2f);
        if path@.len() > 0 {
            lemma_char_of(path@.last(), '/', 0x2f);
        }
    }
    if bytes.len() > 0 && bytes[bytes.len() - 1] == 0x2f {
        EntryKind::Dir
    } else {
        EntryKind::File
    }
}

pub fn classify_category(path: &str) -> (category: EntryCategory)
    ensures
        category == category_of(path@),
{
    let bytes: &[u8] = path.as_bytes();
    proof {
        lemma_path_ends(path@, 0x2f);
        if path@.len() > 0 {
            lemma_char_of(path@[0], '/', 0x2f);
        }
        if path@.len() > 0 && path@[0] == '/' {
            let rest = path@.drop_first();
            lemma_path_ends(rest, 0x23);
            lemma_path_ends(rest, 0x24);
            if rest.len() > 0 {
                lemma_char_of(rest[0], '#', 0x23);
                lemma_char_of(rest[0], '$', 0x24);
            }
            assert(bytes@.len() > 1 ==> bytes@[1] == bytes@.drop_first()[0]);
        }
    }
    if bytes.len() == 0 || bytes[0] != 0x2f {
        return EntryCategory::Meta;
    }
    if bytes.len() > 1 && (bytes[1] == 0x23 || bytes[1] == 0x24) {
        EntryCategory::Special
    } else {
        EntryCategory::Normal
    }
}

/// An ASCII letter in lower case; any other byte as it is.
pub open spec fn lowered(b: u8) -> u8 {
    if 0x41 <= b <= 0x5a {
        (b + 0x20) as u8
    } else {
        b
    }
}

/// Bytes with every ASCII letter in lower case.
pub open spec fn fold(bytes: Seq<u8>) -> Seq<u8> {
    Seq::new(bytes.len(), |i: int| lowered(bytes[i]))
}

/// A path as it is compared: its UTF-8 bytes with ASCII letters in lower case.
pub open spec fn folded(path: Seq<char>) -> Seq<u8> {
    fold(encode_utf8(path))
}

/// Two paths name the same entry.
pub open spec fn same_path(a: Seq<char>, b: Seq<char>) -> bool {
    folded(a) == folded(b)
}

/// `a` comes before `b` in byte-wise lexicographic order: they agree up to a position where
/// `a` ends and `b` does not, or where `a` has the smaller byte.
pub open spec fn sorts_before(a: Seq<u8>, b: Seq<u8>) -> bool {
    exists|k: int| #[trigger] parts_at(a, b, k)
}

/// `a` and `b` agree below `k`, and at `k` the sequence `a` ends or has the smaller byte.
pub open spec fn parts_at(a: Seq<u8>, b: Seq<u8>, k: int) -> bool {
    &&& 0 <= k <= a.len()
    &&& k < b.len()
    &&& forall|i: int| 0 <= i < k ==> a[i] == b[i]
    &&& k == a.len() || a[k] < b[k]
}

fn to_lower(b: u8) -> (r: u8)
    ensures
        r == lowered(b),
{
    if 0x41 <= b && b <= 0x5a {
        b + 0x20
    } else {
        b
    }
}

/// The first position at which two byte strings differ when ASCII case is ignored, or the
/// length of the shorter one.
fn agreeing_len(x: &[u8], y: &[u8]) -> (n: usize)
    ensures
        n <= x@.len(),
        n <= y@.len(),
        n < x@.len() && n < y@.len() ==> lowered(x@[n as int]) != lowered(y@[n as int]),
        ({
            let fx = fold(x@);
            let fy = fold(y@);
            &&& n < y@.len() && (n == x@.len() || fx[n as int] < fy[n as int]) ==> sorts_before(
                fx,
                fy,
            )
            &&& n < x@.len() && (n == y@.len() || fy[n as int] < fx[n as int]) ==> sorts_before(
                fy,
                fx,
            )
            &&& n == x@.len() && n == y@.len() ==> fx == fy
        }),
{
    let ghost fx = fold(x@);
    let ghost fy = fold(y@);
    let mut i: usize = 0;
    while i < x.len() && i < y.len() && to_lower(x[i]) == to_lower(y[i])
        invariant
            i <= x@.len(),
            i <= y@.len(),
            fx == fold(x@),
            fy == fold(y@),
            forall|k: int| 0 <= k < i ==> fx[k] == fy[k],
        decreases x@.len() - i,
    {
        i = i + 1;
    }
    proof {
        if i < y@.len() && (i == x@.len() || fx[i as int] < fy[i as int]) {
            assert(parts_at(fx, fy, i as int));
        }
        if i < x@.len() && (i == y@.len() || fy[i as int] < fx[i as int]) {
            assert(parts_at(fy, fx, i as int));
        }
        if i == x@.len() && i == y@.len() {
            assert(fx =~= fy);
        }
    }
    i
}

/// Orders two paths the way CHM sorts its directory: byte-wise, ignoring ASCII case.
pub fn cmp_ignore_ascii_case(a: &str, b: &str) -> (r: Ordering)
    ensures
        match r {
            Ordering::Less => sorts_before(folded(a@), folded(b@)),
            Ordering::Equal => same_path(a@, b@),
            Ordering::Greater => sorts_before(folded(b@), folded(a@)),
        },
{
    let x: &[u8] = a.as_bytes();
    let y: &[u8] = b.as_bytes();
    let n: usize = agreeing_len(x, y);
    if n == x.len() && n == y.len() {
        Ordering::Equal
    } else if n == x.len() {
        Ordering::Less
    } else if n == y.len() {
        Ordering::Greater
    } else if to_lower(x[n]) < to_lower(y[n]) {
        Ordering::Less
    } else {
        Ordering::Greater
    }
}

/// Whether two paths are the same, ignoring ASCII case.
pub fn eq_ignore_ascii_case(a: &str, b: &str) -> (r: bool)
    ensures
        r == same_path(a@, b@),
{
    let x: &[u8] = a.as_bytes();
    let y: &[u8] = b.as_bytes();
    if x.len() != y.len() {
        assert(folded(a@).len() != folded(b@).len());
        return false;
    }
    let r: bool = folds_to_prefix(x, y);
    proof {
        let fx = folded(a@);
        let fy = folded(b@);
        assert(fx.subrange(0, fy.len() as int) =~= fx);
    }
    r
}

/// Whether the bytes `x` begin with the bytes `y`, ignoring ASCII case.
pub fn folds_to_prefix(x: &[u8], y: &[u8]) -> (r: bool)
    ensures
        r == fold(y@).is_prefix_of(fold(x@)),
{
    let ghost fx = fold(x@);
    let ghost fy = fold(y@);
    if x.len() < y.len() {
        return false;
    }
    let mut i: usize = 0;
    while i < y.len()
        invariant
            i <= y@.len() <= x@.len(),
            fx == fold(x@),
            fy == fold(y@),
            forall|k: int| 0 <= k < i ==> fx[k] == fy[k],
        decreases y@.len() - i,
    {
        if to_lower(x[i]) != to_lower(y[i]) {
            assert(fx.subrange(0, fy.len() as int)[i as int] != fy[i as int]);
            return false;
        }
        i = i + 1;
    }
    assert(fx.subrange(0, fy.len() as int) =~= fy);
    true
}

/// Whether `path` begins with `prefix`, ignoring ASCII case.
pub fn starts_with_ignore_ascii_case(path: &str, prefix: &str) -> (r: bool)
    ensures
        r == folded(prefix@).is_prefix_of(folded(path@)),
{
    folds_to_prefix(path.as_bytes(), prefix.as_bytes())
}

/// Nothing sorts before itself.
pub proof fn lemma_not_before_itself(a: Seq<u8>)
    ensures
        !sorts_before(a, a),
{
}

/// Of two byte strings at most one sorts before the other.
pub proof fn lemma_not_both(a: Seq<u8>, b: Seq<u8>)
    requires
        sorts_before(a, b),
    ensures
        !sorts_before(b, a),
        a != b,
{
    let k = choose|k: int| #[trigger] parts_at(a, b, k);
    if sorts_before(b, a) {
        let j = choose|j: int| #[trigger] parts_at(b, a, j);
        assert(j <= k ==> false);
        assert(k <= j ==> false);
    }
    if a == b {
        assert(a[k] == b[k]);
    }
}

/// The order is transitive.
pub proof fn lemma_before_transitive(a: Seq<u8>, b: Seq<u8>, c: Seq<u8>)
    requires
        sorts_before(a, b),
        sorts_before(b, c),
    ensures
        sorts_before(a, c),
{
    let k = choose|k: int| #[trigger] parts_at(a, b, k);
    let j = choose|j: int| #[trigger] parts_at(b, c, j);
    if k <= j {
        assert(parts_at(a, c, k));
    } else {
        assert(parts_at(a, c, j));
    }
}

/// Of two byte strings that differ, one sorts before the other.
pub proof fn lemma_before_total(a: Seq<u8>, b: Seq<u8>)
    ensures
        a == b || sorts_before(a, b) || sorts_before(b, a),
    decreases a.len(),
{
    if a.len() == 0 {
        if b.len() == 0 {
            assert(a =~= b);
        } else {
            assert(parts_at(a, b, 0));
        }
    } else if b.len() == 0 {
        assert(parts_at(b, a, 0));
    } else if a[0] < b[0] {
        assert(parts_at(a, b, 0));
    } else if b[0] < a[0] {
        assert(parts_at(b, a, 0));
    } else {
        let x = a.drop_first();
        let y = b.drop_first();
        lemma_before_total(x, y);
        if sorts_before(x, y) {
            let k = choose|k: int| #[trigger] parts_at(x, y, k);
            assert forall|i: int| 0 <= i < k + 1 implies a[i] == b[i] by {
                if i > 0 {
                    assert(x[i - 1] == y[i - 1]);
                }
            }
            assert(parts_at(a, b, k + 1));
        } else if sorts_before(y, x) {
            let k = choose|k: int| #[trigger] parts_at(y, x, k);
            assert forall|i: int| 0 <= i < k + 1 implies a[i] == b[i] by {
                if i > 0 {
                    assert(x[i - 1] == y[i - 1]);
                }
            }
            assert(parts_at(b, a, k + 1));
        } else {
            assert(a =~= seq![a[0]] + x);
            assert(b =~= seq![b[0]] + y);
        }
    }
}

} // verus!
