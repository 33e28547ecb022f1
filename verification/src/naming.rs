//! What paths name: which of them are the same, how they sort, and how they are classified.

use vstd::prelude::*;
use vstd::utf8::{
    char_u32_cast, encode_scalar, encode_utf8, encode_utf8_decode_utf8, encode_utf8_first_scalar,
};

use crate::directory::{prefix_bytes, wanted, Directory};
use crate::entry::{selects, EntrySel};
use crate::format::EntryRecord;
use crate::lookup::{lemma_encode_push, lemma_search_ignores_case, same_answer};
use crate::paths::{
    category_of, fold, folded, kind_of, lowered, parts_at, same_path, sorts_before, EntryCategory,
    EntryKind,
};

verus! {

/// Two bytes are the same but for the case of an ASCII letter.
pub open spec fn case_variants(a: u8, b: u8) -> bool {
    ||| a == b
    ||| 0x41 <= a <= 0x5a && b == a + 0x20
    ||| 0x41 <= b <= 0x5a && a == b + 0x20
}

/// A letter folds together with its other case, and with nothing else. What is not a capital
/// letter stays as it is, and no capital letter is left.
pub proof fn lemma_fold_exactly(a: u8, b: u8)
    ensures
        lowered(a) == lowered(b) <==> case_variants(a, b),
        !(0x41 <= a <= 0x5a) ==> lowered(a) == a,
        !(0x41 <= lowered(a) <= 0x5a),
{
}

/// Two characters are the same but for the case of an ASCII letter.
pub open spec fn letter_variants(c: char, d: char) -> bool {
    ||| c == d
    ||| 0x41 <= c as u32 <= 0x5a && d as u32 == c as u32 + 0x20
    ||| 0x41 <= d as u32 <= 0x5a && c as u32 == d as u32 + 0x20
}

/// Two paths are the same but for the case of ASCII letters.
pub open spec fn path_variants(p: Seq<char>, q: Seq<char>) -> bool {
    &&& p.len() == q.len()
    &&& forall|i: int| 0 <= i < p.len() ==> letter_variants(#[trigger] p[i], q[i])
}

/// A character as it is compared.
spec fn small(c: char) -> char {
    if 0x41 <= c as u32 <= 0x5a {
        (c as u32 + 0x20) as char
    } else {
        c
    }
}

/// A path as it is compared, character by character.
spec fn smalls(p: Seq<char>) -> Seq<char> {
    Seq::new(p.len(), |i: int| small(p[i]))
}

/// Folding the bytes of a character folds the character.
proof fn lemma_small(c: char)
    ensures
        fold(encode_scalar(c as u32)) == encode_scalar(small(c) as u32),
{
    let v = c as u32;
    assert(v <= 0x10ffff);
    assert((v <= 0x7f ==> (v & 0x7f) as u8 == v) && (0x80u8 | (v & 0x3f) as u8) >= 0x80 && (0x80u8
        | ((v >> 6u32) & 0x3f) as u8) >= 0x80 && (0x80u8 | ((v >> 12u32) & 0x3f) as u8) >= 0x80 && (
    0xc0u8 | ((v >> 6u32) & 0x1f) as u8) >= 0x80 && (0xe0u8 | ((v >> 12u32) & 0x0f) as u8) >= 0x80
        && (0xf0u8 | ((v >> 18u32) & 0x7) as u8) >= 0x80) by (bit_vector);
    let w = small(c) as u32;
    assert(w <= 0x7f ==> (w & 0x7f) as u8 == w) by (bit_vector);
    assert(fold(encode_scalar(v)) =~= encode_scalar(w));
}

/// Folding the bytes of a path folds the path.
proof fn lemma_smalls(p: Seq<char>)
    ensures
        folded(p) == encode_utf8(smalls(p)),
    decreases p.len(),
{
    if p.len() > 0 {
        let rest = p.drop_first();
        lemma_small(p[0]);
        lemma_smalls(rest);
        assert(smalls(p).drop_first() =~= smalls(rest));
        assert(encode_utf8(p) == encode_scalar(p[0] as u32) + encode_utf8(rest));
        assert(folded(p) =~= fold(encode_scalar(p[0] as u32)) + folded(rest));
    } else {
        assert(folded(p) =~= encode_utf8(smalls(p)));
    }
}

/// Characters that compare alike are the same but for the case of an ASCII letter.
proof fn lemma_small_variants(c: char, d: char)
    ensures
        small(c) == small(d) <==> letter_variants(c, d),
{
    if c as u32 == d as u32 {
        char_u32_cast(c, c as u32);
        char_u32_cast(d, c as u32);
    }
    if small(c) as u32 == small(d) as u32 {
        char_u32_cast(small(c), small(c) as u32);
        char_u32_cast(small(d), small(c) as u32);
    }
}

/// Two paths name the same entry exactly if they are the same but for the case of ASCII
/// letters.
pub proof fn lemma_same_path_exactly(p: Seq<char>, q: Seq<char>)
    ensures
        same_path(p, q) <==> path_variants(p, q),
{
    lemma_smalls(p);
    lemma_smalls(q);
    if same_path(p, q) {
        encode_utf8_decode_utf8(smalls(p));
        encode_utf8_decode_utf8(smalls(q));
        assert(smalls(p) == smalls(q));
        assert forall|i: int| 0 <= i < p.len() implies letter_variants(#[trigger] p[i], q[i]) by {
            assert(smalls(p)[i] == smalls(q)[i]);
            lemma_small_variants(p[i], q[i]);
        }
    }
    if path_variants(p, q) {
        assert forall|i: int| 0 <= i < p.len() implies smalls(p)[i] == smalls(q)[i] by {
            lemma_small_variants(p[i], q[i]);
        }
        assert(smalls(p) =~= smalls(q));
    }
}

/// A search for a path in which the case of some letters is changed comes to the same entry.
pub proof fn lemma_search_by_variant(
    d: &Directory,
    blocks: spec_fn(int) -> Seq<u8>,
    p: Seq<char>,
    q: Seq<char>,
)
    requires
        path_variants(p, q),
    ensures
        same_answer(d.found(blocks, p), p, d.found(blocks, q), q),
{
    lemma_same_path_exactly(p, q);
    lemma_search_ignores_case(d, blocks, d.index_root, 0, p, q);
}

/// Where two byte strings part, the smaller byte sorts first; a string sorts before every
/// longer one that it begins.
pub proof fn lemma_order_by_bytes(
    common: Seq<u8>,
    x: u8,
    y: u8,
    s: Seq<u8>,
    t: Seq<u8>,
)
    requires
        x < y,
    ensures
        sorts_before(common.push(x) + s, common.push(y) + t),
        !sorts_before(common.push(y) + t, common.push(x) + s),
        sorts_before(common, common.push(x) + s),
        !sorts_before(common.push(x) + s, common),
{
    let k = common.len() as int;
    let a = common.push(x) + s;
    let b = common.push(y) + t;
    assert(parts_at(a, b, k));
    assert(parts_at(common, a, k));
    crate::paths::lemma_not_both(a, b);
    crate::paths::lemma_not_both(common, a);
}

/// A path names a directory exactly if a slash ends it.
pub proof fn lemma_kind_by_end(path: Seq<char>, c: char)
    ensures
        kind_of(Seq::empty()) == EntryKind::File,
        kind_of(path.push('/')) == EntryKind::Dir,
        c != '/' ==> kind_of(path.push(c)) == EntryKind::File,
{
}

/// The category of a path goes by its first two characters.
pub proof fn lemma_category_by_start(c: char, rest: Seq<char>)
    ensures
        category_of(Seq::empty()) == EntryCategory::Meta,
        c != '/' ==> category_of(seq![c] + rest) == EntryCategory::Meta,
        category_of(seq!['/']) == EntryCategory::Normal,
        category_of(seq!['/', '#'] + rest) == EntryCategory::Special,
        category_of(seq!['/', '$'] + rest) == EntryCategory::Special,
        c != '#' && c != '$' ==> category_of(seq!['/', c] + rest) == EntryCategory::Normal,
{
}

/// A selector yields a path exactly if it has the flag of the path's kind, 8 for files and 16
/// for directories, and that of its category, 1, 2 or 4 for normal, special and metadata.
pub proof fn lemma_selects_by_flags(bits: u8, c: char, rest: Seq<char>, end: char)
    requires
        end != '/',
    ensures
        ({
            let sel = EntrySel { bits };
            let normal = bits % 2 == 1;
            let special = bits / 2 % 2 == 1;
            let meta = bits / 4 % 2 == 1;
            let files = bits / 8 % 2 == 1;
            let dirs = bits / 16 % 2 == 1;
            &&& c != '#' && c != '$' ==> selects(sel, (seq!['/', c] + rest).push(end)) == (files
                && normal)
            &&& c != '#' && c != '$' ==> selects(sel, (seq!['/', c] + rest).push('/')) == (dirs
                && normal)
            &&& selects(sel, (seq!['/', '#'] + rest).push(end)) == (files && special)
            &&& selects(sel, (seq!['/', '#'] + rest).push('/')) == (dirs && special)
            &&& selects(sel, (seq!['/', '$'] + rest).push(end)) == (files && special)
            &&& selects(sel, (seq!['/', '$'] + rest).push('/')) == (dirs && special)
            &&& c != '/' ==> selects(sel, (seq![c] + rest).push(end)) == (files && meta)
            &&& c != '/' ==> selects(sel, (seq![c] + rest).push('/')) == (dirs && meta)
        }),
{
    assert((bits & 1 != 0 <==> bits % 2 == 1) && (bits & 2 != 0 <==> bits / 2 % 2 == 1) && (bits & 4
        != 0 <==> bits / 4 % 2 == 1) && (bits & 8 != 0 <==> bits / 8 % 2 == 1) && (bits & 0x10 != 0
        <==> bits / 16 % 2 == 1)) by (bit_vector);
}

/// One encoded string begins another exactly if it does so character by character.
proof fn lemma_encoded_prefix(a: Seq<char>, b: Seq<char>)
    ensures
        encode_utf8(a).is_prefix_of(encode_utf8(b)) <==> a.is_prefix_of(b),
    decreases a.len(),
{
    let x = encode_utf8(a);
    let y = encode_utf8(b);
    if a.len() == 0 {
        assert(y.subrange(0, 0) =~= x);
        assert(b.subrange(0, 0) =~= a);
    } else {
        encode_utf8_first_scalar(a);
        if b.len() == 0 {
            assert(x.len() > y.len());
        } else {
            encode_utf8_first_scalar(b);
            let c = encode_scalar(a[0] as u32);
            let ra = a.drop_first();
            let rb = b.drop_first();
            lemma_encoded_prefix(ra, rb);
            if x.is_prefix_of(y) {
                assert forall|i: int| 0 <= i < x.len() implies x[i] == y[i] by {
                    assert(y.subrange(0, x.len() as int)[i] == x[i]);
                }
                assert(a[0] as u32 == b[0] as u32);
                char_u32_cast(a[0], a[0] as u32);
                char_u32_cast(b[0], a[0] as u32);
                let rx = encode_utf8(ra);
                let ry = encode_utf8(rb);
                assert forall|i: int| 0 <= i < rx.len() implies rx[i] == ry[i] by {
                    assert(x[i + c.len()] == y[i + c.len()]);
                }
                assert(ry.subrange(0, rx.len() as int) =~= rx);
                assert(ra.is_prefix_of(rb));
                assert forall|i: int| 0 <= i < a.len() implies a[i] == b[i] by {
                    if i > 0 {
                        assert(ra[i - 1] == rb.subrange(0, ra.len() as int)[i - 1]);
                    }
                }
                assert(b.subrange(0, a.len() as int) =~= a);
            }
            if a.is_prefix_of(b) {
                assert(a[0] == b.subrange(0, a.len() as int)[0]);
                assert forall|i: int| 0 <= i < ra.len() implies ra[i] == rb[i] by {
                    assert(a[i + 1] == b.subrange(0, a.len() as int)[i + 1]);
                }
                assert(rb.subrange(0, ra.len() as int) =~= ra);
                let rx = encode_utf8(ra);
                let ry = encode_utf8(rb);
                assert forall|i: int| 0 <= i < x.len() implies x[i] == y[i] by {
                    if i >= c.len() {
                        assert(rx[i - c.len()] == ry.subrange(0, rx.len() as int)[i - c.len()]);
                    }
                }
                assert(y.subrange(0, x.len() as int) =~= x);
            }
        }
    }
}

/// A prefix with the slash that ends the name of a directory.
pub open spec fn slashed(prefix: Seq<char>) -> Seq<char> {
    if prefix.len() == 0 || prefix.last() == '/' {
        prefix
    } else {
        prefix.push('/')
    }
}

/// An enumeration below a prefix yields those selected paths that begin with the prefix and a
/// slash, but for the case of letters, and no others: `/ab` is not below `/a`.
pub proof fn lemma_subtree_exactly(prefix: Seq<char>, sel: EntrySel, record: EntryRecord)
    ensures
        ({
            let head = slashed(prefix);
            wanted(Some(prefix_bytes(prefix)), sel, record) <==> selects(sel, record.path)
                && head.len() <= record.path.len() && path_variants(
                head,
                record.path.take(head.len() as int),
            )
        }),
        wanted(None, sel, record) <==> selects(sel, record.path),
{
    let head = slashed(prefix);
    let path = record.path;
    if head != prefix {
        lemma_encode_push(prefix, '/');
        assert(0x2fu32 & 0x7f == 0x2f) by (bit_vector);
    }
    assert(prefix_bytes(prefix) =~= encode_utf8(head));
    lemma_smalls(head);
    lemma_smalls(path);
    lemma_encoded_prefix(smalls(head), smalls(path));
    if head.len() <= path.len() {
        let start = path.take(head.len() as int);
        lemma_same_path_exactly(head, start);
        lemma_smalls(start);
        assert(smalls(path).subrange(0, head.len() as int) =~= smalls(start));
        encode_utf8_decode_utf8(smalls(head));
        encode_utf8_decode_utf8(smalls(start));
    }
}

} // verus!
