//! The bytes that directory entries are stored as, and what parsing them gives back.

use vstd::prelude::*;
use vstd::utf8::{encode_utf8, encode_utf8_decode_utf8, encode_utf8_valid_utf8, valid_utf8};

use crate::directory::{index, listing, Index, Listing};
use crate::error::Fault;
use crate::format::{
    base128, cword, cword_last, path_at, pmgi_entry, pmgl_entry, BlockKind, EntryRecord,
    MAX_PATH_LEN,
};

verus! {

/// The groups of seven bits of a number, most significant first, all marked as continued.
pub open spec fn continued(v: nat) -> Seq<u8>
    decreases v,
{
    if v == 0 {
        Seq::empty()
    } else {
        continued(v / 128).push((0x80 + v % 128) as u8)
    }
}

/// A number as a cword.
pub open spec fn cword_bytes(v: nat) -> Seq<u8> {
    continued(v / 128).push((v % 128) as u8)
}

/// A path as it is stored: its length in bytes and its UTF-8 form.
pub open spec fn path_entry(path: Seq<char>) -> Seq<u8> {
    cword_bytes(encode_utf8(path).len()) + encode_utf8(path)
}

/// A leaf entry as it is stored.
pub open spec fn leaf_entry(record: EntryRecord) -> Seq<u8> {
    path_entry(record.path) + cword_bytes(record.space as nat) + cword_bytes(record.start as nat)
        + cword_bytes(record.length as nat)
}

/// An index entry as it is stored.
pub open spec fn index_entry(key: Seq<char>, child: i32) -> Seq<u8> {
    path_entry(key) + cword_bytes(child as nat)
}

/// `buf` holds `bytes` at `at`.
pub open spec fn holds_at(buf: Seq<u8>, at: int, bytes: Seq<u8>) -> bool {
    &&& 0 <= at
    &&& at + bytes.len() <= buf.len()
    &&& forall|i: int| 0 <= i < bytes.len() ==> buf[at + i] == #[trigger] bytes[i]
}

/// What holds two strings of bytes in a row holds each of them.
proof fn lemma_holds_both(buf: Seq<u8>, at: int, a: Seq<u8>, b: Seq<u8>)
    requires
        holds_at(buf, at, a + b),
    ensures
        holds_at(buf, at, a),
        holds_at(buf, at + a.len(), b),
{
    assert forall|i: int| 0 <= i < a.len() implies buf[at + i] == #[trigger] a[i] by {
        assert((a + b)[i] == a[i]);
    }
    assert forall|i: int| 0 <= i < b.len() implies buf[at + a.len() + i] == #[trigger] b[i] by {
        assert((a + b)[a.len() + i] == b[i]);
    }
}

proof fn lemma_continued(buf: Seq<u8>, at: int, v: nat)
    requires
        holds_at(buf, at, continued(v)),
    ensures
        base128(buf, at, at + continued(v).len()) == v,
        forall|i: int| at <= i < at + continued(v).len() ==> #[trigger] buf[i] >= 0x80,
    decreases v,
{
    if v > 0 {
        let head = continued(v / 128);
        let all = continued(v);
        assert forall|i: int| 0 <= i < head.len() implies buf[at + i] == #[trigger] head[i] by {
            assert(all[i] == head[i]);
        }
        lemma_continued(buf, at, v / 128);
        assert(buf[at + head.len()] == all[head.len() as int]);
        assert forall|i: int| at <= i < at + all.len() implies #[trigger] buf[i] >= 0x80 by {
            if i < at + head.len() {
            } else {
                assert(i == at + head.len());
            }
        }
    }
}

proof fn lemma_last_of_run(buf: Seq<u8>, from: int, to: int)
    requires
        0 <= from <= to < buf.len(),
        forall|i: int| from <= i < to ==> #[trigger] buf[i] >= 0x80,
        buf[to] < 0x80,
    ensures
        cword_last(buf, from) == to,
    decreases to - from,
{
    if from < to {
        lemma_last_of_run(buf, from + 1, to);
    }
}

/// A number stored as a cword is parsed as that number, wherever it stands and whatever
/// follows it.
pub proof fn lemma_cword_round_trip(buf: Seq<u8>, at: int, v: nat, kind: BlockKind)
    requires
        holds_at(buf, at, cword_bytes(v)),
        v <= u64::MAX,
    ensures
        cword(buf, at, kind) == Ok::<(u64, int), Fault>((v as u64, at + cword_bytes(v).len())),
{
    let head = continued(v / 128);
    let all = cword_bytes(v);
    let last = at + head.len();
    assert(all =~= head + seq![(v % 128) as u8]);
    lemma_holds_both(buf, at, head, seq![(v % 128) as u8]);
    lemma_continued(buf, at, v / 128);
    assert(buf[last] == all[head.len() as int]);
    lemma_last_of_run(buf, at, last);
}

/// A number that does not fit in 64 bits is reported as such.
pub proof fn lemma_cword_overflow(buf: Seq<u8>, at: int, v: nat, kind: BlockKind)
    requires
        holds_at(buf, at, cword_bytes(v)),
        v > u64::MAX,
    ensures
        cword(buf, at, kind) == Err::<(u64, int), _>(Fault::Overflow),
{
    let head = continued(v / 128);
    let all = cword_bytes(v);
    let last = at + head.len();
    assert(all =~= head + seq![(v % 128) as u8]);
    lemma_holds_both(buf, at, head, seq![(v % 128) as u8]);
    lemma_continued(buf, at, v / 128);
    assert(buf[last] == all[head.len() as int]);
    lemma_last_of_run(buf, at, last);
}

/// A group of zero bits in front adds nothing.
proof fn lemma_base128_padded(buf: Seq<u8>, lo: int, hi: int)
    requires
        lo < hi,
        buf[lo] == 0x80,
    ensures
        base128(buf, lo, hi) == base128(buf, lo + 1, hi),
    decreases hi - lo,
{
    reveal_with_fuel(base128, 2);
    if lo + 1 < hi {
        lemma_base128_padded(buf, lo, hi - 1);
    }
}

/// A number may be stored with more bytes than it takes: groups of zero bits in front of it do
/// not change what it is parsed as.
pub proof fn lemma_cword_padded(buf: Seq<u8>, at: int, kind: BlockKind)
    requires
        0 <= at,
        at + 1 < buf.len(),
        buf[at] == 0x80,
    ensures
        cword(buf, at, kind) == cword(buf, at + 1, kind),
{
    let last = cword_last(buf, at);
    assert(last == cword_last(buf, at + 1));
    lemma_last_not_before(buf, at + 1);
    if last < buf.len() {
        lemma_base128_padded(buf, at, last + 1);
    } else {
        lemma_base128_padded(buf, at, buf.len() as int);
    }
}

/// The last byte of a number does not lie before its first.
proof fn lemma_last_not_before(buf: Seq<u8>, from: int)
    requires
        0 <= from <= buf.len(),
    ensures
        from <= cword_last(buf, from) <= buf.len(),
    decreases buf.len() - from,
{
    if from < buf.len() && buf[from] >= 0x80 {
        lemma_last_not_before(buf, from + 1);
    }
}

/// A number that the buffer ends in is malformed.
pub proof fn lemma_cut_cword_refused(buf: Seq<u8>, at: int, v: nat)
    requires
        holds_at(buf, at, continued(v)),
        at + continued(v).len() == buf.len(),
        v <= u64::MAX,
    ensures
        cword(buf, at, BlockKind::Pmgl) == Err::<(u64, int), _>(Fault::BadPmgl),
        cword(buf, at, BlockKind::Pmgi) == Err::<(u64, int), _>(Fault::BadPmgi),
{
    lemma_continued(buf, at, v);
    lemma_all_continued(buf, at);
}

/// Where every byte up to the end is continued, there is no last one.
proof fn lemma_all_continued(buf: Seq<u8>, from: int)
    requires
        0 <= from <= buf.len(),
        forall|i: int| from <= i < buf.len() ==> #[trigger] buf[i] >= 0x80,
    ensures
        cword_last(buf, from) == buf.len(),
    decreases buf.len() - from,
{
    if from < buf.len() {
        lemma_all_continued(buf, from + 1);
    }
}

/// Bytes that are not UTF-8 are refused as a path.
pub proof fn lemma_foreign_path_refused(buf: Seq<u8>, at: int, bytes: Seq<u8>, kind: BlockKind)
    requires
        holds_at(buf, at, cword_bytes(bytes.len()) + bytes),
        bytes.len() <= 512,
        !valid_utf8(bytes),
        buf.len() <= usize::MAX,
    ensures
        path_at(buf, at, kind) == Err::<(Seq<char>, int), _>(Fault::Utf8),
{
    let len = cword_bytes(bytes.len());
    lemma_holds_both(buf, at, len, bytes);
    lemma_cword_round_trip(buf, at, bytes.len(), kind);
    let pos = at + len.len();
    assert(buf.subrange(pos, pos + bytes.len()) =~= bytes);
}

/// A path is parsed as the path that was stored.
pub proof fn lemma_path_round_trip(buf: Seq<u8>, at: int, path: Seq<char>, kind: BlockKind)
    requires
        holds_at(buf, at, path_entry(path)),
        encode_utf8(path).len() <= MAX_PATH_LEN,
        buf.len() <= usize::MAX,
    ensures
        path_at(buf, at, kind) == Ok::<(Seq<char>, int), Fault>(
            (path, at + path_entry(path).len()),
        ),
{
    let bytes = encode_utf8(path);
    let len = cword_bytes(bytes.len());
    lemma_holds_both(buf, at, len, bytes);
    lemma_cword_round_trip(buf, at, bytes.len(), kind);
    let pos = at + len.len();
    assert(buf.subrange(pos, pos + bytes.len()) =~= bytes);
    encode_utf8_valid_utf8(path);
    encode_utf8_decode_utf8(path);
}

/// A leaf entry is parsed as the entry that was stored.
pub proof fn lemma_leaf_entry_round_trip(buf: Seq<u8>, at: int, record: EntryRecord)
    requires
        holds_at(buf, at, leaf_entry(record)),
        encode_utf8(record.path).len() <= MAX_PATH_LEN,
        buf.len() <= usize::MAX,
    ensures
        pmgl_entry(buf, at) == Ok::<(EntryRecord, int), Fault>(
            (record, at + leaf_entry(record).len()),
        ),
{
    let kind = BlockKind::Pmgl;
    let path = path_entry(record.path);
    let space = cword_bytes(record.space as nat);
    let start = cword_bytes(record.start as nat);
    let length = cword_bytes(record.length as nat);
    lemma_holds_both(buf, at, path + space + start, length);
    lemma_holds_both(buf, at, path + space, start);
    lemma_holds_both(buf, at, path, space);
    let p1 = at + path.len();
    let p2 = p1 + space.len();
    let p3 = p2 + start.len();
    lemma_path_round_trip(buf, at, record.path, kind);
    lemma_cword_round_trip(buf, p1, record.space as nat, kind);
    lemma_cword_round_trip(buf, p2, record.start as nat, kind);
    lemma_cword_round_trip(buf, p3, record.length as nat, kind);
}

/// An index entry is parsed as the entry that was stored.
pub proof fn lemma_index_entry_round_trip(buf: Seq<u8>, at: int, key: Seq<char>, child: i32)
    requires
        holds_at(buf, at, index_entry(key, child)),
        encode_utf8(key).len() <= MAX_PATH_LEN,
        child >= 0,
        buf.len() <= usize::MAX,
    ensures
        pmgi_entry(buf, at) == Ok::<(Seq<char>, i32, int), Fault>(
            (key, child, at + index_entry(key, child).len()),
        ),
{
    let kind = BlockKind::Pmgi;
    let path = path_entry(key);
    lemma_holds_both(buf, at, path, cword_bytes(child as nat));
    lemma_path_round_trip(buf, at, key, kind);
    lemma_cword_round_trip(buf, at + path.len(), child as nat, kind);
}

/// Leaf entries one behind the other.
pub open spec fn leaf_entries(records: Seq<EntryRecord>) -> Seq<u8>
    decreases records.len(),
{
    if records.len() == 0 {
        Seq::empty()
    } else {
        leaf_entry(records[0]) + leaf_entries(records.drop_first())
    }
}

/// A leaf that holds some entries lists them all, in order.
pub proof fn lemma_listing_round_trip(buf: Seq<u8>, at: int, records: Seq<EntryRecord>)
    requires
        holds_at(buf, at, leaf_entries(records)),
        forall|i: int|
            0 <= i < records.len() ==> encode_utf8((#[trigger] records[i]).path).len()
                <= MAX_PATH_LEN,
        buf.len() <= usize::MAX,
    ensures
        listing(buf, at, at + leaf_entries(records).len()) == (Listing { records, fault: None }),
    decreases records.len(),
{
    if records.len() == 0 {
        assert(records =~= Seq::empty());
    } else {
        let first = leaf_entry(records[0]);
        let rest = records.drop_first();
        lemma_holds_both(buf, at, first, leaf_entries(rest));
        lemma_leaf_entry_round_trip(buf, at, records[0]);
        assert forall|i: int| 0 <= i < rest.len() implies encode_utf8(
            (#[trigger] rest[i]).path,
        ).len() <= MAX_PATH_LEN by {
            assert(rest[i] == records[i + 1]);
        }
        lemma_listing_round_trip(buf, at + first.len(), rest);
        assert(first.len() > 0);
        assert(records =~= seq![records[0]] + rest);
    }
}

/// Index entries one behind the other.
pub open spec fn index_entries(keys: Seq<(Seq<char>, i32)>) -> Seq<u8>
    decreases keys.len(),
{
    if keys.len() == 0 {
        Seq::empty()
    } else {
        index_entry(keys[0].0, keys[0].1) + index_entries(keys.drop_first())
    }
}

/// An index block that holds some keys gives them all, in order.
pub proof fn lemma_index_round_trip(buf: Seq<u8>, at: int, keys: Seq<(Seq<char>, i32)>)
    requires
        holds_at(buf, at, index_entries(keys)),
        forall|i: int|
            0 <= i < keys.len() ==> encode_utf8((#[trigger] keys[i]).0).len() <= MAX_PATH_LEN
                && keys[i].1 >= 0,
        buf.len() <= usize::MAX,
    ensures
        index(buf, at, at + index_entries(keys).len()) == (Index { keys, fault: None }),
    decreases keys.len(),
{
    if keys.len() == 0 {
        assert(keys =~= Seq::empty());
    } else {
        let first = index_entry(keys[0].0, keys[0].1);
        let rest = keys.drop_first();
        lemma_holds_both(buf, at, first, index_entries(rest));
        lemma_index_entry_round_trip(buf, at, keys[0].0, keys[0].1);
        assert forall|i: int| 0 <= i < rest.len() implies encode_utf8((#[trigger] rest[i]).0).len()
            <= MAX_PATH_LEN && rest[i].1 >= 0 by {
            assert(rest[i] == keys[i + 1]);
        }
        lemma_index_round_trip(buf, at + first.len(), rest);
        assert(first.len() > 0);
        assert(keys =~= seq![(keys[0].0, keys[0].1)] + rest);
    }
}

} // verus!
