//! The bytes that the headers of an archive are stored as, and what parsing them gives back.

use vstd::arithmetic::power2::pow2;
use vstd::prelude::*;

use crate::encoding::holds_at;
use crate::error::Fault;
use crate::format::{
    control_data, has_signature, is_pow2, itsf_header, itsp_header, pmgi_header, pmgl_header,
    reset_table, ItsfHeader, ItspHeader, LzxcControlData, LzxcResetTable, PmgiHeader, PmglHeader,
};
use crate::le::{
    le32, le64, le_bytes, lemma_le32_round_trip, lemma_le64_round_trip, lemma_signed_round_trip,
    signed32,
};

verus! {

/// A 32-bit field holds `v`.
pub open spec fn field32(buf: Seq<u8>, at: int, v: u32) -> bool {
    holds_at(buf, at, le_bytes(v as nat, 4))
}

/// A 64-bit field holds `v`.
pub open spec fn field64(buf: Seq<u8>, at: int, v: u64) -> bool {
    holds_at(buf, at, le_bytes(v as nat, 8))
}

/// A signed 32-bit field holds `v`, as its remainder modulo `2^32`.
pub open spec fn field_signed(buf: Seq<u8>, at: int, v: i32) -> bool {
    holds_at(buf, at, le_bytes((v as int % 0x1_0000_0000) as nat, 4))
}

/// Numbers have as many bytes as are asked for.
proof fn lemma_le_bytes_len(v: nat, n: nat)
    ensures
        le_bytes(v, n).len() == n,
    decreases n,
{
    if n > 0 {
        lemma_le_bytes_len(v / 256, (n - 1) as nat);
    }
}

/// What a 32-bit field holds is read from it.
pub proof fn lemma_field32(buf: Seq<u8>, at: int, v: u32)
    requires
        field32(buf, at, v),
    ensures
        0 <= at,
        at + 4 <= buf.len(),
        le32(buf, at) == v,
{
    lemma_le_bytes_len(v as nat, 4);
    lemma_le32_round_trip(buf, at, v);
}

/// What a 64-bit field holds is read from it.
pub proof fn lemma_field64(buf: Seq<u8>, at: int, v: u64)
    requires
        field64(buf, at, v),
    ensures
        0 <= at,
        at + 8 <= buf.len(),
        le64(buf, at) == v,
{
    lemma_le_bytes_len(v as nat, 8);
    lemma_le64_round_trip(buf, at, v);
}

/// What a signed field holds is read from it.
pub proof fn lemma_field_signed(buf: Seq<u8>, at: int, v: i32)
    requires
        field_signed(buf, at, v),
    ensures
        0 <= at,
        at + 4 <= buf.len(),
        signed32(le32(buf, at)) == v,
{
    let w = (v as int % 0x1_0000_0000) as u32;
    lemma_le_bytes_len(w as nat, 4);
    lemma_le32_round_trip(buf, at, w);
    lemma_signed_round_trip(v);
}

/// Four bytes are a signature exactly if they are those that the signature is made of.
pub proof fn lemma_signature(buf: Seq<u8>, at: int, sig: Seq<u8>)
    requires
        sig.len() == 4,
        0 <= at,
    ensures
        has_signature(buf, at, sig) <==> holds_at(buf, at, sig),
{
    if holds_at(buf, at, sig) {
        assert(buf.subrange(at, at + 4) =~= sig);
    }
    if has_signature(buf, at, sig) {
        assert forall|i: int| 0 <= i < 4 implies buf[at + i] == #[trigger] sig[i] by {
            assert(buf.subrange(at, at + 4)[i] == sig[i]);
        }
    }
}

/// The file header, `ITSF`: the version at 4, the header's length at 8, and from 0x48 on where
/// the directory lies, how long it is, and in version 3 where the content lies. In version 2
/// the content lies behind the directory.
pub proof fn lemma_itsf_round_trip(
    buf: Seq<u8>,
    version: u32,
    header_len: u32,
    dir_offset: u64,
    dir_len: u64,
    data_offset: u64,
)
    requires
        holds_at(buf, 0, seq![0x49u8, 0x54, 0x53, 0x46]),
        field32(buf, 4, version),
        field32(buf, 8, header_len),
        field64(buf, 0x48, dir_offset),
        field64(buf, 0x50, dir_len),
        field64(buf, 0x58, data_offset),
    ensures
        itsf_header(buf) == if version == 3 && header_len >= 0x60 {
            Ok(ItsfHeader { dir_offset, data_offset })
        } else if version == 2 && header_len >= 0x58 {
            if dir_offset + dir_len <= 0xffff_ffff_ffff_ffff {
                Ok(ItsfHeader { dir_offset, data_offset: (dir_offset + dir_len) as u64 })
            } else {
                Err(Fault::Overflow)
            }
        } else {
            Err(Fault::BadItsf)
        },
{
    lemma_field32(buf, 4, version);
    lemma_field32(buf, 8, header_len);
    lemma_field64(buf, 0x48, dir_offset);
    lemma_field64(buf, 0x50, dir_len);
    lemma_field64(buf, 0x58, data_offset);
    let sig = crate::format::SIG_ITSF@;
    assert(sig =~= seq![0x49u8, 0x54, 0x53, 0x46]);
    lemma_signature(buf, 0, sig);
}

/// A version 2 file header ends where the content offset of version 3 would be.
pub proof fn lemma_itsf_v2_round_trip(
    buf: Seq<u8>,
    header_len: u32,
    dir_offset: u64,
    dir_len: u64,
)
    requires
        holds_at(buf, 0, seq![0x49u8, 0x54, 0x53, 0x46]),
        field32(buf, 4, 2),
        field32(buf, 8, header_len),
        header_len >= 0x58,
        field64(buf, 0x48, dir_offset),
        field64(buf, 0x50, dir_len),
        dir_offset + dir_len <= 0xffff_ffff_ffff_ffff,
    ensures
        itsf_header(buf) == Ok::<_, Fault>(
            ItsfHeader { dir_offset, data_offset: (dir_offset + dir_len) as u64 },
        ),
{
    lemma_field32(buf, 4, 2);
    lemma_field32(buf, 8, header_len);
    lemma_field64(buf, 0x48, dir_offset);
    lemma_field64(buf, 0x50, dir_len);
    let sig = crate::format::SIG_ITSF@;
    assert(sig =~= seq![0x49u8, 0x54, 0x53, 0x46]);
    lemma_signature(buf, 0, sig);
}

/// The directory header, `ITSP`: version 1 at 4, its own length of 0x54 at 8, the length of a
/// block at 0x10, and from 0x1c on the blocks of the index root and of the first leaf. A block
/// holds at least a leaf header of 0x14 bytes and at most 2^20 bytes.
pub proof fn lemma_itsp_round_trip(
    buf: Seq<u8>,
    version: u32,
    header_len: u32,
    block_len: u32,
    index_root: i32,
    index_head: i32,
)
    requires
        buf.len() >= 0x54,
        holds_at(buf, 0, seq![0x49u8, 0x54, 0x53, 0x50]),
        field32(buf, 4, version),
        field32(buf, 8, header_len),
        field32(buf, 0x10, block_len),
        field_signed(buf, 0x1c, index_root),
        field_signed(buf, 0x20, index_head),
    ensures
        itsp_header(buf) == if version == 1 && header_len == 0x54 && 0x14 <= block_len
            <= 0x10_0000 {
            Ok(ItspHeader { block_len, index_root, index_head, header_len })
        } else {
            Err(Fault::BadItsp)
        },
{
    lemma_field32(buf, 4, version);
    lemma_field32(buf, 8, header_len);
    lemma_field32(buf, 0x10, block_len);
    lemma_field_signed(buf, 0x1c, index_root);
    lemma_field_signed(buf, 0x20, index_head);
    let sig = crate::format::SIG_ITSP@;
    assert(sig =~= seq![0x49u8, 0x54, 0x53, 0x50]);
    lemma_signature(buf, 0, sig);
}

/// The header of a leaf block, `PMGL`: its free space at 4 and the block behind it at 0x10.
pub proof fn lemma_pmgl_round_trip(buf: Seq<u8>, free_space: u32, block_next: i32)
    requires
        holds_at(buf, 0, seq![0x50u8, 0x4d, 0x47, 0x4c]),
        field32(buf, 4, free_space),
        field_signed(buf, 0x10, block_next),
    ensures
        pmgl_header(buf) == Ok::<_, Fault>(PmglHeader { free_space, block_next }),
        pmgi_header(buf) == Err::<PmgiHeader, _>(Fault::BadPmgi),
{
    lemma_field32(buf, 4, free_space);
    lemma_field_signed(buf, 0x10, block_next);
    let sig = crate::format::SIG_PMGL@;
    assert(sig =~= seq![0x50u8, 0x4d, 0x47, 0x4c]);
    lemma_signature(buf, 0, sig);
    let other = crate::format::SIG_PMGI@;
    assert(other =~= seq![0x50u8, 0x4d, 0x47, 0x49]);
    lemma_signature(buf, 0, other);
    assert(buf[0int + 3] == sig[3] && sig[3] != other[3]);
}

/// The header of an index block, `PMGI`: its free space at 4.
pub proof fn lemma_pmgi_round_trip(buf: Seq<u8>, free_space: u32)
    requires
        holds_at(buf, 0, seq![0x50u8, 0x4d, 0x47, 0x49]),
        field32(buf, 4, free_space),
    ensures
        pmgi_header(buf) == Ok::<_, Fault>(PmgiHeader { free_space }),
        pmgl_header(buf) == Err::<PmglHeader, _>(Fault::BadPmgl),
{
    lemma_field32(buf, 4, free_space);
    let sig = crate::format::SIG_PMGI@;
    assert(sig =~= seq![0x50u8, 0x4d, 0x47, 0x49]);
    lemma_signature(buf, 0, sig);
    let other = crate::format::SIG_PMGL@;
    assert(other =~= seq![0x50u8, 0x4d, 0x47, 0x4c]);
    lemma_signature(buf, 0, other);
    assert(buf[0int + 3] == sig[3] && sig[3] != other[3]);
}

/// The header of a reset table: version 2 at 0, the number of blocks at 4, where the offsets
/// lie at 0x0c, the compressed length at 0x18 and the length of a block at 0x20.
pub proof fn lemma_reset_table_round_trip(
    buf: Seq<u8>,
    version: u32,
    block_count: u32,
    table_offset: u32,
    compressed_len: u64,
    block_len: u64,
)
    requires
        field32(buf, 0, version),
        field32(buf, 4, block_count),
        field32(buf, 0x0c, table_offset),
        field64(buf, 0x18, compressed_len),
        field64(buf, 0x20, block_len),
    ensures
        reset_table(buf) == if version == 2 && block_count > 0 && block_len > 0 {
            Ok(LzxcResetTable { block_count, table_offset, compressed_len, block_len })
        } else {
            Err(Fault::BadResetTable)
        },
{
    lemma_field32(buf, 0, version);
    lemma_field32(buf, 4, block_count);
    lemma_field32(buf, 0x0c, table_offset);
    lemma_field64(buf, 0x18, compressed_len);
    lemma_field64(buf, 0x20, block_len);
}

/// A reset interval and a window size that a stream can have: the window is `2^k` bytes for
/// some positive `k`, and half of it divides the interval.
pub open spec fn fitting(interval: int, window: int) -> bool {
    &&& interval > 0
    &&& exists|k: nat| k > 0 && #[trigger] pow2(k) == window
    &&& interval % (window / 2) == 0
}

/// The powers of two above 1 are the positive powers.
proof fn lemma_larger_powers(v: int)
    ensures
        v >= 2 && is_pow2(v) <==> exists|k: nat| k > 0 && #[trigger] pow2(k) == v,
        is_pow2(v) ==> v == 1 || v % 2 == 0,
{
    if is_pow2(v) {
        let k = choose|k: nat| #[trigger] pow2(k) == v;
        if k == 0 {
            vstd::arithmetic::power2::lemma2_to64();
            assert forall|j: nat| j > 0 implies #[trigger] pow2(j) >= 2 by {
                vstd::arithmetic::power2::lemma_pow2_unfold(j);
                vstd::arithmetic::power2::lemma_pow2_pos((j - 1) as nat);
            }
        } else {
            vstd::arithmetic::power2::lemma_pow2_unfold(k);
            vstd::arithmetic::power2::lemma_pow2_pos((k - 1) as nat);
        }
    }
}

/// Control data, `LZXC` at 4: the version at 8, and from 0x0c on the reset interval, the window
/// size and the number of windows per reset. Version 2 counts the first two in units of 2^15
/// bytes, every other version in bytes. Nothing may be zero, and the two must fit each other
/// and 32 bits.
pub proof fn lemma_control_data_round_trip(
    buf: Seq<u8>,
    version: u32,
    interval: u32,
    window: u32,
    windows_per_reset: u32,
)
    requires
        holds_at(buf, 4, seq![0x4cu8, 0x5a, 0x58, 0x43]),
        field32(buf, 8, version),
        field32(buf, 0x0c, interval),
        field32(buf, 0x10, window),
        field32(buf, 0x14, windows_per_reset),
    ensures
        ({
            let unit = if version == 2 {
                0x8000int
            } else {
                1
            };
            control_data(buf) == if windows_per_reset > 0 && interval * unit <= 0xffff_ffff
                && window * unit <= 0xffff_ffff && fitting(interval * unit, window * unit) {
                Ok(
                    LzxcControlData {
                        reset_interval: (interval * unit) as u32,
                        window_size: (window * unit) as u32,
                        windows_per_reset,
                    },
                )
            } else {
                Err(Fault::BadLzxc)
            }
        }),
{
    lemma_field32(buf, 8, version);
    lemma_field32(buf, 0x0c, interval);
    lemma_field32(buf, 0x10, window);
    lemma_field32(buf, 0x14, windows_per_reset);
    let sig = crate::format::SIG_LZXC@;
    assert(sig =~= seq![0x4cu8, 0x5a, 0x58, 0x43]);
    lemma_signature(buf, 4, sig);
    let w = crate::format::control_len(version as nat, window as nat) as int;
    let r = crate::format::control_len(version as nat, interval as nat) as int;
    lemma_larger_powers(w);
    if version == 2 {
        if window as int * 0x8000 > 0xffff_ffff {
            assert(w == 0xffff_ffff);
        } else {
            assert(w == window * 0x8000);
            if interval as int * 0x8000 > 0xffff_ffff && w > 0 {
                assert(r == 0xffff_ffff);
                let half = w / 2;
                assert(half == 0x4000 * window);
                if r % half == 0 {
                    vstd::arithmetic::div_mod::lemma_fundamental_div_mod(r, half);
                    let q = r / half;
                    assert(half * q == 2 * (0x2000 * window * q)) by (nonlinear_arith)
                        requires
                            half == 0x4000 * window,
                    ;
                }
            }
        }
    }
}

/// A header without its signature, or cut off before its last field, is refused.
pub proof fn lemma_foreign_headers(buf: Seq<u8>)
    ensures
        !holds_at(buf, 0, seq![0x49u8, 0x54, 0x53, 0x46]) || buf.len() < 0x58 ==> itsf_header(buf)
            == Err::<ItsfHeader, _>(Fault::BadItsf),
        !holds_at(buf, 0, seq![0x49u8, 0x54, 0x53, 0x50]) || buf.len() < 0x54 ==> itsp_header(buf)
            == Err::<ItspHeader, _>(Fault::BadItsp),
        !holds_at(buf, 0, seq![0x50u8, 0x4d, 0x47, 0x4c]) || buf.len() < 0x14 ==> pmgl_header(buf)
            == Err::<PmglHeader, _>(Fault::BadPmgl),
        !holds_at(buf, 0, seq![0x50u8, 0x4d, 0x47, 0x49]) || buf.len() < 8 ==> pmgi_header(buf)
            == Err::<PmgiHeader, _>(Fault::BadPmgi),
        !holds_at(buf, 4, seq![0x4cu8, 0x5a, 0x58, 0x43]) || buf.len() < 0x18 ==> control_data(buf)
            == Err::<LzxcControlData, _>(Fault::BadLzxc),
        buf.len() < 0x28 ==> reset_table(buf) == Err::<LzxcResetTable, _>(Fault::BadResetTable),
        field32(buf, 4, 3) && buf.len() < 0x60 ==> itsf_header(buf) == Err::<ItsfHeader, _>(
            Fault::BadItsf,
        ),
{
    let itsf = crate::format::SIG_ITSF@;
    assert(itsf =~= seq![0x49u8, 0x54, 0x53, 0x46]);
    lemma_signature(buf, 0, itsf);
    let itsp = crate::format::SIG_ITSP@;
    assert(itsp =~= seq![0x49u8, 0x54, 0x53, 0x50]);
    lemma_signature(buf, 0, itsp);
    let pmgl = crate::format::SIG_PMGL@;
    assert(pmgl =~= seq![0x50u8, 0x4d, 0x47, 0x4c]);
    lemma_signature(buf, 0, pmgl);
    let pmgi = crate::format::SIG_PMGI@;
    assert(pmgi =~= seq![0x50u8, 0x4d, 0x47, 0x49]);
    lemma_signature(buf, 0, pmgi);
    let lzxc = crate::format::SIG_LZXC@;
    assert(lzxc =~= seq![0x4cu8, 0x5a, 0x58, 0x43]);
    lemma_signature(buf, 4, lzxc);
    if field32(buf, 4, 3) {
        lemma_field32(buf, 4, 3);
    }
}

} // verus!
