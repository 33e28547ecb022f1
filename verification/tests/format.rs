use libchm::error::ChmError;
use libchm::format::{
    exact_log2, parse_cword, parse_itsf, parse_itsp, parse_lzxc_control_data,
    parse_lzxc_reset_table, parse_pmgi, parse_pmgi_entry, parse_pmgl, parse_pmgl_entry, BlockKind,
    ITSF_V2_LEN, ITSF_V3_LEN, ITSP_V1_LEN, LZXC_MIN_LEN, LZXC_RESET_TABLE_LEN, MAX_BLOCK_LEN,
    PMGL_HEADER_LEN,
};

const PMGL: BlockKind = BlockKind::Pmgl;

fn itsf_v3() -> Vec<u8> {
    let mut buf = vec![0u8; ITSF_V3_LEN];
    buf[0..4].copy_from_slice(b"ITSF");
    buf[4..8].copy_from_slice(&3u32.to_le_bytes());
    buf[8..12].copy_from_slice(&(ITSF_V3_LEN as u32).to_le_bytes());
    buf[0x48..0x50].copy_from_slice(&0x1000u64.to_le_bytes());
    buf[0x50..0x58].copy_from_slice(&0x2000u64.to_le_bytes());
    buf[0x58..0x60].copy_from_slice(&0x4000u64.to_le_bytes());
    buf
}

fn itsp_v1() -> Vec<u8> {
    let mut buf = vec![0u8; ITSP_V1_LEN];
    buf[0..4].copy_from_slice(b"ITSP");
    buf[4..8].copy_from_slice(&1u32.to_le_bytes());
    buf[8..12].copy_from_slice(&(ITSP_V1_LEN as u32).to_le_bytes());
    buf[0x10..0x14].copy_from_slice(&0x1000u32.to_le_bytes());
    buf[0x1c..0x20].copy_from_slice(&1i32.to_le_bytes());
    buf[0x20..0x24].copy_from_slice(&0i32.to_le_bytes());
    buf
}

fn lzxc_control(version: u32, reset_interval: u32, window_size: u32, wpr: u32) -> Vec<u8> {
    let mut buf = vec![0u8; LZXC_MIN_LEN];
    buf[4..8].copy_from_slice(b"LZXC");
    buf[8..12].copy_from_slice(&version.to_le_bytes());
    buf[0x0c..0x10].copy_from_slice(&reset_interval.to_le_bytes());
    buf[0x10..0x14].copy_from_slice(&window_size.to_le_bytes());
    buf[0x14..0x18].copy_from_slice(&wpr.to_le_bytes());
    buf
}

fn reset_table(block_count: u32, block_len: u64) -> Vec<u8> {
    let mut buf = vec![0u8; LZXC_RESET_TABLE_LEN];
    buf[0..4].copy_from_slice(&2u32.to_le_bytes());
    buf[4..8].copy_from_slice(&block_count.to_le_bytes());
    buf[0x0c..0x10].copy_from_slice(&0x28u32.to_le_bytes());
    buf[0x18..0x20].copy_from_slice(&0x1234u64.to_le_bytes());
    buf[0x20..0x28].copy_from_slice(&block_len.to_le_bytes());
    buf
}

#[test]
fn cword_single_byte() {
    assert_eq!(parse_cword(&[0x42], 0, PMGL).unwrap(), (0x42, 1));
}

#[test]
fn cword_two_bytes() {
    assert_eq!(parse_cword(&[0x81, 0x00], 0, PMGL).unwrap(), (128, 2));
}

#[test]
fn cword_zero() {
    assert_eq!(parse_cword(&[0x00], 0, PMGL).unwrap(), (0, 1));
}

#[test]
fn cword_respects_start_offset() {
    assert_eq!(parse_cword(&[0xff, 0xff, 0x7f], 2, PMGL).unwrap(), (0x7f, 3));
}

#[test]
fn cword_unterminated_is_malformed() {
    // Every byte has the continuation bit set, so the value never ends.
    assert!(matches!(parse_cword(&[0x80, 0x80], 0, PMGL), Err(ChmError::BadPmgl)));
    assert!(matches!(parse_cword(&[0x80, 0x80], 0, BlockKind::Pmgi), Err(ChmError::BadPmgi)));
}

#[test]
fn cword_overlong_run_does_not_silently_wrap() {
    // Ten continuation bytes would shift the accumulator past 64 bits.
    let buf = [0xffu8; 16];
    assert!(matches!(parse_cword(&buf, 0, PMGL), Err(ChmError::Overflow)));
}

#[test]
fn cword_reaches_the_largest_number() {
    let mut buf = vec![0x81u8];
    buf.extend_from_slice(&[0xff; 8]);
    buf.push(0x7f);
    assert_eq!(parse_cword(&buf, 0, PMGL).unwrap(), (u64::MAX, 10));
    buf[0] = 0x82;
    assert!(matches!(parse_cword(&buf, 0, PMGL), Err(ChmError::Overflow)));
}

#[test]
fn cword_past_the_end_is_malformed() {
    assert!(matches!(parse_cword(&[0x01], 1, PMGL), Err(ChmError::BadPmgl)));
    assert!(matches!(parse_cword(&[0x01], 7, BlockKind::Pmgi), Err(ChmError::BadPmgi)));
}

#[test]
fn itsf_v3_uses_explicit_content_offset() {
    let itsf = parse_itsf(&itsf_v3()).unwrap();
    assert_eq!(itsf.dir_offset, 0x1000);
    assert_eq!(itsf.data_offset, 0x4000);
}

#[test]
fn itsf_v2_derives_content_offset_from_directory() {
    let mut buf = itsf_v3();
    buf[4..8].copy_from_slice(&2u32.to_le_bytes());
    buf[8..12].copy_from_slice(&(ITSF_V2_LEN as u32).to_le_bytes());
    let itsf = parse_itsf(&buf).unwrap();
    assert_eq!(itsf.data_offset, 0x1000 + 0x2000);
}

#[test]
fn itsf_v2_rejects_overflowing_content_offset() {
    let mut buf = itsf_v3();
    buf[4..8].copy_from_slice(&2u32.to_le_bytes());
    buf[8..12].copy_from_slice(&(ITSF_V2_LEN as u32).to_le_bytes());
    buf[0x48..0x50].copy_from_slice(&u64::MAX.to_le_bytes());
    buf[0x50..0x58].copy_from_slice(&1u64.to_le_bytes());
    assert!(matches!(parse_itsf(&buf), Err(ChmError::Overflow)));
}

#[test]
fn itsf_rejects_bad_signature_version_and_short_buffer() {
    let mut bad_sig = itsf_v3();
    bad_sig[0] = b'X';
    assert!(matches!(parse_itsf(&bad_sig), Err(ChmError::BadItsf)));
    let mut bad_ver = itsf_v3();
    bad_ver[4..8].copy_from_slice(&4u32.to_le_bytes());
    assert!(matches!(parse_itsf(&bad_ver), Err(ChmError::BadItsf)));
    assert!(matches!(parse_itsf(&itsf_v3()[..ITSF_V2_LEN - 1]), Err(ChmError::BadItsf)));
}

#[test]
fn itsf_v3_needs_its_whole_header() {
    // Long enough for version 2, but the header claims to be version 3.
    assert!(matches!(parse_itsf(&itsf_v3()[..ITSF_V2_LEN]), Err(ChmError::BadItsf)));
    let mut short = itsf_v3();
    short[8..12].copy_from_slice(&(ITSF_V2_LEN as u32).to_le_bytes());
    assert!(matches!(parse_itsf(&short), Err(ChmError::BadItsf)));
}

#[test]
fn itsp_reads_block_geometry() {
    let itsp = parse_itsp(&itsp_v1()).unwrap();
    assert_eq!(itsp.block_len, 0x1000);
    assert_eq!(itsp.index_root, 1);
    assert_eq!(itsp.index_head, 0);
    assert_eq!(itsp.header_len, ITSP_V1_LEN as u32);
}

#[test]
fn itsp_rejects_absurd_block_len() {
    let mut too_small = itsp_v1();
    too_small[0x10..0x14].copy_from_slice(&0u32.to_le_bytes());
    assert!(matches!(parse_itsp(&too_small), Err(ChmError::BadItsp)));
    let mut too_big = itsp_v1();
    too_big[0x10..0x14].copy_from_slice(&(MAX_BLOCK_LEN + 1).to_le_bytes());
    assert!(matches!(parse_itsp(&too_big), Err(ChmError::BadItsp)));
}

#[test]
fn itsp_rejects_other_headers() {
    let mut bad_sig = itsp_v1();
    bad_sig[3] = b'F';
    assert!(matches!(parse_itsp(&bad_sig), Err(ChmError::BadItsp)));
    let mut bad_ver = itsp_v1();
    bad_ver[4] = 2;
    assert!(matches!(parse_itsp(&bad_ver), Err(ChmError::BadItsp)));
    let mut bad_len = itsp_v1();
    bad_len[8] = 0x55;
    assert!(matches!(parse_itsp(&bad_len), Err(ChmError::BadItsp)));
    assert!(matches!(parse_itsp(&itsp_v1()[..ITSP_V1_LEN - 1]), Err(ChmError::BadItsp)));
}

#[test]
fn itsp_block_indices_are_signed() {
    let mut buf = itsp_v1();
    buf[0x1c..0x20].copy_from_slice(&(-1i32).to_le_bytes());
    assert_eq!(parse_itsp(&buf).unwrap().index_root, -1);
}

#[test]
fn lzxc_v2_scales_fields_by_frame_size() {
    let ctl = parse_lzxc_control_data(&lzxc_control(2, 2, 2, 1)).unwrap();
    assert_eq!(ctl.reset_interval, 0x10000);
    assert_eq!(ctl.window_size, 0x10000);
    assert_eq!(ctl.windows_per_reset, 1);
}

#[test]
fn lzxc_v2_fields_saturate() {
    // 0x20000 units of 0x8000 bytes do not fit in 32 bits, and what stands for them is no
    // power of two.
    let buf = lzxc_control(2, 2, 0x2_0000, 1);
    assert!(matches!(parse_lzxc_control_data(&buf), Err(ChmError::BadLzxc)));
    // A reset interval that saturates is odd, so no half window divides it.
    let buf = lzxc_control(2, 0x2_0000, 2, 1);
    assert!(matches!(parse_lzxc_control_data(&buf), Err(ChmError::BadLzxc)));
}

#[test]
fn lzxc_rejects_non_power_of_two_window() {
    assert!(matches!(parse_lzxc_control_data(&lzxc_control(1, 0x8000, 0xc000, 1)), Err(ChmError::BadLzxc)));
}

#[test]
fn lzxc_rejects_zero_fields() {
    assert!(matches!(parse_lzxc_control_data(&lzxc_control(1, 0, 0x10000, 1)), Err(ChmError::BadLzxc)));
    assert!(matches!(parse_lzxc_control_data(&lzxc_control(1, 0x8000, 0, 1)), Err(ChmError::BadLzxc)));
    assert!(matches!(parse_lzxc_control_data(&lzxc_control(1, 0x8000, 0x10000, 0)), Err(ChmError::BadLzxc)));
}

#[test]
fn lzxc_rejects_a_window_of_one_byte() {
    assert!(matches!(parse_lzxc_control_data(&lzxc_control(1, 0x8000, 1, 1)), Err(ChmError::BadLzxc)));
}

#[test]
fn lzxc_rejects_bad_signature_and_short_buffer() {
    let mut buf = lzxc_control(1, 0x8000, 0x10000, 1);
    assert!(parse_lzxc_control_data(&buf).is_ok());
    buf[4] = b'X';
    assert!(matches!(parse_lzxc_control_data(&buf), Err(ChmError::BadLzxc)));
    assert!(matches!(parse_lzxc_control_data(&buf[..LZXC_MIN_LEN - 1]), Err(ChmError::BadLzxc)));
}

#[test]
fn lzxc_reset_interval_must_divide_half_window() {
    // 0x9000 is not a multiple of 0x10000 / 2, which would give a zero reset count.
    assert!(matches!(parse_lzxc_control_data(&lzxc_control(1, 0x9000, 0x10000, 1)), Err(ChmError::BadLzxc)));
}

#[test]
fn logarithm_of_powers_of_two_only() {
    assert_eq!(exact_log2(1), Some(0));
    assert_eq!(exact_log2(0x8000), Some(15));
    assert_eq!(exact_log2(0x8000_0000), Some(31));
    assert_eq!(exact_log2(0), None);
    assert_eq!(exact_log2(0xc000), None);
    assert_eq!(exact_log2(u32::MAX), None);
}

#[test]
fn reset_table_rejects_zero_block_len_and_count() {
    assert!(matches!(parse_lzxc_reset_table(&reset_table(4, 0)), Err(ChmError::BadResetTable)));
    assert!(matches!(parse_lzxc_reset_table(&reset_table(0, 0x8000)), Err(ChmError::BadResetTable)));
    let ok = parse_lzxc_reset_table(&reset_table(4, 0x8000)).unwrap();
    assert_eq!(ok.block_count, 4);
    assert_eq!(ok.block_len, 0x8000);
    assert_eq!(ok.compressed_len, 0x1234);
}

#[test]
fn reset_table_rejects_other_versions_and_short_buffer() {
    let mut buf = reset_table(4, 0x8000);
    assert_eq!(parse_lzxc_reset_table(&buf).unwrap().table_offset, 0x28);
    buf[0] = 3;
    assert!(matches!(parse_lzxc_reset_table(&buf), Err(ChmError::BadResetTable)));
    buf[0] = 2;
    assert!(matches!(parse_lzxc_reset_table(&buf[..0x27]), Err(ChmError::BadResetTable)));
}

#[test]
fn pmgl_entry_round_trips() {
    // "/a.htm" in space 0 at offset 0x10, length 0x200.
    let mut buf = vec![6u8];
    buf.extend_from_slice(b"/a.htm");
    buf.extend_from_slice(&[0x00, 0x10, 0x82, 0x00]);
    let (entry, pos) = parse_pmgl_entry(&buf, 0).unwrap();
    assert_eq!(entry.path, "/a.htm");
    assert_eq!(entry.space, 0);
    assert_eq!(entry.start, 0x10);
    assert_eq!(entry.length, 0x100);
    assert_eq!(pos, buf.len());
}

#[test]
fn pmgl_entry_paths_are_utf8() {
    let mut buf = vec![7u8];
    buf.extend_from_slice("/\u{e9}\u{20ac}x".as_bytes());
    buf.extend_from_slice(&[0x01, 0x02, 0x03]);
    let (entry, pos) = parse_pmgl_entry(&buf, 0).unwrap();
    assert_eq!(entry.path, "/\u{e9}\u{20ac}x");
    assert_eq!((entry.space, entry.start, entry.length), (1, 2, 3));
    assert_eq!(pos, buf.len());
}

#[test]
fn pmgl_entry_rejects_path_running_past_block() {
    let mut buf = vec![32u8];
    buf.extend_from_slice(b"short");
    assert!(matches!(parse_pmgl_entry(&buf, 0), Err(ChmError::BadPmgl)));
}

#[test]
fn pmgl_entry_rejects_oversized_path() {
    // Cword 0x8404 == 516, just past MAX_PATH_LEN.
    let buf = [0x84u8, 0x04];
    assert!(matches!(parse_pmgl_entry(&buf, 0), Err(ChmError::PathTooLong)));
}

#[test]
fn pmgl_entry_rejects_non_utf8_path() {
    let buf = [2u8, 0xff, 0xfe, 0x00, 0x00, 0x00];
    assert!(matches!(parse_pmgl_entry(&buf, 0), Err(ChmError::Utf8(_))));
}

#[test]
fn pmgl_entry_rejects_a_space_beyond_one_byte() {
    let buf = [1u8, b'/', 0x82, 0x00, 0x00, 0x00];
    assert!(matches!(parse_pmgl_entry(&buf, 0), Err(ChmError::BadPmgl)));
}

#[test]
fn pmgi_entry_round_trips() {
    let mut buf = vec![3u8];
    buf.extend_from_slice(b"/a/");
    buf.push(0x05);
    let (key, child, pos) = parse_pmgi_entry(&buf, 0).unwrap();
    assert_eq!(key, "/a/");
    assert_eq!(child, 5);
    assert_eq!(pos, buf.len());
}

#[test]
fn pmgi_entry_rejects_a_child_beyond_the_index_range() {
    // 2^31 as a cword.
    let buf = [1u8, b'/', 0x88, 0x80, 0x80, 0x80, 0x00];
    assert!(matches!(parse_pmgi_entry(&buf, 0), Err(ChmError::Overflow)));
    assert!(matches!(parse_pmgi_entry(&[1u8, b'/'], 0), Err(ChmError::BadPmgi)));
}

#[test]
fn pmgl_and_pmgi_headers_check_signatures() {
    let mut block = vec![0u8; PMGL_HEADER_LEN];
    block[0..4].copy_from_slice(b"PMGL");
    block[4..8].copy_from_slice(&0x40u32.to_le_bytes());
    block[0x10..0x14].copy_from_slice(&(-1i32).to_le_bytes());
    let header = parse_pmgl(&block).unwrap();
    assert_eq!(header.free_space, 0x40);
    assert_eq!(header.block_next, -1);
    assert!(matches!(parse_pmgi(&block), Err(ChmError::BadPmgi)));
    assert!(matches!(parse_pmgl(&block[..PMGL_HEADER_LEN - 1]), Err(ChmError::BadPmgl)));
}

#[test]
fn pmgi_header_reads_free_space() {
    let mut block = vec![0u8; 8];
    block[0..4].copy_from_slice(b"PMGI");
    block[4..8].copy_from_slice(&7u32.to_le_bytes());
    assert_eq!(parse_pmgi(&block).unwrap().free_space, 7);
    assert!(matches!(parse_pmgi(&block[..7]), Err(ChmError::BadPmgi)));
}
