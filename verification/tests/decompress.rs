use libchm::archive::{
    control_entry, header_read_len, open_directory, Archive, Loading, ReadPlan, Span, PATH_CONTENT,
    PATH_CONTROL_DATA, PATH_RESET_TABLE,
};
use libchm::decompress::{BlockCache, Decompressor, Layout, CACHE_SLOTS};
use libchm::directory::Directory;
use libchm::entry::Entry;
use libchm::error::{ChmError, LzxError};
use libchm::format::{
    ItsfHeader, ItspHeader, LzxcControlData, LzxcResetTable, PmglEntry,
};

#[test]
fn cache_maps_blocks_to_slots_by_modulus() {
    let mut cache = BlockCache::new();
    cache.insert(0, vec![1, 2, 3]);
    assert_eq!(cache.get(0), Some(&[1u8, 2, 3][..]));
    assert!(cache.contains(0));
    assert!(!cache.contains(1));
}

#[test]
fn cache_entry_is_evicted_by_a_colliding_block() {
    let mut cache = BlockCache::new();
    cache.insert(1, vec![1]);
    // 1 and 1 + CACHE_SLOTS share a slot, so the newer block wins.
    cache.insert(1 + CACHE_SLOTS as u64, vec![2]);
    assert!(!cache.contains(1));
    assert_eq!(cache.get(1 + CACHE_SLOTS as u64), Some(&[2u8][..]));
}

#[test]
fn cache_holds_distinct_slots_simultaneously() {
    let mut cache = BlockCache::new();
    for i in 0..CACHE_SLOTS as u64 {
        cache.insert(i, vec![i as u8]);
    }
    for i in 0..CACHE_SLOTS as u64 {
        assert_eq!(cache.get(i), Some(&[i as u8][..]));
    }
}

const BLOCK_LEN: usize = 16;
const CN_START: u64 = 0x100;

/// A frame with one uncompressed block: no executable size, block type 3 and the length in
/// the first 28 bits, then the offset registers.
fn stored(data: &[u8], opens: bool) -> Vec<u8> {
    let len = data.len() as u32;
    // Only the frame that opens a stream has the header bit.
    let head: u32 = if opens { (3 << 28) | (len << 4) } else { (3 << 29) | (len << 5) };
    let mut bytes = Vec::new();
    bytes.extend_from_slice(&((head >> 16) as u16).to_le_bytes());
    bytes.extend_from_slice(&(head as u16).to_le_bytes());
    for _ in 0..3 {
        bytes.extend_from_slice(&1u32.to_le_bytes());
    }
    bytes.extend_from_slice(data);
    bytes
}

fn plain(blocks: usize) -> Vec<u8> {
    (0..blocks * BLOCK_LEN).map(|i| (i * 7 % 251) as u8).collect()
}

fn control() -> LzxcControlData {
    // One window per reset, and a reset every two blocks.
    LzxcControlData { reset_interval: 0x8000, window_size: 0x8000, windows_per_reset: 1 }
}

/// The compressed stream of `plain(blocks)` and its table of offsets.
fn compressed(blocks: usize) -> (Vec<u8>, Vec<u8>) {
    let bytes = plain(blocks);
    let mut stream = Vec::new();
    let mut table = Vec::new();
    for b in 0..blocks {
        table.extend_from_slice(&(stream.len() as u64).to_le_bytes());
        stream.extend_from_slice(&stored(&bytes[b * BLOCK_LEN..(b + 1) * BLOCK_LEN], b % 2 == 0));
    }
    (stream, table)
}

fn reset_table(blocks: usize, compressed_len: u64) -> LzxcResetTable {
    LzxcResetTable { block_count: blocks as u32, table_offset: 0x28, compressed_len, block_len: BLOCK_LEN as u64 }
}

fn plan(blocks: usize, compressed_len: u64, file_len: u64) -> Result<Layout, ChmError> {
    let rt_len = 0x28 + 8 * blocks as u64;
    Decompressor::plan(0x80, CN_START - 0x80, 0x10, rt_len, &reset_table(blocks, compressed_len), &control(), file_len)
}

fn section(blocks: usize) -> (Decompressor, Vec<u8>) {
    let (stream, table) = compressed(blocks);
    let layout = plan(blocks, stream.len() as u64, CN_START + stream.len() as u64).unwrap();
    assert_eq!(layout.reset_blkcount, 2);
    assert_eq!(layout.table_at, 0x80 + 0x10 + 0x28);
    assert_eq!(layout.table_len, table.len());
    (Decompressor::new(&layout, &table).unwrap(), stream)
}

#[test]
fn reads_any_range_of_the_section() {
    let (mut d, stream) = section(6);
    let bytes = plain(6);
    assert_eq!(d.uncompressed_len(), 96);
    assert_eq!(d.read(&stream, 0, 96).unwrap(), bytes);
    assert_eq!(d.read(&stream, 20, 30).unwrap(), &bytes[20..50]);
    assert_eq!(d.read(&stream, 95, 1).unwrap(), &bytes[95..]);
    assert_eq!(d.read(&stream, 50, 0).unwrap(), b"");
}

#[test]
fn what_was_read_before_does_not_show() {
    let bytes = plain(12);
    let orders: [&[(u64, u64)]; 3] = [
        &[(170, 20), (0, 5), (160, 32), (64, 17)],
        &[(1, 1), (33, 1), (17, 1), (191, 1)],
        &[(80, 100), (80, 100), (0, 192)],
    ];
    for order in orders {
        let (mut d, stream) = section(12);
        for (start, len) in order {
            let expected = &bytes[*start as usize..(*start + *len) as usize];
            assert_eq!(d.read(&stream, *start, *len).unwrap(), expected);
        }
    }
}

#[test]
fn reading_by_steps_asks_for_one_block_at_a_time() {
    let (mut d, stream) = section(4);
    let bytes = plain(4);
    // Bytes 40..60 lie in blocks 2 and 3, and block 2 opens a reset window.
    let mut reading = d.begin_read(40, 20).unwrap();
    let mut asked = Vec::new();
    while let Some(demand) = d.advance(&mut reading).unwrap() {
        asked.push(demand.block);
        let from = (demand.offset - CN_START) as usize;
        d.supply(demand.block, &stream[from..from + demand.len]).unwrap();
    }
    assert_eq!(asked, [2, 3]);
    assert_eq!(reading.bytes, &bytes[40..60]);
    // Block 1 is behind the reset point that block 0 is, so that comes first.
    let mut reading = d.begin_read(16, 1).unwrap();
    assert_eq!(d.advance(&mut reading).unwrap().unwrap().block, 0);
}

#[test]
fn reads_outside_the_section_are_refused() {
    let (mut d, stream) = section(2);
    assert!(matches!(d.read(&stream, 0, 33), Err(ChmError::BadResetTable)));
    assert!(matches!(d.read(&stream, 33, 0), Err(ChmError::BadResetTable)));
    assert!(matches!(d.read(&stream, u64::MAX, 1), Err(ChmError::Overflow)));
}

#[test]
fn a_block_that_does_not_decode_is_reported() {
    let (mut d, mut stream) = section(4);
    // Block 2 claims a block type that does not exist.
    stream[2 * (BLOCK_LEN + 16) + 1] = 0;
    assert!(matches!(d.read(&stream, 32, 4), Err(ChmError::Lzx(LzxError::IllegalData))));
    // The other reset window is not affected.
    assert_eq!(d.read(&stream, 0, 32).unwrap(), &plain(2)[..]);
}

#[test]
fn a_failed_read_does_not_show_in_later_ones() {
    let (mut d, mut stream) = section(4);
    stream[2 * (BLOCK_LEN + 16) + 1] = 0;
    // Block 0 is decoded, and block 2 fails before block 1 is asked for.
    assert_eq!(d.read(&stream, 0, 16).unwrap(), &plain(1)[..]);
    assert!(matches!(d.read(&stream, 32, 4), Err(ChmError::Lzx(LzxError::IllegalData))));
    assert_eq!(d.read(&stream, 16, 16).unwrap(), &plain(2)[16..]);
    // The block that failed still does, and so does the one behind it in its window.
    assert!(matches!(d.read(&stream, 32, 4), Err(ChmError::Lzx(LzxError::IllegalData))));
    assert!(matches!(d.read(&stream, 48, 4), Err(ChmError::Lzx(LzxError::IllegalData))));
}

#[test]
fn a_section_must_lie_in_the_file() {
    assert!(plan(2, 64, CN_START + 64).is_ok());
    assert!(matches!(plan(2, 64, CN_START + 63), Err(ChmError::BadResetTable)));
    assert!(matches!(plan(2, u64::MAX, u64::MAX), Err(ChmError::Overflow)));
}

#[test]
fn the_table_of_offsets_must_lie_in_the_file() {
    // The table takes up the bytes 0xb8..0xb8 + 800, whatever the length its entry claims.
    assert!(plan(100, 10, 0xb8 + 800).is_ok());
    assert!(matches!(plan(100, 10, 0xb8 + 799), Err(ChmError::BadResetTable)));
}

#[test]
fn a_layout_must_hold_together() {
    let ctl = control();
    let mut table = reset_table(2, 64);
    let file_len = 0x1000;
    let rt_len = 0x28 + 16;
    let plan = |t: &LzxcResetTable, data: u64, cn: u64, rt: u64, rt_len: u64| {
        Decompressor::plan(data, cn, rt, rt_len, t, &ctl, file_len)
    };
    assert!(plan(&table, 0, 0, 0, rt_len).is_ok());
    assert!(matches!(plan(&table, 0, 0, 0, rt_len - 1), Err(ChmError::BadResetTable)));
    assert!(matches!(plan(&table, u64::MAX, 1, 0, rt_len), Err(ChmError::Overflow)));
    assert!(matches!(plan(&table, 1, 0, u64::MAX, rt_len), Err(ChmError::Overflow)));
    assert!(matches!(plan(&table, 0, 0, u64::MAX - 8, rt_len), Err(ChmError::Overflow)));
    table.block_len = 0x8001;
    assert!(matches!(plan(&table, 0, 0, 0, rt_len), Err(ChmError::BadResetTable)));
}

#[test]
fn block_offsets_must_not_decrease() {
    let layout = plan(2, 64, 0x1000).unwrap();
    let mut table = Vec::new();
    table.extend_from_slice(&8u64.to_le_bytes());
    table.extend_from_slice(&7u64.to_le_bytes());
    assert!(matches!(Decompressor::new(&layout, &table), Err(ChmError::BadResetTable)));
    table[8] = 65;
    // The last block would start behind the end of the stream.
    assert!(matches!(Decompressor::new(&layout, &table), Err(ChmError::BadResetTable)));
    table[8] = 64;
    assert!(Decompressor::new(&layout, &table).is_ok());
}

#[test]
fn a_window_out_of_range_is_reported() {
    let ctl = LzxcControlData { reset_interval: 0x2000, window_size: 0x4000, windows_per_reset: 3 };
    let layout = Decompressor::plan(0, 0, 0, 0x38, &reset_table(2, 0), &ctl, 0x1000).unwrap();
    assert_eq!(layout.reset_blkcount, 3);
    let result = Decompressor::new(&layout, &[0; 16]);
    assert!(matches!(result, Err(ChmError::Lzx(LzxError::InvalidWindow(14)))));
}

fn entry(space: u8, start: u64, length: u64) -> Entry {
    Entry::from_pmgl(PmglEntry { path: "/x".to_owned(), space, start, length })
}

fn le(buf: &mut [u8], at: usize, bytes: &[u8]) {
    buf[at..at + bytes.len()].copy_from_slice(bytes);
}

#[test]
fn loading_asks_for_each_control_structure_in_turn() {
    let (stream, table) = compressed(4);
    let file_len = CN_START + stream.len() as u64;
    let mut header = vec![0u8; 0x28];
    le(&mut header, 0, &2u32.to_le_bytes());
    le(&mut header, 4, &4u32.to_le_bytes());
    le(&mut header, 0x0c, &0x28u32.to_le_bytes());
    le(&mut header, 0x18, &(stream.len() as u64).to_le_bytes());
    le(&mut header, 0x20, &(BLOCK_LEN as u64).to_le_bytes());
    let mut ctl = vec![0u8; 0x18];
    le(&mut ctl, 4, b"LZXC");
    le(&mut ctl, 8, &2u32.to_le_bytes());
    le(&mut ctl, 0x0c, &1u32.to_le_bytes());
    le(&mut ctl, 0x10, &1u32.to_le_bytes());
    le(&mut ctl, 0x14, &1u32.to_le_bytes());
    let rt = Some(entry(0, 0x10, 0x28 + 32));
    let cn = Some(entry(0, CN_START - 0x80, stream.len() as u64));
    let lzxc = Some(entry(0, 0x60, 0x1c));
    let loading = Loading::begin(0x80, &rt, &cn, &lzxc).unwrap();
    assert_eq!(loading.span(), Some(Span { offset: 0x90, len: 0x28 }));
    let loading = loading.step(&header, file_len).unwrap();
    assert_eq!(loading.span(), Some(Span { offset: 0xe0, len: 0x18 }));
    let loading = loading.step(&ctl, file_len).unwrap();
    assert_eq!(loading.span(), Some(Span { offset: 0x90 + 0x28, len: 32 }));
    let loading = loading.step(&table, file_len).unwrap();
    assert_eq!(loading.span(), None);
    match loading {
        Loading::Ready { mut decompressor } => {
            assert_eq!(decompressor.read(&stream, 10, 40).unwrap(), &plain(4)[10..50]);
        }
        _ => panic!("the section was not loaded"),
    }
}

#[test]
fn a_section_that_is_not_described_is_absent() {
    let full = || Some(entry(0, 0, 0x100));
    assert!(matches!(Loading::begin(0, &full(), &full(), &None), Ok(Loading::Absent)));
    assert!(matches!(Loading::begin(0, &None, &full(), &full()), Ok(Loading::Absent)));
    assert!(matches!(Loading::begin(0, &Some(entry(0, 0, 0x27)), &full(), &full()), Ok(Loading::Absent)));
    assert!(matches!(Loading::begin(0, &full(), &full(), &Some(entry(0, 0, 0x17))), Ok(Loading::Absent)));
    assert!(matches!(Loading::begin(1, &Some(entry(0, u64::MAX, 0x28)), &full(), &full()), Err(ChmError::Overflow)));
    // Bytes that are no reset table.
    let loading = Loading::begin(0, &full(), &full(), &full()).unwrap();
    assert!(matches!(loading.step(&[0; 0x28], 0x1000), Ok(Loading::Absent)));
}

#[test]
fn control_entries_must_be_stored_uncompressed() {
    assert_eq!(control_entry(Ok(entry(0, 1, 2))).unwrap(), Some(entry(0, 1, 2)));
    assert_eq!(control_entry(Ok(entry(1, 1, 2))).unwrap(), None);
    assert_eq!(control_entry(Err(ChmError::NotFound("/x".to_owned()))).unwrap(), None);
    assert!(matches!(control_entry(Err(ChmError::BadPmgi)), Err(ChmError::BadPmgi)));
}

#[test]
fn control_paths_are_the_ones_of_the_format() {
    assert_eq!(PATH_CONTENT, "::DataSpace/Storage/MSCompressed/Content");
    assert_eq!(PATH_CONTROL_DATA, "::DataSpace/Storage/MSCompressed/ControlData");
    let (head, tail) = PATH_RESET_TABLE.split_at(42);
    assert_eq!(head, "::DataSpace/Storage/MSCompressed/Transform");
    assert_eq!(tail, "/{7FC28940-9D31-11D0-9B27-00A0C91E9C7C}/InstanceData/ResetTable");
}

#[test]
fn header_is_read_as_far_as_the_file_goes() {
    assert!(matches!(header_read_len(0x57), Err(ChmError::BadItsf)));
    assert_eq!(header_read_len(0x58).unwrap(), 0x58);
    assert_eq!(header_read_len(0x5f).unwrap(), 0x5f);
    assert_eq!(header_read_len(u64::MAX).unwrap(), 0x60);
}

#[test]
fn directory_offset_must_not_overflow() {
    let itsp = ItspHeader { block_len: 0x1000, index_root: -1, index_head: 3, header_len: 0x54 };
    let dir = open_directory(&ItsfHeader { dir_offset: 0x60, data_offset: 0 }, &itsp).unwrap();
    assert_eq!((dir.dir_offset, dir.block_len, dir.index_root, dir.index_head), (0xb4, 0x1000, 3, 3));
    let far = ItsfHeader { dir_offset: u64::MAX - 0x53, data_offset: 0 };
    assert!(matches!(open_directory(&far, &itsp), Err(ChmError::Overflow)));
}

fn archive(decompressor: Option<Decompressor>) -> Archive {
    let directory = Directory { dir_offset: 0, block_len: 0x1000, index_root: 0, index_head: 0 };
    Archive { file_len: 0x1000, data_offset: 0x100, directory, decompressor }
}

#[test]
fn plain_entries_must_lie_in_the_file() {
    let a = archive(None);
    assert_eq!(a.plan_read(&entry(0, 0x10, 0)).unwrap(), ReadPlan::Empty);
    let span = Span { offset: 0x110, len: 0xef0 };
    assert_eq!(a.plan_read(&entry(0, 0x10, 0xef0)).unwrap(), ReadPlan::Plain { span });
    assert!(matches!(a.plan_read(&entry(0, 0x10, 0xef1)), Err(ChmError::BadPmgl)));
    assert!(matches!(a.plan_read(&entry(0, u64::MAX, 1)), Err(ChmError::Overflow)));
    assert!(matches!(a.plan_read(&entry(0, 0, u64::MAX)), Err(ChmError::Overflow)));
}

#[test]
fn compressed_entries_need_a_section() {
    let without = archive(None);
    assert!(!without.has_compression());
    assert!(matches!(without.plan_read(&entry(1, 0, 5)), Err(ChmError::NoCompression)));
    assert!(matches!(without.plan_read(&entry(1, 0, 0)), Err(ChmError::NoCompression)));
    assert!(matches!(without.plan_read(&entry(2, 0, 0)), Err(ChmError::NoCompression)));
    let with = archive(Some(section(2).0));
    assert!(with.has_compression());
    assert_eq!(with.plan_read(&entry(1, 3, 5)).unwrap(), ReadPlan::Compressed { start: 3, len: 5 });
    assert_eq!(with.plan_read(&entry(1, 3, 0)).unwrap(), ReadPlan::Empty);
    assert!(matches!(with.plan_read(&entry(2, 3, 5)), Err(ChmError::NoCompression)));
}
