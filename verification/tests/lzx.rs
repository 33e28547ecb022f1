use libchm::bits::Bits;
use libchm::e8::E8_TAIL_MARGIN;
use libchm::error::LzxError;
use libchm::huffman::make_decode_table;
use libchm::lens::{read_lens, LZX_LENTABLE_SAFETY};
use libchm::lzx::{LzxState, ALIGNED_TABLE_SIZE, BLOCKTYPE_ALIGNED, BLOCKTYPE_INVALID};
use libchm::matches::{
    copy_match, read_match_offset, Offsets, EXTRA_BITS, LZX_ALIGNED_MAXSYMBOLS,
    LZX_ALIGNED_TABLEBITS, POSITION_BASE,
};

#[test]
fn window_bits_outside_15_to_21_are_rejected() {
    for bits in [0u8, 14, 22, 255] {
        assert!(matches!(LzxState::new(bits), Err(LzxError::InvalidWindow(b)) if b == bits));
    }
}

#[test]
fn window_bits_in_range_are_accepted() {
    for bits in 15..=21u8 {
        let state = LzxState::new(bits).unwrap();
        assert_eq!(state.window_size, 1 << bits);
        assert_eq!(state.window.len(), 1 << bits);
    }
}

#[test]
fn main_elements_follow_the_position_slot_table() {
    // Below 20 bits the slot count is 2 per window bit; 20 and 21 are special-cased.
    assert_eq!(LzxState::new(16).unwrap().main_elements, 256 + 32 * 8);
    assert_eq!(LzxState::new(20).unwrap().main_elements, 256 + 42 * 8);
    assert_eq!(LzxState::new(21).unwrap().main_elements, 256 + 50 * 8);
}

#[test]
fn reset_restores_initial_stream_state() {
    let mut state = LzxState::new(16).unwrap();
    state.window_posn = 0x1234;
    state.offsets = Offsets { r0: 9, r1: 8, r2: 7 };
    state.header_read = true;
    state.intel_started = true;
    state.intel_curpos = 500;
    state.block_type = BLOCKTYPE_ALIGNED;
    state.maintree_len[0] = 5;
    state.length_len[0] = 5;
    state.reset();
    assert_eq!(state.window_posn, 0);
    assert_eq!((state.offsets.r0, state.offsets.r1, state.offsets.r2), (1, 1, 1));
    assert!(!state.header_read);
    assert!(!state.intel_started);
    assert_eq!(state.intel_curpos, 0);
    assert_eq!(state.block_type, BLOCKTYPE_INVALID);
    assert_eq!(state.maintree_len[0], 0);
    assert_eq!(state.length_len[0], 0);
}

#[test]
fn decode_table_rejects_oversubscribed_lengths() {
    // Three one-bit codes cannot fit in a two-entry table.
    let lengths = [1u8, 1, 1];
    let mut table = [0u16; 64];
    assert!(matches!(make_decode_table(3, 4, &lengths, &mut table), Err(LzxError::IllegalData)));
}

#[test]
fn decode_table_rejects_incomplete_lengths() {
    let lengths = [1u8, 2];
    let mut table = [0u16; 64];
    assert!(matches!(make_decode_table(2, 4, &lengths, &mut table), Err(LzxError::IllegalData)));
}

#[test]
fn decode_table_accepts_a_complete_table() {
    // Two one-bit codes exactly fill the table.
    let mut lengths = [0u8; LZX_ALIGNED_MAXSYMBOLS + LZX_LENTABLE_SAFETY];
    lengths[0] = 1;
    lengths[1] = 1;
    let mut table = [0u16; ALIGNED_TABLE_SIZE];
    make_decode_table(LZX_ALIGNED_MAXSYMBOLS, LZX_ALIGNED_TABLEBITS, &lengths, &mut table).unwrap();
    let half = 1 << (LZX_ALIGNED_TABLEBITS - 1);
    assert_eq!(table[0], 0);
    assert_eq!(table[half], 1);
}

#[test]
fn decode_table_accepts_an_all_zero_table() {
    // No symbol is coded at all, which is legal and leaves the table empty.
    let lengths = [0u8; LZX_ALIGNED_MAXSYMBOLS + LZX_LENTABLE_SAFETY];
    let mut table = [0u16; ALIGNED_TABLE_SIZE];
    make_decode_table(LZX_ALIGNED_MAXSYMBOLS, LZX_ALIGNED_TABLEBITS, &lengths, &mut table).unwrap();
}

#[test]
fn canonical_codes_are_read_in_order_of_length_and_symbol() {
    // Lengths 2, 1, 6, 3, 4, 5, 6 give the codes 10, 0, 111110, 110, 1110, 11110, 111111; with
    // four direct bits the longer ones go through the tree.
    let lengths = [2u8, 1, 6, 3, 4, 5, 6];
    let mut table = [0u16; 64];
    make_decode_table(7, 4, &lengths, &mut table).unwrap();
    let codes: [(u32, u32, usize); 7] = [
        (0b10, 2, 0),
        (0b0, 1, 1),
        (0b111110, 6, 2),
        (0b110, 3, 3),
        (0b1110, 4, 4),
        (0b11110, 5, 5),
        (0b111111, 6, 6),
    ];
    for (code, len, symbol) in codes {
        // What follows the code must not matter.
        for fill in [0u32, 0x3ff] {
            let word = ((code << (16 - len)) | (fill & ((1 << (16 - len)) - 1))) as u16;
            let bytes = word.to_le_bytes();
            let mut bits = Bits::new(&bytes);
            assert_eq!(bits.read_huffsym(&table, &lengths, 4, 7).unwrap(), symbol);
            assert_eq!(bits.left, 16 - len);
        }
    }
}

#[test]
fn complete_lengths_are_accepted_whatever_the_table_held() {
    // One code of each length and a second one of the longest fill the code space exactly.
    let mut lengths: Vec<u8> = (1..=16).collect();
    lengths.push(16);
    for held in [0u16, 3, 48] {
        let mut table = vec![held; 64 + 2 * 17];
        make_decode_table(17, 6, &lengths, &mut table).unwrap();
        let bytes = 0xFFFFu16.to_le_bytes();
        let mut bits = Bits::new(&bytes);
        assert_eq!(bits.read_huffsym(&table, &lengths, 6, 17).unwrap(), 16);
    }
    // Without the last code one place stays free.
    let mut table = vec![0u16; 64 + 2 * 17];
    assert!(matches!(
        make_decode_table(16, 6, &lengths[..16], &mut table),
        Err(LzxError::IllegalData)
    ));
    // Where the short codes fill the direct entries, longer ones are not looked at.
    let lengths = [1u8, 1, 6];
    let mut table = vec![0u16; 16 + 2 * 3];
    make_decode_table(3, 4, &lengths, &mut table).unwrap();
}

#[test]
fn decode_table_may_have_direct_entries_only() {
    let mut table = [0xFFFFu16; 4];
    make_decode_table(3, 2, &[1, 2, 2], &mut table).unwrap();
    assert_eq!(table, [0, 0, 1, 2]);
    // A longer code finds no room for a node.
    let mut table = [0xFFFFu16; 4];
    assert!(matches!(
        make_decode_table(4, 2, &[1, 2, 3, 3], &mut table),
        Err(LzxError::IllegalData)
    ));
}

#[test]
fn a_path_out_of_the_table_is_reported() {
    // The last code comes too late: its path goes on through a leaf to what the table held.
    let mut table = [0xFFFFu16; 8];
    assert!(matches!(
        make_decode_table(8, 1, &[0, 0, 0, 2, 2, 2, 2, 3], &mut table),
        Err(LzxError::IllegalData)
    ));
}

#[test]
fn bits_reads_msb_first_across_16_bit_words() {
    // Little-endian word 0xF00F, so the bit buffer holds 1111_0000_0000_1111.
    let mut bits = Bits::new(&[0x0F, 0xF0]);
    assert_eq!(bits.read(4), 0xF);
    assert_eq!(bits.read(8), 0x00);
    assert_eq!(bits.read(4), 0xF);
}

#[test]
fn bits_straddle_words_and_a_lone_last_byte() {
    // The words are 0x1234 and 0x0056, the second one cut short.
    let mut bits = Bits::new(&[0x34, 0x12, 0x56]);
    assert_eq!(bits.read(12), 0x123);
    assert_eq!(bits.read(17), 0x800a);
    assert_eq!(bits.read(3), 0x6);
    assert_eq!(bits.read(16), 0);
}

#[test]
fn bits_pads_with_zeros_past_end_of_input() {
    let mut bits = Bits::new(&[]);
    assert_eq!(bits.read(16), 0);
}

#[test]
fn verbatim_offset_slot_3_consumes_no_bits() {
    let mut bits = Bits::new(&[0xFF, 0xFF]);
    assert_eq!(read_match_offset(&mut bits, 3, None).unwrap(), 1);
    assert_eq!(bits.left, 0, "slot 3 has no extra bits");
}

#[test]
fn verbatim_offset_slot_adds_extra_bits_to_base() {
    // Slot 4 has one extra bit; the top bit of 0xFFFF is set, so it reads as 1.
    let mut bits = Bits::new(&[0xFF, 0xFF]);
    assert_eq!(read_match_offset(&mut bits, 4, None).unwrap(), POSITION_BASE[4] - 2 + 1);
}

#[test]
fn aligned_offset_takes_its_low_bits_from_the_tree() {
    // Slot 8 has three extra bits, slot 10 has four; the tree codes 5 as 0 and 6 as 1.
    let mut lengths = [0u8; LZX_ALIGNED_MAXSYMBOLS + LZX_LENTABLE_SAFETY];
    lengths[5] = 1;
    lengths[6] = 1;
    let mut table = [0u16; ALIGNED_TABLE_SIZE];
    make_decode_table(LZX_ALIGNED_MAXSYMBOLS, LZX_ALIGNED_TABLEBITS, &lengths, &mut table).unwrap();
    let mut bits = Bits::new(&[0x00, 0x80]);
    let offset = read_match_offset(&mut bits, 8, Some((&table, &lengths))).unwrap();
    assert_eq!(offset, POSITION_BASE[8] - 2 + 6);
    let mut bits = Bits::new(&[0x00, 0x80]);
    let offset = read_match_offset(&mut bits, 10, Some((&table, &lengths))).unwrap();
    assert_eq!(offset, POSITION_BASE[10] - 2 + 8 + 5);
}

#[test]
fn position_slots_tile_the_offsets() {
    for slot in 0..POSITION_BASE.len() - 1 {
        assert_eq!(POSITION_BASE[slot + 1], POSITION_BASE[slot] + (1 << EXTRA_BITS[slot]));
    }
    assert_eq!(POSITION_BASE[49], 0x1e_0000);
}

#[test]
fn intel_transform_skips_frames_too_short_to_scan() {
    // Frames of up to 10 bytes have no room for an opcode plus operand, so the scan walks a
    // zero-length range.
    let mut state = LzxState::new(16).unwrap();
    state.intel_filesize = 0x1000;
    state.intel_started = true;
    for size in 0..=E8_TAIL_MARGIN {
        state.intel_curpos = 0;
        let mut frame = vec![0xE8u8; size];
        let expected = frame.clone();
        state.undo_intel_e8(&mut frame, size as i32);
        assert_eq!(frame, expected, "frame of {size} bytes must be left alone");
        assert_eq!(state.intel_curpos, size as i64);
    }
}

#[test]
fn intel_transform_rewrites_call_targets() {
    let mut state = LzxState::new(16).unwrap();
    state.intel_filesize = 0x1000;
    state.intel_started = true;
    state.intel_curpos = 0;
    // An E8 at offset 0 with absolute target 0x100 becomes the displacement 0x100.
    let mut frame = vec![0u8; 32];
    frame[0] = 0xE8;
    frame[1..5].copy_from_slice(&0x100i32.to_le_bytes());
    state.undo_intel_e8(&mut frame, 32);
    assert_eq!(i32::from_le_bytes(frame[1..5].try_into().unwrap()), 0x100);
    assert_eq!(state.intel_curpos, 32);
}

#[test]
fn intel_transform_counts_from_the_stream_position() {
    let mut state = LzxState::new(16).unwrap();
    state.intel_filesize = 0x1000;
    state.intel_started = true;
    state.intel_curpos = 0x200;
    let mut frame = vec![0u8; 40];
    frame[4] = 0xE8;
    frame[5..9].copy_from_slice(&0x100i32.to_le_bytes());
    frame[20] = 0xE8;
    frame[21..25].copy_from_slice(&(-0x100i32).to_le_bytes());
    // A call in the last ten bytes is left alone.
    frame[30] = 0xE8;
    state.undo_intel_e8(&mut frame, 40);
    assert_eq!(i32::from_le_bytes(frame[5..9].try_into().unwrap()), 0x100 - 0x204);
    assert_eq!(i32::from_le_bytes(frame[21..25].try_into().unwrap()), 0x1000 - 0x100);
    assert_eq!(&frame[30..35], &[0xE8, 0, 0, 0, 0]);
    assert_eq!(state.intel_curpos, 0x228);
}

#[test]
fn intel_transform_leaves_out_of_range_targets_alone() {
    let mut state = LzxState::new(16).unwrap();
    state.intel_filesize = 0x100;
    state.intel_started = true;
    state.intel_curpos = 0;
    // 0x4000 is past the end of the original executable, so it is not a call target.
    let mut frame = vec![0u8; 32];
    frame[0] = 0xE8;
    frame[1..5].copy_from_slice(&0x4000i32.to_le_bytes());
    state.undo_intel_e8(&mut frame, 32);
    assert_eq!(i32::from_le_bytes(frame[1..5].try_into().unwrap()), 0x4000);
}

#[test]
fn intel_transform_is_inert_until_an_e8_literal_is_coded() {
    let mut state = LzxState::new(16).unwrap();
    state.intel_filesize = 0x1000;
    state.intel_started = false;
    state.intel_curpos = 0;
    let mut frame = vec![0u8; 32];
    frame[0] = 0xE8;
    frame[1..5].copy_from_slice(&0x100i32.to_le_bytes());
    state.undo_intel_e8(&mut frame, 32);
    assert_eq!(i32::from_le_bytes(frame[1..5].try_into().unwrap()), 0x100);
    assert_eq!(state.intel_curpos, 32);
}

#[test]
fn matches_wrap_around_the_start_of_the_window() {
    // A match whose source lies before position 0 must read from the window tail.
    let window_size = 1usize << 15;
    let mut window = vec![0u8; window_size];
    window[window_size - 2] = 0xAA;
    window[window_size - 1] = 0xBB;
    let mask = window_size - 1;
    let wp = 0usize;
    let match_offset = 2usize;
    let src = wp.wrapping_sub(match_offset) & mask;
    assert_eq!(window[src], 0xAA);
    assert_eq!(window[(src + 1) & mask], 0xBB);
    copy_match(&mut window, wp, match_offset, 3);
    assert_eq!(&window[..4], &[0xAA, 0xBB, 0xAA, 0]);
}

/// Writes bits the way an LZX stream holds them: most significant bit first, in 16-bit
/// little-endian words.
struct Writer {
    bytes: Vec<u8>,
    word: u16,
    free: u32,
}

impl Writer {
    fn new() -> Self {
        Writer { bytes: Vec::new(), word: 0, free: 16 }
    }

    fn put(&mut self, value: u32, width: u32) {
        for i in (0..width).rev() {
            self.free -= 1;
            self.word |= (((value >> i) & 1) as u16) << self.free;
            if self.free == 0 {
                self.align();
            }
        }
    }

    fn align(&mut self) {
        if self.free < 16 {
            self.bytes.extend_from_slice(&self.word.to_le_bytes());
            self.word = 0;
            self.free = 16;
        }
    }

    /// A pretree in which 0, 16, 17 and 18 have the two-bit codes 00, 01, 10 and 11.
    fn pretree(&mut self) {
        for symbol in 0..20 {
            self.put(if [0, 16, 17, 18].contains(&symbol) { 2 } else { 0 }, 4);
        }
    }

    fn zeros(&mut self, mut count: u32) {
        while count > 0 {
            if count >= 20 {
                let run = count.min(51);
                self.put(0b11, 2);
                self.put(run - 20, 5);
                count -= run;
            } else if count >= 4 {
                self.put(0b10, 2);
                self.put(count - 4, 4);
                count = 0;
            } else {
                self.put(0b00, 2);
                count -= 1;
            }
        }
    }

    /// A length of one where there was none.
    fn one(&mut self) {
        self.put(0b01, 2);
    }

    fn finish(mut self) -> Vec<u8> {
        self.align();
        self.bytes
    }
}

/// A frame with a verbatim block that codes `a` as 0 and the match of slot 0 and length 2 as
/// 1: offset 1 at first, so a match repeats the last byte twice.
fn verbatim_frame(len: u32, symbols: &[u32]) -> Vec<u8> {
    let mut w = Writer::new();
    w.put(0, 1);
    w.put(1, 3);
    w.put(len >> 8, 16);
    w.put(len & 0xff, 8);
    w.pretree();
    w.zeros(97);
    w.one();
    w.zeros(256 - 98);
    w.pretree();
    w.one();
    w.zeros(30 * 8 - 1);
    w.pretree();
    w.zeros(249);
    for s in symbols {
        w.put(*s, 1);
    }
    w.finish()
}

fn uncompressed_frame(data: &[u8]) -> Vec<u8> {
    let len = data.len() as u32;
    let mut w = Writer::new();
    w.put(0, 1);
    w.put(3, 3);
    w.put(len >> 8, 16);
    w.put(len & 0xff, 8);
    w.align();
    let mut bytes = w.bytes;
    for register in [7u32, 8, 9] {
        bytes.extend_from_slice(&register.to_le_bytes());
    }
    bytes.extend_from_slice(data);
    bytes
}

#[test]
fn decodes_literals_and_matches_of_a_verbatim_block() {
    let mut state = LzxState::new(15).unwrap();
    let mut out = vec![0xFFu8; 7];
    state.decompress(&verbatim_frame(7, &[0, 1, 0, 1, 0]), &mut out).unwrap();
    assert_eq!(out, b"aaaaaaa");
    assert_eq!(state.window_posn, 7);
    assert_eq!(state.frames_read, 1);
    assert!(!state.intel_started);
}

#[test]
fn decodes_an_uncompressed_block() {
    let mut state = LzxState::new(15).unwrap();
    let mut out = vec![0u8; 5];
    state.decompress(&uncompressed_frame(b"hello"), &mut out).unwrap();
    assert_eq!(out, b"hello");
    assert_eq!((state.offsets.r0, state.offsets.r1, state.offsets.r2), (7, 8, 9));
    assert!(state.intel_started);
}

#[test]
fn a_block_goes_on_in_the_next_frame() {
    let mut state = LzxState::new(15).unwrap();
    let mut out = vec![0u8; 3];
    // The block says eight bytes, of which the first frame takes three.
    let mut first = uncompressed_frame(b"abcdefgh");
    let rest = first.split_off(first.len() - 5);
    state.decompress(&first, &mut out).unwrap();
    assert_eq!(out, b"abc");
    assert_eq!(state.block_remaining, 5);
    let mut more = vec![0u8; 5];
    state.decompress(&rest, &mut more).unwrap();
    assert_eq!(more, b"defgh");
    assert_eq!(state.frames_read, 2);
}

#[test]
fn a_run_may_not_straddle_the_wraparound() {
    let mut state = LzxState::new(15).unwrap();
    state.window_posn = 0x7ffe;
    let mut out = vec![0u8; 5];
    assert!(matches!(
        state.decompress(&uncompressed_frame(b"hello"), &mut out),
        Err(LzxError::DataFormat)
    ));
    assert_eq!(out, [0; 5]);
}

#[test]
fn a_frame_that_ends_on_the_wraparound_is_whole() {
    let mut state = LzxState::new(15).unwrap();
    state.window_posn = 0x7ffb;
    let mut out = vec![0u8; 5];
    state.decompress(&uncompressed_frame(b"hello"), &mut out).unwrap();
    assert_eq!(out, b"hello");
    assert_eq!(&state.window[0x7ffb..], b"hello");
}

#[test]
fn illegal_streams_are_reported() {
    let mut out = vec![0u8; 5];
    // Block type 0 does not exist, and an empty input is all zeros.
    let mut state = LzxState::new(15).unwrap();
    assert!(matches!(state.decompress(&[], &mut out), Err(LzxError::IllegalData)));
    let mut state = LzxState::new(15).unwrap();
    assert!(matches!(state.decompress(&[0x00], &mut out), Err(LzxError::IllegalData)));
    // An uncompressed block whose registers are cut off.
    let mut state = LzxState::new(15).unwrap();
    let frame = uncompressed_frame(b"hello");
    assert!(matches!(state.decompress(&frame[..10], &mut out), Err(LzxError::IllegalData)));
    // And one whose bytes are.
    let mut state = LzxState::new(15).unwrap();
    assert!(matches!(state.decompress(&frame[..18], &mut out), Err(LzxError::IllegalData)));
    assert_eq!(out, [0; 5]);
}

#[test]
fn the_stream_header_gives_the_size_of_the_executable() {
    let mut w = Writer::new();
    w.put(1, 1);
    w.put(0x0001, 16);
    w.put(0x0203, 16);
    w.put(3, 3);
    w.put(0, 16);
    w.put(12, 8);
    w.align();
    let mut bytes = w.bytes;
    bytes.extend_from_slice(&[1, 0, 0, 0, 1, 0, 0, 0, 1, 0, 0, 0]);
    // A call with the absolute target 9 at position 1.
    bytes.extend_from_slice(&[0x90, 0xE8, 9, 0, 0, 0, 0x90, 0x90, 0x90, 0x90, 0x90, 0x90]);
    let mut state = LzxState::new(15).unwrap();
    let mut out = vec![0u8; 12];
    state.decompress(&bytes, &mut out).unwrap();
    assert_eq!(state.intel_filesize, 0x0001_0203);
    assert_eq!(out, [0x90, 0xE8, 8, 0, 0, 0, 0x90, 0x90, 0x90, 0x90, 0x90, 0x90]);
    assert_eq!(state.intel_curpos, 12);
}

/// A decoder that has been used, with something else in all it leaves alone on a reset.
fn used() -> Box<LzxState> {
    let mut state = LzxState::new(15).unwrap();
    let mut out = vec![0u8; 7];
    state.decompress(&verbatim_frame(7, &[0, 1, 0, 1, 0]), &mut out).unwrap();
    state.window.fill(0xEE);
    state.pretree_len.fill(3);
    state.aligned_len.fill(5);
    state.pretree_table.fill(19);
    state.maintree_table.fill(7);
    state.length_table.fill(9);
    state.aligned_table.fill(2);
    state.intel_filesize = 77;
    state.reset();
    state
}

#[test]
fn what_was_held_before_a_reset_does_not_show() {
    let frame = verbatim_frame(7, &[0, 1, 0, 1, 0]);
    let mut out = vec![0u8; 7];
    used().decompress(&frame, &mut out).unwrap();
    assert_eq!(out, b"aaaaaaa");
    let mut out = vec![0u8; 5];
    used().decompress(&uncompressed_frame(b"hello"), &mut out).unwrap();
    assert_eq!(out, b"hello");
}

#[test]
fn a_match_may_reach_back_past_a_reset() {
    // The first symbol repeats the byte before the start of the stream.
    let frame = verbatim_frame(3, &[1, 0]);
    let mut out = vec![0u8; 3];
    LzxState::new(15).unwrap().decompress(&frame, &mut out).unwrap();
    assert_eq!(out, [0, 0, b'a']);
    used().decompress(&frame, &mut out).unwrap();
    assert_eq!(out, [0xEE, 0xEE, b'a']);
}

#[test]
fn reading_trees_leaves_the_lengths_behind_them_alone() {
    let mut state = LzxState::new(15).unwrap();
    state.maintree_len[660] = 7;
    state.length_len[300] = 9;
    state.aligned_len[3] = 5;
    let mut out = vec![0u8; 7];
    state.decompress(&verbatim_frame(7, &[0, 1, 0, 1, 0]), &mut out).unwrap();
    assert_eq!((state.maintree_len[97], state.maintree_len[256]), (1, 1));
    assert_eq!((state.maintree_len[660], state.length_len[300]), (7, 9));
    assert_eq!(state.aligned_len[3], 5);
    assert_eq!((state.offsets.r0, state.offsets.r1, state.offsets.r2), (1, 1, 1));
}

#[test]
fn intel_transform_keeps_the_ends_of_a_frame() {
    let mut state = LzxState::new(16).unwrap();
    state.intel_filesize = 0x7fff_ffff;
    state.intel_started = true;
    let before = vec![0xE8u8; 16];
    let mut frame = before.clone();
    // Opcodes at 0 and 5; their targets are negative and out of range at the start of a stream.
    state.undo_intel_e8(&mut frame, 16);
    assert_eq!(frame, before);
    // Far enough into it they are in range.
    state.intel_curpos = 0x7fff_ffff_ffff_0000;
    state.undo_intel_e8(&mut frame, 16);
    assert_eq!(state.intel_curpos, 0x7fff_ffff_ffff_0010);
    assert_ne!(frame, before);
    assert_eq!(frame[0], 0xE8);
    assert_eq!(frame[1..5], (0xE8E8_E8E8u32.wrapping_add(0x7fff_ffff)).to_le_bytes());
    assert_eq!(frame[10..], before[10..]);
}

#[test]
fn a_full_frame_counter_stays_full() {
    let mut state = LzxState::new(15).unwrap();
    state.frames_read = u32::MAX;
    let mut out = vec![0u8; 5];
    state.decompress(&uncompressed_frame(b"hello"), &mut out).unwrap();
    assert_eq!(out, b"hello");
    assert_eq!(state.frames_read, u32::MAX);
}

#[test]
fn there_may_be_no_padding_behind_the_last_block() {
    let mut state = LzxState::new(15).unwrap();
    let mut out = vec![0u8; 6];
    // The block has an odd length, and nothing follows it.
    let frame = uncompressed_frame(b"hello");
    assert!(matches!(state.decompress(&frame, &mut out), Err(LzxError::IllegalData)));
    // With its padding, and a block of one byte behind it.
    let mut longer = frame.clone();
    longer.push(0);
    let mut w = Writer::new();
    w.put(3, 3);
    w.put(0, 16);
    w.put(1, 8);
    w.align();
    longer.extend_from_slice(&w.bytes);
    longer.extend_from_slice(&[1, 0, 0, 0, 1, 0, 0, 0, 1, 0, 0, 0, b'!']);
    let mut state = LzxState::new(15).unwrap();
    state.decompress(&longer, &mut out).unwrap();
    assert_eq!(out, b"hello!");
}

#[test]
fn code_lengths_are_read_through_arrays_of_any_size() {
    let mut w = Writer::new();
    w.pretree();
    w.one();
    w.zeros(6);
    w.one();
    let bytes = w.finish();
    let mut bits = Bits::new(&bytes);
    let mut pretree_len = vec![0u8; 20];
    let mut pretree_table = vec![0xFFFFu16; 64];
    let mut lens = vec![0u8, 0, 9, 9, 9, 9, 9, 9, 0, 40];
    read_lens(&mut bits, &mut pretree_len, &mut pretree_table, &mut lens, 1, 9).unwrap();
    assert_eq!(lens, [0, 1, 0, 0, 0, 0, 0, 0, 1, 40]);
}

#[test]
fn reading_trees_touches_the_trees_only() {
    let mut w = Writer::new();
    w.pretree();
    w.zeros(0xE8);
    w.one();
    w.zeros(256 - 0xE9);
    w.pretree();
    w.one();
    w.zeros(30 * 8 - 1);
    w.pretree();
    w.zeros(249);
    let bytes = w.finish();
    let mut state = LzxState::new(15).unwrap();
    state.window_posn = 77;
    state.block_type = BLOCKTYPE_ALIGNED;
    state.block_length = 5;
    state.block_remaining = 4;
    state.maintree_len[700] = 3;
    state.length_len[249 + 20] = 4;
    let mut bits = Bits::new(&bytes);
    state.read_main_and_length_trees(&mut bits).unwrap();
    assert!(state.intel_started);
    assert_eq!((state.maintree_len[0xE8], state.maintree_len[256]), (1, 1));
    assert_eq!((state.maintree_len[700], state.length_len[249 + 20]), (3, 4));
    assert_eq!((state.window_posn, state.block_type), (77, BLOCKTYPE_ALIGNED));
    assert_eq!((state.block_length, state.block_remaining), (5, 4));
}

#[test]
fn whether_a_frame_decodes_does_not_depend_on_the_window() {
    // Each of these starts with a match that reaches back past the start of the stream.
    for (len, symbols) in [(3u32, &[1u32, 0][..]), (2, &[1][..]), (7, &[1, 1, 1, 0][..])] {
        let frame = verbatim_frame(len, symbols);
        let mut fresh = vec![0u8; len as usize];
        let mut stale = vec![0u8; len as usize];
        LzxState::new(15).unwrap().decompress(&frame, &mut fresh).unwrap();
        used().decompress(&frame, &mut stale).unwrap();
        assert_ne!(fresh, stale);
        let cut = &frame[..20];
        let a = LzxState::new(15).unwrap().decompress(cut, &mut fresh);
        let b = used().decompress(cut, &mut stale);
        assert!(matches!((a, b), (Err(LzxError::IllegalData), Err(LzxError::IllegalData))));
    }
}
