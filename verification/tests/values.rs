use bitarchive::bits::{u64_of_le_bytes, u64_to_le_bytes};
use bitarchive::{
    choose_worker_count, configure_thread_pool, get_bit, set_bit, ArchiveBlock, BitBuffer,
    ByteSink, ByteSource, CodecError, SymbolCode, BUFFER_BITS, BUFFER_LEN,
};

#[test]
fn sequential_mode_uses_one_worker() {
    assert_eq!(choose_worker_count(false, 10, 8), 1);
    assert_eq!(choose_worker_count(false, 0, 0), 1);
}

#[test]
fn workers_are_bounded_by_the_file_count() {
    assert_eq!(choose_worker_count(true, 3, 8), 3);
    assert_eq!(choose_worker_count(true, 8, 8), 8);
}

#[test]
fn workers_are_bounded_by_the_hardware() {
    assert_eq!(choose_worker_count(true, 100, 8), 8);
    assert_eq!(choose_worker_count(true, usize::MAX, 1), 1);
}

#[test]
fn worker_count_is_never_zero() {
    assert_eq!(choose_worker_count(true, 0, 8), 1);
    assert_eq!(choose_worker_count(true, 5, 0), 1);
    assert_eq!(choose_worker_count(true, 0, 0), 1);
}

#[test]
fn unknown_hardware_is_a_configuration_error() {
    assert_eq!(configure_thread_pool(true, 4, None), Err(CodecError::Configuration));
    assert_eq!(configure_thread_pool(true, 0, None), Err(CodecError::Configuration));
}

#[test]
fn symbol_code_keeps_the_low_bits() {
    let code = SymbolCode::new(0xffff, 4).unwrap();
    assert_eq!(code.pattern(), 0xf);
    assert_eq!(code.bit_len(), 4);
    let whole = SymbolCode::new(u64::MAX, 64).unwrap();
    assert_eq!(whole.pattern(), u64::MAX);
    let one = SymbolCode::new(0b10, 1).unwrap();
    assert_eq!(one.pattern(), 0);
}

#[test]
fn symbol_code_length_is_one_to_sixty_four() {
    assert_eq!(SymbolCode::new(1, 0), None);
    assert_eq!(SymbolCode::new(1, 65), None);
    assert_eq!(SymbolCode::new(1, 255), None);
    assert!(SymbolCode::new(1, 1).is_some());
    assert!(SymbolCode::new(1, 64).is_some());
}

#[test]
fn symbol_codes_are_equal_by_structure() {
    let a = SymbolCode::new(0b1_0101, 4).unwrap();
    let b = SymbolCode::new(0b0101, 4).unwrap();
    let c = SymbolCode::new(0b0101, 5).unwrap();
    assert_eq!(a, b);
    assert_ne!(a, c);
}

#[test]
fn block_name_must_not_hold_a_zero_byte() {
    assert_eq!(ArchiveBlock::new("a\0b".to_string(), 1, 2, 3, 4), None);
    assert_eq!(ArchiveBlock::new("\0".to_string(), 1, 2, 3, 4), None);
    assert!(ArchiveBlock::new("ab".to_string(), 1, 2, 3, 4).is_some());
}

#[test]
fn block_fields_are_kept() {
    let block = ArchiveBlock::new("a/b.txt".to_string(), 37, 4096, 128, 512).unwrap();
    assert_eq!(block.filename_rel(), "a/b.txt");
    assert_eq!(block.tree_bit_size(), 37);
    assert_eq!(block.data_bit_size(), 4096);
    assert_eq!(block.file_byte_offset(), 128);
    assert_eq!(block.original_byte_size(), 512);
    assert_eq!(block.clone(), block);
}

#[test]
fn payload_lengths_round_up_to_whole_bytes() {
    let block = ArchiveBlock::new("a".to_string(), 37, 4096, 0, 0).unwrap();
    assert_eq!(block.tree_byte_len(), 5);
    assert_eq!(block.data_byte_len(), 512);
    let edge = ArchiveBlock::new("a".to_string(), 0, u64::MAX, 0, 0).unwrap();
    assert_eq!(edge.tree_byte_len(), 0);
    assert_eq!(edge.data_byte_len(), 1 << 61);
    let one = ArchiveBlock::new("a".to_string(), 1, 8, 0, 0).unwrap();
    assert_eq!(one.tree_byte_len(), 1);
    assert_eq!(one.data_byte_len(), 1);
}

#[test]
fn block_bytes_are_forty_for_a_seven_byte_name() {
    let block = ArchiveBlock::new("a/b.txt".to_string(), 37, 4096, 128, 512).unwrap();
    let bytes = block.to_bytes();
    assert_eq!(bytes.len(), 40);
    assert_eq!(&bytes[0..8], b"a/b.txt\0");
    assert_eq!(&bytes[8..16], &37u64.to_le_bytes());
    assert_eq!(&bytes[16..24], &4096u64.to_le_bytes());
    assert_eq!(&bytes[24..32], &128u64.to_le_bytes());
    assert_eq!(&bytes[32..40], &512u64.to_le_bytes());
}

#[test]
fn get_bit_reads_from_the_low_end() {
    assert_eq!(get_bit(0b100, 2), 1);
    assert_eq!(get_bit(0b100, 1), 0);
    assert_eq!(get_bit(1 << 63, 63), 1);
    assert_eq!(get_bit(u64::MAX >> 1, 63), 0);
}

#[test]
fn set_bit_sets_one_bit() {
    assert_eq!(set_bit(0, 0), 1);
    assert_eq!(set_bit(0, 7), 0x80);
    assert_eq!(set_bit(0b0101, 1), 0b0111);
    assert_eq!(set_bit(0xff, 3), 0xff);
}

#[test]
fn little_endian_bytes_of_a_number() {
    assert_eq!(u64_to_le_bytes(0x0102_0304_0506_0708), vec![8, 7, 6, 5, 4, 3, 2, 1]);
    assert_eq!(u64_to_le_bytes(512), vec![0, 2, 0, 0, 0, 0, 0, 0]);
    assert_eq!(u64_of_le_bytes(&[0, 2, 0, 0, 0, 0, 0, 0]), 512);
    assert_eq!(u64_of_le_bytes(&[0xff; 8]), u64::MAX);
}

#[test]
fn buffer_capacity_is_eight_bits_a_byte() {
    assert_eq!(BUFFER_LEN, 4096);
    assert_eq!(BUFFER_BITS, 8 * BUFFER_LEN);
}

#[test]
fn buffer_tracks_its_cursor() {
    let mut buffer = BitBuffer::new();
    assert_eq!(buffer.cursor(), 0);
    assert!(buffer.is_aligned());
    assert!(!buffer.is_full());
    assert_eq!(buffer.occupied_len(), 0);
    buffer.push_bit(true);
    buffer.push_bit(false);
    buffer.push_bit(true);
    assert_eq!(buffer.cursor(), 3);
    assert!(!buffer.is_aligned());
    assert_eq!(buffer.occupied_len(), 1);
    assert_eq!(buffer.prefix(1), &[0b101]);
    buffer.align();
    assert_eq!(buffer.cursor(), 8);
    buffer.push_byte(0x3c);
    assert_eq!(buffer.cursor(), 16);
    assert_eq!(buffer.prefix(3), &[0b101, 0x3c, 0]);
    buffer.clear();
    assert_eq!(buffer.cursor(), 0);
    assert_eq!(buffer.prefix(2), &[0, 0]);
}

#[test]
fn buffer_hands_back_what_was_loaded() {
    let mut buffer = BitBuffer::new();
    assert_eq!(buffer.load(&[0b0000_0110, 0xa5]), 2);
    assert_eq!(buffer.next_bit(), 0);
    assert_eq!(buffer.next_bit(), 1);
    assert_eq!(buffer.next_bit(), 1);
    buffer.align();
    assert_eq!(buffer.next_byte(), 0xa5);
    assert_eq!(buffer.cursor(), 16);
}

#[test]
fn buffer_loads_no_more_than_it_holds() {
    let mut buffer = BitBuffer::new();
    let data = vec![7u8; BUFFER_LEN + 5];
    assert_eq!(buffer.load(&data), BUFFER_LEN);
    assert_eq!(buffer.prefix(BUFFER_LEN), vec![7u8; BUFFER_LEN].as_slice());
}

#[test]
fn sink_refuses_what_exceeds_its_limit() {
    let mut sink = ByteSink::with_limit(3);
    assert_eq!(sink.write_all(&[1, 2]), Ok(()));
    assert_eq!(sink.write_all(&[3, 4]), Err(CodecError::Io));
    assert_eq!(sink.as_slice(), &[1, 2]);
    assert_eq!(sink.write_all(&[3]), Ok(()));
    assert_eq!(sink.len(), 3);
    assert_eq!(sink.write_all(&[]), Ok(()));
    assert_eq!(sink.take(), vec![1, 2, 3]);
    assert_eq!(sink.len(), 0);
    assert_eq!(sink.write_all(&[4, 5, 6]), Ok(()));
    assert_eq!(sink.take(), vec![4, 5, 6]);
}

#[test]
fn source_fills_a_buffer_piece_by_piece() {
    let mut source = ByteSource::new(vec![9u8; BUFFER_LEN + 2]);
    let mut buffer = BitBuffer::new();
    assert_eq!(source.fill(&mut buffer), BUFFER_LEN);
    assert_eq!(source.remaining(), 2);
    assert_eq!(source.fill(&mut buffer), 2);
    assert_eq!(source.consumed_len(), BUFFER_LEN + 2);
    assert_eq!(source.fill(&mut buffer), 0);
}

#[test]
fn each_error_has_its_own_description() {
    let all = [
        CodecError::Io,
        CodecError::UnexpectedEof,
        CodecError::Alignment,
        CodecError::MalformedHeader,
        CodecError::Configuration,
        CodecError::WorkerPool,
    ];
    for (i, a) in all.iter().enumerate() {
        assert!(!a.describe().is_empty());
        for b in all.iter().skip(i + 1) {
            assert_ne!(a.describe(), b.describe());
        }
    }
    assert_eq!(CodecError::Alignment.describe(), "the cursor is not on a byte boundary");
}
