use bitarchive::{
    ArchiveBlock, BitwiseWriter, ByteSink, ByteSource, CodecError, FileReader, FileWriter,
    SymbolCode, BUFFER_LEN,
};

fn reader(bytes: &[u8]) -> FileReader {
    FileReader::new(ByteSource::new(bytes.to_vec()))
}

#[test]
fn read_bit_goes_least_significant_first() {
    let mut r = reader(&[0b0000_0101]);
    assert_eq!(r.read_bit(), Ok(1));
    assert_eq!(r.read_bit(), Ok(0));
    assert_eq!(r.read_bit(), Ok(1));
    assert_eq!(r.read_bit(), Ok(0));
}

#[test]
fn read_bit_at_the_end_is_unexpected_eof() {
    let mut r = reader(&[0xff]);
    for _ in 0..8 {
        assert_eq!(r.read_bit(), Ok(1));
    }
    assert_eq!(r.read_bit(), Err(CodecError::UnexpectedEof));
    assert_eq!(r.read_bit(), Err(CodecError::UnexpectedEof));
    assert_eq!(r.byte_position(), 1);
}

#[test]
fn read_from_an_empty_source_is_unexpected_eof() {
    let mut r = reader(&[]);
    assert_eq!(r.read_bit(), Err(CodecError::UnexpectedEof));
    assert_eq!(r.read_byte(), Err(CodecError::UnexpectedEof));
    assert_eq!(r.read_u64(), Err(CodecError::UnexpectedEof));
    assert_eq!(r.read_block(), Err(CodecError::UnexpectedEof));
}

#[test]
fn read_bits_builds_the_number_from_the_low_end() {
    let mut r = reader(&[0b0011_0110]);
    assert_eq!(r.read_bits(4), Ok(0b0110));
    assert_eq!(r.read_bits(2), Ok(0b11));
    assert_eq!(r.read_bits(0), Ok(0));
    assert_eq!(r.read_bits(2), Ok(0));
}

#[test]
fn read_bits_across_bytes() {
    let mut r = reader(&[0b1111_1101, 0b0000_0111]);
    assert_eq!(r.read_bits(3), Ok(0b101));
    assert_eq!(r.read_bits(8), Ok(0xff));
}

#[test]
fn read_bits_beyond_the_end_is_unexpected_eof() {
    let mut r = reader(&[0xff]);
    assert_eq!(r.read_bits(5), Ok(0b1_1111));
    assert_eq!(r.read_bits(4), Err(CodecError::UnexpectedEof));
    assert_eq!(r.read_bit(), Err(CodecError::UnexpectedEof));
}

#[test]
fn read_byte_needs_a_byte_boundary() {
    let mut r = reader(&[0x01, 0x02]);
    assert_eq!(r.read_bit(), Ok(1));
    assert!(!r.is_aligned());
    assert_eq!(r.read_byte(), Err(CodecError::Alignment));
    assert_eq!(r.read_u64(), Err(CodecError::Alignment));
    assert_eq!(r.read_block(), Err(CodecError::Alignment));
    r.align_to_byte().unwrap();
    assert!(r.is_aligned());
    assert_eq!(r.byte_position(), 1);
    assert_eq!(r.read_byte(), Ok(0x02));
}

#[test]
fn reader_align_twice_moves_the_cursor_once() {
    let mut r = reader(&[0xff, 0x7e]);
    r.read_bits(3).unwrap();
    r.align_to_byte().unwrap();
    r.align_to_byte().unwrap();
    assert_eq!(r.byte_position(), 1);
    assert_eq!(r.read_byte(), Ok(0x7e));
}

#[test]
fn read_u64_is_little_endian() {
    let mut r = reader(&[8, 7, 6, 5, 4, 3, 2, 1]);
    assert_eq!(r.read_u64(), Ok(0x0102_0304_0506_0708));
    assert_eq!(r.byte_position(), 8);
}

#[test]
fn read_u64_of_a_short_source_is_unexpected_eof() {
    let mut r = reader(&[1, 2, 3, 4, 5, 6, 7]);
    assert_eq!(r.read_u64(), Err(CodecError::UnexpectedEof));
    assert_eq!(r.byte_position(), 7);
}

#[test]
fn symbol_of_eleven_bits_comes_back() {
    let code = SymbolCode::new(0b101_1001_0110, 11).unwrap();
    let mut writer = FileWriter::new(ByteSink::new());
    writer.write_symbol(&code).unwrap();
    writer.finish().unwrap();
    let mut r = FileReader::new(ByteSource::new(writer.take_flushed()));
    let back = r.read_symbol(11).unwrap();
    assert_eq!(back.pattern(), 0b101_1001_0110);
    assert_eq!(back.bit_len(), 11);
    assert_eq!(back, code);
}

#[test]
fn read_symbol_from_known_bytes() {
    let mut r = reader(&[0x96, 0x05]);
    let code = r.read_symbol(11).unwrap();
    assert_eq!(code.pattern(), 0b101_1001_0110);
    assert_eq!(code.bit_len(), 11);
    assert_eq!(r.read_bits(5), Ok(0));
}

#[test]
fn read_symbol_beyond_the_end_is_unexpected_eof() {
    let mut r = reader(&[0xff]);
    assert_eq!(r.read_symbol(9), Err(CodecError::UnexpectedEof));
}

#[test]
fn read_symbol_of_sixty_four_bits() {
    let mut r = reader(&[0x01, 0, 0, 0, 0, 0, 0, 0x80]);
    let code = r.read_symbol(64).unwrap();
    assert_eq!(code.pattern(), 0x8000_0000_0000_0001);
}

#[test]
fn block_comes_back_field_by_field() {
    let block = ArchiveBlock::new("a/b.txt".to_string(), 37, 4096, 128, 512).unwrap();
    let mut writer = FileWriter::new(ByteSink::new());
    writer.write_block(&block).unwrap();
    writer.write_byte(0xee).unwrap();
    writer.finish().unwrap();
    let mut r = FileReader::new(ByteSource::new(writer.take_flushed()));
    let back = r.read_block().unwrap();
    assert_eq!(back.filename_rel(), "a/b.txt");
    assert_eq!(back.tree_bit_size(), 37);
    assert_eq!(back.data_bit_size(), 4096);
    assert_eq!(back.file_byte_offset(), 128);
    assert_eq!(back.original_byte_size(), 512);
    assert_eq!(back, block);
    assert_eq!(r.byte_position(), 40);
    assert_eq!(r.read_byte(), Ok(0xee));
}

#[test]
fn block_with_empty_name_comes_back() {
    let block = ArchiveBlock::new(String::new(), u64::MAX, 0, 1, 2).unwrap();
    let mut writer = FileWriter::new(ByteSink::new());
    writer.write_block(&block).unwrap();
    writer.finish().unwrap();
    let mut r = FileReader::new(ByteSource::new(writer.take_flushed()));
    assert_eq!(r.read_block(), Ok(block));
}

#[test]
fn block_with_non_ascii_name_comes_back() {
    let block = ArchiveBlock::new("dir/ß→文.bin".to_string(), 1, 2, 3, 4).unwrap();
    let mut writer = FileWriter::new(ByteSink::new());
    writer.write_block(&block).unwrap();
    writer.finish().unwrap();
    let mut r = FileReader::new(ByteSource::new(writer.take_flushed()));
    let back = r.read_block().unwrap();
    assert_eq!(back.filename_rel(), "dir/ß→文.bin");
}

#[test]
fn block_without_terminator_is_truncated() {
    let mut r = reader(b"abc");
    assert_eq!(r.read_block(), Err(CodecError::UnexpectedEof));
    assert_eq!(r.byte_position(), 3);
}

#[test]
fn block_with_short_tail_is_truncated() {
    let mut bytes = b"abc\0".to_vec();
    bytes.extend_from_slice(&[0u8; 31]);
    let mut r = reader(&bytes);
    assert_eq!(r.read_block(), Err(CodecError::UnexpectedEof));
    assert_eq!(r.byte_position(), 35);
}

#[test]
fn block_with_invalid_name_is_malformed() {
    let mut bytes = vec![0xff, 0xfe, 0x00];
    bytes.extend_from_slice(&[0u8; 32]);
    bytes.push(0x42);
    let mut r = reader(&bytes);
    assert_eq!(r.read_block(), Err(CodecError::MalformedHeader));
    assert_eq!(r.byte_position(), 35);
    assert_eq!(r.read_byte(), Ok(0x42));
}

#[test]
fn truncation_wins_over_an_invalid_name() {
    let mut r = reader(&[0xff, 0x00, 1, 2, 3]);
    assert_eq!(r.read_block(), Err(CodecError::UnexpectedEof));
}

#[test]
fn reader_refills_across_buffers() {
    let mut bytes: Vec<u8> = Vec::new();
    for i in 0..(2 * BUFFER_LEN + 17) {
        bytes.push((i % 251) as u8);
    }
    let mut r = reader(&bytes);
    for i in 0..bytes.len() {
        assert_eq!(r.read_byte(), Ok((i % 251) as u8));
    }
    assert_eq!(r.byte_position(), 2 * BUFFER_LEN + 17);
    assert_eq!(r.read_byte(), Err(CodecError::UnexpectedEof));
}

#[test]
fn reader_starts_where_the_source_stands() {
    let source = ByteSource::new(vec![1, 2, 3]);
    assert_eq!(source.remaining(), 3);
    assert_eq!(source.consumed_len(), 0);
    let mut r = FileReader::new(source);
    assert_eq!(r.byte_position(), 0);
    assert_eq!(r.read_byte(), Ok(1));
}
