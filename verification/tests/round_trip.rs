use bitarchive::{
    ArchiveBlock, BitwiseWriter, ByteSink, ByteSource, FileReader, FileWriter, SymbolCode,
    BUFFER_LEN,
};

fn write_header<W: BitwiseWriter>(writer: &mut W, tag: u8, size: u64) {
    writer.write_bits(tag, 5).unwrap();
    writer.align_to_byte().unwrap();
    writer.write_u64(size).unwrap();
}

#[test]
fn any_writer_can_stand_behind_the_trait() {
    let mut writer = FileWriter::new(ByteSink::new());
    write_header(&mut writer, 0b1_0011, 258);
    writer.finish().unwrap();
    assert_eq!(writer.take_flushed(), vec![0b1_0011, 2, 1, 0, 0, 0, 0, 0, 0]);
}

#[test]
fn mixed_sequence_comes_back_in_order() {
    let code = SymbolCode::new(0b110_1001, 7).unwrap();
    let block = ArchiveBlock::new("docs/read me.md".to_string(), 9, 77, 4096, 10).unwrap();
    let mut writer = FileWriter::new(ByteSink::new());
    writer.write_bit(1).unwrap();
    writer.write_bits(0b1010, 4).unwrap();
    writer.write_symbol(&code).unwrap();
    writer.align_to_byte().unwrap();
    writer.write_byte(0xc4).unwrap();
    writer.write_u64(0xdead_beef_0bad_f00d).unwrap();
    writer.write_block(&block).unwrap();
    writer.write_bits(0b01, 2).unwrap();
    writer.finish().unwrap();
    let bytes = writer.take_flushed();
    assert_eq!(bytes.len(), 2 + 1 + 8 + (15 + 33) + 1);

    let mut reader = FileReader::new(ByteSource::new(bytes));
    assert_eq!(reader.read_bit(), Ok(1));
    assert_eq!(reader.read_bits(4), Ok(0b1010));
    assert_eq!(reader.read_symbol(7), Ok(code));
    reader.align_to_byte().unwrap();
    assert_eq!(reader.read_byte(), Ok(0xc4));
    assert_eq!(reader.read_u64(), Ok(0xdead_beef_0bad_f00d));
    assert_eq!(reader.read_block(), Ok(block));
    assert_eq!(reader.read_bits(2), Ok(0b01));
    assert_eq!(reader.read_bits(6), Ok(0));
}

#[test]
fn write_bits_returns_only_the_low_bits() {
    let mut writer = FileWriter::new(ByteSink::new());
    writer.write_bits(0b1111_1010, 3).unwrap();
    writer.finish().unwrap();
    let mut reader = FileReader::new(ByteSource::new(writer.take_flushed()));
    assert_eq!(reader.read_bits(3), Ok(0b010));
}

#[test]
fn every_symbol_length_comes_back() {
    let mut writer = FileWriter::new(ByteSink::new());
    let mut codes: Vec<SymbolCode> = Vec::new();
    for len in 1..=64u8 {
        let pattern = 0x9e37_79b9_7f4a_7c15u64.rotate_left(len as u32);
        let code = SymbolCode::new(pattern, len).unwrap();
        writer.write_symbol(&code).unwrap();
        codes.push(code);
    }
    writer.finish().unwrap();
    let bytes = writer.take_flushed();
    assert_eq!(bytes.len(), (64 * 65 / 2 + 7) / 8);
    let mut reader = FileReader::new(ByteSource::new(bytes));
    for code in codes {
        assert_eq!(reader.read_symbol(code.bit_len()), Ok(code));
    }
}

#[test]
fn stream_longer_than_the_buffer_comes_back() {
    let mut writer = FileWriter::new(ByteSink::with_limit(BUFFER_LEN));
    let mut container: Vec<u8> = Vec::new();
    let count: u64 = 3000;
    for i in 0..count {
        writer.write_bits((i % 8) as u8, 3).unwrap();
        writer.align_to_byte().unwrap();
        writer.write_u64(i * 0x0101_0101_0101).unwrap();
        container.extend_from_slice(&writer.take_flushed());
    }
    writer.finish().unwrap();
    container.extend_from_slice(&writer.take_flushed());
    assert_eq!(container.len() as u64, count * 9);

    let mut reader = FileReader::new(ByteSource::new(container));
    for i in 0..count {
        assert_eq!(reader.read_bits(3), Ok((i % 8) as u8));
        reader.align_to_byte().unwrap();
        assert_eq!(reader.read_u64(), Ok(i * 0x0101_0101_0101));
    }
    assert!(reader.read_bit().is_err());
}

#[test]
fn unaligned_stream_across_buffers_comes_back() {
    let mut writer = FileWriter::new(ByteSink::new());
    let total: u32 = 9 * 8000;
    for i in 0..8000u32 {
        let code = SymbolCode::new((i % 512) as u64, 9).unwrap();
        writer.write_symbol(&code).unwrap();
    }
    writer.finish().unwrap();
    let bytes = writer.take_flushed();
    assert_eq!(bytes.len() as u32, total / 8);
    let mut reader = FileReader::new(ByteSource::new(bytes));
    for i in 0..8000u32 {
        assert_eq!(reader.read_symbol(9).unwrap().pattern(), (i % 512) as u64);
    }
}
