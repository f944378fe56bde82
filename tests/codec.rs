use mnllib::compression::{
    compress, decompress, CompressionCommand, CompressionError, DecompressionError, Op,
};
use mnllib::misc::{ByteReader, StreamError, VarInt, VarIntReader};

fn round_trip(data: &[u8]) {
    let packed = compress(data).unwrap();
    assert_eq!(decompress(&packed, true).unwrap(), data);
    assert_eq!(decompress(&packed, false).unwrap(), data);
}

#[test]
fn round_trip_empty() {
    round_trip(&[]);
}

#[test]
fn round_trip_small_inputs() {
    round_trip(&[0]);
    round_trip(&[1, 2]);
    round_trip(&[7, 7, 7]);
    round_trip(b"abcabcabcabcabcabcabcabcabc");
}

#[test]
fn round_trip_mixed_large() {
    let mut data = Vec::new();
    let mut x: u32 = 12345;
    for i in 0..5000u32 {
        x = x.wrapping_mul(1103515245).wrapping_add(12345);
        let b = if i % 300 < 100 { 0 } else if i % 7 == 0 { (x >> 16) as u8 } else { (i % 13) as u8 };
        data.push(b);
    }
    round_trip(&data);
}

#[test]
fn known_blob_reencodes_to_itself() {
    let blob = [5u8, 0, 3, 0, 3, 3, 5];
    let plain = decompress(&blob, true).unwrap();
    assert_eq!(plain, vec![5u8; 5]);
    assert_eq!(compress(&plain).unwrap(), blob.to_vec());
}

#[test]
fn zero_group_gives_empty_block() {
    let stream = [0u8, 0, 1, 0, 0];
    assert_eq!(decompress(&stream, true).unwrap(), Vec::<u8>::new());
    assert_eq!(compress(&[]).unwrap(), stream.to_vec());
}

#[test]
fn run_of_two_has_count_field_zero() {
    assert_eq!(compress(&[7, 7]).unwrap(), vec![2, 0, 3, 0, 3, 0, 7]);
}

#[test]
fn run_of_257_has_count_field_255() {
    assert_eq!(compress(&[9u8; 257]).unwrap(), vec![65, 4, 0, 3, 0, 3, 255, 9]);
}

#[test]
fn long_runs_split_into_several_commands() {
    let packed = compress(&[9u8; 600]).unwrap();
    assert_eq!(
        packed,
        vec![88, 9, 1, 5, 0, 15, 255, 9, 253, 9, 3, 0, 3, 86, 9]
    );
    assert_eq!(decompress(&packed, true).unwrap(), vec![9u8; 600]);
}

#[test]
fn farthest_longest_match_operands() {
    let mut out = Vec::new();
    Op::Lz77 { distance: 4095, length: 17 }.write_operands(&mut out);
    assert_eq!(out, vec![0xFF, 0xFF]);

    let pattern: Vec<u8> = (100u8..117).collect();
    let mut data = vec![0u8];
    data.extend_from_slice(&pattern);
    for i in 18..4096u32 {
        data.push((i % 100) as u8);
    }
    data.extend_from_slice(&pattern);
    let packed = compress(&data).unwrap();
    assert_eq!(&packed[packed.len() - 5..], &[3, 0, 2, 0xFF, 0xFF]);
    assert_eq!(decompress(&packed, true).unwrap(), data);
}

#[test]
fn aligned_input_uses_full_blocks() {
    let data: Vec<u8> = (0..1024u32).map(|i| (i * 7 % 251) as u8).collect();
    let packed = compress(&data).unwrap();
    // size 1024 as a varint, then one more block than the first
    assert_eq!(&packed[..3], &[0x40, 16, 1]);
    assert_eq!(decompress(&packed, true).unwrap(), data);
}

#[test]
fn full_last_group_gets_end_byte() {
    assert_eq!(
        compress(&[1, 2, 3, 4]).unwrap(),
        vec![4, 0, 6, 0, 0x55, 1, 2, 3, 4, 0]
    );
    assert_eq!(compress(&[1, 2, 3]).unwrap(), vec![3, 0, 4, 0, 0x15, 1, 2, 3]);
}

#[test]
fn overlapping_copy_repeats_the_tail() {
    let stream = [13u8, 0, 7, 0, 0x95, 1, 2, 3, 3, 8, 0];
    assert_eq!(
        decompress(&stream, true).unwrap(),
        vec![1, 2, 3, 1, 2, 3, 1, 2, 3, 1, 2, 3, 1]
    );
}

#[test]
fn strict_mode_checks_block_size() {
    let blob = [5u8, 0, 4, 0, 3, 3, 5];
    assert_eq!(
        decompress(&blob, true),
        Err(DecompressionError::IncorrectBlockSize { declared: 4, actual: 3 })
    );
    assert_eq!(decompress(&blob, false).unwrap(), vec![5u8; 5]);
}

#[test]
fn strict_mode_checks_total_size() {
    let blob = [6u8, 0, 3, 0, 3, 3, 5];
    assert_eq!(
        decompress(&blob, true),
        Err(DecompressionError::IncorrectUncompressedSize { declared: 6, actual: 5 })
    );
    assert_eq!(decompress(&blob, false).unwrap(), vec![5u8; 5]);
}

#[test]
fn truncated_stream_is_an_io_error() {
    assert_eq!(
        decompress(&[5u8, 0, 3, 0, 3, 3], true),
        Err(DecompressionError::Io(StreamError::UnexpectedEof))
    );
    assert_eq!(
        decompress(&[], false),
        Err(DecompressionError::Io(StreamError::UnexpectedEof))
    );
}

#[test]
fn back_reference_before_start_is_an_io_error() {
    assert_eq!(
        decompress(&[3u8, 0, 3, 0, 2, 3, 1], false),
        Err(DecompressionError::Io(StreamError::InvalidSeek))
    );
}

#[test]
fn oversized_input_is_refused() {
    let big = vec![0u8; 0x400_0000];
    assert_eq!(compress(&big), Err(CompressionError::TryFromInt));
}

#[test]
fn command_codes() {
    assert_eq!(CompressionCommand::try_from_code(2), Ok(CompressionCommand::Lz77));
    assert_eq!(CompressionCommand::try_from_code(4), Err(4));
    assert_eq!(CompressionCommand::Rle.code(), 3);
}

#[test]
fn varint_examples() {
    assert_eq!(63u32.encode_var(), vec![0x3F]);
    assert_eq!(64u32.encode_var(), vec![0x40, 0x01]);
    assert_eq!(0x4000u32.encode_var(), vec![0x80, 0x00, 0x04]);
    assert_eq!(0x10_0000u32.encode_var(), vec![0xC0, 0x00, 0x00, 0x04]);
}

#[test]
fn varint_round_trip_all_widths() {
    for x in [0u32, 1, 63, 64, 1000, 16383, 16384, 100_000, 0xF_FFFF, 0x10_0000, 0x3FF_FFFF] {
        let bytes = x.encode_var();
        let mut reader = ByteReader::new(&bytes);
        assert_eq!(reader.read_varint(), Ok(x));
        assert_eq!(reader.pos, bytes.len());
    }
}

#[test]
fn varint_read_past_end() {
    let bytes = [0x80u8, 1];
    let mut reader = ByteReader::new(&bytes);
    assert_eq!(reader.read_varint(), Err(StreamError::UnexpectedEof));
}
