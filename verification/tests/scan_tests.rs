use jpeg_tutorial::primitives::{JPEGMetaData, JpegError};
use jpeg_tutorial::scan::{read_mcu, read_mcus, AcValue, BitStream};
use std::collections::HashMap;

fn key(len: u32, code: u32) -> u32 {
    len * 65536 + code
}

#[test]
fn bits_come_most_significant_first() {
    let data = [0b1010_0001u8];
    let mut bits = BitStream::new(&data, 0);
    let mut got = Vec::new();
    for _ in 0..8 {
        got.push(bits.get_a_bit().unwrap());
    }
    assert_eq!(got, vec![1, 0, 1, 0, 0, 0, 0, 1]);
    assert_eq!(bits.pos, 1);
    assert_eq!(bits.get_a_bit(), Err(JpegError::UnexpectedEof));
}

#[test]
fn stuffed_ff_is_one_byte() {
    let data = [0xFFu8, 0x00, 0x80];
    let mut bits = BitStream::new(&data, 0);
    for _ in 0..8 {
        assert_eq!(bits.get_a_bit(), Ok(1));
    }
    assert_eq!(bits.pos, 2);
    assert_eq!(bits.get_a_bit(), Ok(1));
    assert_eq!(bits.pos, 3);
}

#[test]
fn ff_without_stuffing_is_rejected() {
    let data = [0xFFu8, 0x01];
    let mut bits = BitStream::new(&data, 0);
    assert_eq!(bits.get_a_bit(), Err(JpegError::BadByteStuffing));
}

#[test]
fn huffman_match_finds_the_code() {
    let mut map = HashMap::new();
    map.insert(key(2, 0b00), 0x0Au8);
    map.insert(key(2, 0b01), 0x0B);
    map.insert(key(3, 0b100), 0x0C);
    let data = [0b1000_1000u8];
    let mut bits = BitStream::new(&data, 0);
    assert_eq!(bits.matchHuffman(&map), Ok(0x0C));
    assert_eq!(bits.matchHuffman(&map), Ok(0x0B));
    assert_eq!(bits.count, 5);
}

#[test]
fn huffman_match_gives_up_after_sixteen_bits() {
    let map: HashMap<u32, u8> = HashMap::new();
    let data = [0x12u8, 0x34, 0x56];
    let mut bits = BitStream::new(&data, 0);
    assert_eq!(bits.matchHuffman(&map), Err(JpegError::HuffmanDecodeFailed));
    assert_eq!(bits.pos, 2);
}

#[test]
fn values_extend_by_their_first_bit() {
    // 3 bits 101 -> 5 ; 3 bits 010 -> -5 ; no bits (one bit is read) 0 -> -1 ; 1 bit 1 -> 1
    let data = [0b1010_1001u8, 0b0000_0000];
    let mut bits = BitStream::new(&data, 0);
    assert_eq!(bits.read_value(3), Ok(5));
    assert_eq!(bits.read_value(3), Ok(-5));
    assert_eq!(bits.read_value(0), Ok(-1));
    assert_eq!(bits.read_value(1), Ok(1));
}

#[test]
fn value_magnitude_matches_its_length() {
    // 11 bits: 0 followed by ten bits -> a value of magnitude 2^10 .. 2^11 - 1
    let data = [0b0110_0000u8, 0b0010_0000];
    let mut bits = BitStream::new(&data, 0);
    let v = bits.read_value(11).unwrap();
    assert!(v < 0);
    assert!((-v) >= 1024 && (-v) < 2048);
    assert_eq!(v, -0b100_1111_1110);
}

#[test]
fn sixteen_bit_negative_extreme_overflows() {
    // first bit 0, then fifteen 1 bits: the value would be -(-32768)
    let data = [0x7Fu8, 0xFF, 0x00];
    let mut bits = BitStream::new(&data, 0);
    assert_eq!(bits.read_value(16), Err(JpegError::ValueOverflow));
}

#[test]
fn dc_values_accumulate_per_component() {
    let mut map = HashMap::new();
    map.insert(key(1, 0), 0x00u8);
    map.insert(key(2, 0b10), 0x02);
    // 10 11 (+3), 10 11 (+3), 0 (+0), 10 00 (-3) for component 1
    let data = [0b1011_1011u8, 0b0100_0000];
    let mut bits = BitStream::new(&data, 0);
    assert_eq!(bits.read_dc(&map, 0), Ok(3));
    assert_eq!(bits.read_dc(&map, 0), Ok(6));
    assert_eq!(bits.read_dc(&map, 0), Ok(6));
    assert_eq!(bits.read_dc(&map, 1), Ok(-3));
    assert_eq!(bits.last_dc, [6, -3, 0]);
}

#[test]
fn ac_symbols() {
    let mut map = HashMap::new();
    map.insert(key(2, 0b00), 0x00u8);
    map.insert(key(2, 0b01), 0xF0);
    map.insert(key(2, 0b10), 0x32);
    // 00 | 01 | 10 11
    let data = [0b0001_1011u8];
    let mut bits = BitStream::new(&data, 0);
    assert_eq!(bits.read_ac(&map), Ok(AcValue::AllZeros));
    assert_eq!(bits.read_ac(&map), Ok(AcValue::SixteenZeros));
    assert_eq!(bits.read_ac(&map), Ok(AcValue::Normal { zeros: 3, value: 3 }));
}

fn meta_with_tables(dc: HashMap<u32, u8>, ac: HashMap<u32, u8>) -> JPEGMetaData {
    let mut meta = JPEGMetaData::new();
    meta.huffman_tables.dc_tables[0] = dc;
    meta.huffman_tables.ac_tables[0] = ac;
    for id in 0..3 {
        meta.sof_info.component_infos[id].horizontal_sampling = 1;
        meta.sof_info.component_infos[id].vertical_sampling = 1;
    }
    meta.sof_info.max_horizontal_sampling = 1;
    meta.sof_info.max_vertical_sampling = 1;
    meta.sof_info.width = 8;
    meta.sof_info.height = 8;
    meta
}

#[test]
fn runs_past_the_block_are_rejected() {
    let mut dc = HashMap::new();
    dc.insert(key(1, 0), 0x00u8);
    let mut ac = HashMap::new();
    ac.insert(key(1, 0), 0xF0u8);
    let meta = meta_with_tables(dc, ac);
    let data = [0x00u8, 0x00];
    let mut bits = BitStream::new(&data, 0);
    assert_eq!(read_mcu(&mut bits, &meta).unwrap_err(), JpegError::CoefficientOverflow);
}

#[test]
fn table_ids_must_have_slots() {
    let mut dc = HashMap::new();
    dc.insert(key(1, 0), 0x00u8);
    let mut ac = HashMap::new();
    ac.insert(key(1, 0), 0x00u8);
    let mut meta = meta_with_tables(dc, ac);
    meta.table_mapping[1] = (2, 0);
    let data = [0x00u8, 0x00];
    let mut bits = BitStream::new(&data, 0);
    assert_eq!(read_mcu(&mut bits, &meta).unwrap_err(), JpegError::TableIdOutOfRange);
}

#[test]
fn a_scan_of_two_by_one_mcus() {
    let mut dc = HashMap::new();
    dc.insert(key(1, 0), 0x00u8);
    dc.insert(key(2, 0b10), 0x01u8);
    let mut ac = HashMap::new();
    ac.insert(key(1, 0), 0x00u8);
    let mut meta = meta_with_tables(dc, ac);
    meta.sof_info.width = 16;
    // MCU 1: Y dc 10 1 (+1), eob 0 ; Cb 0 0 ; Cr 0 0  -> 1010 0000
    // MCU 2: Y dc 10 0 (-1), eob 0 ; Cb 0 0 ; Cr 0 0  -> 1000 0000
    let data = [0b1010_0000u8, 0b1000_0000];
    let (mcus, q) = read_mcus(&data, 0, &meta).unwrap();
    assert_eq!(q, 2);
    assert_eq!(mcus.len(), 1);
    assert_eq!(mcus[0].len(), 2);
    assert_eq!(mcus[0][0][0][0][0][0][0], 1);
    assert_eq!(mcus[0][1][0][0][0][0][0], 0);
}

#[test]
fn scan_mcus_are_read_in_raster_order_with_one_reader() {
    let mut dc = HashMap::new();
    dc.insert(key(1, 0), 0x00u8);
    dc.insert(key(2, 0b10), 0x01u8);
    let mut ac = HashMap::new();
    ac.insert(key(1, 0), 0x00u8);
    let mut meta = meta_with_tables(dc, ac);
    meta.sof_info.width = 16;
    meta.sof_info.height = 16;
    // Four MCUs, Y differences +1, +1, -1, +1: 1010 0000 1010 0000 1000 0000 1010 0000
    let data = [0b1010_0000u8, 0b1010_0000, 0b1000_0000, 0b1010_0000];
    let (grid, q) = read_mcus(&data, 0, &meta).unwrap();
    let mut bits = BitStream::new(&data, 0);
    let mut flat = Vec::new();
    for _ in 0..4 {
        flat.push(read_mcu(&mut bits, &meta).unwrap());
    }
    assert_eq!(q, bits.pos);
    assert_eq!(grid.len(), 2);
    for i in 0..2 {
        assert_eq!(grid[i].len(), 2);
        for j in 0..2 {
            assert_eq!(grid[i][j], flat[i * 2 + j]);
        }
    }
    let dcs: Vec<i64> = flat.iter().map(|m| m[0][0][0][0][0]).collect();
    assert_eq!(dcs, vec![1, 2, 1, 2]);
}

#[test]
fn dc_predictor_goes_past_32_bits() {
    let mut map = HashMap::new();
    map.insert(key(1, 0), 0x00u8);
    map.insert(key(2, 0b10), 0x02);
    // 10 11 (+3), 10 11 (+3)
    let data = [0b1011_1011u8];
    let mut bits = BitStream::new(&data, 0);
    bits.last_dc[0] = i32::MAX as i64;
    assert_eq!(bits.read_dc(&map, 0), Ok(2147483650));
    bits.last_dc[1] = i64::MAX - 1;
    assert_eq!(bits.read_dc(&map, 1), Err(JpegError::ValueOverflow));
}
