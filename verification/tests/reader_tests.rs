use jpeg_tutorial::primitives::{JPEGMetaData, JpegError};
use jpeg_tutorial::reader::{
    component_name, data_reader, read_app0, read_dht, read_dqt, read_sof0, read_sof0_component, read_sos,
    read_u16, read_u8, store_huffman_tables, store_quant_tables,
};
use std::collections::HashMap;

fn key(len: u32, code: u32) -> u32 {
    len * 65536 + code
}

/// An 8x8 baseline JPEG with three components sampled 1x1, all-ones
/// quantization, and a scan whose Y block has DC 3 and a first AC of -1.
fn small_jpeg() -> Vec<u8> {
    let mut v: Vec<u8> = vec![0xFF, 0xD8];
    // APP0
    v.extend_from_slice(&[0xFF, 0xE0, 0x00, 0x10, 0x4A, 0x46, 0x49, 0x46, 0x00, 0x01, 0x01, 0x00, 0x00, 0x01, 0x00, 0x01, 0x00, 0x00]);
    // DQT: table 0, 8-bit, all ones
    v.extend_from_slice(&[0xFF, 0xDB, 0x00, 0x43, 0x00]);
    v.extend_from_slice(&[1u8; 64]);
    // SOF0
    v.extend_from_slice(&[0xFF, 0xC0, 0x00, 0x11, 0x08, 0x00, 0x08, 0x00, 0x08, 0x03, 0x01, 0x11, 0x00, 0x02, 0x11, 0x00, 0x03, 0x11, 0x00]);
    // DHT: DC 0 with codes 00 -> 0x00, 01 -> 0x02; AC 0 with codes 0 -> 0x00, 10 -> 0x01
    v.extend_from_slice(&[0xFF, 0xC4, 0x00, 0x28]);
    v.push(0x00);
    v.extend_from_slice(&[0, 2, 0, 0, 0, 0, 0, 0, 0, 0, 0, 0, 0, 0, 0, 0]);
    v.extend_from_slice(&[0x00, 0x02]);
    v.push(0x10);
    v.extend_from_slice(&[1, 1, 0, 0, 0, 0, 0, 0, 0, 0, 0, 0, 0, 0, 0, 0]);
    v.extend_from_slice(&[0x00, 0x01]);
    // SOS
    v.extend_from_slice(&[0xFF, 0xDA, 0x00, 0x0C, 0x03, 0x01, 0x00, 0x02, 0x00, 0x03, 0x00, 0x00, 0x3F, 0x00]);
    // scan data: Y: 01 11 | 10 0 | 0 ; Cb: 00 | 0 ; Cr: 00 | 0 ; padding 11
    v.extend_from_slice(&[0x78, 0x03]);
    v.extend_from_slice(&[0xFF, 0xD9]);
    v
}

#[test]
fn read_u8_and_u16_read_big_endian() {
    let data = [0x12u8, 0x34, 0x56];
    assert_eq!(read_u8(&data, 0), Ok((0x12, 1)));
    assert_eq!(read_u16(&data, 1), Ok((0x3456, 3)));
    assert_eq!(read_u16(&data, 2), Err(JpegError::UnexpectedEof));
    assert_eq!(read_u8(&data, 3), Err(JpegError::UnexpectedEof));
}

#[test]
fn app0_fields_and_thumbnail_skip() {
    let data = [0x00u8, 0x10, 0x4A, 0x46, 0x49, 0x46, 0x00, 0x01, 0x02, 0x01, 0x00, 0x48, 0x00, 0x49, 0x01, 0x02,
        9, 9, 9, 9, 9, 9, 7];
    let (info, q) = read_app0(&data, 0).unwrap();
    assert_eq!(info.identifier, [0x4A, 0x46, 0x49, 0x46, 0x00]);
    assert_eq!(info.version_major_id, 1);
    assert_eq!(info.version_minor_id, 2);
    assert_eq!(info.units, 1);
    assert_eq!(info.x_density, 0x48);
    assert_eq!(info.y_density, 0x49);
    assert_eq!((info.x_thumbnail, info.y_thumbnail), (1, 2));
    assert_eq!(q, 16 + 6);
    // A thumbnail that runs past the data leaves the position at its end.
    let short = &data[..18];
    assert_eq!(read_app0(short, 0).unwrap().1, 18);
    assert_eq!(read_app0(&data[..15], 0).unwrap_err(), JpegError::UnexpectedEof);
}

#[test]
fn sof0_components_and_maximum_sampling() {
    let data = [0x00u8, 0x11, 0x08, 0x01, 0x02, 0x03, 0x04, 0x03, 0x03, 0x11, 0x01, 0x01, 0x22, 0x00, 0x02, 0x12, 0x01];
    let (sof, q) = read_sof0(&data, 0).unwrap();
    assert_eq!(q, 17);
    assert_eq!(sof.precision, 8);
    assert_eq!(sof.height, 0x0102);
    assert_eq!(sof.width, 0x0304);
    assert_eq!(sof.component_infos[0].horizontal_sampling, 2);
    assert_eq!(sof.component_infos[0].vertical_sampling, 2);
    assert_eq!(sof.component_infos[2].horizontal_sampling, 1);
    assert_eq!(sof.component_infos[2].vertical_sampling, 1);
    assert_eq!(sof.component_infos[2].quant_table_id, 1);
    assert_eq!(sof.component_infos[1].horizontal_sampling, 1);
    assert_eq!(sof.component_infos[1].vertical_sampling, 2);
    assert_eq!(sof.max_horizontal_sampling, 2);
    assert_eq!(sof.max_vertical_sampling, 2);
    let c = read_sof0_component(&[0x21, 0x05], 0).unwrap().0;
    assert_eq!((c.horizontal_sampling, c.vertical_sampling, c.quant_table_id), (2, 1, 5));
}

#[test]
fn sof0_rejects_component_id_four() {
    let data = [0x00u8, 0x0B, 0x08, 0x00, 0x08, 0x00, 0x08, 0x01, 0x04, 0x11, 0x00];
    assert_eq!(read_sof0(&data, 0).unwrap_err(), JpegError::InvalidComponentId);
    let zero = [0x00u8, 0x0B, 0x08, 0x00, 0x08, 0x00, 0x08, 0x01, 0x00, 0x11, 0x00];
    assert_eq!(read_sof0(&zero, 0).unwrap_err(), JpegError::InvalidComponentId);
}

#[test]
fn sos_table_mapping() {
    let data = [0x00u8, 0x0C, 0x03, 0x02, 0x11, 0x01, 0x00, 0x03, 0x10, 0x00, 0x3F, 0x00];
    let (mapping, q) = read_sos(&data, 0).unwrap();
    assert_eq!(q, 12);
    assert_eq!(mapping, [(0, 0), (1, 1), (1, 0)]);
}

#[test]
fn sos_errors() {
    let one = [0x00u8, 0x08, 0x01, 0x01, 0x00, 0x00, 0x3F, 0x00];
    assert_eq!(read_sos(&one, 0).unwrap_err(), JpegError::SosComponentCount);
    let bad_tail = [0x00u8, 0x0C, 0x03, 0x01, 0x00, 0x02, 0x00, 0x03, 0x00, 0x00, 0x3E, 0x00];
    assert_eq!(read_sos(&bad_tail, 0).unwrap_err(), JpegError::SosParameters);
    let bad_component = [0x00u8, 0x0C, 0x03, 0x05, 0x00, 0x02, 0x00, 0x03, 0x00, 0x00, 0x3F, 0x00];
    assert_eq!(read_sos(&bad_component, 0).unwrap_err(), JpegError::InvalidComponentId);
}

#[test]
fn component_names() {
    assert_eq!(component_name(1), "Y");
    assert_eq!(component_name(2), "Cb");
    assert_eq!(component_name(3), "Cr");
}

#[test]
fn dqt_tables_are_read_in_order() {
    let mut data: Vec<u8> = vec![0x00, 0xC4, 0x01];
    for i in 0..64u8 {
        data.push(i);
    }
    data.push(0x12);
    for i in 0..64u16 {
        let v = i * 300;
        data.push((v >> 8) as u8);
        data.push((v & 0xFF) as u8);
    }
    let (tables, q) = read_dqt(&data, 0).unwrap();
    assert_eq!(q, data.len());
    assert_eq!(tables.len(), 2);
    assert_eq!(tables[0].0, 1);
    assert_eq!(tables[0].1[5], 5);
    assert_eq!(tables[1].0, 2);
    assert_eq!(tables[1].1[10], 3000);
}

#[test]
fn dqt_length_too_small_is_an_underflow() {
    assert_eq!(read_dqt(&[0x00, 0x01], 0).unwrap_err(), JpegError::SegmentLengthUnderflow);
    let mut data: Vec<u8> = vec![0x00, 0x10, 0x00];
    data.extend_from_slice(&[1u8; 64]);
    assert_eq!(read_dqt(&data, 0).unwrap_err(), JpegError::SegmentLengthUnderflow);
}

#[test]
fn dht_canonical_codes() {
    // one DC table: 2 codes of length 2, 3 of length 3
    let mut data: Vec<u8> = vec![0x00, 0x18, 0x01];
    data.extend_from_slice(&[0, 2, 3, 0, 0, 0, 0, 0, 0, 0, 0, 0, 0, 0, 0, 0]);
    data.extend_from_slice(&[0x0A, 0x0B, 0x0C, 0x0D, 0x0E]);
    let (tables, q) = read_dht(&data, 0).unwrap();
    assert_eq!(q, data.len());
    assert_eq!(tables.len(), 1);
    let (class, id, map) = &tables[0];
    assert_eq!((*class, *id), (0, 1));
    assert_eq!(map.len(), 5);
    assert_eq!(map.get(&key(2, 0b00)), Some(&0x0A));
    assert_eq!(map.get(&key(2, 0b01)), Some(&0x0B));
    assert_eq!(map.get(&key(3, 0b100)), Some(&0x0C));
    assert_eq!(map.get(&key(3, 0b101)), Some(&0x0D));
    assert_eq!(map.get(&key(3, 0b110)), Some(&0x0E));
}

#[test]
fn dht_codes_longer_than_their_length_are_stored() {
    let mut data: Vec<u8> = vec![0x00, 0x16, 0x00];
    data.extend_from_slice(&[3, 0, 0, 0, 0, 0, 0, 0, 0, 0, 0, 0, 0, 0, 0, 0]);
    data.extend_from_slice(&[1, 2, 3]);
    let (tables, q) = read_dht(&data, 0).unwrap();
    assert_eq!(q, data.len());
    assert_eq!(tables.len(), 1);
    let map = &tables[0].2;
    assert_eq!(map.len(), 3);
    assert_eq!(map.get(&key(1, 0)), Some(&1));
    assert_eq!(map.get(&key(1, 1)), Some(&2));
    assert_eq!(map.get(&key(1, 2)), Some(&3));
}

#[test]
fn dht_code_counter_past_16_bits_is_rejected() {
    // 255 codes of length 1, one of length 8 and 254 of length 9: the last
    // code of length 9 would be 65535 + 1.
    let mut data: Vec<u8> = vec![0x02, 0x11, 0x00];
    let mut counts = [0u8; 16];
    counts[0] = 255;
    counts[7] = 1;
    counts[8] = 254;
    data.extend_from_slice(&counts);
    data.extend(std::iter::repeat(7u8).take(510));
    assert_eq!(read_dht(&data, 0).unwrap_err(), JpegError::InvalidHuffmanCode);
}

#[test]
fn storing_tables_checks_class_and_id() {
    let mut meta = JPEGMetaData::new();
    let mut m = HashMap::new();
    m.insert(key(1, 0), 7u8);
    let bad_class = vec![(2u8, 0u8, m.clone())];
    assert_eq!(store_huffman_tables(&mut meta, &bad_class), Err(JpegError::InvalidTableClass));
    let bad_id = vec![(1u8, 2u8, m.clone())];
    assert_eq!(store_huffman_tables(&mut meta, &bad_id), Err(JpegError::TableIdOutOfRange));
    let good = vec![(1u8, 1u8, m.clone())];
    assert_eq!(store_huffman_tables(&mut meta, &good), Ok(()));
    assert_eq!(meta.huffman_tables.ac_tables[1].get(&key(1, 0)), Some(&7));
    let quant = vec![(4usize, [1u16; 64])];
    assert_eq!(store_quant_tables(&mut meta, &quant), Err(JpegError::TableIdOutOfRange));
    let quant = vec![(3usize, [2u16; 64])];
    assert_eq!(store_quant_tables(&mut meta, &quant), Ok(()));
    assert_eq!(meta.quant_tables[3], [2u16; 64]);
}

#[test]
fn data_reader_reads_a_small_image() {
    let data = small_jpeg();
    let (meta, mcus) = data_reader(&data).unwrap();
    assert_eq!(meta.app_info.identifier, [0x4A, 0x46, 0x49, 0x46, 0x00]);
    assert_eq!(meta.sof_info.width, 8);
    assert_eq!(meta.sof_info.height, 8);
    assert_eq!(meta.sof_info.max_horizontal_sampling, 1);
    assert_eq!(meta.quant_tables[0], [1u16; 64]);
    assert_eq!(meta.table_mapping, [(0, 0), (0, 0), (0, 0)]);
    assert_eq!(mcus.len(), 1);
    assert_eq!(mcus[0].len(), 1);
    let y = &mcus[0][0][0];
    assert_eq!(y.len(), 1);
    assert_eq!(y[0].len(), 1);
    let mut expected = [[0i64; 8]; 8];
    expected[0][0] = 3;
    expected[0][1] = -1;
    assert_eq!(y[0][0], expected);
    assert_eq!(mcus[0][0][1][0][0], [[0i64; 8]; 8]);
    assert_eq!(mcus[0][0][2][0][0], [[0i64; 8]; 8]);
}

#[test]
fn data_reader_needs_an_end_of_image() {
    assert_eq!(data_reader(&[]).unwrap_err(), JpegError::UnexpectedEof);
    let mut data = small_jpeg();
    data.truncate(data.len() - 2);
    assert_eq!(data_reader(&data).unwrap_err(), JpegError::UnexpectedEof);
}

#[test]
fn data_reader_rejects_a_quantization_table_id_of_four() {
    let mut data: Vec<u8> = vec![0xFF, 0xD8, 0xFF, 0xDB, 0x00, 0x43, 0x04];
    data.extend_from_slice(&[1u8; 64]);
    data.extend_from_slice(&[0xFF, 0xD9]);
    assert_eq!(data_reader(&data).unwrap_err(), JpegError::TableIdOutOfRange);
}

#[test]
fn data_reader_rejects_a_scan_without_frame() {
    let data: Vec<u8> = vec![0xFF, 0xD8, 0xFF, 0xDA, 0x00, 0x0C, 0x03, 0x01, 0x00, 0x02, 0x00, 0x03, 0x00, 0x00, 0x3F, 0x00, 0xFF, 0xD9];
    assert_eq!(data_reader(&data).unwrap_err(), JpegError::InvalidDimensions);
}

#[test]
fn huffman_tables_are_prefix_codes() {
    let mut data: Vec<u8> = vec![0x00, 0x1B, 0x10];
    data.extend_from_slice(&[0, 1, 5, 1, 1, 0, 0, 0, 0, 0, 0, 0, 0, 0, 0, 0]);
    data.extend_from_slice(&[1, 2, 3, 4, 5, 6, 7, 8]);
    let (tables, _) = read_dht(&data, 0).unwrap();
    let keys: Vec<u32> = tables[0].2.keys().cloned().collect();
    assert_eq!(keys.len(), 8);
    for &k1 in &keys {
        let (l1, c1) = (k1 / 65536, k1 % 65536);
        assert!(l1 >= 1 && l1 <= 16 && c1 < (1 << l1));
        for &k2 in &keys {
            let (l2, c2) = (k2 / 65536, k2 % 65536);
            if k1 != k2 && l1 <= l2 {
                assert_ne!(c2 >> (l2 - l1), c1);
            }
        }
    }
}

#[test]
fn data_reader_ignores_bytes_after_the_end_of_image() {
    let data = small_jpeg();
    let mut longer = data.clone();
    longer.extend_from_slice(&[0xFF, 0xC0, 0x12, 0x34, 0xFF, 0xDB, 0x00]);
    let (meta, mcus) = data_reader(&data).unwrap();
    let (meta2, mcus2) = data_reader(&longer).unwrap();
    assert_eq!(mcus, mcus2);
    assert_eq!(format!("{:?}", meta.app_info), format!("{:?}", meta2.app_info));
    assert_eq!(format!("{:?}", meta.sof_info), format!("{:?}", meta2.sof_info));
    assert_eq!(meta.quant_tables, meta2.quant_tables);
    assert_eq!(meta.table_mapping, meta2.table_mapping);
    for i in 0..2 {
        assert_eq!(meta.huffman_tables.dc_tables[i], meta2.huffman_tables.dc_tables[i]);
        assert_eq!(meta.huffman_tables.ac_tables[i], meta2.huffman_tables.ac_tables[i]);
    }
}
