use jpeg_tutorial::scan::read_mcus;
use std::collections::HashMap;
use jpeg_tutorial::decoder::{
    assemble_image, decode_mcu, dequantize_block, mcu_layout, plan_image, sample_map, McuLayout, SamplePos, ZZ,
};
use jpeg_tutorial::image::Color;
use jpeg_tutorial::primitives::{ComponentInfo, JPEGMetaData, JpegError, SofInfo, MCU};

fn sof(width: u16, height: u16, sampling: [(u8, u8); 3]) -> SofInfo {
    let mut infos = [ComponentInfo { horizontal_sampling: 0, vertical_sampling: 0, quant_table_id: 0 }; 3];
    for id in 0..3 {
        infos[id].horizontal_sampling = sampling[id].0;
        infos[id].vertical_sampling = sampling[id].1;
    }
    let max_h = sampling.iter().map(|s| s.0).max().unwrap();
    let max_v = sampling.iter().map(|s| s.1).max().unwrap();
    SofInfo {
        precision: 8,
        height,
        width,
        component_infos: infos,
        max_horizontal_sampling: max_h,
        max_vertical_sampling: max_v,
    }
}

#[test]
fn zigzag_table_is_a_permutation() {
    let mut seen = [false; 64];
    for i in 0..8 {
        for j in 0..8 {
            assert!(!seen[ZZ[i][j]]);
            seen[ZZ[i][j]] = true;
        }
    }
    assert!(seen.iter().all(|b| *b));
}

#[test]
fn dequantize_reorders_and_scales() {
    let mut block = [[0i64; 8]; 8];
    block[0][0] = 3;
    block[0][1] = -1;
    block[0][2] = 7;
    let mut quant = [1u16; 64];
    quant[0] = 16;
    quant[1] = 11;
    quant[2] = 10;
    let c = dequantize_block(&block, &quant);
    assert_eq!(c[0][0], 48);
    assert_eq!(c[0][1], -11);
    assert_eq!(c[1][0], 70);
    let total: i128 = c.iter().map(|r| r.iter().map(|x| x.abs()).sum::<i128>()).sum();
    assert_eq!(total, 48 + 11 + 70);
}

#[test]
fn layout_covers_the_frame() {
    let l = mcu_layout(&sof(17, 9, [(2, 2), (1, 1), (1, 1)])).unwrap();
    assert_eq!((l.mcu_width, l.mcu_height), (16, 16));
    assert_eq!((l.mcu_width_number, l.mcu_height_number), (2, 1));
    let l = mcu_layout(&sof(16, 16, [(1, 1), (1, 1), (1, 1)])).unwrap();
    assert_eq!((l.mcu_width_number, l.mcu_height_number), (2, 2));
    assert_eq!(mcu_layout(&sof(0, 8, [(1, 1), (1, 1), (1, 1)])).unwrap_err(), JpegError::InvalidDimensions);
    assert_eq!(mcu_layout(&sof(8, 8, [(0, 0), (0, 0), (0, 0)])).unwrap_err(), JpegError::InvalidDimensions);
}

#[test]
fn sample_positions_follow_the_sampling_factors() {
    let map = sample_map(&sof(16, 16, [(2, 2), (1, 1), (1, 1)])).unwrap();
    assert_eq!(map.len(), 16);
    assert_eq!(map[0].len(), 16);
    assert_eq!(map[9][3][0], SamplePos { block_row: 1, block_col: 0, row: 1, col: 3 });
    assert_eq!(map[9][3][1], SamplePos { block_row: 0, block_col: 0, row: 4, col: 1 });
    assert_eq!(map[15][15][2], SamplePos { block_row: 0, block_col: 0, row: 7, col: 7 });
}

#[test]
fn sample_map_errors() {
    assert_eq!(sample_map(&sof(8, 8, [(1, 1), (0, 1), (1, 1)])).unwrap_err(), JpegError::LayoutMismatch);
    assert_eq!(sample_map(&sof(8, 8, [(8, 8), (8, 8), (8, 8)])).unwrap_err(), JpegError::SampleIndexOverflow);
    let mut big = sof(8, 8, [(1, 1), (1, 1), (1, 1)]);
    big.max_vertical_sampling = 32;
    assert_eq!(sample_map(&big).unwrap_err(), JpegError::SampleIndexOverflow);
}

fn one_block_mcu(dc: i64) -> MCU {
    let mut b = [[0i64; 8]; 8];
    b[0][0] = dc;
    [vec![vec![b]], vec![vec![[[0i64; 8]; 8]]], vec![vec![[[0i64; 8]; 8]]]]
}

fn meta_8x8() -> JPEGMetaData {
    let mut meta = JPEGMetaData::new();
    meta.sof_info = sof(8, 8, [(1, 1), (1, 1), (1, 1)]);
    meta.quant_tables[0] = [2u16; 64];
    meta
}

#[test]
fn decode_mcu_uses_the_quantization_table_of_each_component() {
    let mut meta = meta_8x8();
    meta.quant_tables[1] = [5u16; 64];
    meta.sof_info.component_infos[1].quant_table_id = 1;
    let mut mcu = one_block_mcu(4);
    mcu[1][0][0][0][0] = 3;
    let d = decode_mcu(&mcu, &meta).unwrap();
    assert_eq!(d[0][0][0][0][0], 8);
    assert_eq!(d[1][0][0][0][0], 15);
    meta.sof_info.component_infos[2].quant_table_id = 4;
    assert_eq!(decode_mcu(&mcu, &meta).unwrap_err(), JpegError::TableIdOutOfRange);
}

#[test]
fn plan_image_checks_the_mcu_grid() {
    let meta = meta_8x8();
    let none: Vec<Vec<MCU>> = Vec::new();
    assert_eq!(plan_image(&meta, &none).err(), Some(JpegError::LayoutMismatch));
    let one = vec![vec![one_block_mcu(5)]];
    let plan = plan_image(&meta, &one).unwrap();
    assert_eq!(plan.layout.mcu_width_number, 1);
    assert_eq!(plan.mcus[0][0][0][0][0][0][0], 10);
    assert_eq!(plan.sample_map.len(), 8);
}

#[test]
fn assembled_image_places_each_tile() {
    let layout = McuLayout { mcu_width: 2, mcu_height: 1, mcu_width_number: 2, mcu_height_number: 2 };
    let c = |v: u8| Color::RGB(v, v, v);
    let tiles = vec![
        vec![vec![vec![c(1), c(2)]], vec![vec![c(3), c(4)]]],
        vec![vec![vec![c(5), c(6)]], vec![vec![c(7), c(8)]]],
    ];
    let image = assemble_image(&layout, &tiles);
    assert_eq!((image.width, image.height), (4, 2));
    assert_eq!(image.pixels[0], vec![c(1), c(2), c(3), c(4)]);
    assert_eq!(image.pixels[1], vec![c(5), c(6), c(7), c(8)]);
}

#[test]
fn every_sample_lies_in_a_block() {
    let s = sof(32, 16, [(2, 1), (1, 1), (2, 1)]);
    let map = sample_map(&s).unwrap();
    for row in &map {
        for cell in row {
            for id in 0..3 {
                let p = cell[id];
                assert!(p.block_row < s.component_infos[id].vertical_sampling as usize);
                assert!(p.block_col < s.component_infos[id].horizontal_sampling as usize);
                assert!(p.row < 8 && p.col < 8);
            }
        }
    }
}

#[test]
fn reader_grid_matches_layout() {
    let mut meta = meta_8x8();
    meta.sof_info = sof(20, 10, [(1, 1), (1, 1), (1, 1)]);
    let mut dc = HashMap::new();
    dc.insert(65536u32, 0u8);
    let mut ac = HashMap::new();
    ac.insert(65536u32, 0u8);
    meta.huffman_tables.dc_tables[0] = dc;
    meta.huffman_tables.ac_tables[0] = ac;
    // every block is a 0 DC code and an end-of-block code: 6 zero bits per MCU
    let data = [0u8; 8];
    let (mcus, _) = read_mcus(&data, 0, &meta).unwrap();
    let l = mcu_layout(&meta.sof_info).unwrap();
    assert_eq!(mcus.len(), l.mcu_height_number);
    for row in &mcus {
        assert_eq!(row.len(), l.mcu_width_number);
        for mcu in row {
            for id in 0..3 {
                assert_eq!(mcu[id].len(), 1);
                assert_eq!(mcu[id][0].len(), 1);
            }
        }
    }
    assert_eq!((l.mcu_width_number, l.mcu_height_number), (3, 2));
}
