//! The data types shared by the reader and the decoder.

use std::collections::HashMap;
use vstd::prelude::*;

verus! {

/// Why a byte stream could not be read as a baseline JPEG.
#[derive(Clone, Copy, Debug, PartialEq, Eq, Structural)]
pub enum JpegError {
    /// A read went past the end of the data.
    UnexpectedEof,
    /// A segment holds more bytes than its length field announces.
    SegmentLengthUnderflow,
    /// A Huffman table assigns a code that does not fit its length.
    InvalidHuffmanCode,
    /// No code of length at most 16 matched the scan bits.
    HuffmanDecodeFailed,
    /// A 0xFF byte in the scan data is not followed by 0x00.
    BadByteStuffing,
    /// A component id outside 1, 2, 3.
    InvalidComponentId,
    /// A start-of-scan segment that does not list three components.
    SosComponentCount,
    /// The spectral selection bytes of a baseline scan are not 0, 63, 0.
    SosParameters,
    /// A table id that has no slot.
    TableIdOutOfRange,
    /// A Huffman table that is neither a DC nor an AC table.
    InvalidTableClass,
    /// A run of AC coefficients that goes past the 64 of a block.
    CoefficientOverflow,
    /// A decoded value that does not fit the integer that holds it.
    ValueOverflow,
    /// A frame whose size or sampling factors leave no MCU grid.
    InvalidDimensions,
    /// Scan data whose shape does not agree with the frame header.
    LayoutMismatch,
    /// A sample position in an MCU that overflows a byte.
    SampleIndexOverflow,
}

/// The 64 quantized DCT coefficients of an 8x8 block, stored at
/// `[k / 8][k % 8]` for the k-th coefficient in zigzag order.
pub type Block = [[i64; 8]; 8];

/// One minimum coded unit: for each of Y, Cb, Cr, its rows of blocks.
pub type MCU = [Vec<Vec<Block>>; 3];

/// The key under which a Huffman code of `len` bits with value `code` is
/// stored in a table.
pub open spec fn huffman_key(len: int, code: int) -> int {
    len * 65536 + code
}

#[derive(Debug)]
/// Huffman tables, each a map from `huffman_key(length, code)` to the
/// symbol that the code stands for.
pub struct HuffmanTable {
    pub dc_tables: [HashMap<u32, u8>; 2],
    pub ac_tables: [HashMap<u32, u8>; 2],
}

#[derive(Clone, Copy, Debug)]
pub struct ComponentInfo {
    pub horizontal_sampling: u8,
    pub vertical_sampling: u8,
    pub quant_table_id: u8,
}

#[derive(Clone, Copy, Debug)]
pub struct SofInfo {
    pub precision: u8,
    pub height: u16,
    pub width: u16,
    pub component_infos: [ComponentInfo; 3],
    pub max_horizontal_sampling: u8,
    pub max_vertical_sampling: u8,
}

/// The fields of the APP0 (JFIF) segment.
#[derive(Clone, Copy, Debug)]
pub struct AppInfo {
    pub identifier: [u8; 5],
    pub version_major_id: u8,
    pub version_minor_id: u8,
    pub units: u8,
    pub x_density: u16,
    pub y_density: u16,
    pub x_thumbnail: u8,
    pub y_thumbnail: u8,
}

pub open spec fn zero_component() -> ComponentInfo {
    ComponentInfo { horizontal_sampling: 0, vertical_sampling: 0, quant_table_id: 0 }
}

pub open spec fn zero_sof_info() -> SofInfo {
    SofInfo {
        precision: 0,
        height: 0,
        width: 0,
        component_infos: [zero_component(), zero_component(), zero_component()],
        max_horizontal_sampling: 0,
        max_vertical_sampling: 0,
    }
}


pub open spec fn zero_app_info() -> AppInfo {
    AppInfo {
        identifier: [0u8, 0u8, 0u8, 0u8, 0u8],
        version_major_id: 0,
        version_minor_id: 0,
        units: 0,
        x_density: 0,
        y_density: 0,
        x_thumbnail: 0,
        y_thumbnail: 0,
    }
}

/// Everything read from the segments before the scan data.
#[derive(Debug)]
pub struct JPEGMetaData {
    pub app_info: AppInfo,
    pub sof_info: SofInfo,
    pub huffman_tables: HuffmanTable,
    pub quant_tables: [[u16; 64]; 4],
    pub table_mapping: [(usize, usize); 3],
}

/// `JPEGMetaData` with its Huffman and quantization tables taken by value.
pub struct MetaModel {
    pub app_info: AppInfo,
    pub sof_info: SofInfo,
    pub dc_tables: Seq<Map<u32, u8>>,
    pub ac_tables: Seq<Map<u32, u8>>,
    pub quant_tables: Seq<Seq<u16>>,
    pub table_mapping: [(usize, usize); 3],
}

impl View for JPEGMetaData {
    type V = MetaModel;

    open spec fn view(&self) -> MetaModel {
        MetaModel {
            app_info: self.app_info,
            sof_info: self.sof_info,
            dc_tables: self.huffman_tables.dc_tables@.map_values(|m: HashMap<u32, u8>| m@),
            ac_tables: self.huffman_tables.ac_tables@.map_values(|m: HashMap<u32, u8>| m@),
            quant_tables: self.quant_tables@.map_values(|t: [u16; 64]| t@),
            table_mapping: self.table_mapping,
        }
    }
}

/// Metadata before any segment has been read: all fields zero, all
/// Huffman tables empty.
pub open spec fn initial_meta() -> MetaModel {
    MetaModel {
        app_info: zero_app_info(),
        sof_info: zero_sof_info(),
        dc_tables: seq![Map::empty(), Map::empty()],
        ac_tables: seq![Map::empty(), Map::empty()],
        quant_tables: Seq::new(4, |i: int| Seq::new(64, |k: int| 0u16)),
        table_mapping: [(0usize, 0usize), (0usize, 0usize), (0usize, 0usize)],
    }
}

impl JPEGMetaData {
    pub fn new() -> (m: JPEGMetaData)
        ensures
            m@ == initial_meta(),
    {
        let zero = ComponentInfo { horizontal_sampling: 0, vertical_sampling: 0, quant_table_id: 0 };
        let m = JPEGMetaData {
            app_info: AppInfo {
                identifier: [0; 5],
                version_major_id: 0,
                version_minor_id: 0,
                units: 0,
                x_density: 0,
                y_density: 0,
                x_thumbnail: 0,
                y_thumbnail: 0,
            },
            sof_info: SofInfo {
                precision: 0,
                height: 0,
                width: 0,
                component_infos: [zero, zero, zero],
                max_horizontal_sampling: 0,
                max_vertical_sampling: 0,
            },
            huffman_tables: HuffmanTable {
                dc_tables: [HashMap::new(), HashMap::new()],
                ac_tables: [HashMap::new(), HashMap::new()],
            },
            quant_tables: [[0; 64]; 4],
            table_mapping: [(0, 0), (0, 0), (0, 0)],
        };
        assert(m.app_info.identifier =~= zero_app_info().identifier);
        assert(m@.dc_tables =~= initial_meta().dc_tables);
        assert(m@.ac_tables =~= initial_meta().ac_tables);
        assert forall|i: int| 0 <= i < 4 implies #[trigger] m@.quant_tables[i] =~= initial_meta().quant_tables[i] by {}
        assert(m@.quant_tables =~= initial_meta().quant_tables);
        m
    }
}

}
