//! The integer steps of decoding: the MCU layout of the frame,
//! dequantization and the zigzag reorder, the sample positions of the
//! upsampling, and the placing of decoded MCUs into the image.

use vstd::prelude::*;
use crate::image::{Color, Image};
use crate::primitives::{Block, ComponentInfo, JPEGMetaData, JpegError, MCU, MetaModel, SofInfo};
use crate::scan::{McuModel, block_view, mcu_view, mcus_view, spec_mcu_counts};

verus! {

/// `ZZ[i][j]` is the zigzag index of the coefficient at row `i`, column `j`.
pub const ZZ: [[usize; 8]; 8] = [
    [0, 1, 5, 6, 14, 15, 27, 28],
    [2, 4, 7, 13, 16, 26, 29, 42],
    [3, 8, 12, 17, 25, 30, 41, 43],
    [9, 11, 18, 24, 31, 40, 44, 53],
    [10, 19, 23, 32, 39, 45, 52, 54],
    [20, 22, 33, 38, 46, 51, 55, 60],
    [21, 34, 37, 47, 50, 56, 59, 61],
    [35, 36, 48, 49, 57, 58, 62, 63],
];

/// The zigzag index of the coefficient at row-major position `k`.
pub open spec fn zz(k: int) -> int {
    ZZ@[k / 8]@[k % 8] as int
}

pub proof fn lemma_zz_range()
    ensures
        forall|k: int| 0 <= k < 64 ==> 0 <= #[trigger] zz(k) < 64,
{
    assert forall|k: int| 0 <= k < 64 implies 0 <= #[trigger] zz(k) < 64 by {
        let i = k / 8;
        assert(0 <= i < 8);
        assert(ZZ@[i]@.len() == 8);
    }
}


/// Dequantized DCT coefficients of a block, at their row and column.
pub type Coefficients = [[i128; 8]; 8];

/// The dequantized blocks of an MCU: for each of Y, Cb, Cr, its rows of
/// blocks.
pub type DequantMcu = [Vec<Vec<Coefficients>>; 3];

/// The 64 coefficients in row-major order.
pub open spec fn coefficients_view(c: Coefficients) -> Seq<i128> {
    Seq::new(64, |k: int| c@[k / 8]@[k % 8])
}

/// The block whose coefficient at row-major position `k` is the one at
/// zigzag index `zz(k)` of `b`, times the quantization entry there.
pub open spec fn spec_dequantize(b: Seq<i64>, q: Seq<u16>) -> Seq<i128> {
    Seq::new(64, |k: int| (b[zz(k)] as int * q[zz(k)] as int) as i128)
}

/// Multiplies each coefficient by its quantization entry and puts it in its
/// place in the 8x8 grid.
pub fn dequantize_block(block: &Block, quant: &[u16; 64]) -> (r: Coefficients)
    ensures
        coefficients_view(r) == spec_dequantize(block_view(*block), quant@),
{
    proof {
        lemma_zz_range();
    }
    let mut out: Coefficients = [[0; 8]; 8];
    let mut i: usize = 0;
    while i < 8
        invariant
            i <= 8,
            forall|k: int| 0 <= k < 8 * i ==> #[trigger] coefficients_view(out)[k]
                == spec_dequantize(block_view(*block), quant@)[k],
        decreases 8 - i,
    {
        let mut j: usize = 0;
        while j < 8
            invariant
                i < 8,
                j <= 8,
                forall|k: int| 0 <= k < 8 * i + j ==> #[trigger] coefficients_view(out)[k]
                    == spec_dequantize(block_view(*block), quant@)[k],
            decreases 8 - j,
        {
            let z = ZZ[i][j];
            assert(z as int == zz(8 * i + j));
            let c = block[z / 8][z % 8] as i128;
            let q = quant[z] as i128;
            assert(-9223372036854775808 * 65535 <= c * q <= 9223372036854775807 * 65535) by (nonlinear_arith)
                requires
                    -9223372036854775808 <= c <= 9223372036854775807,
                    0 <= q <= 65535,
            ;
            let ghost old_out = out;
            out[i][j] = c * q;
            assert forall|k: int| 0 <= k < 8 * i + j + 1 implies #[trigger] coefficients_view(out)[k]
                == spec_dequantize(block_view(*block), quant@)[k] by {
                if k < 8 * i + j {
                    assert(coefficients_view(out)[k] == coefficients_view(old_out)[k]);
                }
            }
            j = j + 1;
        }
        i = i + 1;
    }
    assert(coefficients_view(out) =~= spec_dequantize(block_view(*block), quant@));
    out
}


/// The size of an MCU in pixels and the number of MCUs across and down the
/// frame.
#[derive(Clone, Copy, Debug)]
pub struct McuLayout {
    pub mcu_width: usize,
    pub mcu_height: usize,
    pub mcu_width_number: usize,
    pub mcu_height_number: usize,
}

/// An MCU is 8 times the largest sampling factors wide and high; there are
/// as many across (down) as it takes to cover the frame's width (height).
pub open spec fn spec_mcu_layout(sof: SofInfo) -> Result<McuLayout, JpegError> {
    let mcu_width = 8 * sof.max_horizontal_sampling;
    let mcu_height = 8 * sof.max_vertical_sampling;
    if sof.width == 0 || mcu_width == 0 || sof.height == 0 || mcu_height == 0 {
        Err(JpegError::InvalidDimensions)
    } else {
        Ok(McuLayout {
            mcu_width: mcu_width as usize,
            mcu_height: mcu_height as usize,
            mcu_width_number: ((sof.width - 1) / mcu_width + 1) as usize,
            mcu_height_number: ((sof.height - 1) / mcu_height + 1) as usize,
        })
    }
}

/// The MCU layout of a frame. The MCUs cover the frame, and no row or
/// column of MCUs lies wholly outside it.
pub fn mcu_layout(sof_info: &SofInfo) -> (r: Result<McuLayout, JpegError>)
    ensures
        r == spec_mcu_layout(*sof_info),
        r matches Ok(l) ==> {
            &&& 0 < sof_info.width <= l.mcu_width_number * l.mcu_width
            &&& (l.mcu_width_number - 1) * l.mcu_width < sof_info.width
            &&& 0 < sof_info.height <= l.mcu_height_number * l.mcu_height
            &&& (l.mcu_height_number - 1) * l.mcu_height < sof_info.height
            &&& l.mcu_width_number * l.mcu_width <= 65535 + 2040
            &&& l.mcu_height_number * l.mcu_height <= 65535 + 2040
        },
{
    let mcu_width = 8 * sof_info.max_horizontal_sampling as usize;
    let mcu_height = 8 * sof_info.max_vertical_sampling as usize;
    if sof_info.width == 0 || mcu_width == 0 || sof_info.height == 0 || mcu_height == 0 {
        return Err(JpegError::InvalidDimensions);
    }
    let mcu_width_number = (sof_info.width as usize - 1) / mcu_width + 1;
    let mcu_height_number = (sof_info.height as usize - 1) / mcu_height + 1;
    proof {
        lemma_cover(sof_info.width as int, mcu_width as int);
        lemma_cover(sof_info.height as int, mcu_height as int);
    }
    Ok(McuLayout { mcu_width, mcu_height, mcu_width_number, mcu_height_number })
}

/// `(n - 1) / size + 1` blocks of `size` cover `n` and no more than one
/// block beyond it.
pub proof fn lemma_cover(n: int, size: int)
    requires
        0 < n <= 65535,
        0 < size <= 2040,
    ensures
        n <= ((n - 1) / size + 1) * size,
        ((n - 1) / size) * size < n,
        ((n - 1) / size + 1) * size < n + size,
{
    let q = (n - 1) / size;
    let r = (n - 1) % size;
    assert(n - 1 == q * size + r && 0 <= r < size) by (nonlinear_arith)
        requires
            size > 0,
            q == (n - 1) / size,
            r == (n - 1) % size,
    ;
    assert((q + 1) * size == q * size + size) by (nonlinear_arith);
}

/// Whether component `c` has at least `v` rows of at least `h` blocks.
pub open spec fn component_fits(c: Seq<Seq<Seq<i64>>>, v: int, h: int) -> bool {
    &&& c.len() >= v
    &&& forall|r: int| 0 <= r < v ==> #[trigger] c[r].len() >= h
}

/// The first `v` rows of the first `h` blocks of a component, dequantized
/// with the table its frame header names. A component with blocks must
/// name one of the 4 tables and have those blocks.
pub open spec fn spec_decode_component(c: Seq<Seq<Seq<i64>>>, info: ComponentInfo, quant: Seq<Seq<u16>>)
    -> Result<Seq<Seq<Seq<i128>>>, JpegError>
{
    let v = info.vertical_sampling as int;
    let h = info.horizontal_sampling as int;
    if v == 0 || h == 0 {
        Ok(Seq::new(v as nat, |r: int| Seq::empty()))
    } else if info.quant_table_id >= 4 {
        Err(JpegError::TableIdOutOfRange)
    } else if !component_fits(c, v, h) {
        Err(JpegError::LayoutMismatch)
    } else {
        Ok(Seq::new(v as nat, |r: int| Seq::new(h as nat, |w: int|
            spec_dequantize(c[r][w], quant[info.quant_table_id as int]))))
    }
}

/// An MCU dequantized and reordered: for each of Y, Cb, Cr, its rows of
/// blocks of 64 coefficients in row-major order.
pub type DequantModel = Seq<Seq<Seq<Seq<i128>>>>;

/// The components of an MCU, from Y to Cr, each decoded as
/// `spec_decode_component` says.
pub open spec fn spec_decode_mcu(mcu: McuModel, m: MetaModel) -> Result<DequantModel, JpegError> {
    let infos = m.sof_info.component_infos;
    match spec_decode_component(mcu[0], infos[0], m.quant_tables) {
        Err(e) => Err(e),
        Ok(c0) => match spec_decode_component(mcu[1], infos[1], m.quant_tables) {
            Err(e) => Err(e),
            Ok(c1) => match spec_decode_component(mcu[2], infos[2], m.quant_tables) {
                Err(e) => Err(e),
                Ok(c2) => Ok(seq![c0, c1, c2]),
            },
        },
    }
}

pub open spec fn dequant_component_view(c: Vec<Vec<Coefficients>>) -> Seq<Seq<Seq<i128>>> {
    c@.map_values(|row: Vec<Coefficients>| row@.map_values(|b: Coefficients| coefficients_view(b)))
}

pub open spec fn dequant_mcu_view(d: DequantMcu) -> DequantModel {
    d@.map_values(|c: Vec<Vec<Coefficients>>| dequant_component_view(c))
}

/// Dequantizes and reorders the blocks of one component.
#[verifier::loop_isolation(false)]
fn decode_component(c: &Vec<Vec<Block>>, info: ComponentInfo, quant_tables: &[[u16; 64]; 4])
    -> (r: Result<Vec<Vec<Coefficients>>, JpegError>)
    ensures
        match r {
            Ok(d) => spec_decode_component(crate::scan::component_view(*c), info, quant_tables@.map_values(|t: [u16; 64]| t@))
                == Ok::<Seq<Seq<Seq<i128>>>, JpegError>(dequant_component_view(d)),
            Err(e) => spec_decode_component(crate::scan::component_view(*c), info, quant_tables@.map_values(|t: [u16; 64]| t@))
                == Err::<Seq<Seq<Seq<i128>>>, JpegError>(e),
        },
{
    let ghost cv = crate::scan::component_view(*c);
    let ghost quants = quant_tables@.map_values(|t: [u16; 64]| t@);
    let v = info.vertical_sampling as usize;
    let h = info.horizontal_sampling as usize;
    let mut out: Vec<Vec<Coefficients>> = Vec::new();
    if v == 0 || h == 0 {
        let mut r: usize = 0;
        while r < v
            invariant
                r <= v,
                out@.len() == r,
                forall|k: int| 0 <= k < r ==> #[trigger] out@[k]@.len() == 0,
            decreases v - r,
        {
            out.push(Vec::new());
            r = r + 1;
        }
        assert(dequant_component_view(out) =~= Seq::new(v as nat, |r: int| Seq::<Seq<i128>>::empty())) by {
            assert forall|k: int| 0 <= k < v implies #[trigger] dequant_component_view(out)[k] =~= Seq::<Seq<i128>>::empty() by {}
        }
        return Ok(out);
    }
    let qid = info.quant_table_id as usize;
    if qid >= 4 {
        return Err(JpegError::TableIdOutOfRange);
    }
    let qtable = &quant_tables[qid];
    if c.len() < v {
        return Err(JpegError::LayoutMismatch);
    }
    let mut r: usize = 0;
    while r < v
        invariant
            r <= v,
            c@.len() >= v,
            forall|k: int| 0 <= k < r ==> #[trigger] c@[k]@.len() >= h,
        decreases v - r,
    {
        if c[r].len() < h {
            assert(!component_fits(cv, v as int, h as int)) by {
                assert(cv[r as int].len() < h);
            }
            return Err(JpegError::LayoutMismatch);
        }
        r = r + 1;
    }
    assert(component_fits(cv, v as int, h as int)) by {
        assert forall|k: int| 0 <= k < v implies #[trigger] cv[k].len() >= h by {
            assert(c@[k]@.len() >= h);
        }
    }
    let ghost target = Seq::new(v as nat, |r: int| Seq::new(h as nat, |w: int| spec_dequantize(cv[r][w], quants[qid as int])));
    let mut r: usize = 0;
    while r < v
        invariant
            r <= v,
            c@.len() >= v,
            forall|k: int| 0 <= k < v ==> #[trigger] c@[k]@.len() >= h,
            qtable@ == quant_tables@[qid as int]@,
            dequant_component_view(out) =~= target.take(r as int),
        decreases v - r,
    {
        let mut row: Vec<Coefficients> = Vec::new();
        let mut w: usize = 0;
        while w < h
            invariant
                r < v,
                w <= h,
                c@[r as int]@.len() >= h,
                row@.map_values(|b: Coefficients| coefficients_view(b)) =~= target[r as int].take(w as int),
            decreases h - w,
        {
            let b = dequantize_block(&c[r][w], qtable);
            let ghost old_row = row@;
            row.push(b);
            assert(row@.map_values(|b: Coefficients| coefficients_view(b))
                =~= old_row.map_values(|b: Coefficients| coefficients_view(b)).push(coefficients_view(b)));
            w = w + 1;
        }
        let ghost old_out = out@;
        out.push(row);
        assert(dequant_component_view(out) =~= old_out.map_values(|row: Vec<Coefficients>| row@.map_values(|b: Coefficients| coefficients_view(b))).push(
            row@.map_values(|b: Coefficients| coefficients_view(b))));
        assert(target[r as int].take(h as int) =~= target[r as int]);
        r = r + 1;
    }
    assert(target.take(v as int) =~= target);
    Ok(out)
}

/// Dequantizes and reorders the blocks of an MCU.
pub fn decode_mcu(mcu: &MCU, jpeg_meta_data: &JPEGMetaData) -> (r: Result<DequantMcu, JpegError>)
    ensures
        match r {
            Ok(d) => spec_decode_mcu(mcu_view(*mcu), jpeg_meta_data@) == Ok::<DequantModel, JpegError>(dequant_mcu_view(d)),
            Err(e) => spec_decode_mcu(mcu_view(*mcu), jpeg_meta_data@) == Err::<DequantModel, JpegError>(e),
        },
{
    let infos = jpeg_meta_data.sof_info.component_infos;
    let c0 = match decode_component(&mcu[0], infos[0], &jpeg_meta_data.quant_tables) { Ok(v) => v, Err(e) => return Err(e) };
    let c1 = match decode_component(&mcu[1], infos[1], &jpeg_meta_data.quant_tables) { Ok(v) => v, Err(e) => return Err(e) };
    let c2 = match decode_component(&mcu[2], infos[2], &jpeg_meta_data.quant_tables) { Ok(v) => v, Err(e) => return Err(e) };
    let d: DequantMcu = [c0, c1, c2];
    assert(dequant_mcu_view(d) =~= seq![dequant_component_view(d[0]), dequant_component_view(d[1]), dequant_component_view(d[2])]);
    Ok(d)
}


/// Where the sample of a component for one pixel of an MCU lies: the row
/// and column of its block in the MCU, and its row and column in the block.
#[derive(Clone, Copy, Debug, PartialEq, Eq, Structural)]
pub struct SamplePos {
    pub block_row: usize,
    pub block_col: usize,
    pub row: usize,
    pub col: usize,
}

/// The sample of a component with `info` for the pixel at row `i`, column
/// `j` of an MCU: the pixel's position scaled by the component's sampling
/// factors over the largest ones, rounded down.
pub open spec fn spec_sample_pos(i: int, j: int, info: ComponentInfo, max_v: int, max_h: int) -> SamplePos {
    let vh = i * info.vertical_sampling / max_v;
    let vw = j * info.horizontal_sampling / max_h;
    SamplePos { block_row: (vh / 8) as usize, block_col: (vw / 8) as usize, row: (vh % 8) as usize, col: (vw % 8) as usize }
}

/// Why the samples of a frame's MCUs cannot be located, if they cannot:
/// the MCU size must fit in a byte, every component must have blocks, and
/// a pixel position times a sampling factor must fit in a byte.
pub open spec fn spec_sample_error(sof: SofInfo) -> Option<JpegError> {
    let mh = 8 * sof.max_vertical_sampling;
    let mw = 8 * sof.max_horizontal_sampling;
    let c = sof.component_infos;
    if mh > 255 || mw > 255 {
        Some(JpegError::SampleIndexOverflow)
    } else if mh == 0 || mw == 0 {
        None
    } else if c[0].vertical_sampling == 0 || c[0].horizontal_sampling == 0 || c[1].vertical_sampling == 0
        || c[1].horizontal_sampling == 0 || c[2].vertical_sampling == 0 || c[2].horizontal_sampling == 0 {
        Some(JpegError::LayoutMismatch)
    } else if (mh - 1) * c[0].vertical_sampling > 255 || (mw - 1) * c[0].horizontal_sampling > 255
        || (mh - 1) * c[1].vertical_sampling > 255 || (mw - 1) * c[1].horizontal_sampling > 255
        || (mh - 1) * c[2].vertical_sampling > 255 || (mw - 1) * c[2].horizontal_sampling > 255 {
        Some(JpegError::SampleIndexOverflow)
    } else {
        None
    }
}

/// For each pixel of an MCU, row by row, the sample of each of Y, Cb, Cr.
pub open spec fn spec_sample_map(sof: SofInfo) -> Result<Seq<Seq<Seq<SamplePos>>>, JpegError> {
    match spec_sample_error(sof) {
        Some(e) => Err(e),
        None => {
            let max_v = sof.max_vertical_sampling as int;
            let max_h = sof.max_horizontal_sampling as int;
            Ok(Seq::new((8 * max_v) as nat, |i: int| Seq::new((8 * max_h) as nat, |j: int|
                Seq::new(3, |id: int| spec_sample_pos(i, j, sof.component_infos[id], max_v, max_h)))))
        },
    }
}

pub open spec fn sample_map_view(v: Seq<Vec<[SamplePos; 3]>>) -> Seq<Seq<Seq<SamplePos>>> {
    v.map_values(|row: Vec<[SamplePos; 3]>| row@.map_values(|a: [SamplePos; 3]| a@))
}

/// A sample lies in one of the blocks of its component.
pub proof fn lemma_sample_in_block(i: int, j: int, info: ComponentInfo, max_v: int, max_h: int)
    requires
        0 <= i < 8 * max_v,
        0 <= j < 8 * max_h,
        info.vertical_sampling > 0,
        info.horizontal_sampling > 0,
    ensures
        spec_sample_pos(i, j, info, max_v, max_h).block_row < info.vertical_sampling,
        spec_sample_pos(i, j, info, max_v, max_h).block_col < info.horizontal_sampling,
        spec_sample_pos(i, j, info, max_v, max_h).row < 8,
        spec_sample_pos(i, j, info, max_v, max_h).col < 8,
{
    let v = info.vertical_sampling as int;
    let h = info.horizontal_sampling as int;
    assert(i * v / max_v < 8 * v && i * v / max_v >= 0) by (nonlinear_arith)
        requires
            0 <= i < 8 * max_v,
            v > 0,
    ;
    assert(j * h / max_h < 8 * h && j * h / max_h >= 0) by (nonlinear_arith)
        requires
            0 <= j < 8 * max_h,
            h > 0,
    ;
}

/// Whether `a * b` does not fit in a byte.
fn exceeds_byte(a: u32, b: u8) -> (r: bool)
    requires
        a <= 255,
    ensures
        r == (a * b > 255),
{
    assert(a * b <= 255 * 255) by (nonlinear_arith)
        requires
            a <= 255,
            b <= 255,
    ;
    a * (b as u32) > 255
}

/// Locates, for each pixel of an MCU, the sample of each component.
pub fn sample_map(sof_info: &SofInfo) -> (r: Result<Vec<Vec<[SamplePos; 3]>>, JpegError>)
    ensures
        match r {
            Ok(m) => spec_sample_map(*sof_info) == Ok::<Seq<Seq<Seq<SamplePos>>>, JpegError>(sample_map_view(m@)),
            Err(e) => spec_sample_map(*sof_info) == Err::<Seq<Seq<Seq<SamplePos>>>, JpegError>(e),
        },
{
    let max_v = sof_info.max_vertical_sampling as u32;
    let max_h = sof_info.max_horizontal_sampling as u32;
    let mh: u32 = 8 * max_v;
    let mw: u32 = 8 * max_h;
    let c = sof_info.component_infos;
    if mh > 255 || mw > 255 {
        return Err(JpegError::SampleIndexOverflow);
    }
    let mut map: Vec<Vec<[SamplePos; 3]>> = Vec::new();
    if mh == 0 || mw == 0 {
        if mh == 0 {
            assert(sample_map_view(map@) =~= Seq::new(0, |i: int| Seq::<Seq<SamplePos>>::empty()));
        } else {
            let mut i: u32 = 0;
            while i < mh
                invariant
                    i <= mh,
                    mw == 0,
                    map@.len() == i,
                    forall|k: int| 0 <= k < i ==> #[trigger] map@[k]@.len() == 0,
                decreases mh - i,
            {
                map.push(Vec::new());
                i = i + 1;
            }
        }
        let ghost target = Seq::new(mh as nat, |i: int| Seq::new(mw as nat, |j: int|
            Seq::new(3, |id: int| spec_sample_pos(i, j, sof_info.component_infos[id], max_v as int, max_h as int))));
        assert(sample_map_view(map@) =~= target) by {
            assert forall|k: int| 0 <= k < mh implies #[trigger] sample_map_view(map@)[k] =~= target[k] by {}
        }
        return Ok(map);
    }
    if c[0].vertical_sampling == 0 || c[0].horizontal_sampling == 0 || c[1].vertical_sampling == 0
        || c[1].horizontal_sampling == 0 || c[2].vertical_sampling == 0 || c[2].horizontal_sampling == 0 {
        return Err(JpegError::LayoutMismatch);
    }
    if exceeds_byte(mh - 1, c[0].vertical_sampling) || exceeds_byte(mw - 1, c[0].horizontal_sampling)
        || exceeds_byte(mh - 1, c[1].vertical_sampling) || exceeds_byte(mw - 1, c[1].horizontal_sampling)
        || exceeds_byte(mh - 1, c[2].vertical_sampling) || exceeds_byte(mw - 1, c[2].horizontal_sampling) {
        return Err(JpegError::SampleIndexOverflow);
    }
    let ghost target = Seq::new(mh as nat, |i: int| Seq::new(mw as nat, |j: int|
        Seq::new(3, |id: int| spec_sample_pos(i, j, sof_info.component_infos[id], max_v as int, max_h as int))));
    let mut i: u32 = 0;
    while i < mh
        invariant
            i <= mh,
            0 < mh <= 255,
            0 < mw <= 255,
            max_v > 0,
            max_h > 0,
            mh == 8 * max_v,
            mw == 8 * max_h,
            max_v == sof_info.max_vertical_sampling,
            max_h == sof_info.max_horizontal_sampling,
            c == sof_info.component_infos,
            target == Seq::new(mh as nat, |i: int| Seq::new(mw as nat, |j: int|
                Seq::new(3, |id: int| spec_sample_pos(i, j, sof_info.component_infos[id], max_v as int, max_h as int)))),
            sample_map_view(map@) =~= target.take(i as int),
        decreases mh - i,
    {
        let mut row: Vec<[SamplePos; 3]> = Vec::new();
        let mut j: u32 = 0;
        while j < mw
            invariant
                i < mh,
                j <= mw,
                0 < mh <= 255,
                0 < mw <= 255,
                max_v > 0,
                max_h > 0,
                mh == 8 * max_v,
                mw == 8 * max_h,
                c == sof_info.component_infos,
                target == Seq::new(mh as nat, |i: int| Seq::new(mw as nat, |j: int|
                    Seq::new(3, |id: int| spec_sample_pos(i, j, sof_info.component_infos[id], max_v as int, max_h as int)))),
                row@.map_values(|a: [SamplePos; 3]| a@) =~= target[i as int].take(j as int),
            decreases mw - j,
        {
            let mut cell: [SamplePos; 3] = [SamplePos { block_row: 0, block_col: 0, row: 0, col: 0 }; 3];
            let mut id: usize = 0;
            while id < 3
                invariant
                    id <= 3,
                    i < mh,
                    j < mw,
                    mh <= 255,
                    mw <= 255,
                    max_v > 0,
                    max_h > 0,
                    c == sof_info.component_infos,
                    forall|k: int| 0 <= k < id ==> #[trigger] cell@[k]
                        == spec_sample_pos(i as int, j as int, sof_info.component_infos[k], max_v as int, max_h as int),
                decreases 3 - id,
            {
                let sv = c[id].vertical_sampling as u32;
                let sh = c[id].horizontal_sampling as u32;
                assert(i * sv <= 255 * 255 && j * sh <= 255 * 255) by (nonlinear_arith)
                    requires
                        i < 255,
                        j < 255,
                        sv <= 255,
                        sh <= 255,
                ;
                let vh = i * sv / max_v;
                let vw = j * sh / max_h;
                cell[id] = SamplePos { block_row: (vh / 8) as usize, block_col: (vw / 8) as usize, row: (vh % 8) as usize, col: (vw % 8) as usize };
                id = id + 1;
            }
            assert(cell@ =~= target[i as int][j as int]);
            let ghost old_row = row@;
            row.push(cell);
            assert(row@.map_values(|a: [SamplePos; 3]| a@) =~= old_row.map_values(|a: [SamplePos; 3]| a@).push(cell@));
            j = j + 1;
        }
        let ghost old_map = map@;
        map.push(row);
        assert(sample_map_view(map@) =~= sample_map_view(old_map).push(row@.map_values(|a: [SamplePos; 3]| a@)));
        assert(target[i as int].take(mw as int) =~= target[i as int]);
        i = i + 1;
    }
    assert(target.take(mh as int) =~= target);
    Ok(map)
}


/// The MCUs `j` up to the end of row `i` of the grid, dequantized; where
/// the first MCU has been dequantized, its samples are located (which
/// needs the frame header only).
pub open spec fn spec_plan_row(mcus: Seq<Seq<McuModel>>, m: MetaModel, l: McuLayout, i: int, j: int, acc: Seq<DequantModel>)
    -> Result<Seq<DequantModel>, JpegError>
    decreases l.mcu_width_number - j,
{
    if j >= l.mcu_width_number {
        Ok(acc)
    } else if i < 0 || j < 0 || i >= mcus.len() || j >= mcus[i].len() {
        Err(JpegError::LayoutMismatch)
    } else {
        match spec_decode_mcu(mcus[i][j], m) {
            Err(e) => Err(e),
            Ok(d) => if i == 0 && j == 0 && spec_sample_error(m.sof_info) is Some {
                Err(spec_sample_error(m.sof_info).unwrap())
            } else {
                spec_plan_row(mcus, m, l, i, j + 1, acc.push(d))
            },
        }
    }
}

/// The rows `i` up to the end of the MCU grid, dequantized.
pub open spec fn spec_plan_rows(mcus: Seq<Seq<McuModel>>, m: MetaModel, l: McuLayout, i: int, acc: Seq<Seq<DequantModel>>)
    -> Result<Seq<Seq<DequantModel>>, JpegError>
    decreases l.mcu_height_number - i,
{
    if i >= l.mcu_height_number {
        Ok(acc)
    } else {
        match spec_plan_row(mcus, m, l, i, 0, Seq::empty()) {
            Err(e) => Err(e),
            Ok(row) => spec_plan_rows(mcus, m, l, i + 1, acc.push(row)),
        }
    }
}

/// The integer part of decoding a frame: its MCU layout, the sample
/// positions within an MCU, and its grid of MCUs dequantized, row by row.
pub open spec fn spec_plan_image(m: MetaModel, mcus: Seq<Seq<McuModel>>)
    -> Result<(McuLayout, Seq<Seq<Seq<SamplePos>>>, Seq<Seq<DequantModel>>), JpegError>
{
    match spec_mcu_layout(m.sof_info) {
        Err(e) => Err(e),
        Ok(l) => match spec_plan_rows(mcus, m, l, 0, Seq::empty()) {
            Err(e) => Err(e),
            Ok(rows) => match spec_sample_map(m.sof_info) {
                Err(e) => Err(e),
                Ok(samples) => Ok((l, samples, rows)),
            },
        },
    }
}

/// What remains of decoding once the integers are done: the layout, where
/// each pixel's samples lie, and the dequantized MCUs.
pub struct ImagePlan {
    pub layout: McuLayout,
    pub sample_map: Vec<Vec<[SamplePos; 3]>>,
    pub mcus: Vec<Vec<DequantMcu>>,
}

pub open spec fn dequant_mcus_view(v: Seq<Vec<DequantMcu>>) -> Seq<Seq<DequantModel>> {
    v.map_values(|row: Vec<DequantMcu>| row@.map_values(|d: DequantMcu| dequant_mcu_view(d)))
}

/// Lays out the frame and dequantizes its MCUs, in the order in which
/// they are turned into pixels.
#[verifier::loop_isolation(false)]
pub fn plan_image(jpeg_meta_data: &JPEGMetaData, mcus: &Vec<Vec<MCU>>) -> (r: Result<ImagePlan, JpegError>)
    ensures
        match r {
            Ok(plan) => spec_plan_image(jpeg_meta_data@, mcus_view(mcus@))
                == Ok::<(McuLayout, Seq<Seq<Seq<SamplePos>>>, Seq<Seq<DequantModel>>), JpegError>(
                    (plan.layout, sample_map_view(plan.sample_map@), dequant_mcus_view(plan.mcus@))),
            Err(e) => spec_plan_image(jpeg_meta_data@, mcus_view(mcus@))
                == Err::<(McuLayout, Seq<Seq<Seq<SamplePos>>>, Seq<Seq<DequantModel>>), JpegError>(e),
        },
{
    let ghost m = jpeg_meta_data@;
    let ghost mv = mcus_view(mcus@);
    let layout = match mcu_layout(&jpeg_meta_data.sof_info) { Ok(l) => l, Err(e) => return Err(e) };
    let mut samples: Option<Vec<Vec<[SamplePos; 3]>>> = None;
    let mut out: Vec<Vec<DequantMcu>> = Vec::new();
    assert(dequant_mcus_view(out@) =~= Seq::empty());
    let mut h: usize = 0;
    while h < layout.mcu_height_number
        invariant
            h <= layout.mcu_height_number,
            spec_mcu_layout(m.sof_info) == Ok::<McuLayout, JpegError>(layout),
            h == 0 ==> samples is None,
            h > 0 ==> (samples matches Some(sm) && spec_sample_map(m.sof_info)
                == Ok::<Seq<Seq<Seq<SamplePos>>>, JpegError>(sample_map_view(sm@))),
            spec_plan_rows(mv, m, layout, h as int, dequant_mcus_view(out@))
                == spec_plan_rows(mv, m, layout, 0, Seq::empty()),
        decreases layout.mcu_height_number - h,
    {
        let mut row: Vec<DequantMcu> = Vec::new();
        assert(row@.map_values(|d: DequantMcu| dequant_mcu_view(d)) =~= Seq::empty());
        let mut w: usize = 0;
        while w < layout.mcu_width_number
            invariant
                w <= layout.mcu_width_number,
                h < layout.mcu_height_number,
                (h == 0 && w == 0) ==> samples is None,
                (h > 0 || w > 0) ==> (samples matches Some(sm) && spec_sample_map(m.sof_info)
                    == Ok::<Seq<Seq<Seq<SamplePos>>>, JpegError>(sample_map_view(sm@))),
                spec_plan_row(mv, m, layout, h as int, w as int, row@.map_values(|d: DequantMcu| dequant_mcu_view(d)))
                    == spec_plan_row(mv, m, layout, h as int, 0, Seq::empty()),
            decreases layout.mcu_width_number - w,
        {
            if h >= mcus.len() || w >= mcus[h].len() {
                return Err(JpegError::LayoutMismatch);
            }
            assert(mv[h as int][w as int] == mcu_view(mcus@[h as int]@[w as int]));
            let d = match decode_mcu(&mcus[h][w], jpeg_meta_data) { Ok(d) => d, Err(e) => return Err(e) };
            if h == 0 && w == 0 {
                match sample_map(&jpeg_meta_data.sof_info) {
                    Ok(sm) => { samples = Some(sm); },
                    Err(e) => return Err(e),
                }
            }
            let ghost old_row = row@;
            row.push(d);
            assert(row@.map_values(|d: DequantMcu| dequant_mcu_view(d))
                =~= old_row.map_values(|d: DequantMcu| dequant_mcu_view(d)).push(dequant_mcu_view(d)));
            w = w + 1;
        }
        let ghost old_out = out@;
        out.push(row);
        assert(dequant_mcus_view(out@) =~= dequant_mcus_view(old_out).push(row@.map_values(|d: DequantMcu| dequant_mcu_view(d))));
        h = h + 1;
    }
    match samples {
        Some(sample_map) => Ok(ImagePlan { layout, sample_map, mcus: out }),
        None => {
            proof {
                assert(false);
            }
            Err(JpegError::LayoutMismatch)
        },
    }
}

/// Whether `tiles` holds, for each MCU of the layout, row by row, its
/// pixels: `mcu_height` rows of `mcu_width` colors.
pub open spec fn tiles_fit(l: McuLayout, tiles: Seq<Vec<Vec<Vec<Color>>>>) -> bool {
    &&& tiles.len() == l.mcu_height_number
    &&& forall|i: int| 0 <= i < l.mcu_height_number ==> #[trigger] tiles[i]@.len() == l.mcu_width_number
    &&& forall|i: int, j: int| 0 <= i < l.mcu_height_number && 0 <= j < l.mcu_width_number
        ==> #[trigger] tiles[i]@[j]@.len() == l.mcu_height
    &&& forall|i: int, j: int, y: int| 0 <= i < l.mcu_height_number && 0 <= j < l.mcu_width_number && 0 <= y < l.mcu_height
        ==> #[trigger] tiles[i]@[j]@[y]@.len() == l.mcu_width
}

/// The image made of the decoded MCUs: the pixel at row `y`, column `x`
/// is pixel `(y % mcu_height, x % mcu_width)` of the MCU in row
/// `y / mcu_height`, column `x / mcu_width` of the grid.
pub fn assemble_image(layout: &McuLayout, tiles: &Vec<Vec<Vec<Vec<Color>>>>) -> (image: Image)
    requires
        tiles_fit(*layout, tiles@),
        layout.mcu_width > 0,
        layout.mcu_height > 0,
        layout.mcu_width_number * layout.mcu_width <= u32::MAX,
        layout.mcu_height_number * layout.mcu_height <= u32::MAX,
    ensures
        image.width == layout.mcu_width_number * layout.mcu_width,
        image.height == layout.mcu_height_number * layout.mcu_height,
        image.well_formed(),
        forall|y: int, x: int| 0 <= y < image.height && 0 <= x < image.width ==> #[trigger] image.pixels@[y]@[x]
            == tiles@[y / layout.mcu_height as int]@[x / layout.mcu_width as int]@[y % layout.mcu_height as int]@[x % layout.mcu_width as int],
{
    let mh = layout.mcu_height;
    let mw = layout.mcu_width;
    let width = layout.mcu_width_number * mw;
    let height = layout.mcu_height_number * mh;
    let mut pixels: Vec<Vec<Color>> = Vec::new();
    let mut y: usize = 0;
    while y < height
        invariant
            y <= height,
            height == layout.mcu_height_number * mh,
            width == layout.mcu_width_number * mw,
            mh == layout.mcu_height,
            mw == layout.mcu_width,
            mh > 0,
            mw > 0,
            tiles_fit(*layout, tiles@),
            pixels@.len() == y,
            forall|k: int| 0 <= k < y ==> #[trigger] pixels@[k]@.len() == width,
            forall|k: int, x: int| 0 <= k < y && 0 <= x < width ==> #[trigger] pixels@[k]@[x]
                == tiles@[k / mh as int]@[x / mw as int]@[k % mh as int]@[x % mw as int],
        decreases height - y,
    {
        let ty = y / mh;
        let ry = y % mh;
        assert(ty < layout.mcu_height_number && ry < mh) by (nonlinear_arith)
            requires
                y < layout.mcu_height_number * mh,
                ty == y / mh,
                ry == y % mh,
                mh > 0,
        ;
        let mut row: Vec<Color> = Vec::new();
        let mut x: usize = 0;
        while x < width
            invariant
                x <= width,
                y < height,
                width == layout.mcu_width_number * mw,
                mh == layout.mcu_height,
                mw == layout.mcu_width,
                mw > 0,
                ty == y / mh,
                ry == y % mh,
                ty < layout.mcu_height_number,
                ry < mh,
                tiles_fit(*layout, tiles@),
                row@.len() == x,
                forall|k: int| 0 <= k < x ==> #[trigger] row@[k]
                    == tiles@[ty as int]@[k / mw as int]@[ry as int]@[k % mw as int],
            decreases width - x,
        {
            let tx = x / mw;
            let rx = x % mw;
            assert(tx < layout.mcu_width_number && rx < mw) by (nonlinear_arith)
                requires
                    x < layout.mcu_width_number * mw,
                    tx == x / mw,
                    rx == x % mw,
                    mw > 0,
            ;
            assert(tiles@[ty as int]@.len() == layout.mcu_width_number);
            assert(tiles@[ty as int]@[tx as int]@.len() == mh);
            assert(tiles@[ty as int]@[tx as int]@[ry as int]@.len() == mw);
            row.push(tiles[ty][tx][ry][rx]);
            x = x + 1;
        }
        pixels.push(row);
        y = y + 1;
    }
    Image { width: width as u32, height: height as u32, pixels }
}


/// `ZZ_POSITION[z]` is the row-major position of zigzag index `z`.
pub const ZZ_POSITION: [usize; 64] = [
    0, 1, 8, 16, 9, 2, 3, 10,
    17, 24, 32, 25, 18, 11, 4, 5,
    12, 19, 26, 33, 40, 48, 41, 34,
    27, 20, 13, 6, 7, 14, 21, 28,
    35, 42, 49, 56, 57, 50, 43, 36,
    29, 22, 15, 23, 30, 37, 44, 51,
    58, 59, 52, 45, 38, 31, 39, 46,
    53, 60, 61, 54, 47, 55, 62, 63,
];

proof fn lemma_zz_position_at(k: int)
    requires
        0 <= k < 64,
    ensures
        ZZ_POSITION@[zz(k)] == k,
{
    if k == 0 {
    } else if k == 1 {
    } else if k == 2 {
    } else if k == 3 {
    } else if k == 4 {
    } else if k == 5 {
    } else if k == 6 {
    } else if k == 7 {
    } else if k == 8 {
    } else if k == 9 {
    } else if k == 10 {
    } else if k == 11 {
    } else if k == 12 {
    } else if k == 13 {
    } else if k == 14 {
    } else if k == 15 {
    } else if k == 16 {
    } else if k == 17 {
    } else if k == 18 {
    } else if k == 19 {
    } else if k == 20 {
    } else if k == 21 {
    } else if k == 22 {
    } else if k == 23 {
    } else if k == 24 {
    } else if k == 25 {
    } else if k == 26 {
    } else if k == 27 {
    } else if k == 28 {
    } else if k == 29 {
    } else if k == 30 {
    } else if k == 31 {
    } else if k == 32 {
    } else if k == 33 {
    } else if k == 34 {
    } else if k == 35 {
    } else if k == 36 {
    } else if k == 37 {
    } else if k == 38 {
    } else if k == 39 {
    } else if k == 40 {
    } else if k == 41 {
    } else if k == 42 {
    } else if k == 43 {
    } else if k == 44 {
    } else if k == 45 {
    } else if k == 46 {
    } else if k == 47 {
    } else if k == 48 {
    } else if k == 49 {
    } else if k == 50 {
    } else if k == 51 {
    } else if k == 52 {
    } else if k == 53 {
    } else if k == 54 {
    } else if k == 55 {
    } else if k == 56 {
    } else if k == 57 {
    } else if k == 58 {
    } else if k == 59 {
    } else if k == 60 {
    } else if k == 61 {
    } else if k == 62 {
    } else {
        assert(k == 63);
    }
}

proof fn lemma_zz_at_position(z: int)
    requires
        0 <= z < 64,
    ensures
        0 <= ZZ_POSITION@[z] < 64,
        zz(ZZ_POSITION@[z] as int) == z,
{
    if z == 0 {
    } else if z == 1 {
    } else if z == 2 {
    } else if z == 3 {
    } else if z == 4 {
    } else if z == 5 {
    } else if z == 6 {
    } else if z == 7 {
    } else if z == 8 {
    } else if z == 9 {
    } else if z == 10 {
    } else if z == 11 {
    } else if z == 12 {
    } else if z == 13 {
    } else if z == 14 {
    } else if z == 15 {
    } else if z == 16 {
    } else if z == 17 {
    } else if z == 18 {
    } else if z == 19 {
    } else if z == 20 {
    } else if z == 21 {
    } else if z == 22 {
    } else if z == 23 {
    } else if z == 24 {
    } else if z == 25 {
    } else if z == 26 {
    } else if z == 27 {
    } else if z == 28 {
    } else if z == 29 {
    } else if z == 30 {
    } else if z == 31 {
    } else if z == 32 {
    } else if z == 33 {
    } else if z == 34 {
    } else if z == 35 {
    } else if z == 36 {
    } else if z == 37 {
    } else if z == 38 {
    } else if z == 39 {
    } else if z == 40 {
    } else if z == 41 {
    } else if z == 42 {
    } else if z == 43 {
    } else if z == 44 {
    } else if z == 45 {
    } else if z == 46 {
    } else if z == 47 {
    } else if z == 48 {
    } else if z == 49 {
    } else if z == 50 {
    } else if z == 51 {
    } else if z == 52 {
    } else if z == 53 {
    } else if z == 54 {
    } else if z == 55 {
    } else if z == 56 {
    } else if z == 57 {
    } else if z == 58 {
    } else if z == 59 {
    } else if z == 60 {
    } else if z == 61 {
    } else if z == 62 {
    } else {
        assert(z == 63);
    }
}

/// The zigzag order is a permutation of the 64 positions of a block: each
/// zigzag index belongs to exactly one position, so dequantization moves
/// every coefficient to exactly one place.
pub proof fn lemma_zigzag_is_permutation()
    ensures
        forall|k: int| 0 <= k < 64 ==> 0 <= #[trigger] zz(k) < 64,
        forall|k1: int, k2: int| 0 <= k1 < 64 && 0 <= k2 < 64 && #[trigger] zz(k1) == #[trigger] zz(k2) ==> k1 == k2,
        forall|z: int| 0 <= z < 64 ==> 0 <= #[trigger] ZZ_POSITION@[z] < 64 && zz(ZZ_POSITION@[z] as int) == z,
{
    lemma_zz_range();
    assert forall|k1: int, k2: int| 0 <= k1 < 64 && 0 <= k2 < 64 && #[trigger] zz(k1) == #[trigger] zz(k2) implies k1 == k2 by {
        lemma_zz_position_at(k1);
        lemma_zz_position_at(k2);
    }
    assert forall|z: int| 0 <= z < 64 implies 0 <= #[trigger] ZZ_POSITION@[z] < 64 && zz(ZZ_POSITION@[z] as int) == z by {
        lemma_zz_at_position(z);
    }
}


/// The grid of MCUs that the scan reader decodes is the grid that the
/// decoder lays out: both exist for the same frames, with the same numbers
/// of MCUs across and down.
pub proof fn lemma_scan_grid_is_layout(sof: SofInfo)
    ensures
        spec_mcu_counts(sof) is Ok <==> spec_mcu_layout(sof) is Ok,
        spec_mcu_counts(sof) matches Ok((w, h)) ==> {
            &&& spec_mcu_layout(sof).unwrap().mcu_width_number == w
            &&& spec_mcu_layout(sof).unwrap().mcu_height_number == h
        },
{
    if spec_mcu_counts(sof) is Ok {
        let mw = 8 * sof.max_horizontal_sampling;
        let mh = 8 * sof.max_vertical_sampling;
        assert((sof.width - 1) / mw + 1 <= 65535) by (nonlinear_arith)
            requires
                0 < sof.width <= 65535,
                mw >= 8,
        ;
        assert((sof.height - 1) / mh + 1 <= 65535) by (nonlinear_arith)
            requires
                0 < sof.height <= 65535,
                mh >= 8,
        ;
    }
}

/// An MCU is 8 times the largest horizontal sampling factor wide and 8
/// times the largest vertical one high; the MCUs across (down) are the
/// fewest that cover the frame's width (height). A layout exists exactly
/// for frames of nonzero size and sampling factors.
pub proof fn lemma_mcu_size(sof: SofInfo)
    ensures
        spec_mcu_layout(sof) is Ok <==> (sof.width > 0 && sof.height > 0
            && sof.max_horizontal_sampling > 0 && sof.max_vertical_sampling > 0),
        spec_mcu_layout(sof) matches Ok(l) ==> {
            &&& l.mcu_width == 8 * sof.max_horizontal_sampling
            &&& l.mcu_height == 8 * sof.max_vertical_sampling
            &&& (l.mcu_width_number - 1) * l.mcu_width < sof.width <= l.mcu_width_number * l.mcu_width
            &&& (l.mcu_height_number - 1) * l.mcu_height < sof.height <= l.mcu_height_number * l.mcu_height
        },
{
    if let Ok(l) = spec_mcu_layout(sof) {
        lemma_cover(sof.width as int, 8 * sof.max_horizontal_sampling);
        lemma_cover(sof.height as int, 8 * sof.max_vertical_sampling);
    }
}

/// The scan holds as many MCUs across (down) as it takes, at 8 times the
/// largest horizontal (vertical) sampling factor each, to cover the
/// frame's width (height).
pub proof fn lemma_scan_grid_covers_frame(sof: SofInfo)
    ensures
        spec_mcu_counts(sof) matches Ok((w, h)) ==> {
            &&& (w - 1) * (8 * sof.max_horizontal_sampling) < sof.width <= w * (8 * sof.max_horizontal_sampling)
            &&& (h - 1) * (8 * sof.max_vertical_sampling) < sof.height <= h * (8 * sof.max_vertical_sampling)
        },
{
    if let Ok((w, h)) = spec_mcu_counts(sof) {
        lemma_cover(sof.width as int, 8 * sof.max_horizontal_sampling);
        lemma_cover(sof.height as int, 8 * sof.max_vertical_sampling);
    }
}

proof fn lemma_plan_row_places(mcus: Seq<Seq<McuModel>>, m: MetaModel, l: McuLayout, i: int, j: int, acc: Seq<DequantModel>)
    requires
        0 <= j <= l.mcu_width_number,
        acc.len() == j,
        j > 0 ==> 0 <= i < mcus.len() && j <= mcus[i].len(),
        forall|k: int| 0 <= k < j ==> spec_decode_mcu(mcus[i][k], m) == Ok::<DequantModel, JpegError>(#[trigger] acc[k]),
    ensures
        spec_plan_row(mcus, m, l, i, j, acc) matches Ok(row) ==> {
            &&& row.len() == l.mcu_width_number
            &&& row.len() > 0 ==> 0 <= i < mcus.len() && row.len() <= mcus[i].len()
            &&& forall|k: int| 0 <= k < row.len() ==> spec_decode_mcu(mcus[i][k], m) == Ok::<DequantModel, JpegError>(#[trigger] row[k])
        },
    decreases l.mcu_width_number - j,
{
    if j >= l.mcu_width_number {
    } else if i < 0 || i >= mcus.len() || j >= mcus[i].len() {
    } else {
        if let Ok(d) = spec_decode_mcu(mcus[i][j], m) {
            let acc2 = acc.push(d);
            assert forall|k: int| 0 <= k < j + 1 implies spec_decode_mcu(mcus[i][k], m) == Ok::<DequantModel, JpegError>(#[trigger] acc2[k]) by {
                if k < j {
                    assert(acc2[k] == acc[k]);
                }
            }
            lemma_plan_row_places(mcus, m, l, i, j + 1, acc2);
        }
    }
}

/// The rows of MCUs of the plan, each of `width` MCUs dequantized in place.
pub open spec fn rows_in_place(mcus: Seq<Seq<McuModel>>, m: MetaModel, width: int, rows: Seq<Seq<DequantModel>>) -> bool {
    &&& rows.len() <= mcus.len()
    &&& forall|r: int| 0 <= r < rows.len() ==> (#[trigger] rows[r]).len() == width && width <= mcus[r].len()
    &&& forall|r: int, k: int| 0 <= r < rows.len() && 0 <= k < width
        ==> spec_decode_mcu(mcus[r][k], m) == Ok::<DequantModel, JpegError>(#[trigger] rows[r][k])
}

proof fn lemma_plan_rows_place(mcus: Seq<Seq<McuModel>>, m: MetaModel, l: McuLayout, i: int, acc: Seq<Seq<DequantModel>>)
    requires
        0 <= i <= l.mcu_height_number,
        acc.len() == i,
        l.mcu_width_number > 0,
        rows_in_place(mcus, m, l.mcu_width_number as int, acc),
    ensures
        spec_plan_rows(mcus, m, l, i, acc) matches Ok(rows) ==> {
            &&& rows.len() == l.mcu_height_number
            &&& rows_in_place(mcus, m, l.mcu_width_number as int, rows)
        },
    decreases l.mcu_height_number - i,
{
    if i < l.mcu_height_number {
        lemma_plan_row_places(mcus, m, l, i, 0, Seq::empty());
        if let Ok(row) = spec_plan_row(mcus, m, l, i, 0, Seq::empty()) {
            let acc2 = acc.push(row);
            let w = l.mcu_width_number as int;
            assert forall|r: int| 0 <= r < acc2.len() implies (#[trigger] acc2[r]).len() == w && w <= mcus[r].len() by {
                if r < i {
                    assert(acc2[r] == acc[r]);
                }
            }
            assert forall|r: int, k: int| 0 <= r < acc2.len() && 0 <= k < w
                implies spec_decode_mcu(mcus[r][k], m) == Ok::<DequantModel, JpegError>(#[trigger] acc2[r][k]) by {
                if r < i {
                    assert(acc2[r] == acc[r]);
                    assert(acc2[r][k] == acc[r][k]);
                } else {
                    assert(acc2[r] == row);
                    assert(acc2[r][k] == row[k]);
                }
            }
            lemma_plan_rows_place(mcus, m, l, i + 1, acc2);
        }
    }
}

/// The plan keeps the MCU grid in place: it has one row per row of MCUs of
/// the layout and one entry per MCU across, and the entry in row `i`,
/// column `j` is the dequantized MCU in row `i`, column `j` of the scan.
pub proof fn lemma_plan_keeps_grid(m: MetaModel, mcus: Seq<Seq<McuModel>>)
    ensures
        spec_plan_image(m, mcus) matches Ok((l, _, rows)) ==> {
            &&& rows.len() == l.mcu_height_number
            &&& rows.len() <= mcus.len()
            &&& forall|i: int| 0 <= i < rows.len() ==> (#[trigger] rows[i]).len() == l.mcu_width_number
                && l.mcu_width_number <= mcus[i].len()
            &&& forall|i: int, j: int| 0 <= i < rows.len() && 0 <= j < l.mcu_width_number
                ==> spec_decode_mcu(mcus[i][j], m) == Ok::<DequantModel, JpegError>(#[trigger] rows[i][j])
        },
{
    if let Ok(l) = spec_mcu_layout(m.sof_info) {
        lemma_mcu_size(m.sof_info);
        lemma_plan_rows_place(mcus, m, l, 0, Seq::empty());
        if let Ok(rows) = spec_plan_rows(mcus, m, l, 0, Seq::empty()) {
            assert(rows_in_place(mcus, m, l.mcu_width_number as int, rows));
            assert forall|i: int, j: int| 0 <= i < rows.len() && 0 <= j < l.mcu_width_number
                implies spec_decode_mcu(mcus[i][j], m) == Ok::<DequantModel, JpegError>(#[trigger] rows[i][j]) by {
            }
        }
    }
}

/// Every sample that the sample map gives lies in one of the blocks of its
/// component: its block row and column are below the component's sampling
/// factors, its row and column below 8.
pub proof fn lemma_sample_map_in_blocks(sof: SofInfo)
    ensures
        spec_sample_map(sof) matches Ok(map) ==> forall|i: int, j: int, id: int|
            0 <= i < map.len() && 0 <= j < map[i].len() && 0 <= id < 3 ==> {
                let pos = #[trigger] map[i][j][id];
                &&& pos.block_row < sof.component_infos[id].vertical_sampling
                &&& pos.block_col < sof.component_infos[id].horizontal_sampling
                &&& pos.row < 8
                &&& pos.col < 8
            },
{
    if let Ok(map) = spec_sample_map(sof) {
        assert forall|i: int, j: int, id: int| 0 <= i < map.len() && 0 <= j < map[i].len() && 0 <= id < 3 implies {
            let pos = #[trigger] map[i][j][id];
            &&& pos.block_row < sof.component_infos[id].vertical_sampling
            &&& pos.block_col < sof.component_infos[id].horizontal_sampling
            &&& pos.row < 8
            &&& pos.col < 8
        } by {
            let max_v = sof.max_vertical_sampling as int;
            let max_h = sof.max_horizontal_sampling as int;
            assert(sof.component_infos[id].vertical_sampling > 0);
            assert(sof.component_infos[id].horizontal_sampling > 0);
            lemma_sample_in_block(i, j, sof.component_infos[id], max_v, max_h);
        }
    }
}

}
