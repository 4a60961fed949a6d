//! Reading the segments of a JPEG byte stream.

use vstd::prelude::*;
use vstd::array::spec_array_update;
use std::collections::HashMap;
use crate::primitives::{AppInfo, ComponentInfo, JPEGMetaData, JpegError, MCU, MetaModel, SofInfo, huffman_key, initial_meta, zero_sof_info};
use crate::scan::{McuModel, lemma_read_mcus_advance, lemma_read_mcus_extend, mcus_view, read_mcus, spec_read_mcus};

verus! {

/// A read result with its position taken as an integer.
pub open spec fn at<T>(r: Result<(T, usize), JpegError>) -> Result<(T, int), JpegError> {
    match r {
        Ok((v, q)) => Ok((v, q as int)),
        Err(e) => Err(e),
    }
}

/// The big-endian 16-bit number at `data[p]`, `data[p + 1]`.
pub open spec fn be16(data: Seq<u8>, p: int) -> u16 {
    (data[p] as int * 256 + data[p + 1] as int) as u16
}

pub open spec fn spec_read_u8(data: Seq<u8>, p: int) -> Result<(u8, int), JpegError> {
    if 0 <= p < data.len() {
        Ok((data[p], p + 1))
    } else {
        Err(JpegError::UnexpectedEof)
    }
}

pub open spec fn spec_read_u16(data: Seq<u8>, p: int) -> Result<(u16, int), JpegError> {
    if 0 <= p && p + 2 <= data.len() {
        Ok((be16(data, p), p + 2))
    } else {
        Err(JpegError::UnexpectedEof)
    }
}

/// Reads the byte at `pos`; gives it and the position after it.
pub fn read_u8(data: &[u8], pos: usize) -> (r: Result<(u8, usize), JpegError>)
    ensures
        at(r) == spec_read_u8(data@, pos as int),
{
    if pos < data.len() {
        Ok((data[pos], pos + 1))
    } else {
        Err(JpegError::UnexpectedEof)
    }
}

/// Reads the big-endian 16-bit number at `pos`.
pub fn read_u16(data: &[u8], pos: usize) -> (r: Result<(u16, usize), JpegError>)
    ensures
        at(r) == spec_read_u16(data@, pos as int),
{
    if pos < data.len() && data.len() - pos >= 2 {
        let hi = data[pos];
        let lo = data[pos + 1];
        Ok(((hi as u16) * 256 + lo as u16, pos + 2))
    } else {
        Err(JpegError::UnexpectedEof)
    }
}

/// The APP0 segment whose length field starts at `p`, and the position
/// after its thumbnail (the end of the data where the thumbnail runs past
/// it: every later read fails there too).
pub open spec fn spec_read_app0(data: Seq<u8>, p: int) -> Result<(AppInfo, int), JpegError> {
    if 0 <= p && p + 16 <= data.len() {
        let x = data[p + 14];
        let y = data[p + 15];
        let info = AppInfo {
            identifier: [data[p + 2], data[p + 3], data[p + 4], data[p + 5], data[p + 6]],
            version_major_id: data[p + 7],
            version_minor_id: data[p + 8],
            units: data[p + 9],
            x_density: be16(data, p + 10),
            y_density: be16(data, p + 12),
            x_thumbnail: x,
            y_thumbnail: y,
        };
        let end = p + 16 + 3 * (x * y);
        Ok((info, if end <= data.len() { end } else { data.len() as int }))
    } else {
        Err(JpegError::UnexpectedEof)
    }
}

/// Reads the APP0 segment whose length field is at `pos`; the thumbnail
/// is skipped.
pub fn read_app0(data: &[u8], pos: usize) -> (r: Result<(AppInfo, usize), JpegError>)
    ensures
        at(r) == spec_read_app0(data@, pos as int),
{
    if pos > data.len() || data.len() - pos < 16 {
        return Err(JpegError::UnexpectedEof);
    }
    let (_len, p) = match read_u16(data, pos) { Ok(v) => v, Err(e) => return Err(e) };
    let identifier: [u8; 5] = [data[p], data[p + 1], data[p + 2], data[p + 3], data[p + 4]];
    let p = p + 5;
    let (version_major_id, p) = match read_u8(data, p) { Ok(v) => v, Err(e) => return Err(e) };
    let (version_minor_id, p) = match read_u8(data, p) { Ok(v) => v, Err(e) => return Err(e) };
    let (units, p) = match read_u8(data, p) { Ok(v) => v, Err(e) => return Err(e) };
    let (x_density, p) = match read_u16(data, p) { Ok(v) => v, Err(e) => return Err(e) };
    let (y_density, p) = match read_u16(data, p) { Ok(v) => v, Err(e) => return Err(e) };
    let (x_thumbnail, p) = match read_u8(data, p) { Ok(v) => v, Err(e) => return Err(e) };
    let (y_thumbnail, p) = match read_u8(data, p) { Ok(v) => v, Err(e) => return Err(e) };
    let info = AppInfo {
        identifier,
        version_major_id,
        version_minor_id,
        units,
        x_density,
        y_density,
        x_thumbnail,
        y_thumbnail,
    };
    assert((x_thumbnail as usize) * (y_thumbnail as usize) <= 255 * 255) by (nonlinear_arith)
        requires
            x_thumbnail <= 255,
            y_thumbnail <= 255,
    ;
    let thumbnail_length: usize = 3 * ((x_thumbnail as usize) * (y_thumbnail as usize));
    let end = if data.len() - p >= thumbnail_length { p + thumbnail_length } else { data.len() };
    Ok((info, end))
}

pub open spec fn spec_read_sof0_component(data: Seq<u8>, p: int) -> Result<(ComponentInfo, int), JpegError> {
    if 0 <= p && p + 2 <= data.len() {
        let c = data[p];
        Ok((ComponentInfo {
            horizontal_sampling: c >> 4,
            vertical_sampling: c & 0x0F,
            quant_table_id: data[p + 1],
        }, p + 2))
    } else {
        Err(JpegError::UnexpectedEof)
    }
}

/// The sampling factors and quantization table of one frame component.
pub fn read_sof0_component(data: &[u8], pos: usize) -> (r: Result<(ComponentInfo, usize), JpegError>)
    ensures
        at(r) == spec_read_sof0_component(data@, pos as int),
{
    let _ = data.len(); // the length of a slice fits in a usize
    let (c, p) = match read_u8(data, pos) { Ok(v) => v, Err(e) => return Err(e) };
    let (quant_table_id, p) = match read_u8(data, p) { Ok(v) => v, Err(e) => return Err(e) };
    let info = ComponentInfo { horizontal_sampling: c >> 4, vertical_sampling: c & 0x0F, quant_table_id };
    Ok((info, p))
}

/// The `n` component entries of a frame header that start at `p`, each an
/// id byte (1 for Y, 2 for Cb, 3 for Cr) and the component's fields, stored
/// into `infos` at index id - 1.
pub open spec fn spec_sof_components(data: Seq<u8>, p: int, infos: [ComponentInfo; 3], n: nat)
    -> Result<([ComponentInfo; 3], int), JpegError>
    decreases n,
{
    if n == 0 {
        Ok((infos, p))
    } else {
        match spec_read_u8(data, p) {
            Err(e) => Err(e),
            Ok((id, p1)) => match spec_read_sof0_component(data, p1) {
                Err(e) => Err(e),
                Ok((info, p2)) => if 1 <= id <= 3 {
                    spec_sof_components(data, p2, spec_array_update(infos, id - 1, info), (n - 1) as nat)
                } else {
                    Err(JpegError::InvalidComponentId)
                },
            },
        }
    }
}

pub open spec fn max3(a: u8, b: u8, c: u8) -> u8 {
    if a >= b && a >= c { a } else if b >= c { b } else { c }
}

/// The baseline frame header whose length field starts at `p`.
pub open spec fn spec_read_sof0(data: Seq<u8>, p: int) -> Result<(SofInfo, int), JpegError> {
    if 0 <= p && p + 8 <= data.len() {
        let n = data[p + 7];
        match spec_sof_components(data, p + 8, zero_sof_info().component_infos, n as nat) {
            Err(e) => Err(e),
            Ok((infos, q)) => Ok((SofInfo {
                precision: data[p + 2],
                height: be16(data, p + 3),
                width: be16(data, p + 5),
                component_infos: infos,
                max_horizontal_sampling: max3(infos[0].horizontal_sampling, infos[1].horizontal_sampling, infos[2].horizontal_sampling),
                max_vertical_sampling: max3(infos[0].vertical_sampling, infos[1].vertical_sampling, infos[2].vertical_sampling),
            }, q)),
        }
    } else {
        Err(JpegError::UnexpectedEof)
    }
}

/// Reads the baseline frame header whose length field is at `pos`.
#[verifier::loop_isolation(false)]
pub fn read_sof0(data: &[u8], pos: usize) -> (r: Result<(SofInfo, usize), JpegError>)
    ensures
        at(r) == spec_read_sof0(data@, pos as int),
{
    let _ = data.len(); // the length of a slice fits in a usize
    let (_len, p) = match read_u16(data, pos) { Ok(v) => v, Err(e) => return Err(e) };
    let (precision, p) = match read_u8(data, p) { Ok(v) => v, Err(e) => return Err(e) };
    let (height, p) = match read_u16(data, p) { Ok(v) => v, Err(e) => return Err(e) };
    let (width, p) = match read_u16(data, p) { Ok(v) => v, Err(e) => return Err(e) };
    let (number_of_component, p) = match read_u8(data, p) { Ok(v) => v, Err(e) => return Err(e) };
    let zero = ComponentInfo { horizontal_sampling: 0, vertical_sampling: 0, quant_table_id: 0 };
    let mut infos: [ComponentInfo; 3] = [zero, zero, zero];
    let mut p = p;
    let ghost p0 = p;
    let mut i: u8 = 0;
    while i < number_of_component
        invariant
            i <= number_of_component,
            spec_sof_components(data@, p as int, infos, (number_of_component - i) as nat)
                == spec_sof_components(data@, p0 as int, zero_sof_info().component_infos, number_of_component as nat),
        decreases number_of_component - i,
    {
        let (id, p1) = match read_u8(data, p) { Ok(v) => v, Err(e) => return Err(e) };
        let (info, p2) = match read_sof0_component(data, p1) { Ok(v) => v, Err(e) => return Err(e) };
        if id == 0 || id > 3 {
            return Err(JpegError::InvalidComponentId);
        }
        infos[(id - 1) as usize] = info;
        p = p2;
        i = i + 1;
    }
    let mut max_h = infos[0].horizontal_sampling;
    if infos[1].horizontal_sampling > max_h { max_h = infos[1].horizontal_sampling; }
    if infos[2].horizontal_sampling > max_h { max_h = infos[2].horizontal_sampling; }
    let mut max_v = infos[0].vertical_sampling;
    if infos[1].vertical_sampling > max_v { max_v = infos[1].vertical_sampling; }
    if infos[2].vertical_sampling > max_v { max_v = infos[2].vertical_sampling; }
    Ok((SofInfo {
        precision,
        height,
        width,
        component_infos: infos,
        max_horizontal_sampling: max_h,
        max_vertical_sampling: max_v,
    }, p))
}


/// The name of a color component: 1 is Y, 2 is Cb, 3 is Cr.
pub fn component_name(id: u8) -> (name: &'static str)
    requires
        1 <= id <= 3,
    ensures
        id == 1 ==> name@ == "Y"@,
        id == 2 ==> name@ == "Cb"@,
        id == 3 ==> name@ == "Cr"@,
{
    match id {
        1 => "Y",
        2 => "Cb",
        _ => "Cr",
    }
}

/// The three component entries of a scan header that start at `p`: a
/// component id (1 to 3) and a byte whose high nibble is the id of its DC
/// table and whose low nibble the id of its AC table, stored at id - 1.
pub open spec fn spec_sos_components(
    data: Seq<u8>,
    p: int,
    mapping: [(usize, usize); 3],
    n: nat,
) -> Result<([(usize, usize); 3], int), JpegError>
    decreases n,
{
    if n == 0 {
        Ok((mapping, p))
    } else if 0 <= p && p + 2 <= data.len() {
        let component = data[p];
        let id = data[p + 1];
        if 1 <= component <= 3 {
            spec_sos_components(
                data,
                p + 2,
                spec_array_update(mapping, component - 1, ((id >> 4) as usize, (id & 0x0F) as usize)),
                (n - 1) as nat,
            )
        } else {
            Err(JpegError::InvalidComponentId)
        }
    } else {
        Err(JpegError::UnexpectedEof)
    }
}

/// The three bytes that end a baseline scan header: 0, 63, 0.
pub open spec fn spec_sos_tail(data: Seq<u8>, p: int) -> Result<int, JpegError> {
    if p < 0 || p >= data.len() {
        Err(JpegError::UnexpectedEof)
    } else if data[p] != 0 {
        Err(JpegError::SosParameters)
    } else if p + 1 >= data.len() {
        Err(JpegError::UnexpectedEof)
    } else if data[p + 1] != 0x3F {
        Err(JpegError::SosParameters)
    } else if p + 2 >= data.len() {
        Err(JpegError::UnexpectedEof)
    } else if data[p + 2] != 0 {
        Err(JpegError::SosParameters)
    } else {
        Ok(p + 3)
    }
}

/// The start-of-scan header whose length field starts at `p`: for each
/// component, the ids of its DC and AC Huffman tables.
pub open spec fn spec_read_sos(data: Seq<u8>, p: int) -> Result<([(usize, usize); 3], int), JpegError> {
    if p < 0 || p + 3 > data.len() {
        Err(JpegError::UnexpectedEof)
    } else if data[p + 2] != 3 {
        Err(JpegError::SosComponentCount)
    } else {
        match spec_sos_components(data, p + 3, [(0usize, 0usize), (0usize, 0usize), (0usize, 0usize)], 3) {
            Err(e) => Err(e),
            Ok((mapping, q)) => match spec_sos_tail(data, q) {
                Err(e) => Err(e),
                Ok(q2) => Ok((mapping, q2)),
            },
        }
    }
}

/// Reads the scan header whose length field is at `pos`.
#[verifier::loop_isolation(false)]
pub fn read_sos(data: &[u8], pos: usize) -> (r: Result<([(usize, usize); 3], usize), JpegError>)
    ensures
        at(r) == spec_read_sos(data@, pos as int),
{
    let _ = data.len(); // the length of a slice fits in a usize
    let (_len, p) = match read_u16(data, pos) { Ok(v) => v, Err(e) => return Err(e) };
    let (component_number, p) = match read_u8(data, p) { Ok(v) => v, Err(e) => return Err(e) };
    if component_number != 3 {
        return Err(JpegError::SosComponentCount);
    }
    let mut table_mapping: [(usize, usize); 3] = [(0, 0), (0, 0), (0, 0)];
    let mut p = p;
    let ghost p0 = p;
    let mut i: usize = 0;
    while i < 3
        invariant
            i <= 3,
            spec_sos_components(data@, p as int, table_mapping, (3 - i) as nat)
                == spec_sos_components(data@, p0 as int, [(0usize, 0usize), (0usize, 0usize), (0usize, 0usize)], 3),
        decreases 3 - i,
    {
        let (component, p1) = match read_u8(data, p) { Ok(v) => v, Err(e) => return Err(e) };
        let (id, p2) = match read_u8(data, p1) { Ok(v) => v, Err(e) => return Err(e) };
        if component == 0 || component > 3 {
            return Err(JpegError::InvalidComponentId);
        }
        let _name = component_name(component);
        let dc_id = (id >> 4) as usize;
        let ac_id = (id & 0x0F) as usize;
        table_mapping[(component - 1) as usize] = (dc_id, ac_id);
        p = p2;
        i = i + 1;
    }
    let (c, p) = match read_u8(data, p) { Ok(v) => v, Err(e) => return Err(e) };
    if c != 0x00 {
        return Err(JpegError::SosParameters);
    }
    let (c, p) = match read_u8(data, p) { Ok(v) => v, Err(e) => return Err(e) };
    if c != 0x3F {
        return Err(JpegError::SosParameters);
    }
    let (c, p) = match read_u8(data, p) { Ok(v) => v, Err(e) => return Err(e) };
    if c != 0x00 {
        return Err(JpegError::SosParameters);
    }
    Ok((table_mapping, p))
}

/// The quantization tables of a DQT segment, each as its id and its 64
/// entries.
pub open spec fn quant_entries_view(v: Seq<(usize, [u16; 64])>) -> Seq<(usize, Seq<u16>)> {
    v.map_values(|e: (usize, [u16; 64])| (e.0, e.1@))
}

/// The tables of a DQT segment from `p` on, with `len` bytes of the segment
/// left: each starts with a byte whose low nibble is the table's id and
/// whose high nibble its precision: 0 for 64 one-byte entries, 1 for 64
/// big-endian two-byte entries. A table of any other precision is taken as
/// 64 zeros and consumes its first byte only.
pub open spec fn spec_dqt_tables(data: Seq<u8>, p: int, len: int, acc: Seq<(usize, Seq<u16>)>)
    -> Result<(Seq<(usize, Seq<u16>)>, int), JpegError>
    decreases data.len() - p,
{
    if len <= 0 {
        Ok((acc, p))
    } else if p < 0 || p >= data.len() {
        Err(JpegError::UnexpectedEof)
    } else {
        let c = data[p];
        let id = (c & 0x0F) as usize;
        let precision = c >> 4;
        if precision == 0 {
            if p + 65 > data.len() {
                Err(JpegError::UnexpectedEof)
            } else if len < 65 {
                Err(JpegError::SegmentLengthUnderflow)
            } else {
                spec_dqt_tables(data, p + 65, len - 65,
                    acc.push((id, Seq::new(64, |k: int| data[p + 1 + k] as u16))))
            }
        } else if precision == 1 {
            if p + 129 > data.len() {
                Err(JpegError::UnexpectedEof)
            } else if len < 129 {
                Err(JpegError::SegmentLengthUnderflow)
            } else {
                spec_dqt_tables(data, p + 129, len - 129,
                    acc.push((id, Seq::new(64, |k: int| be16(data, p + 1 + 2 * k)))))
            }
        } else {
            spec_dqt_tables(data, p + 1, len, acc.push((id, Seq::new(64, |k: int| 0u16))))
        }
    }
}

/// The DQT segment whose length field starts at `p`.
pub open spec fn spec_read_dqt(data: Seq<u8>, p: int) -> Result<(Seq<(usize, Seq<u16>)>, int), JpegError> {
    match spec_read_u16(data, p) {
        Err(e) => Err(e),
        Ok((len, p1)) => if len < 2 {
            Err(JpegError::SegmentLengthUnderflow)
        } else {
            spec_dqt_tables(data, p1, len - 2, Seq::empty())
        },
    }
}

/// Reads the quantization tables of the DQT segment whose length field is
/// at `pos`.
#[verifier::loop_isolation(false)]
pub fn read_dqt(data: &[u8], pos: usize) -> (r: Result<(Vec<(usize, [u16; 64])>, usize), JpegError>)
    ensures
        match r {
            Ok((tables, q)) => spec_read_dqt(data@, pos as int) == Ok::<(Seq<(usize, Seq<u16>)>, int), JpegError>((quant_entries_view(tables@), q as int)),
            Err(e) => spec_read_dqt(data@, pos as int) == Err::<(Seq<(usize, Seq<u16>)>, int), JpegError>(e),
        },
{
    let _ = data.len(); // the length of a slice fits in a usize
    let (len, p) = match read_u16(data, pos) { Ok(v) => v, Err(e) => return Err(e) };
    if len < 2 {
        return Err(JpegError::SegmentLengthUnderflow);
    }
    let mut len: u16 = len - 2;
    let mut p = p;
    let mut tables: Vec<(usize, [u16; 64])> = Vec::new();
    assert(quant_entries_view(tables@) =~= Seq::empty());
    while len > 0
        invariant
            p <= data@.len(),
            spec_read_dqt(data@, pos as int) == spec_dqt_tables(data@, p as int, len as int, quant_entries_view(tables@)),
        decreases data@.len() - p,
    {
        let (c, p1) = match read_u8(data, p) { Ok(v) => v, Err(e) => return Err(e) };
        let id = c & 0x0F;
        let precision = c >> 4;
        let mut table: [u16; 64] = [0; 64];
        let ghost old_tables = tables@;
        if precision == 0 {
            let mut i: usize = 0;
            let mut q = p1;
            while i < 64
                invariant
                    i <= 64,
                    q == p1 + i,
                    q <= data@.len(),
                    p1 == p + 1,
                    forall|k: int| 0 <= k < i ==> #[trigger] table@[k] == data@[p + 1 + k] as u16,
                    forall|k: int| i <= k < 64 ==> #[trigger] table@[k] == 0,
                decreases 64 - i,
            {
                let (b, q1) = match read_u8(data, q) { Ok(v) => v, Err(e) => return Err(e) };
                table[i] = b as u16;
                q = q1;
                i = i + 1;
            }
            if len < 65 {
                return Err(JpegError::SegmentLengthUnderflow);
            }
            len = len - 65;
            p = q;
            tables.push((id as usize, table));
            assert(table@ =~= Seq::new(64, |k: int| data@[p1 + k] as u16));
            assert(quant_entries_view(tables@) =~= quant_entries_view(old_tables).push((id as usize, table@)));
        } else if precision == 1 {
            let mut i: usize = 0;
            let mut q = p1;
            while i < 64
                invariant
                    i <= 64,
                    q == p1 + 2 * i,
                    q <= data@.len(),
                    p1 == p + 1,
                    forall|k: int| 0 <= k < i ==> #[trigger] table@[k] == be16(data@, p + 1 + 2 * k),
                    forall|k: int| i <= k < 64 ==> #[trigger] table@[k] == 0,
                decreases 64 - i,
            {
                let (v, q1) = match read_u16(data, q) { Ok(v) => v, Err(e) => return Err(e) };
                table[i] = v;
                q = q1;
                i = i + 1;
            }
            if len < 129 {
                return Err(JpegError::SegmentLengthUnderflow);
            }
            len = len - 129;
            p = q;
            tables.push((id as usize, table));
            assert(table@ =~= Seq::new(64, |k: int| be16(data@, p1 + 2 * k)));
            assert(quant_entries_view(tables@) =~= quant_entries_view(old_tables).push((id as usize, table@)));
        } else {
            p = p1;
            tables.push((id as usize, table));
            assert(table@ =~= Seq::new(64, |k: int| 0u16));
            assert(quant_entries_view(tables@) =~= quant_entries_view(old_tables).push((id as usize, table@)));
        }
    }
    Ok((tables, p))
}

/// `2` to the power `n`.
pub open spec fn two_pow(n: nat) -> nat
    decreases n,
{
    if n == 0 { 1 } else { 2 * two_pow((n - 1) as nat) }
}

/// The codes of one Huffman table from its code-length counts on: the
/// `counts[h]` codes of length h + 1 take the consecutive values that
/// follow the last code of the previous length, doubled. `code` is the
/// next code of length h + 1, `k` the number of them already given, `len`
/// the bytes left in the segment. Each code is stored under its length as
/// given, also where it needs more than h + 1 bits (no bit string then
/// decodes to it); a code counter that passes 65535 makes the table
/// invalid.
pub open spec fn spec_dht_codes(
    data: Seq<u8>,
    p: int,
    counts: Seq<u8>,
    h: nat,
    k: nat,
    code: int,
    len: int,
    map: Map<u32, u8>,
) -> Result<(Map<u32, u8>, int, int), JpegError>
    decreases 16 - h, 256 - k,
{
    if h >= 16 || h >= counts.len() {
        Ok((map, p, len))
    } else if k >= counts[h as int] {
        spec_dht_codes(data, p, counts, h + 1, 0, (code * 2) % 65536, len, map)
    } else if p < 0 || p >= data.len() {
        Err(JpegError::UnexpectedEof)
    } else if code + 1 > 65535 {
        Err(JpegError::InvalidHuffmanCode)
    } else if len < 1 {
        Err(JpegError::SegmentLengthUnderflow)
    } else {
        spec_dht_codes(data, p + 1, counts, h, k + 1, code + 1, len - 1,
            map.insert(huffman_key((h + 1) as int, code) as u32, data[p]))
    }
}

/// The tables of a DHT segment from `p` on, with `len` bytes of the segment
/// left: each is a byte whose high nibble is its class (0 for DC, 1 for AC)
/// and whose low nibble its id, 16 code-length counts, then its symbols.
pub open spec fn spec_dht_tables(data: Seq<u8>, p: int, len: int, acc: Seq<(u8, u8, Map<u32, u8>)>)
    -> Result<(Seq<(u8, u8, Map<u32, u8>)>, int), JpegError>
    decreases data.len() - p via spec_dht_tables_decreases
{
    if len <= 0 {
        Ok((acc, p))
    } else if p < 0 || p + 17 > data.len() {
        Err(JpegError::UnexpectedEof)
    } else if len < 17 {
        Err(JpegError::SegmentLengthUnderflow)
    } else {
        let c = data[p];
        let counts = data.subrange(p + 1, p + 17);
        match spec_dht_codes(data, p + 17, counts, 0, 0, 0, len - 17, Map::empty()) {
            Err(e) => Err(e),
            Ok((map, q, len2)) => spec_dht_tables(data, q, len2, acc.push((c >> 4, c & 0x0F, map))),
        }
    }
}


/// Reading the codes of a table never moves backwards nor past the data.
pub proof fn lemma_dht_codes_advance(
    data: Seq<u8>,
    p: int,
    counts: Seq<u8>,
    h: nat,
    k: nat,
    code: int,
    len: int,
    map: Map<u32, u8>,
)
    requires
        p <= data.len(),
    ensures
        spec_dht_codes(data, p, counts, h, k, code, len, map) matches Ok((_, q, _)) ==> p <= q <= data.len(),
    decreases 16 - h, 256 - k,
{
    if h >= 16 || h >= counts.len() {
    } else if k >= counts[h as int] {
        lemma_dht_codes_advance(data, p, counts, h + 1, 0, (code * 2) % 65536, len, map);
    } else if p < 0 || p >= data.len() {
    } else if code + 1 > 65535 {
    } else if len < 1 {
    } else {
        lemma_dht_codes_advance(data, p + 1, counts, h, k + 1, code + 1, len - 1,
            map.insert(huffman_key((h + 1) as int, code) as u32, data[p]));
    }
}

#[via_fn]
proof fn spec_dht_tables_decreases(data: Seq<u8>, p: int, len: int, acc: Seq<(u8, u8, Map<u32, u8>)>) {
    if len > 0 && 0 <= p && p + 17 <= data.len() && len >= 17 {
        lemma_dht_codes_advance(data, p + 17, data.subrange(p + 1, p + 17), 0, 0, 0, len - 17, Map::empty());
    }
}


/// `two_pow(a) * two_pow(b) == two_pow(a + b)`.
pub proof fn lemma_two_pow_add(a: nat, b: nat)
    ensures
        two_pow(a) * two_pow(b) == two_pow(a + b),
    decreases b,
{
    if b > 0 {
        lemma_two_pow_add(a, (b - 1) as nat);
        assert(((a + b - 1) as nat) == a + ((b - 1) as nat));
        assert(two_pow(a + b) == 2 * two_pow((a + b - 1) as nat));
        assert(two_pow(a) * two_pow(b) == two_pow(a) * (2 * two_pow((b - 1) as nat)));
        assert(two_pow(a) * (2 * two_pow((b - 1) as nat)) == 2 * (two_pow(a) * two_pow((b - 1) as nat))) by (nonlinear_arith);
        assert(two_pow(a + ((b - 1) as nat)) == two_pow((a + b - 1) as nat));
    } else {
        assert(two_pow(b) == 1);
        assert(a + b == a);
    }
}

pub proof fn lemma_two_pow_positive(n: nat)
    ensures
        two_pow(n) >= 1,
    decreases n,
{
    if n > 0 {
        lemma_two_pow_positive((n - 1) as nat);
    }
}

/// The powers of two up to 16 bits.
pub proof fn lemma_two_pow_le_16(n: nat)
    requires
        n <= 16,
    ensures
        two_pow(n) <= 65536,
        n <= 15 ==> two_pow(n) <= 32768,
{
    reveal_with_fuel(two_pow, 17);
    assert(two_pow(16) == 65536);
    assert(two_pow(15) == 32768);
    lemma_two_pow_add(n, (16 - n) as nat);
    lemma_two_pow_positive((16 - n) as nat);
    assert(two_pow(n) <= two_pow(n) * two_pow((16 - n) as nat)) by (nonlinear_arith)
        requires
            two_pow((16 - n) as nat) >= 1,
    ;
    if n <= 15 {
        lemma_two_pow_add(n, (15 - n) as nat);
        lemma_two_pow_positive((15 - n) as nat);
        assert(two_pow(n) <= two_pow(n) * two_pow((15 - n) as nat)) by (nonlinear_arith)
            requires
                two_pow((15 - n) as nat) >= 1,
        ;
    }
}

/// The tables of a DHT segment, each with its class, its id and its map
/// from `huffman_key(length, code)` to symbol.
pub open spec fn dht_entries_view(v: Seq<(u8, u8, HashMap<u32, u8>)>) -> Seq<(u8, u8, Map<u32, u8>)> {
    v.map_values(|e: (u8, u8, HashMap<u32, u8>)| (e.0, e.1, e.2@))
}

/// The DHT segment whose length field starts at `p`.
pub open spec fn spec_read_dht(data: Seq<u8>, p: int) -> Result<(Seq<(u8, u8, Map<u32, u8>)>, int), JpegError> {
    match spec_read_u16(data, p) {
        Err(e) => Err(e),
        Ok((len, p1)) => if len < 2 {
            Err(JpegError::SegmentLengthUnderflow)
        } else {
            spec_dht_tables(data, p1, len - 2, Seq::empty())
        },
    }
}

/// Reads the Huffman tables of a DHT segment. Within a table, the codes of
/// each length are consecutive, and the first code of a length is the
/// successor of the last code of the previous length, doubled.
#[verifier::loop_isolation(false)]
pub fn read_dht(data: &[u8], pos: usize) -> (r: Result<(Vec<(u8, u8, HashMap<u32, u8>)>, usize), JpegError>)
    ensures
        match r {
            Ok((tables, q)) => spec_read_dht(data@, pos as int)
                == Ok::<(Seq<(u8, u8, Map<u32, u8>)>, int), JpegError>((dht_entries_view(tables@), q as int)),
            Err(e) => spec_read_dht(data@, pos as int) == Err::<(Seq<(u8, u8, Map<u32, u8>)>, int), JpegError>(e),
        },
{
    let _ = data.len(); // the length of a slice fits in a usize
    let (len, p) = match read_u16(data, pos) { Ok(v) => v, Err(e) => return Err(e) };
    if len < 2 {
        return Err(JpegError::SegmentLengthUnderflow);
    }
    let mut len: u16 = len - 2;
    let mut p = p;
    let mut ret: Vec<(u8, u8, HashMap<u32, u8>)> = Vec::new();
    assert(dht_entries_view(ret@) =~= Seq::empty());
    while len > 0
        invariant
            p <= data@.len(),
            spec_read_dht(data@, pos as int) == spec_dht_tables(data@, p as int, len as int, dht_entries_view(ret@)),
        decreases data@.len() - p,
    {
        let (c, p1) = match read_u8(data, p) { Ok(v) => v, Err(e) => return Err(e) };
        let ac_dc = c >> 4;
        let id = c & 0x0F;
        let mut height_info: [u8; 16] = [0; 16];
        let mut q = p1;
        let mut i: usize = 0;
        while i < 16
            invariant
                i <= 16,
                q == p1 + i,
                q <= data@.len(),
                p1 == p + 1,
                forall|k: int| 0 <= k < i ==> #[trigger] height_info@[k] == data@[p + 1 + k],
            decreases 16 - i,
        {
            let (b, q1) = match read_u8(data, q) { Ok(v) => v, Err(e) => return Err(e) };
            height_info[i] = b;
            q = q1;
            i = i + 1;
        }
        let ghost counts = data@.subrange(p + 1, p + 17);
        assert(height_info@ =~= counts);
        if len < 17 {
            return Err(JpegError::SegmentLengthUnderflow);
        }
        len = len - 17;
        let ghost len0 = len;
        let ghost q0 = q;
        let mut map: HashMap<u32, u8> = HashMap::new();
        let mut code: u16 = 0;
        let mut h: usize = 0;
        while h < 16
            invariant
                h <= 16,
                q <= data@.len(),
                q >= q0,
                spec_dht_codes(data@, q as int, counts, h as nat, 0, code as int, len as int, map@)
                    == spec_dht_codes(data@, q0 as int, counts, 0, 0, 0, len0 as int, Map::empty()),
            decreases 16 - h,
        {
            let n = height_info[h];
            let mut k: u8 = 0;
            while k < n
                invariant
                    h < 16,
                    k <= n,
                    n == counts[h as int],
                    q <= data@.len(),
                    q >= q0,
                    spec_dht_codes(data@, q as int, counts, h as nat, k as nat, code as int, len as int, map@)
                        == spec_dht_codes(data@, q0 as int, counts, 0, 0, 0, len0 as int, Map::empty()),
                decreases n - k,
            {
                let (source_symbol, q1) = match read_u8(data, q) { Ok(v) => v, Err(e) => return Err(e) };
                let key: u32 = ((h + 1) as u32) * 65536 + code as u32;
                map.insert(key, source_symbol);
                if code == 65535 {
                    return Err(JpegError::InvalidHuffmanCode);
                }
                code = code + 1;
                if len < 1 {
                    return Err(JpegError::SegmentLengthUnderflow);
                }
                len = len - 1;
                q = q1;
                k = k + 1;
            }
            code = ((code as u32 * 2) % 65536) as u16;
            h = h + 1;
        }
        let ghost old_ret = ret@;
        ret.push((ac_dc, id, map));
        assert(dht_entries_view(ret@) =~= dht_entries_view(old_ret).push((ac_dc, id, map@)));
        p = q;
    }
    Ok((ret, p))
}


pub const MARKER_PREFIX: u8 = 0xFF;
/// Start of image.
pub const SOI_MARKER: u8 = 0xD8;
/// End of image.
pub const EOI_MARKER: u8 = 0xD9;
/// APP0, the JFIF header.
pub const APP0_MARKER: u8 = 0xE0;
/// Define quantization table.
pub const DQT_MARKER: u8 = 0xDB;
/// Define Huffman table.
pub const DHT_MARKER: u8 = 0xC4;
/// Start of frame (baseline).
pub const SOF0_MARKER: u8 = 0xC0;
/// Start of scan: the compressed data follows.
pub const SOS_MARKER: u8 = 0xDA;
pub const DC: u8 = 0x00;
pub const AC: u8 = 0x01;

/// Stores the tables of a DHT segment from index `i` on: class 0 as DC,
/// class 1 as AC tables, at their ids.
pub open spec fn spec_store_huffman(m: MetaModel, tables: Seq<(u8, u8, Map<u32, u8>)>, i: int) -> Result<MetaModel, JpegError>
    decreases tables.len() - i,
{
    if i < 0 || i >= tables.len() {
        Ok(m)
    } else {
        let (class, id, map) = tables[i];
        if class == AC {
            if id >= 2 {
                Err(JpegError::TableIdOutOfRange)
            } else {
                spec_store_huffman(MetaModel { ac_tables: m.ac_tables.update(id as int, map), ..m }, tables, i + 1)
            }
        } else if class == DC {
            if id >= 2 {
                Err(JpegError::TableIdOutOfRange)
            } else {
                spec_store_huffman(MetaModel { dc_tables: m.dc_tables.update(id as int, map), ..m }, tables, i + 1)
            }
        } else {
            Err(JpegError::InvalidTableClass)
        }
    }
}

/// Stores the tables of a DQT segment from index `i` on at their ids.
pub open spec fn spec_store_quant(m: MetaModel, tables: Seq<(usize, Seq<u16>)>, i: int) -> Result<MetaModel, JpegError>
    decreases tables.len() - i,
{
    if i < 0 || i >= tables.len() {
        Ok(m)
    } else {
        let (id, table) = tables[i];
        if id >= 4 {
            Err(JpegError::TableIdOutOfRange)
        } else {
            spec_store_quant(MetaModel { quant_tables: m.quant_tables.update(id as int, table), ..m }, tables, i + 1)
        }
    }
}

/// The segments from `p` on: bytes are skipped up to a 0xFF marker prefix;
/// the marker that follows selects the segment; reading ends at the
/// end-of-image marker. A scan header is followed by the scan data, read
/// with the metadata read so far; reading resumes after the last byte that
/// the scan used. Unknown markers are skipped.
pub open spec fn spec_reader_loop(data: Seq<u8>, p: int, m: MetaModel, mcus: Seq<Seq<McuModel>>)
    -> Result<(MetaModel, Seq<Seq<McuModel>>), JpegError>
    decreases data.len() - p via spec_reader_loop_decreases
{
    if p < 0 || p >= data.len() {
        Err(JpegError::UnexpectedEof)
    } else if data[p] != MARKER_PREFIX {
        spec_reader_loop(data, p + 1, m, mcus)
    } else if p + 1 >= data.len() {
        Err(JpegError::UnexpectedEof)
    } else {
        let marker = data[p + 1];
        let q = p + 2;
        if marker == SOI_MARKER {
            spec_reader_loop(data, q, m, mcus)
        } else if marker == EOI_MARKER {
            Ok((m, mcus))
        } else if marker == SOF0_MARKER {
            match spec_read_sof0(data, q) {
                Err(e) => Err(e),
                Ok((sof, q1)) => spec_reader_loop(data, q1, MetaModel { sof_info: sof, ..m }, mcus),
            }
        } else if marker == SOS_MARKER {
            match spec_read_sos(data, q) {
                Err(e) => Err(e),
                Ok((mapping, q1)) => {
                    let m1 = MetaModel { table_mapping: mapping, ..m };
                    match spec_read_mcus(data, q1, m1) {
                        Err(e) => Err(e),
                        Ok((scan, q2)) => spec_reader_loop(data, q2, m1, scan),
                    }
                },
            }
        } else if marker == APP0_MARKER {
            match spec_read_app0(data, q) {
                Err(e) => Err(e),
                Ok((app, q1)) => spec_reader_loop(data, q1, MetaModel { app_info: app, ..m }, mcus),
            }
        } else if marker == DHT_MARKER {
            match spec_read_dht(data, q) {
                Err(e) => Err(e),
                Ok((tables, q1)) => match spec_store_huffman(m, tables, 0) {
                    Err(e) => Err(e),
                    Ok(m1) => spec_reader_loop(data, q1, m1, mcus),
                },
            }
        } else if marker == DQT_MARKER {
            match spec_read_dqt(data, q) {
                Err(e) => Err(e),
                Ok((tables, q1)) => match spec_store_quant(m, tables, 0) {
                    Err(e) => Err(e),
                    Ok(m1) => spec_reader_loop(data, q1, m1, mcus),
                },
            }
        } else {
            spec_reader_loop(data, q, m, mcus)
        }
    }
}

/// A whole JPEG byte stream: its metadata and the MCUs of its last scan.
pub open spec fn spec_data_reader(data: Seq<u8>) -> Result<(MetaModel, Seq<Seq<McuModel>>), JpegError> {
    spec_reader_loop(data, 0, initial_meta(), Seq::empty())
}

pub proof fn lemma_sof_components_advance(data: Seq<u8>, p: int, infos: [ComponentInfo; 3], n: nat)
    ensures
        spec_sof_components(data, p, infos, n) matches Ok((_, q)) ==> p <= q && (p <= data.len() ==> q <= data.len()),
    decreases n,
{
    if n > 0 {
        if let Ok((id, p1)) = spec_read_u8(data, p) {
            if let Ok((info, p2)) = spec_read_sof0_component(data, p1) {
                if 1 <= id <= 3 {
                    lemma_sof_components_advance(data, p2, spec_array_update(infos, id - 1, info), (n - 1) as nat);
                }
            }
        }
    }
}

pub proof fn lemma_sos_components_advance(data: Seq<u8>, p: int, mapping: [(usize, usize); 3], n: nat)
    ensures
        spec_sos_components(data, p, mapping, n) matches Ok((_, q)) ==> p <= q && (p <= data.len() ==> q <= data.len()),
    decreases n,
{
    if n > 0 && 0 <= p && p + 2 <= data.len() {
        let component = data[p];
        let id = data[p + 1];
        if 1 <= component <= 3 {
            lemma_sos_components_advance(data, p + 2,
                spec_array_update(mapping, component - 1, ((id >> 4) as usize, (id & 0x0F) as usize)), (n - 1) as nat);
        }
    }
}

pub proof fn lemma_dqt_tables_advance(data: Seq<u8>, p: int, len: int, acc: Seq<(usize, Seq<u16>)>)
    ensures
        spec_dqt_tables(data, p, len, acc) matches Ok((_, q)) ==> p <= q && (p <= data.len() ==> q <= data.len()),
    decreases data.len() - p,
{
    if len > 0 && 0 <= p < data.len() {
        let c = data[p];
        let id = (c & 0x0F) as usize;
        let precision = c >> 4;
        if precision == 0 {
            if p + 65 <= data.len() && len >= 65 {
                lemma_dqt_tables_advance(data, p + 65, len - 65, acc.push((id, Seq::new(64, |k: int| data[p + 1 + k] as u16))));
            }
        } else if precision == 1 {
            if p + 129 <= data.len() && len >= 129 {
                lemma_dqt_tables_advance(data, p + 129, len - 129, acc.push((id, Seq::new(64, |k: int| be16(data, p + 1 + 2 * k)))));
            }
        } else {
            lemma_dqt_tables_advance(data, p + 1, len, acc.push((id, Seq::new(64, |k: int| 0u16))));
        }
    }
}

pub proof fn lemma_dht_tables_advance(data: Seq<u8>, p: int, len: int, acc: Seq<(u8, u8, Map<u32, u8>)>)
    ensures
        spec_dht_tables(data, p, len, acc) matches Ok((_, q)) ==> p <= q && (p <= data.len() ==> q <= data.len()),
    decreases data.len() - p,
{
    if len > 0 && 0 <= p && p + 17 <= data.len() && len >= 17 {
        let c = data[p];
        let counts = data.subrange(p + 1, p + 17);
        lemma_dht_codes_advance(data, p + 17, counts, 0, 0, 0, len - 17, Map::empty());
        if let Ok((map, q, len2)) = spec_dht_codes(data, p + 17, counts, 0, 0, 0, len - 17, Map::empty()) {
            lemma_dht_tables_advance(data, q, len2, acc.push((c >> 4, c & 0x0F, map)));
        }
    }
}

/// Reading a segment never moves backwards.
pub proof fn lemma_segments_advance(data: Seq<u8>, q: int)
    ensures
        spec_read_sof0(data, q) matches Ok((_, q1)) ==> q <= q1 <= data.len(),
        spec_read_sos(data, q) matches Ok((_, q1)) ==> q <= q1 <= data.len(),
        spec_read_app0(data, q) matches Ok((_, q1)) ==> q <= q1 <= data.len(),
        spec_read_dht(data, q) matches Ok((_, q1)) ==> q <= q1 <= data.len(),
        spec_read_dqt(data, q) matches Ok((_, q1)) ==> q <= q1 <= data.len(),
{
    if 0 <= q && q + 8 <= data.len() {
        lemma_sof_components_advance(data, q + 8, zero_sof_info().component_infos, data[q + 7] as nat);
    }
    lemma_sos_components_advance(data, q + 3, [(0usize, 0usize), (0usize, 0usize), (0usize, 0usize)], 3);
    if let Ok((len, p1)) = spec_read_u16(data, q) {
        if len >= 2 {
            lemma_dht_tables_advance(data, p1, len - 2, Seq::empty());
            lemma_dqt_tables_advance(data, p1, len - 2, Seq::empty());
        }
    }
}

#[via_fn]
proof fn spec_reader_loop_decreases(data: Seq<u8>, p: int, m: MetaModel, mcus: Seq<Seq<McuModel>>) {
    if 0 <= p && p + 1 < data.len() {
        lemma_segments_advance(data, p + 2);
        if let Ok((mapping, q1)) = spec_read_sos(data, p + 2) {
            lemma_read_mcus_advance(data, q1, MetaModel { table_mapping: mapping, ..m });
        }
    }
}


// Reading a segment looks at no byte past the one it ends on: a segment
// that is read whole from `data` is read the same from `data` followed by
// any bytes.

proof fn lemma_sof_components_extend(data: Seq<u8>, t: Seq<u8>, p: int, infos: [ComponentInfo; 3], n: nat)
    ensures
        spec_sof_components(data, p, infos, n) is Ok
            ==> spec_sof_components(data + t, p, infos, n) == spec_sof_components(data, p, infos, n),
    decreases n,
{
    if n > 0 {
        if let Ok((id, p1)) = spec_read_u8(data, p) {
            assert((data + t)[p] == data[p]);
            if let Ok((info, p2)) = spec_read_sof0_component(data, p1) {
                assert((data + t)[p1] == data[p1]);
                assert((data + t)[p1 + 1] == data[p1 + 1]);
                if 1 <= id <= 3 {
                    lemma_sof_components_extend(data, t, p2, spec_array_update(infos, id - 1, info), (n - 1) as nat);
                }
            }
        }
    }
}

proof fn lemma_read_sof0_extend(data: Seq<u8>, t: Seq<u8>, p: int)
    ensures
        spec_read_sof0(data, p) is Ok ==> spec_read_sof0(data + t, p) == spec_read_sof0(data, p),
{
    if 0 <= p && p + 8 <= data.len() {
        let d2 = data + t;
        assert(d2[p + 2] == data[p + 2] && d2[p + 3] == data[p + 3] && d2[p + 4] == data[p + 4]);
        assert(d2[p + 5] == data[p + 5] && d2[p + 6] == data[p + 6] && d2[p + 7] == data[p + 7]);
        lemma_sof_components_extend(data, t, p + 8, zero_sof_info().component_infos, data[p + 7] as nat);
    }
}

proof fn lemma_sos_components_extend(data: Seq<u8>, t: Seq<u8>, p: int, mapping: [(usize, usize); 3], n: nat)
    ensures
        spec_sos_components(data, p, mapping, n) is Ok
            ==> spec_sos_components(data + t, p, mapping, n) == spec_sos_components(data, p, mapping, n),
    decreases n,
{
    if n > 0 && 0 <= p && p + 2 <= data.len() {
        let component = data[p];
        let id = data[p + 1];
        assert((data + t)[p] == component && (data + t)[p + 1] == id);
        if 1 <= component <= 3 {
            lemma_sos_components_extend(data, t, p + 2,
                spec_array_update(mapping, component - 1, ((id >> 4) as usize, (id & 0x0F) as usize)), (n - 1) as nat);
        }
    }
}

proof fn lemma_read_sos_extend(data: Seq<u8>, t: Seq<u8>, p: int)
    ensures
        spec_read_sos(data, p) is Ok ==> spec_read_sos(data + t, p) == spec_read_sos(data, p),
{
    if 0 <= p && p + 3 <= data.len() {
        assert((data + t)[p + 2] == data[p + 2]);
        let start = [(0usize, 0usize), (0usize, 0usize), (0usize, 0usize)];
        lemma_sos_components_extend(data, t, p + 3, start, 3);
        if let Ok((mapping, q)) = spec_sos_components(data, p + 3, start, 3) {
            if 0 <= q && q + 2 < data.len() {
                assert((data + t)[q] == data[q] && (data + t)[q + 1] == data[q + 1] && (data + t)[q + 2] == data[q + 2]);
            } else if 0 <= q && q + 1 < data.len() {
                assert((data + t)[q] == data[q] && (data + t)[q + 1] == data[q + 1]);
            } else if 0 <= q && q < data.len() {
                assert((data + t)[q] == data[q]);
            }
        }
    }
}

proof fn lemma_dqt_tables_extend(data: Seq<u8>, t: Seq<u8>, p: int, len: int, acc: Seq<(usize, Seq<u16>)>)
    ensures
        spec_dqt_tables(data, p, len, acc) is Ok ==> spec_dqt_tables(data + t, p, len, acc) == spec_dqt_tables(data, p, len, acc),
    decreases data.len() - p,
{
    if len > 0 && 0 <= p < data.len() {
        let d2 = data + t;
        let c = data[p];
        assert(d2[p] == c);
        let id = (c & 0x0F) as usize;
        let precision = c >> 4;
        if precision == 0 {
            if p + 65 <= data.len() && len >= 65 {
                assert(Seq::new(64, |k: int| d2[p + 1 + k] as u16) =~= Seq::new(64, |k: int| data[p + 1 + k] as u16));
                lemma_dqt_tables_extend(data, t, p + 65, len - 65, acc.push((id, Seq::new(64, |k: int| data[p + 1 + k] as u16))));
            }
        } else if precision == 1 {
            if p + 129 <= data.len() && len >= 129 {
                assert(Seq::new(64, |k: int| be16(d2, p + 1 + 2 * k)) =~= Seq::new(64, |k: int| be16(data, p + 1 + 2 * k)));
                lemma_dqt_tables_extend(data, t, p + 129, len - 129, acc.push((id, Seq::new(64, |k: int| be16(data, p + 1 + 2 * k)))));
            }
        } else {
            lemma_dqt_tables_extend(data, t, p + 1, len, acc.push((id, Seq::new(64, |k: int| 0u16))));
        }
    }
}

proof fn lemma_read_dqt_extend(data: Seq<u8>, t: Seq<u8>, p: int)
    ensures
        spec_read_dqt(data, p) is Ok ==> spec_read_dqt(data + t, p) == spec_read_dqt(data, p),
{
    if let Ok((len, p1)) = spec_read_u16(data, p) {
        assert((data + t)[p] == data[p] && (data + t)[p + 1] == data[p + 1]);
        if len >= 2 {
            lemma_dqt_tables_extend(data, t, p1, len - 2, Seq::empty());
        }
    }
}

proof fn lemma_dht_codes_extend(data: Seq<u8>, t: Seq<u8>, p: int, counts: Seq<u8>, h: nat, k: nat, code: int, len: int,
    map: Map<u32, u8>)
    ensures
        spec_dht_codes(data, p, counts, h, k, code, len, map) is Ok
            ==> spec_dht_codes(data + t, p, counts, h, k, code, len, map) == spec_dht_codes(data, p, counts, h, k, code, len, map),
    decreases 16 - h, 256 - k,
{
    if h >= 16 || h >= counts.len() {
    } else if k >= counts[h as int] {
        lemma_dht_codes_extend(data, t, p, counts, h + 1, 0, (code * 2) % 65536, len, map);
    } else if p < 0 || p >= data.len() {
    } else if code + 1 > 65535 {
    } else if len < 1 {
    } else {
        assert((data + t)[p] == data[p]);
        lemma_dht_codes_extend(data, t, p + 1, counts, h, k + 1, code + 1, len - 1,
            map.insert(huffman_key((h + 1) as int, code) as u32, data[p]));
    }
}

proof fn lemma_dht_tables_extend(data: Seq<u8>, t: Seq<u8>, p: int, len: int, acc: Seq<(u8, u8, Map<u32, u8>)>)
    ensures
        spec_dht_tables(data, p, len, acc) is Ok ==> spec_dht_tables(data + t, p, len, acc) == spec_dht_tables(data, p, len, acc),
    decreases data.len() - p,
{
    if len > 0 && 0 <= p && p + 17 <= data.len() && len >= 17 {
        let d2 = data + t;
        let c = data[p];
        assert(d2[p] == c);
        let counts = data.subrange(p + 1, p + 17);
        assert(d2.subrange(p + 1, p + 17) =~= counts);
        lemma_dht_codes_advance(data, p + 17, counts, 0, 0, 0, len - 17, Map::empty());
        lemma_dht_codes_extend(data, t, p + 17, counts, 0, 0, 0, len - 17, Map::empty());
        if let Ok((map, q, len2)) = spec_dht_codes(data, p + 17, counts, 0, 0, 0, len - 17, Map::empty()) {
            lemma_dht_tables_extend(data, t, q, len2, acc.push((c >> 4, c & 0x0F, map)));
        }
    }
}

proof fn lemma_read_dht_extend(data: Seq<u8>, t: Seq<u8>, p: int)
    ensures
        spec_read_dht(data, p) is Ok ==> spec_read_dht(data + t, p) == spec_read_dht(data, p),
{
    if let Ok((len, p1)) = spec_read_u16(data, p) {
        assert((data + t)[p] == data[p] && (data + t)[p + 1] == data[p + 1]);
        if len >= 2 {
            lemma_dht_tables_extend(data, t, p1, len - 2, Seq::empty());
        }
    }
}

proof fn lemma_read_app0_extend(data: Seq<u8>, t: Seq<u8>, p: int)
    ensures
        spec_read_app0(data, p) matches Ok((_, q)) && q < data.len() ==> spec_read_app0(data + t, p) == spec_read_app0(data, p),
{
    if 0 <= p && p + 16 <= data.len() {
        let d2 = data + t;
        assert forall|i: int| p <= i < p + 16 implies d2[i] == data[i] by {}
        assert(d2[p + 2] == data[p + 2] && d2[p + 3] == data[p + 3] && d2[p + 4] == data[p + 4] && d2[p + 5] == data[p + 5]);
        assert(d2[p + 6] == data[p + 6] && d2[p + 7] == data[p + 7] && d2[p + 8] == data[p + 8] && d2[p + 9] == data[p + 9]);
        assert(d2[p + 10] == data[p + 10] && d2[p + 11] == data[p + 11] && d2[p + 12] == data[p + 12]);
        assert(d2[p + 13] == data[p + 13] && d2[p + 14] == data[p + 14] && d2[p + 15] == data[p + 15]);
    }
}

proof fn lemma_reader_loop_extend(data: Seq<u8>, t: Seq<u8>, p: int, m: MetaModel, mcus: Seq<Seq<McuModel>>)
    ensures
        spec_reader_loop(data, p, m, mcus) is Ok
            ==> spec_reader_loop(data + t, p, m, mcus) == spec_reader_loop(data, p, m, mcus),
    decreases data.len() - p,
{
    if 0 <= p < data.len() {
        let d2 = data + t;
        assert(d2[p] == data[p]);
        if data[p] != MARKER_PREFIX {
            lemma_reader_loop_extend(data, t, p + 1, m, mcus);
        } else if p + 1 < data.len() {
            assert(d2[p + 1] == data[p + 1]);
            let marker = data[p + 1];
            let q = p + 2;
            lemma_segments_advance(data, q);
            if marker == SOI_MARKER {
                lemma_reader_loop_extend(data, t, q, m, mcus);
            } else if marker == EOI_MARKER {
            } else if marker == SOF0_MARKER {
                lemma_read_sof0_extend(data, t, q);
                if let Ok((sof, q1)) = spec_read_sof0(data, q) {
                    lemma_reader_loop_extend(data, t, q1, MetaModel { sof_info: sof, ..m }, mcus);
                }
            } else if marker == SOS_MARKER {
                lemma_read_sos_extend(data, t, q);
                if let Ok((mapping, q1)) = spec_read_sos(data, q) {
                    let m1 = MetaModel { table_mapping: mapping, ..m };
                    lemma_read_mcus_advance(data, q1, m1);
                    lemma_read_mcus_extend(data, t, q1, m1);
                    if let Ok((scan, q2)) = spec_read_mcus(data, q1, m1) {
                        lemma_reader_loop_extend(data, t, q2, m1, scan);
                    }
                }
            } else if marker == APP0_MARKER {
                lemma_read_app0_extend(data, t, q);
                if let Ok((app, q1)) = spec_read_app0(data, q) {
                    lemma_reader_loop_extend(data, t, q1, MetaModel { app_info: app, ..m }, mcus);
                }
            } else if marker == DHT_MARKER {
                lemma_read_dht_extend(data, t, q);
                if let Ok((tables, q1)) = spec_read_dht(data, q) {
                    if let Ok(m1) = spec_store_huffman(m, tables, 0) {
                        lemma_reader_loop_extend(data, t, q1, m1, mcus);
                    }
                }
            } else if marker == DQT_MARKER {
                lemma_read_dqt_extend(data, t, q);
                if let Ok((tables, q1)) = spec_read_dqt(data, q) {
                    if let Ok(m1) = spec_store_quant(m, tables, 0) {
                        lemma_reader_loop_extend(data, t, q1, m1, mcus);
                    }
                }
            } else {
                lemma_reader_loop_extend(data, t, q, m, mcus);
            }
        }
    }
}

/// Reading a JPEG stream ends at its first end-of-image marker: a stream
/// that is read whole is read the same, metadata and MCUs, whatever bytes
/// follow it.
pub proof fn lemma_data_reader_ignores_trailing_bytes(data: Seq<u8>, t: Seq<u8>)
    ensures
        spec_data_reader(data) is Ok ==> spec_data_reader(data + t) == spec_data_reader(data),
{
    lemma_reader_loop_extend(data, t, 0, initial_meta(), Seq::empty());
}

/// `mcus` is the scan data that follows a scan header whose table mapping
/// is `mapping`, read with a metadata that holds that mapping: there is a
/// start-of-scan marker whose header, at `p`, gives `mapping` and ends at
/// `q`, and the scan data at `q` decodes to `mcus`.
pub open spec fn scan_read_with_its_header(data: Seq<u8>, mapping: [(usize, usize); 3], mcus: Seq<Seq<McuModel>>) -> bool {
    exists|p: int, q: int, mp: MetaModel|
        #![trigger spec_read_sos(data, p), spec_read_mcus(data, q, mp)]
        {
            &&& 2 <= p <= data.len()
            &&& data[p - 2] == MARKER_PREFIX
            &&& data[p - 1] == SOS_MARKER
            &&& spec_read_sos(data, p) == Ok::<([(usize, usize); 3], int), JpegError>((mapping, q))
            &&& mp.table_mapping == mapping
            &&& spec_read_mcus(data, q, mp) matches Ok((ms, _))
            &&& ms == mcus
        }
}

proof fn lemma_store_huffman_keeps_mapping(m: MetaModel, tables: Seq<(u8, u8, Map<u32, u8>)>, i: int)
    ensures
        spec_store_huffman(m, tables, i) matches Ok(m1) ==> m1.table_mapping == m.table_mapping,
    decreases tables.len() - i,
{
    if 0 <= i < tables.len() {
        let (class, id, map) = tables[i];
        lemma_store_huffman_keeps_mapping(MetaModel { ac_tables: m.ac_tables.update(id as int, map), ..m }, tables, i + 1);
        lemma_store_huffman_keeps_mapping(MetaModel { dc_tables: m.dc_tables.update(id as int, map), ..m }, tables, i + 1);
    }
}

proof fn lemma_store_quant_keeps_mapping(m: MetaModel, tables: Seq<(usize, Seq<u16>)>, i: int)
    ensures
        spec_store_quant(m, tables, i) matches Ok(m1) ==> m1.table_mapping == m.table_mapping,
    decreases tables.len() - i,
{
    if 0 <= i < tables.len() {
        let (id, table) = tables[i];
        lemma_store_quant_keeps_mapping(MetaModel { quant_tables: m.quant_tables.update(id as int, table), ..m }, tables, i + 1);
    }
}

/// No scan read yet, or the last scan decoded with its own header's
/// table mapping, which the metadata holds.
pub open spec fn scan_state(data: Seq<u8>, m: MetaModel, mcus: Seq<Seq<McuModel>>) -> bool {
    ||| mcus.len() == 0 && m.table_mapping == initial_meta().table_mapping
    ||| scan_read_with_its_header(data, m.table_mapping, mcus)
}

#[verifier::rlimit(30)]
proof fn lemma_reader_loop_scan_state(data: Seq<u8>, p: int, m: MetaModel, mcus: Seq<Seq<McuModel>>)
    requires
        scan_state(data, m, mcus),
    ensures
        spec_reader_loop(data, p, m, mcus) matches Ok((m2, mcus2)) ==> scan_state(data, m2, mcus2),
    decreases data.len() - p,
{
    if 0 <= p < data.len() {
        if data[p] != MARKER_PREFIX {
            lemma_reader_loop_scan_state(data, p + 1, m, mcus);
        } else if p + 1 < data.len() {
            let marker = data[p + 1];
            let q = p + 2;
            lemma_segments_advance(data, q);
            if marker == SOI_MARKER {
                lemma_reader_loop_scan_state(data, q, m, mcus);
            } else if marker == EOI_MARKER {
            } else if marker == SOF0_MARKER {
                if let Ok((sof, q1)) = spec_read_sof0(data, q) {
                    lemma_reader_loop_scan_state(data, q1, MetaModel { sof_info: sof, ..m }, mcus);
                }
            } else if marker == SOS_MARKER {
                if let Ok((mapping, q1)) = spec_read_sos(data, q) {
                    let m1 = MetaModel { table_mapping: mapping, ..m };
                    lemma_read_mcus_advance(data, q1, m1);
                    if let Ok((scan, q2)) = spec_read_mcus(data, q1, m1) {
                        assert(scan_read_with_its_header(data, mapping, scan));
                        lemma_reader_loop_scan_state(data, q2, m1, scan);
                    }
                }
            } else if marker == APP0_MARKER {
                if let Ok((app, q1)) = spec_read_app0(data, q) {
                    lemma_reader_loop_scan_state(data, q1, MetaModel { app_info: app, ..m }, mcus);
                }
            } else if marker == DHT_MARKER {
                if let Ok((tables, q1)) = spec_read_dht(data, q) {
                    lemma_store_huffman_keeps_mapping(m, tables, 0);
                    if let Ok(m1) = spec_store_huffman(m, tables, 0) {
                        lemma_reader_loop_scan_state(data, q1, m1, mcus);
                    }
                }
            } else if marker == DQT_MARKER {
                if let Ok((tables, q1)) = spec_read_dqt(data, q) {
                    lemma_store_quant_keeps_mapping(m, tables, 0);
                    if let Ok(m1) = spec_store_quant(m, tables, 0) {
                        lemma_reader_loop_scan_state(data, q1, m1, mcus);
                    }
                }
            } else {
                lemma_reader_loop_scan_state(data, q, m, mcus);
            }
        }
    }
}

/// A scan is decoded with the table mapping of its own header: the MCUs
/// that reading a stream gives are the scan data after a start-of-scan
/// header, decoded with a metadata that holds that header's mapping, which
/// is also the mapping that the returned metadata holds. Where no scan was
/// read, there are no MCUs and the mapping is the initial one.
pub proof fn lemma_scan_uses_its_own_header(data: Seq<u8>)
    ensures
        spec_data_reader(data) matches Ok((m, mcus)) ==> {
            ||| mcus.len() == 0 && m.table_mapping == initial_meta().table_mapping
            ||| scan_read_with_its_header(data, m.table_mapping, mcus)
        },
{
    lemma_reader_loop_scan_state(data, 0, initial_meta(), Seq::empty());
}

/// Stores the tables of a DHT segment into `jpeg_meta_data`.
pub fn store_huffman_tables(jpeg_meta_data: &mut JPEGMetaData, huffman_tables: &Vec<(u8, u8, HashMap<u32, u8>)>)
    -> (r: Result<(), JpegError>)
    ensures
        match r {
            Ok(()) => spec_store_huffman(old(jpeg_meta_data)@, dht_entries_view(huffman_tables@), 0)
                == Ok::<MetaModel, JpegError>(final(jpeg_meta_data)@),
            Err(e) => spec_store_huffman(old(jpeg_meta_data)@, dht_entries_view(huffman_tables@), 0)
                == Err::<MetaModel, JpegError>(e),
        },
{
    let ghost tables = dht_entries_view(huffman_tables@);
    let ghost m_start = jpeg_meta_data@;
    let mut i: usize = 0;
    while i < huffman_tables.len()
        invariant
            i <= huffman_tables@.len(),
            tables == dht_entries_view(huffman_tables@),
            m_start == old(jpeg_meta_data)@,
            spec_store_huffman(jpeg_meta_data@, tables, i as int) == spec_store_huffman(m_start, tables, 0),
        decreases huffman_tables@.len() - i,
    {
        let ac_dc = huffman_tables[i].0;
        let id = huffman_tables[i].1;
        let table = huffman_tables[i].2.clone();
        let ghost m0 = jpeg_meta_data@;
        if ac_dc == AC {
            if id >= 2 {
                return Err(JpegError::TableIdOutOfRange);
            }
            jpeg_meta_data.huffman_tables.ac_tables[id as usize] = table;
            assert(jpeg_meta_data@.ac_tables =~= m0.ac_tables.update(id as int, table@));
            assert(jpeg_meta_data@ == MetaModel { ac_tables: m0.ac_tables.update(id as int, table@), ..m0 });
        } else if ac_dc == DC {
            if id >= 2 {
                return Err(JpegError::TableIdOutOfRange);
            }
            jpeg_meta_data.huffman_tables.dc_tables[id as usize] = table;
            assert(jpeg_meta_data@.dc_tables =~= m0.dc_tables.update(id as int, table@));
            assert(jpeg_meta_data@ == MetaModel { dc_tables: m0.dc_tables.update(id as int, table@), ..m0 });
        } else {
            return Err(JpegError::InvalidTableClass);
        }
        i = i + 1;
    }
    Ok(())
}

/// Stores the tables of a DQT segment into `jpeg_meta_data`.
pub fn store_quant_tables(jpeg_meta_data: &mut JPEGMetaData, quant_tables: &Vec<(usize, [u16; 64])>)
    -> (r: Result<(), JpegError>)
    ensures
        match r {
            Ok(()) => spec_store_quant(old(jpeg_meta_data)@, quant_entries_view(quant_tables@), 0)
                == Ok::<MetaModel, JpegError>(final(jpeg_meta_data)@),
            Err(e) => spec_store_quant(old(jpeg_meta_data)@, quant_entries_view(quant_tables@), 0)
                == Err::<MetaModel, JpegError>(e),
        },
{
    let ghost tables = quant_entries_view(quant_tables@);
    let ghost m_start = jpeg_meta_data@;
    let mut i: usize = 0;
    while i < quant_tables.len()
        invariant
            i <= quant_tables@.len(),
            tables == quant_entries_view(quant_tables@),
            m_start == old(jpeg_meta_data)@,
            spec_store_quant(jpeg_meta_data@, tables, i as int) == spec_store_quant(m_start, tables, 0),
        decreases quant_tables@.len() - i,
    {
        let (id, table) = quant_tables[i];
        let ghost m0 = jpeg_meta_data@;
        if id >= 4 {
            return Err(JpegError::TableIdOutOfRange);
        }
        jpeg_meta_data.quant_tables[id] = table;
        assert(jpeg_meta_data@.quant_tables =~= m0.quant_tables.update(id as int, table@));
        assert(jpeg_meta_data@ == MetaModel { quant_tables: m0.quant_tables.update(id as int, table@), ..m0 });
        i = i + 1;
    }
    Ok(())
}

/// Reads a whole JPEG byte stream: the metadata of its segments and the
/// MCUs of its (last) scan.
#[verifier::rlimit(50)]
pub fn data_reader(data: &[u8]) -> (r: Result<(JPEGMetaData, Vec<Vec<MCU>>), JpegError>)
    ensures
        match r {
            Ok((meta, mcus)) => spec_data_reader(data@)
                == Ok::<(MetaModel, Seq<Seq<McuModel>>), JpegError>((meta@, mcus_view(mcus@))),
            Err(e) => spec_data_reader(data@) == Err::<(MetaModel, Seq<Seq<McuModel>>), JpegError>(e),
        },
{
    let _ = data.len(); // the length of a slice fits in a usize
    let mut jpeg_meta_data = JPEGMetaData::new();
    let mut mcus: Vec<Vec<MCU>> = Vec::new();
    assert(mcus_view(mcus@) =~= Seq::empty());
    let mut p: usize = 0;
    loop
        invariant
            p <= data@.len(),
            spec_reader_loop(data@, p as int, jpeg_meta_data@, mcus_view(mcus@)) == spec_data_reader(data@),
        ensures
            spec_data_reader(data@) == Ok::<(MetaModel, Seq<Seq<McuModel>>), JpegError>((jpeg_meta_data@, mcus_view(mcus@))),
        decreases data@.len() - p,
    {
        let ghost p_old = p;
        let (c, p1) = match read_u8(data, p) { Ok(v) => v, Err(e) => return Err(e) };
        if c != MARKER_PREFIX {
            p = p1;
            continue;
        }
        let (c, p2) = match read_u8(data, p1) { Ok(v) => v, Err(e) => return Err(e) };
        proof {
            lemma_segments_advance(data@, p2 as int);
        }
        if c == SOI_MARKER {
            p = p2;
        } else if c == EOI_MARKER {
            break;
        } else if c == SOF0_MARKER {
            let (sof_info, q) = match read_sof0(data, p2) { Ok(v) => v, Err(e) => return Err(e) };
            jpeg_meta_data.sof_info = sof_info;
            p = q;
        } else if c == SOS_MARKER {
            let (table_mapping, q) = match read_sos(data, p2) { Ok(v) => v, Err(e) => return Err(e) };
            jpeg_meta_data.table_mapping = table_mapping;
            let (scan, q2) = match read_mcus(data, q, &jpeg_meta_data) { Ok(v) => v, Err(e) => return Err(e) };
            proof {
                lemma_read_mcus_advance(data@, q as int, jpeg_meta_data@);
            }
            mcus = scan;
            p = q2;
        } else if c == APP0_MARKER {
            let (app_info, q) = match read_app0(data, p2) { Ok(v) => v, Err(e) => return Err(e) };
            jpeg_meta_data.app_info = app_info;
            p = q;
        } else if c == DHT_MARKER {
            let (huffman_tables, q) = match read_dht(data, p2) { Ok(v) => v, Err(e) => return Err(e) };
            match store_huffman_tables(&mut jpeg_meta_data, &huffman_tables) { Ok(()) => {}, Err(e) => return Err(e) }
            p = q;
        } else if c == DQT_MARKER {
            let (quant_tables, q) = match read_dqt(data, p2) { Ok(v) => v, Err(e) => return Err(e) };
            match store_quant_tables(&mut jpeg_meta_data, &quant_tables) { Ok(()) => {}, Err(e) => return Err(e) }
            p = q;
        } else {
            p = p2;
        }
        assert(p > p_old);
    }
    Ok((jpeg_meta_data, mcus))
}


/// The first code of length `h + 1` in a table with the code-length
/// counts `counts`, counted without bounds.
pub open spec fn first_code(counts: Seq<u8>, h: nat) -> int
    decreases h,
{
    if h == 0 {
        0
    } else {
        2 * (first_code(counts, (h - 1) as nat) + counts[h - 1] as int)
    }
}

/// The length of the code stored under `key`.
pub open spec fn key_length(key: u32) -> int {
    key as int / 65536
}

/// The value of the code stored under `key`.
pub open spec fn key_code(key: u32) -> int {
    key as int % 65536
}

/// The code under `k1` is a prefix of the code under `k2`: it is no longer,
/// and `k2`'s code without its last bits is `k1`'s code.
pub open spec fn is_code_prefix(k1: u32, k2: u32) -> bool {
    &&& key_length(k1) <= key_length(k2)
    &&& key_code(k2) / two_pow((key_length(k2) - key_length(k1)) as nat) as int == key_code(k1)
}

/// Every code of the table has 1 to 16 bits and fits them, and no code is
/// a prefix of another.
pub open spec fn is_prefix_code(map: Map<u32, u8>) -> bool {
    &&& forall|k: u32| #[trigger] map.contains_key(k) ==> 1 <= key_length(k) <= 16 && key_code(k) < two_pow(key_length(k) as nat)
    &&& forall|k1: u32, k2: u32| #[trigger] map.contains_key(k1) && #[trigger] map.contains_key(k2) && k1 != k2
        ==> !is_code_prefix(k1, k2)
}

proof fn lemma_key_parts(l: int, c: int)
    requires
        1 <= l <= 16,
        0 <= c < 65536,
    ensures
        key_length((l * 65536 + c) as u32) == l,
        key_code((l * 65536 + c) as u32) == c,
{
    let key = (l * 65536 + c) as u32;
    assert(key as int == l * 65536 + c);
    assert((l * 65536 + c) / 65536 == l && (l * 65536 + c) % 65536 == c) by (nonlinear_arith)
        requires
            0 <= c < 65536,
    ;
}

proof fn lemma_first_code_monotone(counts: Seq<u8>, a: nat, b: nat)
    requires
        a <= b,
    ensures
        first_code(counts, a) <= first_code(counts, b),
        first_code(counts, a) >= 0,
    decreases b - a,
{
    lemma_first_code_nonnegative(counts, b);
    if a < b {
        lemma_first_code_monotone(counts, a, (b - 1) as nat);
        lemma_first_code_nonnegative(counts, (b - 1) as nat);
    }
}

proof fn lemma_first_code_scale(counts: Seq<u8>, a: nat, b: nat)
    requires
        a <= b,
    ensures
        first_code(counts, b) >= two_pow((b - a) as nat) * first_code(counts, a),
    decreases b - a,
{
    lemma_first_code_nonnegative(counts, a);
    if a == b {
        assert(((b - a) as nat) == 0);
        assert(two_pow(0) == 1);
        assert(two_pow((b - a) as nat) * first_code(counts, a) == first_code(counts, a));
    } else {
        lemma_first_code_scale(counts, a, (b - 1) as nat);
        lemma_first_code_nonnegative(counts, (b - 1) as nat);
        let e = (b - 1 - a) as nat;
        assert(((b - a) as nat) == e + 1);
        assert(two_pow(e + 1) == 2 * two_pow(e));
        let f = first_code(counts, a);
        assert(first_code(counts, b) == 2 * (first_code(counts, (b - 1) as nat) + counts[b - 1] as int));
        assert(first_code(counts, (b - 1) as nat) >= two_pow(e) * f);
        assert(first_code(counts, b) >= 2 * (two_pow(e) * f));
        assert(2 * (two_pow(e) * f) == (2 * two_pow(e)) * f) by (nonlinear_arith);
        assert(two_pow((b - a) as nat) * f == (2 * two_pow(e)) * f);
    }
}

/// Where the first code of length 16 is below 65536, every code of a
/// shorter length fits its length.
proof fn lemma_code_fits(counts: Seq<u8>, h: nat, code: int)
    requires
        counts.len() == 16,
        h < 15,
        first_code(counts, 15) < 65536,
        first_code(counts, h) <= code < first_code(counts, h) + counts[h as int],
    ensures
        code < two_pow(h + 1),
{
    if code >= two_pow(h + 1) {
        lemma_first_code_scale(counts, h + 1, 15);
        let f = first_code(counts, h + 1);
        assert(f == 2 * (first_code(counts, h) + counts[h as int]));
        assert(two_pow(h + 2) == 2 * two_pow(h + 1));
        assert(f >= two_pow(h + 2));
        let d = two_pow((15 - (h + 1)) as nat);
        assert(d * f >= d * two_pow(h + 2)) by (nonlinear_arith)
            requires
                f >= two_pow(h + 2),
                d >= 0,
        ;
        lemma_two_pow_add((15 - (h + 1)) as nat, h + 2);
        assert(((15 - (h + 1)) as nat) + (h + 2) == 16);
        reveal_with_fuel(two_pow, 17);
        assert(two_pow(16) == 65536);
    }
}

proof fn lemma_first_code_nonnegative(counts: Seq<u8>, h: nat)
    ensures
        first_code(counts, h) >= 0,
    decreases h,
{
    if h > 0 {
        lemma_first_code_nonnegative(counts, (h - 1) as nat);
    }
}

/// The invariant of the codes of a table while they are assigned: every
/// code so far has 1 to `h + 1` bits and fits them, lies below `code` once
/// extended to `h + 1` bits, and no code is a prefix of another.
pub open spec fn codes_so_far(map: Map<u32, u8>, h: nat, code: int) -> bool {
    &&& forall|k: u32| #[trigger] map.contains_key(k) ==> {
        &&& 1 <= key_length(k) <= h + 1
        &&& key_code(k) < two_pow(key_length(k) as nat)
        &&& (key_code(k) + 1) * two_pow((h + 1 - key_length(k)) as nat) <= code
    }
    &&& forall|k1: u32, k2: u32| #[trigger] map.contains_key(k1) && #[trigger] map.contains_key(k2) && k1 != k2
        ==> !is_code_prefix(k1, k2)
}

proof fn lemma_div_lower(c: int, d: int, x: int)
    requires
        d >= 1,
        c >= 0,
        (c + 1) * d <= x,
    ensures
        x / d >= c + 1,
{
    assert(x / d >= c + 1) by (nonlinear_arith)
        requires
            d >= 1,
            c >= 0,
            (c + 1) * d <= x,
    ;
}

proof fn lemma_codes_insert(map: Map<u32, u8>, h: nat, code: int, sym: u8)
    requires
        h < 16,
        0 <= code < two_pow(h + 1),
        two_pow(h + 1) <= 65536,
        codes_so_far(map, h, code),
    ensures
        codes_so_far(map.insert(huffman_key((h + 1) as int, code) as u32, sym), h, code + 1),
{
    let key = huffman_key((h + 1) as int, code) as u32;
    lemma_key_parts((h + 1) as int, code);
    let m2 = map.insert(key, sym);
    assert(two_pow(0) == 1);
    assert forall|k: u32| #[trigger] m2.contains_key(k) implies {
        &&& 1 <= key_length(k) <= h + 1
        &&& key_code(k) < two_pow(key_length(k) as nat)
        &&& (key_code(k) + 1) * two_pow((h + 1 - key_length(k)) as nat) <= code + 1
    } by {
        if k == key {
            assert((h + 1 - key_length(k)) as nat == 0);
        } else {
            assert(map.contains_key(k));
        }
    }
    assert forall|k1: u32, k2: u32| #[trigger] m2.contains_key(k1) && #[trigger] m2.contains_key(k2) && k1 != k2
        implies !is_code_prefix(k1, k2) by {
        if k1 == key {
            assert(map.contains_key(k2));
            let l2 = key_length(k2);
            let c2 = key_code(k2);
            if l2 == h + 1 {
                assert(two_pow(0) == 1);
                assert((c2 + 1) * 1 <= code);
                assert(c2 / 1 == c2);
            }
        } else if k2 == key {
            assert(map.contains_key(k1));
            let l1 = key_length(k1);
            let c1 = key_code(k1);
            let d = two_pow((h + 1 - l1) as nat) as int;
            crate::reader::lemma_two_pow_positive((h + 1 - l1) as nat);
            lemma_div_lower(c1, d, code);
            assert(code / d >= c1 + 1);
        } else {
            assert(map.contains_key(k1) && map.contains_key(k2));
        }
    }
}

proof fn lemma_codes_next_length(map: Map<u32, u8>, h: nat, code: int)
    requires
        h < 16,
        code >= 0,
        codes_so_far(map, h, code),
    ensures
        codes_so_far(map, h + 1, 2 * code),
{
    assert forall|k: u32| #[trigger] map.contains_key(k) implies
        (key_code(k) + 1) * two_pow((h + 2 - key_length(k)) as nat) <= 2 * code by {
        let e = (h + 1 - key_length(k)) as nat;
        assert(((h + 2 - key_length(k)) as nat) == e + 1);
        assert(two_pow(e + 1) == 2 * two_pow(e));
        assert((key_code(k) + 1) * (2 * two_pow(e)) == 2 * ((key_code(k) + 1) * two_pow(e))) by (nonlinear_arith);
    }
}

proof fn lemma_dht_codes_prefix(
    data: Seq<u8>,
    p: int,
    counts: Seq<u8>,
    h: nat,
    k: nat,
    code: int,
    len: int,
    map: Map<u32, u8>,
)
    requires
        counts.len() == 16,
        first_code(counts, 15) < 65536,
        h <= 16,
        h < 16 ==> k <= counts[h as int],
        h < 16 ==> code == first_code(counts, h) + k,
        code >= 0,
        h < 16 ==> codes_so_far(map, h, code),
        h == 16 ==> is_prefix_code(map),
    ensures
        spec_dht_codes(data, p, counts, h, k, code, len, map) matches Ok((m, _, _)) ==> is_prefix_code(m),
    decreases 16 - h, 256 - k,
{
    if h >= 16 {
    } else if k >= counts[h as int] {
        if h + 1 < 16 {
            lemma_first_code_monotone(counts, h + 1, 15);
            assert(first_code(counts, h + 1) == 2 * code);
            lemma_codes_next_length(map, h, code);
            lemma_dht_codes_prefix(data, p, counts, h + 1, 0, (code * 2) % 65536, len, map);
        } else {
            assert forall|kk: u32| #[trigger] map.contains_key(kk) implies 1 <= key_length(kk) <= 16
                && key_code(kk) < two_pow(key_length(kk) as nat) by {}
            lemma_dht_codes_prefix(data, p, counts, h + 1, 0, (code * 2) % 65536, len, map);
        }
    } else if p < 0 || p >= data.len() {
    } else if code + 1 > 65535 {
    } else if len < 1 {
    } else {
        lemma_two_pow_le_16(h + 1);
        if h < 15 {
            lemma_code_fits(counts, h, code);
        } else {
            reveal_with_fuel(two_pow, 17);
            assert(two_pow(16) == 65536);
        }
        lemma_codes_insert(map, h, code, data[p]);
        lemma_dht_codes_prefix(data, p + 1, counts, h, k + 1, code + 1, len - 1,
            map.insert(huffman_key((h + 1) as int, code) as u32, data[p]));
    }
}

/// The codes of a Huffman table are a prefix code: each fits its length,
/// and none is the beginning of another, so a decoder that stops at the
/// first code it finds has found the only one. This holds of every table
/// that is read whole and whose codes of lengths 1 to 15 leave room for
/// the codes of length 16 (the first code of length 16 is below 65536).
pub proof fn lemma_huffman_table_is_prefix_code(data: Seq<u8>, p: int, counts: Seq<u8>, len: int)
    requires
        counts.len() == 16,
        first_code(counts, 15) < 65536,
    ensures
        spec_dht_codes(data, p, counts, 0, 0, 0, len, Map::empty()) matches Ok((m, _, _)) ==> is_prefix_code(m),
{
    assert(first_code(counts, 0) == 0);
    lemma_dht_codes_prefix(data, p, counts, 0, 0, 0, len, Map::empty());
}

/// Each table of a DHT segment from `p` on, with `len` bytes left, has
/// code-length counts whose first code of length 16 is below 65536.
pub open spec fn dht_tables_leave_room(data: Seq<u8>, p: int, len: int) -> bool
    decreases data.len() - p via dht_tables_leave_room_decreases
{
    if len <= 0 || p < 0 || p + 17 > data.len() || len < 17 {
        true
    } else {
        let counts = data.subrange(p + 1, p + 17);
        &&& first_code(counts, 15) < 65536
        &&& match spec_dht_codes(data, p + 17, counts, 0, 0, 0, len - 17, Map::empty()) {
            Err(_) => true,
            Ok((_, q, len2)) => dht_tables_leave_room(data, q, len2),
        }
    }
}

#[via_fn]
proof fn dht_tables_leave_room_decreases(data: Seq<u8>, p: int, len: int) {
    if len > 0 && 0 <= p && p + 17 <= data.len() && len >= 17 {
        lemma_dht_codes_advance(data, p + 17, data.subrange(p + 1, p + 17), 0, 0, 0, len - 17, Map::empty());
    }
}

proof fn lemma_dht_tables_prefix(data: Seq<u8>, p: int, len: int, acc: Seq<(u8, u8, Map<u32, u8>)>)
    requires
        forall|i: int| 0 <= i < acc.len() ==> is_prefix_code(#[trigger] acc[i].2),
        dht_tables_leave_room(data, p, len),
    ensures
        spec_dht_tables(data, p, len, acc) matches Ok((tables, _))
            ==> forall|i: int| 0 <= i < tables.len() ==> is_prefix_code(#[trigger] tables[i].2),
    decreases data.len() - p,
{
    if len > 0 && 0 <= p && p + 17 <= data.len() && len >= 17 {
        let c = data[p];
        let counts = data.subrange(p + 1, p + 17);
        lemma_dht_codes_advance(data, p + 17, counts, 0, 0, 0, len - 17, Map::empty());
        lemma_huffman_table_is_prefix_code(data, p + 17, counts, len - 17);
        if let Ok((map, q, len2)) = spec_dht_codes(data, p + 17, counts, 0, 0, 0, len - 17, Map::empty()) {
            let acc2 = acc.push((c >> 4, c & 0x0F, map));
            assert forall|i: int| 0 <= i < acc2.len() implies is_prefix_code(#[trigger] acc2[i].2) by {
                if i < acc.len() {
                    assert(acc2[i] == acc[i]);
                }
            }
            lemma_dht_tables_prefix(data, q, len2, acc2);
        }
    }
}

/// Every Huffman table of a DHT segment is a prefix code, where each
/// table's code-length counts leave room for the codes of length 16.
pub proof fn lemma_dht_segment_tables_are_prefix_codes(data: Seq<u8>, p: int)
    requires
        spec_read_u16(data, p) matches Ok((len, p1)) ==> dht_tables_leave_room(data, p1, len - 2),
    ensures
        spec_read_dht(data, p) matches Ok((tables, _))
            ==> forall|i: int| 0 <= i < tables.len() ==> is_prefix_code(#[trigger] tables[i].2),
{
    if let Ok((len, p1)) = spec_read_u16(data, p) {
        if len >= 2 {
            lemma_dht_tables_prefix(data, p1, len - 2, Seq::empty());
        }
    }
}

}
