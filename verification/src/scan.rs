//! Entropy-coded scan data: the bit stream, Huffman decoding and the
//! run-length coding of DCT coefficients.

use std::collections::HashMap;
use vstd::prelude::*;
use vstd::array::spec_array_update;
use crate::primitives::{Block, ComponentInfo, JPEGMetaData, JpegError, MCU, MetaModel, SofInfo, huffman_key};
use crate::reader::{is_code_prefix, is_prefix_code, key_code, key_length, lemma_two_pow_le_16, lemma_two_pow_positive, two_pow};

verus! {

/// The state of a bit reader over scan data, with its position as an
/// integer: the byte that holds the next bits, how many of its bits
/// (from the most significant one) have been used, and the last DC value
/// of each component.
pub struct BitModel {
    pub pos: int,
    pub buf: u8,
    pub count: u8,
    pub last_dc: [i64; 3],
}

/// Bit `i` of `b`, counted from the most significant bit.
pub open spec fn msb_bit(b: u8, i: u8) -> u8 {
    (b >> ((7 - i) as u8)) & 1
}

/// The next bit of the scan data. Bits are taken from the most significant
/// one on; a 0xFF byte must be followed by a 0x00 byte, which is skipped.
pub open spec fn spec_get_bit(data: Seq<u8>, s: BitModel) -> Result<(u8, BitModel), JpegError> {
    if s.count == 0 {
        if s.pos < 0 || s.pos >= data.len() {
            Err(JpegError::UnexpectedEof)
        } else {
            let b = data[s.pos];
            if b == 0xFF {
                if s.pos + 1 >= data.len() {
                    Err(JpegError::UnexpectedEof)
                } else if data[s.pos + 1] != 0 {
                    Err(JpegError::BadByteStuffing)
                } else {
                    Ok((msb_bit(b, 0), BitModel { pos: s.pos + 2, buf: b, count: 1, ..s }))
                }
            } else {
                Ok((msb_bit(b, 0), BitModel { pos: s.pos + 1, buf: b, count: 1, ..s }))
            }
        }
    } else {
        Ok((msb_bit(s.buf, s.count), BitModel { count: if s.count == 7 { 0 } else { (s.count + 1) as u8 }, ..s }))
    }
}

/// The symbol of the first code in the bits that follow that `map` holds,
/// trying the lengths `len` to 16; `code` holds the `len - 1` bits read.
pub open spec fn spec_match_huffman(data: Seq<u8>, s: BitModel, map: Map<u32, u8>, code: int, len: int)
    -> Result<(u8, BitModel), JpegError>
    decreases 17 - len,
{
    if len < 1 || len > 16 {
        Err(JpegError::HuffmanDecodeFailed)
    } else {
        match spec_get_bit(data, s) {
            Err(e) => Err(e),
            Ok((b, s1)) => {
                let c = code * 2 + b;
                let key = huffman_key(len, c) as u32;
                if map.contains_key(key) {
                    Ok((map[key], s1))
                } else if len == 16 {
                    Err(JpegError::HuffmanDecodeFailed)
                } else {
                    spec_match_huffman(data, s1, map, c, len + 1)
                }
            },
        }
    }
}

/// `n` more bits of a value whose first bit is `first`: each doubles the
/// 16-bit accumulator `acc` and adds 1 where the bit equals the first one.
pub open spec fn spec_value_bits(data: Seq<u8>, s: BitModel, first: u8, acc: int, n: nat)
    -> Result<(int, BitModel), JpegError>
    decreases n,
{
    if n == 0 {
        Ok((acc, s))
    } else {
        match spec_get_bit(data, s) {
            Err(e) => Err(e),
            Ok((b, s1)) => spec_value_bits(data, s1, first, (acc * 2 + if b == first { 1int } else { 0int }) % 65536, (n - 1) as nat),
        }
    }
}

/// A 16-bit pattern read as a two's complement number.
pub open spec fn signed16(x: int) -> int {
    if x >= 32768 { x - 65536 } else { x }
}

/// The value of `code_len` bits: with a leading 1 they are the value
/// itself; with a leading 0 they are the negated value of their complement.
/// The value is kept in 16 bits; its negation must fit there too.
pub open spec fn spec_read_value(data: Seq<u8>, s: BitModel, code_len: u8) -> Result<(i32, BitModel), JpegError> {
    match spec_get_bit(data, s) {
        Err(e) => Err(e),
        Ok((first, s1)) => match spec_value_bits(data, s1, first, 1, if code_len >= 1 { (code_len - 1) as nat } else { 0 }) {
            Err(e) => Err(e),
            Ok((r, s2)) => {
                let v = signed16(r);
                if first == 1 {
                    Ok((v as i32, s2))
                } else if v == -32768 {
                    Err(JpegError::ValueOverflow)
                } else {
                    Ok(((-v) as i32, s2))
                }
            },
        },
    }
}

/// The DC value of the next block of component `id`: the stored previous
/// value plus the coded difference, kept in 64 bits.
pub open spec fn spec_read_dc(data: Seq<u8>, s: BitModel, map: Map<u32, u8>, id: int) -> Result<(i64, BitModel), JpegError> {
    match spec_match_huffman(data, s, map, 0, 1) {
        Err(e) => Err(e),
        Ok((code_len, s1)) => if code_len == 0 {
            Ok((s1.last_dc[id], s1))
        } else {
            match spec_read_value(data, s1, code_len) {
                Err(e) => Err(e),
                Ok((v, s2)) => {
                    let sum = s2.last_dc[id] + v;
                    if sum < i64::MIN || sum > i64::MAX {
                        Err(JpegError::ValueOverflow)
                    } else {
                        Ok((sum as i64, BitModel { last_dc: spec_array_update(s2.last_dc, id, sum as i64), ..s2 }))
                    }
                },
            }
        },
    }
}

/// One run-length coded AC entry.
#[derive(Clone, Copy, Debug, PartialEq, Eq, Structural)]
pub enum AcValue {
    /// Sixteen zero coefficients.
    SixteenZeros,
    /// Zeros up to the end of the block.
    AllZeros,
    /// `zeros` zero coefficients, then `value`.
    Normal { zeros: usize, value: i32 },
}

pub open spec fn spec_read_ac(data: Seq<u8>, s: BitModel, map: Map<u32, u8>) -> Result<(AcValue, BitModel), JpegError> {
    match spec_match_huffman(data, s, map, 0, 1) {
        Err(e) => Err(e),
        Ok((x, s1)) => if x == 0x00 {
            Ok((AcValue::AllZeros, s1))
        } else if x == 0xF0 {
            Ok((AcValue::SixteenZeros, s1))
        } else {
            match spec_read_value(data, s1, x & 0x0F) {
                Err(e) => Err(e),
                Ok((v, s2)) => Ok((AcValue::Normal { zeros: (x >> 4) as usize, value: v }, s2)),
            }
        },
    }
}

/// The 64 coefficients of a block, in zigzag order.
pub open spec fn block_view(b: Block) -> Seq<i64> {
    Seq::new(64, |k: int| b@[k / 8]@[k % 8])
}

/// `blk` with the entries from `from` up to `to` set to zero.
pub open spec fn zero_range(blk: Seq<i64>, from: int, to: int) -> Seq<i64> {
    Seq::new(blk.len(), |k: int| if from <= k < to { 0i64 } else { blk[k] })
}

/// The AC coefficients of a block from index `count` on.
pub open spec fn spec_ac_coefficients(data: Seq<u8>, s: BitModel, map: Map<u32, u8>, blk: Seq<i64>, count: int)
    -> Result<(Seq<i64>, BitModel), JpegError>
    decreases 64 - count,
{
    if count >= 64 {
        Ok((blk, s))
    } else {
        match spec_read_ac(data, s, map) {
            Err(e) => Err(e),
            Ok((ac, s1)) => match ac {
                AcValue::AllZeros => Ok((zero_range(blk, count, 64), s1)),
                AcValue::SixteenZeros => if count + 16 > 64 {
                    Err(JpegError::CoefficientOverflow)
                } else {
                    spec_ac_coefficients(data, s1, map, zero_range(blk, count, count + 16), count + 16)
                },
                AcValue::Normal { zeros, value } => if count + zeros >= 64 {
                    Err(JpegError::CoefficientOverflow)
                } else {
                    spec_ac_coefficients(data, s1, map,
                        zero_range(blk, count, count + zeros).update(count + zeros, value as i64), count + zeros + 1)
                },
            },
        }
    }
}

/// One block of component `id`: its DC value, then its AC coefficients.
pub open spec fn spec_read_block(data: Seq<u8>, s: BitModel, dc: Map<u32, u8>, ac: Map<u32, u8>, id: int)
    -> Result<(Seq<i64>, BitModel), JpegError>
{
    match spec_read_dc(data, s, dc, id) {
        Err(e) => Err(e),
        Ok((v, s1)) => spec_ac_coefficients(data, s1, ac, Seq::new(64, |k: int| 0i64).update(0, v), 1),
    }
}

/// `r` agrees with the specified result `spec_r`, the reader ending in
/// the state `s`.
pub open spec fn agrees<T>(r: Result<T, JpegError>, s: BitModel, spec_r: Result<(T, BitModel), JpegError>) -> bool {
    match r {
        Ok(v) => spec_r == Ok::<(T, BitModel), JpegError>((v, s)),
        Err(e) => spec_r == Err::<(T, BitModel), JpegError>(e),
    }
}

/// A bit reader over the scan data.
pub struct BitStream<'a> {
    pub data: &'a [u8],
    pub pos: usize,
    pub buf: u8,
    pub count: u8,
    pub last_dc: [i64; 3],
}

proof fn lemma_bit_test(b: u8, i: u8)
    requires
        i < 8,
    ensures
        ((b & (1u8 << ((7 - i) as u8))) > 0) == (msb_bit(b, i) == 1),
        msb_bit(b, i) <= 1,
{
    assert(((b & (1u8 << ((7 - i) as u8))) > 0) == (((b >> ((7 - i) as u8)) & 1) == 1)) by (bit_vector)
        requires
            i < 8,
    ;
    assert(((b >> ((7 - i) as u8)) & 1) <= 1) by (bit_vector);
}

impl<'a> BitStream<'a> {
    pub open spec fn model(&self) -> BitModel {
        BitModel { pos: self.pos as int, buf: self.buf, count: self.count, last_dc: self.last_dc }
    }

    pub open spec fn wf(&self) -> bool {
        &&& self.count < 8
        &&& self.pos <= self.data@.len()
    }

    /// A reader at `pos` with no bits buffered and all DC predictions 0.
    pub fn new(data: &'a [u8], pos: usize) -> (bits: BitStream<'a>)
        requires
            pos <= data@.len(),
        ensures
            bits.wf(),
            bits.data == data,
            bits.model() == (BitModel { pos: pos as int, buf: 0, count: 0, last_dc: [0i64, 0i64, 0i64] }),
    {
        BitStream { data, pos, buf: 0, count: 0, last_dc: [0, 0, 0] }
    }

    pub fn get_a_bit(&mut self) -> (r: Result<u8, JpegError>)
        requires
            old(self).wf(),
        ensures
            final(self).wf(),
            final(self).data == old(self).data,
            final(self).last_dc == old(self).last_dc,
            r matches Ok(b) ==> b <= 1,
            agrees(r, final(self).model(), spec_get_bit(old(self).data@, old(self).model())),
    {
        if self.count == 0 {
            if self.pos >= self.data.len() {
                return Err(JpegError::UnexpectedEof);
            }
            self.buf = self.data[self.pos];
            self.pos = self.pos + 1;
            if self.buf == 0xFF {
                if self.pos >= self.data.len() {
                    return Err(JpegError::UnexpectedEof);
                }
                let check = self.data[self.pos];
                self.pos = self.pos + 1;
                if check != 0x00 {
                    return Err(JpegError::BadByteStuffing);
                }
            }
        }
        proof {
            lemma_bit_test(self.buf, self.count);
        }
        let ret: u8 = if (self.buf & (1u8 << (7 - self.count))) > 0 { 1 } else { 0 };
        self.count = if self.count == 7 { 0 } else { self.count + 1 };
        Ok(ret)
    }

    /// Reads bits until they form a code that `map` holds, and gives its
    /// symbol.
    #[allow(non_snake_case)]
    pub fn matchHuffman(&mut self, map: &HashMap<u32, u8>) -> (r: Result<u8, JpegError>)
        requires
            old(self).wf(),
        ensures
            final(self).wf(),
            final(self).data == old(self).data,
            final(self).last_dc == old(self).last_dc,
            agrees(r, final(self).model(), spec_match_huffman(old(self).data@, old(self).model(), map@, 0, 1)),
    {
        let mut code: u16 = 0;
        let mut len: u8 = 1;
        proof {
            reveal_with_fuel(two_pow, 1);
        }
        loop
            invariant
                self.wf(),
                self.data == old(self).data,
                self.last_dc == old(self).last_dc,
                1 <= len <= 16,
                code < two_pow((len - 1) as nat),
                spec_match_huffman(self.data@, self.model(), map@, code as int, len as int)
                    == spec_match_huffman(old(self).data@, old(self).model(), map@, 0, 1),
            decreases 17 - len,
        {
            proof {
                lemma_two_pow_le_16((len - 1) as nat);
            }
            let bit = match self.get_a_bit() { Ok(b) => b, Err(e) => return Err(e) };
            code = code * 2 + bit as u16;
            let key: u32 = (len as u32) * 65536 + code as u32;
            match map.get(&key) {
                Some(symbol) => return Ok(*symbol),
                None => {},
            }
            if len == 16 {
                return Err(JpegError::HuffmanDecodeFailed);
            }
            len = len + 1;
            proof {
                assert(two_pow((len - 1) as nat) == 2 * two_pow((len - 2) as nat));
            }
        }
    }

    /// Reads a value of `code_len` bits.
    #[verifier::loop_isolation(false)]
    pub fn read_value(&mut self, code_len: u8) -> (r: Result<i32, JpegError>)
        requires
            old(self).wf(),
        ensures
            final(self).wf(),
            final(self).data == old(self).data,
            final(self).last_dc == old(self).last_dc,
            agrees(r, final(self).model(), spec_read_value(old(self).data@, old(self).model(), code_len)),
    {
        let first = match self.get_a_bit() { Ok(b) => b, Err(e) => return Err(e) };
        let ghost s1 = self.model();
        let n: u8 = if code_len >= 1 { code_len - 1 } else { 0 };
        let mut ret: u16 = 1;
        let mut i: u8 = 0;
        while i < n
            invariant
                self.wf(),
                self.data == old(self).data,
                self.last_dc == old(self).last_dc,
                i <= n,
                spec_value_bits(self.data@, self.model(), first, ret as int, (n - i) as nat)
                    == spec_value_bits(self.data@, s1, first, 1, n as nat),
            decreases n - i,
        {
            let b = match self.get_a_bit() { Ok(b) => b, Err(e) => return Err(e) };
            let inc: u32 = if first == b { 1 } else { 0 };
            ret = (((ret as u32) * 2 + inc) % 65536) as u16;
            i = i + 1;
        }
        let v: i32 = if ret >= 32768 { ret as i32 - 65536 } else { ret as i32 };
        if first == 1 {
            Ok(v)
        } else if v == -32768 {
            Err(JpegError::ValueOverflow)
        } else {
            Ok(-v)
        }
    }

    /// The DC value of the next block of component `id`.
    pub fn read_dc(&mut self, map: &HashMap<u32, u8>, id: usize) -> (r: Result<i64, JpegError>)
        requires
            old(self).wf(),
            id < 3,
        ensures
            final(self).wf(),
            final(self).data == old(self).data,
            agrees(r, final(self).model(), spec_read_dc(old(self).data@, old(self).model(), map@, id as int)),
    {
        let code_len = match self.matchHuffman(map) { Ok(c) => c, Err(e) => return Err(e) };
        if code_len == 0 {
            return Ok(self.last_dc[id]);
        }
        let v = match self.read_value(code_len) { Ok(v) => v, Err(e) => return Err(e) };
        let sum: i128 = self.last_dc[id] as i128 + v as i128;
        if sum < i64::MIN as i128 || sum > i64::MAX as i128 {
            return Err(JpegError::ValueOverflow);
        }
        self.last_dc[id] = sum as i64;
        Ok(sum as i64)
    }

    pub fn read_ac(&mut self, map: &HashMap<u32, u8>) -> (r: Result<AcValue, JpegError>)
        requires
            old(self).wf(),
        ensures
            final(self).wf(),
            final(self).data == old(self).data,
            final(self).last_dc == old(self).last_dc,
            agrees(r, final(self).model(), spec_read_ac(old(self).data@, old(self).model(), map@)),
    {
        let code_len = match self.matchHuffman(map) { Ok(c) => c, Err(e) => return Err(e) };
        if code_len == 0x00 {
            Ok(AcValue::AllZeros)
        } else if code_len == 0xF0 {
            Ok(AcValue::SixteenZeros)
        } else {
            let value = match self.read_value(code_len & 0x0F) { Ok(v) => v, Err(e) => return Err(e) };
            Ok(AcValue::Normal { zeros: (code_len >> 4) as usize, value })
        }
    }
}


/// Stores `v` as the `k`-th coefficient of `block`.
fn set_coefficient(block: &mut Block, k: usize, v: i64)
    requires
        k < 64,
    ensures
        block_view(*final(block)) == block_view(*old(block)).update(k as int, v),
{
    block[k / 8][k % 8] = v;
    assert(block_view(*block) =~= block_view(*old(block)).update(k as int, v)) by {
        assert forall|j: int| 0 <= j < 64 implies #[trigger] block_view(*block)[j]
            == block_view(*old(block)).update(k as int, v)[j] by {
            if j != k {
                assert(j / 8 != k / 8 || j % 8 != k % 8);
            }
        }
    }
}

/// Reads one block of component `id`: its DC value, then its AC
/// coefficients until the 64 are there.
#[verifier::loop_isolation(false)]
fn read_block(bits: &mut BitStream, dc_table: &HashMap<u32, u8>, ac_table: &HashMap<u32, u8>, id: usize)
    -> (r: Result<Block, JpegError>)
    requires
        old(bits).wf(),
        id < 3,
    ensures
        final(bits).wf(),
        final(bits).data == old(bits).data,
        match r {
            Ok(b) => spec_read_block(old(bits).data@, old(bits).model(), dc_table@, ac_table@, id as int)
                == Ok::<(Seq<i64>, BitModel), JpegError>((block_view(b), final(bits).model())),
            Err(e) => spec_read_block(old(bits).data@, old(bits).model(), dc_table@, ac_table@, id as int)
                == Err::<(Seq<i64>, BitModel), JpegError>(e),
        },
{
    let mut block: Block = [[0; 8]; 8];
    let dc = match bits.read_dc(dc_table, id) { Ok(v) => v, Err(e) => return Err(e) };
    assert(block_view(block) =~= Seq::new(64, |k: int| 0i64));
    set_coefficient(&mut block, 0, dc);
    let ghost s1 = bits.model();
    let mut count: usize = 1;
    while count < 64
        invariant
            bits.wf(),
            bits.data == old(bits).data,
            1 <= count <= 64,
            block_view(block).len() == 64,
            spec_ac_coefficients(bits.data@, bits.model(), ac_table@, block_view(block), count as int)
                == spec_ac_coefficients(bits.data@, s1, ac_table@, Seq::new(64, |k: int| 0i64).update(0, dc), 1),
        decreases 64 - count,
    {
        let ac_value = match bits.read_ac(ac_table) { Ok(v) => v, Err(e) => return Err(e) };
        let ghost b0 = block_view(block);
        let ghost c0 = count;
        match ac_value {
            AcValue::SixteenZeros => {
                let mut j: usize = 0;
                while j < 16
                    invariant
                        j <= 16,
                        count == c0 + j,
                        count <= 64,
                        block_view(block) == zero_range(b0, c0 as int, count as int),
                    decreases 16 - j,
                {
                    if count >= 64 {
                        return Err(JpegError::CoefficientOverflow);
                    }
                    set_coefficient(&mut block, count, 0);
                    assert(block_view(block) =~= zero_range(b0, c0 as int, (count + 1) as int));
                    count = count + 1;
                    j = j + 1;
                }
            },
            AcValue::AllZeros => {
                while count < 64
                    invariant
                        c0 <= count <= 64,
                        block_view(block) == zero_range(b0, c0 as int, count as int),
                    decreases 64 - count,
                {
                    set_coefficient(&mut block, count, 0);
                    assert(block_view(block) =~= zero_range(b0, c0 as int, (count + 1) as int));
                    count = count + 1;
                }
                assert(spec_ac_coefficients(bits.data@, bits.model(), ac_table@, block_view(block), count as int)
                    == Ok::<(Seq<i64>, BitModel), JpegError>((block_view(block), bits.model())));
            },
            AcValue::Normal { zeros, value } => {
                let mut j: usize = 0;
                while j < zeros
                    invariant
                        j <= zeros,
                        count == c0 + j,
                        count <= 64,
                        block_view(block) == zero_range(b0, c0 as int, count as int),
                    decreases zeros - j,
                {
                    if count >= 64 {
                        return Err(JpegError::CoefficientOverflow);
                    }
                    set_coefficient(&mut block, count, 0);
                    assert(block_view(block) =~= zero_range(b0, c0 as int, (count + 1) as int));
                    count = count + 1;
                    j = j + 1;
                }
                if count >= 64 {
                    return Err(JpegError::CoefficientOverflow);
                }
                set_coefficient(&mut block, count, value as i64);
                count = count + 1;
            },
        }
    }
    Ok(block)
}

/// Two metadata that give each component the same sampling factors, the
/// same table ids, and the same DC and AC tables under those ids.
pub open spec fn same_selected_tables(m1: MetaModel, m2: MetaModel) -> bool {
    forall|c: int| 0 <= c < 3 ==> {
        &&& #[trigger] m1.table_mapping[c] == m2.table_mapping[c]
        &&& m1.sof_info.component_infos[c] == m2.sof_info.component_infos[c]
        &&& (m1.table_mapping[c].0 < 2 ==> m1.dc_tables[m1.table_mapping[c].0 as int] == m2.dc_tables[m1.table_mapping[c].0 as int])
        &&& (m1.table_mapping[c].1 < 2 ==> m1.ac_tables[m1.table_mapping[c].1 as int] == m2.ac_tables[m1.table_mapping[c].1 as int])
    }
}

proof fn lemma_mcu_components_selected_tables(data: Seq<u8>, s: BitModel, m1: MetaModel, m2: MetaModel, id: int,
    acc: Seq<Seq<Seq<Seq<i64>>>>)
    requires
        same_selected_tables(m1, m2),
    ensures
        spec_read_mcu_components(data, s, m1, id, acc) == spec_read_mcu_components(data, s, m2, id, acc),
    decreases 3 - id,
{
    if 0 <= id < 3 {
        assert(m1.table_mapping[id] == m2.table_mapping[id]);
        let info = m1.sof_info.component_infos[id];
        let (dc_id, ac_id) = m1.table_mapping[id];
        if dc_id < 2 && ac_id < 2 {
            if let Ok((c, s1)) = spec_read_component(data, s, m1.dc_tables[dc_id as int], m1.ac_tables[ac_id as int], id, 0,
                info.vertical_sampling as int, info.horizontal_sampling as int, Seq::empty()) {
                lemma_mcu_components_selected_tables(data, s1, m1, m2, id + 1, acc.push(c));
            }
        }
    }
}

/// An MCU is decoded with, for each component, the DC and AC tables that
/// the table mapping names for it and its own sampling factors: metadata
/// that agree on those decode every MCU alike.
pub proof fn lemma_mcu_uses_selected_tables(data: Seq<u8>, s: BitModel, m1: MetaModel, m2: MetaModel)
    requires
        same_selected_tables(m1, m2),
    ensures
        spec_read_mcu(data, s, m1) == spec_read_mcu(data, s, m2),
{
    lemma_mcu_components_selected_tables(data, s, m1, m2, 0, Seq::empty());
}

/// The blocks of a component as rows of coefficient lists.
pub open spec fn component_view(c: Vec<Vec<Block>>) -> Seq<Seq<Seq<i64>>> {
    c@.map_values(|row: Vec<Block>| row@.map_values(|b: Block| block_view(b)))
}

/// An MCU as, for each of Y, Cb, Cr, its rows of coefficient lists.
pub open spec fn mcu_view(m: MCU) -> Seq<Seq<Seq<Seq<i64>>>> {
    m@.map_values(|c: Vec<Vec<Block>>| component_view(c))
}

/// The blocks `w` up to `width` of a row of component `id`.
pub open spec fn spec_read_row(data: Seq<u8>, s: BitModel, dc: Map<u32, u8>, ac: Map<u32, u8>, id: int,
    w: int, width: int, acc: Seq<Seq<i64>>) -> Result<(Seq<Seq<i64>>, BitModel), JpegError>
    decreases width - w,
{
    if w >= width {
        Ok((acc, s))
    } else {
        match spec_read_block(data, s, dc, ac, id) {
            Err(e) => Err(e),
            Ok((b, s1)) => spec_read_row(data, s1, dc, ac, id, w + 1, width, acc.push(b)),
        }
    }
}

/// The rows `h` up to `height` of component `id`, each of `width` blocks.
pub open spec fn spec_read_component(data: Seq<u8>, s: BitModel, dc: Map<u32, u8>, ac: Map<u32, u8>, id: int,
    h: int, height: int, width: int, acc: Seq<Seq<Seq<i64>>>) -> Result<(Seq<Seq<Seq<i64>>>, BitModel), JpegError>
    decreases height - h,
{
    if h >= height {
        Ok((acc, s))
    } else {
        match spec_read_row(data, s, dc, ac, id, 0, width, Seq::empty()) {
            Err(e) => Err(e),
            Ok((row, s1)) => spec_read_component(data, s1, dc, ac, id, h + 1, height, width, acc.push(row)),
        }
    }
}

/// The components `id` up to 2 of an MCU: each has its vertical sampling
/// factor of rows of its horizontal sampling factor of blocks, decoded
/// with the DC and AC tables that the scan header assigns to it.
pub open spec fn spec_read_mcu_components(data: Seq<u8>, s: BitModel, m: MetaModel, id: int,
    acc: Seq<Seq<Seq<Seq<i64>>>>) -> Result<(Seq<Seq<Seq<Seq<i64>>>>, BitModel), JpegError>
    decreases 3 - id,
{
    if id >= 3 || id < 0 {
        Ok((acc, s))
    } else {
        let info = m.sof_info.component_infos[id];
        let (dc_id, ac_id) = m.table_mapping[id];
        if dc_id >= 2 || ac_id >= 2 {
            Err(JpegError::TableIdOutOfRange)
        } else {
            match spec_read_component(data, s, m.dc_tables[dc_id as int], m.ac_tables[ac_id as int], id, 0,
                info.vertical_sampling as int, info.horizontal_sampling as int, Seq::empty()) {
                Err(e) => Err(e),
                Ok((c, s1)) => spec_read_mcu_components(data, s1, m, id + 1, acc.push(c)),
            }
        }
    }
}

pub open spec fn spec_read_mcu(data: Seq<u8>, s: BitModel, m: MetaModel) -> Result<(Seq<Seq<Seq<Seq<i64>>>>, BitModel), JpegError> {
    spec_read_mcu_components(data, s, m, 0, Seq::empty())
}

/// Reads one MCU.
#[verifier::loop_isolation(false)]
pub fn read_mcu(bits: &mut BitStream, jpeg_meta_data: &JPEGMetaData) -> (r: Result<MCU, JpegError>)
    requires
        old(bits).wf(),
    ensures
        final(bits).wf(),
        final(bits).data == old(bits).data,
        match r {
            Ok(mcu) => spec_read_mcu(old(bits).data@, old(bits).model(), jpeg_meta_data@)
                == Ok::<(Seq<Seq<Seq<Seq<i64>>>>, BitModel), JpegError>((mcu_view(mcu), final(bits).model())),
            Err(e) => spec_read_mcu(old(bits).data@, old(bits).model(), jpeg_meta_data@)
                == Err::<(Seq<Seq<Seq<Seq<i64>>>>, BitModel), JpegError>(e),
        },
{
    let ghost m = jpeg_meta_data@;
    let mut mcu: MCU = [Vec::new(), Vec::new(), Vec::new()];
    let mut id: usize = 0;
    assert(mcu_view(mcu).take(0) =~= Seq::<Seq<Seq<Seq<i64>>>>::empty());
    while id < 3
        invariant
            bits.wf(),
            bits.data == old(bits).data,
            id <= 3,
            spec_read_mcu_components(bits.data@, bits.model(), m, id as int, mcu_view(mcu).take(id as int))
                == spec_read_mcu(old(bits).data@, old(bits).model(), m),
        decreases 3 - id,
    {
        let height = jpeg_meta_data.sof_info.component_infos[id].vertical_sampling as usize;
        let width = jpeg_meta_data.sof_info.component_infos[id].horizontal_sampling as usize;
        let (dc_id, ac_id) = jpeg_meta_data.table_mapping[id];
        if dc_id >= 2 || ac_id >= 2 {
            return Err(JpegError::TableIdOutOfRange);
        }
        let dc_table = &jpeg_meta_data.huffman_tables.dc_tables[dc_id];
        let ac_table = &jpeg_meta_data.huffman_tables.ac_tables[ac_id];
        assert(dc_table@ == m.dc_tables[dc_id as int]);
        assert(ac_table@ == m.ac_tables[ac_id as int]);
        let ghost s_comp = bits.model();
        let mut blocks: Vec<Vec<Block>> = Vec::new();
        let mut h: usize = 0;
        assert(component_view(blocks) =~= Seq::empty());
        while h < height
            invariant
                bits.wf(),
                bits.data == old(bits).data,
                h <= height,
                spec_read_component(bits.data@, bits.model(), dc_table@, ac_table@, id as int, h as int,
                    height as int, width as int, component_view(blocks))
                    == spec_read_component(bits.data@, s_comp, dc_table@, ac_table@, id as int, 0,
                    height as int, width as int, Seq::empty()),
            decreases height - h,
        {
            let ghost s_row = bits.model();
            let mut row: Vec<Block> = Vec::new();
            let mut w: usize = 0;
            assert(row@.map_values(|b: Block| block_view(b)) =~= Seq::empty());
            while w < width
                invariant
                    bits.wf(),
                    bits.data == old(bits).data,
                    w <= width,
                    spec_read_row(bits.data@, bits.model(), dc_table@, ac_table@, id as int, w as int, width as int,
                        row@.map_values(|b: Block| block_view(b)))
                        == spec_read_row(bits.data@, s_row, dc_table@, ac_table@, id as int, 0, width as int, Seq::empty()),
                decreases width - w,
            {
                let block = match read_block(bits, dc_table, ac_table, id) { Ok(b) => b, Err(e) => return Err(e) };
                let ghost old_row = row@;
                row.push(block);
                assert(row@.map_values(|b: Block| block_view(b))
                    =~= old_row.map_values(|b: Block| block_view(b)).push(block_view(block)));
                w = w + 1;
            }
            let ghost old_blocks = blocks@;
            blocks.push(row);
            assert(component_view(blocks) =~= old_blocks.map_values(|row: Vec<Block>| row@.map_values(|b: Block| block_view(b))).push(
                row@.map_values(|b: Block| block_view(b))));
            h = h + 1;
        }
        let ghost old_mcu = mcu;
        mcu[id] = blocks;
        assert(mcu_view(mcu).take(id + 1) =~= mcu_view(old_mcu).take(id as int).push(component_view(blocks)));
        id = id + 1;
    }
    assert(mcu_view(mcu).take(3) =~= mcu_view(mcu));
    Ok(mcu)
}


/// The coefficients of an MCU: for each of Y, Cb, Cr, rows of blocks of 64.
pub type McuModel = Seq<Seq<Seq<Seq<i64>>>>;

/// The number of MCUs across and down a frame: its width and height
/// divided by those of an MCU (8 times the largest sampling factors),
/// rounded up. A frame of width or height 0, or with a sampling factor of
/// 0, has no MCU grid.
pub open spec fn spec_mcu_counts(sof: SofInfo) -> Result<(int, int), JpegError> {
    if sof.width == 0 || sof.max_horizontal_sampling == 0 || sof.height == 0 || sof.max_vertical_sampling == 0 {
        Err(JpegError::InvalidDimensions)
    } else {
        Ok((
            (sof.width - 1) / (8 * sof.max_horizontal_sampling) + 1,
            (sof.height - 1) / (8 * sof.max_vertical_sampling) + 1,
        ))
    }
}

/// The MCUs `j` up to `w` of a row.
pub open spec fn spec_mcu_row(data: Seq<u8>, s: BitModel, m: MetaModel, j: int, w: int, acc: Seq<McuModel>)
    -> Result<(Seq<McuModel>, BitModel), JpegError>
    decreases w - j,
{
    if j >= w {
        Ok((acc, s))
    } else {
        match spec_read_mcu(data, s, m) {
            Err(e) => Err(e),
            Ok((mcu, s1)) => spec_mcu_row(data, s1, m, j + 1, w, acc.push(mcu)),
        }
    }
}

/// The rows `i` up to `h` of MCUs, each of `w` MCUs.
pub open spec fn spec_mcu_rows(data: Seq<u8>, s: BitModel, m: MetaModel, i: int, h: int, w: int, acc: Seq<Seq<McuModel>>)
    -> Result<(Seq<Seq<McuModel>>, BitModel), JpegError>
    decreases h - i,
{
    if i >= h {
        Ok((acc, s))
    } else {
        match spec_mcu_row(data, s, m, 0, w, Seq::empty()) {
            Err(e) => Err(e),
            Ok((row, s1)) => spec_mcu_rows(data, s1, m, i + 1, h, w, acc.push(row)),
        }
    }
}

/// The bit reader at the start of a scan at `p`.
pub open spec fn scan_start(p: int) -> BitModel {
    BitModel { pos: p, buf: 0, count: 0, last_dc: [0i64, 0i64, 0i64] }
}

/// The scan data that starts at `p`: the MCU grid of the frame in rows,
/// read with one bit reader, and the position of the byte after the last
/// byte that the reader took.
pub open spec fn spec_read_mcus(data: Seq<u8>, p: int, m: MetaModel) -> Result<(Seq<Seq<McuModel>>, int), JpegError> {
    match spec_mcu_counts(m.sof_info) {
        Err(e) => Err(e),
        Ok((w, h)) => match spec_mcu_rows(data, scan_start(p), m, 0, h, w, Seq::empty()) {
            Err(e) => Err(e),
            Ok((rows, s)) => Ok((rows, s.pos)),
        },
    }
}

/// The MCUs of a scan, as rows of MCU coefficients.
pub open spec fn mcus_view(v: Seq<Vec<MCU>>) -> Seq<Seq<McuModel>> {
    v.map_values(|row: Vec<MCU>| row@.map_values(|m: MCU| mcu_view(m)))
}

/// Reads the scan data that starts at `pos`.
#[verifier::loop_isolation(false)]
pub fn read_mcus(data: &[u8], pos: usize, jpeg_meta_data: &JPEGMetaData) -> (r: Result<(Vec<Vec<MCU>>, usize), JpegError>)
    requires
        pos <= data@.len(),
    ensures
        match r {
            Ok((mcus, q)) => q <= data@.len() && spec_read_mcus(data@, pos as int, jpeg_meta_data@)
                == Ok::<(Seq<Seq<McuModel>>, int), JpegError>((mcus_view(mcus@), q as int)),
            Err(e) => spec_read_mcus(data@, pos as int, jpeg_meta_data@) == Err::<(Seq<Seq<McuModel>>, int), JpegError>(e),
        },
{
    let ghost m = jpeg_meta_data@;
    let sof_info = &jpeg_meta_data.sof_info;
    let image_width = sof_info.width;
    let image_height = sof_info.height;
    if image_width == 0 || sof_info.max_horizontal_sampling == 0 || image_height == 0 || sof_info.max_vertical_sampling == 0 {
        return Err(JpegError::InvalidDimensions);
    }
    let w: u16 = (image_width - 1) / (8 * sof_info.max_horizontal_sampling as u16) + 1;
    let h: u16 = (image_height - 1) / (8 * sof_info.max_vertical_sampling as u16) + 1;
    let mut bits = BitStream::new(data, pos);
    let mut mcus: Vec<Vec<MCU>> = Vec::new();
    assert(mcus_view(mcus@) =~= Seq::empty());
    let mut i: u16 = 0;
    while i < h
        invariant
            bits.wf(),
            bits.data == data,
            i <= h,
            spec_mcu_rows(data@, bits.model(), m, i as int, h as int, w as int, mcus_view(mcus@))
                == spec_mcu_rows(data@, scan_start(pos as int), m, 0, h as int, w as int, Seq::empty()),
        decreases h - i,
    {
        let ghost s_row = bits.model();
        let mut row: Vec<MCU> = Vec::new();
        assert(row@.map_values(|m: MCU| mcu_view(m)) =~= Seq::empty());
        let mut j: u16 = 0;
        while j < w
            invariant
                bits.wf(),
                bits.data == data,
                j <= w,
                spec_mcu_row(data@, bits.model(), m, j as int, w as int, row@.map_values(|m: MCU| mcu_view(m)))
                    == spec_mcu_row(data@, s_row, m, 0, w as int, Seq::empty()),
            decreases w - j,
        {
            let mcu = match read_mcu(&mut bits, jpeg_meta_data) { Ok(v) => v, Err(e) => return Err(e) };
            let ghost old_row = row@;
            row.push(mcu);
            assert(row@.map_values(|m: MCU| mcu_view(m)) =~= old_row.map_values(|m: MCU| mcu_view(m)).push(mcu_view(mcu)));
            j = j + 1;
        }
        let ghost old_mcus = mcus@;
        mcus.push(row);
        assert(mcus_view(mcus@) =~= mcus_view(old_mcus).push(row@.map_values(|m: MCU| mcu_view(m))));
        i = i + 1;
    }
    Ok((mcus, bits.pos))
}


pub proof fn lemma_get_bit_advance(data: Seq<u8>, s: BitModel)
    requires
        0 <= s.pos <= data.len(),
    ensures
        spec_get_bit(data, s) matches Ok((_, s1)) ==> s.pos <= s1.pos <= data.len(),
{
}

pub proof fn lemma_match_huffman_advance(data: Seq<u8>, s: BitModel, map: Map<u32, u8>, code: int, len: int)
    requires
        0 <= s.pos <= data.len(),
    ensures
        spec_match_huffman(data, s, map, code, len) matches Ok((_, s1)) ==> s.pos <= s1.pos <= data.len(),
    decreases 17 - len,
{
    if 1 <= len <= 16 {
        lemma_get_bit_advance(data, s);
        if let Ok((b, s1)) = spec_get_bit(data, s) {
            lemma_match_huffman_advance(data, s1, map, code * 2 + b, len + 1);
        }
    }
}

pub proof fn lemma_value_bits_advance(data: Seq<u8>, s: BitModel, first: u8, acc: int, n: nat)
    requires
        0 <= s.pos <= data.len(),
    ensures
        spec_value_bits(data, s, first, acc, n) matches Ok((_, s1)) ==> s.pos <= s1.pos <= data.len(),
    decreases n,
{
    if n > 0 {
        lemma_get_bit_advance(data, s);
        if let Ok((b, s1)) = spec_get_bit(data, s) {
            lemma_value_bits_advance(data, s1, first, (acc * 2 + if b == first { 1int } else { 0int }) % 65536, (n - 1) as nat);
        }
    }
}

pub proof fn lemma_read_value_advance(data: Seq<u8>, s: BitModel, code_len: u8)
    requires
        0 <= s.pos <= data.len(),
    ensures
        spec_read_value(data, s, code_len) matches Ok((_, s1)) ==> s.pos <= s1.pos <= data.len(),
{
    lemma_get_bit_advance(data, s);
    if let Ok((first, s1)) = spec_get_bit(data, s) {
        lemma_value_bits_advance(data, s1, first, 1, if code_len >= 1 { (code_len - 1) as nat } else { 0 });
    }
}

pub proof fn lemma_read_block_advance(data: Seq<u8>, s: BitModel, dc: Map<u32, u8>, ac: Map<u32, u8>, id: int)
    requires
        0 <= s.pos <= data.len(),
    ensures
        spec_read_block(data, s, dc, ac, id) matches Ok((_, s1)) ==> s.pos <= s1.pos <= data.len(),
{
    lemma_match_huffman_advance(data, s, dc, 0, 1);
    if let Ok((code_len, s1)) = spec_match_huffman(data, s, dc, 0, 1) {
        lemma_read_value_advance(data, s1, code_len);
    }
    if let Ok((v, s1)) = spec_read_dc(data, s, dc, id) {
        lemma_ac_coefficients_advance(data, s1, ac, Seq::new(64, |k: int| 0i64).update(0, v), 1);
    }
}

pub proof fn lemma_ac_coefficients_advance(data: Seq<u8>, s: BitModel, map: Map<u32, u8>, blk: Seq<i64>, count: int)
    requires
        0 <= s.pos <= data.len(),
    ensures
        spec_ac_coefficients(data, s, map, blk, count) matches Ok((_, s1)) ==> s.pos <= s1.pos <= data.len(),
    decreases 64 - count,
{
    if count < 64 {
        lemma_match_huffman_advance(data, s, map, 0, 1);
        if let Ok((x, s1)) = spec_match_huffman(data, s, map, 0, 1) {
            lemma_read_value_advance(data, s1, x & 0x0F);
        }
        if let Ok((ac, s1)) = spec_read_ac(data, s, map) {
            match ac {
                AcValue::AllZeros => {},
                AcValue::SixteenZeros => {
                    if count + 16 <= 64 {
                        lemma_ac_coefficients_advance(data, s1, map, zero_range(blk, count, count + 16), count + 16);
                    }
                },
                AcValue::Normal { zeros, value } => {
                    if count + zeros < 64 {
                        lemma_ac_coefficients_advance(data, s1, map,
                            zero_range(blk, count, count + zeros).update(count + zeros, value as i64), count + zeros + 1);
                    }
                },
            }
        }
    }
}

pub proof fn lemma_read_row_advance(data: Seq<u8>, s: BitModel, dc: Map<u32, u8>, ac: Map<u32, u8>, id: int,
    w: int, width: int, acc: Seq<Seq<i64>>)
    requires
        0 <= s.pos <= data.len(),
    ensures
        spec_read_row(data, s, dc, ac, id, w, width, acc) matches Ok((_, s1)) ==> s.pos <= s1.pos <= data.len(),
    decreases width - w,
{
    if w < width {
        lemma_read_block_advance(data, s, dc, ac, id);
        if let Ok((b, s1)) = spec_read_block(data, s, dc, ac, id) {
            lemma_read_row_advance(data, s1, dc, ac, id, w + 1, width, acc.push(b));
        }
    }
}

pub proof fn lemma_read_component_advance(data: Seq<u8>, s: BitModel, dc: Map<u32, u8>, ac: Map<u32, u8>, id: int,
    h: int, height: int, width: int, acc: Seq<Seq<Seq<i64>>>)
    requires
        0 <= s.pos <= data.len(),
    ensures
        spec_read_component(data, s, dc, ac, id, h, height, width, acc) matches Ok((_, s1)) ==> s.pos <= s1.pos <= data.len(),
    decreases height - h,
{
    if h < height {
        lemma_read_row_advance(data, s, dc, ac, id, 0, width, Seq::empty());
        if let Ok((row, s1)) = spec_read_row(data, s, dc, ac, id, 0, width, Seq::empty()) {
            lemma_read_component_advance(data, s1, dc, ac, id, h + 1, height, width, acc.push(row));
        }
    }
}

pub proof fn lemma_read_mcu_advance(data: Seq<u8>, s: BitModel, m: MetaModel, id: int, acc: Seq<Seq<Seq<Seq<i64>>>>)
    requires
        0 <= s.pos <= data.len(),
    ensures
        spec_read_mcu_components(data, s, m, id, acc) matches Ok((_, s1)) ==> s.pos <= s1.pos <= data.len(),
    decreases 3 - id,
{
    if 0 <= id < 3 {
        let info = m.sof_info.component_infos[id];
        let (dc_id, ac_id) = m.table_mapping[id];
        if dc_id < 2 && ac_id < 2 {
            lemma_read_component_advance(data, s, m.dc_tables[dc_id as int], m.ac_tables[ac_id as int], id, 0,
                info.vertical_sampling as int, info.horizontal_sampling as int, Seq::empty());
            if let Ok((c, s1)) = spec_read_component(data, s, m.dc_tables[dc_id as int], m.ac_tables[ac_id as int], id, 0,
                info.vertical_sampling as int, info.horizontal_sampling as int, Seq::empty()) {
                lemma_read_mcu_advance(data, s1, m, id + 1, acc.push(c));
            }
        }
    }
}

pub proof fn lemma_mcu_row_advance(data: Seq<u8>, s: BitModel, m: MetaModel, j: int, w: int, acc: Seq<McuModel>)
    requires
        0 <= s.pos <= data.len(),
    ensures
        spec_mcu_row(data, s, m, j, w, acc) matches Ok((_, s1)) ==> s.pos <= s1.pos <= data.len(),
    decreases w - j,
{
    if j < w {
        lemma_read_mcu_advance(data, s, m, 0, Seq::empty());
        if let Ok((mcu, s1)) = spec_read_mcu(data, s, m) {
            lemma_mcu_row_advance(data, s1, m, j + 1, w, acc.push(mcu));
        }
    }
}

pub proof fn lemma_mcu_rows_advance(data: Seq<u8>, s: BitModel, m: MetaModel, i: int, h: int, w: int, acc: Seq<Seq<McuModel>>)
    requires
        0 <= s.pos <= data.len(),
    ensures
        spec_mcu_rows(data, s, m, i, h, w, acc) matches Ok((_, s1)) ==> s.pos <= s1.pos <= data.len(),
    decreases h - i,
{
    if i < h {
        lemma_mcu_row_advance(data, s, m, 0, w, Seq::empty());
        if let Ok((row, s1)) = spec_mcu_row(data, s, m, 0, w, Seq::empty()) {
            lemma_mcu_rows_advance(data, s1, m, i + 1, h, w, acc.push(row));
        }
    }
}

/// Reading the scan data never moves backwards.
pub proof fn lemma_read_mcus_advance(data: Seq<u8>, p: int, m: MetaModel)
    requires
        0 <= p <= data.len(),
    ensures
        spec_read_mcus(data, p, m) matches Ok((_, q)) ==> p <= q <= data.len(),
{
    if let Ok((w, h)) = spec_mcu_counts(m.sof_info) {
        lemma_mcu_rows_advance(data, scan_start(p), m, 0, h, w, Seq::empty());
    }
}



/// The bit reader reads no byte past the one it ends on: a bit read from
/// `data` is read the same from `data` followed by any bytes.
pub proof fn lemma_get_bit_extend(data: Seq<u8>, t: Seq<u8>, s: BitModel)
    ensures
        spec_get_bit(data, s) is Ok ==> spec_get_bit(data + t, s) == spec_get_bit(data, s),
{
    if s.count == 0 && 0 <= s.pos < data.len() {
        assert((data + t)[s.pos] == data[s.pos]);
        if data[s.pos] == 0xFF && s.pos + 1 < data.len() {
            assert((data + t)[s.pos + 1] == data[s.pos + 1]);
        }
    }
}

pub proof fn lemma_match_huffman_extend(data: Seq<u8>, t: Seq<u8>, s: BitModel, map: Map<u32, u8>, code: int, len: int)
    ensures
        spec_match_huffman(data, s, map, code, len) is Ok
            ==> spec_match_huffman(data + t, s, map, code, len) == spec_match_huffman(data, s, map, code, len),
    decreases 17 - len,
{
    if 1 <= len <= 16 {
        lemma_get_bit_extend(data, t, s);
        if let Ok((b, s1)) = spec_get_bit(data, s) {
            lemma_match_huffman_extend(data, t, s1, map, code * 2 + b, len + 1);
        }
    }
}

pub proof fn lemma_value_bits_extend(data: Seq<u8>, t: Seq<u8>, s: BitModel, first: u8, acc: int, n: nat)
    ensures
        spec_value_bits(data, s, first, acc, n) is Ok
            ==> spec_value_bits(data + t, s, first, acc, n) == spec_value_bits(data, s, first, acc, n),
    decreases n,
{
    if n > 0 {
        lemma_get_bit_extend(data, t, s);
        if let Ok((b, s1)) = spec_get_bit(data, s) {
            lemma_value_bits_extend(data, t, s1, first, (acc * 2 + if b == first { 1int } else { 0int }) % 65536, (n - 1) as nat);
        }
    }
}

pub proof fn lemma_read_value_extend(data: Seq<u8>, t: Seq<u8>, s: BitModel, code_len: u8)
    ensures
        spec_read_value(data, s, code_len) is Ok ==> spec_read_value(data + t, s, code_len) == spec_read_value(data, s, code_len),
{
    lemma_get_bit_extend(data, t, s);
    if let Ok((first, s1)) = spec_get_bit(data, s) {
        lemma_value_bits_extend(data, t, s1, first, 1, if code_len >= 1 { (code_len - 1) as nat } else { 0 });
    }
}

pub proof fn lemma_read_ac_extend(data: Seq<u8>, t: Seq<u8>, s: BitModel, map: Map<u32, u8>)
    ensures
        spec_read_ac(data, s, map) is Ok ==> spec_read_ac(data + t, s, map) == spec_read_ac(data, s, map),
{
    lemma_match_huffman_extend(data, t, s, map, 0, 1);
    if let Ok((x, s1)) = spec_match_huffman(data, s, map, 0, 1) {
        lemma_read_value_extend(data, t, s1, x & 0x0F);
    }
}

pub proof fn lemma_ac_coefficients_extend(data: Seq<u8>, t: Seq<u8>, s: BitModel, map: Map<u32, u8>, blk: Seq<i64>, count: int)
    ensures
        spec_ac_coefficients(data, s, map, blk, count) is Ok
            ==> spec_ac_coefficients(data + t, s, map, blk, count) == spec_ac_coefficients(data, s, map, blk, count),
    decreases 64 - count,
{
    if count < 64 {
        lemma_read_ac_extend(data, t, s, map);
        if let Ok((ac, s1)) = spec_read_ac(data, s, map) {
            match ac {
                AcValue::AllZeros => {},
                AcValue::SixteenZeros => {
                    if count + 16 <= 64 {
                        lemma_ac_coefficients_extend(data, t, s1, map, zero_range(blk, count, count + 16), count + 16);
                    }
                },
                AcValue::Normal { zeros, value } => {
                    if count + zeros < 64 {
                        lemma_ac_coefficients_extend(data, t, s1, map,
                            zero_range(blk, count, count + zeros).update(count + zeros, value as i64), count + zeros + 1);
                    }
                },
            }
        }
    }
}

pub proof fn lemma_read_block_extend(data: Seq<u8>, t: Seq<u8>, s: BitModel, dc: Map<u32, u8>, ac: Map<u32, u8>, id: int)
    ensures
        spec_read_block(data, s, dc, ac, id) is Ok
            ==> spec_read_block(data + t, s, dc, ac, id) == spec_read_block(data, s, dc, ac, id),
{
    lemma_match_huffman_extend(data, t, s, dc, 0, 1);
    if let Ok((code_len, s1)) = spec_match_huffman(data, s, dc, 0, 1) {
        lemma_read_value_extend(data, t, s1, code_len);
    }
    if let Ok((v, s1)) = spec_read_dc(data, s, dc, id) {
        lemma_ac_coefficients_extend(data, t, s1, ac, Seq::new(64, |k: int| 0i64).update(0, v), 1);
    }
}

pub proof fn lemma_read_row_extend(data: Seq<u8>, t: Seq<u8>, s: BitModel, dc: Map<u32, u8>, ac: Map<u32, u8>, id: int,
    w: int, width: int, acc: Seq<Seq<i64>>)
    ensures
        spec_read_row(data, s, dc, ac, id, w, width, acc) is Ok
            ==> spec_read_row(data + t, s, dc, ac, id, w, width, acc) == spec_read_row(data, s, dc, ac, id, w, width, acc),
    decreases width - w,
{
    if w < width {
        lemma_read_block_extend(data, t, s, dc, ac, id);
        if let Ok((b, s1)) = spec_read_block(data, s, dc, ac, id) {
            lemma_read_row_extend(data, t, s1, dc, ac, id, w + 1, width, acc.push(b));
        }
    }
}

pub proof fn lemma_read_component_extend(data: Seq<u8>, t: Seq<u8>, s: BitModel, dc: Map<u32, u8>, ac: Map<u32, u8>, id: int,
    h: int, height: int, width: int, acc: Seq<Seq<Seq<i64>>>)
    ensures
        spec_read_component(data, s, dc, ac, id, h, height, width, acc) is Ok
            ==> spec_read_component(data + t, s, dc, ac, id, h, height, width, acc)
                == spec_read_component(data, s, dc, ac, id, h, height, width, acc),
    decreases height - h,
{
    if h < height {
        lemma_read_row_extend(data, t, s, dc, ac, id, 0, width, Seq::empty());
        if let Ok((row, s1)) = spec_read_row(data, s, dc, ac, id, 0, width, Seq::empty()) {
            lemma_read_component_extend(data, t, s1, dc, ac, id, h + 1, height, width, acc.push(row));
        }
    }
}

pub proof fn lemma_read_mcu_extend(data: Seq<u8>, t: Seq<u8>, s: BitModel, m: MetaModel, id: int, acc: Seq<Seq<Seq<Seq<i64>>>>)
    ensures
        spec_read_mcu_components(data, s, m, id, acc) is Ok
            ==> spec_read_mcu_components(data + t, s, m, id, acc) == spec_read_mcu_components(data, s, m, id, acc),
    decreases 3 - id,
{
    if 0 <= id < 3 {
        let info = m.sof_info.component_infos[id];
        let (dc_id, ac_id) = m.table_mapping[id];
        if dc_id < 2 && ac_id < 2 {
            lemma_read_component_extend(data, t, s, m.dc_tables[dc_id as int], m.ac_tables[ac_id as int], id, 0,
                info.vertical_sampling as int, info.horizontal_sampling as int, Seq::empty());
            if let Ok((c, s1)) = spec_read_component(data, s, m.dc_tables[dc_id as int], m.ac_tables[ac_id as int], id, 0,
                info.vertical_sampling as int, info.horizontal_sampling as int, Seq::empty()) {
                lemma_read_mcu_extend(data, t, s1, m, id + 1, acc.push(c));
            }
        }
    }
}

pub proof fn lemma_mcu_row_extend(data: Seq<u8>, t: Seq<u8>, s: BitModel, m: MetaModel, j: int, w: int, acc: Seq<McuModel>)
    ensures
        spec_mcu_row(data, s, m, j, w, acc) is Ok ==> spec_mcu_row(data + t, s, m, j, w, acc) == spec_mcu_row(data, s, m, j, w, acc),
    decreases w - j,
{
    if j < w {
        lemma_read_mcu_extend(data, t, s, m, 0, Seq::empty());
        if let Ok((mcu, s1)) = spec_read_mcu(data, s, m) {
            lemma_mcu_row_extend(data, t, s1, m, j + 1, w, acc.push(mcu));
        }
    }
}

pub proof fn lemma_mcu_rows_extend(data: Seq<u8>, t: Seq<u8>, s: BitModel, m: MetaModel, i: int, h: int, w: int,
    acc: Seq<Seq<McuModel>>)
    ensures
        spec_mcu_rows(data, s, m, i, h, w, acc) is Ok
            ==> spec_mcu_rows(data + t, s, m, i, h, w, acc) == spec_mcu_rows(data, s, m, i, h, w, acc),
    decreases h - i,
{
    if i < h {
        lemma_mcu_row_extend(data, t, s, m, 0, w, Seq::empty());
        if let Ok((row, s1)) = spec_mcu_row(data, s, m, 0, w, Seq::empty()) {
            lemma_mcu_rows_extend(data, t, s1, m, i + 1, h, w, acc.push(row));
        }
    }
}

/// Scan data that is read whole is read the same whatever follows it.
pub proof fn lemma_read_mcus_extend(data: Seq<u8>, t: Seq<u8>, p: int, m: MetaModel)
    ensures
        spec_read_mcus(data, p, m) is Ok ==> spec_read_mcus(data + t, p, m) == spec_read_mcus(data, p, m),
{
    if let Ok((w, h)) = spec_mcu_counts(m.sof_info) {
        lemma_mcu_rows_extend(data, t, scan_start(p), m, 0, h, w, Seq::empty());
    }
}

/// The first `n` MCUs that one bit reader, started in the state `s`,
/// reads one after another.
pub open spec fn spec_mcu_sequence(data: Seq<u8>, s: BitModel, m: MetaModel, n: nat)
    -> Result<(Seq<McuModel>, BitModel), JpegError>
    decreases n,
{
    if n == 0 {
        Ok((Seq::empty(), s))
    } else {
        match spec_mcu_sequence(data, s, m, (n - 1) as nat) {
            Err(e) => Err(e),
            Ok((ms, s1)) => match spec_read_mcu(data, s1, m) {
                Err(e) => Err(e),
                Ok((mcu, s2)) => Ok((ms.push(mcu), s2)),
            },
        }
    }
}

/// A sequence of `w * h` MCUs laid out in `h` rows of `w`, row by row.
pub open spec fn raster(flat: Seq<McuModel>, w: int, h: int) -> Seq<Seq<McuModel>> {
    Seq::new(h as nat, |i: int| Seq::new(w as nat, |j: int| flat[i * w + j]))
}

proof fn lemma_mcu_sequence_len(data: Seq<u8>, s: BitModel, m: MetaModel, n: nat)
    ensures
        spec_mcu_sequence(data, s, m, n) matches Ok((ms, _)) ==> ms.len() == n,
    decreases n,
{
    if n > 0 {
        lemma_mcu_sequence_len(data, s, m, (n - 1) as nat);
    }
}

/// Reading `a + b` MCUs is reading `a`, then `b` more from where the
/// reader stands.
proof fn lemma_mcu_sequence_split(data: Seq<u8>, s: BitModel, m: MetaModel, a: nat, b: nat)
    ensures
        spec_mcu_sequence(data, s, m, a + b) == match spec_mcu_sequence(data, s, m, a) {
            Err(e) => Err(e),
            Ok((ms1, s1)) => match spec_mcu_sequence(data, s1, m, b) {
                Err(e) => Err(e),
                Ok((ms2, s2)) => Ok::<(Seq<McuModel>, BitModel), JpegError>((ms1 + ms2, s2)),
            },
        },
    decreases b,
{
    if b == 0 {
        if let Ok((ms1, s1)) = spec_mcu_sequence(data, s, m, a) {
            assert(ms1 + Seq::<McuModel>::empty() =~= ms1);
        }
    } else {
        lemma_mcu_sequence_split(data, s, m, a, (b - 1) as nat);
        assert((a + b - 1) as nat == a + (b - 1) as nat);
        if let Ok((ms1, s1)) = spec_mcu_sequence(data, s, m, a) {
            if let Ok((ms2, s2)) = spec_mcu_sequence(data, s1, m, (b - 1) as nat) {
                if let Ok((mcu, s3)) = spec_read_mcu(data, s2, m) {
                    assert((ms1 + ms2).push(mcu) =~= ms1 + ms2.push(mcu));
                }
            }
        }
    }
}

/// The MCUs `j` up to `w` of a row are the next `w - j` MCUs of the reader.
proof fn lemma_mcu_row_is_sequence(data: Seq<u8>, s: BitModel, m: MetaModel, j: int, w: int, acc: Seq<McuModel>)
    requires
        j <= w,
    ensures
        spec_mcu_row(data, s, m, j, w, acc) == match spec_mcu_sequence(data, s, m, (w - j) as nat) {
            Err(e) => Err(e),
            Ok((ms, s1)) => Ok::<(Seq<McuModel>, BitModel), JpegError>((acc + ms, s1)),
        },
    decreases w - j,
{
    if j == w {
        assert(acc + Seq::<McuModel>::empty() =~= acc);
    } else {
        let n = (w - j - 1) as nat;
        lemma_mcu_sequence_split(data, s, m, 1, n);
        assert(1 + n == (w - j) as nat);
        assert(spec_mcu_sequence(data, s, m, 0) == Ok::<(Seq<McuModel>, BitModel), JpegError>((Seq::empty(), s)));
        if let Ok((mcu, s1)) = spec_read_mcu(data, s, m) {
            assert(Seq::<McuModel>::empty().push(mcu) =~= seq![mcu]);
            lemma_mcu_row_is_sequence(data, s1, m, j + 1, w, acc.push(mcu));
            if let Ok((ms, s2)) = spec_mcu_sequence(data, s1, m, n) {
                assert(acc + (seq![mcu] + ms) =~= acc.push(mcu) + ms);
            }
        }
    }
}

proof fn lemma_raster_index(r: int, w: int, c: int, h: int)
    requires
        0 <= r < h,
        0 <= c < w,
    ensures
        0 <= r * w + c < h * w,
        r >= 1 ==> r * w + c - w == (r - 1) * w + c,
        r >= 1 ==> r * w + c >= w,
{
    assert(0 <= r * w + c < h * w) by (nonlinear_arith)
        requires
            0 <= r < h,
            0 <= c < w,
    ;
    assert(r >= 1 ==> r * w + c - w == (r - 1) * w + c) by (nonlinear_arith);
    assert(r >= 1 ==> r * w + c >= w) by (nonlinear_arith)
        requires
            0 <= c,
            w > 0,
    ;
}

/// The rows `i` up to `h` of MCUs are the next `(h - i) * w` MCUs of the
/// reader, laid out row by row.
proof fn lemma_mcu_rows_are_sequence(data: Seq<u8>, s: BitModel, m: MetaModel, i: int, h: int, w: int,
    acc: Seq<Seq<McuModel>>)
    requires
        i <= h,
        w > 0,
    ensures
        spec_mcu_rows(data, s, m, i, h, w, acc) == match spec_mcu_sequence(data, s, m, ((h - i) * w) as nat) {
            Err(e) => Err(e),
            Ok((flat, s1)) => Ok::<(Seq<Seq<McuModel>>, BitModel), JpegError>((acc + raster(flat, w, h - i), s1)),
        },
    decreases h - i,
{
    if i == h {
        assert((h - i) * w == 0) by (nonlinear_arith)
            requires
                i == h,
        ;
        assert(acc + raster(Seq::empty(), w, 0) =~= acc);
    } else {
        let rest = ((h - i - 1) * w) as nat;
        assert((h - i) * w == w + (h - i - 1) * w) by (nonlinear_arith);
        assert((h - i - 1) * w >= 0) by (nonlinear_arith)
            requires
                h - i - 1 >= 0,
                w > 0,
        ;
        lemma_mcu_row_is_sequence(data, s, m, 0, w, Seq::empty());
        lemma_mcu_sequence_split(data, s, m, w as nat, rest);
        assert(w as nat + rest == ((h - i) * w) as nat);
        lemma_mcu_sequence_len(data, s, m, w as nat);
        if let Ok((row, s1)) = spec_mcu_sequence(data, s, m, w as nat) {
            assert(Seq::<McuModel>::empty() + row =~= row);
            lemma_mcu_rows_are_sequence(data, s1, m, i + 1, h, w, acc.push(row));
            lemma_mcu_sequence_len(data, s1, m, rest);
            if let Ok((flat2, s2)) = spec_mcu_sequence(data, s1, m, rest) {
                let flat = row + flat2;
                let g = raster(flat, w, h - i);
                let g2 = raster(flat2, w, h - i - 1);
                assert forall|r: int| 0 <= r < h - i implies #[trigger] g[r] == (if r == 0 { row } else { g2[r - 1] }) by {
                    assert forall|c: int| 0 <= c < w implies #[trigger] g[r][c] == (if r == 0 { row } else { g2[r - 1] })[c] by {
                        lemma_raster_index(r, w, c, h - i);
                        if r >= 1 {
                            lemma_raster_index(r - 1, w, c, h - i - 1);
                        }
                    }
                    assert(g[r] =~= (if r == 0 { row } else { g2[r - 1] }));
                }
                assert(acc + g =~= acc.push(row) + g2);
            }
        }
    }
}

/// The MCUs of a scan stand in raster order: the MCU in row `i`, column `j`
/// of the grid is the `i * w + j`-th MCU (counted from 0) that one bit
/// reader, started at `p` with every DC predictor at 0, reads in turn;
/// the scan ends where that reader stops, and fails with the first error
/// it meets.
pub proof fn lemma_read_mcus_in_raster_order(data: Seq<u8>, p: int, m: MetaModel)
    ensures
        spec_read_mcus(data, p, m) == match spec_mcu_counts(m.sof_info) {
            Err(e) => Err(e),
            Ok((w, h)) => match spec_mcu_sequence(data, scan_start(p), m, (w * h) as nat) {
                Err(e) => Err(e),
                Ok((flat, s)) => Ok::<(Seq<Seq<McuModel>>, int), JpegError>((raster(flat, w, h), s.pos)),
            },
        },
{
    if let Ok((w, h)) = spec_mcu_counts(m.sof_info) {
        lemma_mcu_rows_are_sequence(data, scan_start(p), m, 0, h, w, Seq::empty());
        assert((h - 0) * w == w * h) by (nonlinear_arith);
        if let Ok((flat, s)) = spec_mcu_sequence(data, scan_start(p), m, (w * h) as nat) {
            assert(Seq::<Seq<McuModel>>::empty() + raster(flat, w, h - 0) =~= raster(flat, w, h));
        }
    }
}

/// An MCU holds, for each of the three components, as many rows as its
/// vertical sampling factor, each of as many blocks as its horizontal
/// sampling factor, each of 64 coefficients.
pub open spec fn mcu_has_shape(mcu: McuModel, infos: [ComponentInfo; 3]) -> bool {
    &&& mcu.len() == 3
    &&& forall|id: int| 0 <= id < 3 ==> #[trigger] mcu[id].len() == infos[id].vertical_sampling
    &&& forall|id: int, r: int| 0 <= id < 3 && 0 <= r < infos[id].vertical_sampling
        ==> #[trigger] mcu[id][r].len() == infos[id].horizontal_sampling
    &&& forall|id: int, r: int, w: int| 0 <= id < 3 && 0 <= r < infos[id].vertical_sampling
        && 0 <= w < infos[id].horizontal_sampling ==> #[trigger] mcu[id][r][w].len() == 64
}

proof fn lemma_ac_coefficients_len(data: Seq<u8>, s: BitModel, map: Map<u32, u8>, blk: Seq<i64>, count: int)
    requires
        blk.len() == 64,
        count >= 0,
    ensures
        spec_ac_coefficients(data, s, map, blk, count) matches Ok((b, _)) ==> b.len() == 64,
    decreases 64 - count,
{
    if count < 64 {
        if let Ok((ac, s1)) = spec_read_ac(data, s, map) {
            match ac {
                AcValue::AllZeros => {},
                AcValue::SixteenZeros => {
                    if count + 16 <= 64 {
                        lemma_ac_coefficients_len(data, s1, map, zero_range(blk, count, count + 16), count + 16);
                    }
                },
                AcValue::Normal { zeros, value } => {
                    if count + zeros < 64 {
                        lemma_ac_coefficients_len(data, s1, map,
                            zero_range(blk, count, count + zeros).update(count + zeros, value as i64), count + zeros + 1);
                    }
                },
            }
        }
    }
}

proof fn lemma_read_block_len(data: Seq<u8>, s: BitModel, dc: Map<u32, u8>, ac: Map<u32, u8>, id: int)
    ensures
        spec_read_block(data, s, dc, ac, id) matches Ok((b, _)) ==> b.len() == 64,
{
    if let Ok((v, s1)) = spec_read_dc(data, s, dc, id) {
        lemma_ac_coefficients_len(data, s1, ac, Seq::new(64, |k: int| 0i64).update(0, v), 1);
    }
}

/// Decoding the AC coefficients from index `count` on leaves those before
/// it as they were.
pub proof fn lemma_ac_coefficients_keep_earlier(data: Seq<u8>, s: BitModel, map: Map<u32, u8>, blk: Seq<i64>, count: int)
    requires
        blk.len() == 64,
        count >= 0,
    ensures
        spec_ac_coefficients(data, s, map, blk, count) matches Ok((b, _))
            ==> forall|k: int| 0 <= k < count && k < 64 ==> #[trigger] b[k] == blk[k],
    decreases 64 - count,
{
    lemma_ac_coefficients_len(data, s, map, blk, count);
    if count < 64 {
        if let Ok((ac, s1)) = spec_read_ac(data, s, map) {
            match ac {
                AcValue::AllZeros => {},
                AcValue::SixteenZeros => {
                    if count + 16 <= 64 {
                        lemma_ac_coefficients_keep_earlier(data, s1, map, zero_range(blk, count, count + 16), count + 16);
                    }
                },
                AcValue::Normal { zeros, value } => {
                    if count + zeros < 64 {
                        lemma_ac_coefficients_keep_earlier(data, s1, map,
                            zero_range(blk, count, count + zeros).update(count + zeros, value as i64), count + zeros + 1);
                    }
                },
            }
        }
    }
}

/// An AC entry with a run of `zeros` and a value `value`, read at
/// coefficient `count`, makes the `zeros` coefficients from `count` on 0
/// and the one after them `value`; decoding goes on at the coefficient
/// after that. A run that reaches past the 64th coefficient is an error.
pub proof fn lemma_ac_run_then_value(data: Seq<u8>, s: BitModel, map: Map<u32, u8>, blk: Seq<i64>, count: int,
    zeros: usize, value: i32, s1: BitModel)
    requires
        blk.len() == 64,
        0 <= count < 64,
        spec_read_ac(data, s, map) == Ok::<(AcValue, BitModel), JpegError>((AcValue::Normal { zeros, value }, s1)),
    ensures
        count + zeros >= 64 ==> spec_ac_coefficients(data, s, map, blk, count)
            == Err::<(Seq<i64>, BitModel), JpegError>(JpegError::CoefficientOverflow),
        count + zeros < 64 ==> spec_ac_coefficients(data, s, map, blk, count) == spec_ac_coefficients(data, s1, map,
            Seq::new(64, |k: int| if count <= k < count + zeros { 0i64 } else if k == count + zeros { value as i64 } else { blk[k] }),
            count + zeros + 1),
        spec_ac_coefficients(data, s, map, blk, count) matches Ok((b, _)) ==> {
            &&& forall|k: int| count <= k < count + zeros ==> #[trigger] b[k] == 0
            &&& b[count + zeros] == value as i64
            &&& forall|k: int| 0 <= k < count ==> #[trigger] b[k] == blk[k]
        },
{
    if count + zeros < 64 {
        let nb = Seq::new(64, |k: int| if count <= k < count + zeros { 0i64 } else if k == count + zeros { value as i64 } else { blk[k] });
        assert(zero_range(blk, count, count + zeros).update(count + zeros, value as i64) =~= nb);
        lemma_ac_coefficients_keep_earlier(data, s1, map, nb, count + zeros + 1);
    }
}

/// A run of sixteen zeros read at coefficient `count` makes the sixteen
/// coefficients from `count` on 0; decoding goes on sixteen coefficients
/// later. A run that reaches past the 64th coefficient is an error.
pub proof fn lemma_ac_sixteen_zeros(data: Seq<u8>, s: BitModel, map: Map<u32, u8>, blk: Seq<i64>, count: int, s1: BitModel)
    requires
        blk.len() == 64,
        0 <= count < 64,
        spec_read_ac(data, s, map) == Ok::<(AcValue, BitModel), JpegError>((AcValue::SixteenZeros, s1)),
    ensures
        count + 16 > 64 ==> spec_ac_coefficients(data, s, map, blk, count)
            == Err::<(Seq<i64>, BitModel), JpegError>(JpegError::CoefficientOverflow),
        count + 16 <= 64 ==> spec_ac_coefficients(data, s, map, blk, count) == spec_ac_coefficients(data, s1, map,
            Seq::new(64, |k: int| if count <= k < count + 16 { 0i64 } else { blk[k] }), count + 16),
        spec_ac_coefficients(data, s, map, blk, count) matches Ok((b, _)) ==> {
            &&& forall|k: int| count <= k < count + 16 ==> #[trigger] b[k] == 0
            &&& forall|k: int| 0 <= k < count ==> #[trigger] b[k] == blk[k]
        },
{
    if count + 16 <= 64 {
        let nb = Seq::new(64, |k: int| if count <= k < count + 16 { 0i64 } else { blk[k] });
        assert(zero_range(blk, count, count + 16) =~= nb);
        lemma_ac_coefficients_keep_earlier(data, s1, map, nb, count + 16);
    }
}

/// An end-of-block entry read at coefficient `count` makes every
/// coefficient from `count` on 0 and ends the block.
pub proof fn lemma_ac_end_of_block(data: Seq<u8>, s: BitModel, map: Map<u32, u8>, blk: Seq<i64>, count: int, s1: BitModel)
    requires
        blk.len() == 64,
        0 <= count < 64,
        spec_read_ac(data, s, map) == Ok::<(AcValue, BitModel), JpegError>((AcValue::AllZeros, s1)),
    ensures
        spec_ac_coefficients(data, s, map, blk, count)
            == Ok::<(Seq<i64>, BitModel), JpegError>((Seq::new(64, |k: int| if k >= count { 0i64 } else { blk[k] }), s1)),
{
    assert(zero_range(blk, count, 64) =~= Seq::new(64, |k: int| if k >= count { 0i64 } else { blk[k] }));
}

/// An AC symbol other than end-of-block (0x00) and sixteen zeros (0xF0)
/// is a run of as many zeros as its high nibble and a value of as many
/// bits as its low nibble.
pub proof fn lemma_ac_symbol(data: Seq<u8>, s: BitModel, map: Map<u32, u8>, x: u8, s0: BitModel)
    requires
        spec_match_huffman(data, s, map, 0, 1) == Ok::<(u8, BitModel), JpegError>((x, s0)),
    ensures
        x == 0x00 ==> spec_read_ac(data, s, map) == Ok::<(AcValue, BitModel), JpegError>((AcValue::AllZeros, s0)),
        x == 0xF0 ==> spec_read_ac(data, s, map) == Ok::<(AcValue, BitModel), JpegError>((AcValue::SixteenZeros, s0)),
        x != 0x00 && x != 0xF0 ==> spec_read_ac(data, s, map) == match spec_read_value(data, s0, x % 16) {
            Err(e) => Err(e),
            Ok((v, s2)) => Ok::<(AcValue, BitModel), JpegError>((AcValue::Normal { zeros: (x / 16) as usize, value: v }, s2)),
        },
{
    assert(x >> 4 == x / 16 && x & 0x0F == x % 16) by (bit_vector);
}

/// A block begins with its DC value: the first coefficient that reading a
/// block gives is the DC value read first.
pub proof fn lemma_block_starts_with_dc(data: Seq<u8>, s: BitModel, dc: Map<u32, u8>, ac: Map<u32, u8>, id: int)
    ensures
        spec_read_block(data, s, dc, ac, id) matches Ok((b, _))
            ==> spec_read_dc(data, s, dc, id) matches Ok((v, _)) && b[0] == v,
{
    if let Ok((v, s1)) = spec_read_dc(data, s, dc, id) {
        lemma_ac_coefficients_keep_earlier(data, s1, ac, Seq::new(64, |k: int| 0i64).update(0, v), 1);
    }
}

proof fn lemma_read_row_shape(data: Seq<u8>, s: BitModel, dc: Map<u32, u8>, ac: Map<u32, u8>, id: int,
    w: int, width: int, acc: Seq<Seq<i64>>)
    requires
        0 <= w <= width,
        acc.len() == w,
        forall|k: int| 0 <= k < acc.len() ==> #[trigger] acc[k].len() == 64,
    ensures
        spec_read_row(data, s, dc, ac, id, w, width, acc) matches Ok((row, _)) ==> {
            &&& row.len() == width
            &&& forall|k: int| 0 <= k < row.len() ==> #[trigger] row[k].len() == 64
        },
    decreases width - w,
{
    if w < width {
        lemma_read_block_len(data, s, dc, ac, id);
        if let Ok((b, s1)) = spec_read_block(data, s, dc, ac, id) {
            lemma_read_row_shape(data, s1, dc, ac, id, w + 1, width, acc.push(b));
        }
    }
}

proof fn lemma_read_component_shape(data: Seq<u8>, s: BitModel, dc: Map<u32, u8>, ac: Map<u32, u8>, id: int,
    h: int, height: int, width: int, acc: Seq<Seq<Seq<i64>>>)
    requires
        0 <= h <= height,
        0 <= width,
        acc.len() == h,
        forall|r: int| 0 <= r < acc.len() ==> #[trigger] acc[r].len() == width,
        forall|r: int, k: int| 0 <= r < acc.len() && 0 <= k < width ==> #[trigger] acc[r][k].len() == 64,
    ensures
        spec_read_component(data, s, dc, ac, id, h, height, width, acc) matches Ok((c, _)) ==> {
            &&& c.len() == height
            &&& forall|r: int| 0 <= r < height ==> #[trigger] c[r].len() == width
            &&& forall|r: int, k: int| 0 <= r < height && 0 <= k < width ==> #[trigger] c[r][k].len() == 64
        },
    decreases height - h,
{
    if h < height {
        lemma_read_row_shape(data, s, dc, ac, id, 0, width, Seq::empty());
        if let Ok((row, s1)) = spec_read_row(data, s, dc, ac, id, 0, width, Seq::empty()) {
            let acc2 = acc.push(row);
            assert forall|r: int, k: int| 0 <= r < acc2.len() && 0 <= k < width implies #[trigger] acc2[r][k].len() == 64 by {
                if r < acc.len() {
                    assert(acc2[r] == acc[r]);
                }
            }
            lemma_read_component_shape(data, s1, dc, ac, id, h + 1, height, width, acc2);
        }
    }
}

proof fn lemma_read_mcu_shape(data: Seq<u8>, s: BitModel, m: MetaModel, id: int, acc: Seq<Seq<Seq<Seq<i64>>>>)
    requires
        0 <= id <= 3,
        acc.len() == id,
        forall|c: int| 0 <= c < id ==> #[trigger] acc[c].len() == m.sof_info.component_infos[c].vertical_sampling,
        forall|c: int, r: int| 0 <= c < id && 0 <= r < m.sof_info.component_infos[c].vertical_sampling
            ==> #[trigger] acc[c][r].len() == m.sof_info.component_infos[c].horizontal_sampling,
        forall|c: int, r: int, w: int| 0 <= c < id && 0 <= r < m.sof_info.component_infos[c].vertical_sampling
            && 0 <= w < m.sof_info.component_infos[c].horizontal_sampling ==> #[trigger] acc[c][r][w].len() == 64,
    ensures
        spec_read_mcu_components(data, s, m, id, acc) matches Ok((mcu, _)) ==> mcu_has_shape(mcu, m.sof_info.component_infos),
    decreases 3 - id,
{
    let infos = m.sof_info.component_infos;
    if id < 3 {
        let info = infos[id];
        let (dc_id, ac_id) = m.table_mapping[id];
        if dc_id < 2 && ac_id < 2 {
            let dc = m.dc_tables[dc_id as int];
            let ac = m.ac_tables[ac_id as int];
            lemma_read_component_shape(data, s, dc, ac, id, 0,
                info.vertical_sampling as int, info.horizontal_sampling as int, Seq::empty());
            if let Ok((c, s1)) = spec_read_component(data, s, dc, ac, id, 0,
                info.vertical_sampling as int, info.horizontal_sampling as int, Seq::empty()) {
                let acc2 = acc.push(c);
                assert forall|k: int, r: int| 0 <= k < id + 1 && 0 <= r < infos[k].vertical_sampling
                    implies #[trigger] acc2[k][r].len() == infos[k].horizontal_sampling by {
                    if k < id {
                        assert(acc2[k] == acc[k]);
                    }
                }
                assert forall|k: int, r: int, w: int| 0 <= k < id + 1 && 0 <= r < infos[k].vertical_sampling
                    && 0 <= w < infos[k].horizontal_sampling implies #[trigger] acc2[k][r][w].len() == 64 by {
                    if k < id {
                        assert(acc2[k] == acc[k]);
                    }
                }
                lemma_read_mcu_shape(data, s1, m, id + 1, acc2);
            }
        }
    }
}

proof fn lemma_mcu_row_shape(data: Seq<u8>, s: BitModel, m: MetaModel, j: int, w: int, acc: Seq<McuModel>)
    requires
        0 <= j <= w,
        acc.len() == j,
        forall|k: int| 0 <= k < acc.len() ==> mcu_has_shape(#[trigger] acc[k], m.sof_info.component_infos),
    ensures
        spec_mcu_row(data, s, m, j, w, acc) matches Ok((row, _)) ==> {
            &&& row.len() == w
            &&& forall|k: int| 0 <= k < w ==> mcu_has_shape(#[trigger] row[k], m.sof_info.component_infos)
        },
    decreases w - j,
{
    if j < w {
        lemma_read_mcu_shape(data, s, m, 0, Seq::empty());
        if let Ok((mcu, s1)) = spec_read_mcu(data, s, m) {
            lemma_mcu_row_shape(data, s1, m, j + 1, w, acc.push(mcu));
        }
    }
}

proof fn lemma_mcu_rows_shape(data: Seq<u8>, s: BitModel, m: MetaModel, i: int, h: int, w: int, acc: Seq<Seq<McuModel>>)
    requires
        0 <= i <= h,
        0 <= w,
        acc.len() == i,
        forall|r: int| 0 <= r < acc.len() ==> #[trigger] acc[r].len() == w,
        forall|r: int, k: int| 0 <= r < acc.len() && 0 <= k < w ==> mcu_has_shape(#[trigger] acc[r][k], m.sof_info.component_infos),
    ensures
        spec_mcu_rows(data, s, m, i, h, w, acc) matches Ok((rows, _)) ==> {
            &&& rows.len() == h
            &&& forall|r: int| 0 <= r < h ==> #[trigger] rows[r].len() == w
            &&& forall|r: int, k: int| 0 <= r < h && 0 <= k < w ==> mcu_has_shape(#[trigger] rows[r][k], m.sof_info.component_infos)
        },
    decreases h - i,
{
    if i < h {
        lemma_mcu_row_shape(data, s, m, 0, w, Seq::empty());
        if let Ok((row, s1)) = spec_mcu_row(data, s, m, 0, w, Seq::empty()) {
            let acc2 = acc.push(row);
            assert forall|r: int, k: int| 0 <= r < acc2.len() && 0 <= k < w
                implies mcu_has_shape(#[trigger] acc2[r][k], m.sof_info.component_infos) by {
                if r < acc.len() {
                    assert(acc2[r] == acc[r]);
                }
            }
            lemma_mcu_rows_shape(data, s1, m, i + 1, h, w, acc2);
        }
    }
}

/// A scan that is read whole holds the MCU grid of its frame: as many rows
/// and columns of MCUs as the frame's MCU counts, each MCU with the blocks
/// that the sampling factors call for, each block of 64 coefficients.
pub proof fn lemma_scan_shape(data: Seq<u8>, p: int, m: MetaModel)
    ensures
        spec_read_mcus(data, p, m) matches Ok((rows, _)) ==> {
            &&& spec_mcu_counts(m.sof_info) is Ok
            &&& rows.len() == spec_mcu_counts(m.sof_info).unwrap().1
            &&& forall|r: int| 0 <= r < rows.len() ==> #[trigger] rows[r].len() == spec_mcu_counts(m.sof_info).unwrap().0
            &&& forall|r: int, k: int| 0 <= r < rows.len() && 0 <= k < rows[r].len()
                ==> mcu_has_shape(#[trigger] rows[r][k], m.sof_info.component_infos)
        },
{
    if let Ok((w, h)) = spec_mcu_counts(m.sof_info) {
        lemma_mcu_rows_shape(data, scan_start(p), m, 0, h, w, Seq::empty());
    }
}

proof fn lemma_value_bits_range(data: Seq<u8>, s: BitModel, first: u8, acc: int, n: nat, j: nat)
    requires
        two_pow(j) <= acc < two_pow(j + 1),
        j + n <= 15,
    ensures
        spec_value_bits(data, s, first, acc, n) matches Ok((r, _)) ==> two_pow(j + n) <= r < two_pow(j + n + 1),
    decreases n,
{
    if n > 0 {
        if let Ok((b, s1)) = spec_get_bit(data, s) {
            let inc: int = if b == first { 1 } else { 0 };
            lemma_two_pow_le_16(j + 2);
            assert(two_pow(j + 2) == 2 * two_pow(j + 1));
            assert(two_pow(j + 1) == 2 * two_pow(j));
            assert((acc * 2 + inc) % 65536 == acc * 2 + inc);
            lemma_value_bits_range(data, s1, first, (acc * 2 + inc) % 65536, (n - 1) as nat, j + 1);
            assert(j + 1 + (n - 1) as nat == j + n);
        }
    }
}

/// A value of `code_len` bits, 1 to 15, has a magnitude of `code_len`
/// bits: at least `2^(code_len - 1)` and below `2^code_len`; a value of no
/// bits is 1 or -1.
pub proof fn lemma_value_magnitude(data: Seq<u8>, s: BitModel, code_len: u8)
    requires
        code_len <= 15,
    ensures
        spec_read_value(data, s, code_len) matches Ok((v, _)) ==> {
            &&& code_len == 0 ==> (v == 1 || v == -1)
            &&& code_len >= 1 ==> {
                let a = if v >= 0 { v as int } else { -v };
                two_pow((code_len - 1) as nat) <= a < two_pow(code_len as nat)
            }
        },
{
    if let Ok((first, s1)) = spec_get_bit(data, s) {
        let n: nat = if code_len >= 1 { (code_len - 1) as nat } else { 0 };
        reveal_with_fuel(two_pow, 2);
        lemma_value_bits_range(data, s1, first, 1, n, 0);
        lemma_two_pow_le_16(n + 1);
        if code_len == 0 {
            reveal_with_fuel(spec_value_bits, 1);
        }
    }
}


/// The next `n` bits of the scan data and the reader after them.
pub open spec fn spec_bits(data: Seq<u8>, s: BitModel, n: nat) -> Result<(Seq<u8>, BitModel), JpegError>
    decreases n,
{
    if n == 0 {
        Ok((Seq::empty(), s))
    } else {
        match spec_get_bit(data, s) {
            Err(e) => Err(e),
            Ok((b, s1)) => match spec_bits(data, s1, (n - 1) as nat) {
                Err(e) => Err(e),
                Ok((rest, s2)) => Ok((seq![b].add(rest), s2)),
            },
        }
    }
}

/// The number that a string of bits stands for, most significant first.
pub open spec fn bits_value(bits: Seq<u8>) -> int
    decreases bits.len(),
{
    if bits.len() == 0 {
        0
    } else {
        bits[0] * two_pow((bits.len() - 1) as nat) + bits_value(bits.drop_first())
    }
}

proof fn lemma_msb_bit_is_bit(b: u8, i: u8)
    ensures
        msb_bit(b, i) <= 1,
{
    assert(((b >> ((7 - i) as u8)) & 1) <= 1) by (bit_vector);
}

proof fn lemma_bits_are_bits(data: Seq<u8>, s: BitModel, n: nat)
    ensures
        spec_bits(data, s, n) matches Ok((bs, _)) ==> bs.len() == n && forall|k: int| 0 <= k < n ==> #[trigger] bs[k] <= 1,
    decreases n,
{
    if n > 0 {
        if let Ok((b, s1)) = spec_get_bit(data, s) {
            if s.count == 0 {
                if 0 <= s.pos < data.len() {
                    lemma_msb_bit_is_bit(data[s.pos], 0);
                }
            } else {
                lemma_msb_bit_is_bit(s.buf, s.count);
            }
            lemma_bits_are_bits(data, s1, (n - 1) as nat);
            if let Ok((rest, s2)) = spec_bits(data, s1, (n - 1) as nat) {
                let bs = seq![b].add(rest);
                assert forall|k: int| 0 <= k < n implies #[trigger] bs[k] <= 1 by {
                    if k > 0 {
                        assert(bs[k] == rest[k - 1]);
                    }
                }
            }
        }
    }
}

proof fn lemma_bits_value_range(bits: Seq<u8>)
    requires
        forall|k: int| 0 <= k < bits.len() ==> #[trigger] bits[k] <= 1,
    ensures
        0 <= bits_value(bits) < two_pow(bits.len()),
    decreases bits.len(),
{
    if bits.len() > 0 {
        let rest = bits.drop_first();
        assert forall|k: int| 0 <= k < rest.len() implies #[trigger] rest[k] <= 1 by {
            assert(rest[k] == bits[k + 1]);
        }
        lemma_bits_value_range(rest);
        let e = (bits.len() - 1) as nat;
        assert(two_pow(bits.len()) == 2 * two_pow(e));
        assert(bits[0] * two_pow(e) <= two_pow(e)) by (nonlinear_arith)
            requires
                bits[0] <= 1,
        ;
    }
}

proof fn lemma_div_split(q: int, d: int, r: int)
    requires
        d >= 1,
        0 <= r < d,
    ensures
        (q * d + r) / d == q,
{
    assert((q * d + r) / d == q) by (nonlinear_arith)
        requires
            d >= 1,
            0 <= r < d,
    ;
}

proof fn lemma_match_written_code(data: Seq<u8>, s: BitModel, map: Map<u32, u8>, key: u32, code: int, j: nat,
    rest: Seq<u8>, s2: BitModel)
    requires
        is_prefix_code(map),
        map.contains_key(key),
        j < key_length(key),
        spec_bits(data, s, (key_length(key) - j) as nat) == Ok::<(Seq<u8>, BitModel), JpegError>((rest, s2)),
        key_code(key) == code * two_pow((key_length(key) - j) as nat) + bits_value(rest),
        code >= 0,
    ensures
        spec_match_huffman(data, s, map, code, (j + 1) as int) == Ok::<(u8, BitModel), JpegError>((map[key], s2)),
    decreases key_length(key) - j,
{
    let l = key_length(key);
    let n = (l - j) as nat;
    lemma_bits_are_bits(data, s, n);
    let (b, s1) = spec_get_bit(data, s).unwrap();
    let (rest1, s3) = spec_bits(data, s1, (n - 1) as nat).unwrap();
    assert(rest == seq![b].add(rest1));
    assert(rest.drop_first() =~= rest1);
    assert(rest[0] == b);
    lemma_bits_are_bits(data, s1, (n - 1) as nat);
    lemma_bits_value_range(rest1);
    let c = code * 2 + b;
    let e = (n - 1) as nat;
    assert(two_pow(n) == 2 * two_pow(e));
    assert(key_code(key) == c * two_pow(e) + bits_value(rest1)) by {
        assert(bits_value(rest) == b * two_pow(e) + bits_value(rest1));
        assert(code * (2 * two_pow(e)) + b * two_pow(e) == (code * 2 + b) * two_pow(e)) by (nonlinear_arith);
    }
    lemma_two_pow_positive(e);
    lemma_div_split(c, two_pow(e) as int, bits_value(rest1));
    let key2 = huffman_key((j + 1) as int, c) as u32;
    assert(1 <= l <= 16);
    assert(c >= 0);
    assert(c < 65536) by {
        assert(c * two_pow(e) <= key_code(key));
        assert(c <= c * two_pow(e)) by (nonlinear_arith)
            requires
                c >= 0,
                two_pow(e) >= 1,
        ;
    }
    assert(key_length(key2) == j + 1 && key_code(key2) == c) by {
        assert(key2 as int == (j + 1) * 65536 + c);
        assert(((j + 1) * 65536 + c) / 65536 == j + 1 && ((j + 1) * 65536 + c) % 65536 == c) by (nonlinear_arith)
            requires
                0 <= c < 65536,
        ;
    }
    if j + 1 == l {
        assert(e == 0);
        assert(two_pow(0) == 1);
        assert(bits_value(rest1) == 0);
        assert(c * two_pow(e) == c) by (nonlinear_arith)
            requires
                two_pow(e) == 1,
        ;
        assert(key_code(key) == c);
        assert(key2 as int == key as int) by {
            assert(key as int == key_length(key) * 65536 + key_code(key)) by (nonlinear_arith)
                requires
                    key_length(key) == key as int / 65536,
                    key_code(key) == key as int % 65536,
            ;
        }
        assert(s3 == s2);
    } else {
        if map.contains_key(key2) {
            assert(key2 != key);
            assert(is_code_prefix(key2, key)) by {
                assert((key_length(key) - key_length(key2)) as nat == e);
            }
        }
        lemma_match_written_code(data, s1, map, key, c, j + 1, rest1, s2);
    }
}

/// Decoding reads back what a table writes: where the next bits of the
/// scan are a code of a prefix-code table, the Huffman decoder gives that
/// code's symbol and stops right after the code.
pub proof fn lemma_huffman_decodes_code(data: Seq<u8>, s: BitModel, map: Map<u32, u8>, key: u32,
    bits: Seq<u8>, s2: BitModel)
    requires
        is_prefix_code(map),
        map.contains_key(key),
        spec_bits(data, s, key_length(key) as nat) == Ok::<(Seq<u8>, BitModel), JpegError>((bits, s2)),
        bits_value(bits) == key_code(key),
    ensures
        spec_match_huffman(data, s, map, 0, 1) == Ok::<(u8, BitModel), JpegError>((map[key], s2)),
{
    lemma_match_written_code(data, s, map, key, 0, 0, bits, s2);
}

}
