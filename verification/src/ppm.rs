//! The binary PPM (P6) encoding of an image.

use vstd::prelude::*;
use crate::image::{Color, Image};

verus! {

/// The decimal digits of `n`, as ASCII bytes, with no leading zeros.
pub open spec fn decimal(n: nat) -> Seq<u8>
    decreases n,
{
    if n < 10 {
        seq![(48 + n) as u8]
    } else {
        decimal(n / 10).push((48 + n % 10) as u8)
    }
}

/// The bytes of the pixels, row by row, each pixel as its red, green and
/// blue bytes.
pub open spec fn pixel_bytes(pixels: Seq<Seq<Color>>) -> Seq<u8>
    decreases pixels.len(),
{
    if pixels.len() == 0 {
        Seq::empty()
    } else {
        pixel_bytes(pixels.drop_last()) + row_bytes(pixels.last())
    }
}

pub open spec fn row_bytes(row: Seq<Color>) -> Seq<u8>
    decreases row.len(),
{
    if row.len() == 0 {
        Seq::empty()
    } else {
        row_bytes(row.drop_last()) + seq![row.last().r, row.last().g, row.last().b]
    }
}

/// The header "P6\n<width> <height>\n255\n".
pub open spec fn ppm_header(width: nat, height: nat) -> Seq<u8> {
    seq![80u8, 54u8, 10u8] + decimal(width) + seq![32u8] + decimal(height) + seq![10u8, 50u8, 53u8, 53u8, 10u8]
}

/// Appends the decimal digits of `n`.
pub fn push_decimal(out: &mut Vec<u8>, n: u32)
    ensures
        final(out)@ == old(out)@ + decimal(n as nat),
    decreases n,
{
    if n >= 10 {
        push_decimal(out, n / 10);
    }
    out.push(48 + (n % 10) as u8);
    proof {
        assert(n >= 10 ==> (n as nat) / 10 == (n / 10) as nat);
    }
    assert(out@ =~= old(out)@ + decimal(n as nat));
}

/// The PPM file of an image: the header, then the first `width` pixels of
/// each of the first `height` rows.
pub fn ppm_bytes(image: &Image) -> (bytes: Vec<u8>)
    requires
        image.covers_size(),
    ensures
        bytes@ == ppm_header(image.width as nat, image.height as nat) + pixel_bytes(image.visible()),
{
    let mut out: Vec<u8> = Vec::new();
    out.push(80);
    out.push(54);
    out.push(10);
    push_decimal(&mut out, image.width);
    out.push(32);
    push_decimal(&mut out, image.height);
    out.push(10);
    out.push(50);
    out.push(53);
    out.push(53);
    out.push(10);
    let ghost header = out@;
    assert(header =~= ppm_header(image.width as nat, image.height as nat));
    let ghost rows = image.visible();
    let mut row: u32 = 0;
    while row < image.height
        invariant
            image.covers_size(),
            rows == image.visible(),
            row <= image.height,
            out@ == header + pixel_bytes(rows.take(row as int)),
        decreases image.height - row,
    {
        let ghost before_row = out@;
        let ghost line = image.pixels@[row as int]@;
        let mut col: u32 = 0;
        while col < image.width
            invariant
                image.covers_size(),
                row < image.height,
                line == image.pixels@[row as int]@,
                col <= image.width,
                out@ == before_row + row_bytes(line.take(col as int)),
            decreases image.width - col,
        {
            let pixel = image.pixels[row as usize][col as usize];
            out.push(pixel.r);
            out.push(pixel.g);
            out.push(pixel.b);
            assert(line.take(col + 1).drop_last() =~= line.take(col as int));
            assert(out@ =~= before_row + row_bytes(line.take(col + 1)));
            col = col + 1;
        }
        assert(rows[row as int] == line.take(image.width as int));
        assert(rows.take(row + 1).drop_last() =~= rows.take(row as int));
        assert(rows.take(row + 1).last() == rows[row as int]);
        assert(out@ =~= header + pixel_bytes(rows.take(row + 1)));
        row = row + 1;
    }
    assert(rows.take(image.height as int) =~= rows);
    out
}


/// The number that a string of ASCII decimal digits stands for.
pub open spec fn decimal_value(digits: Seq<u8>) -> int
    decreases digits.len(),
{
    if digits.len() == 0 {
        0
    } else {
        decimal_value(digits.drop_last()) * 10 + (digits.last() - 48)
    }
}

/// The decimal digits of a number are ASCII digits, with no leading zero,
/// and read back as the number.
pub proof fn lemma_decimal_round_trip(n: nat)
    ensures
        decimal(n).len() >= 1,
        forall|k: int| 0 <= k < decimal(n).len() ==> 48 <= #[trigger] decimal(n)[k] <= 57,
        decimal(n).len() > 1 ==> decimal(n)[0] != 48,
        decimal_value(decimal(n)) == n,
    decreases n,
{
    if n >= 10 {
        lemma_decimal_round_trip(n / 10);
        let d = decimal(n / 10);
        assert(decimal(n) == d.push((48 + n % 10) as u8));
        assert(decimal(n).drop_last() =~= d);
        assert forall|k: int| 0 <= k < decimal(n).len() implies 48 <= #[trigger] decimal(n)[k] <= 57 by {
            if k < d.len() {
                assert(decimal(n)[k] == d[k]);
            }
        }
        if n / 10 >= 10 {
            lemma_decimal_round_trip(n / 10 / 10);
            assert(d.len() >= 2);
        } else {
            assert(d[0] == (48 + n / 10) as u8);
            assert(n / 10 >= 1);
        }
        assert(decimal(n)[0] == d[0]);
        assert((n / 10) * 10 + n % 10 == n) by (nonlinear_arith);
        assert(decimal_value(decimal(n)) == decimal_value(d) * 10 + ((48 + n % 10) as u8 - 48));
    } else {
        assert(decimal(n).drop_last() =~= Seq::<u8>::empty());
        assert(decimal_value(decimal(n)) == decimal_value(Seq::<u8>::empty()) * 10 + ((48 + n) as u8 - 48));
    }
}

proof fn lemma_row_bytes_len(row: Seq<Color>)
    ensures
        row_bytes(row).len() == 3 * row.len(),
    decreases row.len(),
{
    if row.len() > 0 {
        lemma_row_bytes_len(row.drop_last());
    }
}

proof fn lemma_pixel_bytes_len(pixels: Seq<Seq<Color>>, width: nat)
    requires
        forall|y: int| 0 <= y < pixels.len() ==> #[trigger] pixels[y].len() == width,
    ensures
        pixel_bytes(pixels).len() == 3 * width * pixels.len(),
    decreases pixels.len(),
{
    if pixels.len() > 0 {
        lemma_pixel_bytes_len(pixels.drop_last(), width);
        lemma_row_bytes_len(pixels.last());
        assert(3 * width * (pixels.len() - 1) + 3 * width == 3 * width * pixels.len()) by (nonlinear_arith);
    }
}

/// A PPM file holds its header and then three bytes for each pixel.
pub proof fn lemma_ppm_size(image: Image)
    requires
        image.covers_size(),
    ensures
        (ppm_header(image.width as nat, image.height as nat) + pixel_bytes(image.visible())).len()
            == ppm_header(image.width as nat, image.height as nat).len() + 3 * image.width * image.height,
{
    let p = image.visible();
    assert forall|y: int| 0 <= y < p.len() implies #[trigger] p[y].len() == image.width by {
        assert(image.pixels@[y]@.len() >= image.width);
    }
    lemma_pixel_bytes_len(p, image.width as nat);
}

}
