//! RGB images.

use vstd::prelude::*;

verus! {

#[derive(Clone, Copy, Debug, PartialEq, Eq, Structural)]
pub struct Color {
    pub r: u8,
    pub g: u8,
    pub b: u8,
}

impl Color {
    #[allow(non_snake_case)]
    pub fn RGB(r: u8, g: u8, b: u8) -> (c: Color)
        ensures
            c == (Color { r, g, b }),
    {
        Color { r, g, b }
    }
}

pub struct Image {
    pub width: u32,
    pub height: u32,
    pub pixels: Vec<Vec<Color>>,
}

impl Image {
    /// `height` rows of `width` pixels each.
    pub open spec fn well_formed(&self) -> bool {
        &&& self.pixels@.len() == self.height
        &&& forall|y: int| 0 <= y < self.height ==> #[trigger] self.pixels@[y]@.len() == self.width
    }

    /// At least `height` rows, each of the first `height` with at least
    /// `width` pixels.
    pub open spec fn covers_size(&self) -> bool {
        &&& self.pixels@.len() >= self.height
        &&& forall|y: int| 0 <= y < self.height ==> #[trigger] self.pixels@[y]@.len() >= self.width
    }

    /// The first `width` pixels of each of the first `height` rows.
    pub open spec fn visible(&self) -> Seq<Seq<Color>> {
        Seq::new(self.height as nat, |y: int| self.pixels@[y]@.take(self.width as int))
    }

    /// A black image of the given size.
    pub fn new(width: u32, height: u32) -> (image: Image)
        ensures
            image.width == width,
            image.height == height,
            image.well_formed(),
            forall|y: int, x: int|
                0 <= y < height && 0 <= x < width ==> #[trigger] image.pixels@[y]@[x] == (Color {
                    r: 0,
                    g: 0,
                    b: 0,
                }),
    {
        let mut pixels: Vec<Vec<Color>> = Vec::new();
        let mut y: u32 = 0;
        while y < height
            invariant
                y <= height,
                pixels@.len() == y,
                forall|k: int| 0 <= k < y ==> #[trigger] pixels@[k]@.len() == width,
                forall|k: int, x: int|
                    0 <= k < y && 0 <= x < width ==> #[trigger] pixels@[k]@[x] == (Color {
                        r: 0,
                        g: 0,
                        b: 0,
                    }),
            decreases height - y,
        {
            let mut row: Vec<Color> = Vec::new();
            let mut x: u32 = 0;
            while x < width
                invariant
                    x <= width,
                    row@.len() == x,
                    forall|k: int| 0 <= k < x ==> #[trigger] row@[k] == (Color { r: 0, g: 0, b: 0 }),
                decreases width - x,
            {
                row.push(Color::RGB(0, 0, 0));
                x = x + 1;
            }
            pixels.push(row);
            y = y + 1;
        }
        Image { width, height, pixels }
    }
}

}
