//! Overlay textures in the pixel layout the game's renderer uploads, and
//! partial updates of them.

use vstd::prelude::*;
use crate::text::{decimal, decimal_digits, push_chars, push_str, string_of};

verus! {

/// One pixel in the renderer's byte order.
#[derive(Clone, Copy, Debug, PartialEq, Eq, Structural)]
pub struct Bgra {
    pub blue: u8,
    pub green: u8,
    pub red: u8,
    pub alpha: u8,
}

impl Bgra {
    /// The pixel of a premultiplied RGBA colour.
    pub fn from_rgba(red: u8, green: u8, blue: u8, alpha: u8) -> (r: Bgra)
        ensures
            r == (Bgra { blue, green, red, alpha }),
    {
        Bgra { blue, green, red, alpha }
    }
}

/// A texture's pixels, row by row.
pub struct Texture {
    pub width: usize,
    pub height: usize,
    pub pixels: Vec<Bgra>,
    /// Whether the uploaded copy still matches the pixels.
    pub uploaded: bool,
}

/// The pixel at row `row`, column `column` of a row-major image `width`
/// pixels wide.
pub open spec fn cell(pixels: Seq<Bgra>, width: int, row: int, column: int) -> Bgra {
    pixels[row * width + column]
}

/// Whether `(row, column)` lies in the rectangle at `(x, y)` of the given size.
pub open spec fn in_rect(x: int, y: int, width: int, height: int, row: int, column: int) -> bool {
    y <= row < y + height && x <= column < x + width
}

/// "egui texture patch [x, y]..[right, bottom] exceeds WxH texture".
pub open spec fn exceeds_message(x: nat, y: nat, right: nat, bottom: nat, width: nat, height: nat) -> Seq<char> {
    "egui texture patch ["@ + decimal_digits(x) + ", "@ + decimal_digits(y) + "]..["@ + decimal_digits(right) + ", "@
        + decimal_digits(bottom) + "] exceeds "@ + decimal_digits(width) + "x"@ + decimal_digits(height) + " texture"@
}

proof fn lemma_cell_index(width: int, height: int, row: int, column: int)
    requires
        0 <= row < height,
        0 <= column < width,
    ensures
        0 <= row * width + column < width * height,
{
    assert(row * width + column < (row + 1) * width) by (nonlinear_arith)
        requires
            0 <= column < width,
    ;
    assert((row + 1) * width <= height * width) by (nonlinear_arith)
        requires
            row + 1 <= height,
            0 <= width,
    ;
    assert(0 <= row * width) by (nonlinear_arith)
        requires
            0 <= row,
            0 <= width,
    ;
    assert(height * width == width * height) by (nonlinear_arith);
}

proof fn lemma_cell_distinct(width: int, r1: int, c1: int, r2: int, c2: int)
    requires
        0 <= c1 < width,
        0 <= c2 < width,
        0 <= r1,
        0 <= r2,
        r1 != r2 || c1 != c2,
    ensures
        r1 * width + c1 != r2 * width + c2,
{
    if r1 == r2 {
    } else if r1 < r2 {
        assert(r1 * width + c1 < r2 * width + c2) by (nonlinear_arith)
            requires
                r1 < r2,
                0 <= c1 < width,
                0 <= c2,
        ;
    } else {
        assert(r2 * width + c2 < r1 * width + c1) by (nonlinear_arith)
            requires
                r2 < r1,
                0 <= c2 < width,
                0 <= c1,
        ;
    }
}

impl Texture {
    /// The pixels fill the texture exactly.
    pub open spec fn wf(&self) -> bool {
        self.pixels@.len() == self.width * self.height
    }

    /// A texture of one colour.
    pub fn filled(width: usize, height: usize, color: Bgra) -> (r: Texture)
        requires
            width * height <= usize::MAX,
        ensures
            r.wf(),
            r.width == width && r.height == height && !r.uploaded,
            forall|i: int| 0 <= i < r.pixels@.len() ==> r.pixels@[i] == color,
    {
        let count = width * height;
        let mut pixels: Vec<Bgra> = Vec::new();
        while pixels.len() < count
            invariant
                pixels@.len() <= count,
                forall|i: int| 0 <= i < pixels@.len() ==> pixels@[i] == color,
            decreases count - pixels@.len(),
        {
            pixels.push(color);
        }
        Texture { width, height, pixels, uploaded: false }
    }

    /// Replaces the `width` by `height` rectangle at `(x, y)` with `pixels`,
    /// given row by row, leaving every other pixel as it was. Refuses a
    /// rectangle that overflows, leaves the texture, or does not match the
    /// number of pixels, and then changes nothing.
    pub fn patch(&mut self, x: usize, y: usize, width: usize, height: usize, pixels: &[Bgra]) -> (r: Result<(), String>)
        requires
            old(self).wf(),
        ensures
            final(self).wf(),
            final(self).width == old(self).width && final(self).height == old(self).height,
            x + width > usize::MAX ==> (r matches Err(m) && m@ == "egui texture patch overflows horizontally"@),
            x + width <= usize::MAX && y + height > usize::MAX ==> (r matches Err(m) && m@
                == "egui texture patch overflows vertically"@),
            x + width <= usize::MAX && y + height <= usize::MAX && (x + width > old(self).width || y + height
                > old(self).height) ==> (r matches Err(m) && m@ == exceeds_message(
                x as nat,
                y as nat,
                (x + width) as nat,
                (y + height) as nat,
                old(self).width as nat,
                old(self).height as nat,
            )),
            x + width <= old(self).width && y + height <= old(self).height && pixels@.len() != width * height ==> (r matches Err(
                m,
            ) && m@ == "egui texture patch has an invalid pixel count"@),
            r is Ok <==> (x + width <= old(self).width && y + height <= old(self).height && pixels@.len() == width * height),
            r is Err ==> final(self).pixels@ == old(self).pixels@ && final(self).uploaded == old(self).uploaded,
            r is Ok ==> !final(self).uploaded && forall|row: int, column: int|
                0 <= row < old(self).height && 0 <= column < old(self).width ==> #[trigger] cell(
                    final(self).pixels@,
                    old(self).width as int,
                    row,
                    column,
                ) == if in_rect(x as int, y as int, width as int, height as int, row, column) {
                    cell(pixels@, width as int, row - y, column - x)
                } else {
                    cell(old(self).pixels@, old(self).width as int, row, column)
                },
    {
        proof {
            reveal_strlit("egui texture patch overflows horizontally");
            reveal_strlit("egui texture patch overflows vertically");
            reveal_strlit("egui texture patch has an invalid pixel count");
            reveal_strlit("egui texture patch dimensions overflow");
        }
        let right = match x.checked_add(width) {
            Some(v) => v,
            None => return Err("egui texture patch overflows horizontally".to_owned()),
        };
        let bottom = match y.checked_add(height) {
            Some(v) => v,
            None => return Err("egui texture patch overflows vertically".to_owned()),
        };
        if right > self.width || bottom > self.height {
            return Err(exceeds_text(x, y, right, bottom, self.width, self.height));
        }
        let total = self.pixels.len();
        proof {
            if width > 0 && height > 0 {
                assert(width * height <= self.width * self.height) by (nonlinear_arith)
                    requires
                        width <= self.width,
                        height <= self.height,
                ;
            } else {
                assert(width * height == 0) by (nonlinear_arith)
                    requires
                        width == 0 || height == 0,
                ;
            }
            assert(self.width * self.height == total);
        }
        let expected = match width.checked_mul(height) {
            Some(v) => v,
            None => return Err("egui texture patch dimensions overflow".to_owned()),
        };
        if pixels.len() != expected {
            return Err("egui texture patch has an invalid pixel count".to_owned());
        }
        let ghost before = self.pixels@;
        let tw = self.width;
        let th = self.height;
        let mut row: usize = 0;
        while row < height
            invariant
                self.width == tw && self.height == th,
                self.pixels@.len() == tw * th,
                tw * th <= usize::MAX,
                before.len() == tw * th,
                x + width <= tw,
                y + height <= th,
                pixels@.len() == width * height,
                width * height <= usize::MAX,
                row <= height,
                forall|r: int, c: int|
                    0 <= r < th && 0 <= c < tw ==> #[trigger] cell(self.pixels@, tw as int, r, c) == if in_rect(
                        x as int,
                        y as int,
                        width as int,
                        row as int,
                        r,
                        c,
                    ) {
                        cell(pixels@, width as int, r - y, c - x)
                    } else {
                        cell(before, tw as int, r, c)
                    },
            decreases height - row,
        {
            let mut column: usize = 0;
            while column < width
                invariant
                    self.width == tw && self.height == th,
                    self.pixels@.len() == tw * th,
                    tw * th <= usize::MAX,
                    before.len() == tw * th,
                    x + width <= tw,
                    y + height <= th,
                    pixels@.len() == width * height,
                    width * height <= usize::MAX,
                    row < height,
                    column <= width,
                    forall|r: int, c: int|
                        0 <= r < th && 0 <= c < tw ==> #[trigger] cell(self.pixels@, tw as int, r, c) == if in_rect(
                            x as int,
                            y as int,
                            width as int,
                            row as int,
                            r,
                            c,
                        ) || (r == y + row && x <= c < x + column) {
                            cell(pixels@, width as int, r - y, c - x)
                        } else {
                            cell(before, tw as int, r, c)
                        },
                decreases width - column,
            {
                proof {
                    lemma_cell_index(tw as int, th as int, (y + row) as int, (x + column) as int);
                    lemma_cell_index(width as int, height as int, row as int, column as int);
                }
                let target = (y + row) * tw + (x + column);
                let source = row * width + column;
                let ghost previous = self.pixels@;
                self.pixels.set(target, pixels[source]);
                proof {
                    assert forall|r: int, c: int| 0 <= r < th && 0 <= c < tw implies #[trigger] cell(
                        self.pixels@,
                        tw as int,
                        r,
                        c,
                    ) == if in_rect(x as int, y as int, width as int, row as int, r, c) || (r == y + row && x <= c < x
                        + column + 1) {
                        cell(pixels@, width as int, r - y, c - x)
                    } else {
                        cell(before, tw as int, r, c)
                    } by {
                        lemma_cell_index(tw as int, th as int, r, c);
                        if r != y + row || c != x + column {
                            lemma_cell_distinct(tw as int, r, c, (y + row) as int, (x + column) as int);
                            assert(cell(self.pixels@, tw as int, r, c) == cell(previous, tw as int, r, c));
                        } else {
                            assert(r * tw + c == target);
                        }
                    }
                }
                column = column + 1;
            }
            proof {
                assert forall|r: int, c: int| 0 <= r < th && 0 <= c < tw implies #[trigger] cell(
                    self.pixels@,
                    tw as int,
                    r,
                    c,
                ) == if in_rect(x as int, y as int, width as int, row + 1, r, c) {
                    cell(pixels@, width as int, r - y, c - x)
                } else {
                    cell(before, tw as int, r, c)
                } by {
                    assert(in_rect(x as int, y as int, width as int, row + 1, r, c) == (in_rect(
                        x as int,
                        y as int,
                        width as int,
                        row as int,
                        r,
                        c,
                    ) || (r == y + row && x <= c < x + width)));
                }
            }
            row = row + 1;
        }
        self.uploaded = false;
        Ok(())
    }
}

/// "egui texture patch [x, y]..[right, bottom] exceeds WxH texture".
fn exceeds_text(x: usize, y: usize, right: usize, bottom: usize, width: usize, height: usize) -> (r: String)
    ensures
        r@ == exceeds_message(x as nat, y as nat, right as nat, bottom as nat, width as nat, height as nat),
{
    let mut out: Vec<char> = Vec::new();
    push_str(&mut out, "egui texture patch [");
    push_chars(&mut out, &decimal(x as u64));
    push_str(&mut out, ", ");
    push_chars(&mut out, &decimal(y as u64));
    push_str(&mut out, "]..[");
    push_chars(&mut out, &decimal(right as u64));
    push_str(&mut out, ", ");
    push_chars(&mut out, &decimal(bottom as u64));
    push_str(&mut out, "] exceeds ");
    push_chars(&mut out, &decimal(width as u64));
    push_str(&mut out, "x");
    push_chars(&mut out, &decimal(height as u64));
    push_str(&mut out, " texture");
    string_of(&out)
}

} // verus!
