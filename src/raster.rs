//! Pixel order, image buffers and text frames.
use vstd::prelude::*;
use crate::color::Color;
use crate::key::KEY_NEG_ZERO;

verus! {

/// The key of the binary32 value nearest to 0.2.
pub const KEY_ONE_FIFTH: i32 = 1045220557;

/// The key of 0.5.
pub const KEY_ONE_HALF: i32 = 1056964608;

/// The key of the binary32 value nearest to 0.8.
pub const KEY_FOUR_FIFTHS: i32 = 1061997773;

/// The pixel that comes at position `i` of the evaluation order, which runs
/// down each column in turn: `(i / height, i % height)`.
pub fn pixel_at(i: usize, width: usize, height: usize) -> (p: (usize, usize))
    requires
        i < width * height,
    ensures
        p.0 == i / height,
        p.1 == i % height,
        p.0 < width,
        p.1 < height,
        p.0 * height + p.1 == i,
{
    proof {
        assert(height > 0) by (nonlinear_arith)
            requires
                i < width * height,
        ;
        assert(i / height < width) by (nonlinear_arith)
            requires
                i < width * height,
                height > 0,
        ;
        assert((i / height) * height + i % height == i) by (nonlinear_arith)
            requires
                height > 0,
        ;
    }
    (i / height, i % height)
}

/// The row that the camera sees at image row `y`: image rows run down, the
/// camera's rows run up.
pub fn camera_row(y: usize, height: usize) -> (v: usize)
    requires
        y < height,
    ensures
        v == height - y - 1,
{
    height - y - 1
}

/// The position in the evaluation order of the pixel at column `j % width`
/// and row `j / width`.
pub open spec fn source_of(j: int, width: int, height: int) -> int {
    (j % width) * height + j / width
}

/// The row-major RGB bytes of an image whose pixels come in evaluation order
/// (see `pixel_at`): the pixel at column `x`, row `y` is `pixels[x * height + y]`.
pub fn image_bytes(width: usize, height: usize, pixels: &Vec<Color>) -> (out: Vec<u8>)
    requires
        pixels.len() == width * height,
        3 * (width * height) <= usize::MAX,
    ensures
        out.len() == 3 * (width * height),
        forall|j: int, c: int|
            0 <= j < width * height && 0 <= c < 3 ==> #[trigger] out[3 * j + c] == pixels[source_of(
                j,
                width as int,
                height as int,
            )].channel(c),
{
    let n = width * height;
    let mut out: Vec<u8> = Vec::new();
    let mut j: usize = 0;
    while j < n
        invariant
            n == width * height,
            pixels.len() == n,
            3 * n <= usize::MAX,
            j <= n,
            out.len() == 3 * j,
            forall|k: int, c: int|
                0 <= k < j && 0 <= c < 3 ==> #[trigger] out[3 * k + c] == pixels[source_of(
                    k,
                    width as int,
                    height as int,
                )].channel(c),
        decreases n - j,
    {
        proof {
            assert(width > 0) by (nonlinear_arith)
                requires
                    j < width * height,
            ;
            assert((j % width) * height + j / width < width * height) by (nonlinear_arith)
                requires
                    j < width * height,
                    width > 0,
            ;
        }
        let x = j % width;
        let y = j / width;
        let p = pixels[x * height + y];
        out.push(p.r);
        out.push(p.g);
        out.push(p.b);
        proof {
            assert forall|k: int, c: int|
                0 <= k < j + 1 && 0 <= c < 3 implies #[trigger] out[3 * k + c] == pixels[source_of(
                    k,
                    width as int,
                    height as int,
                )].channel(c) by {
                if k < j {
                    assert(3 * k + c < 3 * j);
                }
            }
        }
        j = j + 1;
    }
    out
}

/// The glyph of one text-mode pixel, from the key of its light intensity:
/// blank below zero, then `.`, `*`, `O` from the thresholds 0.2, 0.5 and 0.8
/// up, and `#` at 0.8 and above.
pub open spec fn glyph_of(intensity: i32) -> char {
    if intensity < KEY_NEG_ZERO {
        ' '
    } else if intensity < KEY_ONE_FIFTH {
        '.'
    } else if intensity < KEY_ONE_HALF {
        '*'
    } else if intensity < KEY_FOUR_FIFTHS {
        'O'
    } else {
        '#'
    }
}

pub fn glyph(intensity: i32) -> (g: char)
    ensures
        g == glyph_of(intensity),
{
    if intensity < KEY_NEG_ZERO {
        ' '
    } else if intensity < KEY_ONE_FIFTH {
        '.'
    } else if intensity < KEY_ONE_HALF {
        '*'
    } else if intensity < KEY_FOUR_FIFTHS {
        'O'
    } else {
        '#'
    }
}

/// The character at position `j` of a text frame: each row of `width` glyphs
/// is followed by a line break.
pub open spec fn frame_char(glyphs: Seq<char>, width: int, j: int) -> char {
    if j % (width + 1) == width {
        '\n'
    } else {
        glyphs[(j / (width + 1)) * width + j % (width + 1)]
    }
}

/// The text of a frame whose glyphs are given row by row.
pub fn text_frame(width: usize, height: usize, glyphs: &Vec<char>) -> (out: Vec<char>)
    requires
        glyphs.len() == width * height,
        (width + 1) * height <= usize::MAX,
    ensures
        out.len() == (width + 1) * height,
        forall|j: int| 0 <= j < out.len() ==> #[trigger] out[j] == frame_char(glyphs@, width as int, j),
{
    let mut out: Vec<char> = Vec::new();
    let mut y: usize = 0;
    while y < height
        invariant
            glyphs.len() == width * height,
            (width + 1) * height <= usize::MAX,
            y <= height,
            out.len() == (width + 1) * y,
            forall|j: int| 0 <= j < out.len() ==> #[trigger] out[j] == frame_char(glyphs@, width as int, j),
        decreases height - y,
    {
        proof {
            assert((width + 1) * (y + 1) <= (width + 1) * height) by (nonlinear_arith)
                requires
                    y < height,
            ;
        }
        let mut x: usize = 0;
        while x < width
            invariant
                glyphs.len() == width * height,
                (width + 1) * (y + 1) <= usize::MAX,
                y < height,
                x <= width,
                out.len() == (width + 1) * y + x,
                forall|j: int| 0 <= j < out.len() ==> #[trigger] out[j] == frame_char(glyphs@, width as int, j),
            decreases width - x,
        {
            proof {
                assert(y * width + x < width * height) by (nonlinear_arith)
                    requires
                        y < height,
                        x < width,
                ;
                let j = (width + 1) * y + x;
                assert(j % (width + 1) == x && j / (width + 1) == y) by (nonlinear_arith)
                    requires
                        j == (width + 1) * y + x,
                        x < width,
                ;
            }
            out.push(glyphs[y * width + x]);
            x = x + 1;
        }
        proof {
            let j = (width + 1) * y + width;
            assert(j % (width + 1) == width) by (nonlinear_arith)
                requires
                    j == (width + 1) * y + width,
            ;
        }
        out.push('\n');
        proof {
            assert((width + 1) * y + width + 1 == (width + 1) * (y + 1)) by (nonlinear_arith);
        }
        y = y + 1;
    }
    out
}

} // verus!
