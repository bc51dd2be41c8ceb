//! The heads-up display: a 3x5 bitmap font and the text, bars and
//! screens drawn over the 3D view.

use vstd::prelude::*;
use termray::Framebuffer;
use crate::framebuffer::{fb_clear, fb_get_pixel, fb_height, fb_pixel, fb_pixels, fb_set_pixel, fb_size, fb_width};
use crate::terminal::{Rgb, black};
use crate::rng::gen_range_inclusive;
use rand::rngs::StdRng;

verus! {

/// The 3x5 bitmap of `c`: five rows of three bits, the most significant
/// bit on the left. Letters of either case share a glyph; a character
/// without a glyph is a filled block.
pub open spec fn glyph(c: char) -> Seq<u8> {
    match c {
        'A' | 'a' => seq![0b010u8, 0b101u8, 0b111u8, 0b101u8, 0b101u8],
        'B' | 'b' => seq![0b110u8, 0b101u8, 0b110u8, 0b101u8, 0b110u8],
        'C' | 'c' => seq![0b011u8, 0b100u8, 0b100u8, 0b100u8, 0b011u8],
        'D' | 'd' => seq![0b110u8, 0b101u8, 0b101u8, 0b101u8, 0b110u8],
        'E' | 'e' => seq![0b111u8, 0b100u8, 0b110u8, 0b100u8, 0b111u8],
        'F' | 'f' => seq![0b111u8, 0b100u8, 0b110u8, 0b100u8, 0b100u8],
        'G' | 'g' => seq![0b011u8, 0b100u8, 0b101u8, 0b101u8, 0b011u8],
        'H' | 'h' => seq![0b101u8, 0b101u8, 0b111u8, 0b101u8, 0b101u8],
        'I' | 'i' => seq![0b111u8, 0b010u8, 0b010u8, 0b010u8, 0b111u8],
        'J' | 'j' => seq![0b001u8, 0b001u8, 0b001u8, 0b101u8, 0b010u8],
        'K' | 'k' => seq![0b101u8, 0b110u8, 0b100u8, 0b110u8, 0b101u8],
        'L' | 'l' => seq![0b100u8, 0b100u8, 0b100u8, 0b100u8, 0b111u8],
        'M' | 'm' => seq![0b101u8, 0b111u8, 0b111u8, 0b101u8, 0b101u8],
        'N' | 'n' => seq![0b101u8, 0b111u8, 0b101u8, 0b101u8, 0b101u8],
        'O' | 'o' => seq![0b010u8, 0b101u8, 0b101u8, 0b101u8, 0b010u8],
        'P' | 'p' => seq![0b110u8, 0b101u8, 0b110u8, 0b100u8, 0b100u8],
        'Q' | 'q' => seq![0b010u8, 0b101u8, 0b101u8, 0b110u8, 0b011u8],
        'R' | 'r' => seq![0b110u8, 0b101u8, 0b110u8, 0b101u8, 0b101u8],
        'S' | 's' => seq![0b011u8, 0b100u8, 0b010u8, 0b001u8, 0b110u8],
        'T' | 't' => seq![0b111u8, 0b010u8, 0b010u8, 0b010u8, 0b010u8],
        'U' | 'u' => seq![0b101u8, 0b101u8, 0b101u8, 0b101u8, 0b010u8],
        'V' | 'v' => seq![0b101u8, 0b101u8, 0b101u8, 0b010u8, 0b010u8],
        'W' | 'w' => seq![0b101u8, 0b101u8, 0b111u8, 0b111u8, 0b101u8],
        'X' | 'x' => seq![0b101u8, 0b101u8, 0b010u8, 0b101u8, 0b101u8],
        'Y' | 'y' => seq![0b101u8, 0b101u8, 0b010u8, 0b010u8, 0b010u8],
        'Z' | 'z' => seq![0b111u8, 0b001u8, 0b010u8, 0b100u8, 0b111u8],
        '0' => seq![0b010u8, 0b101u8, 0b101u8, 0b101u8, 0b010u8],
        '1' => seq![0b010u8, 0b110u8, 0b010u8, 0b010u8, 0b111u8],
        '2' => seq![0b110u8, 0b001u8, 0b010u8, 0b100u8, 0b111u8],
        '3' => seq![0b110u8, 0b001u8, 0b010u8, 0b001u8, 0b110u8],
        '4' => seq![0b101u8, 0b101u8, 0b111u8, 0b001u8, 0b001u8],
        '5' => seq![0b111u8, 0b100u8, 0b110u8, 0b001u8, 0b110u8],
        '6' => seq![0b011u8, 0b100u8, 0b110u8, 0b101u8, 0b010u8],
        '7' => seq![0b111u8, 0b001u8, 0b010u8, 0b010u8, 0b010u8],
        '8' => seq![0b010u8, 0b101u8, 0b010u8, 0b101u8, 0b010u8],
        '9' => seq![0b010u8, 0b101u8, 0b011u8, 0b001u8, 0b110u8],
        '.' => seq![0b000u8, 0b000u8, 0b000u8, 0b000u8, 0b010u8],
        '!' => seq![0b010u8, 0b010u8, 0b010u8, 0b000u8, 0b010u8],
        '?' => seq![0b010u8, 0b101u8, 0b010u8, 0b000u8, 0b010u8],
        '*' => seq![0b000u8, 0b101u8, 0b010u8, 0b101u8, 0b000u8],
        '-' => seq![0b000u8, 0b000u8, 0b111u8, 0b000u8, 0b000u8],
        '/' => seq![0b001u8, 0b001u8, 0b010u8, 0b100u8, 0b100u8],
        '[' => seq![0b110u8, 0b100u8, 0b100u8, 0b100u8, 0b110u8],
        ']' => seq![0b011u8, 0b001u8, 0b001u8, 0b001u8, 0b011u8],
        ' ' => seq![0b000u8, 0b000u8, 0b000u8, 0b000u8, 0b000u8],
        _ => seq![0b111u8, 0b111u8, 0b111u8, 0b111u8, 0b111u8],
    }
}

/// 3x5 bitmap font: returns 5 rows, each row 3 bits (MSB = left).
pub fn char_bitmap(c: char) -> (bits: [u8; 5])
    ensures
        bits@ == glyph(c),
{
    match c {
        'A' | 'a' => [0b010u8, 0b101u8, 0b111u8, 0b101u8, 0b101u8],
        'B' | 'b' => [0b110u8, 0b101u8, 0b110u8, 0b101u8, 0b110u8],
        'C' | 'c' => [0b011u8, 0b100u8, 0b100u8, 0b100u8, 0b011u8],
        'D' | 'd' => [0b110u8, 0b101u8, 0b101u8, 0b101u8, 0b110u8],
        'E' | 'e' => [0b111u8, 0b100u8, 0b110u8, 0b100u8, 0b111u8],
        'F' | 'f' => [0b111u8, 0b100u8, 0b110u8, 0b100u8, 0b100u8],
        'G' | 'g' => [0b011u8, 0b100u8, 0b101u8, 0b101u8, 0b011u8],
        'H' | 'h' => [0b101u8, 0b101u8, 0b111u8, 0b101u8, 0b101u8],
        'I' | 'i' => [0b111u8, 0b010u8, 0b010u8, 0b010u8, 0b111u8],
        'J' | 'j' => [0b001u8, 0b001u8, 0b001u8, 0b101u8, 0b010u8],
        'K' | 'k' => [0b101u8, 0b110u8, 0b100u8, 0b110u8, 0b101u8],
        'L' | 'l' => [0b100u8, 0b100u8, 0b100u8, 0b100u8, 0b111u8],
        'M' | 'm' => [0b101u8, 0b111u8, 0b111u8, 0b101u8, 0b101u8],
        'N' | 'n' => [0b101u8, 0b111u8, 0b101u8, 0b101u8, 0b101u8],
        'O' | 'o' => [0b010u8, 0b101u8, 0b101u8, 0b101u8, 0b010u8],
        'P' | 'p' => [0b110u8, 0b101u8, 0b110u8, 0b100u8, 0b100u8],
        'Q' | 'q' => [0b010u8, 0b101u8, 0b101u8, 0b110u8, 0b011u8],
        'R' | 'r' => [0b110u8, 0b101u8, 0b110u8, 0b101u8, 0b101u8],
        'S' | 's' => [0b011u8, 0b100u8, 0b010u8, 0b001u8, 0b110u8],
        'T' | 't' => [0b111u8, 0b010u8, 0b010u8, 0b010u8, 0b010u8],
        'U' | 'u' => [0b101u8, 0b101u8, 0b101u8, 0b101u8, 0b010u8],
        'V' | 'v' => [0b101u8, 0b101u8, 0b101u8, 0b010u8, 0b010u8],
        'W' | 'w' => [0b101u8, 0b101u8, 0b111u8, 0b111u8, 0b101u8],
        'X' | 'x' => [0b101u8, 0b101u8, 0b010u8, 0b101u8, 0b101u8],
        'Y' | 'y' => [0b101u8, 0b101u8, 0b010u8, 0b010u8, 0b010u8],
        'Z' | 'z' => [0b111u8, 0b001u8, 0b010u8, 0b100u8, 0b111u8],
        '0' => [0b010u8, 0b101u8, 0b101u8, 0b101u8, 0b010u8],
        '1' => [0b010u8, 0b110u8, 0b010u8, 0b010u8, 0b111u8],
        '2' => [0b110u8, 0b001u8, 0b010u8, 0b100u8, 0b111u8],
        '3' => [0b110u8, 0b001u8, 0b010u8, 0b001u8, 0b110u8],
        '4' => [0b101u8, 0b101u8, 0b111u8, 0b001u8, 0b001u8],
        '5' => [0b111u8, 0b100u8, 0b110u8, 0b001u8, 0b110u8],
        '6' => [0b011u8, 0b100u8, 0b110u8, 0b101u8, 0b010u8],
        '7' => [0b111u8, 0b001u8, 0b010u8, 0b010u8, 0b010u8],
        '8' => [0b010u8, 0b101u8, 0b010u8, 0b101u8, 0b010u8],
        '9' => [0b010u8, 0b101u8, 0b011u8, 0b001u8, 0b110u8],
        '.' => [0b000u8, 0b000u8, 0b000u8, 0b000u8, 0b010u8],
        '!' => [0b010u8, 0b010u8, 0b010u8, 0b000u8, 0b010u8],
        '?' => [0b010u8, 0b101u8, 0b010u8, 0b000u8, 0b010u8],
        '*' => [0b000u8, 0b101u8, 0b010u8, 0b101u8, 0b000u8],
        '-' => [0b000u8, 0b000u8, 0b111u8, 0b000u8, 0b000u8],
        '/' => [0b001u8, 0b001u8, 0b010u8, 0b100u8, 0b100u8],
        '[' => [0b110u8, 0b100u8, 0b100u8, 0b100u8, 0b110u8],
        ']' => [0b011u8, 0b001u8, 0b001u8, 0b001u8, 0b011u8],
        ' ' => [0b000u8, 0b000u8, 0b000u8, 0b000u8, 0b000u8],
        _ => [0b111u8, 0b111u8, 0b111u8, 0b111u8, 0b111u8],
    }
}

/// Whether column `col` (0 = left) of a glyph row `bits` is lit.
pub open spec fn lit(bits: u8, col: int) -> bool {
    if col == 0 {
        (bits / 4) % 2 == 1
    } else if col == 1 {
        (bits / 2) % 2 == 1
    } else {
        bits % 2 == 1
    }
}

/// Whether column `col` of glyph row `bits` is lit (`bits & (1 << (2 - col))`).
fn bit_lit(bits: u8, col: usize) -> (r: bool)
    requires
        col < 3,
    ensures
        r == lit(bits, col as int),
{
    let shift: u8 = (2 - col) as u8;
    let r = bits & (1u8 << shift) != 0;
    proof {
        if col == 0 {
            assert((bits & (1u8 << 2u8) != 0) == ((bits / 4) % 2 == 1)) by (bit_vector);
        } else if col == 1 {
            assert((bits & (1u8 << 1u8) != 0) == ((bits / 2) % 2 == 1)) by (bit_vector);
        } else {
            assert((bits & (1u8 << 0u8) != 0) == (bits % 2 == 1)) by (bit_vector);
        }
    }
    r
}

/// Text `t` drawn with its top-left corner at `(x0, y0)` (one glyph every
/// four columns) lights pixel `(x, y)`.
pub open spec fn text_lit(t: Seq<char>, x0: int, y0: int, x: int, y: int) -> bool {
    let dx = x - x0;
    let dy = y - y0;
    &&& 0 <= dx
    &&& 0 <= dy < 5
    &&& dx / 4 < t.len()
    &&& dx % 4 < 3
    &&& lit(glyph(t[dx / 4])[dy], dx % 4)
}

/// Draw `text` in the 3x5 font with its top-left corner at `(x0, y0)`, one
/// glyph every four columns; lit pixels outside the framebuffer are dropped.
pub fn draw_chars(fb: &mut Framebuffer, text: &Vec<char>, x0: usize, y0: usize, color: Rgb)
    requires
        x0 + 4 * text@.len() + 4 <= usize::MAX,
        y0 + 5 <= usize::MAX,
    ensures
        fb_size(*final(fb)) == fb_size(*old(fb)),
        fb_pixels(*final(fb)).len() == fb_size(*old(fb)).0 * fb_size(*old(fb)).1,
        forall|x: int, y: int|
            0 <= x < fb_size(*old(fb)).0 && 0 <= y < fb_size(*old(fb)).1 ==> #[trigger] fb_pixel(*final(fb), x, y)
                == if text_lit(text@, x0 as int, y0 as int, x, y) {
                color
            } else {
                fb_pixel(*old(fb), x, y)
            },
{
    let ghost f0 = *fb;
    let w = fb_width(fb);
    let h = fb_height(fb);
    let mut ci: usize = 0;
    while ci < text.len()
        invariant
            0 <= ci <= text@.len(),
            x0 + 4 * text@.len() + 4 <= usize::MAX,
            y0 + 5 <= usize::MAX,
            fb_size(*fb) == fb_size(f0),
            w == fb_size(f0).0,
            h == fb_size(f0).1,
            fb_pixels(*fb).len() == w * h,
            forall|x: int, y: int|
                0 <= x < w && 0 <= y < h ==> #[trigger] fb_pixel(*fb, x, y) == if text_lit(text@, x0 as int, y0 as int, x, y)
                    && (x - x0) / 4 < ci {
                    color
                } else {
                    fb_pixel(f0, x, y)
                },
        decreases text@.len() - ci,
    {
        let ch = text[ci];
        let bitmap = char_bitmap(ch);
        let cx = x0 + ci * 4;
        let mut row: usize = 0;
        while row < 5
            invariant
                ci < text@.len(),
                ch == text@[ci as int],
                bitmap@ == glyph(ch),
                cx == x0 + ci * 4,
                x0 + 4 * text@.len() + 4 <= usize::MAX,
                y0 + 5 <= usize::MAX,
                0 <= row <= 5,
                fb_size(*fb) == fb_size(f0),
                w == fb_size(f0).0,
                h == fb_size(f0).1,
                fb_pixels(*fb).len() == w * h,
                forall|x: int, y: int|
                    0 <= x < w && 0 <= y < h ==> #[trigger] fb_pixel(*fb, x, y) == if text_lit(text@, x0 as int, y0 as int, x, y)
                        && ((x - x0) / 4 < ci || ((x - x0) / 4 == ci && y - y0 < row)) {
                        color
                    } else {
                        fb_pixel(f0, x, y)
                    },
            decreases 5 - row,
        {
            let bits = bitmap[row];
            let mut col: usize = 0;
            while col < 3
                invariant
                    ci < text@.len(),
                    ch == text@[ci as int],
                    bitmap@ == glyph(ch),
                    bits == glyph(ch)[row as int],
                    cx == x0 + ci * 4,
                    x0 + 4 * text@.len() + 4 <= usize::MAX,
                    y0 + 5 <= usize::MAX,
                    0 <= row < 5,
                    0 <= col <= 3,
                    fb_size(*fb) == fb_size(f0),
                    w == fb_size(f0).0,
                    h == fb_size(f0).1,
                    fb_pixels(*fb).len() == w * h,
                    forall|x: int, y: int|
                        0 <= x < w && 0 <= y < h ==> #[trigger] fb_pixel(*fb, x, y) == if text_lit(text@, x0 as int, y0 as int, x, y)
                            && ((x - x0) / 4 < ci || ((x - x0) / 4 == ci && (y - y0 < row || (y - y0 == row && (x - x0) % 4 < col)))) {
                            color
                        } else {
                            fb_pixel(f0, x, y)
                        },
                decreases 3 - col,
            {
                if bit_lit(bits, col) {
                    let px = cx + col;
                    let py = y0 + row;
                    let ghost before = *fb;
                    fb_set_pixel(fb, px, py, color);
                    proof {
                        if px < w && py < h {
                            crate::grid::lemma_index_in_bounds(px as int, py as int, w as int, h as int);
                        }
                        assert(fb_pixels(*fb).len() == fb_pixels(before).len());
                        assert forall|x: int, y: int| 0 <= x < w && 0 <= y < h implies #[trigger] fb_pixel(*fb, x, y) == if text_lit(text@, x0 as int, y0 as int, x, y)
                            && ((x - x0) / 4 < ci || ((x - x0) / 4 == ci && (y - y0 < row || (y - y0 == row && (x - x0) % 4 < col + 1)))) {
                            color
                        } else {
                            fb_pixel(f0, x, y)
                        } by {
                            crate::grid::lemma_index_in_bounds(x, y, w as int, h as int);
                            if px < w && py < h {
                                crate::grid::lemma_index_injective(x, y, px as int, py as int, w as int);
                                crate::grid::lemma_index_in_bounds(px as int, py as int, w as int, h as int);
                            }
                            if x == px && y == py {
                                assert((x - x0) / 4 == ci);
                                assert((x - x0) % 4 == col);
                                assert(fb_pixel(*fb, x, y) == color);
                            } else {
                                assert(fb_pixel(*fb, x, y) == fb_pixel(before, x, y));
                            }
                            assert(fb_pixel(before, x, y) == if text_lit(text@, x0 as int, y0 as int, x, y)
                                && ((x - x0) / 4 < ci || ((x - x0) / 4 == ci && (y - y0 < row || (y - y0 == row && (x - x0) % 4 < col)))) {
                                color
                            } else {
                                fb_pixel(f0, x, y)
                            });
                        }
                    }
                }
                col = col + 1;
            }
            row = row + 1;
        }
        ci = ci + 1;
    }
}

/// The characters of `text`.
pub fn text_chars(text: &str) -> (v: Vec<char>)
    ensures
        v@ == text@,
{
    let mut v: Vec<char> = Vec::new();
    for ch in it: text.chars()
        invariant
            it.seq() == text@,
            v@ == text@.take(it.index() as int),
    {
        v.push(ch);
        assert(v@ == text@.take(it.index() as int + 1));
    }
    assert(text@.take(text@.len() as int) == text@);
    v
}

/// Set pixel `(x, y)` to `c` (nothing happens outside the framebuffer).
pub fn plot(fb: &mut Framebuffer, x: usize, y: usize, c: Rgb)
    requires
        fb_pixels(*old(fb)).len() == fb_size(*old(fb)).0 * fb_size(*old(fb)).1,
    ensures
        fb_size(*final(fb)) == fb_size(*old(fb)),
        fb_pixels(*final(fb)).len() == fb_pixels(*old(fb)).len(),
        forall|a: int, b: int|
            0 <= a < fb_size(*old(fb)).0 && 0 <= b < fb_size(*old(fb)).1 ==> #[trigger] fb_pixel(*final(fb), a, b)
                == if a == x && b == y {
                c
            } else {
                fb_pixel(*old(fb), a, b)
            },
{
    let ghost before = *fb;
    let ghost w = fb_size(before).0 as int;
    let ghost h = fb_size(before).1 as int;
    fb_set_pixel(fb, x, y, c);
    proof {
        if x < w && y < h {
            crate::grid::lemma_index_in_bounds(x as int, y as int, w, h);
        }
        assert forall|a: int, b: int| 0 <= a < w && 0 <= b < h implies #[trigger] fb_pixel(*fb, a, b) == if a == x && b == y { c } else { fb_pixel(before, a, b) } by {
            crate::grid::lemma_index_in_bounds(a, b, w, h);
            if x < w && y < h {
                crate::grid::lemma_index_injective(a, b, x as int, y as int, w);
            }
        }
    }
}

/// Fill the rectangle `[x_lo, x_hi) x [y_lo, y_hi)` with `c` (clipped to
/// the framebuffer).
pub fn fill_rect(fb: &mut Framebuffer, x_lo: usize, x_hi: usize, y_lo: usize, y_hi: usize, c: Rgb)
    requires
        fb_pixels(*old(fb)).len() == fb_size(*old(fb)).0 * fb_size(*old(fb)).1,
    ensures
        fb_size(*final(fb)) == fb_size(*old(fb)),
        fb_pixels(*final(fb)).len() == fb_pixels(*old(fb)).len(),
        forall|a: int, b: int|
            0 <= a < fb_size(*old(fb)).0 && 0 <= b < fb_size(*old(fb)).1 ==> #[trigger] fb_pixel(*final(fb), a, b)
                == if x_lo <= a < x_hi && y_lo <= b < y_hi {
                c
            } else {
                fb_pixel(*old(fb), a, b)
            },
{
    let ghost f0 = *fb;
    let ghost w = fb_size(f0).0 as int;
    let ghost h = fb_size(f0).1 as int;
    let mut y = y_lo;
    while y < y_hi
        invariant
            y_lo <= y,
            y_lo <= y_hi ==> y <= y_hi,
            y_lo > y_hi ==> y == y_lo,
            fb_size(*fb) == fb_size(f0),
            fb_pixels(*fb).len() == fb_pixels(f0).len(),
            fb_pixels(f0).len() == w * h,
            w == fb_size(f0).0,
            h == fb_size(f0).1,
            forall|a: int, b: int|
                0 <= a < w && 0 <= b < h ==> #[trigger] fb_pixel(*fb, a, b) == if x_lo <= a < x_hi && y_lo <= b < y {
                    c
                } else {
                    fb_pixel(f0, a, b)
                },
        decreases y_hi - y,
    {
        let mut x = x_lo;
        while x < x_hi
            invariant
                y_lo <= y < y_hi,
                x_lo <= x,
                x_lo <= x_hi ==> x <= x_hi,
                x_lo > x_hi ==> x == x_lo,
                fb_size(*fb) == fb_size(f0),
                fb_pixels(*fb).len() == fb_pixels(f0).len(),
                fb_pixels(f0).len() == w * h,
                w == fb_size(f0).0,
                h == fb_size(f0).1,
                forall|a: int, b: int|
                    0 <= a < w && 0 <= b < h ==> #[trigger] fb_pixel(*fb, a, b) == if x_lo <= a < x_hi && (y_lo <= b < y || (b == y && a < x)) {
                        c
                    } else {
                        fb_pixel(f0, a, b)
                    },
            decreases x_hi - x,
        {
            plot(fb, x, y, c);
            x = x + 1;
        }
        y = y + 1;
    }
    assert forall|a: int, b: int| 0 <= a < w && 0 <= b < h implies #[trigger] fb_pixel(*fb, a, b) == if x_lo <= a < x_hi && y_lo <= b < y_hi { c } else { fb_pixel(f0, a, b) } by {
        if y_lo <= y_hi {
            assert(y == y_hi);
        }
    }
}

/// Left edge that centres `n` glyph cells (four columns each) on a
/// framebuffer `w` columns wide.
pub open spec fn centered_x(w: int, n: int) -> int {
    if w >= 4 * n {
        (w - 4 * n) / 2
    } else {
        0
    }
}

/// Render `text` horizontally centred (by its byte length) at row `y0`.
pub fn render_centered_text(fb: &mut Framebuffer, text: &str, color: Rgb, y0: usize)
    requires
        fb_size(*old(fb)).0 + 4 * text.len() + 4 * text@.len() + 4 <= usize::MAX,
        y0 + 5 <= usize::MAX,
    ensures
        fb_size(*final(fb)) == fb_size(*old(fb)),
        forall|x: int, y: int|
            0 <= x < fb_size(*old(fb)).0 && 0 <= y < fb_size(*old(fb)).1 ==> #[trigger] fb_pixel(*final(fb), x, y)
                == if text_lit(
                text@,
                centered_x(fb_size(*old(fb)).0 as int, text.len() as int),
                y0 as int,
                x,
                y,
            ) {
                color
            } else {
                fb_pixel(*old(fb), x, y)
            },
{
    let w = fb_width(fb);
    let total_w = text.len() * 4;
    let x0 = w.saturating_sub(total_w) / 2;
    let chars = text_chars(text);
    draw_chars(fb, &chars, x0, y0, color);
}

/// Left edge of the hunger bar.
pub const BAR_MARGIN: usize = 4;
/// Width of the hunger bar in pixels.
pub const BAR_WIDTH: usize = 20;
/// Height of the hunger bar in pixels.
pub const BAR_HEIGHT: usize = 4;

/// Render the hunger bar at the top left: a dark background, `fill_width`
/// columns of `fill` from the left, and a light outline.
pub fn render_hunger_bar(fb: &mut Framebuffer, fill_width: usize, fill: Rgb)
    requires
        fill_width <= usize::MAX - BAR_MARGIN,
    ensures
        fb_size(*final(fb)) == fb_size(*old(fb)),
        forall|x: int, y: int|
            0 <= x < fb_size(*old(fb)).0 && 0 <= y < fb_size(*old(fb)).1 ==> #[trigger] fb_pixel(*final(fb), x, y)
                == if 4 <= x < 24 && 4 <= y < 8 && (y == 4 || y == 7 || x == 4 || x == 23) {
                (Rgb { r: 180, g: 180, b: 180 })
            } else if 4 <= x < 4 + fill_width && 4 <= y < 8 {
                fill
            } else if 4 <= x < 24 && 4 <= y < 8 {
                (Rgb { r: 40, g: 40, b: 40 })
            } else {
                fb_pixel(*old(fb), x, y)
            },
{
    let x0 = BAR_MARGIN;
    let y0 = BAR_MARGIN;
    let _w = fb_width(fb);
    // Background (dark gray).
    fill_rect(fb, x0, x0 + BAR_WIDTH, y0, y0 + BAR_HEIGHT, Rgb { r: 40, g: 40, b: 40 });
    // Fill.
    fill_rect(fb, x0, x0 + fill_width, y0, y0 + BAR_HEIGHT, fill);
    // Border (light outline).
    let border = Rgb { r: 180, g: 180, b: 180 };
    fill_rect(fb, x0, x0 + BAR_WIDTH, y0, y0 + 1, border);
    fill_rect(fb, x0, x0 + BAR_WIDTH, y0 + BAR_HEIGHT - 1, y0 + BAR_HEIGHT, border);
    fill_rect(fb, x0, x0 + 1, y0, y0 + BAR_HEIGHT, border);
    fill_rect(fb, x0 + BAR_WIDTH - 1, x0 + BAR_WIDTH, y0, y0 + BAR_HEIGHT, border);
}

/// Top row of the bottom message: six rows of text plus an eight-row margin
/// above the bottom edge.
pub open spec fn message_y(h: int) -> int {
    if h >= 14 {
        h - 14
    } else {
        0
    }
}

/// The black strip behind a message of `n` bytes drawn at `(x0, y0)`.
pub open spec fn in_message_strip(w: int, h: int, n: int, x0: int, y0: int, x: int, y: int) -> bool {
    let x_lo = if x0 >= 4 { x0 - 4 } else { 0 };
    let x_hi = if x0 + 4 * n + 4 < w { x0 + 4 * n + 4 } else { w };
    let y_lo = if y0 >= 2 { y0 - 2 } else { 0 };
    let y_hi = if y0 + 6 < h - 1 { y0 + 6 } else { h - 1 };
    x_lo <= x < x_hi && y_lo <= y <= y_hi
}

/// Render a text message centred near the bottom on a black strip.
pub fn render_message(fb: &mut Framebuffer, text: &str, color: Rgb)
    requires
        fb_size(*old(fb)).1 >= 1,
        fb_size(*old(fb)).0 + 4 * text.len() + 4 * text@.len() + 8 <= usize::MAX,
    ensures
        fb_size(*final(fb)) == fb_size(*old(fb)),
        ({
            let w = fb_size(*old(fb)).0 as int;
            let h = fb_size(*old(fb)).1 as int;
            let x0 = centered_x(w, text.len() as int);
            let y0 = message_y(h);
            forall|x: int, y: int|
                0 <= x < w && 0 <= y < h ==> #[trigger] fb_pixel(*final(fb), x, y) == if text_lit(text@, x0, y0, x, y) {
                    color
                } else if in_message_strip(w, h, text.len() as int, x0, y0, x, y) {
                    black()
                } else {
                    fb_pixel(*old(fb), x, y)
                }
        }),
{
    let char_w: usize = 4;
    let char_h: usize = 6;
    let w = fb_width(fb);
    let h = fb_height(fb);
    let total_w = text.len() * char_w;
    let x0 = w.saturating_sub(total_w) / 2;
    let y0 = h.saturating_sub(char_h + 8);
    // Background strip.
    let y_lo = y0.saturating_sub(2);
    let y_hi = if y0 + char_h < h - 1 { y0 + char_h } else { h - 1 };
    let x_lo = x0.saturating_sub(4);
    let x_hi = if x0 + total_w + 4 < w { x0 + total_w + 4 } else { w };
    fill_rect(fb, x_lo, x_hi, y_lo, y_hi + 1, Rgb { r: 0, g: 0, b: 0 });
    // The text in the 3x5 font.
    let chars = text_chars(text);
    draw_chars(fb, &chars, x0, y0, color);
}

/// Render the "[Y] Retry  [N] Quit" prompt near the bottom.
pub fn render_retry_prompt(fb: &mut Framebuffer)
    requires
        fb_size(*old(fb)).1 >= 12,
        fb_size(*old(fb)).0 + 256 <= usize::MAX,
    ensures
        fb_size(*final(fb)) == fb_size(*old(fb)),
        forall|x: int, y: int|
            0 <= x < fb_size(*old(fb)).0 && 0 <= y < fb_size(*old(fb)).1 ==> #[trigger] fb_pixel(*final(fb), x, y)
                == if text_lit(
                ("[Y] Retry  [N] Quit")@,
                centered_x(fb_size(*old(fb)).0 as int, 19),
                fb_size(*old(fb)).1 - 12,
                x,
                y,
            ) {
                (Rgb { r: 160, g: 160, b: 160 })
            } else {
                fb_pixel(*old(fb), x, y)
            },
{
    let text = "[Y] Retry  [N] Quit";
    proof {
        reveal_strlit("[Y] Retry  [N] Quit");
        vstd::string::is_ascii_spec_bytes(text);
    }
    assert(text.len() == 19);
    let h = fb_height(fb);
    render_centered_text(fb, text, Rgb { r: 160, g: 160, b: 160 }, h - 12);
}

/// Render the game-over screen `timer_ms` milliseconds after dying: the
/// title in red, and from two seconds on the retry prompt.
pub fn render_game_over_screen(fb: &mut Framebuffer, timer_ms: u64)
    requires
        fb_size(*old(fb)).1 >= 8,
        timer_ms >= 2000 ==> fb_size(*old(fb)).1 >= 12,
        fb_size(*old(fb)).0 + 256 <= usize::MAX,
    ensures
        fb_size(*final(fb)) == fb_size(*old(fb)),
        forall|x: int, y: int|
            0 <= x < fb_size(*old(fb)).0 && 0 <= y < fb_size(*old(fb)).1 ==> #[trigger] fb_pixel(*final(fb), x, y)
                == if timer_ms >= 2000 && text_lit(
                ("[Y] Retry  [N] Quit")@,
                centered_x(fb_size(*old(fb)).0 as int, 19),
                fb_size(*old(fb)).1 - 12,
                x,
                y,
            ) {
                (Rgb { r: 160, g: 160, b: 160 })
            } else if text_lit(
                ("You can no longer move...")@,
                centered_x(fb_size(*old(fb)).0 as int, 25),
                fb_size(*old(fb)).1 / 2 - 4,
                x,
                y,
            ) {
                (Rgb { r: 255, g: 80, b: 80 })
            } else {
                fb_pixel(*old(fb), x, y)
            },
{
    let text = "You can no longer move...";
    proof {
        reveal_strlit("You can no longer move...");
        vstd::string::is_ascii_spec_bytes(text);
    }
    assert(text@.len() == 25);
    assert(text.len() == 25);
    let h = fb_height(fb);
    render_centered_text(fb, text, Rgb { r: 255, g: 80, b: 80 }, h / 2 - 4);
    if timer_ms >= 2000 {
        render_retry_prompt(fb);
    }
}

/// The decimal digit `d` as a character.
pub open spec fn digit_char(d: int) -> char {
    if d == 0 {
        '0'
    } else if d == 1 {
        '1'
    } else if d == 2 {
        '2'
    } else if d == 3 {
        '3'
    } else if d == 4 {
        '4'
    } else if d == 5 {
        '5'
    } else if d == 6 {
        '6'
    } else if d == 7 {
        '7'
    } else if d == 8 {
        '8'
    } else {
        '9'
    }
}

/// The decimal representation of `n`, without leading zeros.
pub open spec fn decimal(n: nat) -> Seq<char>
    decreases n,
{
    if n < 10 {
        seq![digit_char(n as int)]
    } else {
        decimal(n / 10).push(digit_char((n % 10) as int))
    }
}

/// A decimal number never takes more than twenty characters.
proof fn lemma_decimal_len(n: nat)
    requires
        n <= u64::MAX,
    ensures
        1 <= decimal(n).len() <= 20,
        n < 10 ==> decimal(n).len() == 1,
{
    assert(pow10(20) == 100000000000000000000nat) by {
        reveal_with_fuel(pow10, 21);
    }
    lemma_decimal_len_bound(n, 20);
}

proof fn lemma_decimal_len_bound(n: nat, k: nat)
    requires
        k >= 1,
        n < pow10(k),
    ensures
        1 <= decimal(n).len() <= k,
    decreases n,
{
    if n >= 10 {
        assert(n / 10 < pow10((k - 1) as nat)) by {
            if k == 1 {
                assert(pow10(1) == 10) by {
                    reveal_with_fuel(pow10, 2);
                }
            }
            assert(pow10(k) == 10 * pow10((k - 1) as nat));
        }
        if k == 1 {
            assert(pow10(1) == 10) by {
                reveal_with_fuel(pow10, 2);
            }
        }
        lemma_decimal_len_bound(n / 10, (k - 1) as nat);
    }
}

/// Ten to the power `k`.
spec fn pow10(k: nat) -> nat
    decreases k,
{
    if k == 0 {
        1
    } else {
        10 * pow10((k - 1) as nat)
    }
}

/// The decimal digit `d` as a character.
fn digit(d: u64) -> (c: char)
    requires
        d < 10,
    ensures
        c == digit_char(d as int),
{
    if d == 0 {
        '0'
    } else if d == 1 {
        '1'
    } else if d == 2 {
        '2'
    } else if d == 3 {
        '3'
    } else if d == 4 {
        '4'
    } else if d == 5 {
        '5'
    } else if d == 6 {
        '6'
    } else if d == 7 {
        '7'
    } else if d == 8 {
        '8'
    } else {
        '9'
    }
}

/// Append the decimal representation of `n` to `out`.
pub fn push_decimal(out: &mut Vec<char>, n: u64)
    ensures
        final(out)@ == old(out)@ + decimal(n as nat),
    decreases n,
{
    if n >= 10 {
        push_decimal(out, n / 10);
    }
    out.push(digit(n % 10));
    proof {
        if n < 10 {
            assert(n % 10 == n);
        }
    }
}

/// The floor label, such as "2F".
pub open spec fn floor_label(current: nat) -> Seq<char> {
    decimal(current).push('F')
}

/// The floor whose dot sits at `(x, y)`, for dots in columns `dot_x` and
/// `dot_x + 1`, three rows apart from row 10 down, the top floor first.
pub open spec fn floor_dot(total: int, dot_x: int, x: int, y: int) -> Option<int> {
    if (x == dot_x || x == dot_x + 1) && y >= 10 && (y - 10) % 3 == 0 && (y - 10) / 3 < total {
        Some(total - 1 - (y - 10) / 3)
    } else {
        None
    }
}

/// Colour of the floor label: brighter above the ground floor.
pub open spec fn floor_label_color(current: int) -> Rgb {
    if current > 1 {
        Rgb { r: 200, g: 180, b: 100 }
    } else {
        Rgb { r: 140, g: 140, b: 140 }
    }
}

/// Render the floor indicator below the hunger bar ("2F") and one dot per
/// floor beside it, like an elevator panel: the ground floor at the bottom,
/// the dot of floor `current_floor` (counted from 1) lit.
pub fn render_floor_indicator(fb: &mut Framebuffer, current_floor: usize, total_floors: usize)
    requires
        3 * total_floors + 10 <= usize::MAX,
        fb_size(*old(fb)).0 + 256 <= usize::MAX,
    ensures
        fb_size(*final(fb)) == fb_size(*old(fb)),
        ({
            let label = floor_label(current_floor as nat);
            let dot_x = 4 + 4 * label.len() as int + 2;
            forall|x: int, y: int|
                0 <= x < fb_size(*old(fb)).0 && 0 <= y < fb_size(*old(fb)).1 ==> #[trigger] fb_pixel(*final(fb), x, y)
                    == if text_lit(label, 4, 10, x, y) {
                    floor_label_color(current_floor as int)
                } else {
                    match floor_dot(total_floors as int, dot_x, x, y) {
                        Some(f) => if f + 1 == current_floor {
                            Rgb { r: 255, g: 200, b: 50 }
                        } else {
                            Rgb { r: 80, g: 80, b: 80 }
                        },
                        None => fb_pixel(*old(fb), x, y),
                    }
                }
        }),
{
    let ghost f0 = *fb;
    let w = fb_width(fb);
    let h = fb_height(fb);
    let mut text: Vec<char> = Vec::new();
    push_decimal(&mut text, current_floor as u64);
    text.push('F');
    proof {
        lemma_decimal_len(current_floor as nat);
        assert(text@ == floor_label(current_floor as nat));
    }
    let char_w: usize = 4;
    let x0 = BAR_MARGIN;
    let y0 = BAR_MARGIN + BAR_HEIGHT + 2;
    let color = if current_floor > 1 {
        Rgb { r: 200, g: 180, b: 100 }
    } else {
        Rgb { r: 140, g: 140, b: 140 }
    };
    draw_chars(fb, &text, x0, y0, color);
    let ghost f1 = *fb;
    // One dot per floor, the top floor first.
    let dot_x = x0 + text.len() * char_w + 2;
    let mut f: usize = 0;
    while f < total_floors
        invariant
            0 <= f <= total_floors,
            3 * total_floors + 10 <= usize::MAX,
            dot_x == 4 + 4 * text@.len() + 2,
            text@.len() <= 21,
            y0 == 10,
            fb_size(*fb) == fb_size(f0),
            fb_size(f1) == fb_size(f0),
            w == fb_size(f0).0,
            h == fb_size(f0).1,
            fb_pixels(*fb).len() == w * h,
            forall|x: int, y: int|
                0 <= x < w && 0 <= y < h ==> #[trigger] fb_pixel(*fb, x, y) == match floor_dot(total_floors as int, dot_x as int, x, y) {
                    Some(g) => if g < f {
                        if g + 1 == current_floor {
                            Rgb { r: 255, g: 200, b: 50 }
                        } else {
                            Rgb { r: 80, g: 80, b: 80 }
                        }
                    } else {
                        fb_pixel(f1, x, y)
                    },
                    None => fb_pixel(f1, x, y),
                },
        decreases total_floors - f,
    {
        let dot_y = y0 + (total_floors - 1 - f) * 3;
        let dot_color = if f + 1 == current_floor {
            Rgb { r: 255, g: 200, b: 50 }
        } else {
            Rgb { r: 80, g: 80, b: 80 }
        };
        let ghost before = *fb;
        if dot_x < w && dot_y < h {
            plot(fb, dot_x, dot_y, dot_color);
            if dot_x + 1 < w {
                plot(fb, dot_x + 1, dot_y, dot_color);
            }
        }
        proof {
            assert forall|x: int, y: int| 0 <= x < w && 0 <= y < h implies #[trigger] fb_pixel(*fb, x, y) == match floor_dot(total_floors as int, dot_x as int, x, y) {
                Some(g) => if g < f + 1 {
                    if g + 1 == current_floor {
                        Rgb { r: 255, g: 200, b: 50 }
                    } else {
                        Rgb { r: 80, g: 80, b: 80 }
                    }
                } else {
                    fb_pixel(f1, x, y)
                },
                None => fb_pixel(f1, x, y),
            } by {
                assert(fb_pixel(before, x, y) == match floor_dot(total_floors as int, dot_x as int, x, y) {
                    Some(g) => if g < f {
                        if g + 1 == current_floor {
                            Rgb { r: 255, g: 200, b: 50 }
                        } else {
                            Rgb { r: 80, g: 80, b: 80 }
                        }
                    } else {
                        fb_pixel(f1, x, y)
                    },
                    None => fb_pixel(f1, x, y),
                });
                if (x == dot_x || x == dot_x + 1) && y == dot_y {
                    assert((y - 10) / 3 == total_floors - 1 - f);
                    assert((y - 10) % 3 == 0);
                } else if floor_dot(total_floors as int, dot_x as int, x, y) is Some {
                    assert(total_floors - 1 - (y - 10) / 3 != f);
                }
            }
        }
        f = f + 1;
    }
    proof {
        assert forall|x: int, y: int| 0 <= x < w && 0 <= y < h && floor_dot(total_floors as int, dot_x as int, x, y) is Some implies !text_lit(text@, 4, 10, x, y) by {
        }
    }
}

/// Render the characters `text` horizontally centred at row `y0`.
pub fn render_centered_chars(fb: &mut Framebuffer, text: &Vec<char>, color: Rgb, y0: usize)
    requires
        fb_size(*old(fb)).0 + 8 * text@.len() + 4 <= usize::MAX,
        y0 + 5 <= usize::MAX,
    ensures
        fb_size(*final(fb)) == fb_size(*old(fb)),
        fb_pixels(*final(fb)).len() == fb_size(*old(fb)).0 * fb_size(*old(fb)).1,
        forall|x: int, y: int|
            0 <= x < fb_size(*old(fb)).0 && 0 <= y < fb_size(*old(fb)).1 ==> #[trigger] fb_pixel(*final(fb), x, y)
                == if text_lit(text@, centered_x(fb_size(*old(fb)).0 as int, text@.len() as int), y0 as int, x, y) {
                color
            } else {
                fb_pixel(*old(fb), x, y)
            },
{
    let w = fb_width(fb);
    let total_w = text.len() * 4;
    let x0 = w.saturating_sub(total_w) / 2;
    draw_chars(fb, text, x0, y0, color);
}

/// The title of the escape screen `timer_ms` milliseconds in.
pub open spec fn clear_title(timer_ms: int) -> Seq<char> {
    if timer_ms < 1500 {
        ("no biscuit...")@
    } else if timer_ms < 3000 {
        ("...nobiscuit...")@
    } else {
        ("...nobisuke.")@
    }
}

/// Colour of the escape screen's title `timer_ms` milliseconds in.
pub open spec fn clear_title_color(timer_ms: int) -> Rgb {
    if timer_ms < 3000 {
        Rgb { r: 200, g: 255, b: 200 }
    } else {
        Rgb { r: 255, g: 255, b: 200 }
    }
}

/// "Biscuits  N".
pub open spec fn biscuits_line(b: nat) -> Seq<char> {
    ("Biscuits  ")@ + decimal(b)
}

/// "Survived  Mm Ss" for `secs` seconds.
pub open spec fn survived_line(secs: nat) -> Seq<char> {
    ("Survived  ")@ + decimal(secs / 60) + ("m ")@ + decimal(secs % 60) + ("s")@
}

/// "Floors  N".
pub open spec fn floors_line(f: nat) -> Seq<char> {
    ("Floors  ")@ + decimal(f)
}

/// Render the escape screen `timer_ms` milliseconds after escaping: the
/// title reveals "no biscuit..." then "...nobiscuit..." then
/// "...nobisuke." (each 1.5 s); from 4.5 s on the score follows (biscuits
/// eaten, time survived, floors visited), and from 6 s the retry prompt.
pub fn render_clear_screen(
    fb: &mut Framebuffer,
    timer_ms: u64,
    biscuits_eaten: u32,
    elapsed_secs: u32,
    floors_visited: usize,
)
    requires
        fb_size(*old(fb)).1 >= 20,
        fb_size(*old(fb)).0 + 1024 <= usize::MAX,
        fb_size(*old(fb)).1 + 64 <= usize::MAX,
    ensures
        fb_size(*final(fb)) == fb_size(*old(fb)),
        ({
            let w = fb_size(*old(fb)).0 as int;
            let h = fb_size(*old(fb)).1 as int;
            let cy = h / 2 - 10;
            let score = timer_ms >= 4500;
            let gray = Rgb { r: 180, g: 180, b: 180 };
            forall|x: int, y: int|
                0 <= x < w && 0 <= y < h ==> #[trigger] fb_pixel(*final(fb), x, y) == if timer_ms >= 6000
                    && text_lit(("[Y] Retry  [N] Quit")@, centered_x(w, 19), h - 12, x, y) {
                    Rgb { r: 160, g: 160, b: 160 }
                } else if score && text_lit(
                    floors_line(floors_visited as nat),
                    centered_x(w, floors_line(floors_visited as nat).len() as int),
                    cy + 26,
                    x,
                    y,
                ) {
                    gray
                } else if score && text_lit(
                    survived_line(elapsed_secs as nat),
                    centered_x(w, survived_line(elapsed_secs as nat).len() as int),
                    cy + 18,
                    x,
                    y,
                ) {
                    gray
                } else if score && text_lit(
                    biscuits_line(biscuits_eaten as nat),
                    centered_x(w, biscuits_line(biscuits_eaten as nat).len() as int),
                    cy + 10,
                    x,
                    y,
                ) {
                    gray
                } else if text_lit(
                    clear_title(timer_ms as int),
                    centered_x(w, clear_title(timer_ms as int).len() as int),
                    cy,
                    x,
                    y,
                ) {
                    clear_title_color(timer_ms as int)
                } else {
                    fb_pixel(*old(fb), x, y)
                }
        }),
{
    let h = fb_height(fb);
    let center_y = h / 2 - 10;
    let mut title = text_chars("...nobisuke.");
    let mut title_color = Rgb { r: 255, g: 255, b: 200 };
    if timer_ms < 1500 {
        title = text_chars("no biscuit...");
        title_color = Rgb { r: 200, g: 255, b: 200 };
    } else if timer_ms < 3000 {
        title = text_chars("...nobiscuit...");
        title_color = Rgb { r: 200, g: 255, b: 200 };
    }
    proof {
        reveal_strlit("no biscuit...");
        reveal_strlit("...nobiscuit...");
        reveal_strlit("...nobisuke.");
    }
    assert(title@ == clear_title(timer_ms as int));
    render_centered_chars(fb, &title, title_color, center_y);
    if timer_ms >= 4500 {
        let score_y = center_y + 10;
        let score_color = Rgb { r: 180, g: 180, b: 180 };
        let mut line = text_chars("Biscuits  ");
        push_decimal(&mut line, biscuits_eaten as u64);
        proof {
            reveal_strlit("Biscuits  ");
            lemma_decimal_len(biscuits_eaten as nat);
        }
        render_centered_chars(fb, &line, score_color, score_y);
        let mut line = text_chars("Survived  ");
        push_decimal(&mut line, (elapsed_secs / 60) as u64);
        let mut unit = text_chars("m ");
        line.append(&mut unit);
        push_decimal(&mut line, (elapsed_secs % 60) as u64);
        line.push('s');
        proof {
            reveal_strlit("Survived  ");
            reveal_strlit("m ");
            reveal_strlit("s");
            lemma_decimal_len((elapsed_secs / 60) as nat);
            lemma_decimal_len((elapsed_secs % 60) as nat);
            assert(line@ == survived_line(elapsed_secs as nat));
        }
        render_centered_chars(fb, &line, score_color, score_y + 8);
        let mut line = text_chars("Floors  ");
        push_decimal(&mut line, floors_visited as u64);
        proof {
            reveal_strlit("Floors  ");
            lemma_decimal_len(floors_visited as nat);
        }
        render_centered_chars(fb, &line, score_color, score_y + 16);
    }
    if timer_ms >= 6000 {
        render_retry_prompt(fb);
    }
}

/// Text `t` drawn three times enlarged with its top-left corner at
/// `(x0, y0)` (one glyph every twelve columns) lights pixel `(x, y)`.
pub open spec fn big_text_lit(t: Seq<char>, x0: int, y0: int, x: int, y: int) -> bool {
    let dx = x - x0;
    let dy = y - y0;
    &&& 0 <= dx
    &&& 0 <= dy < 15
    &&& dx / 12 < t.len()
    &&& (dx % 12) / 3 < 3
    &&& lit(glyph(t[dx / 12])[dy / 3], (dx % 12) / 3)
}

/// Draw `text` in the 3x5 font enlarged three times (each font pixel a 3x3
/// block), top-left corner at `(x0, y0)`, one glyph every twelve columns.
pub fn draw_big_chars(fb: &mut Framebuffer, text: &Vec<char>, x0: usize, y0: usize, color: Rgb)
    requires
        x0 + 12 * text@.len() + 12 <= usize::MAX,
        y0 + 15 <= usize::MAX,
        fb_pixels(*old(fb)).len() == fb_size(*old(fb)).0 * fb_size(*old(fb)).1,
    ensures
        fb_size(*final(fb)) == fb_size(*old(fb)),
        fb_pixels(*final(fb)).len() == fb_pixels(*old(fb)).len(),
        forall|x: int, y: int|
            0 <= x < fb_size(*old(fb)).0 && 0 <= y < fb_size(*old(fb)).1 ==> #[trigger] fb_pixel(*final(fb), x, y)
                == if big_text_lit(text@, x0 as int, y0 as int, x, y) {
                color
            } else {
                fb_pixel(*old(fb), x, y)
            },
{
    let ghost f0 = *fb;
    let ghost w = fb_size(f0).0 as int;
    let ghost h = fb_size(f0).1 as int;
    let scale: usize = 3;
    let char_w: usize = 4 * scale;
    let mut ci: usize = 0;
    while ci < text.len()
        invariant
            0 <= ci <= text@.len(),
            scale == 3,
            char_w == 12,
            x0 + 12 * text@.len() + 12 <= usize::MAX,
            y0 + 15 <= usize::MAX,
            fb_size(*fb) == fb_size(f0),
            fb_pixels(*fb).len() == fb_pixels(f0).len(),
            fb_pixels(f0).len() == w * h,
            w == fb_size(f0).0,
            h == fb_size(f0).1,
            forall|x: int, y: int|
                0 <= x < w && 0 <= y < h ==> #[trigger] fb_pixel(*fb, x, y) == if big_text_lit(text@, x0 as int, y0 as int, x, y)
                    && (x - x0) / 12 < ci {
                    color
                } else {
                    fb_pixel(f0, x, y)
                },
        decreases text@.len() - ci,
    {
        let ch = text[ci];
        let bitmap = char_bitmap(ch);
        let cx = x0 + ci * char_w;
        let mut row: usize = 0;
        while row < 5
            invariant
                ci < text@.len(),
                ch == text@[ci as int],
                bitmap@ == glyph(ch),
                cx == x0 + ci * 12,
                scale == 3,
                char_w == 12,
                x0 + 12 * text@.len() + 12 <= usize::MAX,
                y0 + 15 <= usize::MAX,
                0 <= row <= 5,
                fb_size(*fb) == fb_size(f0),
                fb_pixels(*fb).len() == fb_pixels(f0).len(),
                fb_pixels(f0).len() == w * h,
                w == fb_size(f0).0,
                h == fb_size(f0).1,
                forall|x: int, y: int|
                    0 <= x < w && 0 <= y < h ==> #[trigger] fb_pixel(*fb, x, y) == if big_text_lit(text@, x0 as int, y0 as int, x, y)
                        && ((x - x0) / 12 < ci || ((x - x0) / 12 == ci && (y - y0) / 3 < row)) {
                        color
                    } else {
                        fb_pixel(f0, x, y)
                    },
            decreases 5 - row,
        {
            let bits = bitmap[row];
            let mut col: usize = 0;
            while col < 3
                invariant
                    ci < text@.len(),
                    ch == text@[ci as int],
                    bitmap@ == glyph(ch),
                    bits == glyph(ch)[row as int],
                    cx == x0 + ci * 12,
                    scale == 3,
                    char_w == 12,
                    x0 + 12 * text@.len() + 12 <= usize::MAX,
                    y0 + 15 <= usize::MAX,
                    0 <= row < 5,
                    0 <= col <= 3,
                    fb_size(*fb) == fb_size(f0),
                    fb_pixels(*fb).len() == fb_pixels(f0).len(),
                    fb_pixels(f0).len() == w * h,
                    w == fb_size(f0).0,
                    h == fb_size(f0).1,
                    forall|x: int, y: int|
                        0 <= x < w && 0 <= y < h ==> #[trigger] fb_pixel(*fb, x, y) == if big_text_lit(text@, x0 as int, y0 as int, x, y)
                            && ((x - x0) / 12 < ci || ((x - x0) / 12 == ci && ((y - y0) / 3 < row || ((y - y0) / 3 == row && ((x - x0) % 12) / 3 < col)))) {
                            color
                        } else {
                            fb_pixel(f0, x, y)
                        },
                decreases 3 - col,
            {
                let on = bit_lit(bits, col);
                let ghost before = *fb;
                if on {
                    // A scale x scale block for this font pixel.
                    let px = cx + col * scale;
                    let py = y0 + row * scale;
                    fill_rect(fb, px, px + scale, py, py + scale, color);
                }
                proof {
                    assert forall|x: int, y: int| 0 <= x < w && 0 <= y < h implies #[trigger] fb_pixel(*fb, x, y) == if big_text_lit(text@, x0 as int, y0 as int, x, y)
                        && ((x - x0) / 12 < ci || ((x - x0) / 12 == ci && ((y - y0) / 3 < row || ((y - y0) / 3 == row && ((x - x0) % 12) / 3 < col + 1)))) {
                        color
                    } else {
                        fb_pixel(f0, x, y)
                    } by {
                        let px = cx + col * 3;
                        let py = y0 + row * 3;
                        if px <= x < px + 3 && py <= y < py + 3 {
                            assert((x - x0) / 12 == ci);
                            assert(((x - x0) % 12) / 3 == col);
                            assert((y - y0) / 3 == row);
                        } else {
                            assert(fb_pixel(*fb, x, y) == fb_pixel(before, x, y));
                            if x >= x0 && (x - x0) / 12 == ci && y >= y0 && (y - y0) / 3 == row {
                                assert(((x - x0) % 12) / 3 != col);
                            }
                        }
                    }
                }
                col = col + 1;
            }
            row = row + 1;
        }
        ci = ci + 1;
    }
}

/// The pixel of a shifted picture: what sat `(dx, dy)` up-left of `(x, y)`
/// in `fb`, black where that falls outside.
pub open spec fn shifted_pixel(fb: Framebuffer, dx: int, dy: int, x: int, y: int) -> Rgb {
    fb_pixel(fb, x - dx, y - dy)
}

/// Shift every pixel by `(dx, dy)`, filling the uncovered edge with black.
pub fn shift_framebuffer(fb: &mut Framebuffer, dx: i32, dy: i32)
    requires
        fb_size(*old(fb)).0 <= i32::MAX,
        fb_size(*old(fb)).1 <= i32::MAX,
        fb_size(*old(fb)).0 - dx <= i32::MAX,
        fb_size(*old(fb)).1 - dy <= i32::MAX,
        dx > i32::MIN,
        dy > i32::MIN,
        fb_size(*old(fb)).0 * fb_size(*old(fb)).1 <= usize::MAX,
    ensures
        fb_size(*final(fb)) == fb_size(*old(fb)),
        fb_pixels(*final(fb)).len() == fb_pixels(*old(fb)).len(),
        forall|x: int, y: int|
            0 <= x < fb_size(*old(fb)).0 && 0 <= y < fb_size(*old(fb)).1 ==> #[trigger] fb_pixel(*final(fb), x, y)
                == shifted_pixel(*old(fb), dx as int, dy as int, x, y),
{
    let ghost f0 = *fb;
    let w = fb_width(fb);
    let h = fb_height(fb);
    let n = w * h;
    // Read all pixels into a temporary buffer.
    let mut tmp: Vec<Rgb> = Vec::new();
    let mut i: usize = 0;
    while i < n
        invariant
            0 <= i <= w * h,
            n == w * h,
            w == fb_size(f0).0,
            h == fb_size(f0).1,
            *fb == f0,
            fb_pixels(f0).len() == w * h,
            w <= i32::MAX,
            h <= i32::MAX,
            w - dx <= i32::MAX,
            h - dy <= i32::MAX,
            dx > i32::MIN,
            dy > i32::MIN,
            tmp@.len() == i,
            forall|k: int| 0 <= k < i ==> #[trigger] tmp@[k] == shifted_pixel(f0, dx as int, dy as int, k % (w as int), k / (w as int)),
        decreases w * h - i,
    {
        assert(i / w < h) by (nonlinear_arith)
            requires
                i < w * h,
                w > 0,
        ;
        let x = i % w;
        let y = i / w;
        let sx = x as i32 - dx;
        let sy = y as i32 - dy;
        let mut c = Rgb { r: 0, g: 0, b: 0 };
        if sx >= 0 && sx < w as i32 && sy >= 0 && sy < h as i32 {
            c = fb_get_pixel(fb, sx as usize, sy as usize);
        }
        tmp.push(c);
        i = i + 1;
    }
    // Write it back.
    let mut i: usize = 0;
    while i < n
        invariant
            0 <= i <= w * h,
            n == w * h,
            w == fb_size(f0).0,
            h == fb_size(f0).1,
            fb_size(*fb) == fb_size(f0),
            fb_pixels(*fb).len() == w * h,
            fb_pixels(f0).len() == w * h,
            tmp@.len() == w * h,
            forall|k: int| 0 <= k < w * h ==> #[trigger] tmp@[k] == shifted_pixel(f0, dx as int, dy as int, k % (w as int), k / (w as int)),
            forall|x: int, y: int|
                0 <= x < w && 0 <= y < h ==> #[trigger] fb_pixel(*fb, x, y) == if y * w + x < i {
                    shifted_pixel(f0, dx as int, dy as int, x, y)
                } else {
                    fb_pixel(f0, x, y)
                },
        decreases w * h - i,
    {
        assert(i / w < h) by (nonlinear_arith)
            requires
                i < w * h,
                w > 0,
        ;
        let x = i % w;
        let y = i / w;
        proof {
            crate::grid::lemma_index_decode(i as int, w as int);
        }
        let ghost before = *fb;
        plot(fb, x, y, tmp[i]);
        proof {
            assert forall|a: int, b: int| 0 <= a < w && 0 <= b < h implies #[trigger] fb_pixel(*fb, a, b) == if b * w + a < i + 1 {
                shifted_pixel(f0, dx as int, dy as int, a, b)
            } else {
                fb_pixel(f0, a, b)
            } by {
                crate::grid::lemma_index_injective(a, b, x as int, y as int, w as int);
                if a == x && b == y {
                    assert(i == y * w + x);
                } else {
                    assert(fb_pixel(*fb, a, b) == fb_pixel(before, a, b));
                }
            }
        }
        i = i + 1;
    }
    proof {
        assert forall|x: int, y: int| 0 <= x < w && 0 <= y < h implies #[trigger] fb_pixel(*fb, x, y) == shifted_pixel(f0, dx as int, dy as int, x, y) by {
            crate::grid::lemma_index_in_bounds(x, y, w as int, h as int);
        }
    }
}

/// Colour of the spin count: gray at zero, then white, yellow, and red
/// beyond ten spins.
pub open spec fn spin_color(spins: int) -> Rgb {
    if spins == 0 {
        Rgb { r: 120, g: 120, b: 120 }
    } else if spins <= 4 {
        Rgb { r: 200, g: 200, b: 200 }
    } else if spins <= 10 {
        Rgb { r: 255, g: 200, b: 50 }
    } else {
        Rgb { r: 255, g: 80, b: 80 }
    }
}

/// The instruction under the spin count.
pub open spec fn garagara_prompt(spins: int) -> Seq<char> {
    if spins == 0 {
        ("Press any key to spin")@
    } else {
        ("Press any key to spin / Enter to start")@
    }
}

/// The opening screen before any shake: black, the spin count enlarged in
/// the centre, and the instruction near the bottom.
pub open spec fn garagara_picture(w: int, h: int, spins: nat, x: int, y: int) -> Rgb {
    let digits = decimal(spins);
    let x0 = if w >= 12 * digits.len() { (w - 12 * digits.len()) / 2 } else { 0 };
    let y0 = if h >= 15 { (h - 15) / 2 } else { 0 };
    let p = garagara_prompt(spins as int);
    if text_lit(p, centered_x(w, p.len() as int), if h >= 12 { h - 12 } else { 0 }, x, y) {
        Rgb { r: 160, g: 160, b: 160 }
    } else if big_text_lit(digits, x0, y0, x, y) {
        spin_color(spins as int)
    } else {
        black()
    }
}

/// Render one frame of the lottery-machine opening screen: the number of
/// spins so far in large digits and the instruction, shifted by `shake`
/// while the machine shakes.
pub fn render_garagara_frame(fb: &mut Framebuffer, spins: u32, shake: Option<(i32, i32)>)
    requires
        fb_size(*old(fb)).0 <= i32::MAX,
        fb_size(*old(fb)).1 <= i32::MAX,
        fb_size(*old(fb)).0 * fb_size(*old(fb)).1 <= usize::MAX,
        fb_size(*old(fb)).0 + 1024 <= usize::MAX,
        fb_size(*old(fb)).1 + 64 <= usize::MAX,
        shake matches Some((dx, dy)) ==> {
            &&& fb_size(*old(fb)).0 - dx <= i32::MAX
            &&& fb_size(*old(fb)).1 - dy <= i32::MAX
            &&& dx > i32::MIN
            &&& dy > i32::MIN
        },
    ensures
        fb_size(*final(fb)) == fb_size(*old(fb)),
        ({
            let w = fb_size(*old(fb)).0 as int;
            let h = fb_size(*old(fb)).1 as int;
            forall|x: int, y: int|
                0 <= x < w && 0 <= y < h ==> #[trigger] fb_pixel(*final(fb), x, y) == match shake {
                    None => garagara_picture(w, h, spins as nat, x, y),
                    Some((dx, dy)) => if 0 <= x - dx < w && 0 <= y - dy < h {
                        garagara_picture(w, h, spins as nat, x - dx, y - dy)
                    } else {
                        black()
                    },
                }
        }),
{
    let ghost gw = fb_size(*fb).0 as int;
    let ghost gh = fb_size(*fb).1 as int;
    fb_clear(fb, Rgb { r: 0, g: 0, b: 0 });
    let w = fb_width(fb);
    let h = fb_height(fb);
    let ghost f_clear = *fb;
    // The spin count, three times enlarged, in the centre.
    let mut text: Vec<char> = Vec::new();
    push_decimal(&mut text, spins as u64);
    proof {
        lemma_decimal_len(spins as nat);
    }
    let scale: usize = 3;
    let char_w = 4 * scale;
    let char_h = 5 * scale;
    let total_w = text.len() * char_w;
    let x0 = w.saturating_sub(total_w) / 2;
    let y0 = h.saturating_sub(char_h) / 2;
    let digit_color = if spins == 0 {
        Rgb { r: 120, g: 120, b: 120 }
    } else if spins <= 4 {
        Rgb { r: 200, g: 200, b: 200 }
    } else if spins <= 10 {
        Rgb { r: 255, g: 200, b: 50 }
    } else {
        Rgb { r: 255, g: 80, b: 80 }
    };
    draw_big_chars(fb, &text, x0, y0, digit_color);
    // The instruction near the bottom.
    let prompt = if spins == 0 {
        "Press any key to spin"
    } else {
        "Press any key to spin / Enter to start"
    };
    proof {
        reveal_strlit("Press any key to spin");
        reveal_strlit("Press any key to spin / Enter to start");
        vstd::string::is_ascii_spec_bytes(prompt);
    }
    assert(prompt@ == garagara_prompt(spins as int));
    assert(prompt.len() == prompt@.len());
    let prompt_y = h.saturating_sub(12);
    render_centered_text(fb, prompt, Rgb { r: 160, g: 160, b: 160 }, prompt_y);
    proof {
        assert forall|x: int, y: int| 0 <= x < gw && 0 <= y < gh implies #[trigger] fb_pixel(*fb, x, y) == garagara_picture(gw, gh, spins as nat, x, y) by {
            crate::grid::lemma_index_in_bounds(x, y, gw, gh);
            assert(fb_pixel(f_clear, x, y) == black());
        }
    }
    // Camera shake.
    match shake {
        Some((dx, dy)) => {
            let _w = fb_width(fb);
            shift_framebuffer(fb, dx, dy);
        },
        None => {},
    }
}

/// Render the lottery-machine opening screen; while `shaking`, the picture
/// is shifted by a random offset of at most two pixels each way (the pixels
/// shifted in are black).
pub fn render_garagara_screen(fb: &mut Framebuffer, spins: u32, shaking: bool, rng: &mut StdRng)
    requires
        fb_size(*old(fb)).0 + 2 <= i32::MAX,
        fb_size(*old(fb)).1 + 2 <= i32::MAX,
        fb_size(*old(fb)).0 * fb_size(*old(fb)).1 <= usize::MAX,
    ensures
        fb_size(*final(fb)) == fb_size(*old(fb)),
        exists|dx: int, dy: int|
            -2 <= dx <= 2 && -2 <= dy <= 2 && (!shaking ==> dx == 0 && dy == 0) && #[trigger] shaken_garagara(
                *final(fb),
                fb_size(*old(fb)).0 as int,
                fb_size(*old(fb)).1 as int,
                spins as nat,
                dx,
                dy,
            ),
{
    let ghost gw = fb_size(*fb).0 as int;
    let ghost gh = fb_size(*fb).1 as int;
    let shake = if shaking {
        let dx = gen_range_inclusive(rng, 0, 4) as i32 - 2;
        let dy = gen_range_inclusive(rng, 0, 4) as i32 - 2;
        Some((dx, dy))
    } else {
        None
    };
    render_garagara_frame(fb, spins, shake);
    proof {
        match shake {
            Some((dx, dy)) => {
                assert(shaken_garagara(*fb, gw, gh, spins as nat, dx as int, dy as int));
            },
            None => {
                assert(shaken_garagara(*fb, gw, gh, spins as nat, 0, 0));
            },
        }
    }
}

/// Every pixel of the `w` x `h` framebuffer `fb` shows the opening picture
/// shifted by `(dx, dy)`, black where the shift brings in nothing.
pub open spec fn shaken_garagara(fb: Framebuffer, w: int, h: int, spins: nat, dx: int, dy: int) -> bool {
    forall|x: int, y: int|
        0 <= x < w && 0 <= y < h ==> #[trigger] fb_pixel(fb, x, y) == if 0 <= x - dx < w && 0 <= y - dy < h {
            garagara_picture(w, h, spins, x - dx, y - dy)
        } else {
            black()
        }
}

/// The number that the digit characters of `s` spell in base ten.
pub open spec fn numeral_value(s: Seq<char>) -> int
    decreases s.len(),
{
    if s.len() == 0 {
        0
    } else {
        numeral_value(s.drop_last()) * 10 + (s.last() as int - '0' as int)
    }
}

/// `decimal(n)` is the base-ten numeral of `n`: it is made of the digits
/// `'0'` to `'9'`, and read back it gives `n`.
pub proof fn lemma_decimal_reads_back(n: nat)
    ensures
        forall|i: int| 0 <= i < decimal(n).len() ==> '0' <= #[trigger] decimal(n)[i] <= '9',
        numeral_value(decimal(n)) == n,
    decreases n,
{
    let d = n % 10;
    assert(digit_char(d as int) as int == '0' as int + d);
    if n < 10 {
        assert(decimal(n) == seq![digit_char(n as int)]);
        assert(decimal(n).drop_last() =~= Seq::<char>::empty());
        assert(numeral_value(decimal(n)) == numeral_value(decimal(n).drop_last()) * 10 + (decimal(n).last() as int - '0' as int));
        assert(numeral_value(Seq::<char>::empty()) == 0);
        assert(n % 10 == n);
    } else {
        lemma_decimal_reads_back(n / 10);
        let s = decimal(n / 10).push(digit_char(d as int));
        assert(decimal(n) == s);
        assert(s.drop_last() =~= decimal(n / 10));
        assert(numeral_value(s) == numeral_value(s.drop_last()) * 10 + (s.last() as int - '0' as int));
        assert(n == (n / 10) * 10 + d);
        assert forall|i: int| 0 <= i < s.len() implies '0' <= #[trigger] s[i] <= '9' by {
            if i < s.len() - 1 {
                assert(s[i] == decimal(n / 10)[i]);
            }
        }
    }
}

/// A numeral has no leading zero: zero is written "0", and every other
/// number starts with a digit other than `'0'`.
pub proof fn lemma_decimal_no_leading_zero(n: nat)
    ensures
        n == 0 ==> decimal(n) == seq!['0'],
        n > 0 ==> decimal(n)[0] != '0',
        decimal(n).len() >= 1,
    decreases n,
{
    if n >= 10 {
        lemma_decimal_no_leading_zero(n / 10);
        assert(decimal(n)[0] == decimal(n / 10)[0]);
    }
}

/// Different numbers have different numerals.
pub proof fn lemma_decimal_injective(a: nat, b: nat)
    ensures
        decimal(a) == decimal(b) ==> a == b,
{
    lemma_decimal_reads_back(a);
    lemma_decimal_reads_back(b);
}

/// The floor panel is stacked like an elevator's: the dot of floor `f`
/// (counted from 0) is at row `10 + 3 * (total - 1 - f)`, so the ground floor
/// is the lowest dot and a higher floor always sits above a lower one; no
/// other row holds a dot.
pub proof fn lemma_floor_dot_rows(total: int, dot_x: int, x: int, y: int, f: int, g: int)
    ensures
        0 <= f < total && (x == dot_x || x == dot_x + 1) ==> floor_dot(total, dot_x, x, 10 + 3 * (total - 1 - f))
            == Some(f),
        floor_dot(total, dot_x, x, y) == Some(f) ==> 0 <= f < total && y == 10 + 3 * (total - 1 - f),
        0 <= f < g < total ==> 10 + 3 * (total - 1 - g) < 10 + 3 * (total - 1 - f),
{
    if 0 <= f < total {
        let r = total - 1 - f;
        assert((3 * r) % 3 == 0 && (3 * r) / 3 == r) by (nonlinear_arith)
            requires
                r >= 0,
        ;
        assert(10 + 3 * r - 10 == 3 * r);
    }
    if floor_dot(total, dot_x, x, y) == Some(f) {
        let q = (y - 10) / 3;
        assert(y - 10 == 3 * q) by (nonlinear_arith)
            requires
                y - 10 >= 0,
                (y - 10) % 3 == 0,
                q == (y - 10) / 3,
        ;
        assert(0 <= q);
    }
}

} // verus!
