//! The raycasting engine's framebuffer, as the HUD and the terminal see it.
//!
//! Every item here calls the `termray` crate. Its `Framebuffer` keeps a
//! `width` x `height` grid of colours in row-major order; reads outside the
//! grid give black and writes outside it are ignored.

use vstd::prelude::*;
use termray::{Color, Framebuffer};
use crate::terminal::{Rgb, black};

verus! {

/// The engine's framebuffer.
#[verifier::external_type_specification]
#[verifier::external_body]
pub struct ExFramebuffer(Framebuffer);

/// The pixels of `fb`, row-major, as `(r, g, b)`.
pub uninterp spec fn fb_pixels(fb: Framebuffer) -> Seq<(u8, u8, u8)>;

/// The `(width, height)` that `fb` was made with.
pub uninterp spec fn fb_size(fb: Framebuffer) -> (usize, usize);

/// The colour `(r, g, b)`.
pub open spec fn rgb_from(t: (u8, u8, u8)) -> Rgb {
    Rgb { r: t.0, g: t.1, b: t.2 }
}

/// Pixel `(x, y)` of `fb`, black outside the grid.
pub open spec fn fb_pixel(fb: Framebuffer, x: int, y: int) -> Rgb {
    if 0 <= x < fb_size(fb).0 && 0 <= y < fb_size(fb).1 {
        rgb_from(fb_pixels(fb)[y * fb_size(fb).0 + x])
    } else {
        black()
    }
}

/// A colour as the framebuffer stores it.
pub open spec fn rgb_tuple(c: Rgb) -> (u8, u8, u8) {
    (c.r, c.g, c.b)
}

/// `Framebuffer::width`. Claimed: the width `fb` was made with, and the
/// pixel store holds width x height pixels (`Framebuffer::new` allocates
/// that many and no method changes the count).
#[verifier::external_body]
pub fn fb_width(fb: &Framebuffer) -> (w: usize)
    ensures
        w == fb_size(*fb).0,
        fb_pixels(*fb).len() == w * fb_size(*fb).1,
{
    fb.width()
}

/// `Framebuffer::height`. Claimed: the height `fb` was made with, and the
/// pixel store holds width x height pixels.
#[verifier::external_body]
pub fn fb_height(fb: &Framebuffer) -> (h: usize)
    ensures
        h == fb_size(*fb).1,
        fb_pixels(*fb).len() == fb_size(*fb).0 * h,
{
    fb.height()
}

/// `Framebuffer::get_pixel`. Claimed: the stored colour at `(x, y)`, or
/// black (`Color::default()`) outside the grid.
#[verifier::external_body]
pub fn fb_get_pixel(fb: &Framebuffer, x: usize, y: usize) -> (c: Rgb)
    ensures
        c == fb_pixel(*fb, x as int, y as int),
{
    let p = fb.get_pixel(x, y);
    Rgb { r: p.r, g: p.g, b: p.b }
}

/// `Framebuffer::set_pixel`. Claimed: the colour at `(x, y)` becomes `c`
/// when `(x, y)` is inside the grid; nothing changes otherwise.
#[verifier::external_body]
pub fn fb_set_pixel(fb: &mut Framebuffer, x: usize, y: usize, c: Rgb)
    ensures
        fb_size(*final(fb)) == fb_size(*old(fb)),
        fb_pixels(*final(fb)) == if x < fb_size(*old(fb)).0 && y < fb_size(*old(fb)).1 {
            fb_pixels(*old(fb)).update(y * fb_size(*old(fb)).0 + x, rgb_tuple(c))
        } else {
            fb_pixels(*old(fb))
        },
{
    fb.set_pixel(x, y, Color { r: c.r, g: c.g, b: c.b })
}

/// `Framebuffer::clear`. Claimed: every pixel becomes `c`.
#[verifier::external_body]
pub fn fb_clear(fb: &mut Framebuffer, c: Rgb)
    ensures
        fb_size(*final(fb)) == fb_size(*old(fb)),
        fb_pixels(*final(fb)) == Seq::new(fb_pixels(*old(fb)).len(), |i: int| rgb_tuple(c)),
{
    fb.clear(Color { r: c.r, g: c.g, b: c.b })
}

} // verus!
