//! Per-tile variation for wall textures.

use vstd::prelude::*;
use vstd::wrapping::u32_specs::{wrapping_add, wrapping_mul};

verus! {

/// The tile hash, in 32-bit wrapping arithmetic: multiply-add the two
/// coordinates by odd constants, then mix with shifts and another multiply.
pub open spec fn tile_hash_spec(x: i32, y: i32) -> u32 {
    let h1 = wrapping_add(wrapping_mul(x as u32, 374761393), wrapping_mul(y as u32, 668265263));
    let h2 = h1 ^ (h1 >> 13u32);
    let h3 = wrapping_mul(h2, 1274126177);
    h3 ^ (h3 >> 16u32)
}

/// Simple integer hash for tile coordinates, so that walls vary from tile
/// to tile without storing anything.
pub fn tile_hash(x: i32, y: i32) -> (h: u32)
    ensures
        h == tile_hash_spec(x, y),
{
    let mut h = (x as u32).wrapping_mul(374761393);
    h = h.wrapping_add((y as u32).wrapping_mul(668265263));
    h ^= h >> 13;
    h = h.wrapping_mul(1274126177);
    h ^= h >> 16;
    h
}

/// Wrapping multiplication is the product cut to 32 bits.
proof fn lemma_wrapping_mul_cut(a: u32, c: u32)
    ensures
        wrapping_mul(a, c) == (a * c) as u32,
{
    assert(wrapping_mul(a, c) == (a * c) as u32) by (bit_vector);
}

/// Multiplying by an odd constant, wrapping, keeps values apart.
proof fn lemma_mul_odd_injective(a: u32, b: u32, c: u32)
    requires
        c == 374761393u32 || c == 668265263u32 || c == 1274126177u32,
        wrapping_mul(a, c) == wrapping_mul(b, c),
    ensures
        a == b,
{
    lemma_wrapping_mul_cut(a, c);
    lemma_wrapping_mul_cut(b, c);
    if c == 374761393u32 {
        assert(a == b) by (bit_vector)
            requires
                (a * 374761393u32) as u32 == (b * 374761393u32) as u32,
        ;
    } else if c == 668265263u32 {
        assert(a == b) by (bit_vector)
            requires
                (a * 668265263u32) as u32 == (b * 668265263u32) as u32,
        ;
    } else {
        assert(a == b) by (bit_vector)
            requires
                (a * 1274126177u32) as u32 == (b * 1274126177u32) as u32,
        ;
    }
}

/// Wrapping addition of the same term keeps values apart.
proof fn lemma_add_injective(a: u32, b: u32, c: u32)
    requires
        wrapping_add(a, c) == wrapping_add(b, c) || wrapping_add(c, a) == wrapping_add(c, b),
    ensures
        a == b,
{
    assert(wrapping_add(a, c) == (a + c) as u32 && wrapping_add(b, c) == (b + c) as u32) by (bit_vector);
    assert(wrapping_add(c, a) == (c + a) as u32 && wrapping_add(c, b) == (c + b) as u32) by (bit_vector);
    assert(a == b) by (bit_vector)
        requires
            (a + c) as u32 == (b + c) as u32 || (c + a) as u32 == (c + b) as u32,
    ;
}

/// Mixing a value with itself shifted right keeps values apart.
proof fn lemma_shift_mix_injective(a: u32, b: u32)
    ensures
        a ^ (a >> 13u32) == b ^ (b >> 13u32) ==> a == b,
        a ^ (a >> 16u32) == b ^ (b >> 16u32) ==> a == b,
{
    assert(a ^ (a >> 13u32) == b ^ (b >> 13u32) ==> a == b) by (bit_vector);
    assert(a ^ (a >> 16u32) == b ^ (b >> 16u32) ==> a == b) by (bit_vector);
}

/// Every step after the first multiply-add keeps values apart, so tiles
/// with equal hashes have equal multiply-add sums.
proof fn lemma_hash_mix_injective(x1: i32, y1: i32, x2: i32, y2: i32)
    requires
        tile_hash_spec(x1, y1) == tile_hash_spec(x2, y2),
    ensures
        wrapping_add(wrapping_mul(x1 as u32, 374761393), wrapping_mul(y1 as u32, 668265263)) == wrapping_add(
            wrapping_mul(x2 as u32, 374761393),
            wrapping_mul(y2 as u32, 668265263),
        ),
{
    let a1 = wrapping_add(wrapping_mul(x1 as u32, 374761393), wrapping_mul(y1 as u32, 668265263));
    let a2 = a1 ^ (a1 >> 13u32);
    let a3 = wrapping_mul(a2, 1274126177);
    let b1 = wrapping_add(wrapping_mul(x2 as u32, 374761393), wrapping_mul(y2 as u32, 668265263));
    let b2 = b1 ^ (b1 >> 13u32);
    let b3 = wrapping_mul(b2, 1274126177);
    lemma_shift_mix_injective(a3, b3);
    lemma_mul_odd_injective(a2, b2, 1274126177);
    lemma_shift_mix_injective(a1, b1);
}

/// Two tiles of one row never share a hash, nor do two tiles of one column:
/// each step of the hash (multiplying by an odd constant, adding, mixing with
/// a right shift) loses nothing in 32-bit arithmetic.
pub proof fn lemma_tile_hash_injective(x1: i32, y1: i32, x2: i32, y2: i32)
    ensures
        tile_hash_spec(x1, y1) == tile_hash_spec(x2, y1) ==> x1 == x2,
        tile_hash_spec(x1, y1) == tile_hash_spec(x1, y2) ==> y1 == y2,
{
    if tile_hash_spec(x1, y1) == tile_hash_spec(x2, y1) {
        lemma_hash_mix_injective(x1, y1, x2, y1);
        lemma_add_injective(wrapping_mul(x1 as u32, 374761393), wrapping_mul(x2 as u32, 374761393), wrapping_mul(y1 as u32, 668265263));
        lemma_mul_odd_injective(x1 as u32, x2 as u32, 374761393);
        assert(x1 == x2) by (bit_vector)
            requires
                x1 as u32 == x2 as u32,
        ;
    }
    if tile_hash_spec(x1, y1) == tile_hash_spec(x1, y2) {
        lemma_hash_mix_injective(x1, y1, x1, y2);
        lemma_add_injective(wrapping_mul(y1 as u32, 668265263), wrapping_mul(y2 as u32, 668265263), wrapping_mul(x1 as u32, 374761393));
        lemma_mul_odd_injective(y1 as u32, y2 as u32, 668265263);
        assert(y1 == y2) by (bit_vector)
            requires
                y1 as u32 == y2 as u32,
        ;
    }
}

} // verus!
