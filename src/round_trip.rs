//! What decoding recovers from an encoded raster.
use vstd::prelude::*;
use crate::colour::{Colour, expand, quantize, transparent, lemma_palette_alpha};
use crate::decode::{
    block_palette, be16, be32, decodable, decoded_pixel, header_dimensions, index_at,
    DIMENSIONS_AT,
};
use crate::encode::{
    block_encodes, dist, encodable, is_clear, is_encoding, is_highest, is_lowest, is_nearest,
    walk_block_pixels, square_pixels,
};
use crate::raster::{Raster, pixel_at, width_of, height_of};
use crate::tile::{block_count, block_of, tile_coord, lemma_block_of};

verus! {

/// Whether the visible pixels among `px` take at most two 5-6-5 values.
pub open spec fn two_tone(px: Seq<Colour>) -> bool {
    forall|a: int, b: int, c: int|
        0 <= a < px.len() && 0 <= b < px.len() && 0 <= c < px.len() && !is_clear(#[trigger] px[a])
            && !is_clear(#[trigger] px[b]) && !is_clear(#[trigger] px[c]) ==> quantize(px[a]) == quantize(px[b])
            || quantize(px[a]) == quantize(px[c]) || quantize(px[b]) == quantize(px[c])
}

/// Whether a colour is opaque and exactly a 5-6-5 colour expanded.
pub open spec fn representable(p: Colour) -> bool {
    p.a == 255 && expand(quantize(p)) == p
}

proof fn lemma_extreme(px: Seq<Colour>, k: int)
    requires
        two_tone(px),
        0 <= k < px.len(),
        !is_clear(px[k]),
    ensures
        is_lowest(px, quantize(px[k])) || is_highest(px, quantize(px[k])),
{
    let q = quantize(px[k]);
    if !is_lowest(px, q) {
        let m = choose|m: int| 0 <= m < px.len() && !is_clear(#[trigger] px[m]) && !(q <= quantize(px[m]));
        assert forall|m2: int| 0 <= m2 < px.len() && !is_clear(#[trigger] px[m2]) implies quantize(px[m2]) <= q by {
            assert(!is_clear(px[k]) && !is_clear(px[m]) && !is_clear(px[m2]));
        }
    }
}

proof fn lemma_zero_distance_to_self(p: Colour)
    ensures
        dist(p, p) == 0,
{
    reveal(dist);
}

proof fn lemma_zero_distance(p: Colour, c: Colour)
    requires
        dist(p, c) <= 0,
        p.a == 255,
        c.a == 255,
    ensures
        c == p,
{
    reveal(dist);
    let (dr, dg, db) = (p.r - c.r, p.g - c.g, p.b - c.b);
    assert(dr * dr >= 0 && dg * dg >= 0 && db * db >= 0) by (nonlinear_arith);
    assert(dr == 0) by (nonlinear_arith)
        requires
            dr * dr <= 0,
    ;
    assert(dg == 0) by (nonlinear_arith)
        requires
            dg * dg <= 0,
    ;
    assert(db == 0) by (nonlinear_arith)
        requires
            db * db <= 0,
    ;
}

/// Decoding, from `start` on, what `encode_into` wrote for a raster gives
/// back the raster's
/// dimensions and, pixel by pixel: transparent black for every fully
/// transparent pixel and an opaque colour for every other. Where moreover
/// each block's visible pixels take at most two 5-6-5 values and are exactly
/// representable in 5-6-5, every visible pixel comes back unchanged.
#[verifier::rlimit(40)]
pub proof fn decode_after_encode(img: Raster, s: Seq<u8>, start: int)
    requires
        is_encoding(img, s, start),
        encodable(width_of(img) as int, height_of(img) as int),
    ensures
        s.len() >= DIMENSIONS_AT + 4,
        header_dimensions(s) == (width_of(img) as int, height_of(img) as int),
        start + 8 * block_count(width_of(img) as int, height_of(img) as int) <= s.len(),
        width_of(img) * height_of(img) * 4 <= usize::MAX ==> decodable(
            width_of(img) as int,
            height_of(img) as int,
        ),
        forall|x: int, y: int|
            0 <= x < width_of(img) && 0 <= y < height_of(img) ==> {
                let d = #[trigger] decoded_pixel(s, start, width_of(img) as int, x, y);
                &&& is_clear(pixel_at(img, x, y)) ==> d == transparent()
                &&& !is_clear(pixel_at(img, x, y)) ==> d.a == 255
            },
        (forall|i: int|
            0 <= i < block_count(width_of(img) as int, height_of(img) as int) ==> two_tone(
                #[trigger] walk_block_pixels(img, i),
            )) && (forall|x: int, y: int|
            0 <= x < width_of(img) && 0 <= y < height_of(img) && !is_clear(#[trigger] pixel_at(img, x, y))
                ==> representable(pixel_at(img, x, y))) ==> forall|x: int, y: int|
            0 <= x < width_of(img) && 0 <= y < height_of(img) && !is_clear(pixel_at(img, x, y)) ==> #[trigger] decoded_pixel(
                s,
                start,
                width_of(img) as int,
                x,
                y,
            ) == pixel_at(img, x, y),
{
    let w = width_of(img) as int;
    let h = height_of(img) as int;
    reveal(is_encoding);
    assert forall|x: int, y: int| 0 <= x < w && 0 <= y < h implies {
        let d = #[trigger] decoded_pixel(s, start, w, x, y);
        &&& is_clear(pixel_at(img, x, y)) ==> d == transparent()
        &&& !is_clear(pixel_at(img, x, y)) ==> d.a == 255
    } by {
        lemma_pixel(img, s, start, x, y);
    }
    if (forall|i: int| 0 <= i < block_count(w, h) ==> two_tone(#[trigger] walk_block_pixels(img, i))) && (forall|
        x: int,
        y: int,
    |
        0 <= x < w && 0 <= y < h && !is_clear(#[trigger] pixel_at(img, x, y)) ==> representable(
            pixel_at(img, x, y),
        )) {
        assert forall|x: int, y: int|
            0 <= x < w && 0 <= y < h && !is_clear(pixel_at(img, x, y)) implies #[trigger] decoded_pixel(
            s,
            start,
            w,
            x,
            y,
        ) == pixel_at(img, x, y) by {
            lemma_pixel(img, s, start, x, y);
            let i = block_of(w, x, y);
            let k = (y % 4) * 4 + x % 4;
            let px = walk_block_pixels(img, i);
            assert(two_tone(px));
            lemma_extreme(px, k);
            let at = start + 8 * i;
            let (c0, c1) = (be16(s, at), be16(s, at + 2));
            let p = pixel_at(img, x, y);
            let pal = block_palette(s, at);
            lemma_palette_alpha(c0, c1);
            let idx = index_at(be32(s, at + 4) as u32, k);
            assert(representable(p));
            assert(quantize(p) == c0 || quantize(p) == c1);
            if quantize(p) == c0 {
                assert(pal[0] == p);
                assert(dist(p, pal[idx]) <= dist(p, pal[0]));
            } else {
                assert(pal[1] == p);
                assert(dist(p, pal[idx]) <= dist(p, pal[1]));
            }
            lemma_zero_distance_to_self(p);
            lemma_zero_distance(p, pal[idx]);
        }
    }
}

/// Pixel `(x, y)` is pixel `(y % 4) * 4 + x % 4` of the block that the
/// walk stores for it, and that block was encoded faithfully.
#[verifier::rlimit(40)]
proof fn lemma_pixel(img: Raster, s: Seq<u8>, start: int, x: int, y: int)
    requires
        is_encoding(img, s, start),
        encodable(width_of(img) as int, height_of(img) as int),
        0 <= x < width_of(img),
        0 <= y < height_of(img),
    ensures
        0 <= block_of(width_of(img) as int, x, y) < block_count(width_of(img) as int, height_of(img) as int),
        walk_block_pixels(img, block_of(width_of(img) as int, x, y))[(y % 4) * 4 + x % 4] == pixel_at(img, x, y),
        block_encodes(
            walk_block_pixels(img, block_of(width_of(img) as int, x, y)),
            s,
            start + 8 * block_of(width_of(img) as int, x, y),
        ),
        decoded_pixel(s, start, width_of(img) as int, x, y) == block_palette(
            s,
            start + 8 * block_of(width_of(img) as int, x, y),
        )[index_at(
            be32(s, start + 8 * block_of(width_of(img) as int, x, y) + 4) as u32,
            (y % 4) * 4 + x % 4,
        )],
        is_clear(pixel_at(img, x, y)) ==> decoded_pixel(s, start, width_of(img) as int, x, y)
            == transparent(),
        !is_clear(pixel_at(img, x, y)) ==> is_nearest(
            pixel_at(img, x, y),
            block_palette(s, start + 8 * block_of(width_of(img) as int, x, y)),
            index_at(
                be32(s, start + 8 * block_of(width_of(img) as int, x, y) + 4) as u32,
                (y % 4) * 4 + x % 4,
            ),
        ),
{
    let w = width_of(img) as int;
    let h = height_of(img) as int;
    reveal(is_encoding);
    lemma_block_of(w, h, x, y);
    let i = block_of(w, x, y);
    let k = (y % 4) * 4 + x % 4;
    assert(k % 4 == x % 4 && k / 4 == y % 4);
    let (bx, by) = tile_coord(w, i);
    assert(square_pixels(img, bx, by)[k] == pixel_at(img, bx + k % 4, by + k / 4));
    let px = walk_block_pixels(img, i);
    assert(block_encodes(px, s, start + 8 * i));
    assert(is_clear(px[k]) ==> block_palette(s, start + 8 * i)[index_at(
        be32(s, start + 8 * i + 4) as u32,
        k,
    )] == transparent());
}

} // verus!
