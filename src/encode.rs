//! Writing a container: endpoint choice and palette indices for each 4x4
//! block, and the header and block stream of a whole raster.
use vstd::prelude::*;
use crate::colour::{
    Colour, palette, quantize, transparent, get_next_colours, quantize_colour, lemma_palette_alpha,
};
use crate::decode::{be16, be32, index_at, header_dimensions, GctError, DIMENSIONS_AT, PIXEL_DATA_AT};
use crate::raster::{Raster, pixel_at, width_of, height_of};
use crate::tile::{block_count, tile_coord, tiled, tile_walk, lemma_walk_inverse};

verus! {

/// Squared distance between the colour channels of two colours.
#[verifier::opaque]
pub open spec fn dist(p: Colour, q: Colour) -> int {
    (p.r - q.r) * (p.r - q.r) + (p.g - q.g) * (p.g - q.g) + (p.b - q.b) * (p.b - q.b)
}

/// Whether a source pixel is fully transparent.
pub open spec fn is_clear(p: Colour) -> bool {
    p.a == 0
}

/// Whether any of the pixels is fully transparent.
pub open spec fn any_clear(px: Seq<Colour>) -> bool {
    exists|m: int| 0 <= m < px.len() && is_clear(#[trigger] px[m])
}

/// Whether no visible pixel quantises below `v`.
pub open spec fn is_lowest(px: Seq<Colour>, v: int) -> bool {
    forall|m: int| 0 <= m < px.len() && !is_clear(#[trigger] px[m]) ==> v <= quantize(px[m])
}

/// Whether no visible pixel quantises above `v`.
pub open spec fn is_highest(px: Seq<Colour>, v: int) -> bool {
    forall|m: int| 0 <= m < px.len() && !is_clear(#[trigger] px[m]) ==> quantize(px[m]) <= v
}

/// What the endpoints of an encoded block owe its pixels: the
/// transparent mode (`c0 < c1`) exactly when some pixel is fully
/// transparent, and the lowest and highest 5-6-5 values of the visible
/// pixels among the endpoints.
pub open spec fn endpoints_fit(px: Seq<Colour>, c0: int, c1: int) -> bool {
    &&& (any_clear(px) <==> c0 < c1)
    &&& forall|m: int|
        0 <= m < px.len() && !is_clear(#[trigger] px[m]) && (is_lowest(px, quantize(px[m])) || is_highest(
            px,
            quantize(px[m]),
        )) ==> quantize(px[m]) == c0 || quantize(px[m]) == c1
}

/// Whether `idx` picks, among the opaque entries of `pal`, one nearest to `p`.
pub open spec fn is_nearest(p: Colour, pal: Seq<Colour>, idx: int) -> bool {
    &&& 0 <= idx < 4
    &&& pal[idx].a == 255
    &&& forall|j: int| 0 <= j < 4 && (#[trigger] pal[j]).a == 255 ==> dist(p, pal[idx]) <= dist(p, pal[j])
}

/// Whether the 8 bytes at `at` of `s` are a faithful encoding of the 16
/// pixels `px`: endpoints that fit them, transparency for each fully
/// transparent pixel, and a nearest opaque palette entry for each other.
pub open spec fn block_encodes(px: Seq<Colour>, s: Seq<u8>, at: int) -> bool {
    let c0 = be16(s, at);
    let c1 = be16(s, at + 2);
    let pal = palette(c0, c1);
    let word = be32(s, at + 4) as u32;
    &&& endpoints_fit(px, c0, c1)
    &&& forall|k: int|
        0 <= k < 16 ==> if is_clear(#[trigger] px[k]) {
            pal[index_at(word, k)] == transparent()
        } else {
            is_nearest(px[k], pal, index_at(word, k))
        }
}

/// Chooses a block's endpoints: the highest and lowest 5-6-5 values of its
/// pixels, in descending order for an opaque block and in ascending order
/// (made distinct if need be) where some pixel is fully transparent.
pub fn choose_endpoints(pixels: &[Colour; 16]) -> (r: (u16, u16))
    ensures
        endpoints_fit(pixels@, r.0 as int, r.1 as int),
{
    let ghost px = pixels@;
    let mut lo: u16 = 0xFFFF;
    let mut hi: u16 = 0;
    let mut any_opaque = false;
    let mut any_transparent = false;
    let ghost mut lo_at: int = 0;
    let ghost mut hi_at: int = 0;
    let mut k: usize = 0;
    while k < 16
        invariant
            0 <= k <= 16,
            px == pixels@,
            px.len() == 16,
            any_transparent <==> exists|m: int| 0 <= m < k && is_clear(#[trigger] px[m]),
            any_opaque <==> exists|m: int| 0 <= m < k && !is_clear(#[trigger] px[m]),
            any_opaque ==> 0 <= lo_at < k && !is_clear(px[lo_at]) && quantize(px[lo_at]) == lo,
            any_opaque ==> 0 <= hi_at < k && !is_clear(px[hi_at]) && quantize(px[hi_at]) == hi,
            forall|m: int| 0 <= m < k && !is_clear(#[trigger] px[m]) ==> lo <= quantize(px[m]) <= hi,
        decreases 16 - k,
    {
        let p = pixels[k];
        if p.a == 0 {
            any_transparent = true;
        } else {
            let q = quantize_colour(p);
            if !any_opaque || q < lo {
                lo = q;
                proof {
                    lo_at = k as int;
                }
            }
            if !any_opaque || q > hi {
                hi = q;
                proof {
                    hi_at = k as int;
                }
            }
            any_opaque = true;
        }
        k = k + 1;
    }
    proof {
        assert(any_opaque ==> is_lowest(px, lo as int) && is_highest(px, hi as int));
        assert forall|m: int|
            0 <= m < px.len() && !is_clear(#[trigger] px[m]) && (is_lowest(px, quantize(px[m])) || is_highest(
                px,
                quantize(px[m]),
            )) implies quantize(px[m]) == lo || quantize(px[m]) == hi by {
            if is_lowest(px, quantize(px[m])) {
                assert(quantize(px[m]) <= quantize(px[lo_at]));
            } else {
                assert(quantize(px[hi_at]) <= quantize(px[m]));
            }
        }
        assert(any_clear(px) <==> any_transparent);
    }
    if !any_transparent {
        assert(!is_clear(px[0]));
        (hi, lo)
    } else if !any_opaque {
        (0, 0xFFFF)
    } else if lo < hi {
        (lo, hi)
    } else if hi < 0xFFFF {
        (lo, lo + 1)
    } else {
        (0xFFFE, 0xFFFF)
    }
}

proof fn lemma_square(x: int)
    ensures
        x * x == (if x < 0 { -x } else { x }) * (if x < 0 { -x } else { x }),
        x * x >= 0,
{
    assert(x * x >= 0) by (nonlinear_arith);
    assert(x * x == (-x) * (-x)) by (nonlinear_arith);
}

/// Squared distance between the colour channels of two colours.
fn colour_distance(p: Colour, q: Colour) -> (r: u32)
    ensures
        r == dist(p, q),
{
    let dr: u32 = if p.r > q.r { (p.r - q.r) as u32 } else { (q.r - p.r) as u32 };
    let dg: u32 = if p.g > q.g { (p.g - q.g) as u32 } else { (q.g - p.g) as u32 };
    let db: u32 = if p.b > q.b { (p.b - q.b) as u32 } else { (q.b - p.b) as u32 };
    proof {
        lemma_square(p.r - q.r);
        lemma_square(p.g - q.g);
        lemma_square(p.b - q.b);
        reveal(dist);
        assert(dr * dr <= 65025 && dg * dg <= 65025 && db * db <= 65025) by (nonlinear_arith)
            requires
                dr <= 255,
                dg <= 255,
                db <= 255,
        ;
    }
    dr * dr + dg * dg + db * db
}

/// The index of a palette entry nearest to `p` among the first `count`.
fn nearest_index(p: Colour, colours: &[Colour; 4], count: usize) -> (r: u8)
    requires
        1 <= count <= 4,
    ensures
        r < count,
        forall|j: int| 0 <= j < count ==> dist(p, colours@[r as int]) <= dist(p, #[trigger] colours@[j]),
{
    let mut best: usize = 0;
    let mut best_dist = colour_distance(p, colours[0]);
    let mut j: usize = 1;
    while j < count
        invariant
            1 <= j <= count <= 4,
            best < j,
            best_dist == dist(p, colours@[best as int]),
            forall|i: int| 0 <= i < j ==> dist(p, colours@[best as int]) <= dist(p, #[trigger] colours@[i]),
        decreases count - j,
    {
        let d = colour_distance(p, colours[j]);
        if d < best_dist {
            best = j;
            best_dist = d;
        }
        j = j + 1;
    }
    best as u8
}

proof fn lemma_place(word: u32, idx: u32, a: u32, b: u32)
    requires
        idx < 4,
        a < 16,
        b < 16,
    ensures
        ((word | (idx << (30 - 2 * a) as u32)) >> (30 - 2 * b) as u32) & 3 == if a == b {
            ((word >> (30 - 2 * b) as u32) & 3) | idx
        } else {
            (word >> (30 - 2 * b) as u32) & 3
        },
        (word >> (30 - 2 * b) as u32) & 3 == 0 && a == b ==> ((word | (idx << (30 - 2 * a) as u32))
            >> (30 - 2 * b) as u32) & 3 == idx,
{
    assert((word >> (30 - 2 * b) as u32) & 3 == 0 && a == b ==> ((word | (idx << (30 - 2 * a) as u32))
        >> (30 - 2 * b) as u32) & 3 == idx) by (bit_vector)
        requires
            idx < 4,
            a < 16,
            b < 16,
    ;
    assert(((word | (idx << (30 - 2 * a) as u32)) >> (30 - 2 * b) as u32) & 3 == if a == b {
        ((word >> (30 - 2 * b) as u32) & 3) | idx
    } else {
        (word >> (30 - 2 * b) as u32) & 3
    }) by (bit_vector)
        requires
            idx < 4,
            a < 16,
            b < 16,
    ;
}


/// The 8 bytes of a block: both endpoints, then the index word, each
/// big-endian.
fn pack_block(c0: u16, c1: u16, word: u32) -> (r: [u8; 8])
    ensures
        be16(r@, 0) == c0,
        be16(r@, 2) == c1,
        be32(r@, 4) == word,
{
    let r = [
        (c0 / 0x100) as u8,
        (c0 % 0x100) as u8,
        (c1 / 0x100) as u8,
        (c1 % 0x100) as u8,
        (word / 0x100_0000) as u8,
        (word / 0x1_0000 % 0x100) as u8,
        (word / 0x100 % 0x100) as u8,
        (word % 0x100) as u8,
    ];
    assert(be16(r@, 4) == word / 0x1_0000);
    assert(be16(r@, 6) == word % 0x1_0000);
    r
}

proof fn lemma_set_index(old_word: u32, word: u32, idx: u32, k: u32)
    requires
        idx < 4,
        k < 16,
        word == old_word | (idx << (30 - 2 * k) as u32),
        index_at(old_word, k as int) == 0,
    ensures
        forall|j: int| 0 <= j < 16 ==> #[trigger] index_at(word, j) == if j == k {
            idx as int
        } else {
            index_at(old_word, j)
        },
{
    assert forall|j: int| 0 <= j < 16 implies #[trigger] index_at(word, j) == if j == k {
        idx as int
    } else {
        index_at(old_word, j)
    } by {
        lemma_place(old_word, idx, k, j as u32);
    }
}

/// Encodes 16 pixels (row-major within a 4x4 block) as 8 bytes: the two
/// endpoints, then the big-endian word of 2-bit palette indices, the first
/// pixel's in the most significant pair. A fully transparent pixel takes
/// the transparent entry; every other pixel a nearest opaque entry.
#[verifier::rlimit(30)]
pub fn encode_block(pixels: &[Colour; 16]) -> (r: [u8; 8])
    ensures
        block_encodes(pixels@, r@, 0),
{
    let (c0, c1) = choose_endpoints(pixels);
    let colours = get_next_colours(c0 as u32, c1 as u32);
    let ghost pal = palette(c0 as int, c1 as int);
    let count: usize = if c0 >= c1 { 4 } else { 3 };
    proof {
        lemma_palette_alpha(c0 as int, c1 as int);
    }
    let mut word: u32 = 0;
    assert forall|j: int| 0 <= j < 16 implies #[trigger] index_at(0u32, j) == 0 by {
        let s = (30 - 2 * j) as u32;
        assert((0u32 >> s) & 3 == 0) by (bit_vector);
    }
    let mut k: usize = 0;
    while k < 16
        invariant
            0 <= k <= 16,
            colours@ == pal,
            pal == palette(c0 as int, c1 as int),
            forall|j: int| 0 <= j < 4 ==> ((#[trigger] pal[j]).a == 255 <==> j < count),
            c0 < c1 ==> pal[3] == transparent(),
            count == if c0 >= c1 { 4usize } else { 3usize },
            endpoints_fit(pixels@, c0 as int, c1 as int),
            forall|j: int| k <= j < 16 ==> #[trigger] index_at(word, j) == 0,
            forall|j: int|
                0 <= j < k ==> if is_clear(#[trigger] pixels@[j]) {
                    pal[index_at(word, j)] == transparent()
                } else {
                    is_nearest(pixels@[j], pal, index_at(word, j))
                },
        decreases 16 - k,
    {
        let p = pixels[k];
        let idx: u8 = if p.a == 0 {
            assert(c0 < c1);
            3
        } else {
            nearest_index(p, &colours, count)
        };
        let ghost old_word = word;
        word = word | ((idx as u32) << (30 - 2 * k as u32));
        proof {
            lemma_set_index(old_word, word, idx as u32, k as u32);
        }
        k = k + 1;
    }
    pack_block(c0, c1, word)
}


/// The 16 pixels, row-major, of the 4x4 square whose corner is `(x, y)`.
pub open spec fn square_pixels(img: Raster, x: int, y: int) -> Seq<Colour> {
    Seq::new(16, |k: int| pixel_at(img, x + k % 4, y + k / 4))
}

/// The 16 pixels of the `i`-th block of the tile walk.
pub open spec fn walk_block_pixels(img: Raster, i: int) -> Seq<Colour> {
    square_pixels(img, tile_coord(width_of(img) as int, i).0, tile_coord(width_of(img) as int, i).1)
}

/// Whether a raster can be written: both dimensions nonzero multiples of 8
/// that fit the header's 16-bit fields.
pub open spec fn encodable(width: int, height: int) -> bool {
    &&& 0 < width <= 0xFFFF
    &&& 0 < height <= 0xFFFF
    &&& tiled(width, height)
}

/// Whether `s` is a container for `img` whose blocks start at `start`:
/// the big-endian width and height at 0x10, then from `start` on one
/// faithful block encoding for each position of the tile walk, in walk
/// order, and nothing after the last block.
#[verifier::opaque]
pub open spec fn is_encoding(img: Raster, s: Seq<u8>, start: int) -> bool {
    let w = width_of(img) as int;
    let h = height_of(img) as int;
    &&& DIMENSIONS_AT + 4 <= start
    &&& s.len() == start + 8 * block_count(w, h)
    &&& header_dimensions(s) == (w, h)
    &&& forall|i: int|
        0 <= i < block_count(w, h) ==> #[trigger] block_encodes(walk_block_pixels(img, i), s, start + 8 * i)
}

/// Whether the header bytes of `s` before `start`, other than the width and
/// height, are those of `base`, or zero past the end of `base`.
pub open spec fn keeps_header(s: Seq<u8>, base: Seq<u8>, start: int) -> bool {
    forall|j: int|
        0 <= j < start && !(DIMENSIONS_AT <= j < DIMENSIONS_AT + 4) ==> #[trigger] s[j] == if j < base.len() {
            base[j]
        } else {
            0
        }
}

/// Whether blocks starting at `start` leave room for the header and their
/// end can be counted in `usize`.
pub open spec fn start_fits(start: int, width: int, height: int) -> bool {
    DIMENSIONS_AT + 4 <= start && start + 8 * block_count(width, height) <= usize::MAX
}

proof fn lemma_block_encodes_moved(px: Seq<Colour>, s: Seq<u8>, at: int, t: Seq<u8>, from: int)
    requires
        forall|d: int| 0 <= d < 8 ==> #[trigger] s[at + d] == t[from + d],
    ensures
        block_encodes(px, s, at) == block_encodes(px, t, from),
{
    assert(s[at + 0] == t[from + 0] && s[at + 1] == t[from + 1]);
    assert(s[at + 2] == t[from + 2] && s[at + 3] == t[from + 3]);
    assert(s[at + 4] == t[from + 4] && s[at + 5] == t[from + 5]);
    assert(s[at + 6] == t[from + 6] && s[at + 7] == t[from + 7]);
}

/// Copies the 4x4 square whose corner is `(x, y)` out of a raster.
fn read_square(img: &Raster, x: u32, y: u32) -> (r: [Colour; 16])
    requires
        x + 4 <= width_of(*img),
        y + 4 <= height_of(*img),
    ensures
        r@ == square_pixels(*img, x as int, y as int),
{
    let mut px = [Colour { r: 0, g: 0, b: 0, a: 0 }; 16];
    let mut k: usize = 0;
    while k < 16
        invariant
            0 <= k <= 16,
            x + 4 <= width_of(*img),
            y + 4 <= height_of(*img),
            px@.len() == 16,
            forall|j: int| 0 <= j < k ==> #[trigger] px@[j] == square_pixels(*img, x as int, y as int)[j],
        decreases 16 - k,
    {
        let dx = (k % 4) as u32;
        let dy = (k / 4) as u32;
        px[k] = img.get_pixel(x + dx, y + dy);
        k = k + 1;
    }
    assert(px@ =~= square_pixels(*img, x as int, y as int));
    px
}

/// Writes a raster into a container: the header bytes of `base` before
/// `start` are kept (zero past its end), the width and height are written
/// big-endian at 0x10, and from `start` on comes one block for each position
/// of the tile walk. Fails with `Dimension` unless both dimensions are
/// nonzero multiples of 8 that fit in 16 bits, and then with `Format` where
/// `start` leaves no room for the header or the blocks.
pub fn encode_into(img: &Raster, base: &[u8], start: usize) -> (r: Result<Vec<u8>, GctError>)
    ensures
        !encodable(width_of(*img) as int, height_of(*img) as int) ==> r == Err::<Vec<u8>, GctError>(
            GctError::Dimension,
        ),
        encodable(width_of(*img) as int, height_of(*img) as int) && !start_fits(
            start as int,
            width_of(*img) as int,
            height_of(*img) as int,
        ) ==> r == Err::<Vec<u8>, GctError>(GctError::Format),
        encodable(width_of(*img) as int, height_of(*img) as int) && start_fits(
            start as int,
            width_of(*img) as int,
            height_of(*img) as int,
        ) ==> (r matches Ok(bytes) && is_encoding(*img, bytes@, start as int) && keeps_header(
            bytes@,
            base@,
            start as int,
        )),
{
    let (width, height) = img.dimensions();
    if width == 0 || height == 0 || width > 0xFFFF || height > 0xFFFF || width % 8 != 0 || height % 8 != 0 {
        return Err(GctError::Dimension);
    }
    let ghost w = width as int;
    let ghost h = height as int;
    let walk = tile_walk(width, height);
    let n = walk.len();
    assert(n <= 0x1000_0000) by (nonlinear_arith)
        requires
            n == block_count(w, h),
            0 < w <= 0xFFFF,
            0 < h <= 0xFFFF,
    ;
    if start < DIMENSIONS_AT + 4 || start > usize::MAX - 8 * n {
        return Err(GctError::Format);
    }
    let mut out: Vec<u8> = Vec::new();
    let mut j: usize = 0;
    while j < start
        invariant
            0 <= j <= start,
            out@.len() == j,
            forall|t: int| 0 <= t < j ==> #[trigger] out@[t] == if t < base@.len() {
                base@[t]
            } else {
                0
            },
        decreases start - j,
    {
        if j < base.len() {
            out.push(base[j]);
        } else {
            out.push(0);
        }
        j = j + 1;
    }
    out.set(DIMENSIONS_AT, (width / 0x100) as u8);
    out.set(DIMENSIONS_AT + 1, (width % 0x100) as u8);
    out.set(DIMENSIONS_AT + 2, (height / 0x100) as u8);
    out.set(DIMENSIONS_AT + 3, (height % 0x100) as u8);
    assert(keeps_header(out@, base@, start as int));
    let ghost header = out@;
    let mut i: usize = 0;
    while i < n
        invariant
            0 <= i <= n,
            n == walk@.len(),
            n == block_count(w, h),
            w == width_of(*img),
            h == height_of(*img),
            w == width,
            h == height,
            encodable(w, h),
            forall|b: int|
                0 <= b < walk@.len() ==> (#[trigger] walk@[b]).0 as int == tile_coord(w, b).0
                    && walk@[b].1 as int == tile_coord(w, b).1,
            header.len() == start,
            DIMENSIONS_AT + 4 <= start,
            start + 8 * n <= usize::MAX,
            out@.len() == start + 8 * i,
            forall|t: int| 0 <= t < start ==> #[trigger] out@[t] == header[t],
            forall|b: int|
                0 <= b < i ==> #[trigger] block_encodes(
                    walk_block_pixels(*img, b),
                    out@,
                    start + 8 * b,
                ),
        decreases n - i,
    {
        let (x, y) = walk[i];
        proof {
            lemma_walk_inverse(w, h, i as int);
        }
        let px = read_square(img, x, y);
        let blk = encode_block(&px);
        let ghost before = out@;
        let mut d: usize = 0;
        while d < 8
            invariant
                0 <= d <= 8,
                out@.len() == before.len() + d,
                forall|t: int| 0 <= t < before.len() ==> #[trigger] out@[t] == before[t],
                forall|t: int| 0 <= t < d ==> #[trigger] out@[before.len() + t] == blk@[t],
            decreases 8 - d,
        {
            out.push(blk[d]);
            d = d + 1;
        }
        proof {
            assert forall|b: int| 0 <= b < i + 1 implies #[trigger] block_encodes(
                walk_block_pixels(*img, b),
                out@,
                start + 8 * b,
            ) by {
                if b < i {
                    lemma_block_encodes_moved(
                        walk_block_pixels(*img, b),
                        out@,
                        start + 8 * b,
                        before,
                        start + 8 * b,
                    );
                } else {
                    assert(forall|t: int| 0 <= t < 8 ==> out@[before.len() + t] == blk@[t]);
                    lemma_block_encodes_moved(px@, out@, start + 8 * b, blk@, 0);
                }
            }
        }
        i = i + 1;
    }
    assert(header_dimensions(out@) == (w, h));
    assert(keeps_header(out@, base@, start as int));
    reveal(is_encoding);
    Ok(out)
}

/// Writes a raster as a fresh container: a header of 0x40 bytes, zero but
/// for the width and height, then the blocks. Fails with `Dimension` unless
/// both dimensions are nonzero multiples of 8 that fit in 16 bits.
pub fn encode(img: &Raster) -> (r: Result<Vec<u8>, GctError>)
    ensures
        !encodable(width_of(*img) as int, height_of(*img) as int) ==> r == Err::<Vec<u8>, GctError>(
            GctError::Dimension,
        ),
        encodable(width_of(*img) as int, height_of(*img) as int) ==> (r matches Ok(bytes) && is_encoding(
            *img,
            bytes@,
            PIXEL_DATA_AT as int,
        ) && forall|j: int|
            0 <= j < PIXEL_DATA_AT && !(DIMENSIONS_AT <= j < DIMENSIONS_AT + 4) ==> #[trigger] bytes@[j] == 0),
{
    let base: Vec<u8> = Vec::new();
    proof {
        let (w, h) = (width_of(*img) as int, height_of(*img) as int);
        if encodable(w, h) {
            assert(block_count(w, h) <= 0x1000_0000) by (nonlinear_arith)
                requires
                    0 < w <= 0xFFFF,
                    0 < h <= 0xFFFF,
            ;
        }
    }
    encode_into(img, base.as_slice(), PIXEL_DATA_AT)
}


} // verus!
