//! Reading a container: the header, the 8-byte blocks, and the raster that
//! the tile walk assembles from them.
use vstd::prelude::*;
use crate::colour::{Colour, palette, transparent, get_next_colours};
use crate::raster::{Raster, pixels_of, width_of, height_of, pixel_at};
use crate::tile::{
    block_count, block_of, tile_coord, tiled, tile_walk, lemma_block_of, lemma_split,
    lemma_walk_inverse,
};

verus! {

/// Why a container could not be read or written.
#[derive(Clone, Copy, Debug, PartialEq, Eq, Structural)]
pub enum GctError {
    /// The header is cut short before the width or the height.
    Format,
    /// The width or the height is zero, not a multiple of 8, or too large.
    Dimension,
    /// Fewer than 8 bytes are left where a block is expected.
    TruncatedBlock,
}

/// Offset of the big-endian width; the height follows it.
pub const DIMENSIONS_AT: usize = 0x10;

/// Default offset of the first block.
pub const PIXEL_DATA_AT: usize = 0x40;

/// The big-endian 16-bit word at `at`.
pub open spec fn be16(s: Seq<u8>, at: int) -> int {
    s[at] * 0x100 + s[at + 1]
}

/// The big-endian 32-bit word at `at`.
pub open spec fn be32(s: Seq<u8>, at: int) -> int {
    be16(s, at) * 0x10000 + be16(s, at + 2)
}

/// The `k`-th 2-bit palette index of a block's index word, the most
/// significant pair first.
pub open spec fn index_at(word: u32, k: int) -> int {
    ((word >> ((30 - 2 * k) as u32)) & 3) as int
}

/// The palette of the block stored at `at`.
pub open spec fn block_palette(s: Seq<u8>, at: int) -> Seq<Colour> {
    palette(be16(s, at), be16(s, at + 2))
}

/// Pixel `k` (row-major within the 4x4 block) of the block stored at `at`.
pub open spec fn block_pixel(s: Seq<u8>, at: int, k: int) -> Colour {
    block_palette(s, at)[index_at(be32(s, at + 4) as u32, k)]
}

/// Pixel `(x, y)` of an image `width` pixels wide whose blocks start at
/// `start`.
pub open spec fn decoded_pixel(s: Seq<u8>, start: int, width: int, x: int, y: int) -> Colour {
    block_pixel(s, start + 8 * block_of(width, x, y), (y % 4) * 4 + x % 4)
}

/// The big-endian 16-bit word at `pos`, or `None` where fewer than two
/// bytes are left.
pub fn read_short(data: &[u8], pos: usize) -> (r: Option<u32>)
    ensures
        r == (if pos + 2 <= data@.len() {
            Some(be16(data@, pos as int) as u32)
        } else {
            None
        }),
{
    if pos <= data.len() && data.len() - pos >= 2 {
        Some(data[pos] as u32 * 0x100 + data[pos + 1] as u32)
    } else {
        None
    }
}

/// The big-endian 32-bit word at `pos`, or `None` where fewer than four
/// bytes are left.
pub fn read_int(data: &[u8], pos: usize) -> (r: Option<u32>)
    ensures
        r == (if pos + 4 <= data@.len() {
            Some(be32(data@, pos as int) as u32)
        } else {
            None
        }),
{
    if pos <= data.len() && data.len() - pos >= 4 {
        let hi = data[pos] as u32 * 0x100 + data[pos + 1] as u32;
        let lo = data[pos + 2] as u32 * 0x100 + data[pos + 3] as u32;
        Some(hi * 0x10000 + lo)
    } else {
        None
    }
}

/// The sixteen 2-bit palette indices of a block's index word, most
/// significant pair first, in row-major pixel order.
pub fn get_block(indexes: u32) -> (r: [u8; 16])
    ensures
        forall|k: int| 0 <= k < 16 ==> #[trigger] r@[k] as int == index_at(indexes, k) && r@[k] < 4,
{
    let mut block: [u8; 16] = [0; 16];
    let mut i: usize = 0;
    while i < 16
        invariant
            0 <= i <= 16,
            forall|k: int| 0 <= k < i ==> #[trigger] block@[k] as int == index_at(indexes, k) && block@[k] < 4,
        decreases 16 - i,
    {
        let shift: u32 = 30 - 2 * i as u32;
        let v = (indexes >> shift) & 0b11;
        assert(v < 4) by (bit_vector)
            requires
                v == (indexes >> shift) & 0b11,
        ;
        block[i] = v as u8;
        i = i + 1;
    }
    block
}

/// The palette and the sixteen palette indices of the block at `pos`, or
/// `TruncatedBlock` where fewer than 8 bytes are left.
pub fn read_block(data: &[u8], pos: usize) -> (r: Result<([Colour; 4], [u8; 16]), GctError>)
    ensures
        r is Err <==> pos + 8 > data@.len(),
        r matches Err(e) ==> e == GctError::TruncatedBlock,
        r matches Ok(b) ==> b.0@ == block_palette(data@, pos as int)
            && forall|k: int|
            0 <= k < 16 ==> #[trigger] b.1@[k] as int == index_at(be32(data@, pos + 4) as u32, k) && b.1@[k] < 4,
{
    if pos > data.len() || data.len() - pos < 8 {
        return Err(GctError::TruncatedBlock);
    }
    let lc0 = read_short(data, pos).unwrap();
    let lc1 = read_short(data, pos + 2).unwrap();
    let indexes = read_int(data, pos + 4).unwrap();
    Ok((get_next_colours(lc0, lc1), get_block(indexes)))
}


/// Whether index `p` of a row-major image `width` pixels wide lies in the
/// 4x4 square whose corner is `(x, y)`.
pub open spec fn in_square(width: int, x: int, y: int, p: int) -> bool {
    x <= p % width < x + 4 && y <= p / width < y + 4
}

/// Position within the 4x4 square at `(x, y)` of index `p`, row-major.
pub open spec fn square_index(width: int, x: int, y: int, p: int) -> int {
    (p / width - y) * 4 + (p % width - x)
}

/// Paints the 4x4 square whose corner is `(x, y)`: pixel `k` of the square,
/// row-major, gets colour `colours[block[k]]`; every other pixel is kept.
pub fn write_block(block: [u8; 16], colours: [Colour; 4], x: u32, y: u32, png_buffer: &mut Raster)
    requires
        forall|k: int| 0 <= k < 16 ==> #[trigger] block@[k] < 4,
        x + 4 <= width_of(*old(png_buffer)),
        y + 4 <= height_of(*old(png_buffer)),
        pixels_of(*old(png_buffer)).len() == width_of(*old(png_buffer)) * height_of(*old(png_buffer)),
    ensures
        width_of(*final(png_buffer)) == width_of(*old(png_buffer)),
        height_of(*final(png_buffer)) == height_of(*old(png_buffer)),
        pixels_of(*final(png_buffer)).len() == pixels_of(*old(png_buffer)).len(),
        forall|p: int|
            0 <= p < pixels_of(*old(png_buffer)).len() ==> #[trigger] pixels_of(*final(png_buffer))[p]
                == if in_square(width_of(*old(png_buffer)) as int, x as int, y as int, p) {
                colours@[block@[square_index(width_of(*old(png_buffer)) as int, x as int, y as int, p)] as int]
            } else {
                pixels_of(*old(png_buffer))[p]
            },
{
    let ghost w = width_of(*png_buffer) as int;
    let ghost h = height_of(*png_buffer) as int;
    let ghost start = pixels_of(*png_buffer);
    let mut k: usize = 0;
    while k < 16
        invariant
            0 <= k <= 16,
            w == width_of(*png_buffer),
            h == height_of(*png_buffer),
            x + 4 <= w,
            y + 4 <= h,
            start.len() == w * h,
            pixels_of(*png_buffer).len() == start.len(),
            forall|k: int| 0 <= k < 16 ==> #[trigger] block@[k] < 4,
            forall|p: int|
                0 <= p < start.len() ==> #[trigger] pixels_of(*png_buffer)[p] == if in_square(w, x as int, y as int, p)
                    && square_index(w, x as int, y as int, p) < k {
                    colours@[block@[square_index(w, x as int, y as int, p)] as int]
                } else {
                    start[p]
                },
        decreases 16 - k,
    {
        let dx = (k % 4) as u32;
        let dy = (k / 4) as u32;
        let c = colours[block[k] as usize];
        let ghost q = (y + dy) * w + (x + dx);
        proof {
            lemma_split((y + dy) as int, (x + dx) as int, w);
            assert(q < w * h) by (nonlinear_arith)
                requires
                    q == (y + dy) * w + (x + dx),
                    y + dy < h,
                    x + dx < w,
            ;
        }
        png_buffer.put_pixel(x + dx, y + dy, c);
        assert forall|p: int| 0 <= p < start.len() implies #[trigger] pixels_of(*png_buffer)[p] == if in_square(
            w,
            x as int,
            y as int,
            p,
        ) && square_index(w, x as int, y as int, p) < k + 1 {
            colours@[block@[square_index(w, x as int, y as int, p)] as int]
        } else {
            start[p]
        } by {
            if p != q && in_square(w, x as int, y as int, p) && square_index(w, x as int, y as int, p) == k {
                vstd::arithmetic::div_mod::lemma_fundamental_div_mod(p, w);
                assert(p / w == y + dy && p % w == x + dx);
                assert(p == (p / w) * w + p % w) by (nonlinear_arith)
                    requires
                        p == w * (p / w) + p % w,
                ;
            }
        }
        k = k + 1;
    }
}


/// Decodes the `width` x `height` image whose blocks start at `start`,
/// placing block `i` at the `i`-th position of the tile walk. Fails with
/// `TruncatedBlock`, and returns nothing, where the data ends before the
/// last block does.
pub fn create_png(data: &[u8], start: usize, width: u32, height: u32) -> (r: Result<Raster, GctError>)
    requires
        tiled(width as int, height as int),
        width as int * height as int * 4 <= usize::MAX,
    ensures
        r is Err <==> start + 8 * block_count(width as int, height as int) > data@.len(),
        r matches Err(e) ==> e == GctError::TruncatedBlock,
        r matches Ok(img) ==> {
            &&& width_of(img) == width
            &&& height_of(img) == height
            &&& pixels_of(img).len() == width * height
            &&& forall|x: int, y: int|
                0 <= x < width && 0 <= y < height ==> #[trigger] pixel_at(img, x, y) == decoded_pixel(
                    data@,
                    start as int,
                    width as int,
                    x,
                    y,
                )
        },
{
    let ghost w = width as int;
    let ghost h = height as int;
    let walk = tile_walk(width, height);
    let n = walk.len();
    if start > data.len() || (data.len() - start) / 8 < n {
        return Err(GctError::TruncatedBlock);
    }
    assert(8 * n <= data@.len() - start) by (nonlinear_arith)
        requires
            (data@.len() - start) / 8 >= n,
            data@.len() >= start,
    ;
    let mut png_buffer = Raster::blank(width, height);
    let mut i: usize = 0;
    while i < n
        invariant
            0 <= i <= n,
            n == block_count(w, h),
            n == walk@.len(),
            w == width,
            h == height,
            tiled(w, h),
            start + 8 * n <= data@.len(),
            data@.len() <= usize::MAX,
            forall|j: int|
                0 <= j < walk@.len() ==> (#[trigger] walk@[j]).0 as int == tile_coord(w, j).0
                    && walk@[j].1 as int == tile_coord(w, j).1,
            width_of(png_buffer) == width,
            height_of(png_buffer) == height,
            pixels_of(png_buffer).len() == w * h,
            forall|p: int|
                0 <= p < w * h ==> #[trigger] pixels_of(png_buffer)[p] == if block_of(w, p % w, p / w) < i {
                    decoded_pixel(data@, start as int, w, p % w, p / w)
                } else {
                    transparent()
                },
        decreases n - i,
    {
        let (x, y) = walk[i];
        assert(w > 0) by (nonlinear_arith)
            requires
                0 <= i < n,
                n == block_count(w, h),
                w >= 0,
                h >= 0,
        ;
        proof {
            lemma_walk_inverse(w, h, i as int);
        }
        let (colours, block) = match read_block(data, start + 8 * i) {
            Ok(b) => b,
            Err(e) => return Err(e),
        };
        write_block(block, colours, x, y, &mut png_buffer);
        assert forall|p: int| 0 <= p < w * h implies #[trigger] pixels_of(png_buffer)[p] == if block_of(
            w,
            p % w,
            p / w,
        ) < i + 1 {
            decoded_pixel(data@, start as int, w, p % w, p / w)
        } else {
            transparent()
        } by {
            let (px, py) = (p % w, p / w);
            assert(0 <= py < h) by (nonlinear_arith)
                requires
                    0 <= p < w * h,
                    py == p / w,
                    w > 0,
            ;
            lemma_block_of(w, h, px, py);
            if in_square(w, x as int, y as int, p) {
                let (dx, dy) = (px - x, py - y);
                assert(block_of(w, x + dx, y + dy) == i);
                lemma_split((y / 4) as int, dy, 4);
                lemma_split((x / 4) as int, dx, 4);
                assert(py % 4 == dy && px % 4 == dx);
                assert(square_index(w, x as int, y as int, p) == (py % 4) * 4 + px % 4);
            } else {
                assert(block_of(w, px, py) != i);
            }
        }
        i = i + 1;
    }
    assert forall|x: int, y: int| 0 <= x < width && 0 <= y < height implies #[trigger] pixel_at(
        png_buffer,
        x,
        y,
    ) == decoded_pixel(data@, start as int, width as int, x, y) by {
        let p = y * w + x;
        lemma_split(y, x, w);
        lemma_block_of(w, h, x, y);
        assert(p < w * h) by (nonlinear_arith)
            requires
                p == y * w + x,
                0 <= y < h,
                0 <= x < w,
        ;
    }
    Ok(png_buffer)
}


/// The width and height stored in a header, as words.
pub open spec fn header_dimensions(s: Seq<u8>) -> (int, int) {
    (be16(s, DIMENSIONS_AT as int), be16(s, DIMENSIONS_AT as int + 2))
}

/// Reads the big-endian width and height at offset 0x10. Fails with
/// `Format` where the data ends before them and with `Dimension` where
/// either is zero.
pub fn read_header(data: &[u8]) -> (r: Result<(u32, u32), GctError>)
    ensures
        data@.len() < DIMENSIONS_AT + 4 ==> r == Err::<(u32, u32), GctError>(GctError::Format),
        data@.len() >= DIMENSIONS_AT + 4 ==> r == if header_dimensions(data@).0 == 0
            || header_dimensions(data@).1 == 0 {
            Err(GctError::Dimension)
        } else {
            Ok((header_dimensions(data@).0 as u32, header_dimensions(data@).1 as u32))
        },
        r matches Ok((w, h)) ==> w < 0x10000 && h < 0x10000,
{
    let width = match read_short(data, DIMENSIONS_AT) {
        Some(w) => w,
        None => return Err(GctError::Format),
    };
    let height = match read_short(data, DIMENSIONS_AT + 2) {
        Some(h) => h,
        None => return Err(GctError::Format),
    };
    if width == 0 || height == 0 {
        return Err(GctError::Dimension);
    }
    Ok((width, height))
}

/// Whether a header's dimensions can be decoded: both nonzero multiples of
/// 8, small enough that the raster's samples can be counted in `usize`.
pub open spec fn decodable(width: int, height: int) -> bool {
    &&& width > 0
    &&& height > 0
    &&& tiled(width, height)
    &&& width * height * 4 <= usize::MAX
}

/// Decodes a whole container whose blocks start at `start` (by default
/// 0x40): the header's dimensions, then every block along the tile walk.
/// No raster is returned on any error.
pub fn decode(data: &[u8], start: usize) -> (r: Result<Raster, GctError>)
    ensures
        data@.len() < DIMENSIONS_AT + 4 ==> r == Err::<Raster, GctError>(GctError::Format),
        data@.len() >= DIMENSIONS_AT + 4 ==> ({
            let (w, h) = header_dimensions(data@);
            if !decodable(w, h) {
                r == Err::<Raster, GctError>(GctError::Dimension)
            } else if start + 8 * block_count(w, h) > data@.len() {
                r == Err::<Raster, GctError>(GctError::TruncatedBlock)
            } else {
                r matches Ok(img) && width_of(img) == w && height_of(img) == h
                    && pixels_of(img).len() == w * h
                    && forall|x: int, y: int|
                    0 <= x < w && 0 <= y < h ==> #[trigger] pixel_at(img, x, y) == decoded_pixel(
                        data@,
                        start as int,
                        w,
                        x,
                        y,
                    )
            }
        }),
{
    let (width, height) = match read_header(data) {
        Ok(d) => d,
        Err(e) => return Err(e),
    };
    if width % 8 != 0 || height % 8 != 0 {
        return Err(GctError::Dimension);
    }
    assert((width as u64) * (height as u64) * 4 < 0x4_0000_0000) by (nonlinear_arith)
        requires
            width < 0x10000,
            height < 0x10000,
    ;
    if (width as u64) * (height as u64) * 4 > usize::MAX as u64 {
        return Err(GctError::Dimension);
    }
    create_png(data, start, width, height)
}

} // verus!
