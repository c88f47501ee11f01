//! The tile walk: the order in which the 4x4 blocks of an image are stored.
//! Blocks come in 8x8 macro-tiles, four to a tile (top-left, top-right,
//! bottom-left, bottom-right); tiles run left to right, then top to bottom.
use vstd::prelude::*;
use vstd::arithmetic::div_mod::lemma_fundamental_div_mod_converse;

verus! {

/// Number of 4x4 blocks in an image of `width` x `height` pixels.
pub open spec fn block_count(width: int, height: int) -> int {
    (width / 8) * (height / 8) * 4
}

/// Whether both dimensions are whole numbers of macro-tiles.
pub open spec fn tiled(width: int, height: int) -> bool {
    width >= 0 && height >= 0 && width % 8 == 0 && height % 8 == 0
}

/// Top-left pixel of the `i`-th stored block of an image `width` pixels wide.
pub open spec fn tile_coord(width: int, i: int) -> (int, int) {
    let t = i / 4;
    let s = i % 4;
    let across = width / 8;
    ((t % across) * 8 + (s % 2) * 4, (t / across) * 8 + (s / 2) * 4)
}

/// Storage position of the block that holds pixel `(x, y)`.
pub open spec fn block_of(width: int, x: int, y: int) -> int {
    ((y / 8) * (width / 8) + x / 8) * 4 + ((y % 8) / 4) * 2 + (x % 8) / 4
}

/// Whether the 4x4 footprint of the `i`-th stored block holds pixel `(x, y)`.
pub open spec fn covers(width: int, i: int, x: int, y: int) -> bool {
    let (bx, by) = tile_coord(width, i);
    bx <= x < bx + 4 && by <= y < by + 4
}

pub(crate) proof fn lemma_split(a: int, b: int, d: int)
    requires
        d > 0,
        0 <= b < d,
    ensures
        (a * d + b) / d == a,
        (a * d + b) % d == b,
{
    lemma_fundamental_div_mod_converse(a * d + b, d, a, b);
}

/// The block in tile column `tx`, tile row `ty` and quarter `s` is stored at
/// `4 * (ty * across + tx) + s`, and placed where the walk says.
proof fn lemma_coord_of(width: int, tx: int, ty: int, s: int)
    requires
        width > 0,
        width % 8 == 0,
        0 <= tx < width / 8,
        0 <= ty,
        0 <= s < 4,
    ensures
        tile_coord(width, 4 * (ty * (width / 8) + tx) + s) == (tx * 8 + (s % 2) * 4, ty * 8 + (s / 2) * 4),
{
    let across = width / 8;
    let t = ty * across + tx;
    assert(t >= 0) by (nonlinear_arith)
        requires
            ty >= 0,
            tx >= 0,
            across > 0,
            t == ty * across + tx,
    ;
    lemma_split(t, s, 4);
    assert(4 * t + s == t * 4 + s);
    lemma_split(ty, tx, across);
}

/// Placement and inverse of the walk for one stored block.
pub(crate) proof fn lemma_walk_inverse(width: int, height: int, i: int)
    requires
        tiled(width, height),
        width > 0,
        0 <= i < block_count(width, height),
    ensures
        tile_coord(width, i).0 % 4 == 0,
        tile_coord(width, i).1 % 4 == 0,
        0 <= tile_coord(width, i).0,
        tile_coord(width, i).0 + 4 <= width,
        0 <= tile_coord(width, i).1,
        tile_coord(width, i).1 + 4 <= height,
        forall|dx: int, dy: int|
            0 <= dx < 4 && 0 <= dy < 4 ==> #[trigger] block_of(
                width,
                tile_coord(width, i).0 + dx,
                tile_coord(width, i).1 + dy,
            ) == i,
{
    let across = width / 8;
    let down = height / 8;
    let t = i / 4;
    let s = i % 4;
    let tx = t % across;
    let ty = t / across;
    assert(t < across * down) by (nonlinear_arith)
        requires
            0 <= i < across * down * 4,
            t == i / 4,
    ;
    assert(ty < down) by (nonlinear_arith)
        requires
            0 <= t < across * down,
            across > 0,
            ty == t / across,
    ;
    assert(t == ty * across + tx) by (nonlinear_arith)
        requires
            across > 0,
            tx == t % across,
            ty == t / across,
    ;
    assert(i == 4 * t + s);
    let (x, y) = tile_coord(width, i);
    assert(x == tx * 8 + (s % 2) * 4 && y == ty * 8 + (s / 2) * 4);
    assert(ty * 8 + 8 <= height) by (nonlinear_arith)
        requires
            ty < down,
            down == height / 8,
            height % 8 == 0,
            height >= 0,
    ;
    assert(tx * 8 + 8 <= width) by (nonlinear_arith)
        requires
            tx < across,
            across == width / 8,
            width % 8 == 0,
    ;
    assert(x % 4 == 0) by {
        lemma_split(tx * 2 + s % 2, 0, 4);
        assert((tx * 2 + s % 2) * 4 == x);
    }
    assert(y % 4 == 0) by {
        lemma_split(ty * 2 + s / 2, 0, 4);
        assert((ty * 2 + s / 2) * 4 == y);
    }
    assert forall|dx: int, dy: int| 0 <= dx < 4 && 0 <= dy < 4 implies #[trigger] block_of(
        width,
        x + dx,
        y + dy,
    ) == i by {
        lemma_split(tx, (s % 2) * 4 + dx, 8);
        lemma_split(ty, (s / 2) * 4 + dy, 8);
        lemma_split(s % 2, dx, 4);
        lemma_split(s / 2, dy, 4);
        assert(x + dx == tx * 8 + ((s % 2) * 4 + dx));
        assert(y + dy == ty * 8 + ((s / 2) * 4 + dy));
    }
}

/// The block that holds a pixel is stored within the walk, and its corner
/// is the pixel rounded down to multiples of 4.
pub(crate) proof fn lemma_block_of(width: int, height: int, x: int, y: int)
    requires
        tiled(width, height),
        0 <= x < width,
        0 <= y < height,
    ensures
        0 <= block_of(width, x, y) < block_count(width, height),
        tile_coord(width, block_of(width, x, y)) == (x - x % 4, y - y % 4),
{
    let across = width / 8;
    let down = height / 8;
    let tx = x / 8;
    let ty = y / 8;
    let s = ((y % 8) / 4) * 2 + (x % 8) / 4;
    assert(tx < across) by (nonlinear_arith)
        requires
            0 <= x < width,
            width % 8 == 0,
            across == width / 8,
            tx == x / 8,
    ;
    assert(ty < down) by (nonlinear_arith)
        requires
            0 <= y < height,
            height % 8 == 0,
            down == height / 8,
            ty == y / 8,
    ;
    let t = ty * across + tx;
    assert(0 <= t < across * down) by (nonlinear_arith)
        requires
            0 <= tx < across,
            0 <= ty < down,
            t == ty * across + tx,
    ;
    assert(block_of(width, x, y) == 4 * t + s);
    assert(4 * t + s < block_count(width, height)) by (nonlinear_arith)
        requires
            0 <= t < across * down,
            0 <= s < 4,
            block_count(width, height) == across * down * 4,
    ;
    lemma_coord_of(width, tx, ty, s);
    assert(s % 2 == (x % 8) / 4);
    assert(s / 2 == (y % 8) / 4);
    assert(x % 4 == (x % 8) % 4) by {
        vstd::arithmetic::div_mod::lemma_mod_mod(x, 4, 2);
    }
    assert(y % 4 == (y % 8) % 4) by {
        vstd::arithmetic::div_mod::lemma_mod_mod(y, 4, 2);
    }
}

/// The walk's block positions of a tiled image are all different, lie
/// inside the image on multiples of 4, and their 4x4 footprints cover every
/// pixel exactly once.
pub proof fn tile_walk_covers_image(width: int, height: int)
    requires
        tiled(width, height),
    ensures
        forall|i: int, j: int|
            0 <= i < block_count(width, height) && 0 <= j < block_count(width, height) && i != j
                ==> #[trigger] tile_coord(width, i) != #[trigger] tile_coord(width, j),
        forall|i: int|
            0 <= i < block_count(width, height) ==> {
                let (x, y) = #[trigger] tile_coord(width, i);
                x % 4 == 0 && y % 4 == 0 && 0 <= x && x + 4 <= width && 0 <= y && y + 4 <= height
            },
        forall|x: int, y: int|
            0 <= x < width && 0 <= y < height ==> 0 <= #[trigger] block_of(width, x, y) < block_count(
                width,
                height,
            ) && covers(width, block_of(width, x, y), x, y),
        forall|i: int, x: int, y: int|
            0 <= i < block_count(width, height) && 0 <= x < width && 0 <= y < height && #[trigger] covers(
                width,
                i,
                x,
                y,
            ) ==> i == block_of(width, x, y),
{
    if width == 0 {
        assert(block_count(width, height) == 0);
    } else {
        assert forall|i: int, j: int|
            0 <= i < block_count(width, height) && 0 <= j < block_count(width, height) && i != j
                implies #[trigger] tile_coord(width, i) != #[trigger] tile_coord(width, j) by {
            lemma_walk_inverse(width, height, i);
            lemma_walk_inverse(width, height, j);
            assert(block_of(width, tile_coord(width, i).0 + 0, tile_coord(width, i).1 + 0) == i);
            assert(block_of(width, tile_coord(width, j).0 + 0, tile_coord(width, j).1 + 0) == j);
        }
        assert forall|i: int| 0 <= i < block_count(width, height) implies {
            let (x, y) = #[trigger] tile_coord(width, i);
            x % 4 == 0 && y % 4 == 0 && 0 <= x && x + 4 <= width && 0 <= y && y + 4 <= height
        } by {
            lemma_walk_inverse(width, height, i);
        }
        assert forall|x: int, y: int| 0 <= x < width && 0 <= y < height implies 0
            <= #[trigger] block_of(width, x, y) < block_count(width, height) && covers(
            width,
            block_of(width, x, y),
            x,
            y,
        ) by {
            lemma_block_of(width, height, x, y);
        }
        assert forall|i: int, x: int, y: int|
            0 <= i < block_count(width, height) && 0 <= x < width && 0 <= y < height
                && #[trigger] covers(width, i, x, y) implies i == block_of(width, x, y) by {
            lemma_walk_inverse(width, height, i);
            let (bx, by) = tile_coord(width, i);
            assert(block_of(width, bx + (x - bx), by + (y - by)) == i);
        }
    }
}


/// The walk itself: the top-left corner of every stored block, in storage
/// order, for an image whose dimensions are multiples of 8.
pub fn tile_walk(width: u32, height: u32) -> (r: Vec<(u32, u32)>)
    requires
        tiled(width as int, height as int),
    ensures
        r@.len() == block_count(width as int, height as int),
        forall|i: int|
            0 <= i < r@.len() ==> (#[trigger] r@[i]).0 as int == tile_coord(width as int, i).0
                && r@[i].1 as int == tile_coord(width as int, i).1,
{
    let mut r: Vec<(u32, u32)> = Vec::new();
    let across: u32 = width / 8;
    let down: u32 = height / 8;
    let mut ty: u32 = 0;
    while ty < down
        invariant
            across == width / 8,
            down == height / 8,
            tiled(width as int, height as int),
            0 <= ty <= down,
            r@.len() == 4 * (ty * across),
            forall|i: int|
                0 <= i < r@.len() ==> (#[trigger] r@[i]).0 as int == tile_coord(width as int, i).0
                    && r@[i].1 as int == tile_coord(width as int, i).1,
        decreases down - ty,
    {
        let mut tx: u32 = 0;
        while tx < across
            invariant
                across == width / 8,
                down == height / 8,
                tiled(width as int, height as int),
                0 <= ty < down,
                0 <= tx <= across,
                r@.len() == 4 * (ty * across + tx),
                forall|i: int|
                    0 <= i < r@.len() ==> (#[trigger] r@[i]).0 as int == tile_coord(width as int, i).0
                        && r@[i].1 as int == tile_coord(width as int, i).1,
            decreases across - tx,
        {
            assert(tx * 8 + 8 <= width && ty * 8 + 8 <= height) by (nonlinear_arith)
                requires
                    tx < across,
                    across == width / 8,
                    ty < down,
                    down == height / 8,
            ;
            let x = tx * 8;
            let y = ty * 8;
            let base = Ghost(r@.len());
            proof {
                lemma_coord_of(width as int, tx as int, ty as int, 0);
                lemma_coord_of(width as int, tx as int, ty as int, 1);
                lemma_coord_of(width as int, tx as int, ty as int, 2);
                lemma_coord_of(width as int, tx as int, ty as int, 3);
            }
            r.push((x, y));
            r.push((x + 4, y));
            r.push((x, y + 4));
            r.push((x + 4, y + 4));
            assert forall|i: int|
                0 <= i < r@.len() implies (#[trigger] r@[i]).0 as int == tile_coord(width as int, i).0
                    && r@[i].1 as int == tile_coord(width as int, i).1 by {
                if i >= base@ {
                    assert(i == 4 * (ty * across + tx) + (i - base@));
                }
            }
            tx = tx + 1;
        }
        assert(4 * (ty * across + across) == 4 * ((ty + 1) * across)) by (nonlinear_arith);
        ty = ty + 1;
    }
    assert(4 * (down * across) == block_count(width as int, height as int)) by (nonlinear_arith)
        requires
            across == width / 8,
            down == height / 8,
    ;
    r
}

} // verus!
