//! 5-6-5 packed colours: expansion to 8 bits per channel through the
//! hardware rounding tables, truncating quantisation, and channel blending.
use vstd::prelude::*;

verus! {

/// An 8-bit-per-channel colour with alpha.
#[derive(Clone, Copy, Debug, PartialEq, Eq, Structural)]
pub struct Colour {
    pub r: u8,
    pub g: u8,
    pub b: u8,
    pub a: u8,
}

/// 5-bit to 8-bit channel expansion.
const CC58: [u8; 32] = [
    0x00, 0x08, 0x10, 0x19, 0x21, 0x29, 0x31, 0x3a, 0x42, 0x4a, 0x52, 0x5a, 0x63, 0x6b, 0x73, 0x7b,
    0x84, 0x8c, 0x94, 0x9c, 0xa5, 0xad, 0xb5, 0xbd, 0xc5, 0xce, 0xd6, 0xde, 0xe6, 0xef, 0xf7, 0xff,
];

/// 6-bit to 8-bit channel expansion.
const CC68: [u8; 64] = [
    0x00, 0x04, 0x08, 0x0c, 0x10, 0x14, 0x18, 0x1c, 0x20, 0x24, 0x28, 0x2d, 0x31, 0x35, 0x39, 0x3d,
    0x41, 0x45, 0x49, 0x4d, 0x51, 0x55, 0x59, 0x5d, 0x61, 0x65, 0x69, 0x6d, 0x71, 0x75, 0x79, 0x7d,
    0x82, 0x86, 0x8a, 0x8e, 0x92, 0x96, 0x9a, 0x9e, 0xa2, 0xa6, 0xaa, 0xae, 0xb2, 0xb6, 0xba, 0xbe,
    0xc2, 0xc6, 0xca, 0xce, 0xd2, 0xd7, 0xdb, 0xdf, 0xe3, 0xe7, 0xeb, 0xef, 0xf3, 0xf7, 0xfb, 0xff,
];

/// The 32-entry table that widens a 5-bit channel to 8 bits.
#[verifier::opaque]
pub open spec fn table5() -> Seq<u8> {
    seq![
        0x00u8, 0x08, 0x10, 0x19, 0x21, 0x29, 0x31, 0x3a, 0x42, 0x4a, 0x52, 0x5a, 0x63, 0x6b, 0x73, 0x7b,
        0x84, 0x8c, 0x94, 0x9c, 0xa5, 0xad, 0xb5, 0xbd, 0xc5, 0xce, 0xd6, 0xde, 0xe6, 0xef, 0xf7, 0xff,
    ]
}

/// The 64-entry table that widens a 6-bit channel to 8 bits.
#[verifier::opaque]
pub open spec fn table6() -> Seq<u8> {
    seq![
        0x00u8, 0x04, 0x08, 0x0c, 0x10, 0x14, 0x18, 0x1c, 0x20, 0x24, 0x28, 0x2d, 0x31, 0x35, 0x39, 0x3d,
        0x41, 0x45, 0x49, 0x4d, 0x51, 0x55, 0x59, 0x5d, 0x61, 0x65, 0x69, 0x6d, 0x71, 0x75, 0x79, 0x7d,
        0x82, 0x86, 0x8a, 0x8e, 0x92, 0x96, 0x9a, 0x9e, 0xa2, 0xa6, 0xaa, 0xae, 0xb2, 0xb6, 0xba, 0xbe,
        0xc2, 0xc6, 0xca, 0xce, 0xd2, 0xd7, 0xdb, 0xdf, 0xe3, 0xe7, 0xeb, 0xef, 0xf3, 0xf7, 0xfb, 0xff,
    ]
}

/// Red field of a packed 5-6-5 colour (bits 15 to 11).
pub open spec fn red5(c: int) -> int {
    (c / 2048) % 32
}

/// Green field of a packed 5-6-5 colour (bits 10 to 5).
pub open spec fn green6(c: int) -> int {
    (c / 32) % 64
}

/// Blue field of a packed 5-6-5 colour (bits 4 to 0).
pub open spec fn blue5(c: int) -> int {
    c % 32
}

/// Packs three channel values into one 5-6-5 word.
pub open spec fn pack565(r: int, g: int, b: int) -> int {
    r * 2048 + g * 32 + b
}

/// The opaque 8-bit colour that a packed 5-6-5 value stands for.
pub open spec fn expand(c: int) -> Colour {
    Colour {
        r: table5()[red5(c)],
        g: table6()[green6(c)],
        b: table5()[blue5(c)],
        a: 255,
    }
}

/// The fully transparent colour.
pub open spec fn transparent() -> Colour {
    Colour { r: 0, g: 0, b: 0, a: 0 }
}

/// One blended channel: `(x * mul1 + y * mul2) / div`, truncated.
pub open spec fn mix_channel(x: int, y: int, mul1: int, mul2: int, div: int) -> int {
    (x * mul1 + y * mul2) / div
}

/// Whether blending the channels of `c0` and `c1` with these weights stays
/// within 32-bit arithmetic.
pub open spec fn mix_fits(c0: int, c1: int, mul1: int, mul2: int) -> bool {
    &&& red5(c0) * mul1 + red5(c1) * mul2 <= u32::MAX
    &&& green6(c0) * mul1 + green6(c1) * mul2 <= u32::MAX
    &&& blue5(c0) * mul1 + blue5(c1) * mul2 <= u32::MAX
}

/// The 5-6-5 word obtained by blending each channel of `c0` and `c1`; exact
/// when the weights do not exceed the divisor, so that each channel stays in
/// its field.
pub open spec fn mix(c0: int, c1: int, mul1: int, mul2: int, div: int) -> int {
    pack565(
        mix_channel(red5(c0), red5(c1), mul1, mul2, div),
        mix_channel(green6(c0), green6(c1), mul1, mul2, div),
        mix_channel(blue5(c0), blue5(c1), mul1, mul2, div),
    )
}

/// The 5-6-5 value nearest below an 8-bit colour: each channel truncated to
/// its width.
pub open spec fn quantize(p: Colour) -> int {
    pack565(p.r as int / 8, p.g as int / 4, p.b as int / 8)
}

proof fn lemma_fields(c: u32)
    ensures
        (c >> 11) & 31 == red5(c as int),
        (c >> 5) & 63 == green6(c as int),
        c & 31 == blue5(c as int),
{
    assert((c >> 11) & 31 == (c / 2048) % 32) by (bit_vector);
    assert((c >> 5) & 63 == (c / 32) % 64) by (bit_vector);
    assert(c & 31 == c % 32) by (bit_vector);
}

proof fn lemma_pack(r: u32, g: u32, b: u32)
    requires
        r < 32,
        g < 64,
        b < 32,
    ensures
        (r << 11) | (g << 5) | b == pack565(r as int, g as int, b as int),
        pack565(r as int, g as int, b as int) < 0x10000,
{
    assert((r << 11) | (g << 5) | b == r * 2048 + g * 32 + b) by (bit_vector)
        requires
            r < 32,
            g < 64,
            b < 32,
    ;
}

proof fn lemma_unpack(c: int)
    requires
        0 <= c < 0x10000,
    ensures
        pack565(red5(c), green6(c), blue5(c)) == c,
        red5(c) == c / 2048,
{
}

proof fn lemma_mix_channel_bound(x: int, y: int, mul1: int, mul2: int, div: int, top: int)
    requires
        0 <= x <= top,
        0 <= y <= top,
        0 <= mul1,
        0 <= mul2,
        0 < div,
        mul1 + mul2 <= div,
    ensures
        0 <= mix_channel(x, y, mul1, mul2, div) <= top,
{
    assert(x * mul1 + y * mul2 <= top * div) by (nonlinear_arith)
        requires
            0 <= x <= top,
            0 <= y <= top,
            0 <= mul1,
            0 <= mul2,
            mul1 + mul2 <= div,
    ;
    assert(0 <= x * mul1 + y * mul2) by (nonlinear_arith)
        requires
            0 <= x,
            0 <= y,
            0 <= mul1,
            0 <= mul2,
    ;
    assert((x * mul1 + y * mul2) / div <= top) by (nonlinear_arith)
        requires
            x * mul1 + y * mul2 <= top * div,
            0 < div,
    ;
}

/// Blends two packed 5-6-5 colours channel by channel: each channel becomes
/// `(ch0 * mul1 + ch1 * mul2) / div`, truncated, and the three are packed
/// again. With weights that sum to at most `div` the result is a 5-6-5 word.
pub fn mix_colours(c0: u32, c1: u32, mul1: u32, mul2: u32, div: u32) -> (r: u32)
    requires
        div > 0,
        mix_fits(c0 as int, c1 as int, mul1 as int, mul2 as int),
    ensures
        r == ((mix_channel(red5(c0 as int), red5(c1 as int), mul1 as int, mul2 as int, div as int) as u32) << 11)
            | ((mix_channel(green6(c0 as int), green6(c1 as int), mul1 as int, mul2 as int, div as int) as u32) << 5)
            | (mix_channel(blue5(c0 as int), blue5(c1 as int), mul1 as int, mul2 as int, div as int) as u32),
        mul1 + mul2 <= div ==> r == mix(c0 as int, c1 as int, mul1 as int, mul2 as int, div as int) && r < 0x10000,
{
    proof {
        lemma_fields(c0);
        lemma_fields(c1);
    }
    let r0 = (c0 >> 11) & 31;
    let g0 = (c0 >> 5) & 63;
    let b0 = c0 & 31;

    let r1 = (c1 >> 11) & 31;
    let g1 = (c1 >> 5) & 63;
    let b1 = c1 & 31;

    let r = (r0 * mul1 + r1 * mul2) / div;
    let g = (g0 * mul1 + g1 * mul2) / div;
    let b = (b0 * mul1 + b1 * mul2) / div;

    proof {
        if mul1 + mul2 <= div {
            lemma_mix_channel_bound(r0 as int, r1 as int, mul1 as int, mul2 as int, div as int, 31);
            lemma_mix_channel_bound(g0 as int, g1 as int, mul1 as int, mul2 as int, div as int, 63);
            lemma_mix_channel_bound(b0 as int, b1 as int, mul1 as int, mul2 as int, div as int, 31);
            lemma_pack(r, g, b);
        }
    }
    (r << 11) | (g << 5) | b
}


/// Expands a packed 5-6-5 colour to `0xAARRGGBB` with alpha 255, each
/// channel through its table.
pub fn rgb565_to_rgb888(c: u32) -> (r: u32)
    requires
        c < 0x10000,
    ensures
        r == 0xFF00_0000 + table5()[red5(c as int)] as int * 0x10000
            + table6()[green6(c as int)] as int * 0x100 + table5()[blue5(c as int)] as int,
{
    proof {
        lemma_fields(c);
        reveal(table5);
        reveal(table6);
    }
    let r5 = (c >> 11) as usize;
    let g6 = (c >> 5 & 0x3F) as usize;
    let b5 = (c & 0x1F) as usize;
    proof {
        assert(c >> 11 == (c >> 11) & 31) by (bit_vector)
            requires
                c < 0x10000,
        ;
    }
    let r8 = CC58[r5] as u32;
    let g8 = CC68[g6] as u32;
    let b8 = CC58[b5] as u32;
    proof {
        assert(0xFFu32 << 24 | r8 << 16 | g8 << 8 | b8 == 0xFF00_0000 + r8 * 0x10000 + g8 * 0x100 + b8)
            by (bit_vector)
            requires
                r8 < 256,
                g8 < 256,
                b8 < 256,
        ;
    }
    0xFFu32 << 24 | r8 << 16 | g8 << 8 | b8
}

/// The three expanded channels of a packed 5-6-5 colour.
fn expand_channels(c: u32) -> (r: (u8, u8, u8))
    requires
        c < 0x10000,
    ensures
        r.0 == expand(c as int).r,
        r.1 == expand(c as int).g,
        r.2 == expand(c as int).b,
{
    proof {
        lemma_fields(c);
        reveal(table5);
        reveal(table6);
        assert(c >> 11 == (c >> 11) & 31) by (bit_vector)
            requires
                c < 0x10000,
        ;
    }
    let r5 = (c >> 11) as usize;
    let g6 = (c >> 5 & 0x3F) as usize;
    let b5 = (c & 0x1F) as usize;
    (CC58[r5], CC68[g6], CC58[b5])
}

/// Expands a packed 5-6-5 colour to its red, green and blue bytes.
pub fn rgb565_to_rgb_colour(c: u32) -> (r: [u8; 3])
    requires
        c < 0x10000,
    ensures
        r@ == seq![expand(c as int).r, expand(c as int).g, expand(c as int).b],
{
    let (r8, g8, b8) = expand_channels(c);
    [r8, g8, b8]
}

/// Expands a packed 5-6-5 colour to an opaque 8-bit colour.
pub fn rgb565_to_rgba_colour(c: u32) -> (r: Colour)
    requires
        c < 0x10000,
    ensures
        r == expand(c as int),
{
    let (r8, g8, b8) = expand_channels(c);
    Colour { r: r8, g: g8, b: b8, a: 255 }
}

/// Whether two endpoints select the four-colour palette: a comparison of
/// the raw packed words.
pub open spec fn four_colour_mode(c0: int, c1: int) -> bool {
    c0 >= c1
}

/// The four-entry palette of a block with endpoints `c0` and `c1`.
#[verifier::opaque]
pub open spec fn palette(c0: int, c1: int) -> Seq<Colour> {
    if four_colour_mode(c0, c1) {
        seq![expand(c0), expand(c1), expand(mix(c0, c1, 2, 1, 3)), expand(mix(c0, c1, 1, 2, 3))]
    } else {
        seq![expand(c0), expand(c1), expand(mix(c0, c1, 1, 1, 2)), transparent()]
    }
}

proof fn lemma_mix_fits(c0: u32, c1: u32, mul1: u32, mul2: u32)
    requires
        mul1 <= 2,
        mul2 <= 2,
    ensures
        mix_fits(c0 as int, c1 as int, mul1 as int, mul2 as int),
{
    let (r0, r1) = (red5(c0 as int), red5(c1 as int));
    let (g0, g1) = (green6(c0 as int), green6(c1 as int));
    let (b0, b1) = (blue5(c0 as int), blue5(c1 as int));
    assert(r0 * mul1 + r1 * mul2 <= 124) by (nonlinear_arith)
        requires
            0 <= r0 < 32,
            0 <= r1 < 32,
            mul1 <= 2,
            mul2 <= 2,
    ;
    assert(g0 * mul1 + g1 * mul2 <= 252) by (nonlinear_arith)
        requires
            0 <= g0 < 64,
            0 <= g1 < 64,
            mul1 <= 2,
            mul2 <= 2,
    ;
    assert(b0 * mul1 + b1 * mul2 <= 124) by (nonlinear_arith)
        requires
            0 <= b0 < 32,
            0 <= b1 < 32,
            mul1 <= 2,
            mul2 <= 2,
    ;
}

/// The palette of a block whose endpoints are the 5-6-5 words `lc0` and
/// `lc1`: the two endpoints, then two blends in four-colour mode
/// (`lc0 >= lc1`), or one blend and transparency otherwise.
pub fn get_next_colours(lc0: u32, lc1: u32) -> (r: [Colour; 4])
    requires
        lc0 < 0x10000,
        lc1 < 0x10000,
    ensures
        r@ == palette(lc0 as int, lc1 as int),
{
    let c0 = rgb565_to_rgba_colour(lc0);
    let c1 = rgb565_to_rgba_colour(lc1);
    let c2: Colour;
    let c3: Colour;

    if lc0 >= lc1 {
        proof {
            lemma_mix_fits(lc0, lc1, 2, 1);
            lemma_mix_fits(lc0, lc1, 1, 2);
        }
        let lc2 = mix_colours(lc0, lc1, 2, 1, 3);
        c2 = rgb565_to_rgba_colour(lc2);
        let lc3 = mix_colours(lc0, lc1, 1, 2, 3);
        c3 = rgb565_to_rgba_colour(lc3);
    } else {
        proof {
            lemma_mix_fits(lc0, lc1, 1, 1);
        }
        let lc2 = mix_colours(lc0, lc1, 1, 1, 2);
        c2 = rgb565_to_rgba_colour(lc2);
        c3 = Colour { r: 0, g: 0, b: 0, a: 0 };
    }
    let r = [c0, c1, c2, c3];
    reveal(palette);
    assert(r@ =~= palette(lc0 as int, lc1 as int));
    r
}

/// Truncates each channel of an 8-bit colour to its 5-6-5 width and packs
/// the result; alpha is not kept.
pub fn quantize_colour(p: Colour) -> (r: u16)
    ensures
        r == quantize(p),
{
    let r5 = (p.r >> 3) as u32;
    let g6 = (p.g >> 2) as u32;
    let b5 = (p.b >> 3) as u32;
    proof {
        let (pr, pg, pb) = (p.r, p.g, p.b);
        assert(pr >> 3 == pr / 8 && pg >> 2 == pg / 4 && pb >> 3 == pb / 8) by (bit_vector);
        lemma_pack(r5, g6, b5);
    }
    ((r5 << 11) | (g6 << 5) | b5) as u16
}


proof fn lemma_tables_increase()
    ensures
        forall|i: int| 0 <= i < 31 ==> #[trigger] table5()[i] < table5()[i + 1],
        forall|i: int| 0 <= i < 63 ==> #[trigger] table6()[i] < table6()[i + 1],
        forall|i: int| 0 <= i < 32 ==> 8 * i <= #[trigger] table5()[i] <= 8 * i + 7,
        forall|i: int| 0 <= i < 64 ==> 4 * i <= #[trigger] table6()[i] <= 4 * i + 3,
{
    reveal(table5);
    reveal(table6);
}

/// Channel expansion never decreases: a larger field value never expands to
/// a smaller byte, in each of the three channels.
pub proof fn expand_is_monotone(a: int, b: int)
    requires
        0 <= a < 0x10000,
        0 <= b < 0x10000,
    ensures
        red5(a) <= red5(b) ==> expand(a).r <= expand(b).r,
        green6(a) <= green6(b) ==> expand(a).g <= expand(b).g,
        blue5(a) <= blue5(b) ==> expand(a).b <= expand(b).b,
{
    lemma_tables_increase();
    assert forall|i: int, j: int| 0 <= i <= j < 32 implies table5()[i] <= table5()[j] by {
        assert(8 * i <= table5()[i] <= 8 * i + 7);
        assert(8 * j <= table5()[j] <= 8 * j + 7);
        if i < j {
            assert(table5()[j - 1] < table5()[j]);
            assert(8 * (j - 1) <= table5()[j - 1]);
        }
    }
    assert forall|i: int, j: int| 0 <= i <= j < 64 implies table6()[i] <= table6()[j] by {
        assert(4 * i <= table6()[i] <= 4 * i + 3);
        assert(4 * j <= table6()[j] <= 4 * j + 3);
    }
}

/// Equal endpoints select the four-colour palette, and all four of its
/// entries are opaque.
pub proof fn equal_endpoints_are_opaque(c: int)
    requires
        0 <= c < 0x10000,
    ensures
        four_colour_mode(c, c),
        forall|k: int| 0 <= k < 4 ==> (#[trigger] palette(c, c)[k]).a == 255,
{
    reveal(palette);
}

/// When the first endpoint is below the second, the last palette entry is
/// fully transparent black, whatever the channels hold.
pub proof fn ascending_endpoints_give_transparency(c0: int, c1: int)
    requires
        c0 < c1,
    ensures
        !four_colour_mode(c0, c1),
        palette(c0, c1)[3] == transparent(),
{
    reveal(palette);
}

/// Which palette entries are opaque: all four in four-colour mode, the
/// first three otherwise, the fourth being transparent.
pub proof fn lemma_palette_alpha(c0: int, c1: int)
    ensures
        palette(c0, c1).len() == 4,
        forall|j: int| 0 <= j < 4 ==> ((#[trigger] palette(c0, c1)[j]).a == 255 <==> (j < 3 || c0 >= c1)),
        c0 < c1 ==> palette(c0, c1)[3] == transparent(),
        palette(c0, c1)[0] == expand(c0),
        palette(c0, c1)[1] == expand(c1),
{
    reveal(palette);
}

/// Quantising a colour and expanding it again moves each channel by less
/// than one step of its field: less than 8 in red and blue, less than 4 in
/// green; alpha becomes 255.
pub proof fn quantize_then_expand_is_close(p: Colour)
    ensures
        -7 <= expand(quantize(p)).r - p.r <= 7,
        -3 <= expand(quantize(p)).g - p.g <= 3,
        -7 <= expand(quantize(p)).b - p.b <= 7,
        expand(quantize(p)).a == 255,
{
    lemma_tables_increase();
    let (r5, g6, b5) = (p.r as int / 8, p.g as int / 4, p.b as int / 8);
    lemma_unpack(quantize(p));
    assert(red5(quantize(p)) == r5);
    assert(green6(quantize(p)) == g6);
    assert(blue5(quantize(p)) == b5);
    assert(8 * r5 <= table5()[r5] <= 8 * r5 + 7);
    assert(4 * g6 <= table6()[g6] <= 4 * g6 + 3);
    assert(8 * b5 <= table5()[b5] <= 8 * b5 + 7);
}

} // verus!
