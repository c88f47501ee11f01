use rsgct::colour::{
    get_next_colours, mix_colours, quantize_colour, rgb565_to_rgb888, rgb565_to_rgb_colour,
    rgb565_to_rgba_colour, Colour,
};

const CC58: [u8; 32] = [
    0x00, 0x08, 0x10, 0x19, 0x21, 0x29, 0x31, 0x3a, 0x42, 0x4a, 0x52, 0x5a, 0x63, 0x6b, 0x73, 0x7b,
    0x84, 0x8c, 0x94, 0x9c, 0xa5, 0xad, 0xb5, 0xbd, 0xc5, 0xce, 0xd6, 0xde, 0xe6, 0xef, 0xf7, 0xff,
];

fn rgba(r: u8, g: u8, b: u8, a: u8) -> Colour {
    Colour { r, g, b, a }
}

#[test]
fn expand_white_and_black() {
    assert_eq!(rgb565_to_rgba_colour(0xFFFF), rgba(255, 255, 255, 255));
    assert_eq!(rgb565_to_rgba_colour(0x0000), rgba(0, 0, 0, 255));
}

#[test]
fn expand_uses_tables_not_shifts() {
    // red field 3 -> 0x19, green field 11 -> 0x2d, blue field 25 -> 0xce
    let c: u32 = (3 << 11) | (11 << 5) | 25;
    assert_eq!(rgb565_to_rgba_colour(c), rgba(0x19, 0x2d, 0xce, 255));
    assert_eq!(rgb565_to_rgb_colour(c), [0x19, 0x2d, 0xce]);
    assert_eq!(rgb565_to_rgb888(c), 0xFF19_2DCE);
}

#[test]
fn expand_to_packed_word() {
    assert_eq!(rgb565_to_rgb888(0xFFFF), 0xFFFF_FFFF);
    assert_eq!(rgb565_to_rgb888(0x0000), 0xFF00_0000);
    assert_eq!(rgb565_to_rgb888(0xF800), 0xFFFF_0000);
    assert_eq!(rgb565_to_rgb888(0x07E0), 0xFF00_FF00);
    assert_eq!(rgb565_to_rgb888(0x001F), 0xFF00_00FF);
}

#[test]
fn expansion_is_monotone_per_channel() {
    for v in 0u32..31 {
        let a = rgb565_to_rgba_colour(v << 11);
        let b = rgb565_to_rgba_colour((v + 1) << 11);
        assert!(a.r <= b.r);
        let a = rgb565_to_rgba_colour(v);
        let b = rgb565_to_rgba_colour(v + 1);
        assert!(a.b <= b.b);
        assert_eq!(a.b, CC58[v as usize]);
    }
    for v in 0u32..63 {
        let a = rgb565_to_rgba_colour(v << 5);
        let b = rgb565_to_rgba_colour((v + 1) << 5);
        assert!(a.g <= b.g);
    }
}

#[test]
fn mix_two_thirds_one_third() {
    // red 30 and 0: (30*2 + 0) / 3 = 20; green 60 and 3: (120 + 3) / 3 = 41; blue 1 and 31: (2 + 31) / 3 = 11
    let c0: u32 = (30 << 11) | (60 << 5) | 1;
    let c1: u32 = (0 << 11) | (3 << 5) | 31;
    assert_eq!(mix_colours(c0, c1, 2, 1, 3), (20 << 11) | (41 << 5) | 11);
    // halves truncate: (30 + 0) / 2 = 15, (60 + 3) / 2 = 31, (1 + 31) / 2 = 16
    assert_eq!(mix_colours(c0, c1, 1, 1, 2), (15 << 11) | (31 << 5) | 16);
}

#[test]
fn mix_white_and_black() {
    assert_eq!(mix_colours(0xFFFF, 0x0000, 2, 1, 3), (20 << 11) | (42 << 5) | 20);
    assert_eq!(mix_colours(0xFFFF, 0x0000, 1, 2, 3), (10 << 11) | (21 << 5) | 10);
}

#[test]
fn equal_endpoints_use_four_opaque_colours() {
    let pal = get_next_colours(0x1234, 0x1234);
    for c in pal.iter() {
        assert_eq!(c.a, 255);
        assert_eq!(*c, rgb565_to_rgba_colour(0x1234));
    }
}

#[test]
fn ascending_endpoints_make_last_entry_transparent() {
    for (c0, c1) in [(0x0000u32, 0xFFFFu32), (0x1234, 0x1235), (0x7BEF, 0xFFFE)] {
        let pal = get_next_colours(c0, c1);
        assert_eq!(pal[3], rgba(0, 0, 0, 0));
        assert_eq!(pal[0], rgb565_to_rgba_colour(c0));
        assert_eq!(pal[1], rgb565_to_rgba_colour(c1));
        assert_eq!(pal[2], rgb565_to_rgba_colour(mix_colours(c0, c1, 1, 1, 2)));
    }
}

#[test]
fn four_colour_palette_of_white_and_black() {
    let pal = get_next_colours(0xFFFF, 0x0000);
    assert_eq!(pal[0], rgba(255, 255, 255, 255));
    assert_eq!(pal[1], rgba(0, 0, 0, 255));
    assert_eq!(pal[2], rgba(0xa5, 0xaa, 0xa5, 255));
    assert_eq!(pal[3], rgba(0x52, 0x55, 0x52, 255));
}

#[test]
fn quantize_truncates_each_channel() {
    assert_eq!(quantize_colour(rgba(255, 255, 255, 0)), 0xFFFF);
    assert_eq!(quantize_colour(rgba(7, 3, 7, 255)), 0x0000);
    assert_eq!(quantize_colour(rgba(8, 4, 8, 255)), (1 << 11) | (1 << 5) | 1);
}

#[test]
fn quantize_then_expand_stays_within_a_step() {
    for v in 0u32..256 {
        let v = v as u8;
        let back = rgb565_to_rgba_colour(quantize_colour(rgba(v, v, v, 255)) as u32);
        assert!((back.r as i32 - v as i32).abs() <= 7);
        assert!((back.g as i32 - v as i32).abs() <= 3);
        assert!((back.b as i32 - v as i32).abs() <= 7);
    }
}
