use rsgct::colour::Colour;
use rsgct::decode::{
    create_png, decode, get_block, read_block, read_header, read_int, read_short, write_block,
    GctError, PIXEL_DATA_AT,
};
use rsgct::encode::{choose_endpoints, encode, encode_block, encode_into};
use rsgct::raster::Raster;
use rsgct::tile::tile_walk;

fn rgba(r: u8, g: u8, b: u8, a: u8) -> Colour {
    Colour { r, g, b, a }
}

fn header(width: u16, height: u16) -> Vec<u8> {
    let mut h = vec![0u8; PIXEL_DATA_AT];
    h[0x10..0x12].copy_from_slice(&width.to_be_bytes());
    h[0x12..0x14].copy_from_slice(&height.to_be_bytes());
    h
}

fn block(c0: u16, c1: u16, indexes: u32) -> Vec<u8> {
    let mut b = Vec::new();
    b.extend_from_slice(&c0.to_be_bytes());
    b.extend_from_slice(&c1.to_be_bytes());
    b.extend_from_slice(&indexes.to_be_bytes());
    b
}

fn raster_of(width: u32, height: u32, f: impl Fn(u32, u32) -> Colour) -> Raster {
    let mut buf = Vec::new();
    for y in 0..height {
        for x in 0..width {
            let c = f(x, y);
            buf.extend_from_slice(&[c.r, c.g, c.b, c.a]);
        }
    }
    Raster::from_raw(width, height, buf).unwrap()
}

#[test]
fn big_endian_reads() {
    let data = [0x12u8, 0x34, 0x56, 0x78, 0x9a];
    assert_eq!(read_short(&data, 0), Some(0x1234));
    assert_eq!(read_short(&data, 3), Some(0x789a));
    assert_eq!(read_short(&data, 4), None);
    assert_eq!(read_short(&data, 9), None);
    assert_eq!(read_int(&data, 0), Some(0x1234_5678));
    assert_eq!(read_int(&data, 1), Some(0x3456_789a));
    assert_eq!(read_int(&data, 2), None);
}

#[test]
fn indices_most_significant_pair_first() {
    let b = get_block(0b11_10_01_00_00_00_00_00_00_00_00_00_00_00_00_01);
    assert_eq!(&b[..4], &[3, 2, 1, 0]);
    assert_eq!(b[15], 1);
    assert!(b[4..15].iter().all(|&i| i == 0));
    assert_eq!(get_block(0xFFFF_FFFF), [3u8; 16]);
}

#[test]
fn header_dimensions_are_read() {
    assert_eq!(read_header(&header(0x0120, 0x0040)), Ok((0x120, 0x40)));
}

#[test]
fn short_header_is_a_format_error() {
    assert_eq!(read_header(&header(8, 8)[..0x13]), Err(GctError::Format));
    assert_eq!(read_header(&[]), Err(GctError::Format));
    assert!(matches!(decode(&header(8, 8)[..0x12], PIXEL_DATA_AT), Err(GctError::Format)));
}

#[test]
fn zero_dimension_is_rejected() {
    assert_eq!(read_header(&header(0, 8)), Err(GctError::Dimension));
    assert_eq!(read_header(&header(8, 0)), Err(GctError::Dimension));
}

#[test]
fn dimension_not_multiple_of_eight_is_rejected() {
    let mut data = header(12, 8);
    data.extend(std::iter::repeat(0u8).take(1024));
    assert!(matches!(decode(&data, PIXEL_DATA_AT), Err(GctError::Dimension)));
}

#[test]
fn white_eight_by_eight() {
    let mut data = header(8, 8);
    for _ in 0..4 {
        data.extend(block(0xFFFF, 0x0000, 0x0000_0000));
    }
    let img = decode(&data, PIXEL_DATA_AT).unwrap();
    assert_eq!(img.dimensions(), (8, 8));
    for y in 0..8 {
        for x in 0..8 {
            assert_eq!(img.pixel(x, y), Some(rgba(255, 255, 255, 255)));
        }
    }
    assert_eq!(img.pixel(8, 0), None);
    assert_eq!(img.pixel(0, 8), None);
}

#[test]
fn transparent_block() {
    let data = block(0x0000, 0xFFFF, 0xFFFF_FFFF);
    let (colours, indexes) = read_block(&data, 0).unwrap();
    for k in 0..16 {
        assert_eq!(colours[indexes[k] as usize], rgba(0, 0, 0, 0));
    }
    let mut img = raster_of(4, 4, |_, _| rgba(9, 9, 9, 9));
    write_block(indexes, colours, 0, 0, &mut img);
    for y in 0..4 {
        for x in 0..4 {
            assert_eq!(img.pixel(x, y), Some(rgba(0, 0, 0, 0)));
        }
    }
}

#[test]
fn truncated_block_is_an_error() {
    let data = block(0xFFFF, 0x0000, 0);
    assert_eq!(read_block(&data[..7], 0), Err(GctError::TruncatedBlock));
    assert_eq!(read_block(&data, 1), Err(GctError::TruncatedBlock));
    let mut data = header(8, 8);
    for _ in 0..3 {
        data.extend(block(0xFFFF, 0x0000, 0));
    }
    data.extend(&block(0xFFFF, 0x0000, 0)[..7]);
    assert!(matches!(decode(&data, PIXEL_DATA_AT), Err(GctError::TruncatedBlock)));
    assert!(matches!(create_png(&data, PIXEL_DATA_AT, 8, 8), Err(GctError::TruncatedBlock)));
    data.push(0);
    assert!(decode(&data, PIXEL_DATA_AT).is_ok());
}

#[test]
fn walk_order_of_two_tiles() {
    assert_eq!(
        tile_walk(16, 8),
        vec![(0, 0), (4, 0), (0, 4), (4, 4), (8, 0), (12, 0), (8, 4), (12, 4)]
    );
    assert_eq!(
        tile_walk(8, 16),
        vec![(0, 0), (4, 0), (0, 4), (4, 4), (0, 8), (4, 8), (0, 12), (4, 12)]
    );
    assert!(tile_walk(0, 8).is_empty());
}

#[test]
fn walk_covers_every_pixel_once() {
    let (w, h) = (40u32, 24u32);
    let walk = tile_walk(w, h);
    assert_eq!(walk.len(), ((w / 8) * (h / 8) * 4) as usize);
    let mut seen = vec![0u32; (w * h) as usize];
    for &(x, y) in &walk {
        assert!(x % 4 == 0 && y % 4 == 0 && x + 4 <= w && y + 4 <= h);
        for dy in 0..4 {
            for dx in 0..4 {
                seen[((y + dy) * w + x + dx) as usize] += 1;
            }
        }
    }
    assert!(seen.iter().all(|&n| n == 1));
}

#[test]
fn blocks_land_where_the_walk_says() {
    // 16x8: eight blocks, each a distinct solid colour chosen by color0
    let colours: [u16; 8] = [0xF800, 0x07E0, 0x001F, 0xFFE0, 0xF81F, 0x07FF, 0x8410, 0xFFFF];
    let mut data = header(16, 8);
    for &c in &colours {
        data.extend(block(c, 0x0000, 0));
    }
    let img = decode(&data, PIXEL_DATA_AT).unwrap();
    let walk = tile_walk(16, 8);
    for (i, &(x, y)) in walk.iter().enumerate() {
        let want = rsgct::colour::rgb565_to_rgba_colour(colours[i] as u32);
        for dy in 0..4 {
            for dx in 0..4 {
                assert_eq!(img.pixel(x + dx, y + dy), Some(want));
            }
        }
    }
}

#[test]
fn custom_start_offset() {
    let mut data = header(8, 8);
    data.extend(vec![0xAA; 0x20]);
    for _ in 0..4 {
        data.extend(block(0x0000, 0xFFFF, 0x5555_5555));
    }
    let img = decode(&data, PIXEL_DATA_AT + 0x20).unwrap();
    assert_eq!(img.pixel(3, 5), Some(rgba(255, 255, 255, 255)));
}

#[test]
fn endpoints_of_opaque_block_descend() {
    let mut px = [rgba(0, 0, 0, 255); 16];
    px[5] = rgba(255, 255, 255, 255);
    assert_eq!(choose_endpoints(&px), (0xFFFF, 0x0000));
}

#[test]
fn endpoints_with_transparency_ascend() {
    let mut px = [rgba(255, 255, 255, 255); 16];
    px[0] = rgba(0, 0, 0, 0);
    px[1] = rgba(0, 0, 0, 255);
    assert_eq!(choose_endpoints(&px), (0x0000, 0xFFFF));
    let mut px = [rgba(255, 255, 255, 255); 16];
    px[0] = rgba(1, 2, 3, 0);
    assert_eq!(choose_endpoints(&px), (0xFFFE, 0xFFFF));
    let px = [rgba(1, 2, 3, 0); 16];
    let (c0, c1) = choose_endpoints(&px);
    assert!(c0 < c1);
}

#[test]
fn encode_block_two_colours() {
    let mut px = [rgba(0, 0, 0, 255); 16];
    px[0] = rgba(255, 255, 255, 255);
    px[15] = rgba(255, 255, 255, 255);
    let b = encode_block(&px);
    // white is color0 (index 0), black is color1 (index 1)
    assert_eq!(b, [0xFF, 0xFF, 0x00, 0x00, 0x15, 0x55, 0x55, 0x54]);
}

#[test]
fn encode_block_transparent_pixels_take_index_three() {
    let mut px = [rgba(255, 255, 255, 255); 16];
    px[0] = rgba(10, 20, 30, 0);
    let b = encode_block(&px);
    let (colours, indexes) = read_block(&b, 0).unwrap();
    assert_eq!(indexes[0], 3);
    assert_eq!(colours[3], rgba(0, 0, 0, 0));
    for k in 1..16 {
        assert_eq!(colours[indexes[k] as usize], rgba(255, 255, 255, 255));
    }
}

#[test]
fn encode_rejects_bad_dimensions() {
    assert!(matches!(encode(&raster_of(12, 8, |_, _| rgba(0, 0, 0, 255))), Err(GctError::Dimension)));
    assert!(matches!(encode(&raster_of(8, 4, |_, _| rgba(0, 0, 0, 255))), Err(GctError::Dimension)));
    assert!(matches!(encode(&raster_of(0, 8, |_, _| rgba(0, 0, 0, 255))), Err(GctError::Dimension)));
}

#[test]
fn encode_writes_header_and_blocks() {
    let img = raster_of(16, 8, |_, _| rgba(255, 255, 255, 255));
    let bytes = encode(&img).unwrap();
    assert_eq!(bytes.len(), PIXEL_DATA_AT + 8 * 8);
    assert_eq!(&bytes[0x10..0x14], &[0x00, 0x10, 0x00, 0x08]);
    assert!(bytes[..0x10].iter().all(|&b| b == 0));
    assert!(bytes[0x14..PIXEL_DATA_AT].iter().all(|&b| b == 0));
    assert_eq!(&bytes[PIXEL_DATA_AT..PIXEL_DATA_AT + 4], &[0xFF, 0xFF, 0xFF, 0xFF]);
}

#[test]
fn round_trip_two_tone_raster() {
    // colours that 5-6-5 represents exactly, two per block, some transparency
    let red = rgba(0xff, 0x00, 0x00, 255);
    let teal = rgba(0x00, 0x82, 0x84, 255);
    let clear = rgba(0, 0, 0, 0);
    let img = raster_of(16, 16, |x, y| {
        if (x + y) % 7 == 0 {
            clear
        } else if (x / 4 + y) % 3 == 0 {
            red
        } else {
            teal
        }
    });
    let bytes = encode(&img).unwrap();
    let back = decode(&bytes, PIXEL_DATA_AT).unwrap();
    assert_eq!(back.dimensions(), (16, 16));
    for y in 0..16 {
        for x in 0..16 {
            assert_eq!(back.pixel(x, y), img.pixel(x, y));
        }
    }
}

#[test]
fn round_trip_keeps_alpha_and_stays_close_on_gradients() {
    let img = raster_of(8, 8, |x, y| {
        let a = if x == 7 && y == 7 { 0 } else { 255 };
        rgba((x * 32) as u8, (y * 32) as u8, 100, a)
    });
    let bytes = encode(&img).unwrap();
    let back = decode(&bytes, PIXEL_DATA_AT).unwrap();
    assert_eq!(back.pixel(7, 7), Some(rgba(0, 0, 0, 0)));
    for y in 0..8 {
        for x in 0..8 {
            if !(x == 7 && y == 7) {
                assert_eq!(back.pixel(x, y).unwrap().a, 255);
            }
        }
    }
}

#[test]
fn from_raw_needs_enough_samples() {
    assert!(Raster::from_raw(4, 4, vec![0; 63]).is_none());
    assert!(Raster::from_raw(4, 4, vec![0; 64]).is_some());
    let img = Raster::from_raw(2, 1, vec![1, 2, 3, 4, 5, 6, 7, 8]).unwrap();
    assert_eq!(img.pixel(1, 0), Some(rgba(5, 6, 7, 8)));
}

#[test]
fn encode_into_keeps_the_target_header() {
    let img = raster_of(8, 8, |x, _| if x < 4 { rgba(255, 255, 255, 255) } else { rgba(0, 0, 0, 255) });
    let base: Vec<u8> = (0u8..0x30).collect();
    let bytes = encode_into(&img, &base, 0x50).unwrap();
    assert_eq!(bytes.len(), 0x50 + 4 * 8);
    assert_eq!(&bytes[..0x10], &base[..0x10]);
    assert_eq!(&bytes[0x10..0x14], &[0, 8, 0, 8]);
    assert_eq!(&bytes[0x14..0x30], &base[0x14..0x30]);
    assert!(bytes[0x30..0x50].iter().all(|&b| b == 0));
    let back = decode(&bytes, 0x50).unwrap();
    for y in 0..8 {
        for x in 0..8 {
            assert_eq!(back.pixel(x, y), img.pixel(x, y));
        }
    }
}

#[test]
fn encode_into_needs_room_for_the_header() {
    let img = raster_of(8, 8, |_, _| rgba(0, 0, 0, 255));
    assert!(matches!(encode_into(&img, &[], 0x13), Err(GctError::Format)));
    assert!(matches!(encode_into(&img, &[], usize::MAX - 8), Err(GctError::Format)));
    assert!(encode_into(&img, &[], 0x14).is_ok());
}
