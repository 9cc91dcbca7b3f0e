use smw_tools::tile::{Raster, Tile};

fn raster(width: usize, height: usize, samples: Vec<u8>) -> Raster {
    Raster::new(width, height, samples).expect("dimensions match")
}

#[test]
fn raster_new_rejects_bad_length() {
    assert!(Raster::new(128, 8, vec![0; 128 * 8]).is_some());
    assert!(Raster::new(128, 8, vec![0; 128 * 8 - 1]).is_none());
    assert!(Raster::new(128, 8, vec![]).is_none());
}

#[test]
fn encode_single_pixel_per_plane() {
    // A 128x8 raster (one row of 16 tiles), all zero except pixel (0, 0) of
    // tile 0, which quantizes to 15: all four planes get their row-0 bit 7.
    let mut samples = vec![0u8; 128 * 8];
    samples[0] = 255; // 255 / 16 == 15
    let im = raster(128, 8, samples);
    let t = Tile::from_image_at(&im, 0);
    let b = t.bytes();
    assert_eq!(b[0], 0x80);
    assert_eq!(b[1], 0x80);
    assert_eq!(b[16], 0x80);
    assert_eq!(b[17], 0x80);
    for i in 2..16 {
        assert_eq!(b[i], 0);
    }
    for i in 18..32 {
        assert_eq!(b[i], 0);
    }
}

#[test]
fn encode_scatters_bits_by_plane() {
    // Pixel at row 3, column 5 of tile 0 holds 0xA0 / 16 == 10 == 0b1010:
    // planes 1 and 3 get bit position 7 - 5 == 2 in their row-3 byte.
    let mut samples = vec![0u8; 128 * 8];
    samples[3 * 128 + 5] = 0xA0;
    let im = raster(128, 8, samples);
    let t = Tile::from_image_at(&im, 0);
    let b = t.bytes();
    assert_eq!(b[3 * 2], 0x00); // plane 0
    assert_eq!(b[3 * 2 + 1], 0x04); // plane 1
    assert_eq!(b[16 + 3 * 2], 0x00); // plane 2
    assert_eq!(b[17 + 3 * 2], 0x04); // plane 3
}

#[test]
fn encode_uses_tile_window() {
    // Tile index 0x11 sits at tile row 1, tile column 1: its window starts
    // at column 8, row 8 of the raster.
    let mut samples = vec![0u8; 128 * 16];
    samples[8 * 128 + 8] = 0xFF;
    let im = raster(128, 16, samples);
    let t = Tile::from_image_at(&im, 0x11);
    let b = t.bytes();
    assert_eq!(b[0], 0x80);
    let t0 = Tile::from_image_at(&im, 0);
    assert!(t0.bytes().iter().all(|&x| x == 0));
}

#[test]
fn decode_reads_planes() {
    // Row 0 plane bytes 0x80, 0x00, 0x80, 0x00: pixel (0, 0) has bits set
    // in planes 0 and 2, so its value is 1 + 4 == 5.
    let mut bytes = vec![0u8; 32];
    bytes[0] = 0x80;
    bytes[16] = 0x80;
    let t = Tile::from_bytes(bytes).expect("32 bytes");
    let im = t.to_image();
    assert_eq!(im.width, 8);
    assert_eq!(im.height, 8);
    assert_eq!(im.samples[0], 5);
    for i in 1..64 {
        assert_eq!(im.samples[i], 0);
    }
}

#[test]
fn round_trip_yields_quantized_values() {
    // Encoding an arbitrary raster window and decoding it back gives each
    // sample divided by 16; the decode side never rescales to 0-255.
    let mut samples = vec![0u8; 128 * 8];
    for (i, s) in samples.iter_mut().enumerate() {
        *s = (i % 251) as u8;
    }
    let im = raster(128, 8, samples.clone());
    for idx in [0usize, 5, 15] {
        let t = Tile::from_image_at(&im, idx);
        let out = t.to_image();
        for y in 0..8 {
            for x in 0..8 {
                let orig = samples[y * 128 + (idx % 16) * 8 + x];
                assert_eq!(out.samples[y * 8 + x], orig / 16);
            }
        }
    }
}

#[test]
fn round_trip_identity_on_quantized_tiles() {
    // A tile's packed bytes survive decode + re-encode when the decoded
    // samples are re-read as an already-quantized raster widened to 128.
    let mut bytes = vec![0u8; 32];
    for (i, b) in bytes.iter_mut().enumerate() {
        *b = (37 * i + 11) as u8;
    }
    let t = Tile::from_bytes(bytes.clone()).expect("32 bytes");
    let small = t.to_image();
    // embed the 8x8 decoded grid in a 128-wide raster, scaled back by 16 so
    // that quantization reproduces the original 4-bit values
    let mut wide = vec![0u8; 128 * 8];
    for y in 0..8 {
        for x in 0..8 {
            wide[y * 128 + x] = small.samples[y * 8 + x] * 16;
        }
    }
    let im = raster(128, 8, wide);
    let t2 = Tile::from_image_at(&im, 0);
    assert_eq!(t2.bytes(), &bytes);
}

#[test]
fn load_from_reads_window_at_offset() {
    let mut buf = vec![0u8; 96];
    for (i, b) in buf.iter_mut().enumerate() {
        *b = i as u8;
    }
    let t = Tile::load_from(&buf, 2).expect("in range");
    assert_eq!(t.bytes().as_slice(), &buf[64..96]);
    assert!(Tile::load_from(&buf, 3).is_none());
    assert!(Tile::load_from(&vec![], 0).is_none());
}

#[test]
fn write_to_overwrites_exactly_one_window() {
    let src: Vec<u8> = (0..32u8).collect();
    let t = Tile::from_bytes(src.clone()).expect("32 bytes");
    let mut dst = vec![0xEEu8; 160];
    assert!(t.write_to(&mut dst, 1));
    assert_eq!(&dst[32..64], src.as_slice());
    assert!(dst[..32].iter().all(|&b| b == 0xEE));
    assert!(dst[64..].iter().all(|&b| b == 0xEE));
}

#[test]
fn write_to_rejects_short_buffer() {
    let t = Tile::from_bytes(vec![1u8; 32]).expect("32 bytes");
    let mut dst = vec![0u8; 95];
    assert!(!t.write_to(&mut dst, 2));
    assert!(dst.iter().all(|&b| b == 0));
    assert_eq!(dst.len(), 95);
}
