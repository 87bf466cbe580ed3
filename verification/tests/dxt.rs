use athanor_core::dxt::{
    compress, decompress, dxt5_alphas_in_range, expand_rgb565, rgb_to_rgb565, DecodedTexture,
    DxtFormat,
};
use athanor_core::AthanorError;

fn block(c0: u16, c1: u16, indices: u32) -> Vec<u8> {
    let mut b = Vec::new();
    b.extend_from_slice(&c0.to_le_bytes());
    b.extend_from_slice(&c1.to_le_bytes());
    b.extend_from_slice(&indices.to_le_bytes());
    b
}

fn expand(c: u16) -> [u8; 4] {
    let r = ((c >> 11) & 0x1F) as u8;
    let g = ((c >> 5) & 0x3F) as u8;
    let b = (c & 0x1F) as u8;
    [(r << 3) | (r >> 2), (g << 2) | (g >> 4), (b << 3) | (b >> 2), 0xFF]
}

fn lerp(a: u8, b: u8, t: f32) -> u8 {
    let (a, b) = (a as f32, b as f32);
    (a + (b - a) * t).round().clamp(0.0, 255.0) as u8
}

/// The palette of a DXT1 block computed with single-precision interpolation.
fn float_palette(c0: u16, c1: u16) -> [[u8; 4]; 4] {
    let e0 = expand(c0);
    let e1 = expand(c1);
    let mut p = [e0, e1, [0; 4], [0; 4]];
    for ch in 0..4 {
        if c0 > c1 {
            p[2][ch] = lerp(e0[ch], e1[ch], 1.0 / 3.0);
            p[3][ch] = lerp(e0[ch], e1[ch], 2.0 / 3.0);
        } else {
            p[2][ch] = lerp(e0[ch], e1[ch], 0.5);
        }
    }
    p
}

#[test]
fn block_sizes() {
    assert_eq!(DxtFormat::Dxt1.block_size(), 8);
    assert_eq!(DxtFormat::Dxt5.block_size(), 16);
}

#[test]
fn dxt1_solid_block() {
    let data = block(0xF800, 0x001F, 0);
    let px = decompress(&data, 4, 4, DxtFormat::Dxt1).expect("decodes");
    assert_eq!(px.len(), 64);
    for t in px.chunks(4) {
        assert_eq!(t, &[255, 0, 0, 255]);
    }
    let px = decompress(&block(0xF800, 0x001F, 0x5555_5555), 4, 4, DxtFormat::Dxt1).unwrap();
    assert_eq!(&px[0..4], &[0, 0, 255, 255]);
}

#[test]
fn dxt1_transparent_index_when_c0_not_above_c1() {
    let px = decompress(&block(0x001F, 0xF800, 0xFFFF_FFFF), 4, 4, DxtFormat::Dxt1).unwrap();
    for t in px.chunks(4) {
        assert_eq!(t, &[0, 0, 0, 0]);
    }
    let px = decompress(&block(0x001F, 0xF800, 0xAAAA_AAAA), 4, 4, DxtFormat::Dxt1).unwrap();
    assert_eq!(&px[0..4], &[128, 0, 128, 255]);
}

#[test]
fn integer_palette_matches_float_interpolation() {
    // Every pair of red and green endpoint fields, both orderings of the endpoints.
    for r0 in 0..32u16 {
        for r1 in 0..32u16 {
            for g in [0u16, 1, 21, 42, 63] {
                let c0 = (r0 << 11) | (g << 5) | (31 - r0);
                let c1 = (r1 << 11) | ((63 - g) << 5) | r1;
                let pal = float_palette(c0, c1);
                let indices = 0xE4E4_E4E4u32; // texels cycle through indices 0..3
                let px = decompress(&block(c0, c1, indices), 4, 4, DxtFormat::Dxt1).unwrap();
                for k in 0..4 {
                    assert_eq!(&px[k * 4..k * 4 + 4], &pal[k], "c0={:#x} c1={:#x} index {}", c0, c1, k);
                }
            }
        }
    }
}

#[test]
fn cropped_texture_keeps_only_inside_pixels() {
    let px = decompress(&block(0xF800, 0, 0), 3, 2, DxtFormat::Dxt1).unwrap();
    assert_eq!(px.len(), 3 * 2 * 4);
    assert_eq!(&px[20..24], &[255, 0, 0, 255]);
}

#[test]
fn dxt5_alpha_levels() {
    let mut data = vec![200u8, 100];
    // Codes 0..7 for texels 0..7, zeros after.
    let codes: u64 = (0..8u64).fold(0, |acc, i| acc | (i << (3 * i)));
    data.extend_from_slice(&codes.to_le_bytes()[..6]);
    data.extend(block(0xFFFF, 0xFFFF, 0));
    // 2*200+100 and friends exceed a byte, which the decoder does not allow.
    assert!(!dxt5_alphas_in_range(&data, 4, 4, DxtFormat::Dxt5));
    let mut small = vec![60u8, 20];
    small.extend_from_slice(&codes.to_le_bytes()[..6]);
    small.extend(block(0xFFFF, 0xFFFF, 0));
    assert!(dxt5_alphas_in_range(&small, 4, 4, DxtFormat::Dxt5));
    let px = decompress(&small, 4, 4, DxtFormat::Dxt5).unwrap();
    let alphas: Vec<u8> = (0..8).map(|k| px[k * 4 + 3]).collect();
    assert_eq!(alphas, vec![60, 20, 46, 33, 50, 40, 30, 20]);
    assert_eq!(&px[0..3], &[255, 255, 255]);
    let mut rising = vec![20u8, 60];
    rising.extend_from_slice(&codes.to_le_bytes()[..6]);
    rising.extend(block(0xFFFF, 0xFFFF, 0));
    let px = decompress(&rising, 4, 4, DxtFormat::Dxt5).unwrap();
    assert_eq!(px[7 * 4 + 3], 0);
}

#[test]
fn short_data_is_refused_with_the_sizes() {
    match decompress(&[0u8; 7], 4, 4, DxtFormat::Dxt1) {
        Err(AthanorError::InvalidData(m)) => assert_eq!(m, "DXT data too short: got 7 bytes, expected 8"),
        _ => panic!("expected invalid data"),
    }
    match decompress(&[0u8; 40], 8, 5, DxtFormat::Dxt5) {
        Err(AthanorError::InvalidData(m)) => assert_eq!(m, "DXT data too short: got 40 bytes, expected 64"),
        _ => panic!("expected invalid data"),
    }
}

#[test]
fn solid_images_survive_compression() {
    for format in [DxtFormat::Dxt1, DxtFormat::Dxt5] {
        let (w, h) = (6u32, 5u32);
        let pixels: Vec<u8> = (0..w * h).flat_map(|_| [200u8, 100, 50, 90]).collect();
        let packed = compress(&pixels, w, h, format);
        assert_eq!(packed.len(), 2 * 2 * format.block_size());
        let decoded = decompress(&packed, w, h, format).unwrap();
        let expected_alpha = if format == DxtFormat::Dxt1 { 255 } else { 90 };
        for t in decoded.chunks(4) {
            assert_eq!(t, &[206, 101, 49, expected_alpha]);
        }
    }
}

#[test]
fn compressed_block_layout() {
    let pixels: Vec<u8> = (0..16).flat_map(|_| [255u8, 255, 255, 255]).collect();
    let out = compress(&pixels, 4, 4, DxtFormat::Dxt1);
    assert_eq!(out, vec![0xFF, 0xFF, 0xFF, 0xFF, 0, 0, 0, 0]);
    let texture = DecodedTexture { width: 4, height: 4, format: DxtFormat::Dxt1, pixels };
    assert_eq!(texture.pixels.len(), 64);
}

#[test]
fn representable_colours_round_trip_exactly() {
    // Colours whose channels survive RGB565: decompressing the compressed image
    // gives the image back.
    let colours = [[255u8, 255, 255], [0, 0, 0], [255, 0, 0], [0, 255, 0], [0, 0, 255]];
    for rgb in colours {
        let opaque: Vec<u8> = (0..16).flat_map(|_| [rgb[0], rgb[1], rgb[2], 255]).collect();
        let packed = compress(&opaque, 4, 4, DxtFormat::Dxt1);
        assert_eq!(decompress(&packed, 4, 4, DxtFormat::Dxt1).unwrap(), opaque);
        for alpha in [0u8, 77, 255] {
            let p: Vec<u8> = (0..16).flat_map(|_| [rgb[0], rgb[1], rgb[2], alpha]).collect();
            let packed = compress(&p, 4, 4, DxtFormat::Dxt5);
            assert!(dxt5_alphas_in_range(&packed, 4, 4, DxtFormat::Dxt5));
            assert_eq!(decompress(&packed, 4, 4, DxtFormat::Dxt5).unwrap(), p);
        }
    }
}

#[test]
fn rgb565_widens_and_packs_back() {
    assert_eq!(expand_rgb565(0xF800), [255, 0, 0, 255]);
    assert_eq!(expand_rgb565(0x07E0), [0, 255, 0, 255]);
    assert_eq!(expand_rgb565(0x001F), [0, 0, 255, 255]);
    assert_eq!(rgb_to_rgb565(255, 255, 255), 0xFFFF);
    for c in 0..=u16::MAX {
        let e = expand_rgb565(c);
        assert_eq!(e[3], 0xFF);
        assert_eq!(rgb_to_rgb565(e[0], e[1], e[2]), c);
    }
}

#[test]
fn compressed_data_always_decodes() {
    // A mixed image: every DXT5 alpha code the encoder picks is an endpoint.
    let pixels: Vec<u8> = (0..6 * 5 * 4).map(|i| (i * 37 % 256) as u8).collect();
    let packed = compress(&pixels, 6, 5, DxtFormat::Dxt5);
    assert!(dxt5_alphas_in_range(&packed, 6, 5, DxtFormat::Dxt5));
    assert!(decompress(&packed, 6, 5, DxtFormat::Dxt5).is_ok());
}
