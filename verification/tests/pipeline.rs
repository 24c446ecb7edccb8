//! End-to-end tests of the decode, optimize and encode pipeline on images
//! built in memory.

use pngopt::atomicmin::AtomicMin;
use pngopt::colors::{BitDepth, ColorType, Rgba};
use pngopt::error::PngError;
use pngopt::filters::RowFilter;
use pngopt::headers::aux_new;
use pngopt::interlace::Interlacing;
use pngopt::png::{IhdrData, PngData, PngImage};
use pngopt::{optimize_from_memory, validate_output, Options};

fn make_image(
    w: u32,
    h: u32,
    ct: ColorType,
    depth: BitDepth,
    interlaced: Interlacing,
    data: Vec<u8>,
    palette: Option<Vec<Rgba>>,
    transparency: Option<Vec<u8>>,
) -> PngImage {
    PngImage {
        ihdr: IhdrData {
            width: w,
            height: h,
            color_type: ct,
            bit_depth: depth,
            interlaced,
        },
        data,
        palette,
        transparency,
        aux_headers: aux_new(),
    }
}

fn encode_image(raw: PngImage) -> Vec<u8> {
    let filtered = raw.filter_image(RowFilter::NoFilter).unwrap();
    let best = AtomicMin::new(None);
    let idat = pngopt::deflate::deflate(&filtered, 5, &best).unwrap();
    let png = PngData {
        raw,
        idat_data: idat,
        filtered,
    };
    png.output().unwrap()
}

fn test_opts() -> Options {
    let mut opts = Options::default_options();
    opts.force = true;
    opts.filter = vec![RowFilter::NoFilter];
    opts
}

fn decode(bytes: &[u8]) -> PngData {
    PngData::from_slice(bytes, false).unwrap()
}

/// A 4x4 RGBA8 image with opaque gray pixels: every channel triple equal.
fn gray_rgba8() -> PngImage {
    let mut data = Vec::new();
    for y in 0..4u8 {
        for x in 0..4u8 {
            let v = y * 60 + x * 13;
            data.extend_from_slice(&[v, v, v, 255]);
        }
    }
    make_image(
        4,
        4,
        ColorType::RGBA,
        BitDepth::Eight,
        Interlacing::Standard,
        data,
        None,
        None,
    )
}

#[test]
fn encode_decode_round_trip() {
    let img = gray_rgba8();
    let data_copy = img.data.clone();
    let bytes = encode_image(img);
    let back = decode(&bytes);
    assert_eq!(back.raw.ihdr.width, 4);
    assert_eq!(back.raw.ihdr.height, 4);
    assert_eq!(back.raw.ihdr.color_type, ColorType::RGBA);
    assert_eq!(back.raw.ihdr.bit_depth, BitDepth::Eight);
    assert_eq!(back.raw.data, data_copy);
    assert!(back.raw.palette.is_none());
}

#[test]
fn rgba_8_should_be_grayscale_8() {
    let bytes = encode_image(gray_rgba8());
    let out = optimize_from_memory(&bytes, &test_opts()).unwrap();
    let back = decode(&out);
    assert_eq!(back.raw.ihdr.color_type, ColorType::Grayscale);
    assert_eq!(back.raw.ihdr.bit_depth, BitDepth::Eight);
    // pixel values equal the original red channel
    for y in 0..4usize {
        for x in 0..4usize {
            let v = (y * 60 + x * 13) as u16;
            assert_eq!(back.raw.sample(y, x), v);
        }
    }
    assert!(validate_output(&out, &bytes));
}

/// Many distinct colors, 16 bits per sample with equal high and low bytes,
/// fully opaque: expect RGB at 8 bits.
#[test]
fn rgba_16_should_be_rgb_8() {
    let mut data = Vec::new();
    for y in 0..20u16 {
        for x in 0..20u16 {
            let r = (y * 20 + x) as u8;
            let g = x as u8;
            let b = y as u8;
            for v in [r, g, b] {
                data.extend_from_slice(&[v, v]);
            }
            data.extend_from_slice(&[255, 255]);
        }
    }
    let img = make_image(
        20,
        20,
        ColorType::RGBA,
        BitDepth::Sixteen,
        Interlacing::Standard,
        data,
        None,
        None,
    );
    let bytes = encode_image(img);
    let out = optimize_from_memory(&bytes, &test_opts()).unwrap();
    let back = decode(&out);
    assert_eq!(back.raw.ihdr.bit_depth, BitDepth::Eight);
    assert!(matches!(
        back.raw.ihdr.color_type,
        ColorType::RGB | ColorType::Indexed
    ));
    assert!(validate_output(&out, &bytes));
}

#[test]
fn rgba_8_should_be_palette_8() {
    // 300 pixels but only 5 distinct colors
    let mut data = Vec::new();
    let colors = [
        [10u8, 20, 30, 255],
        [40, 50, 60, 255],
        [70, 80, 90, 255],
        [1, 2, 3, 255],
        [200, 100, 50, 255],
    ];
    for i in 0..300usize {
        data.extend_from_slice(&colors[i % 5]);
    }
    let img = make_image(
        20,
        15,
        ColorType::RGBA,
        BitDepth::Eight,
        Interlacing::Standard,
        data,
        None,
        None,
    );
    let bytes = encode_image(img);
    let out = optimize_from_memory(&bytes, &test_opts()).unwrap();
    let back = decode(&out);
    assert_eq!(back.raw.ihdr.color_type, ColorType::Indexed);
    assert!(validate_output(&out, &bytes));
}

#[test]
fn palette_should_be_reduced_with_dupes() {
    // palette of 10 entries: entries 1 and 2 identical, all entries used
    let mut palette = Vec::new();
    for k in 0..10u8 {
        let v = if k == 2 { 1 } else { k };
        palette.push(Rgba {
            r: v * 10,
            g: v * 11,
            b: v * 12,
            a: 255,
        });
    }
    let mut data = Vec::new();
    for i in 0..40usize {
        data.push((i % 10) as u8);
    }
    let img = make_image(
        8,
        5,
        ColorType::Indexed,
        BitDepth::Eight,
        Interlacing::Standard,
        data,
        Some(palette),
        None,
    );
    let reduced = pngopt::reduction::reduced_palette(&img, false).unwrap();
    assert_eq!(reduced.palette.as_ref().unwrap().len(), 9);
    let bytes = encode_image(img);
    let out = optimize_from_memory(&bytes, &test_opts()).unwrap();
    let back = decode(&out);
    assert_eq!(back.raw.ihdr.color_type, ColorType::Indexed);
    assert!(back.raw.palette.as_ref().unwrap().len() <= 10);
    assert!(validate_output(&out, &bytes));
}

#[test]
fn palette_should_be_reduced_with_unused() {
    // palette of 10 entries, indices 7..10 never referenced
    let mut palette = Vec::new();
    for k in 0..10u8 {
        palette.push(Rgba {
            r: k * 10,
            g: k * 11,
            b: k * 12,
            a: 255,
        });
    }
    let mut data = Vec::new();
    for i in 0..40usize {
        data.push((i % 7) as u8);
    }
    let img = make_image(
        8,
        5,
        ColorType::Indexed,
        BitDepth::Eight,
        Interlacing::Standard,
        data,
        Some(palette),
        None,
    );
    // the reduction itself drops the three unused entries
    let reduced = pngopt::reduction::reduced_palette(&img, false).unwrap();
    assert_eq!(reduced.palette.as_ref().unwrap().len(), 7);
    // end to end, the pool keeps whichever candidate compresses best; the
    // baseline wins exact ties, so only validity and size are pinned here
    let bytes = encode_image(img);
    let mut opts = test_opts();
    opts.force = false;
    let out = optimize_from_memory(&bytes, &opts).unwrap();
    let back = decode(&out);
    assert_eq!(back.raw.ihdr.color_type, ColorType::Indexed);
    assert!(back.raw.palette.as_ref().unwrap().len() <= 10);
    assert!(out.len() <= bytes.len());
    assert!(validate_output(&out, &bytes));
}

#[test]
fn grayscale_8_should_be_grayscale_1() {
    // only black and white pixels
    let mut data = Vec::new();
    for i in 0..64usize {
        data.push(if i % 3 == 0 { 255 } else { 0 });
    }
    let img = make_image(
        8,
        8,
        ColorType::Grayscale,
        BitDepth::Eight,
        Interlacing::Standard,
        data,
        None,
        None,
    );
    let bytes = encode_image(img);
    let out = optimize_from_memory(&bytes, &test_opts()).unwrap();
    let back = decode(&out);
    assert_eq!(back.raw.ihdr.color_type, ColorType::Grayscale);
    assert_eq!(back.raw.ihdr.bit_depth, BitDepth::One);
    assert!(validate_output(&out, &bytes));
}

#[test]
fn fully_transparent_becomes_single_entry_palette() {
    // all pixels fully transparent, with assorted hidden colors
    let mut data = Vec::new();
    for i in 0..64usize {
        data.extend_from_slice(&[(i * 7) as u8, (i * 13) as u8, (i * 29) as u8, 0]);
    }
    let img = make_image(
        8,
        8,
        ColorType::RGBA,
        BitDepth::Eight,
        Interlacing::Standard,
        data,
        None,
        None,
    );
    // the reduction chain turns it into a single-entry transparent palette
    let cleaned = pngopt::reduction::cleaned_alpha_channel(&img).unwrap();
    let indexed = pngopt::reduction::reduce_color_type(&cleaned, true, true).unwrap();
    assert_eq!(indexed.ihdr.color_type, ColorType::Indexed);
    let pal = indexed.palette.as_ref().unwrap();
    assert_eq!(pal.len(), 1);
    assert_eq!(pal[0].a, 0);
    // end to end the pool emits whichever form compresses best; the result
    // must stay valid, no larger, and fully transparent
    let bytes = encode_image(img);
    let mut opts = test_opts();
    opts.optimize_alpha = true;
    opts.force = false;
    let out = optimize_from_memory(&bytes, &opts).unwrap();
    assert!(out.len() <= bytes.len());
    assert!(validate_output(&out, &bytes));
}

#[test]
fn indexed_with_transparency_keeps_visible_pixels() {
    // one transparent entry and one opaque entry, both used
    let palette = vec![
        Rgba {
            r: 9,
            g: 9,
            b: 9,
            a: 0,
        },
        Rgba {
            r: 200,
            g: 10,
            b: 10,
            a: 255,
        },
    ];
    let data = vec![0u8, 1, 1, 0];
    let img = make_image(
        2,
        2,
        ColorType::Indexed,
        BitDepth::Eight,
        Interlacing::Standard,
        data,
        Some(palette),
        None,
    );
    let bytes = encode_image(img);
    let mut opts = test_opts();
    opts.optimize_alpha = true;
    let out = optimize_from_memory(&bytes, &opts).unwrap();
    assert!(validate_output(&out, &bytes));
}

#[test]
fn bad_crc_is_reported() {
    let img = gray_rgba8();
    let mut raw = img;
    let mut payload = Vec::new();
    payload.extend_from_slice(b"some text");
    pngopt::headers::aux_insert(
        &mut raw.aux_headers,
        pngopt::headers::chunk_name(b't', b'E', b'X', b't'),
        payload,
    );
    let mut bytes = encode_image(raw);
    // corrupt one byte inside the tEXt chunk payload
    let pos = bytes
        .windows(4)
        .position(|w| w == b"tEXt")
        .expect("chunk present");
    bytes[pos + 5] ^= 0xff;
    let err = optimize_from_memory(&bytes, &test_opts()).unwrap_err();
    assert!(matches!(err, PngError::BadCrc(_)));
    // with fix_errors the pipeline tolerates it
    let mut opts = test_opts();
    opts.fix_errors = true;
    assert!(optimize_from_memory(&bytes, &opts).is_ok());
}

#[test]
fn not_png_is_reported() {
    let err = optimize_from_memory(b"definitely not a png", &test_opts()).unwrap_err();
    assert!(matches!(err, PngError::NotPng));
    let err2 = optimize_from_memory(b"", &test_opts()).unwrap_err();
    assert!(matches!(err2, PngError::NotPng));
}

#[test]
fn truncated_chunk_is_reported() {
    let img = gray_rgba8();
    let bytes = encode_image(img);
    let err = optimize_from_memory(&bytes[..bytes.len() - 6], &test_opts()).unwrap_err();
    assert!(matches!(err, PngError::TruncatedChunk));
}

#[test]
fn output_never_larger_without_force() {
    let img = gray_rgba8();
    let bytes = encode_image(img);
    let mut opts = test_opts();
    opts.force = false;
    let out = optimize_from_memory(&bytes, &opts).unwrap();
    assert!(out.len() <= bytes.len());
}

#[test]
fn already_minimal_is_returned_unchanged() {
    let img = gray_rgba8();
    let bytes = encode_image(img);
    let mut opts = test_opts();
    opts.force = false;
    let once = optimize_from_memory(&bytes, &opts).unwrap();
    let twice = optimize_from_memory(&once, &opts).unwrap();
    assert_eq!(once, twice);
}

#[test]
fn optimize_is_idempotent_on_pixels() {
    let img = gray_rgba8();
    let bytes = encode_image(img);
    let opts = test_opts();
    let once = optimize_from_memory(&bytes, &opts).unwrap();
    let twice = optimize_from_memory(&once, &opts).unwrap();
    let a = decode(&once);
    let b = decode(&twice);
    assert!(validate_output(&twice, &once));
    assert_eq!(a.raw.ihdr.width, b.raw.ihdr.width);
    assert_eq!(a.raw.ihdr.height, b.raw.ihdr.height);
}

#[test]
fn timeout_zero_returns_input_unchanged() {
    let img = gray_rgba8();
    let bytes = encode_image(img);
    let mut opts = test_opts();
    opts.force = false;
    opts.timeout = Some(0);
    let t = std::time::Instant::now();
    while t.elapsed().as_millis() < 2 {}
    let out = optimize_from_memory(&bytes, &opts).unwrap();
    assert_eq!(out, bytes);
}

#[test]
fn one_by_one_images_every_type_and_depth() {
    let cases: Vec<(ColorType, BitDepth, usize)> = vec![
        (ColorType::Grayscale, BitDepth::One, 1),
        (ColorType::Grayscale, BitDepth::Two, 1),
        (ColorType::Grayscale, BitDepth::Four, 1),
        (ColorType::Grayscale, BitDepth::Eight, 1),
        (ColorType::Grayscale, BitDepth::Sixteen, 2),
        (ColorType::RGB, BitDepth::Eight, 3),
        (ColorType::RGB, BitDepth::Sixteen, 6),
        (ColorType::GrayscaleAlpha, BitDepth::Eight, 2),
        (ColorType::GrayscaleAlpha, BitDepth::Sixteen, 4),
        (ColorType::RGBA, BitDepth::Eight, 4),
        (ColorType::RGBA, BitDepth::Sixteen, 8),
        (ColorType::Indexed, BitDepth::One, 1),
        (ColorType::Indexed, BitDepth::Two, 1),
        (ColorType::Indexed, BitDepth::Four, 1),
        (ColorType::Indexed, BitDepth::Eight, 1),
    ];
    for (ct, depth, len) in cases {
        let palette = if ct == ColorType::Indexed {
            Some(vec![Rgba {
                r: 5,
                g: 6,
                b: 7,
                a: 255,
            }])
        } else {
            None
        };
        let data = vec![0u8; len];
        let img = make_image(1, 1, ct, depth, Interlacing::Standard, data, palette, None);
        let bytes = encode_image(img);
        let mut opts = test_opts();
        opts.force = false;
        let out = optimize_from_memory(&bytes, &opts).unwrap();
        assert!(out.len() <= bytes.len(), "{:?} {:?}", ct, depth);
        assert!(validate_output(&out, &bytes), "{:?} {:?}", ct, depth);
    }
}

#[test]
fn one_bit_palette_single_entry_and_full_palette() {
    // 1-bit palette with one entry
    let img = make_image(
        8,
        1,
        ColorType::Indexed,
        BitDepth::One,
        Interlacing::Standard,
        vec![0u8],
        Some(vec![Rgba {
            r: 1,
            g: 2,
            b: 3,
            a: 255,
        }]),
        None,
    );
    let bytes = encode_image(img);
    let out = optimize_from_memory(&bytes, &test_opts()).unwrap();
    assert!(validate_output(&out, &bytes));
    // palette of 256 entries, all used
    let mut palette = Vec::new();
    for k in 0..256usize {
        palette.push(Rgba {
            r: k as u8,
            g: (k / 2) as u8,
            b: (255 - k) as u8,
            a: 255,
        });
    }
    let data: Vec<u8> = (0..=255u8).collect();
    let img = make_image(
        16,
        16,
        ColorType::Indexed,
        BitDepth::Eight,
        Interlacing::Standard,
        data,
        Some(palette),
        None,
    );
    let bytes = encode_image(img);
    let out = optimize_from_memory(&bytes, &test_opts()).unwrap();
    let back = decode(&out);
    assert_eq!(back.raw.palette.as_ref().unwrap().len(), 256);
    assert!(validate_output(&out, &bytes));
}

#[test]
fn interlaced_input_is_deinterlaced() {
    // an Adam7 source optimized to the standard layout keeps its pixels
    let mut data = Vec::new();
    for i in 0..100usize {
        data.push((i * 3 % 251) as u8);
    }
    let img = make_image(
        10,
        10,
        ColorType::Grayscale,
        BitDepth::Eight,
        Interlacing::Adam7,
        data.clone(),
        None,
        None,
    );
    let bytes = encode_image(img);
    let decoded = decode(&bytes);
    assert_eq!(decoded.raw.data, data, "interlacing round trip");
    let mut opts = test_opts();
    opts.interlace = Some(Interlacing::Standard);
    let out = optimize_from_memory(&bytes, &opts).unwrap();
    let back = decode(&out);
    assert_eq!(back.raw.ihdr.interlaced, Interlacing::Standard);
    assert_eq!(back.raw.data, data);
    assert!(validate_output(&out, &bytes));
}

#[test]
fn srgb_profile_is_replaced_by_srgb_chunk() {
    // build a fake sRGB profile: 3024 bytes whose checksum the allow list
    // does not know, but whose profile ID matches a known digest
    let mut profile = vec![0u8; 3000];
    let mut seed: u32 = 0x1234_5678;
    for b in profile.iter_mut() {
        seed = seed.wrapping_mul(1_103_515_245).wrapping_add(12_345);
        *b = (seed >> 16) as u8;
    }
    profile[67] = 1;
    let digest = [
        0x29u8, 0xf8, 0x3d, 0xde, 0xaf, 0xf2, 0x55, 0xae, 0x78, 0x42, 0xfa, 0xe4, 0xca, 0x83,
        0x39, 0x0d,
    ];
    profile[84..100].copy_from_slice(&digest);
    let best = AtomicMin::new(None);
    let compressed = pngopt::deflate::deflate(&profile, 5, &best).unwrap();
    let mut payload = Vec::new();
    payload.extend_from_slice(b"icc name");
    payload.push(0);
    payload.push(0);
    payload.extend_from_slice(&compressed);
    assert_eq!(pngopt::srgb_rendering_intent(&payload), Some(1));
}

#[test]
fn strip_all_removes_auxiliary_chunks() {
    let img = gray_rgba8();
    let mut raw = img;
    pngopt::headers::aux_insert(
        &mut raw.aux_headers,
        pngopt::headers::chunk_name(b't', b'E', b'X', b't'),
        vec![1, 2, 3],
    );
    let bytes = encode_image(raw);
    let mut opts = test_opts();
    opts.strip = pngopt::headers::Headers::All;
    let out = optimize_from_memory(&bytes, &opts).unwrap();
    let back = decode(&out);
    assert_eq!(pngopt::headers::aux_len(&back.raw.aux_headers), 0);
}

#[test]
fn report_format_describes_image() {
    let img = gray_rgba8();
    let info = pngopt::report_format(&img);
    assert_eq!(info.bit_depth, 8);
    assert_eq!(info.channels, 4);
    assert!(!info.indexed);
    assert!(!info.interlaced);
}

#[test]
fn rgba_8_with_mixed_alpha_becomes_indexed_with_one_clear_entry() {
    // few unique colors, at least one opaque and one fully transparent pixel
    let mut data = Vec::new();
    for i in 0..64usize {
        if i % 4 == 0 {
            data.extend_from_slice(&[30, 40, 50, 0]);
        } else {
            data.extend_from_slice(&[(i % 3) as u8 * 40, 90, 120, 255]);
        }
    }
    let img = make_image(
        8,
        8,
        ColorType::RGBA,
        BitDepth::Eight,
        Interlacing::Standard,
        data,
        None,
        None,
    );
    let bytes = encode_image(img);
    let mut opts = test_opts();
    opts.optimize_alpha = true;
    let out = optimize_from_memory(&bytes, &opts).unwrap();
    let back = decode(&out);
    assert_eq!(back.raw.ihdr.color_type, ColorType::Indexed);
    let pal = back.raw.palette.as_ref().unwrap();
    assert_eq!(pal.iter().filter(|e| e.a == 0).count(), 1);
    assert!(validate_output(&out, &bytes));
}

#[test]
fn grayscale_alpha_8_should_be_grayscale_8() {
    let mut data = Vec::new();
    for i in 0..300usize {
        data.extend_from_slice(&[(i % 251) as u8, 255]);
    }
    let img = make_image(
        20,
        15,
        ColorType::GrayscaleAlpha,
        BitDepth::Eight,
        Interlacing::Standard,
        data,
        None,
        None,
    );
    let bytes = encode_image(img);
    let out = optimize_from_memory(&bytes, &test_opts()).unwrap();
    let back = decode(&out);
    assert_eq!(back.raw.ihdr.color_type, ColorType::Grayscale);
    assert_eq!(back.raw.ihdr.bit_depth, BitDepth::Eight);
    assert!(validate_output(&out, &bytes));
}

#[test]
fn rgb_8_should_be_palette_8() {
    let mut data = Vec::new();
    let colors = [[10u8, 20, 30], [40, 50, 60], [70, 80, 90]];
    for i in 0..300usize {
        data.extend_from_slice(&colors[i % 3]);
    }
    let img = make_image(
        20,
        15,
        ColorType::RGB,
        BitDepth::Eight,
        Interlacing::Standard,
        data,
        None,
        None,
    );
    let bytes = encode_image(img);
    let out = optimize_from_memory(&bytes, &test_opts()).unwrap();
    let back = decode(&out);
    assert_eq!(back.raw.ihdr.color_type, ColorType::Indexed);
    assert_eq!(back.raw.palette.as_ref().unwrap().len(), 3);
    assert!(validate_output(&out, &bytes));
}

#[test]
fn grayscale_16_should_be_grayscale_8() {
    let mut data = Vec::new();
    for i in 0..100usize {
        let v = (i * 2 % 256) as u8;
        data.extend_from_slice(&[v, v]);
    }
    let img = make_image(
        10,
        10,
        ColorType::Grayscale,
        BitDepth::Sixteen,
        Interlacing::Standard,
        data,
        None,
        None,
    );
    let bytes = encode_image(img);
    let out = optimize_from_memory(&bytes, &test_opts()).unwrap();
    let back = decode(&out);
    assert_eq!(back.raw.ihdr.color_type, ColorType::Grayscale);
    assert_eq!(back.raw.ihdr.bit_depth, BitDepth::Eight);
    assert!(validate_output(&out, &bytes));
}

#[test]
fn aux_chunks_survive_by_default() {
    let mut raw = gray_rgba8();
    pngopt::headers::aux_insert(
        &mut raw.aux_headers,
        pngopt::headers::chunk_name(b'z', b'T', b'X', b't'),
        vec![9, 9, 9],
    );
    let bytes = encode_image(raw);
    let out = optimize_from_memory(&bytes, &test_opts()).unwrap();
    let back = decode(&out);
    assert_eq!(pngopt::headers::aux_len(&back.raw.aux_headers), 1);
}

#[test]
fn rgba_16_should_be_rgba_16() {
    // high and low bytes differ and alpha varies: nothing can be dropped
    let mut data = Vec::new();
    for i in 0..64usize {
        for c in 0..4usize {
            data.extend_from_slice(&[(i * 7 + c) as u8, (i * 13 + c * 5 + 1) as u8]);
        }
    }
    let img = make_image(
        8,
        8,
        ColorType::RGBA,
        BitDepth::Sixteen,
        Interlacing::Standard,
        data.clone(),
        None,
        None,
    );
    let bytes = encode_image(img);
    let out = optimize_from_memory(&bytes, &test_opts()).unwrap();
    let back = decode(&out);
    assert_eq!(back.raw.ihdr.color_type, ColorType::RGBA);
    assert_eq!(back.raw.ihdr.bit_depth, BitDepth::Sixteen);
    assert_eq!(back.raw.data, data);
    assert!(validate_output(&out, &bytes));
}

#[test]
fn rgb_16_should_be_rgb_16() {
    let mut data = Vec::new();
    for i in 0..64usize {
        for c in 0..3usize {
            data.extend_from_slice(&[(i * 11 + c) as u8, (i * 3 + c * 9 + 2) as u8]);
        }
    }
    let img = make_image(
        8,
        8,
        ColorType::RGB,
        BitDepth::Sixteen,
        Interlacing::Standard,
        data.clone(),
        None,
        None,
    );
    let bytes = encode_image(img);
    let out = optimize_from_memory(&bytes, &test_opts()).unwrap();
    let back = decode(&out);
    assert_eq!(back.raw.ihdr.color_type, ColorType::RGB);
    assert_eq!(back.raw.ihdr.bit_depth, BitDepth::Sixteen);
    assert_eq!(back.raw.data, data);
    assert!(validate_output(&out, &bytes));
}

#[test]
fn grayscale_alpha_16_should_be_grayscale_alpha_16() {
    let mut data = Vec::new();
    for i in 0..64usize {
        data.extend_from_slice(&[
            (i * 5) as u8,
            (i * 9 + 1) as u8,
            (i * 2) as u8,
            (i * 7 + 3) as u8,
        ]);
    }
    let img = make_image(
        8,
        8,
        ColorType::GrayscaleAlpha,
        BitDepth::Sixteen,
        Interlacing::Standard,
        data.clone(),
        None,
        None,
    );
    let bytes = encode_image(img);
    let out = optimize_from_memory(&bytes, &test_opts()).unwrap();
    let back = decode(&out);
    assert_eq!(back.raw.ihdr.color_type, ColorType::GrayscaleAlpha);
    assert_eq!(back.raw.ihdr.bit_depth, BitDepth::Sixteen);
    assert_eq!(back.raw.data, data);
    assert!(validate_output(&out, &bytes));
}

#[test]
fn palette_8_should_be_palette_8() {
    // 200 distinct entries, all used: no palette or depth reduction fits
    let mut palette = Vec::new();
    for k in 0..200usize {
        palette.push(Rgba {
            r: k as u8,
            g: (k * 3) as u8,
            b: (k * 7) as u8,
            a: 255,
        });
    }
    let data: Vec<u8> = (0..200u8).collect();
    let img = make_image(
        20,
        10,
        ColorType::Indexed,
        BitDepth::Eight,
        Interlacing::Standard,
        data.clone(),
        Some(palette),
        None,
    );
    let bytes = encode_image(img);
    let out = optimize_from_memory(&bytes, &test_opts()).unwrap();
    let back = decode(&out);
    assert_eq!(back.raw.ihdr.color_type, ColorType::Indexed);
    assert_eq!(back.raw.ihdr.bit_depth, BitDepth::Eight);
    assert_eq!(back.raw.palette.as_ref().unwrap().len(), 200);
    assert!(validate_output(&out, &bytes));
}

#[test]
fn grayscale_8_should_be_grayscale_4() {
    // every sample a multiple of 17: exactly representable in four bits
    let data: Vec<u8> = (0..64usize).map(|i| ((i % 16) * 17) as u8).collect();
    let img = make_image(
        8,
        8,
        ColorType::Grayscale,
        BitDepth::Eight,
        Interlacing::Standard,
        data,
        None,
        None,
    );
    let bytes = encode_image(img);
    let out = optimize_from_memory(&bytes, &test_opts()).unwrap();
    let back = decode(&out);
    assert_eq!(back.raw.ihdr.color_type, ColorType::Grayscale);
    assert_eq!(back.raw.ihdr.bit_depth, BitDepth::Four);
    assert!(validate_output(&out, &bytes));
}

#[test]
fn rgba_16_should_be_grayscale_alpha_16() {
    // equal channels but varying alpha and distinct high and low bytes
    let mut data = Vec::new();
    for i in 0..64usize {
        let hi = (i * 5) as u8;
        let lo = (i * 9 + 1) as u8;
        for _ in 0..3usize {
            data.extend_from_slice(&[hi, lo]);
        }
        data.extend_from_slice(&[(i * 2) as u8, (i * 7 + 3) as u8]);
    }
    let img = make_image(
        8,
        8,
        ColorType::RGBA,
        BitDepth::Sixteen,
        Interlacing::Standard,
        data,
        None,
        None,
    );
    let bytes = encode_image(img);
    let out = optimize_from_memory(&bytes, &test_opts()).unwrap();
    let back = decode(&out);
    assert_eq!(back.raw.ihdr.color_type, ColorType::GrayscaleAlpha);
    assert_eq!(back.raw.ihdr.bit_depth, BitDepth::Sixteen);
    assert!(validate_output(&out, &bytes));
}

#[test]
fn rgba_8_should_be_rgb_trns_8() {
    // binary alpha, more than 256 distinct colors: only the key rewrite fits
    let mut data = Vec::new();
    for i in 0..400usize {
        let transparent = i % 7 == 0;
        data.extend_from_slice(&[
            (i % 256) as u8 | 1,
            (i / 2 % 256) as u8,
            (i / 3 % 256) as u8 | 1,
            if transparent { 0 } else { 255 },
        ]);
    }
    let img = make_image(
        20,
        20,
        ColorType::RGBA,
        BitDepth::Eight,
        Interlacing::Standard,
        data,
        None,
        None,
    );
    let rewritten = pngopt::reduction::reduced_alpha_to_trns(&img).unwrap();
    assert_eq!(rewritten.ihdr.color_type, ColorType::RGB);
    assert!(rewritten.transparency.is_some());
    let bytes = encode_image(img);
    let mut opts = test_opts();
    opts.optimize_alpha = true;
    let out = optimize_from_memory(&bytes, &opts).unwrap();
    assert!(validate_output(&out, &bytes));
}

#[test]
fn grayscale_alpha_8_should_be_grayscale_trns_8() {
    // binary alpha over a gray ramp with one value left unused
    let mut data = Vec::new();
    for i in 0..256usize {
        let transparent = i % 5 == 0;
        data.extend_from_slice(&[(i % 255) as u8 + 1, if transparent { 0 } else { 255 }]);
    }
    let img = make_image(
        16,
        16,
        ColorType::GrayscaleAlpha,
        BitDepth::Eight,
        Interlacing::Standard,
        data,
        None,
        None,
    );
    let rewritten = pngopt::reduction::reduced_alpha_to_trns(&img).unwrap();
    assert_eq!(rewritten.ihdr.color_type, ColorType::Grayscale);
    assert_eq!(rewritten.transparency.as_ref().unwrap().len(), 2);
    let bytes = encode_image(img);
    let mut opts = test_opts();
    opts.optimize_alpha = true;
    let out = optimize_from_memory(&bytes, &opts).unwrap();
    assert!(validate_output(&out, &bytes));
}

#[test]
fn palette_8_should_be_palette_4() {
    // twelve palette entries fit four bits
    let mut palette = Vec::new();
    for k in 0..12u8 {
        palette.push(Rgba {
            r: k * 20,
            g: k * 10,
            b: 255 - k,
            a: 255,
        });
    }
    let mut data = Vec::new();
    for i in 0..60usize {
        data.push((i % 12) as u8);
    }
    let img = make_image(
        10,
        6,
        ColorType::Indexed,
        BitDepth::Eight,
        Interlacing::Standard,
        data.clone(),
        Some(palette),
        None,
    );
    let repacked = pngopt::reduction::reduce_bit_depth(&img, 1).unwrap();
    assert_eq!(repacked.ihdr.bit_depth, BitDepth::Four);
    assert_eq!(repacked.ihdr.color_type, ColorType::Indexed);
    for y in 0..6usize {
        for x in 0..10usize {
            assert_eq!(repacked.sample(y, x) as usize, (y * 10 + x) % 12);
        }
    }
    let bytes = encode_image(img);
    let out = optimize_from_memory(&bytes, &test_opts()).unwrap();
    let back = decode(&out);
    assert_eq!(back.raw.ihdr.color_type, ColorType::Indexed);
    assert_eq!(back.raw.ihdr.bit_depth, BitDepth::Four);
    assert!(validate_output(&out, &bytes));
}

#[test]
fn palette_2_should_be_palette_2() {
    // three entries already at two bits: no depth change applies
    let palette = vec![
        Rgba {
            r: 1,
            g: 2,
            b: 3,
            a: 255,
        },
        Rgba {
            r: 4,
            g: 5,
            b: 6,
            a: 255,
        },
        Rgba {
            r: 7,
            g: 8,
            b: 9,
            a: 255,
        },
    ];
    let data = vec![0b00_01_10_00u8, 0b10_01_00_00u8];
    let img = make_image(
        4,
        2,
        ColorType::Indexed,
        BitDepth::Two,
        Interlacing::Standard,
        data,
        Some(palette),
        None,
    );
    assert!(pngopt::reduction::reduce_bit_depth(&img, 1).is_none());
    let bytes = encode_image(img);
    let mut opts = test_opts();
    opts.force = false;
    let out = optimize_from_memory(&bytes, &opts).unwrap();
    assert!(out.len() <= bytes.len());
    assert!(validate_output(&out, &bytes));
}
