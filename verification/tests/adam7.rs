//! Focused tests of the Adam7 pass gather and scatter.

use pngopt::colors::{BitDepth, ColorType};
use pngopt::headers::aux_new;
use pngopt::interlace::{build_pass_rows, deinterlace_image, interlace_image, Interlacing};
use pngopt::png::{IhdrData, PngImage};

fn ramp_image() -> PngImage {
    let mut data = Vec::new();
    for i in 0..100usize {
        data.push((i * 3 % 251) as u8);
    }
    PngImage {
        ihdr: IhdrData {
            width: 10,
            height: 10,
            color_type: ColorType::Grayscale,
            bit_depth: BitDepth::Eight,
            interlaced: Interlacing::Adam7,
        },
        data,
        palette: None,
        transparency: None,
        aux_headers: aux_new(),
    }
}

#[test]
fn gather_scatter_round_trip() {
    let img = ramp_image();
    let (ibuf, rows) = interlace_image(&img.ihdr, &img.data).unwrap();
    let (rows2, total) = build_pass_rows(&img.ihdr).unwrap();
    assert_eq!(rows.len(), rows2.len());
    assert_eq!(ibuf.len(), total);
    let back = deinterlace_image(&img.ihdr, &ibuf).unwrap();
    assert_eq!(back, img.data);
}

#[test]
fn filter_layer_round_trip_on_passes() {
    let img = ramp_image();
    let (ibuf, rows) = interlace_image(&img.ihdr, &img.data).unwrap();
    let tags = vec![0u8; rows.len()];
    let stream = pngopt::filters::filter_layout(&ibuf, &rows, 1, &tags);
    assert_eq!(stream.len(), ibuf.len() + rows.len());
    let back = pngopt::filters::unfilter_layout(&stream, &rows, 1).unwrap();
    assert_eq!(back, ibuf);
}
