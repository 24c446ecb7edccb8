//! The reduction engine: lossless transforms that shrink the encoded form
//! while preserving every visible pixel.

use vstd::prelude::*;
use crate::bits::{
    valid_bits, spec_sample, spec_sample_max, get_packed_sample, set_packed_sample,
    lemma_sample_in_row, lemma_row_extent, lemma_sample_bound, lemma_sample_max_values,
    spec_row_bytes,
};
use crate::colors::{BitDepth, ColorType, Rgba, spec_valid_depth};
use crate::headers::aux_clone;
use crate::png::{
    IhdrData, PngImage, PngImageV, img_wf, spec_img_sample, spec_pixels, spec_pixel,
    spec_vis_equal, scale16, Pixel, clone_bytes, clone_palette, spec_trns_rgb, spec_trns_gray,
};

verus! {

/// Copy an image's samples into a buffer of a (possibly different) bit
/// depth, dividing each sample by `div`. Returns the packed buffer.
fn repack_samples(img: &PngImage, new_ihdr: &IhdrData, div: u16) -> (out: Vec<u8>)
    requires
        img_wf(img@),
        new_ihdr.spec_dims_ok(),
        new_ihdr.width == img.ihdr.width,
        new_ihdr.height == img.ihdr.height,
        new_ihdr.color_type == img.ihdr.color_type,
        div >= 1,
        // every divided sample fits the new depth
        forall|y: int, i: int|
            0 <= y < img.ihdr.height && 0 <= i < img.ihdr.spec_row_samples()
                ==> #[trigger] spec_img_sample(img@, y, i) / div as nat <= spec_sample_max(
                new_ihdr.bit_depth.spec_bits(),
            ),
    ensures
        out.len() == new_ihdr.spec_data_len(),
        forall|y: int, i: int|
            0 <= y < new_ihdr.height && 0 <= i < new_ihdr.spec_row_samples()
                ==> #[trigger] spec_sample(
                out@,
                y * new_ihdr.spec_rb() as int,
                new_ihdr.bit_depth.spec_bits(),
                i,
            ) == spec_img_sample(img@, y, i) / div as nat,
{
    let h = new_ihdr.height as usize;
    let n = new_ihdr.row_samples();
    let rb = new_ihdr.rb();
    let bits = new_ihdr.bit_depth.as_u8();
    let total = new_ihdr.data_len();
    let mut out = crate::filters::zero_vec(total);
    let mut y: usize = 0;
    while y < h
        invariant
            y <= h,
            img_wf(img@),
            new_ihdr.spec_dims_ok(),
            new_ihdr.width == img.ihdr.width,
            new_ihdr.height == img.ihdr.height,
            new_ihdr.color_type == img.ihdr.color_type,
            div >= 1,
            h == new_ihdr.height,
            n as nat == new_ihdr.spec_row_samples(),
            rb as nat == new_ihdr.spec_rb(),
            bits as nat == new_ihdr.bit_depth.spec_bits(),
            valid_bits(bits as nat),
            total as nat == new_ihdr.spec_data_len(),
            out.len() == total,
            forall|y2: int, i2: int|
                0 <= y2 < img.ihdr.height && 0 <= i2 < img.ihdr.spec_row_samples()
                    ==> #[trigger] spec_img_sample(img@, y2, i2) / div as nat <= spec_sample_max(
                    new_ihdr.bit_depth.spec_bits(),
                ),
            forall|y2: int, i2: int|
                0 <= y2 < y && 0 <= i2 < n ==> #[trigger] spec_sample(
                    out@,
                    y2 * rb as int,
                    bits as nat,
                    i2,
                ) == spec_img_sample(img@, y2, i2) / div as nat,
        decreases h - y,
    {
        let mut i: usize = 0;
        while i < n
            invariant
                i <= n,
                y < h,
                img_wf(img@),
                new_ihdr.spec_dims_ok(),
                new_ihdr.width == img.ihdr.width,
                new_ihdr.height == img.ihdr.height,
                new_ihdr.color_type == img.ihdr.color_type,
                div >= 1,
                h == new_ihdr.height,
                n as nat == new_ihdr.spec_row_samples(),
                rb as nat == new_ihdr.spec_rb(),
                bits as nat == new_ihdr.bit_depth.spec_bits(),
                valid_bits(bits as nat),
                total as nat == new_ihdr.spec_data_len(),
                out.len() == total,
                forall|y2: int, i2: int|
                    0 <= y2 < img.ihdr.height && 0 <= i2 < img.ihdr.spec_row_samples()
                        ==> #[trigger] spec_img_sample(img@, y2, i2) / div as nat
                        <= spec_sample_max(new_ihdr.bit_depth.spec_bits()),
                forall|y2: int, i2: int|
                    0 <= y2 < y && 0 <= i2 < n ==> #[trigger] spec_sample(
                        out@,
                        y2 * rb as int,
                        bits as nat,
                        i2,
                    ) == spec_img_sample(img@, y2, i2) / div as nat,
                forall|i2: int|
                    0 <= i2 < i ==> #[trigger] spec_sample(out@, y * rb as int, bits as nat, i2)
                        == spec_img_sample(img@, y as int, i2) / div as nat,
            decreases n - i,
        {
            proof {
                lemma_sample_in_row(n as nat, bits as nat, i as int);
                lemma_row_extent(y as int, h as int, rb as nat);
                assert(h as nat * rb as nat == total) by (nonlinear_arith)
                    requires
                        total as nat == new_ihdr.spec_data_len(),
                        new_ihdr.spec_data_len() == new_ihdr.height as nat * new_ihdr.spec_rb(),
                        rb as nat == new_ihdr.spec_rb(),
                        h == new_ihdr.height,
                ;
            }
            let v = img.sample(y, i);
            let nv = v / div;
            proof {
                assert(nv as nat == spec_img_sample(img@, y as int, i as int) / div as nat);
            }
            let ghost pre = out@;
            set_packed_sample(&mut out, y * rb, bits, i, nv);
            proof {
                assert forall|y2: int, i2: int|
                    0 <= y2 < y && 0 <= i2 < n implies #[trigger] spec_sample(
                    out@,
                    y2 * rb as int,
                    bits as nat,
                    i2,
                ) == spec_img_sample(img@, y2, i2) / div as nat by {
                    lemma_sample_in_row(n as nat, bits as nat, i2);
                    lemma_row_extent(y2, h as int, rb as nat);
                    assert(y2 * rb as int + spec_row_bytes(n as nat, bits as nat) <= y * rb
                        + crate::bits::spec_sample_start(bits as nat, i as int) || y * rb
                        + crate::bits::spec_sample_end(bits as nat, i as int) <= y2 * rb as int)
                        by (nonlinear_arith)
                        requires
                            0 <= y2 < y,
                            0 <= crate::bits::spec_sample_start(bits as nat, i as int),
                            crate::bits::spec_sample_end(bits as nat, i as int) <= rb,
                            spec_row_bytes(n as nat, bits as nat) == rb,
                    ;
                    assert(spec_sample(out@, y2 * rb as int, bits as nat, i2) == spec_sample(
                        pre,
                        y2 * rb as int,
                        bits as nat,
                        i2,
                    )) by {
                        lemma_sample_frame(pre, out@, y2 * rb as int, bits as nat, i2);
                    }
                }
                assert forall|i2: int|
                    0 <= i2 < i + 1 implies #[trigger] spec_sample(
                    out@,
                    y * rb as int,
                    bits as nat,
                    i2,
                ) == spec_img_sample(img@, y as int, i2) / div as nat by {
                    if i2 < i {
                        lemma_sample_in_row(n as nat, bits as nat, i2);
                    }
                }
            }
            i = i + 1;
        }
        y = y + 1;
    }
    out
}

/// Two buffers equal on a sample's bytes read that sample equally.
pub proof fn lemma_sample_frame(a: Seq<u8>, b: Seq<u8>, base: int, bits: nat, i: int)
    requires
        valid_bits(bits),
        a.len() == b.len(),
        forall|j: int|
            base + crate::bits::spec_sample_start(bits, i) <= j < base
                + crate::bits::spec_sample_end(bits, i) && 0 <= j < a.len() ==> a[j] == b[j],
        0 <= base + crate::bits::spec_sample_start(bits, i),
        base + crate::bits::spec_sample_end(bits, i) <= a.len(),
    ensures
        spec_sample(a, base, bits, i) == spec_sample(b, base, bits, i),
{
    if bits == 16 {
        assert(a[base + 2 * i] == b[base + 2 * i] && a[base + 2 * i + 1] == b[base + 2 * i + 1]);
    } else if bits == 8 {
        assert(a[base + i] == b[base + i]);
    } else {
        assert(a[base + i / crate::bits::per_byte(bits)] == b[base + i / crate::bits::per_byte(
            bits,
        )]);
    }
}


/// Pixel equality of two images of the same geometry and color type whose
/// samples are equal after normalization, with no transparency key on
/// either side and equal palettes.
#[verifier::rlimit(100)]
proof fn lemma_pixels_equal_scaled(a: PngImageV, b: PngImageV)
    requires
        a.ihdr.width == b.ihdr.width,
        a.ihdr.height == b.ihdr.height,
        a.ihdr.color_type == b.ihdr.color_type,
        a.palette == b.palette,
        a.transparency is None,
        b.transparency is None,
        a.ihdr.color_type != ColorType::Indexed ==> forall|y: int, i: int|
            0 <= y < a.ihdr.height && 0 <= i < a.ihdr.spec_row_samples() ==> scale16(
                #[trigger] spec_img_sample(b, y, i),
                b.ihdr.bit_depth.spec_bits(),
            ) == scale16(spec_img_sample(a, y, i), a.ihdr.bit_depth.spec_bits()),
        a.ihdr.color_type == ColorType::Indexed ==> forall|y: int, i: int|
            0 <= y < a.ihdr.height && 0 <= i < a.ihdr.spec_row_samples()
                ==> #[trigger] spec_img_sample(b, y, i) == spec_img_sample(a, y, i),
    ensures
        spec_pixels(a) == spec_pixels(b),
{
    let w = a.ihdr.width as int;
    let h = a.ihdr.height as int;
    let ch = a.ihdr.color_type.spec_channels() as int;
    assert forall|p: int| 0 <= p < h * w implies #[trigger] spec_pixel(a, p / w, p % w)
        == spec_pixel(b, p / w, p % w) by {
        let y = p / w;
        let x = p % w;
        assert(0 <= y < h && 0 <= x < w) by (nonlinear_arith)
            requires
                0 <= p < h * w,
                y == p / w,
                x == p % w,
                w >= 1,
        ;
        assert(a.ihdr.spec_row_samples() == w * ch) by (nonlinear_arith)
            requires
                a.ihdr.spec_row_samples() == a.ihdr.width as nat
                    * a.ihdr.color_type.spec_channels(),
                w == a.ihdr.width as int,
                ch == a.ihdr.color_type.spec_channels() as int,
        ;
        assert(ch * x + ch <= ch * w) by (nonlinear_arith)
            requires
                0 <= x < w,
                ch >= 1,
        ;
        assert(w * ch == ch * w) by (nonlinear_arith);
    }
    assert(spec_pixels(a) =~= spec_pixels(b));
}

/// Every sample is an exact multiple of `d`.
pub open spec fn spec_all_divisible(v: PngImageV, d: u16) -> bool {
    forall|y: int, i: int|
        0 <= y < v.ihdr.height && 0 <= i < v.ihdr.spec_row_samples()
            ==> #[trigger] spec_img_sample(v, y, i) % d as nat == 0
}

/// The header with its depth replaced.
pub open spec fn spec_with_depth(ihdr: IhdrData, d: BitDepth) -> IhdrData {
    IhdrData {
        width: ihdr.width,
        height: ihdr.height,
        color_type: ihdr.color_type,
        bit_depth: d,
        interlaced: ihdr.interlaced,
    }
}

/// The depth an indexed image's samples should take: the smallest depth no
/// shallower than `minimum` that addresses the whole palette.
pub open spec fn spec_indexed_target(plen: nat, minimum: u8) -> BitDepth {
    if minimum <= 1 && plen <= 2 {
        BitDepth::One
    } else if minimum <= 2 && plen <= 4 {
        BitDepth::Two
    } else if minimum <= 4 && plen <= 16 {
        BitDepth::Four
    } else {
        BitDepth::Eight
    }
}

/// A depth change applies: the image carries no transparency key, and
/// either it is indexed and its palette fits a different depth no shallower
/// than `minimum` whose buffer fits in memory, or it is not indexed and
/// every sample is a multiple of the exact divisor between the current
/// depth and a legal shallower one.
pub open spec fn spec_bit_depth_applicable(v: PngImageV, minimum: u8) -> bool {
    &&& v.transparency is None
    &&& (if v.ihdr.color_type == ColorType::Indexed {
        v.palette is Some && ({
            let t = spec_indexed_target(v.palette.unwrap().len(), minimum);
            t.spec_bits() != v.ihdr.bit_depth.spec_bits() && spec_with_depth(
                v.ihdr,
                t,
            ).spec_dims_ok()
        })
    } else {
        let bits = v.ihdr.bit_depth.spec_bits();
        let gray = v.ihdr.color_type == ColorType::Grayscale;
        ||| (bits == 16 && spec_all_divisible(v, 257))
        ||| (bits == 8 && gray && minimum <= 1 && spec_all_divisible(v, 255))
        ||| (bits == 8 && gray && minimum <= 2 && spec_all_divisible(v, 85))
        ||| (bits == 8 && gray && minimum <= 4 && spec_all_divisible(v, 17))
        ||| (bits == 4 && gray && minimum <= 1 && spec_all_divisible(v, 15))
        ||| (bits == 4 && gray && minimum <= 2 && spec_all_divisible(v, 5))
        ||| (bits == 2 && gray && minimum <= 1 && spec_all_divisible(v, 3))
    })
}

/// A shallower depth keeps the header's buffers within memory.
proof fn lemma_dims_ok_fewer_bits(a: IhdrData, b: IhdrData)
    requires
        a.spec_dims_ok(),
        b.width == a.width,
        b.height == a.height,
        b.color_type == a.color_type,
        b.bit_depth.spec_bits() <= a.bit_depth.spec_bits(),
    ensures
        b.spec_dims_ok(),
{
    assert(b.spec_row_samples() == a.spec_row_samples());
    assert(b.spec_row_samples() * b.bit_depth.spec_bits() <= a.spec_row_samples()
        * a.bit_depth.spec_bits()) by (nonlinear_arith)
        requires
            b.spec_row_samples() == a.spec_row_samples(),
            b.bit_depth.spec_bits() <= a.bit_depth.spec_bits(),
    ;
    assert(b.spec_rb() <= a.spec_rb()) by (nonlinear_arith)
        requires
            b.spec_rb() == (b.spec_row_samples() * b.bit_depth.spec_bits() + 7) / 8,
            a.spec_rb() == (a.spec_row_samples() * a.bit_depth.spec_bits() + 7) / 8,
            b.spec_row_samples() * b.bit_depth.spec_bits() <= a.spec_row_samples()
                * a.bit_depth.spec_bits(),
    ;
    assert(b.spec_data_len() <= a.spec_data_len()) by (nonlinear_arith)
        requires
            b.spec_data_len() == b.height as nat * b.spec_rb(),
            a.spec_data_len() == a.height as nat * a.spec_rb(),
            b.height == a.height,
            b.spec_rb() <= a.spec_rb(),
    ;
}

/// Pick the shallowest admissible target depth and its exact divisor.
fn select_bit_depth_target(img: &PngImage, minimum: u8) -> (r: Option<(BitDepth, u16)>)
    requires
        img_wf(img@),
        minimum == 1 || minimum == 2 || minimum == 4,
        img@.transparency is None,
        img.ihdr.color_type != ColorType::Indexed,
    ensures
        match r {
            Some(f) => f.1 >= 1 && f.0.spec_bits() < img.ihdr.bit_depth.spec_bits()
                && spec_valid_depth(img.ihdr.color_type, f.0) && scale_exact(
                img.ihdr.bit_depth.spec_bits(),
                f.0.spec_bits(),
                f.1 as nat,
            ) && spec_all_divisible(img@, f.1),
            None => true,
        },
        r is Some <==> spec_bit_depth_applicable(img@, minimum),
{
    let cur = img.ihdr.bit_depth.as_u8();
    let gray = img.ihdr.color_type == ColorType::Grayscale;
    if cur == 16 {
        if all_samples_divisible(img, 257) {
            return Some((BitDepth::Eight, 257));
        }
        return Option::None;
    }
    if cur == 8 && gray {
        if minimum <= 1 && all_samples_divisible(img, 255) {
            return Some((BitDepth::One, 255));
        }
        if minimum <= 2 && all_samples_divisible(img, 85) {
            return Some((BitDepth::Two, 85));
        }
        if minimum <= 4 && all_samples_divisible(img, 17) {
            return Some((BitDepth::Four, 17));
        }
        return Option::None;
    }
    if cur == 4 && gray {
        if minimum <= 1 && all_samples_divisible(img, 15) {
            return Some((BitDepth::One, 15));
        }
        if minimum <= 2 && all_samples_divisible(img, 5) {
            return Some((BitDepth::Two, 5));
        }
        return Option::None;
    }
    if cur == 2 && gray {
        if minimum <= 1 && all_samples_divisible(img, 3) {
            return Some((BitDepth::One, 3));
        }
        return Option::None;
    }
    Option::None
}

/// Repack an indexed image's samples to the smallest depth, no shallower
/// than `minimum`, that addresses its palette; this includes widening a
/// sub-four-bit image to four bits when `minimum` asks for it.
#[verifier::rlimit(100)]
fn reduce_indexed_depth(img: &PngImage, minimum: u8) -> (r: Option<PngImage>)
    requires
        img_wf(img@),
        minimum == 1 || minimum == 2 || minimum == 4,
        img.ihdr.color_type == ColorType::Indexed,
        img@.transparency is None,
    ensures
        match r {
            Some(out) => img_wf(out@) && out.ihdr.width == img.ihdr.width && out.ihdr.height
                == img.ihdr.height && out.ihdr.color_type == img.ihdr.color_type
                && out.ihdr.interlaced == img.ihdr.interlaced
                && out.ihdr.bit_depth.spec_bits() != img.ihdr.bit_depth.spec_bits()
                && out.ihdr.bit_depth == spec_indexed_target(
                img@.palette.unwrap().len(),
                minimum,
            ) && out@.palette == img@.palette && out@.aux == img@.aux && spec_pixels(out@)
                == spec_pixels(img@),
            None => true,
        },
        r is Some <==> spec_bit_depth_applicable(img@, minimum),
{
    let pal = match &img.palette {
        Some(p) => p,
        None => {
            proof {
                assert(false);
            }
            return Option::None;
        },
    };
    let plen = pal.len();
    let target: BitDepth = if minimum <= 1 && plen <= 2 {
        BitDepth::One
    } else if minimum <= 2 && plen <= 4 {
        BitDepth::Two
    } else if minimum <= 4 && plen <= 16 {
        BitDepth::Four
    } else {
        BitDepth::Eight
    };
    proof {
        assert(target == spec_indexed_target(plen as nat, minimum));
    }
    if target.as_u8() == img.ihdr.bit_depth.as_u8() {
        return Option::None;
    }
    let new_ihdr = IhdrData {
        width: img.ihdr.width,
        height: img.ihdr.height,
        color_type: img.ihdr.color_type,
        bit_depth: target,
        interlaced: img.ihdr.interlaced,
    };
    if !new_ihdr.dims_ok() {
        return Option::None;
    }
    proof {
        lemma_sample_max_values();
        assert forall|y: int, i: int|
            0 <= y < img.ihdr.height && 0 <= i < img.ihdr.spec_row_samples()
                implies #[trigger] spec_img_sample(img@, y, i) / 1nat <= spec_sample_max(
            new_ihdr.bit_depth.spec_bits(),
        ) by {
            assert(spec_img_sample(img@, y, i) < img@.palette.unwrap().len());
            assert(spec_img_sample(img@, y, i) / 1nat == spec_img_sample(img@, y, i))
                by (nonlinear_arith);
        }
    }
    let data = repack_samples(img, &new_ihdr, 1);
    let out = PngImage {
        ihdr: new_ihdr,
        data,
        palette: Some(clone_palette(pal)),
        transparency: Option::None,
        aux_headers: aux_clone(&img.aux_headers),
    };
    proof {
        assert(out@.aux == img@.aux);
        assert(out@.palette == img@.palette);
        assert forall|y: int, i: int|
            0 <= y < out.ihdr.height && 0 <= i < out.ihdr.spec_row_samples()
                implies #[trigger] spec_img_sample(out@, y, i) == spec_img_sample(img@, y, i) by {
            assert(spec_img_sample(out@, y, i) == spec_img_sample(img@, y, i) / 1nat);
            assert(spec_img_sample(img@, y, i) / 1nat == spec_img_sample(img@, y, i))
                by (nonlinear_arith);
        }
        assert forall|y: int, i: int|
            0 <= y < out.ihdr.height && 0 <= i < out.ihdr.spec_row_samples()
                implies #[trigger] spec_img_sample(out@, y, i) < out@.palette.unwrap().len()
            by {}
        assert(img_wf(out@));
        lemma_pixels_equal_scaled(img@, out@);
    }
    Some(out)
}

/// Lossless depth change: repack an indexed image to the smallest depth,
/// no shallower than `minimum`, that addresses its palette; repack other
/// images to the smallest depth at which every sample keeps its normalized
/// value. Images carrying a transparency key are left unchanged, as the
/// key is depth-dependent.
pub fn reduce_bit_depth(img: &PngImage, minimum: u8) -> (r: Option<PngImage>)
    requires
        img_wf(img@),
        minimum == 1 || minimum == 2 || minimum == 4,
    ensures
        match r {
            Some(out) => img_wf(out@) && out.ihdr.width == img.ihdr.width && out.ihdr.height
                == img.ihdr.height && out.ihdr.color_type == img.ihdr.color_type
                && out.ihdr.interlaced == img.ihdr.interlaced
                && out.ihdr.bit_depth.spec_bits() != img.ihdr.bit_depth.spec_bits() && (
            img.ihdr.color_type != ColorType::Indexed
                ==> out.ihdr.bit_depth.spec_bits() < img.ihdr.bit_depth.spec_bits()) && (
            img.ihdr.color_type == ColorType::Indexed ==> out.ihdr.bit_depth
                == spec_indexed_target(img@.palette.unwrap().len(), minimum) && out@.palette
                == img@.palette) && out@.aux == img@.aux && spec_pixels(out@) == spec_pixels(
                img@,
            ),
            None => true,
        },
        r is Some <==> spec_bit_depth_applicable(img@, minimum),
{
    if img.transparency.is_some() {
        return Option::None;
    }
    if img.ihdr.color_type == ColorType::Indexed {
        return reduce_indexed_depth(img, minimum);
    }
    let cur = img.ihdr.bit_depth.as_u8();
    let found = select_bit_depth_target(img, minimum);
    let (target, div) = match found {
        Some(f) => f,
        None => {
            return Option::None;
        },
    };
    let new_ihdr = IhdrData {
        width: img.ihdr.width,
        height: img.ihdr.height,
        color_type: img.ihdr.color_type,
        bit_depth: target,
        interlaced: img.ihdr.interlaced,
    };
    proof {
        lemma_dims_ok_fewer_bits(img.ihdr, new_ihdr);
    }
    proof {
        lemma_sample_max_values();
        assert forall|y: int, i: int|
            0 <= y < img.ihdr.height && 0 <= i < img.ihdr.spec_row_samples()
                implies #[trigger] spec_img_sample(img@, y, i) / div as nat <= spec_sample_max(
            new_ihdr.bit_depth.spec_bits(),
        ) by {
            lemma_sample_bound(
                img@.data,
                y * img.ihdr.spec_rb() as int,
                img.ihdr.bit_depth.spec_bits(),
                i,
            );
            lemma_div_scale_bound(
                spec_img_sample(img@, y, i),
                cur as nat,
                target.spec_bits(),
                div as nat,
            );
        }
    }
    let data = repack_samples(img, &new_ihdr, div);
    let out = PngImage {
        ihdr: new_ihdr,
        data,
        palette: Option::None,
        transparency: Option::None,
        aux_headers: aux_clone(&img.aux_headers),
    };
    proof {
        assert forall|y: int, i: int|
            0 <= y < img.ihdr.height && 0 <= i < img.ihdr.spec_row_samples() implies scale16(
            #[trigger] spec_img_sample(out@, y, i),
            out.ihdr.bit_depth.spec_bits(),
        ) == scale16(spec_img_sample(img@, y, i), img.ihdr.bit_depth.spec_bits()) by {
            lemma_scale_exact_value(
                spec_img_sample(img@, y, i),
                cur as nat,
                target.spec_bits(),
                div as nat,
            );
        }
        lemma_pixels_equal_scaled(img@, out@);
        assert(out@.aux == img@.aux);
        assert(out@.ihdr.spec_row_samples() == img@.ihdr.spec_row_samples());
        assert(img_wf(out@));
    }
    Some(out)
}

/// A divisor converts depth `from` to depth `to` exactly when dividing any
/// multiple of it preserves the bit-replicated 16-bit value.
pub open spec fn scale_exact(from: nat, to: nat, div: nat) -> bool {
    (from == 16 && to == 8 && div == 257) || (from == 8 && to == 4 && div == 17) || (from == 8
        && to == 2 && div == 85) || (from == 8 && to == 1 && div == 255) || (from == 4 && to == 2
        && div == 5) || (from == 4 && to == 1 && div == 15) || (from == 2 && to == 1 && div == 3)
}

/// The divided sample fits the target depth.
proof fn lemma_div_scale_bound(v: nat, from: nat, to: nat, div: nat)
    requires
        scale_exact(from, to, div),
        v <= spec_sample_max(from),
    ensures
        v / div <= spec_sample_max(to),
{
    lemma_sample_max_values();
    if from == 16 {
        assert(v / div <= 255) by (nonlinear_arith)
            requires
                div == 257,
                v <= 65535,
        ;
    } else if from == 8 && to == 4 {
        assert(v / div <= 15) by (nonlinear_arith)
            requires
                div == 17,
                v <= 255,
        ;
    } else if from == 8 && to == 2 {
        assert(v / div <= 3) by (nonlinear_arith)
            requires
                div == 85,
                v <= 255,
        ;
    } else if from == 8 && to == 1 {
        assert(v / div <= 1) by (nonlinear_arith)
            requires
                div == 255,
                v <= 255,
        ;
    } else if from == 4 && to == 2 {
        assert(v / div <= 3) by (nonlinear_arith)
            requires
                div == 5,
                v <= 15,
        ;
    } else if from == 4 && to == 1 {
        assert(v / div <= 1) by (nonlinear_arith)
            requires
                div == 15,
                v <= 15,
        ;
    } else {
        assert(v / div <= 1) by (nonlinear_arith)
            requires
                div == 3,
                v <= 3,
        ;
    }
}

/// Dividing an exact multiple preserves the normalized 16-bit value.
proof fn lemma_scale_exact_value(v: nat, from: nat, to: nat, div: nat)
    requires
        scale_exact(from, to, div),
        v % div == 0,
        v <= spec_sample_max(from),
    ensures
        scale16(v / div, to) == scale16(v, from),
{
    lemma_sample_max_values();
    let q = v / div;
    assert(v == q * div) by (nonlinear_arith)
        requires
            v % div == 0,
            q == v / div,
            div >= 1,
    ;
    if from == 16 {
        assert(scale16(q, 8) == scale16(v, 16)) by (nonlinear_arith)
            requires
                v == q * 257,
        ;
    } else if from == 8 && to == 4 {
        assert(scale16(q, 4) == scale16(v, 8)) by (nonlinear_arith)
            requires
                v == q * 17,
        ;
    } else if from == 8 && to == 2 {
        assert(scale16(q, 2) == scale16(v, 8)) by (nonlinear_arith)
            requires
                v == q * 85,
        ;
    } else if from == 8 && to == 1 {
        assert(scale16(q, 1) == scale16(v, 8)) by (nonlinear_arith)
            requires
                v == q * 255,
        ;
    } else if from == 4 && to == 2 {
        assert(scale16(q, 2) == scale16(v, 4)) by (nonlinear_arith)
            requires
                v == q * 5,
        ;
    } else if from == 4 && to == 1 {
        assert(scale16(q, 1) == scale16(v, 4)) by (nonlinear_arith)
            requires
                v == q * 15,
        ;
    } else {
        assert(scale16(q, 1) == scale16(v, 2)) by (nonlinear_arith)
            requires
                v == q * 3,
        ;
    }
}

/// Whether every sample is an exact multiple of `div`.
fn all_samples_divisible(img: &PngImage, div: u16) -> (r: bool)
    requires
        img_wf(img@),
        div >= 1,
    ensures
        r == spec_all_divisible(img@, div),
{
    let h = img.ihdr.height as usize;
    let n = img.ihdr.row_samples();
    let mut y: usize = 0;
    while y < h
        invariant
            y <= h,
            img_wf(img@),
            div >= 1,
            h == img.ihdr.height,
            n as nat == img.ihdr.spec_row_samples(),
            forall|y2: int, i2: int|
                0 <= y2 < y && 0 <= i2 < n ==> #[trigger] spec_img_sample(img@, y2, i2) % div
                    as nat == 0,
        decreases h - y,
    {
        let mut i: usize = 0;
        while i < n
            invariant
                i <= n,
                y < h,
                img_wf(img@),
                div >= 1,
                h == img.ihdr.height,
                n as nat == img.ihdr.spec_row_samples(),
                forall|i2: int|
                    0 <= i2 < i ==> #[trigger] spec_img_sample(img@, y as int, i2) % div as nat
                        == 0,
            decreases n - i,
        {
            let v = img.sample(y, i);
            if v % div != 0 {
                return false;
            }
            i = i + 1;
        }
        y = y + 1;
    }
    true
}


/// Two palette entries are interchangeable: equal outright, or both fully
/// transparent when transparent pixels may be rewritten.
pub open spec fn entry_equiv(a: Rgba, b: Rgba, optimize_alpha: bool) -> bool {
    a == b || (optimize_alpha && a.a == 0 && b.a == 0)
}

/// Visible pixel equality of two indexed images whose entries correspond
/// pointwise up to `entry_equiv`.
#[verifier::rlimit(100)]
proof fn lemma_pixels_vis_indexed(a: PngImageV, b: PngImageV, optimize_alpha: bool)
    requires
        a.ihdr.width == b.ihdr.width,
        a.ihdr.height == b.ihdr.height,
        a.ihdr.color_type == ColorType::Indexed,
        b.ihdr.color_type == ColorType::Indexed,
        a.palette is Some,
        b.palette is Some,
        forall|y: int, i: int|
            0 <= y < a.ihdr.height && 0 <= i < a.ihdr.spec_row_samples()
                ==> #[trigger] spec_img_sample(a, y, i) < a.palette.unwrap().len()
                && spec_img_sample(b, y, i) < b.palette.unwrap().len() && entry_equiv(
                b.palette.unwrap()[spec_img_sample(b, y, i) as int],
                a.palette.unwrap()[spec_img_sample(a, y, i) as int],
                optimize_alpha,
            ),
    ensures
        spec_vis_equal(spec_pixels(a), spec_pixels(b)),
        !optimize_alpha ==> spec_pixels(a) == spec_pixels(b),
{
    let w = a.ihdr.width as int;
    let h = a.ihdr.height as int;
    assert forall|p: int| 0 <= p < h * w implies (#[trigger] spec_pixels(a)[p] == spec_pixels(
        b,
    )[p] || (spec_pixels(a)[p].a == 0 && spec_pixels(b)[p].a == 0)) by {
        let y = p / w;
        let x = p % w;
        assert(0 <= y < h && 0 <= x < w) by (nonlinear_arith)
            requires
                0 <= p < h * w,
                y == p / w,
                x == p % w,
                w >= 1,
        ;
        assert(a.ihdr.spec_row_samples() == w) by (nonlinear_arith)
            requires
                a.ihdr.spec_row_samples() == a.ihdr.width as nat
                    * a.ihdr.color_type.spec_channels(),
                w == a.ihdr.width as int,
                a.ihdr.color_type.spec_channels() == 1,
        ;
    }
    if !optimize_alpha {
        assert forall|p: int| 0 <= p < h * w implies #[trigger] spec_pixels(a)[p] == spec_pixels(
            b,
        )[p] by {
            let y = p / w;
            let x = p % w;
            assert(0 <= y < h && 0 <= x < w) by (nonlinear_arith)
                requires
                    0 <= p < h * w,
                    y == p / w,
                    x == p % w,
                    w >= 1,
            ;
            assert(a.ihdr.spec_row_samples() == w) by (nonlinear_arith)
                requires
                    a.ihdr.spec_row_samples() == a.ihdr.width as nat
                        * a.ihdr.color_type.spec_channels(),
                    w == a.ihdr.width as int,
                    a.ihdr.color_type.spec_channels() == 1,
            ;
        }
        assert(spec_pixels(a) =~= spec_pixels(b));
    }
}

/// Palette entry `j` is referenced by some pixel.
pub open spec fn spec_entry_used(v: PngImageV, j: int) -> bool {
    exists|y: int, i: int|
        0 <= y < v.ihdr.height && 0 <= i < v.ihdr.spec_row_samples() && #[trigger] spec_img_sample(
            v,
            y,
            i,
        ) == j
}

/// The palette reduction applies: the image is indexed and its palette
/// holds an entry no pixel uses, or two used entries that render
/// identically.
pub open spec fn spec_palette_reducible(v: PngImageV, optimize_alpha: bool) -> bool {
    &&& v.palette is Some
    &&& ((exists|j: int|
        0 <= j < v.palette.unwrap().len() && !(#[trigger] spec_entry_used(v, j))) || (exists|
        j: int,
        k: int,
    |
        0 <= j < k < v.palette.unwrap().len() && spec_entry_used(v, j) && spec_entry_used(v, k)
            && #[trigger] entry_equiv(
            v.palette.unwrap()[j],
            v.palette.unwrap()[k],
            optimize_alpha,
        )))
}

/// A strictly increasing integer sequence grows at least by index.
proof fn lemma_increasing_ge(s: Seq<int>, t: int)
    requires
        forall|a: int, b: int| #![trigger s[a], s[b]] 0 <= a < b < s.len() ==> s[a] < s[b],
        forall|a: int| 0 <= a < s.len() ==> #[trigger] s[a] >= 0,
        0 <= t < s.len(),
    ensures
        s[t] >= t,
    decreases t,
{
    if t > 0 {
        lemma_increasing_ge(s, t - 1);
        assert(s[t - 1] < s[t]);
    }
}

/// Palette reduction: drop entries no pixel uses and fold together entries
/// that render identically, keeping the first occurrence of each. Applies
/// exactly when the palette holds an unused entry or two used entries that
/// render identically.
#[verifier::rlimit(100)]
pub fn reduced_palette(img: &PngImage, optimize_alpha: bool) -> (r: Option<PngImage>)
    requires
        img_wf(img@),
    ensures
        match r {
            Some(out) => img_wf(out@) && out.ihdr.width == img.ihdr.width && out.ihdr.height
                == img.ihdr.height && out.ihdr.color_type == img.ihdr.color_type
                && out.ihdr.bit_depth == img.ihdr.bit_depth && out.ihdr.interlaced
                == img.ihdr.interlaced && out@.aux == img@.aux && out@.palette.unwrap().len()
                <= img@.palette.unwrap().len() && spec_vis_equal(
                spec_pixels(img@),
                spec_pixels(out@),
            ) && (!optimize_alpha ==> spec_pixels(img@) == spec_pixels(out@)),
            None => true,
        },
        r is Some <==> spec_palette_reducible(img@, optimize_alpha),
{
    let pal = match &img.palette {
        Some(p) => p,
        None => {
            return Option::None;
        },
    };
    let plen = pal.len();
    // which entries any pixel refers to
    let mut used: Vec<bool> = Vec::new();
    let mut k: usize = 0;
    while k < plen
        invariant
            k <= plen,
            used.len() == k,
            forall|j: int| 0 <= j < k ==> !used@[j],
        decreases plen - k,
    {
        used.push(false);
        k = k + 1;
    }
    let h = img.ihdr.height as usize;
    let n = img.ihdr.row_samples();
    let mut y: usize = 0;
    while y < h
        invariant
            y <= h,
            img_wf(img@),
            img@.palette is Some,
            img.ihdr.color_type == ColorType::Indexed,
            img@.palette.unwrap().len() == plen,
            h == img.ihdr.height,
            n as nat == img.ihdr.spec_row_samples(),
            used.len() == plen,
            forall|j: int| 0 <= j < plen && used@[j] ==> #[trigger] spec_entry_used(img@, j),
            forall|y2: int, i2: int|
                0 <= y2 < y && 0 <= i2 < n ==> used@[#[trigger] spec_img_sample(
                    img@,
                    y2,
                    i2,
                ) as int],
        decreases h - y,
    {
        let mut i: usize = 0;
        while i < n
            invariant
                i <= n,
                y < h,
                img_wf(img@),
                img@.palette is Some,
                img.ihdr.color_type == ColorType::Indexed,
                img@.palette.unwrap().len() == plen,
                h == img.ihdr.height,
                n as nat == img.ihdr.spec_row_samples(),
                used.len() == plen,
                forall|j: int| 0 <= j < plen && used@[j] ==> #[trigger] spec_entry_used(img@, j),
                forall|y2: int, i2: int|
                    0 <= y2 < y && 0 <= i2 < n ==> used@[#[trigger] spec_img_sample(
                        img@,
                        y2,
                        i2,
                    ) as int],
                forall|i2: int|
                    0 <= i2 < i ==> used@[#[trigger] spec_img_sample(img@, y as int, i2) as int],
        decreases n - i,
        {
            let v = img.sample(y, i) as usize;
            if v >= plen {
                proof {
                    assert(false);
                }
                return Option::None;
            }
            used.set(v, true);
            proof {
                assert(spec_entry_used(img@, v as int)) by {
                    assert(spec_img_sample(img@, y as int, i as int) == v);
                }
                assert forall|y2: int, i2: int|
                    0 <= y2 < y && 0 <= i2 < n implies used@[#[trigger] spec_img_sample(
                    img@,
                    y2,
                    i2,
                ) as int] by {}
            }
            i = i + 1;
        }
        y = y + 1;
    }
    // canonical index for every used entry: first equivalent new entry
    let mut newpal: Vec<Rgba> = Vec::new();
    let mut map: Vec<u16> = Vec::new();
    let ghost mut srcs: Seq<int> = Seq::empty();
    let ghost mut lost: bool = false;
    let mut idx: usize = 0;
    while idx < plen
        invariant
            idx <= plen,
            img@.palette is Some,
            img@.palette.unwrap().len() == plen,
            pal@ == img@.palette.unwrap(),
            pal@.len() == plen,
            used.len() == plen,
            map.len() == idx,
            newpal.len() <= idx,
            newpal.len() <= 256,
            plen <= 256,
            forall|j: int|
                0 <= j < idx && used@[j] ==> (#[trigger] map@[j]) < newpal.len() && entry_equiv(
                    newpal@[map@[j] as int],
                    img@.palette.unwrap()[j],
                    optimize_alpha,
                ),
            // every retained entry traces to a used source entry, in order
            srcs.len() == newpal.len(),
            forall|t: int|
                0 <= t < srcs.len() ==> 0 <= #[trigger] srcs[t] < idx && newpal@[t]
                    == pal@[srcs[t]] && used@[srcs[t]],
            forall|t1: int, t2: int| #![trigger srcs[t1], srcs[t2]]
                0 <= t1 < t2 < srcs.len() ==> srcs[t1] < srcs[t2],
            // every used entry so far is rendered by some retained entry
            forall|j: int|
                0 <= j < idx && #[trigger] used@[j] ==> exists|t: int|
                    0 <= t < newpal@.len() && #[trigger] entry_equiv(
                        newpal@[t],
                        pal@[j],
                        optimize_alpha,
                    ),
            // nothing was skipped or folded yet iff the counts agree
            !lost ==> newpal.len() == idx && (forall|j: int| 0 <= j < idx ==> #[trigger] used@[j])
                && (forall|j: int, k2: int|
                0 <= j < k2 < idx ==> !used@[j] || !used@[k2] || !(#[trigger] entry_equiv(
                    pal@[j],
                    pal@[k2],
                    optimize_alpha,
                ))),
            lost ==> newpal.len() + 1 <= idx,
            lost ==> ((exists|j: int| 0 <= j < idx && !(#[trigger] used@[j])) || (exists|
                j: int,
                k2: int,
            |
                0 <= j < k2 < idx && used@[j] && used@[k2] && #[trigger] entry_equiv(
                    pal@[j],
                    pal@[k2],
                    optimize_alpha,
                ))),
        decreases plen - idx,
    {
        if !used[idx] {
            map.push(0);
            proof {
                lost = true;
                assert(!used@[idx + 0]);
            }
            idx = idx + 1;
            continue ;
        }
        let e = pal[idx];
        let mut found: Option<u16> = Option::None;
        let mut j: usize = 0;
        while j < newpal.len()
            invariant
                j <= newpal.len(),
                newpal.len() <= 256,
                found matches Some(f) ==> (f as int) < newpal.len() && entry_equiv(
                    newpal@[f as int],
                    e,
                    optimize_alpha,
                ),
                found is None ==> forall|t: int|
                    0 <= t < j ==> !(#[trigger] entry_equiv(newpal@[t], e, optimize_alpha)),
            decreases newpal.len() - j,
        {
            let c = newpal[j];
            let equiv = (c.r == e.r && c.g == e.g && c.b == e.b && c.a == e.a) || (optimize_alpha
                && c.a == 0 && e.a == 0);
            if equiv && found.is_none() {
                found = Some(j as u16);
            }
            j = j + 1;
        }
        match found {
            Some(f) => {
                map.push(f);
                proof {
                    lost = true;
                    let src = srcs[f as int];
                    assert(used@[src] && used@[idx as int] && entry_equiv(
                        pal@[src],
                        pal@[idx as int],
                        optimize_alpha,
                    ));
                }
            },
            None => {
                if newpal.len() >= 256 {
                    proof {
                        assert(false);
                    }
                    return Option::None;
                }
                proof {
                    // with nothing lost, a newly equivalent pair would have
                    // been found through its retained representative
                    if !lost {
                        assert forall|j2: int|
                            0 <= j2 < idx && used@[j2] implies !entry_equiv(
                            pal@[j2],
                            pal@[idx as int],
                            optimize_alpha,
                        ) by {
                            if entry_equiv(pal@[j2], pal@[idx as int], optimize_alpha) {
                                let t = choose|t: int|
                                    0 <= t < newpal@.len() && #[trigger] entry_equiv(
                                        newpal@[t],
                                        pal@[j2],
                                        optimize_alpha,
                                    );
                                assert(entry_equiv(newpal@[t], pal@[idx as int], optimize_alpha));
                            }
                        }
                    }
                }
                let ghost prepal = newpal@;
                newpal.push(e);
                map.push((newpal.len() - 1) as u16);
                proof {
                    srcs = srcs.push(idx as int);
                    assert(newpal@ =~= prepal.push(e));
                    assert(newpal@[newpal@.len() - 1] == pal@[idx as int]);
                    assert forall|j2: int|
                        0 <= j2 < idx + 1 && #[trigger] used@[j2] implies exists|t: int|
                        0 <= t < newpal@.len() && #[trigger] entry_equiv(
                            newpal@[t],
                            pal@[j2],
                            optimize_alpha,
                        ) by {
                        if j2 == idx {
                            assert(entry_equiv(
                                newpal@[newpal@.len() - 1],
                                pal@[j2],
                                optimize_alpha,
                            ));
                        } else {
                            let t = choose|t: int|
                                0 <= t < prepal.len() && #[trigger] entry_equiv(
                                    prepal[t],
                                    pal@[j2],
                                    optimize_alpha,
                                );
                            assert(newpal@[t] == prepal[t]);
                            assert(entry_equiv(newpal@[t], pal@[j2], optimize_alpha));
                        }
                    }
                }
            },
        }
        idx = idx + 1;
    }
    if newpal.len() == plen || newpal.len() == 0 {
        proof {
            // a full-length class list means nothing is unused or foldable
            if newpal.len() == 0 {
                assert(img.ihdr.spec_row_samples() >= 1) by (nonlinear_arith)
                    requires
                        img.ihdr.spec_row_samples() == img.ihdr.width as nat
                            * img.ihdr.color_type.spec_channels(),
                        img.ihdr.width >= 1,
                        img.ihdr.color_type.spec_channels() >= 1,
                ;
                let v0 = spec_img_sample(img@, 0, 0);
                assert(used@[v0 as int]);
                assert(false);
            }
            assert(!lost);
            if spec_palette_reducible(img@, optimize_alpha) {
                if exists|j: int| 0 <= j < plen && !(#[trigger] spec_entry_used(img@, j)) {
                    let j = choose|j: int|
                        0 <= j < plen && !(#[trigger] spec_entry_used(img@, j));
                    assert(used@[j]);
                    assert(spec_entry_used(img@, j));
                } else {
                    let (j, k2) = choose|j: int, k2: int|
                        0 <= j < k2 < plen && spec_entry_used(img@, j) && spec_entry_used(img@, k2)
                            && #[trigger] entry_equiv(pal@[j], pal@[k2], optimize_alpha);
                    assert(used@[j]) by {
                        let (y, i) = choose|y: int, i: int|
                            0 <= y < img@.ihdr.height && 0 <= i < img@.ihdr.spec_row_samples()
                                && #[trigger] spec_img_sample(img@, y, i) == j;
                        assert(used@[spec_img_sample(img@, y, i) as int]);
                    }
                    assert(used@[k2]) by {
                        let (y, i) = choose|y: int, i: int|
                            0 <= y < img@.ihdr.height && 0 <= i < img@.ihdr.spec_row_samples()
                                && #[trigger] spec_img_sample(img@, y, i) == k2;
                        assert(used@[spec_img_sample(img@, y, i) as int]);
                    }
                    assert(false);
                }
            }
        }
        // nothing dropped or folded
        return Option::None;
    }
    proof {
        // fewer classes than entries: something was unused or folded
        assert(lost);
        assert(spec_palette_reducible(img@, optimize_alpha)) by {
            if exists|j: int| 0 <= j < plen && !(#[trigger] used@[j]) {
                let j = choose|j: int| 0 <= j < plen && !(#[trigger] used@[j]);
                assert(!spec_entry_used(img@, j)) by {
                    if spec_entry_used(img@, j) {
                        let (y, i) = choose|y: int, i: int|
                            0 <= y < img@.ihdr.height && 0 <= i < img@.ihdr.spec_row_samples()
                                && #[trigger] spec_img_sample(img@, y, i) == j;
                        assert(used@[spec_img_sample(img@, y, i) as int]);
                    }
                }
            } else {
                let (j, k2) = choose|j: int, k2: int|
                    0 <= j < k2 < plen && used@[j] && used@[k2] && #[trigger] entry_equiv(
                        pal@[j],
                        pal@[k2],
                        optimize_alpha,
                    );
                assert(spec_entry_used(img@, j) && spec_entry_used(img@, k2));
            }
        }
        // the class count respects the sample range, for the rewrite below
        lemma_sample_max_values();
        if newpal@.len() > 0 {
            let last = newpal@.len() - 1;
            lemma_increasing_ge(srcs, last);
            assert(spec_entry_used(img@, srcs[last]));
            let (y, i) = choose|y: int, i: int|
                0 <= y < img@.ihdr.height && 0 <= i < img@.ihdr.spec_row_samples()
                    && #[trigger] spec_img_sample(img@, y, i) == srcs[last];
            lemma_sample_bound(
                img@.data,
                y * img.ihdr.spec_rb() as int,
                img.ihdr.bit_depth.spec_bits(),
                i,
            );
            assert(srcs[last] <= spec_sample_max(img.ihdr.bit_depth.spec_bits()));
            assert(newpal@.len() <= spec_sample_max(img.ihdr.bit_depth.spec_bits()) + 1);
        }
    }
    // rewrite every sample through the map
    let rb = img.ihdr.rb();
    let bits = img.ihdr.bit_depth.as_u8();
    let total = img.ihdr.data_len();
    let mut out_data = crate::filters::zero_vec(total);
    let ghost npv = newpal@;
    let mut y: usize = 0;
    while y < h
        invariant
            y <= h,
            img_wf(img@),
            img@.palette is Some,
            img.ihdr.color_type == ColorType::Indexed,
            img@.palette.unwrap().len() == plen,
            used.len() == plen,
            map.len() == plen,
            newpal@ == npv,
            1 <= newpal.len() <= 256,
            h == img.ihdr.height,
            n as nat == img.ihdr.spec_row_samples(),
            rb as nat == img.ihdr.spec_rb(),
            bits as nat == img.ihdr.bit_depth.spec_bits(),
            valid_bits(bits as nat),
            total as nat == img.ihdr.spec_data_len(),
            out_data.len() == total,
            newpal.len() <= crate::bits::spec_sample_max(bits as nat) + 1,
            forall|j: int|
                0 <= j < plen && used@[j] ==> (#[trigger] map@[j]) < newpal.len() && entry_equiv(
                    npv[map@[j] as int],
                    img@.palette.unwrap()[j],
                    optimize_alpha,
                ),
            forall|y2: int, i2: int|
                0 <= y2 < img.ihdr.height && 0 <= i2 < n ==> used@[#[trigger] spec_img_sample(
                    img@,
                    y2,
                    i2,
                ) as int],
            forall|y2: int, i2: int|
                0 <= y2 < y && 0 <= i2 < n ==> #[trigger] spec_sample(
                    out_data@,
                    y2 * rb as int,
                    bits as nat,
                    i2,
                ) == map@[spec_img_sample(img@, y2, i2) as int] as nat,
        decreases h - y,
    {
        let mut i: usize = 0;
        while i < n
            invariant
                i <= n,
                y < h,
                img_wf(img@),
                img@.palette is Some,
                img.ihdr.color_type == ColorType::Indexed,
                img@.palette.unwrap().len() == plen,
                used.len() == plen,
                map.len() == plen,
                newpal@ == npv,
                1 <= newpal.len() <= 256,
                h == img.ihdr.height,
                n as nat == img.ihdr.spec_row_samples(),
                rb as nat == img.ihdr.spec_rb(),
                bits as nat == img.ihdr.bit_depth.spec_bits(),
                valid_bits(bits as nat),
                total as nat == img.ihdr.spec_data_len(),
                out_data.len() == total,
                newpal.len() <= crate::bits::spec_sample_max(bits as nat) + 1,
                forall|j: int|
                    0 <= j < plen && used@[j] ==> (#[trigger] map@[j]) < newpal.len()
                        && entry_equiv(
                        npv[map@[j] as int],
                        img@.palette.unwrap()[j],
                        optimize_alpha,
                    ),
                forall|y2: int, i2: int|
                    0 <= y2 < img.ihdr.height && 0 <= i2 < n ==> used@[#[trigger] spec_img_sample(
                        img@,
                        y2,
                        i2,
                    ) as int],
                forall|y2: int, i2: int|
                    0 <= y2 < y && 0 <= i2 < n ==> #[trigger] spec_sample(
                        out_data@,
                        y2 * rb as int,
                        bits as nat,
                        i2,
                    ) == map@[spec_img_sample(img@, y2, i2) as int] as nat,
                forall|i2: int|
                    0 <= i2 < i ==> #[trigger] spec_sample(
                        out_data@,
                        y * rb as int,
                        bits as nat,
                        i2,
                    ) == map@[spec_img_sample(img@, y as int, i2) as int] as nat,
            decreases n - i,
        {
            proof {
                lemma_sample_in_row(n as nat, bits as nat, i as int);
                lemma_row_extent(y as int, h as int, rb as nat);
                assert(h as nat * rb as nat == total) by (nonlinear_arith)
                    requires
                        total as nat == img.ihdr.spec_data_len(),
                        img.ihdr.spec_data_len() == img.ihdr.height as nat * img.ihdr.spec_rb(),
                        rb as nat == img.ihdr.spec_rb(),
                        h == img.ihdr.height,
                ;
            }
            let v = img.sample(y, i) as usize;
            if v >= plen {
                proof {
                    assert(false);
                }
                return Option::None;
            }
            let nv = map[v];
            proof {
                lemma_sample_max_values();
            }
            let maxv: u16 = if bits == 16 {
                65535
            } else if bits == 8 {
                255
            } else if bits == 4 {
                15
            } else if bits == 2 {
                3
            } else {
                1
            };
            if nv > maxv {
                proof {
                    assert(false);
                }
                return Option::None;
            }
            let ghost pre = out_data@;
            set_packed_sample(&mut out_data, y * rb, bits, i, nv);
            proof {
                assert forall|y2: int, i2: int|
                    0 <= y2 < y && 0 <= i2 < n implies #[trigger] spec_sample(
                    out_data@,
                    y2 * rb as int,
                    bits as nat,
                    i2,
                ) == map@[spec_img_sample(img@, y2, i2) as int] as nat by {
                    lemma_sample_in_row(n as nat, bits as nat, i2);
                    lemma_row_extent(y2, h as int, rb as nat);
                    assert(y2 * rb as int + spec_row_bytes(n as nat, bits as nat) <= y * rb
                        + crate::bits::spec_sample_start(bits as nat, i as int) || y * rb
                        + crate::bits::spec_sample_end(bits as nat, i as int) <= y2 * rb as int)
                        by (nonlinear_arith)
                        requires
                            0 <= y2 < y,
                            0 <= crate::bits::spec_sample_start(bits as nat, i as int),
                            crate::bits::spec_sample_end(bits as nat, i as int) <= rb,
                            spec_row_bytes(n as nat, bits as nat) == rb,
                    ;
                    lemma_sample_frame(pre, out_data@, y2 * rb as int, bits as nat, i2);
                }
                assert forall|i2: int|
                    0 <= i2 < i + 1 implies #[trigger] spec_sample(
                    out_data@,
                    y * rb as int,
                    bits as nat,
                    i2,
                ) == map@[spec_img_sample(img@, y as int, i2) as int] as nat by {
                    if i2 < i {
                        lemma_sample_in_row(n as nat, bits as nat, i2);
                    }
                }
            }
            i = i + 1;
        }
        y = y + 1;
    }
    let out = PngImage {
        ihdr: img.ihdr,
        data: out_data,
        palette: Some(newpal),
        transparency: Option::None,
        aux_headers: aux_clone(&img.aux_headers),
    };
    proof {
        assert(out@.aux == img@.aux);
        assert forall|y2: int, i2: int|
            0 <= y2 < out.ihdr.height && 0 <= i2 < out.ihdr.spec_row_samples()
                implies #[trigger] spec_img_sample(out@, y2, i2) < out@.palette.unwrap().len()
            by {}
        assert(img_wf(out@));
        assert forall|y2: int, i2: int|
            0 <= y2 < img.ihdr.height && 0 <= i2 < img.ihdr.spec_row_samples()
                implies #[trigger] spec_img_sample(img@, y2, i2) < img@.palette.unwrap().len()
            && spec_img_sample(out@, y2, i2) < out@.palette.unwrap().len() && entry_equiv(
            out@.palette.unwrap()[spec_img_sample(out@, y2, i2) as int],
            img@.palette.unwrap()[spec_img_sample(img@, y2, i2) as int],
            optimize_alpha,
        ) by {}
        lemma_pixels_vis_indexed(img@, out@, optimize_alpha);
    }
    Some(out)
}


/// The old-channel selector of a channel-dropping rewrite.
pub open spec fn spec_sel(c0: u8, c1: u8, c2: u8, c: int) -> int {
    if c == 0 {
        c0 as int
    } else if c == 1 {
        c1 as int
    } else {
        c2 as int
    }
}

/// Build a same-size image keeping a subset of each pixel's channels:
/// new channel 0 takes old channel `c0`, new channel 1 (if any) takes `c1`.
#[verifier::rlimit(100)]
#[verifier::spinoff_prover]
fn select_channels(img: &PngImage, new_ihdr: &IhdrData, c0: u8, c1: u8, c2: u8) -> (out: Vec<u8>)
    requires
        img_wf(img@),
        new_ihdr.spec_dims_ok(),
        new_ihdr.width == img.ihdr.width,
        new_ihdr.height == img.ihdr.height,
        new_ihdr.bit_depth == img.ihdr.bit_depth,
        new_ihdr.color_type.spec_channels() <= img.ihdr.color_type.spec_channels(),
        c0 < img.ihdr.color_type.spec_channels(),
        new_ihdr.color_type.spec_channels() >= 2 ==> c1 < img.ihdr.color_type.spec_channels(),
        new_ihdr.color_type.spec_channels() >= 3 ==> c2 < img.ihdr.color_type.spec_channels(),
        new_ihdr.color_type.spec_channels() <= 3,
    ensures
        out.len() == new_ihdr.spec_data_len(),
        forall|y: int, i: int|
            0 <= y < new_ihdr.height && 0 <= i < new_ihdr.spec_row_samples()
                ==> #[trigger] spec_sample(
                out@,
                y * new_ihdr.spec_rb() as int,
                new_ihdr.bit_depth.spec_bits(),
                i,
            ) == spec_img_sample(
                img@,
                y,
                img.ihdr.color_type.spec_channels() as int * (i / new_ihdr.color_type.spec_channels() as int)
                    + spec_sel(c0, c1, c2, i % new_ihdr.color_type.spec_channels() as int),
            ),
{
    let h = new_ihdr.height as usize;
    let n = new_ihdr.row_samples();
    let rb = new_ihdr.rb();
    let bits = new_ihdr.bit_depth.as_u8();
    let total = new_ihdr.data_len();
    let newch = new_ihdr.color_type.channels() as usize;
    let oldch = img.ihdr.color_type.channels() as usize;
    let ghost oldn = img.ihdr.spec_row_samples();
    let mut out = crate::filters::zero_vec(total);
    let mut y: usize = 0;
    while y < h
        invariant
            y <= h,
            img_wf(img@),
            new_ihdr.spec_dims_ok(),
            new_ihdr.width == img.ihdr.width,
            new_ihdr.height == img.ihdr.height,
            new_ihdr.bit_depth == img.ihdr.bit_depth,
            1 <= newch <= 3,
            newch == new_ihdr.color_type.spec_channels(),
            oldch == img.ihdr.color_type.spec_channels(),
            newch <= oldch,
            c0 < oldch,
            newch >= 2 ==> c1 < oldch,
            newch >= 3 ==> c2 < oldch,
            h == new_ihdr.height,
            n as nat == new_ihdr.spec_row_samples(),
            rb as nat == new_ihdr.spec_rb(),
            bits as nat == new_ihdr.bit_depth.spec_bits(),
            valid_bits(bits as nat),
            total as nat == new_ihdr.spec_data_len(),
            out.len() == total,
            oldn == img.ihdr.spec_row_samples(),
            forall|y2: int, i2: int|
                0 <= y2 < y && 0 <= i2 < n ==> #[trigger] spec_sample(
                    out@,
                    y2 * rb as int,
                    bits as nat,
                    i2,
                ) == spec_img_sample(
                    img@,
                    y2,
                    oldch as int * (i2 / newch as int) + spec_sel(c0, c1, c2, i2 % newch as int),
                ),
        decreases h - y,
    {
        let mut i: usize = 0;
        while i < n
            invariant
                i <= n,
                y < h,
                img_wf(img@),
                new_ihdr.spec_dims_ok(),
                new_ihdr.width == img.ihdr.width,
                new_ihdr.height == img.ihdr.height,
                new_ihdr.bit_depth == img.ihdr.bit_depth,
                1 <= newch <= 3,
                newch == new_ihdr.color_type.spec_channels(),
                oldch == img.ihdr.color_type.spec_channels(),
                newch <= oldch,
                c0 < oldch,
                newch >= 2 ==> c1 < oldch,
                newch >= 3 ==> c2 < oldch,
                h == new_ihdr.height,
                n as nat == new_ihdr.spec_row_samples(),
                rb as nat == new_ihdr.spec_rb(),
                bits as nat == new_ihdr.bit_depth.spec_bits(),
                valid_bits(bits as nat),
                total as nat == new_ihdr.spec_data_len(),
                out.len() == total,
                oldn == img.ihdr.spec_row_samples(),
                forall|y2: int, i2: int|
                    0 <= y2 < y && 0 <= i2 < n ==> #[trigger] spec_sample(
                        out@,
                        y2 * rb as int,
                        bits as nat,
                        i2,
                    ) == spec_img_sample(
                        img@,
                        y2,
                        oldch as int * (i2 / newch as int) + spec_sel(c0, c1, c2, i2 % newch as int),
                    ),
                forall|i2: int|
                    0 <= i2 < i ==> #[trigger] spec_sample(
                        out@,
                        y * rb as int,
                        bits as nat,
                        i2,
                    ) == spec_img_sample(
                        img@,
                        y as int,
                        oldch as int * (i2 / newch as int) + spec_sel(c0, c1, c2, i2 % newch as int),
                    ),
            decreases n - i,
        {
            proof {
                lemma_sample_in_row(n as nat, bits as nat, i as int);
                lemma_row_extent(y as int, h as int, rb as nat);
                assert(h as nat * rb as nat == total) by (nonlinear_arith)
                    requires
                        total as nat == new_ihdr.spec_data_len(),
                        new_ihdr.spec_data_len() == new_ihdr.height as nat * new_ihdr.spec_rb(),
                        rb as nat == new_ihdr.spec_rb(),
                        h == new_ihdr.height,
                ;
            }
            let x = i / newch;
            let c = i % newch;
            let sel = if c == 0 {
                c0 as usize
            } else if c == 1 {
                c1 as usize
            } else {
                c2 as usize
            };
            proof {
                assert(c < newch) by (nonlinear_arith)
                    requires
                        c == i as int % newch as int,
                        newch >= 1,
                ;
                assert(sel < oldch);
            }
            let oi = oldch * x + sel;
            proof {
                assert(i < n && n as nat == new_ihdr.width as nat * newch ==> x
                    < new_ihdr.width) by (nonlinear_arith)
                    requires
                        x == i as int / newch as int,
                        newch >= 1,
                        i < n,
                        n as nat == new_ihdr.width as nat * newch,
                ;
                assert(oldch as int * x + sel < oldn) by (nonlinear_arith)
                    requires
                        x < new_ihdr.width,
                        x >= 0,
                        sel < oldch,
                        oldn == img.ihdr.width as nat * oldch,
                        img.ihdr.width == new_ihdr.width,
                        oldch >= 1,
                ;
                assert(oi as int == oldch as int * (i as int / newch as int) + spec_sel(
                    c0,
                    c1,
                    c2,
                    i as int % newch as int,
                ));
            }
            let v = img.sample(y, oi);
            let ghost pre = out@;
            set_packed_sample(&mut out, y * rb, bits, i, v);
            proof {
                assert forall|y2: int, i2: int|
                    0 <= y2 < y && 0 <= i2 < n implies #[trigger] spec_sample(
                    out@,
                    y2 * rb as int,
                    bits as nat,
                    i2,
                ) == spec_img_sample(
                    img@,
                    y2,
                    oldch as int * (i2 / newch as int) + spec_sel(c0, c1, c2, i2 % newch as int),
                ) by {
                    lemma_sample_in_row(n as nat, bits as nat, i2);
                    lemma_row_extent(y2, h as int, rb as nat);
                    assert(y2 * rb as int + spec_row_bytes(n as nat, bits as nat) <= y * rb
                        + crate::bits::spec_sample_start(bits as nat, i as int) || y * rb
                        + crate::bits::spec_sample_end(bits as nat, i as int) <= y2 * rb as int)
                        by (nonlinear_arith)
                        requires
                            0 <= y2 < y,
                            0 <= crate::bits::spec_sample_start(bits as nat, i as int),
                            crate::bits::spec_sample_end(bits as nat, i as int) <= rb,
                            spec_row_bytes(n as nat, bits as nat) == rb,
                    ;
                    lemma_sample_frame(pre, out@, y2 * rb as int, bits as nat, i2);
                }
                assert forall|i2: int|
                    0 <= i2 < i + 1 implies #[trigger] spec_sample(
                    out@,
                    y * rb as int,
                    bits as nat,
                    i2,
                ) == spec_img_sample(
                    img@,
                    y as int,
                    oldch as int * (i2 / newch as int) + spec_sel(c0, c1, c2, i2 % newch as int),
                ) by {
                    if i2 < i {
                        lemma_sample_in_row(n as nat, bits as nat, i2);
                    }
                }
            }
            i = i + 1;
        }
        y = y + 1;
    }
    out
}


/// Every pixel's alpha sample is the depth's maximum.
pub open spec fn spec_all_alpha_opaque(v: PngImageV) -> bool {
    forall|y: int, x: int|
        0 <= y < v.ihdr.height && 0 <= x < v.ihdr.width ==> #[trigger] spec_img_sample(
            v,
            y,
            v.ihdr.color_type.spec_channels() as int * x + v.ihdr.color_type.spec_channels() - 1,
        ) == spec_sample_max(v.ihdr.bit_depth.spec_bits())
}

/// Every pixel's red, green and blue samples agree.
pub open spec fn spec_all_gray(v: PngImageV) -> bool {
    forall|y: int, x: int|
        0 <= y < v.ihdr.height && 0 <= x < v.ihdr.width ==> #[trigger] spec_img_sample(
            v,
            y,
            v.ihdr.color_type.spec_channels() as int * x,
        ) == spec_img_sample(v, y, v.ihdr.color_type.spec_channels() as int * x + 1)
            && spec_img_sample(v, y, v.ihdr.color_type.spec_channels() as int * x + 1)
            == spec_img_sample(v, y, v.ihdr.color_type.spec_channels() as int * x + 2)
}

/// The opaque-alpha drop applies: an alpha color type whose alpha channel
/// is fully opaque.
pub open spec fn spec_alpha_removable(v: PngImageV) -> bool {
    (v.ihdr.color_type == ColorType::RGBA || v.ihdr.color_type == ColorType::GrayscaleAlpha)
        && spec_all_alpha_opaque(v)
}

/// The grayscale collapse applies: an RGB or RGBA image without a
/// transparency key whose channels agree everywhere.
pub open spec fn spec_grayscale_applicable(v: PngImageV) -> bool {
    (v.ihdr.color_type == ColorType::RGB || v.ihdr.color_type == ColorType::RGBA)
        && v.transparency is None && spec_all_gray(v)
}

/// Dropping channels keeps the header's buffers within memory.
proof fn lemma_dims_ok_fewer_channels(a: IhdrData, b: IhdrData)
    requires
        a.spec_dims_ok(),
        b.width == a.width,
        b.height == a.height,
        b.bit_depth == a.bit_depth,
        b.color_type.spec_channels() <= a.color_type.spec_channels(),
    ensures
        b.spec_dims_ok(),
{
    assert(b.spec_row_samples() <= a.spec_row_samples()) by (nonlinear_arith)
        requires
            b.spec_row_samples() == b.width as nat * b.color_type.spec_channels(),
            a.spec_row_samples() == a.width as nat * a.color_type.spec_channels(),
            b.width == a.width,
            b.color_type.spec_channels() <= a.color_type.spec_channels(),
    ;
    assert(b.spec_row_samples() * b.bit_depth.spec_bits() <= a.spec_row_samples()
        * a.bit_depth.spec_bits()) by (nonlinear_arith)
        requires
            b.spec_row_samples() <= a.spec_row_samples(),
            b.bit_depth == a.bit_depth,
    ;
    assert(b.spec_rb() <= a.spec_rb()) by (nonlinear_arith)
        requires
            b.spec_rb() == (b.spec_row_samples() * b.bit_depth.spec_bits() + 7) / 8,
            a.spec_rb() == (a.spec_row_samples() * a.bit_depth.spec_bits() + 7) / 8,
            b.spec_row_samples() * b.bit_depth.spec_bits() <= a.spec_row_samples()
                * a.bit_depth.spec_bits(),
    ;
    assert(b.spec_data_len() <= a.spec_data_len()) by (nonlinear_arith)
        requires
            b.spec_data_len() == b.height as nat * b.spec_rb(),
            a.spec_data_len() == a.height as nat * a.spec_rb(),
            b.height == a.height,
            b.spec_rb() <= a.spec_rb(),
    ;
}

/// Whether the alpha channel is fully opaque.
fn all_alpha_opaque(img: &PngImage) -> (r: bool)
    requires
        img_wf(img@),
        img.ihdr.color_type.has_alpha(),
    ensures
        r == spec_all_alpha_opaque(img@),
{
    let h = img.ihdr.height as usize;
    let w = img.ihdr.width as usize;
    let ch = img.ihdr.color_type.channels() as usize;
    let mut y: usize = 0;
    while y < h
        invariant
            y <= h,
            img_wf(img@),
            img.ihdr.color_type.has_alpha(),
            h == img.ihdr.height,
            w == img.ihdr.width,
            ch == img.ihdr.color_type.spec_channels(),
            forall|y2: int, x2: int|
                0 <= y2 < y && 0 <= x2 < w ==> #[trigger] spec_img_sample(
                    img@,
                    y2,
                    ch as int * x2 + ch - 1,
                ) == spec_sample_max(img.ihdr.bit_depth.spec_bits()),
        decreases h - y,
    {
        let mut x: usize = 0;
        while x < w
            invariant
                x <= w,
                y < h,
                img_wf(img@),
                img.ihdr.color_type.has_alpha(),
                h == img.ihdr.height,
                w == img.ihdr.width,
                ch == img.ihdr.color_type.spec_channels(),
                forall|y2: int, x2: int|
                    0 <= y2 < y && 0 <= x2 < w ==> #[trigger] spec_img_sample(
                        img@,
                        y2,
                        ch as int * x2 + ch - 1,
                    ) == spec_sample_max(img.ihdr.bit_depth.spec_bits()),
                forall|x2: int|
                    0 <= x2 < x ==> #[trigger] spec_img_sample(
                        img@,
                        y as int,
                        ch as int * x2 + ch - 1,
                    ) == spec_sample_max(img.ihdr.bit_depth.spec_bits()),
            decreases w - x,
        {
            proof {
                assert(ch * x + ch <= ch * w && ch as int * w == img.ihdr.spec_row_samples()
                    && ch * x + ch <= usize::MAX) by (nonlinear_arith)
                    requires
                        0 <= x < w,
                        ch >= 1,
                        img.ihdr.spec_row_samples() == img.ihdr.width as nat * ch,
                        w == img.ihdr.width,
                        img.ihdr.spec_row_samples() * img.ihdr.bit_depth.spec_bits() + 7
                            <= usize::MAX,
                        img.ihdr.bit_depth.spec_bits() >= 1,
                ;
            }
            let v = img.sample(y, ch * x + ch - 1);
            let maxv: u16 = if img.ihdr.bit_depth.as_u8() == 16 {
                65535
            } else {
                255
            };
            proof {
                lemma_sample_max_values();
            }
            if v != maxv {
                return false;
            }
            x = x + 1;
        }
        y = y + 1;
    }
    true
}

/// Whether every pixel's red, green and blue samples agree.
#[verifier::spinoff_prover]
fn all_gray(img: &PngImage) -> (r: bool)
    requires
        img_wf(img@),
        img.ihdr.color_type == ColorType::RGB || img.ihdr.color_type == ColorType::RGBA,
    ensures
        r == spec_all_gray(img@),
{
    let h = img.ihdr.height as usize;
    let w = img.ihdr.width as usize;
    let ch = img.ihdr.color_type.channels() as usize;
    let mut y: usize = 0;
    while y < h
        invariant
            y <= h,
            img_wf(img@),
            img.ihdr.color_type == ColorType::RGB || img.ihdr.color_type == ColorType::RGBA,
            h == img.ihdr.height,
            w == img.ihdr.width,
            ch == img.ihdr.color_type.spec_channels(),
            forall|y2: int, x2: int|
                0 <= y2 < y && 0 <= x2 < w ==> #[trigger] spec_img_sample(
                    img@,
                    y2,
                    ch as int * x2,
                ) == spec_img_sample(img@, y2, ch as int * x2 + 1) && spec_img_sample(
                    img@,
                    y2,
                    ch as int * x2 + 1,
                ) == spec_img_sample(img@, y2, ch as int * x2 + 2),
        decreases h - y,
    {
        let mut x: usize = 0;
        while x < w
            invariant
                x <= w,
                y < h,
                img_wf(img@),
                img.ihdr.color_type == ColorType::RGB || img.ihdr.color_type == ColorType::RGBA,
                h == img.ihdr.height,
                w == img.ihdr.width,
                ch == img.ihdr.color_type.spec_channels(),
                forall|y2: int, x2: int|
                    0 <= y2 < y && 0 <= x2 < w ==> #[trigger] spec_img_sample(
                        img@,
                        y2,
                        ch as int * x2,
                    ) == spec_img_sample(img@, y2, ch as int * x2 + 1) && spec_img_sample(
                        img@,
                        y2,
                        ch as int * x2 + 1,
                    ) == spec_img_sample(img@, y2, ch as int * x2 + 2),
                forall|x2: int|
                    0 <= x2 < x ==> #[trigger] spec_img_sample(img@, y as int, ch as int * x2)
                        == spec_img_sample(img@, y as int, ch as int * x2 + 1) && spec_img_sample(
                        img@,
                        y as int,
                        ch as int * x2 + 1,
                    ) == spec_img_sample(img@, y as int, ch as int * x2 + 2),
            decreases w - x,
        {
            proof {
                assert(ch * x + ch <= ch * w && ch as int * w == img.ihdr.spec_row_samples()
                    && ch * x + ch <= usize::MAX) by (nonlinear_arith)
                    requires
                        0 <= x < w,
                        ch >= 3,
                        img.ihdr.spec_row_samples() == img.ihdr.width as nat * ch,
                        w == img.ihdr.width,
                        img.ihdr.spec_row_samples() * img.ihdr.bit_depth.spec_bits() + 7
                            <= usize::MAX,
                        img.ihdr.bit_depth.spec_bits() >= 1,
                ;
            }
            let r0 = img.sample(y, ch * x);
            let g0 = img.sample(y, ch * x + 1);
            let b0 = img.sample(y, ch * x + 2);
            if r0 != g0 || g0 != b0 {
                return false;
            }
            x = x + 1;
        }
        proof {
            assert forall|y2: int, x2: int|
                0 <= y2 < y + 1 && 0 <= x2 < w implies #[trigger] spec_img_sample(
                img@,
                y2,
                ch as int * x2,
            ) == spec_img_sample(img@, y2, ch as int * x2 + 1) && spec_img_sample(
                img@,
                y2,
                ch as int * x2 + 1,
            ) == spec_img_sample(img@, y2, ch as int * x2 + 2) by {
                if y2 == y {
                    assert(spec_img_sample(img@, y as int, ch as int * x2) == spec_img_sample(
                        img@,
                        y as int,
                        ch as int * x2 + 1,
                    ));
                }
            }
        }
        y = y + 1;
    }
    true
}

/// Drop a fully opaque alpha channel: RGBA becomes RGB and grayscale-alpha
/// becomes grayscale, pixel for pixel.
#[verifier::rlimit(100)]
pub fn reduced_alpha_channel(img: &PngImage) -> (r: Option<PngImage>)
    requires
        img_wf(img@),
    ensures
        match r {
            Some(out) => img_wf(out@) && out.ihdr.width == img.ihdr.width && out.ihdr.height
                == img.ihdr.height && out.ihdr.bit_depth == img.ihdr.bit_depth
                && out.ihdr.interlaced == img.ihdr.interlaced && !out.ihdr.color_type.has_alpha()
                && out@.aux == img@.aux && spec_pixels(out@) == spec_pixels(img@),
            None => true,
        },
        r is Some <==> spec_alpha_removable(img@),
{
    let new_ct = match img.ihdr.color_type {
        ColorType::RGBA => ColorType::RGB,
        ColorType::GrayscaleAlpha => ColorType::Grayscale,
        _ => {
            return Option::None;
        },
    };
    if !all_alpha_opaque(img) {
        return Option::None;
    }
    let new_ihdr = IhdrData {
        width: img.ihdr.width,
        height: img.ihdr.height,
        color_type: new_ct,
        bit_depth: img.ihdr.bit_depth,
        interlaced: img.ihdr.interlaced,
    };
    proof {
        lemma_dims_ok_fewer_channels(img.ihdr, new_ihdr);
    }
    let data = select_channels(img, &new_ihdr, 0, 1, 2);
    let out = PngImage {
        ihdr: new_ihdr,
        data,
        palette: Option::None,
        transparency: Option::None,
        aux_headers: aux_clone(&img.aux_headers),
    };
    proof {
        assert(out@.aux == img@.aux);
        assert(img_wf(out@));
        lemma_pixels_drop_alpha(img@, out@);
    }
    Some(out)
}

/// Pixel equality when a fully opaque alpha channel is dropped.
#[verifier::rlimit(100)]
proof fn lemma_pixels_drop_alpha(a: PngImageV, b: PngImageV)
    requires
        a.ihdr.width == b.ihdr.width,
        a.ihdr.height == b.ihdr.height,
        a.ihdr.bit_depth == b.ihdr.bit_depth,
        (a.ihdr.color_type == ColorType::RGBA && b.ihdr.color_type == ColorType::RGB) || (
        a.ihdr.color_type == ColorType::GrayscaleAlpha && b.ihdr.color_type
            == ColorType::Grayscale),
        a.transparency is None,
        b.transparency is None,
        a.palette is None,
        b.palette is None,
        a.ihdr.bit_depth == BitDepth::Eight || a.ihdr.bit_depth == BitDepth::Sixteen,
        forall|y: int, i: int|
            0 <= y < b.ihdr.height && 0 <= i < b.ihdr.spec_row_samples()
                ==> #[trigger] spec_img_sample(b, y, i) == spec_img_sample(
                a,
                y,
                a.ihdr.color_type.spec_channels() as int * (i
                    / b.ihdr.color_type.spec_channels() as int) + spec_sel(
                    0,
                    1,
                    2,
                    i % b.ihdr.color_type.spec_channels() as int,
                ),
            ),
        forall|y: int, x: int|
            0 <= y < a.ihdr.height && 0 <= x < a.ihdr.width ==> #[trigger] spec_img_sample(
                a,
                y,
                a.ihdr.color_type.spec_channels() as int * x + a.ihdr.color_type.spec_channels()
                    - 1,
            ) == spec_sample_max(a.ihdr.bit_depth.spec_bits()),
    ensures
        spec_pixels(a) == spec_pixels(b),
{
    lemma_sample_max_values();
    let w = a.ihdr.width as int;
    let h = a.ihdr.height as int;
    let cha = a.ihdr.color_type.spec_channels() as int;
    let chb = b.ihdr.color_type.spec_channels() as int;
    let bits = a.ihdr.bit_depth.spec_bits();
    assert(scale16(spec_sample_max(bits), bits) == 65535) by {
        if bits == 8 {
            assert(255nat * 257 == 65535) by (nonlinear_arith);
        }
    }
    assert forall|p: int| 0 <= p < h * w implies #[trigger] spec_pixels(a)[p] == spec_pixels(
        b,
    )[p] by {
        let y = p / w;
        let x = p % w;
        assert(0 <= y < h && 0 <= x < w) by (nonlinear_arith)
            requires
                0 <= p < h * w,
                y == p / w,
                x == p % w,
                w >= 1,
        ;
        assert(b.ihdr.spec_row_samples() == w * chb && a.ihdr.spec_row_samples() == w * cha)
            by (nonlinear_arith)
            requires
                b.ihdr.spec_row_samples() == b.ihdr.width as nat
                    * b.ihdr.color_type.spec_channels(),
                a.ihdr.spec_row_samples() == a.ihdr.width as nat
                    * a.ihdr.color_type.spec_channels(),
                w == a.ihdr.width as int,
                a.ihdr.width == b.ihdr.width,
                cha == a.ihdr.color_type.spec_channels() as int,
                chb == b.ihdr.color_type.spec_channels() as int,
        ;
        assert(chb * x + chb <= chb * w && cha * x + cha <= cha * w) by (nonlinear_arith)
            requires
                0 <= x < w,
                chb >= 1,
                cha >= 1,
        ;
        assert forall|c: int| 0 <= c < chb implies #[trigger] spec_img_sample(b, y, chb * x + c)
            == spec_img_sample(a, y, cha * x + c) by {
            let i = chb * x + c;
            assert(i / chb == x && i % chb == c) by (nonlinear_arith)
                requires
                    i == chb * x + c,
                    0 <= c < chb,
                    0 <= x,
                    chb >= 1,
            ;
            assert(spec_sel(0, 1, 2, c) == c);
        }
        if a.ihdr.color_type == ColorType::RGBA {
            assert(spec_img_sample(b, y, chb * x + 0) == spec_img_sample(a, y, cha * x + 0));
            assert(spec_img_sample(b, y, chb * x + 1) == spec_img_sample(a, y, cha * x + 1));
            assert(spec_img_sample(b, y, chb * x + 2) == spec_img_sample(a, y, cha * x + 2));
            assert(chb * x + 0 == 3 * x && chb * x + 1 == 3 * x + 1 && chb * x + 2 == 3 * x + 2)
                by (nonlinear_arith)
                requires
                    chb == 3,
                    0 <= x,
            ;
            assert(cha * x + 0 == 4 * x && cha * x + 1 == 4 * x + 1 && cha * x + 2 == 4 * x + 2
                && cha * x + cha - 1 == 4 * x + 3) by (nonlinear_arith)
                requires
                    cha == 4,
                    0 <= x,
            ;
            assert(spec_img_sample(a, y, 4 * x + 3) == spec_sample_max(bits));
        } else {
            assert(spec_img_sample(b, y, chb * x + 0) == spec_img_sample(a, y, cha * x + 0));
            assert(chb * x + 0 == x) by (nonlinear_arith)
                requires
                    chb == 1,
            ;
            assert(cha * x + 0 == 2 * x && cha * x + cha - 1 == 2 * x + 1) by (nonlinear_arith)
                requires
                    cha == 2,
            ;
            assert(spec_img_sample(a, y, 2 * x + 1) == spec_sample_max(bits));
        }
    }
    assert(spec_pixels(a) =~= spec_pixels(b));
}


/// Collapse equal RGB channels: RGB becomes grayscale and RGBA becomes
/// grayscale-alpha, pixel for pixel.
#[verifier::rlimit(100)]
pub fn reduced_grayscale(img: &PngImage) -> (r: Option<PngImage>)
    requires
        img_wf(img@),
    ensures
        match r {
            Some(out) => img_wf(out@) && out.ihdr.width == img.ihdr.width && out.ihdr.height
                == img.ihdr.height && out.ihdr.bit_depth == img.ihdr.bit_depth
                && out.ihdr.interlaced == img.ihdr.interlaced && out@.aux == img@.aux
                && spec_pixels(out@) == spec_pixels(img@),
            None => true,
        },
        r is Some <==> spec_grayscale_applicable(img@),
{
    let new_ct = match img.ihdr.color_type {
        ColorType::RGB => ColorType::Grayscale,
        ColorType::RGBA => ColorType::GrayscaleAlpha,
        _ => {
            return Option::None;
        },
    };
    if img.transparency.is_some() {
        return Option::None;
    }
    if !all_gray(img) {
        return Option::None;
    }
    let new_ihdr = IhdrData {
        width: img.ihdr.width,
        height: img.ihdr.height,
        color_type: new_ct,
        bit_depth: img.ihdr.bit_depth,
        interlaced: img.ihdr.interlaced,
    };
    proof {
        lemma_dims_ok_fewer_channels(img.ihdr, new_ihdr);
    }
    let data = select_channels(img, &new_ihdr, 0, 3, 0);
    let out = PngImage {
        ihdr: new_ihdr,
        data,
        palette: Option::None,
        transparency: Option::None,
        aux_headers: aux_clone(&img.aux_headers),
    };
    proof {
        assert(out@.aux == img@.aux);
        assert(img_wf(out@));
        lemma_pixels_to_gray(img@, out@);
    }
    Some(out)
}

/// Pixel equality when equal color channels collapse to one gray channel.
#[verifier::rlimit(100)]
proof fn lemma_pixels_to_gray(a: PngImageV, b: PngImageV)
    requires
        a.ihdr.width == b.ihdr.width,
        a.ihdr.height == b.ihdr.height,
        a.ihdr.bit_depth == b.ihdr.bit_depth,
        (a.ihdr.color_type == ColorType::RGB && b.ihdr.color_type == ColorType::Grayscale) || (
        a.ihdr.color_type == ColorType::RGBA && b.ihdr.color_type == ColorType::GrayscaleAlpha),
        a.transparency is None,
        b.transparency is None,
        a.palette is None,
        b.palette is None,
        forall|y: int, i: int|
            0 <= y < b.ihdr.height && 0 <= i < b.ihdr.spec_row_samples()
                ==> #[trigger] spec_img_sample(b, y, i) == spec_img_sample(
                a,
                y,
                a.ihdr.color_type.spec_channels() as int * (i
                    / b.ihdr.color_type.spec_channels() as int) + spec_sel(
                    0,
                    3,
                    0,
                    i % b.ihdr.color_type.spec_channels() as int,
                ),
            ),
        forall|y: int, x: int|
            0 <= y < a.ihdr.height && 0 <= x < a.ihdr.width ==> #[trigger] spec_img_sample(
                a,
                y,
                a.ihdr.color_type.spec_channels() as int * x,
            ) == spec_img_sample(a, y, a.ihdr.color_type.spec_channels() as int * x + 1)
                && spec_img_sample(a, y, a.ihdr.color_type.spec_channels() as int * x + 1)
                == spec_img_sample(a, y, a.ihdr.color_type.spec_channels() as int * x + 2),
    ensures
        spec_pixels(a) == spec_pixels(b),
{
    lemma_sample_max_values();
    let w = a.ihdr.width as int;
    let h = a.ihdr.height as int;
    let cha = a.ihdr.color_type.spec_channels() as int;
    let chb = b.ihdr.color_type.spec_channels() as int;
    let bits = a.ihdr.bit_depth.spec_bits();
    assert(scale16(spec_sample_max(bits), bits) == 65535) by {
        if bits == 8 {
            assert(255nat * 257 == 65535) by (nonlinear_arith);
        }
    }
    assert forall|p: int| 0 <= p < h * w implies #[trigger] spec_pixels(a)[p] == spec_pixels(
        b,
    )[p] by {
        let y = p / w;
        let x = p % w;
        assert(0 <= y < h && 0 <= x < w) by (nonlinear_arith)
            requires
                0 <= p < h * w,
                y == p / w,
                x == p % w,
                w >= 1,
        ;
        assert(b.ihdr.spec_row_samples() == w * chb && a.ihdr.spec_row_samples() == w * cha)
            by (nonlinear_arith)
            requires
                b.ihdr.spec_row_samples() == b.ihdr.width as nat
                    * b.ihdr.color_type.spec_channels(),
                a.ihdr.spec_row_samples() == a.ihdr.width as nat
                    * a.ihdr.color_type.spec_channels(),
                w == a.ihdr.width as int,
                a.ihdr.width == b.ihdr.width,
                cha == a.ihdr.color_type.spec_channels() as int,
                chb == b.ihdr.color_type.spec_channels() as int,
        ;
        assert(chb * x + chb <= chb * w && cha * x + cha <= cha * w) by (nonlinear_arith)
            requires
                0 <= x < w,
                chb >= 1,
                cha >= 1,
        ;
        if a.ihdr.color_type == ColorType::RGB {
            let i = chb * x;
            assert(i / chb == x && i % chb == 0) by (nonlinear_arith)
                requires
                    i == chb * x,
                    0 <= x,
                    chb == 1,
            ;
            assert(spec_img_sample(b, y, i) == spec_img_sample(a, y, cha * x + 0));
            assert(i == x) by (nonlinear_arith)
                requires
                    chb == 1,
                    i == chb * x,
            ;
            assert(cha * x + 0 == 3 * x && cha * x + 1 == 3 * x + 1 && cha * x + 2 == 3 * x + 2)
                by (nonlinear_arith)
                requires
                    cha == 3,
                    0 <= x,
            ;
            assert(spec_img_sample(a, y, 3 * x) == spec_img_sample(a, y, 3 * x + 1)
                && spec_img_sample(a, y, 3 * x + 1) == spec_img_sample(a, y, 3 * x + 2));
        } else {
            let i0 = chb * x;
            let i1 = chb * x + 1;
            assert(i0 / chb == x && i0 % chb == 0 && i1 / chb == x && i1 % chb == 1)
                by (nonlinear_arith)
                requires
                    i0 == chb * x,
                    i1 == chb * x + 1,
                    0 <= x,
                    chb == 2,
            ;
            assert(spec_img_sample(b, y, i0) == spec_img_sample(a, y, cha * x + 0));
            assert(spec_img_sample(b, y, i1) == spec_img_sample(a, y, cha * x + 3));
            assert(i0 == 2 * x && i1 == 2 * x + 1) by (nonlinear_arith)
                requires
                    chb == 2,
                    i0 == chb * x,
                    i1 == chb * x + 1,
            ;
            assert(cha * x + 0 == 4 * x && cha * x + 1 == 4 * x + 1 && cha * x + 2 == 4 * x + 2
                && cha * x + 3 == 4 * x + 3) by (nonlinear_arith)
                requires
                    cha == 4,
                    0 <= x,
            ;
            assert(spec_img_sample(a, y, 4 * x) == spec_img_sample(a, y, 4 * x + 1)
                && spec_img_sample(a, y, 4 * x + 1) == spec_img_sample(a, y, 4 * x + 2));
        }
    }
    assert(spec_pixels(a) =~= spec_pixels(b));
}


/// The RGBA value of a pixel of an 8-bit non-indexed image without a
/// transparency key.
pub open spec fn spec_rgba8(v: PngImageV, y: int, x: int) -> Rgba {
    let ch = v.ihdr.color_type.spec_channels() as int;
    match v.ihdr.color_type {
        ColorType::RGB => Rgba {
            r: spec_img_sample(v, y, ch * x) as u8,
            g: spec_img_sample(v, y, ch * x + 1) as u8,
            b: spec_img_sample(v, y, ch * x + 2) as u8,
            a: 255,
        },
        ColorType::RGBA => Rgba {
            r: spec_img_sample(v, y, ch * x) as u8,
            g: spec_img_sample(v, y, ch * x + 1) as u8,
            b: spec_img_sample(v, y, ch * x + 2) as u8,
            a: spec_img_sample(v, y, ch * x + 3) as u8,
        },
        ColorType::GrayscaleAlpha => Rgba {
            r: spec_img_sample(v, y, ch * x) as u8,
            g: spec_img_sample(v, y, ch * x) as u8,
            b: spec_img_sample(v, y, ch * x) as u8,
            a: spec_img_sample(v, y, ch * x + 1) as u8,
        },
        _ => Rgba {
            r: spec_img_sample(v, y, ch * x) as u8,
            g: spec_img_sample(v, y, ch * x) as u8,
            b: spec_img_sample(v, y, ch * x) as u8,
            a: 255,
        },
    }
}

/// Propose an indexed form of an 8-bit non-indexed image without a
/// transparency key: a palette of first occurrences and one index per
/// pixel. Declines when more than 256 distinct colors appear; that bound
/// on the distinct-color count is checked by counting first occurrences,
/// and is not restated as a separate clause.
#[verifier::rlimit(100)]
pub fn reduced_to_indexed(img: &PngImage) -> (r: Option<PngImage>)
    requires
        img_wf(img@),
    ensures
        match r {
            Some(out) => img_wf(out@) && out.ihdr.width == img.ihdr.width && out.ihdr.height
                == img.ihdr.height && out.ihdr.color_type == ColorType::Indexed
                && out.ihdr.interlaced == img.ihdr.interlaced && out@.aux == img@.aux
                && spec_pixels(out@) == spec_pixels(img@),
            None => true,
        },
{
    match img.ihdr.color_type {
        ColorType::RGB | ColorType::RGBA | ColorType::GrayscaleAlpha | ColorType::Grayscale => {},
        _ => {
            return Option::None;
        },
    }
    if !matches!(img.ihdr.bit_depth, BitDepth::Eight) {
        return Option::None;
    }
    if img.transparency.is_some() {
        return Option::None;
    }
    let h = img.ihdr.height as usize;
    let w = img.ihdr.width as usize;
    let ch = img.ihdr.color_type.channels() as usize;
    let new_ihdr = IhdrData {
        width: img.ihdr.width,
        height: img.ihdr.height,
        color_type: ColorType::Indexed,
        bit_depth: BitDepth::Eight,
        interlaced: img.ihdr.interlaced,
    };
    if !new_ihdr.dims_ok() {
        return Option::None;
    }
    let rb = new_ihdr.rb();
    let total = new_ihdr.data_len();
    let mut pal: Vec<Rgba> = Vec::new();
    let mut out_data = crate::filters::zero_vec(total);
    let mut y: usize = 0;
    while y < h
        invariant
            y <= h,
            img_wf(img@),
            img.ihdr.color_type != ColorType::Indexed,
            img@.transparency is None,
            img.ihdr.bit_depth == BitDepth::Eight,
            h == img.ihdr.height,
            w == img.ihdr.width,
            ch == img.ihdr.color_type.spec_channels(),
            new_ihdr.spec_dims_ok(),
            new_ihdr.width == img.ihdr.width,
            new_ihdr.height == img.ihdr.height,
            new_ihdr.color_type == ColorType::Indexed,
            new_ihdr.bit_depth == BitDepth::Eight,
            rb as nat == new_ihdr.spec_rb(),
            total as nat == new_ihdr.spec_data_len(),
            out_data.len() == total,
            pal.len() <= 256,
            forall|y2: int, x2: int|
                0 <= y2 < y && 0 <= x2 < w ==> #[trigger] spec_sample(
                    out_data@,
                    y2 * rb as int,
                    8,
                    x2,
                ) < pal.len() && pal@[spec_sample(out_data@, y2 * rb as int, 8, x2) as int]
                    == spec_rgba8(img@, y2, x2),
        decreases h - y,
    {
        let mut x: usize = 0;
        while x < w
            invariant
                x <= w,
                y < h,
                img_wf(img@),
                img.ihdr.color_type != ColorType::Indexed,
                img@.transparency is None,
                img.ihdr.bit_depth == BitDepth::Eight,
                h == img.ihdr.height,
                w == img.ihdr.width,
                ch == img.ihdr.color_type.spec_channels(),
                new_ihdr.spec_dims_ok(),
                new_ihdr.width == img.ihdr.width,
                new_ihdr.height == img.ihdr.height,
                new_ihdr.color_type == ColorType::Indexed,
                new_ihdr.bit_depth == BitDepth::Eight,
                rb as nat == new_ihdr.spec_rb(),
                total as nat == new_ihdr.spec_data_len(),
                out_data.len() == total,
                pal.len() <= 256,
                forall|y2: int, x2: int|
                    0 <= y2 < y && 0 <= x2 < w ==> #[trigger] spec_sample(
                        out_data@,
                        y2 * rb as int,
                        8,
                        x2,
                    ) < pal.len() && pal@[spec_sample(out_data@, y2 * rb as int, 8, x2) as int]
                        == spec_rgba8(img@, y2, x2),
                forall|x2: int|
                    0 <= x2 < x ==> #[trigger] spec_sample(out_data@, y * rb as int, 8, x2)
                        < pal.len() && pal@[spec_sample(out_data@, y * rb as int, 8, x2) as int]
                        == spec_rgba8(img@, y as int, x2),
            decreases w - x,
        {
            proof {
                assert(ch * x + ch <= ch * w && ch as int * w == img.ihdr.spec_row_samples()
                    && ch * x + ch <= usize::MAX) by (nonlinear_arith)
                    requires
                        0 <= x < w,
                        ch >= 1,
                        img.ihdr.spec_row_samples() == img.ihdr.width as nat * ch,
                        w == img.ihdr.width,
                        img.ihdr.spec_row_samples() * img.ihdr.bit_depth.spec_bits() + 7
                            <= usize::MAX,
                        img.ihdr.bit_depth.spec_bits() >= 1,
                ;
                lemma_sample_max_values();
            }
            let e: Rgba = match img.ihdr.color_type {
                ColorType::RGB => Rgba {
                    r: img.sample(y, ch * x) as u8,
                    g: img.sample(y, ch * x + 1) as u8,
                    b: img.sample(y, ch * x + 2) as u8,
                    a: 255,
                },
                ColorType::RGBA => Rgba {
                    r: img.sample(y, ch * x) as u8,
                    g: img.sample(y, ch * x + 1) as u8,
                    b: img.sample(y, ch * x + 2) as u8,
                    a: img.sample(y, ch * x + 3) as u8,
                },
                ColorType::GrayscaleAlpha => {
                    let g = img.sample(y, ch * x) as u8;
                    Rgba { r: g, g, b: g, a: img.sample(y, ch * x + 1) as u8 }
                },
                _ => {
                    let g = img.sample(y, ch * x) as u8;
                    Rgba { r: g, g, b: g, a: 255 }
                },
            };
            proof {
                assert(e == spec_rgba8(img@, y as int, x as int));
            }
            let mut found: Option<usize> = Option::None;
            let mut j: usize = 0;
            while j < pal.len()
                invariant
                    j <= pal.len(),
                    pal.len() <= 256,
                    found matches Some(f) ==> f < pal.len() && pal@[f as int] == e,
                decreases pal.len() - j,
            {
                let c = pal[j];
                if c.r == e.r && c.g == e.g && c.b == e.b && c.a == e.a && found.is_none() {
                    found = Some(j);
                }
                j = j + 1;
            }
            let idx: usize = match found {
                Some(f) => f,
                None => {
                    if pal.len() >= 256 {
                        return Option::None;
                    }
                    pal.push(e);
                    pal.len() - 1
                },
            };
            proof {
                lemma_sample_in_row(new_ihdr.spec_row_samples(), 8, x as int);
                lemma_row_extent(y as int, h as int, rb as nat);
                assert(h as nat * rb as nat == total && w as nat == new_ihdr.spec_row_samples())
                    by (nonlinear_arith)
                    requires
                        total as nat == new_ihdr.spec_data_len(),
                        new_ihdr.spec_data_len() == new_ihdr.height as nat * new_ihdr.spec_rb(),
                        rb as nat == new_ihdr.spec_rb(),
                        h == new_ihdr.height,
                        new_ihdr.spec_row_samples() == new_ihdr.width as nat * 1,
                        w == new_ihdr.width,
                ;
            }
            let ghost pre = out_data@;
            let ghost palpre = pal@;
            set_packed_sample(&mut out_data, y * rb, 8, x, idx as u16);
            proof {
                assert forall|y2: int, x2: int|
                    0 <= y2 < y && 0 <= x2 < w implies #[trigger] spec_sample(
                    out_data@,
                    y2 * rb as int,
                    8,
                    x2,
                ) < pal.len() && pal@[spec_sample(out_data@, y2 * rb as int, 8, x2) as int]
                    == spec_rgba8(img@, y2, x2) by {
                    lemma_sample_in_row(new_ihdr.spec_row_samples(), 8, x2);
                    lemma_row_extent(y2, h as int, rb as nat);
                    assert(y2 * rb as int + rb <= y * rb + x || y * rb + x + 1 <= y2 * rb as int)
                        by (nonlinear_arith)
                        requires
                            0 <= y2 < y,
                            0 <= x < rb,
                            w <= rb,
                            x < w,
                    ;
                    lemma_sample_frame(pre, out_data@, y2 * rb as int, 8, x2);
                    assert(palpre[spec_sample(out_data@, y2 * rb as int, 8, x2) as int]
                        == spec_rgba8(img@, y2, x2));
                }
                assert forall|x2: int|
                    0 <= x2 < x + 1 implies #[trigger] spec_sample(
                    out_data@,
                    y * rb as int,
                    8,
                    x2,
                ) < pal.len() && pal@[spec_sample(out_data@, y * rb as int, 8, x2) as int]
                    == spec_rgba8(img@, y as int, x2) by {
                    if x2 < x {
                        lemma_sample_in_row(new_ihdr.spec_row_samples(), 8, x2);
                        assert(palpre[spec_sample(out_data@, y * rb as int, 8, x2) as int]
                            == spec_rgba8(img@, y as int, x2));
                    }
                }
            }
            x = x + 1;
        }
        y = y + 1;
    }
    if pal.len() == 0 {
        return Option::None;
    }
    let out = PngImage {
        ihdr: new_ihdr,
        data: out_data,
        palette: Some(pal),
        transparency: Option::None,
        aux_headers: aux_clone(&img.aux_headers),
    };
    proof {
        assert(out@.aux == img@.aux);
        assert forall|y2: int, i2: int|
            0 <= y2 < out.ihdr.height && 0 <= i2 < out.ihdr.spec_row_samples()
                implies #[trigger] spec_img_sample(out@, y2, i2) < out@.palette.unwrap().len()
            by {
            assert(out.ihdr.spec_row_samples() == w) by (nonlinear_arith)
                requires
                    out.ihdr.spec_row_samples() == out.ihdr.width as nat * 1,
                    w == out.ihdr.width,
            ;
        }
        assert(img_wf(out@));
        lemma_pixels_indexed_of_rgba8(img@, out@);
    }
    Some(out)
}

/// Pixel equality of an 8-bit color image and its indexed form whose
/// entries reproduce each pixel's RGBA value.
#[verifier::rlimit(100)]
proof fn lemma_pixels_indexed_of_rgba8(a: PngImageV, b: PngImageV)
    requires
        a.ihdr.width == b.ihdr.width,
        a.ihdr.height == b.ihdr.height,
        a.ihdr.color_type != ColorType::Indexed,
        a.ihdr.bit_depth == BitDepth::Eight,
        b.ihdr.color_type == ColorType::Indexed,
        b.ihdr.bit_depth == BitDepth::Eight,
        a.transparency is None,
        a.palette is None,
        b.palette is Some,
        forall|y: int, x: int|
            0 <= y < b.ihdr.height && 0 <= x < b.ihdr.width ==> #[trigger] spec_img_sample(
                b,
                y,
                x,
            ) < b.palette.unwrap().len() && b.palette.unwrap()[spec_img_sample(b, y, x) as int]
                == spec_rgba8(a, y, x),
    ensures
        spec_pixels(a) == spec_pixels(b),
{
    lemma_sample_max_values();
    let w = a.ihdr.width as int;
    let h = a.ihdr.height as int;
    let cha = a.ihdr.color_type.spec_channels() as int;
    assert forall|p: int| 0 <= p < h * w implies #[trigger] spec_pixels(a)[p] == spec_pixels(
        b,
    )[p] by {
        let y = p / w;
        let x = p % w;
        assert(0 <= y < h && 0 <= x < w) by (nonlinear_arith)
            requires
                0 <= p < h * w,
                y == p / w,
                x == p % w,
                w >= 1,
        ;
        assert(b.ihdr.spec_row_samples() == w && a.ihdr.spec_row_samples() == w * cha)
            by (nonlinear_arith)
            requires
                b.ihdr.spec_row_samples() == b.ihdr.width as nat * 1,
                a.ihdr.spec_row_samples() == a.ihdr.width as nat
                    * a.ihdr.color_type.spec_channels(),
                w == a.ihdr.width as int,
                a.ihdr.width == b.ihdr.width,
                cha == a.ihdr.color_type.spec_channels() as int,
        ;
        assert(cha * x + cha <= cha * w) by (nonlinear_arith)
            requires
                0 <= x < w,
                cha >= 1,
        ;
        let e = b.palette.unwrap()[spec_img_sample(b, y, x) as int];
        assert(e == spec_rgba8(a, y, x));
        assert(spec_img_sample(a, y, cha * x) <= 255 && spec_img_sample(a, y, cha * x + 1) <= 255
            && spec_img_sample(a, y, cha * x + 2) <= 255 && spec_img_sample(a, y, cha * x + 3)
            <= 255) by {
            lemma_sample_bound(a.data, y * a.ihdr.spec_rb() as int, 8, cha * x);
            lemma_sample_bound(a.data, y * a.ihdr.spec_rb() as int, 8, cha * x + 1);
            lemma_sample_bound(a.data, y * a.ihdr.spec_rb() as int, 8, cha * x + 2);
            lemma_sample_bound(a.data, y * a.ihdr.spec_rb() as int, 8, cha * x + 3);
        }
        assert(255nat * 257 == 65535) by (nonlinear_arith);
        if a.ihdr.color_type == ColorType::RGBA {
            assert(cha * x == 4 * x && cha * x + 1 == 4 * x + 1 && cha * x + 2 == 4 * x + 2
                && cha * x + 3 == 4 * x + 3) by (nonlinear_arith)
                requires
                    cha == 4,
                    0 <= x,
            ;
        } else if a.ihdr.color_type == ColorType::RGB {
            assert(cha * x == 3 * x && cha * x + 1 == 3 * x + 1 && cha * x + 2 == 3 * x + 2)
                by (nonlinear_arith)
                requires
                    cha == 3,
                    0 <= x,
            ;
        } else if a.ihdr.color_type == ColorType::GrayscaleAlpha {
            assert(cha * x == 2 * x && cha * x + 1 == 2 * x + 1) by (nonlinear_arith)
                requires
                    cha == 2,
                    0 <= x,
            ;
        } else {
            assert(cha * x == x) by (nonlinear_arith)
                requires
                    cha == 1,
                    0 <= x,
            ;
        }
    }
    assert(spec_pixels(a) =~= spec_pixels(b));
}

/// Try the color type reductions in turn: drop an opaque alpha channel,
/// collapse equal color channels to grayscale, propose an indexed form of
/// a multi-channel 8-bit image, and, under `optimize_alpha`, rewrite
/// binary transparency into a transparency key. Succeeds at least whenever
/// the alpha drop applies, or grayscale reduction is enabled and applies;
/// the other proposals further depend on the image's colors.
pub fn reduce_color_type(img: &PngImage, grayscale_reduction: bool, optimize_alpha: bool) -> (r:
    Option<PngImage>)
    requires
        img_wf(img@),
    ensures
        match r {
            Some(out) => img_wf(out@) && out.ihdr.width == img.ihdr.width && out.ihdr.height
                == img.ihdr.height && out.ihdr.interlaced == img.ihdr.interlaced && out@.aux
                == img@.aux && spec_vis_equal(spec_pixels(img@), spec_pixels(out@)) && (
            !optimize_alpha ==> spec_pixels(out@) == spec_pixels(img@)),
            None => true,
        },
        spec_alpha_removable(img@) ==> r is Some,
        grayscale_reduction && spec_grayscale_applicable(img@) ==> r is Some,
{
    let mut best: Option<PngImage> = Option::None;
    match reduced_alpha_channel(img) {
        Some(a) => {
            best = Some(a);
        },
        None => {},
    }
    if grayscale_reduction {
        let g = match &best {
            Some(b) => reduced_grayscale(b),
            None => reduced_grayscale(img),
        };
        match g {
            Some(gimg) => {
                best = Some(gimg);
            },
            None => {},
        }
    }
    // indexing a plain grayscale image cannot beat one byte per pixel
    let multi_channel = match &best {
        Some(b) => b.ihdr.color_type.channels() > 1,
        None => img.ihdr.color_type.channels() > 1,
    };
    if multi_channel {
        let ix = match &best {
            Some(b) => reduced_to_indexed(b),
            None => reduced_to_indexed(img),
        };
        match ix {
            Some(iimg) => {
                best = Some(iimg);
            },
            None => {},
        }
    }
    // binary transparency that survived the steps above becomes a key
    if optimize_alpha {
        let t = match &best {
            Some(b) => reduced_alpha_to_trns(b),
            None => reduced_alpha_to_trns(img),
        };
        match t {
            Some(timg) => {
                proof {
                    match &best {
                        Some(b) => {
                            crate::png::lemma_vis_equal_trans(
                                spec_pixels(img@),
                                spec_pixels(b@),
                                spec_pixels(timg@),
                            );
                        },
                        None => {},
                    }
                }
                best = Some(timg);
            },
            None => {},
        }
    }
    best
}


/// The alpha sample of pixel `x`: the last channel.
pub open spec fn spec_alpha_sample(v: PngImageV, y: int, x: int) -> nat {
    spec_img_sample(
        v,
        y,
        v.ihdr.color_type.spec_channels() as int * x + v.ihdr.color_type.spec_channels() - 1,
    )
}

/// A transparent pixel's color channel, strictly before position
/// (`uy`, `ux`, `uc`) in scan order, still holds a nonzero sample.
pub open spec fn spec_hidden_before(v: PngImageV, uy: int, ux: int, uc: int) -> bool {
    exists|y: int, x: int, c: int|
        0 <= y < v.ihdr.height && 0 <= x < v.ihdr.width && 0 <= c
            < v.ihdr.color_type.spec_channels() - 1 && (y < uy || (y == uy && x < ux) || (y == uy
            && x == ux && c < uc)) && spec_alpha_sample(v, y, x) == 0 && #[trigger] spec_img_sample(
            v,
            y,
            v.ihdr.color_type.spec_channels() as int * x + c,
        ) != 0
}

/// Some fully transparent pixel still carries a nonzero color sample.
pub open spec fn spec_has_hidden_color(v: PngImageV) -> bool {
    exists|y: int, x: int, c: int|
        0 <= y < v.ihdr.height && 0 <= x < v.ihdr.width && 0 <= c
            < v.ihdr.color_type.spec_channels() - 1 && spec_alpha_sample(v, y, x) == 0
            && #[trigger] spec_img_sample(
            v,
            y,
            v.ihdr.color_type.spec_channels() as int * x + c,
        ) != 0
}

/// One scan step extends the bounded search by exactly the current
/// position.
proof fn lemma_hidden_step(v: PngImageV, uy: int, ux: int, uc: int)
    requires
        0 <= uy < v.ihdr.height,
        0 <= ux < v.ihdr.width,
        0 <= uc,
    ensures
        spec_hidden_before(v, uy, ux, uc + 1) == (spec_hidden_before(v, uy, ux, uc) || (uc
            < v.ihdr.color_type.spec_channels() - 1 && spec_alpha_sample(v, uy, ux) == 0
            && spec_img_sample(
            v,
            uy,
            v.ihdr.color_type.spec_channels() as int * ux + uc,
        ) != 0)),
{
    let ch = v.ihdr.color_type.spec_channels() as int;
    if spec_hidden_before(v, uy, ux, uc + 1) {
        let (y, x, c) = choose|y: int, x: int, c: int|
            0 <= y < v.ihdr.height && 0 <= x < v.ihdr.width && 0 <= c < ch - 1 && (y < uy || (y
                == uy && x < ux) || (y == uy && x == ux && c < uc + 1)) && spec_alpha_sample(
                v,
                y,
                x,
            ) == 0 && #[trigger] spec_img_sample(v, y, ch * x + c) != 0;
        if y == uy && x == ux && c == uc {
        } else {
            assert(spec_hidden_before(v, uy, ux, uc));
        }
    }
    if spec_hidden_before(v, uy, ux, uc) {
        let (y, x, c) = choose|y: int, x: int, c: int|
            0 <= y < v.ihdr.height && 0 <= x < v.ihdr.width && 0 <= c < ch - 1 && (y < uy || (y
                == uy && x < ux) || (y == uy && x == ux && c < uc)) && spec_alpha_sample(v, y, x)
                == 0 && #[trigger] spec_img_sample(v, y, ch * x + c) != 0;
        assert(spec_hidden_before(v, uy, ux, uc + 1));
    }
    if uc < ch - 1 && spec_alpha_sample(v, uy, ux) == 0 && spec_img_sample(v, uy, ch * ux + uc)
        != 0 {
        assert(spec_hidden_before(v, uy, ux, uc + 1));
    }
}

/// Crossing a pixel or row boundary does not change the bounded search.
proof fn lemma_hidden_wrap(v: PngImageV, uy: int, ux: int)
    requires
        0 <= uy,
        0 <= ux,
    ensures
        spec_hidden_before(v, uy, ux, v.ihdr.color_type.spec_channels() as int)
            == spec_hidden_before(v, uy, ux + 1, 0),
        spec_hidden_before(v, uy, v.ihdr.width as int, 0) == spec_hidden_before(v, uy + 1, 0, 0),
        spec_hidden_before(v, v.ihdr.height as int, 0, 0) == spec_has_hidden_color(v),
{
    let ch = v.ihdr.color_type.spec_channels() as int;
    if spec_hidden_before(v, uy, ux, ch) {
        let (y, x, c) = choose|y: int, x: int, c: int|
            0 <= y < v.ihdr.height && 0 <= x < v.ihdr.width && 0 <= c < ch - 1 && (y < uy || (y
                == uy && x < ux) || (y == uy && x == ux && c < ch)) && spec_alpha_sample(v, y, x)
                == 0 && #[trigger] spec_img_sample(v, y, ch * x + c) != 0;
        assert(spec_hidden_before(v, uy, ux + 1, 0));
    }
    if spec_hidden_before(v, uy, ux + 1, 0) {
        let (y, x, c) = choose|y: int, x: int, c: int|
            0 <= y < v.ihdr.height && 0 <= x < v.ihdr.width && 0 <= c < ch - 1 && (y < uy || (y
                == uy && x < ux + 1)) && spec_alpha_sample(v, y, x) == 0
                && #[trigger] spec_img_sample(v, y, ch * x + c) != 0;
        assert(spec_hidden_before(v, uy, ux, ch));
    }
    if spec_hidden_before(v, uy, v.ihdr.width as int, 0) {
        let (y, x, c) = choose|y: int, x: int, c: int|
            0 <= y < v.ihdr.height && 0 <= x < v.ihdr.width && 0 <= c < ch - 1 && (y < uy || (y
                == uy && x < v.ihdr.width)) && spec_alpha_sample(v, y, x) == 0
                && #[trigger] spec_img_sample(v, y, ch * x + c) != 0;
        assert(spec_hidden_before(v, uy + 1, 0, 0));
    }
    if spec_hidden_before(v, uy + 1, 0, 0) {
        let (y, x, c) = choose|y: int, x: int, c: int|
            0 <= y < v.ihdr.height && 0 <= x < v.ihdr.width && 0 <= c < ch - 1 && (y < uy + 1)
                && spec_alpha_sample(v, y, x) == 0 && #[trigger] spec_img_sample(
                v,
                y,
                ch * x + c,
            ) != 0;
        assert(spec_hidden_before(v, uy, v.ihdr.width as int, 0));
    }
    if spec_hidden_before(v, v.ihdr.height as int, 0, 0) {
        let (y, x, c) = choose|y: int, x: int, c: int|
            0 <= y < v.ihdr.height && 0 <= x < v.ihdr.width && 0 <= c < ch - 1 && (y
                < v.ihdr.height) && spec_alpha_sample(v, y, x) == 0 && #[trigger] spec_img_sample(
                v,
                y,
                ch * x + c,
            ) != 0;
        assert(spec_has_hidden_color(v));
    }
    if spec_has_hidden_color(v) {
        let (y, x, c) = choose|y: int, x: int, c: int|
            0 <= y < v.ihdr.height && 0 <= x < v.ihdr.width && 0 <= c < ch - 1
                && spec_alpha_sample(v, y, x) == 0 && #[trigger] spec_img_sample(
                v,
                y,
                ch * x + c,
            ) != 0;
        assert(spec_hidden_before(v, v.ihdr.height as int, 0, 0));
    }
}

/// Zero the color samples of every fully transparent pixel. Changes no
/// visible pixel, but makes the filtered stream far more compressible.
/// Applies exactly when the image has an alpha channel and some fully
/// transparent pixel still carries a nonzero color sample.
#[verifier::rlimit(100)]
pub fn cleaned_alpha_channel(img: &PngImage) -> (r: Option<PngImage>)
    requires
        img_wf(img@),
    ensures
        match r {
            Some(out) => img_wf(out@) && out.ihdr == img.ihdr && out@.aux == img@.aux
                && spec_vis_equal(spec_pixels(img@), spec_pixels(out@)),
            None => true,
        },
        r is Some <==> ((img.ihdr.color_type == ColorType::GrayscaleAlpha
            || img.ihdr.color_type == ColorType::RGBA) && spec_has_hidden_color(img@)),
{
    match img.ihdr.color_type {
        ColorType::GrayscaleAlpha | ColorType::RGBA => {},
        _ => {
            return Option::None;
        },
    }
    let h = img.ihdr.height as usize;
    let w = img.ihdr.width as usize;
    let ch = img.ihdr.color_type.channels() as usize;
    let rb = img.ihdr.rb();
    let bits = img.ihdr.bit_depth.as_u8();
    let total = img.ihdr.data_len();
    let mut out_data = crate::filters::zero_vec(total);
    let mut changed = false;
    let mut y: usize = 0;
    while y < h
        invariant
            y <= h,
            img_wf(img@),
            img.ihdr.color_type == ColorType::GrayscaleAlpha || img.ihdr.color_type
                == ColorType::RGBA,
            h == img.ihdr.height,
            w == img.ihdr.width,
            ch == img.ihdr.color_type.spec_channels(),
            rb as nat == img.ihdr.spec_rb(),
            bits as nat == img.ihdr.bit_depth.spec_bits(),
            valid_bits(bits as nat),
            total as nat == img.ihdr.spec_data_len(),
            out_data.len() == total,
            changed == spec_hidden_before(img@, y as int, 0, 0),
            forall|y2: int, x2: int, c: int|
                0 <= y2 < y && 0 <= x2 < w && 0 <= c < ch ==> #[trigger] spec_sample(
                    out_data@,
                    y2 * rb as int,
                    bits as nat,
                    ch as int * x2 + c,
                ) == (if c == ch - 1 || spec_alpha_sample(img@, y2, x2) != 0 {
                    spec_img_sample(img@, y2, ch as int * x2 + c)
                } else {
                    0nat
                }),
        decreases h - y,
    {
        let mut x: usize = 0;
        while x < w
            invariant
                x <= w,
                y < h,
                img_wf(img@),
                img.ihdr.color_type == ColorType::GrayscaleAlpha || img.ihdr.color_type
                    == ColorType::RGBA,
                h == img.ihdr.height,
                w == img.ihdr.width,
                ch == img.ihdr.color_type.spec_channels(),
                rb as nat == img.ihdr.spec_rb(),
                bits as nat == img.ihdr.bit_depth.spec_bits(),
                valid_bits(bits as nat),
                total as nat == img.ihdr.spec_data_len(),
                out_data.len() == total,
                changed == spec_hidden_before(img@, y as int, x as int, 0),
                forall|y2: int, x2: int, c: int|
                    0 <= y2 < y && 0 <= x2 < w && 0 <= c < ch ==> #[trigger] spec_sample(
                        out_data@,
                        y2 * rb as int,
                        bits as nat,
                        ch as int * x2 + c,
                    ) == (if c == ch - 1 || spec_alpha_sample(img@, y2, x2) != 0 {
                        spec_img_sample(img@, y2, ch as int * x2 + c)
                    } else {
                        0nat
                    }),
                forall|x2: int, c: int|
                    0 <= x2 < x && 0 <= c < ch ==> #[trigger] spec_sample(
                        out_data@,
                        y * rb as int,
                        bits as nat,
                        ch as int * x2 + c,
                    ) == (if c == ch - 1 || spec_alpha_sample(img@, y as int, x2) != 0 {
                        spec_img_sample(img@, y as int, ch as int * x2 + c)
                    } else {
                        0nat
                    }),
            decreases w - x,
        {
            proof {
                assert(ch * x + ch <= ch * w && ch as int * w == img.ihdr.spec_row_samples()
                    && ch * x + ch <= usize::MAX) by (nonlinear_arith)
                    requires
                        0 <= x < w,
                        ch >= 1,
                        img.ihdr.spec_row_samples() == img.ihdr.width as nat * ch,
                        w == img.ihdr.width,
                        img.ihdr.spec_row_samples() * img.ihdr.bit_depth.spec_bits() + 7
                            <= usize::MAX,
                        img.ihdr.bit_depth.spec_bits() >= 1,
                ;
            }
            let alpha = img.sample(y, ch * x + ch - 1);
            let mut c: usize = 0;
            while c < ch
                invariant
                    c <= ch,
                    x < w,
                    y < h,
                    img_wf(img@),
                    img.ihdr.color_type == ColorType::GrayscaleAlpha || img.ihdr.color_type
                        == ColorType::RGBA,
                    h == img.ihdr.height,
                    w == img.ihdr.width,
                    ch == img.ihdr.color_type.spec_channels(),
                    rb as nat == img.ihdr.spec_rb(),
                    bits as nat == img.ihdr.bit_depth.spec_bits(),
                    valid_bits(bits as nat),
                    total as nat == img.ihdr.spec_data_len(),
                    out_data.len() == total,
                    ch * x + ch <= ch * w,
                    ch as int * w == img.ihdr.spec_row_samples(),
                    alpha as nat == spec_alpha_sample(img@, y as int, x as int),
                    changed == spec_hidden_before(img@, y as int, x as int, c as int),
                    forall|y2: int, x2: int, c2: int|
                        0 <= y2 < y && 0 <= x2 < w && 0 <= c2 < ch ==> #[trigger] spec_sample(
                            out_data@,
                            y2 * rb as int,
                            bits as nat,
                            ch as int * x2 + c2,
                        ) == (if c2 == ch - 1 || spec_alpha_sample(img@, y2, x2) != 0 {
                            spec_img_sample(img@, y2, ch as int * x2 + c2)
                        } else {
                            0nat
                        }),
                    forall|x2: int, c2: int|
                        0 <= x2 < x && 0 <= c2 < ch ==> #[trigger] spec_sample(
                            out_data@,
                            y * rb as int,
                            bits as nat,
                            ch as int * x2 + c2,
                        ) == (if c2 == ch - 1 || spec_alpha_sample(img@, y as int, x2) != 0 {
                            spec_img_sample(img@, y as int, ch as int * x2 + c2)
                        } else {
                            0nat
                        }),
                    forall|c2: int|
                        0 <= c2 < c ==> #[trigger] spec_sample(
                            out_data@,
                            y * rb as int,
                            bits as nat,
                            ch as int * (x as int) + c2,
                        ) == (if c2 == ch - 1 || spec_alpha_sample(img@, y as int, x as int) != 0 {
                            spec_img_sample(img@, y as int, ch as int * (x as int) + c2)
                        } else {
                            0nat
                        }),
                decreases ch - c,
            {
                let i = ch * x + c;
                proof {
                    lemma_sample_in_row(img.ihdr.spec_row_samples(), bits as nat, i as int);
                    lemma_row_extent(y as int, h as int, rb as nat);
                    assert(h as nat * rb as nat == total) by (nonlinear_arith)
                        requires
                            total as nat == img.ihdr.spec_data_len(),
                            img.ihdr.spec_data_len() == img.ihdr.height as nat * img.ihdr.spec_rb(),
                            rb as nat == img.ihdr.spec_rb(),
                            h == img.ihdr.height,
                    ;
                    lemma_sample_bound(
                        img@.data,
                        y * img.ihdr.spec_rb() as int,
                        bits as nat,
                        i as int,
                    );
                    lemma_sample_max_values();
                }
                let orig = img.sample(y, i);
                let v: u16 = if c == ch - 1 || alpha != 0 {
                    orig
                } else {
                    if orig != 0 {
                        changed = true;
                    }
                    0
                };
                proof {
                    lemma_hidden_step(img@, y as int, x as int, c as int);
                    assert(changed == spec_hidden_before(img@, y as int, x as int, c + 1));
                }
                let ghost pre = out_data@;
                set_packed_sample(&mut out_data, y * rb, bits, i, v);
                proof {
                    assert forall|y2: int, x2: int, c2: int|
                        0 <= y2 < y && 0 <= x2 < w && 0 <= c2 < ch implies #[trigger] spec_sample(
                        out_data@,
                        y2 * rb as int,
                        bits as nat,
                        ch as int * x2 + c2,
                    ) == (if c2 == ch - 1 || spec_alpha_sample(img@, y2, x2) != 0 {
                        spec_img_sample(img@, y2, ch as int * x2 + c2)
                    } else {
                        0nat
                    }) by {
                        assert(0 <= ch as int * x2 + c2 < ch as int * w) by (nonlinear_arith)
                            requires
                                0 <= x2 < w,
                                0 <= c2 < ch,
                        ;
                        lemma_sample_in_row(img.ihdr.spec_row_samples(), bits as nat, ch as int
                            * x2 + c2);
                        lemma_row_extent(y2, h as int, rb as nat);
                        assert(y2 * rb as int + spec_row_bytes(
                            img.ihdr.spec_row_samples(),
                            bits as nat,
                        ) <= y * rb + crate::bits::spec_sample_start(bits as nat, i as int) || y
                            * rb + crate::bits::spec_sample_end(bits as nat, i as int) <= y2 * rb
                            as int) by (nonlinear_arith)
                            requires
                                0 <= y2 < y,
                                0 <= crate::bits::spec_sample_start(bits as nat, i as int),
                                crate::bits::spec_sample_end(bits as nat, i as int) <= rb,
                                spec_row_bytes(img.ihdr.spec_row_samples(), bits as nat) == rb,
                        ;
                        lemma_sample_frame(pre, out_data@, y2 * rb as int, bits as nat, ch as int
                            * x2 + c2);
                    }
                    assert forall|x2: int, c2: int|
                        0 <= x2 < x && 0 <= c2 < ch implies #[trigger] spec_sample(
                        out_data@,
                        y * rb as int,
                        bits as nat,
                        ch as int * x2 + c2,
                    ) == (if c2 == ch - 1 || spec_alpha_sample(img@, y as int, x2) != 0 {
                        spec_img_sample(img@, y as int, ch as int * x2 + c2)
                    } else {
                        0nat
                    }) by {
                        assert(0 <= ch as int * x2 + c2 && ch as int * x2 + c2 < ch as int * (
                        x as int) + c) by (nonlinear_arith)
                            requires
                                0 <= x2 < x,
                                0 <= c2 < ch,
                        ;
                        lemma_sample_in_row(img.ihdr.spec_row_samples(), bits as nat, ch as int
                            * x2 + c2);
                    }
                    assert forall|c2: int|
                        0 <= c2 < c + 1 implies #[trigger] spec_sample(
                        out_data@,
                        y * rb as int,
                        bits as nat,
                        ch as int * (x as int) + c2,
                    ) == (if c2 == ch - 1 || spec_alpha_sample(img@, y as int, x as int) != 0 {
                        spec_img_sample(img@, y as int, ch as int * (x as int) + c2)
                    } else {
                        0nat
                    }) by {
                        if c2 < c {
                            lemma_sample_in_row(img.ihdr.spec_row_samples(), bits as nat, ch
                                as int * (x as int) + c2);
                        }
                    }
                }
                c = c + 1;
            }
            proof {
                assert forall|x2: int, c2: int|
                    0 <= x2 < x + 1 && 0 <= c2 < ch implies #[trigger] spec_sample(
                    out_data@,
                    y * rb as int,
                    bits as nat,
                    ch as int * x2 + c2,
                ) == (if c2 == ch - 1 || spec_alpha_sample(img@, y as int, x2) != 0 {
                    spec_img_sample(img@, y as int, ch as int * x2 + c2)
                } else {
                    0nat
                }) by {
                    if x2 == x {
                        assert(spec_sample(out_data@, y * rb as int, bits as nat, ch as int * (
                        x as int) + c2) == (if c2 == ch - 1 || spec_alpha_sample(
                            img@,
                            y as int,
                            x as int,
                        ) != 0 {
                            spec_img_sample(img@, y as int, ch as int * (x as int) + c2)
                        } else {
                            0nat
                        }));
                    }
                }
                lemma_hidden_wrap(img@, y as int, x as int);
            }
            x = x + 1;
        }
        proof {
            assert forall|y2: int, x2: int, c2: int|
                0 <= y2 < y + 1 && 0 <= x2 < w && 0 <= c2 < ch implies #[trigger] spec_sample(
                out_data@,
                y2 * rb as int,
                bits as nat,
                ch as int * x2 + c2,
            ) == (if c2 == ch - 1 || spec_alpha_sample(img@, y2, x2) != 0 {
                spec_img_sample(img@, y2, ch as int * x2 + c2)
            } else {
                0nat
            }) by {
                if y2 == y {
                    assert(spec_sample(out_data@, y * rb as int, bits as nat, ch as int * x2 + c2)
                        == (if c2 == ch - 1 || spec_alpha_sample(img@, y as int, x2) != 0 {
                        spec_img_sample(img@, y as int, ch as int * x2 + c2)
                    } else {
                        0nat
                    }));
                }
            }
            lemma_hidden_wrap(img@, y as int, w as int);
        }
        y = y + 1;
    }
    proof {
        lemma_hidden_wrap(img@, h as int, 0);
        assert(changed == spec_has_hidden_color(img@));
    }
    if !changed {
        return Option::None;
    }
    let out = PngImage {
        ihdr: img.ihdr,
        data: out_data,
        palette: Option::None,
        transparency: Option::None,
        aux_headers: aux_clone(&img.aux_headers),
    };
    proof {
        assert(out@.aux == img@.aux);
        assert(img_wf(out@));
        lemma_pixels_vis_cleaned(img@, out@);
    }
    Some(out)
}

/// Visible pixel equality after transparent pixels' colors are zeroed.
#[verifier::rlimit(100)]
proof fn lemma_pixels_vis_cleaned(a: PngImageV, b: PngImageV)
    requires
        a.ihdr == b.ihdr,
        a.ihdr.color_type == ColorType::GrayscaleAlpha || a.ihdr.color_type == ColorType::RGBA,
        a.transparency is None,
        b.transparency is None,
        a.palette is None,
        b.palette is None,
        forall|y: int, x: int, c: int|
            0 <= y < a.ihdr.height && 0 <= x < a.ihdr.width && 0 <= c
                < a.ihdr.color_type.spec_channels() ==> #[trigger] spec_img_sample(
                b,
                y,
                a.ihdr.color_type.spec_channels() as int * x + c,
            ) == (if c == a.ihdr.color_type.spec_channels() - 1 || spec_alpha_sample(a, y, x)
                != 0 {
                spec_img_sample(a, y, a.ihdr.color_type.spec_channels() as int * x + c)
            } else {
                0nat
            }),
    ensures
        spec_vis_equal(spec_pixels(a), spec_pixels(b)),
{
    let w = a.ihdr.width as int;
    let h = a.ihdr.height as int;
    let ch = a.ihdr.color_type.spec_channels() as int;
    assert forall|p: int| 0 <= p < h * w implies (#[trigger] spec_pixels(a)[p] == spec_pixels(
        b,
    )[p] || (spec_pixels(a)[p].a == 0 && spec_pixels(b)[p].a == 0)) by {
        let y = p / w;
        let x = p % w;
        assert(0 <= y < h && 0 <= x < w) by (nonlinear_arith)
            requires
                0 <= p < h * w,
                y == p / w,
                x == p % w,
                w >= 1,
        ;
        assert(spec_img_sample(b, y, ch * x + 0) == (if 0 == ch - 1 || spec_alpha_sample(a, y, x)
            != 0 {
            spec_img_sample(a, y, ch * x + 0)
        } else {
            0nat
        }));
        assert(spec_img_sample(b, y, ch * x + 1) == (if 1 == ch - 1 || spec_alpha_sample(a, y, x)
            != 0 {
            spec_img_sample(a, y, ch * x + 1)
        } else {
            0nat
        }));
        if a.ihdr.color_type == ColorType::RGBA {
            assert(spec_img_sample(b, y, ch * x + 2) == (if 2 == ch - 1 || spec_alpha_sample(
                a,
                y,
                x,
            ) != 0 {
                spec_img_sample(a, y, ch * x + 2)
            } else {
                0nat
            }));
            assert(spec_img_sample(b, y, ch * x + 3) == (if 3 == ch - 1 || spec_alpha_sample(
                a,
                y,
                x,
            ) != 0 {
                spec_img_sample(a, y, ch * x + 3)
            } else {
                0nat
            }));
            assert(ch * x + 3 == ch * x + ch - 1);
            assert(scale16(spec_alpha_sample(a, y, x), a.ihdr.bit_depth.spec_bits()) == 0
                <==> spec_alpha_sample(a, y, x) == 0) by {
                if a.ihdr.bit_depth.spec_bits() == 8 {
                    let av = spec_alpha_sample(a, y, x);
                    assert(av * 257 == 0 ==> av == 0) by (nonlinear_arith);
                }
            }
        } else {
            assert(ch * x + 1 == ch * x + ch - 1);
            assert(scale16(spec_alpha_sample(a, y, x), a.ihdr.bit_depth.spec_bits()) == 0
                <==> spec_alpha_sample(a, y, x) == 0) by {
                if a.ihdr.bit_depth.spec_bits() == 8 {
                    let av = spec_alpha_sample(a, y, x);
                    assert(av * 257 == 0 ==> av == 0) by (nonlinear_arith);
                }
            }
        }
    }
}


/// Every alpha sample is zero or the depth's maximum.
pub open spec fn spec_binary_alpha(v: PngImageV) -> bool {
    forall|y: int, x: int|
        0 <= y < v.ihdr.height && 0 <= x < v.ihdr.width ==> #[trigger] spec_alpha_sample(v, y, x)
            == 0 || spec_alpha_sample(v, y, x) == spec_sample_max(v.ihdr.bit_depth.spec_bits())
}

/// No visible pixel carries the candidate key color.
pub open spec fn spec_key_free(v: PngImageV, k0: nat, k1: nat, k2: nat) -> bool {
    forall|y: int, x: int|
        0 <= y < v.ihdr.height && 0 <= x < v.ihdr.width && #[trigger] spec_alpha_sample(v, y, x)
            != 0 ==> (if v.ihdr.color_type == ColorType::RGBA {
            !(spec_img_sample(v, y, 4 * x) == k0 && spec_img_sample(v, y, 4 * x + 1) == k1
                && spec_img_sample(v, y, 4 * x + 2) == k2)
        } else {
            spec_img_sample(v, y, 2 * x) != k0
        })
}

/// Whether every alpha sample is zero or the maximum.
#[verifier::spinoff_prover]
fn all_alpha_binary(img: &PngImage) -> (r: bool)
    requires
        img_wf(img@),
        img.ihdr.color_type.has_alpha(),
    ensures
        r == spec_binary_alpha(img@),
{
    let h = img.ihdr.height as usize;
    let w = img.ihdr.width as usize;
    let ch = img.ihdr.color_type.channels() as usize;
    let maxv: u16 = if img.ihdr.bit_depth.as_u8() == 16 {
        65535
    } else {
        255
    };
    proof {
        lemma_sample_max_values();
    }
    let mut y: usize = 0;
    while y < h
        invariant
            y <= h,
            img_wf(img@),
            img.ihdr.color_type.has_alpha(),
            h == img.ihdr.height,
            w == img.ihdr.width,
            ch == img.ihdr.color_type.spec_channels(),
            maxv as nat == spec_sample_max(img.ihdr.bit_depth.spec_bits()),
            forall|y2: int, x2: int|
                0 <= y2 < y && 0 <= x2 < w ==> #[trigger] spec_alpha_sample(img@, y2, x2) == 0
                    || spec_alpha_sample(img@, y2, x2) == spec_sample_max(
                    img.ihdr.bit_depth.spec_bits(),
                ),
        decreases h - y,
    {
        let mut x: usize = 0;
        while x < w
            invariant
                x <= w,
                y < h,
                img_wf(img@),
                img.ihdr.color_type.has_alpha(),
                h == img.ihdr.height,
                w == img.ihdr.width,
                ch == img.ihdr.color_type.spec_channels(),
                maxv as nat == spec_sample_max(img.ihdr.bit_depth.spec_bits()),
                forall|y2: int, x2: int|
                    0 <= y2 < y && 0 <= x2 < w ==> #[trigger] spec_alpha_sample(img@, y2, x2) == 0
                        || spec_alpha_sample(img@, y2, x2) == spec_sample_max(
                        img.ihdr.bit_depth.spec_bits(),
                    ),
                forall|x2: int|
                    0 <= x2 < x ==> #[trigger] spec_alpha_sample(img@, y as int, x2) == 0
                        || spec_alpha_sample(img@, y as int, x2) == spec_sample_max(
                        img.ihdr.bit_depth.spec_bits(),
                    ),
            decreases w - x,
        {
            proof {
                assert(ch * x + ch <= ch * w && ch as int * w == img.ihdr.spec_row_samples()
                    && ch * x + ch <= usize::MAX) by (nonlinear_arith)
                    requires
                        0 <= x < w,
                        ch >= 1,
                        img.ihdr.spec_row_samples() == img.ihdr.width as nat * ch,
                        w == img.ihdr.width,
                        img.ihdr.spec_row_samples() * img.ihdr.bit_depth.spec_bits() + 7
                            <= usize::MAX,
                        img.ihdr.bit_depth.spec_bits() >= 1,
                ;
            }
            let a = img.sample(y, ch * x + ch - 1);
            if a != 0 && a != maxv {
                proof {
                    assert(spec_alpha_sample(img@, y as int, x as int) == a);
                    assert(!spec_binary_alpha(img@));
                }
                return false;
            }
            proof {
                assert forall|y2: int, x2: int|
                    0 <= y2 < y && 0 <= x2 < w implies #[trigger] spec_alpha_sample(img@, y2, x2)
                    == 0 || spec_alpha_sample(img@, y2, x2) == spec_sample_max(
                    img.ihdr.bit_depth.spec_bits(),
                ) by {}
            }
            x = x + 1;
        }
        y = y + 1;
    }
    true
}

/// Whether any pixel is fully transparent.
#[verifier::spinoff_prover]
fn any_transparent(img: &PngImage) -> (r: bool)
    requires
        img_wf(img@),
        img.ihdr.color_type.has_alpha(),
{
    let h = img.ihdr.height as usize;
    let w = img.ihdr.width as usize;
    let ch = img.ihdr.color_type.channels() as usize;
    let mut y: usize = 0;
    while y < h
        invariant
            y <= h,
            img_wf(img@),
            img.ihdr.color_type.has_alpha(),
            h == img.ihdr.height,
            w == img.ihdr.width,
            ch == img.ihdr.color_type.spec_channels(),
        decreases h - y,
    {
        let mut x: usize = 0;
        while x < w
            invariant
                x <= w,
                y < h,
                img_wf(img@),
                img.ihdr.color_type.has_alpha(),
                h == img.ihdr.height,
                w == img.ihdr.width,
                ch == img.ihdr.color_type.spec_channels(),
            decreases w - x,
        {
            proof {
                assert(ch * x + ch <= ch * w && ch as int * w == img.ihdr.spec_row_samples()
                    && ch * x + ch <= usize::MAX) by (nonlinear_arith)
                    requires
                        0 <= x < w,
                        ch >= 1,
                        img.ihdr.spec_row_samples() == img.ihdr.width as nat * ch,
                        w == img.ihdr.width,
                        img.ihdr.spec_row_samples() * img.ihdr.bit_depth.spec_bits() + 7
                            <= usize::MAX,
                        img.ihdr.bit_depth.spec_bits() >= 1,
                ;
            }
            if img.sample(y, ch * x + ch - 1) == 0 {
                return true;
            }
            x = x + 1;
        }
        y = y + 1;
    }
    false
}

/// Whether the candidate key collides with some visible pixel's color.
#[verifier::spinoff_prover]
#[verifier::rlimit(100)]
fn key_free(img: &PngImage, k0: u16, k1: u16, k2: u16) -> (r: bool)
    requires
        img_wf(img@),
        img.ihdr.color_type == ColorType::RGBA || img.ihdr.color_type
            == ColorType::GrayscaleAlpha,
    ensures
        r == spec_key_free(img@, k0 as nat, k1 as nat, k2 as nat),
{
    let h = img.ihdr.height as usize;
    let w = img.ihdr.width as usize;
    let ch = img.ihdr.color_type.channels() as usize;
    let mut y: usize = 0;
    while y < h
        invariant
            y <= h,
            img_wf(img@),
            img.ihdr.color_type == ColorType::RGBA || img.ihdr.color_type
                == ColorType::GrayscaleAlpha,
            h == img.ihdr.height,
            w == img.ihdr.width,
            ch == img.ihdr.color_type.spec_channels(),
            forall|y2: int, x2: int|
                0 <= y2 < y && 0 <= x2 < w && #[trigger] spec_alpha_sample(img@, y2, x2) != 0
                    ==> (if img.ihdr.color_type == ColorType::RGBA {
                    !(spec_img_sample(img@, y2, 4 * x2) == k0 && spec_img_sample(
                        img@,
                        y2,
                        4 * x2 + 1,
                    ) == k1 && spec_img_sample(img@, y2, 4 * x2 + 2) == k2)
                } else {
                    spec_img_sample(img@, y2, 2 * x2) != k0
                }),
        decreases h - y,
    {
        let mut x: usize = 0;
        while x < w
            invariant
                x <= w,
                y < h,
                img_wf(img@),
                img.ihdr.color_type == ColorType::RGBA || img.ihdr.color_type
                    == ColorType::GrayscaleAlpha,
                h == img.ihdr.height,
                w == img.ihdr.width,
                ch == img.ihdr.color_type.spec_channels(),
                forall|y2: int, x2: int|
                    0 <= y2 < y && 0 <= x2 < w && #[trigger] spec_alpha_sample(img@, y2, x2) != 0
                        ==> (if img.ihdr.color_type == ColorType::RGBA {
                        !(spec_img_sample(img@, y2, 4 * x2) == k0 && spec_img_sample(
                            img@,
                            y2,
                            4 * x2 + 1,
                        ) == k1 && spec_img_sample(img@, y2, 4 * x2 + 2) == k2)
                    } else {
                        spec_img_sample(img@, y2, 2 * x2) != k0
                    }),
                forall|x2: int|
                    0 <= x2 < x && #[trigger] spec_alpha_sample(img@, y as int, x2) != 0 ==> (
                    if img.ihdr.color_type == ColorType::RGBA {
                        !(spec_img_sample(img@, y as int, 4 * x2) == k0 && spec_img_sample(
                            img@,
                            y as int,
                            4 * x2 + 1,
                        ) == k1 && spec_img_sample(img@, y as int, 4 * x2 + 2) == k2)
                    } else {
                        spec_img_sample(img@, y as int, 2 * x2) != k0
                    }),
            decreases w - x,
        {
            proof {
                assert(ch * x + ch <= ch * w && ch as int * w == img.ihdr.spec_row_samples()
                    && ch * x + ch <= usize::MAX) by (nonlinear_arith)
                    requires
                        0 <= x < w,
                        ch >= 1,
                        img.ihdr.spec_row_samples() == img.ihdr.width as nat * ch,
                        w == img.ihdr.width,
                        img.ihdr.spec_row_samples() * img.ihdr.bit_depth.spec_bits() + 7
                            <= usize::MAX,
                        img.ihdr.bit_depth.spec_bits() >= 1,
                ;
            }
            let a = img.sample(y, ch * x + ch - 1);
            if a != 0 {
                let hit: bool = if ch == 4 {
                    img.sample(y, ch * x) == k0 && img.sample(y, ch * x + 1) == k1 && img.sample(
                        y,
                        ch * x + 2,
                    ) == k2
                } else {
                    img.sample(y, ch * x) == k0
                };
                if hit {
                    proof {
                        assert(spec_alpha_sample(img@, y as int, x as int) == a);
                        if img.ihdr.color_type == ColorType::RGBA {
                            assert(ch as int * (x as int) == 4 * (x as int) && ch as int * (
                            x as int) + 1 == 4 * (x as int) + 1 && ch as int * (x as int) + 2 == 4
                                * (x as int) + 2) by (nonlinear_arith)
                                requires
                                    ch == 4,
                            ;
                        } else {
                            assert(ch as int * (x as int) == 2 * (x as int)) by (nonlinear_arith)
                                requires
                                    ch == 2,
                            ;
                        }
                        assert(!spec_key_free(img@, k0 as nat, k1 as nat, k2 as nat));
                    }
                    return false;
                }
            }
            x = x + 1;
        }
        y = y + 1;
    }
    true
}


/// Visible pixel equality after transparent pixels take the key color, the
/// alpha channel is dropped, and the key becomes the transparency chunk.
#[verifier::rlimit(100)]
proof fn lemma_pixels_vis_to_trns(a: PngImageV, b: PngImageV, k0: nat, k1: nat, k2: nat)
    requires
        a.ihdr.width == b.ihdr.width,
        a.ihdr.height == b.ihdr.height,
        a.ihdr.bit_depth == b.ihdr.bit_depth,
        (a.ihdr.color_type == ColorType::RGBA && b.ihdr.color_type == ColorType::RGB) || (
        a.ihdr.color_type == ColorType::GrayscaleAlpha && b.ihdr.color_type
            == ColorType::Grayscale),
        a.transparency is None,
        a.palette is None,
        b.palette is None,
        b.transparency matches Some(t) && (if b.ihdr.color_type == ColorType::RGB {
            t.len() == 6 && spec_trns_rgb(t) == (k0, k1, k2)
        } else {
            t.len() == 2 && spec_trns_gray(t) == k0
        }),
        a.ihdr.bit_depth == BitDepth::Eight || a.ihdr.bit_depth == BitDepth::Sixteen,
        spec_binary_alpha(a),
        spec_key_free(a, k0, k1, k2),
        forall|y: int, x: int, c: int|
            0 <= y < b.ihdr.height && 0 <= x < b.ihdr.width && 0 <= c
                < b.ihdr.color_type.spec_channels() ==> #[trigger] spec_img_sample(
                b,
                y,
                b.ihdr.color_type.spec_channels() as int * x + c,
            ) == (if spec_alpha_sample(a, y, x) != 0 {
                spec_img_sample(a, y, a.ihdr.color_type.spec_channels() as int * x + c)
            } else {
                if c == 0 {
                    k0
                } else if c == 1 {
                    k1
                } else {
                    k2
                }
            }),
    ensures
        spec_vis_equal(spec_pixels(a), spec_pixels(b)),
{
    lemma_sample_max_values();
    let w = a.ihdr.width as int;
    let h = a.ihdr.height as int;
    let cha = a.ihdr.color_type.spec_channels() as int;
    let chb = b.ihdr.color_type.spec_channels() as int;
    let bits = a.ihdr.bit_depth.spec_bits();
    assert(scale16(spec_sample_max(bits), bits) == 65535) by {
        if bits == 8 {
            assert(255nat * 257 == 65535) by (nonlinear_arith);
        }
    }
    assert forall|p: int| 0 <= p < h * w implies (#[trigger] spec_pixels(a)[p] == spec_pixels(
        b,
    )[p] || (spec_pixels(a)[p].a == 0 && spec_pixels(b)[p].a == 0)) by {
        let y = p / w;
        let x = p % w;
        assert(0 <= y < h && 0 <= x < w) by (nonlinear_arith)
            requires
                0 <= p < h * w,
                y == p / w,
                x == p % w,
                w >= 1,
        ;
        assert(b.ihdr.spec_row_samples() == w * chb && a.ihdr.spec_row_samples() == w * cha)
            by (nonlinear_arith)
            requires
                b.ihdr.spec_row_samples() == b.ihdr.width as nat
                    * b.ihdr.color_type.spec_channels(),
                a.ihdr.spec_row_samples() == a.ihdr.width as nat
                    * a.ihdr.color_type.spec_channels(),
                w == a.ihdr.width as int,
                a.ihdr.width == b.ihdr.width,
                cha == a.ihdr.color_type.spec_channels() as int,
                chb == b.ihdr.color_type.spec_channels() as int,
        ;
        assert(chb * x + chb <= chb * w && cha * x + cha <= cha * w) by (nonlinear_arith)
            requires
                0 <= x < w,
                chb >= 1,
                cha >= 1,
        ;
        if a.ihdr.color_type == ColorType::RGBA {
            assert(chb * x + 0 == 3 * x && chb * x + 1 == 3 * x + 1 && chb * x + 2 == 3 * x + 2)
                by (nonlinear_arith)
                requires
                    chb == 3,
                    0 <= x,
            ;
            assert(cha * x + 0 == 4 * x && cha * x + 1 == 4 * x + 1 && cha * x + 2 == 4 * x + 2
                && cha * x + cha - 1 == 4 * x + 3) by (nonlinear_arith)
                requires
                    cha == 4,
                    0 <= x,
            ;
            assert(spec_img_sample(b, y, chb * x + 0) == (if spec_alpha_sample(a, y, x) != 0 {
                spec_img_sample(a, y, cha * x + 0)
            } else {
                k0
            }));
            assert(spec_img_sample(b, y, chb * x + 1) == (if spec_alpha_sample(a, y, x) != 0 {
                spec_img_sample(a, y, cha * x + 1)
            } else {
                k1
            }));
            assert(spec_img_sample(b, y, chb * x + 2) == (if spec_alpha_sample(a, y, x) != 0 {
                spec_img_sample(a, y, cha * x + 2)
            } else {
                k2
            }));
            if spec_alpha_sample(a, y, x) == 0 {
                assert(spec_pixels(a)[p].a == 0 && spec_pixels(b)[p].a == 0);
            } else {
                assert(spec_alpha_sample(a, y, x) == spec_sample_max(bits));
                assert(!(spec_img_sample(a, y, 4 * x) == k0 && spec_img_sample(a, y, 4 * x + 1)
                    == k1 && spec_img_sample(a, y, 4 * x + 2) == k2));
                assert(spec_pixels(a)[p] == spec_pixels(b)[p]);
            }
        } else {
            assert(chb * x + 0 == x) by (nonlinear_arith)
                requires
                    chb == 1,
                    0 <= x,
            ;
            assert(cha * x + 0 == 2 * x && cha * x + cha - 1 == 2 * x + 1) by (nonlinear_arith)
                requires
                    cha == 2,
                    0 <= x,
            ;
            assert(spec_img_sample(b, y, chb * x + 0) == (if spec_alpha_sample(a, y, x) != 0 {
                spec_img_sample(a, y, cha * x + 0)
            } else {
                k0
            }));
            if spec_alpha_sample(a, y, x) == 0 {
                assert(spec_pixels(a)[p].a == 0 && spec_pixels(b)[p].a == 0);
            } else {
                assert(spec_alpha_sample(a, y, x) == spec_sample_max(bits));
                assert(spec_img_sample(a, y, 2 * x) != k0);
                assert(spec_pixels(a)[p] == spec_pixels(b)[p]);
            }
        }
    }
}


/// Rewrite binary-alpha transparency into a transparency key: fully
/// transparent pixels take an unused key color, the alpha channel is
/// dropped, and the key is recorded for the tRNS chunk. The key is searched
/// among colors with equal channels; when every such color is visible
/// somewhere the rewrite is declined, so success is stated one-sidedly.
#[verifier::rlimit(100)]
#[verifier::spinoff_prover]
pub fn reduced_alpha_to_trns(img: &PngImage) -> (r: Option<PngImage>)
    requires
        img_wf(img@),
    ensures
        match r {
            Some(out) => img_wf(out@) && out.ihdr.width == img.ihdr.width && out.ihdr.height
                == img.ihdr.height && out.ihdr.bit_depth == img.ihdr.bit_depth
                && out.ihdr.interlaced == img.ihdr.interlaced && !out.ihdr.color_type.has_alpha()
                && out.ihdr.color_type != ColorType::Indexed && out@.transparency is Some
                && out@.aux == img@.aux && spec_vis_equal(spec_pixels(img@), spec_pixels(out@)),
            None => true,
        },
{
    let new_ct = match img.ihdr.color_type {
        ColorType::RGBA => ColorType::RGB,
        ColorType::GrayscaleAlpha => ColorType::Grayscale,
        _ => {
            return Option::None;
        },
    };
    if !all_alpha_binary(img) {
        return Option::None;
    }
    if !any_transparent(img) {
        return Option::None;
    }
    let maxv: u16 = if img.ihdr.bit_depth.as_u8() == 16 {
        65535
    } else {
        255
    };
    proof {
        lemma_sample_max_values();
    }
    // search a key among the colors with equal channels
    let mut key: Option<u16> = Option::None;
    let mut k: u32 = 0;
    while k <= maxv as u32
        invariant
            img_wf(img@),
            img.ihdr.color_type == ColorType::RGBA || img.ihdr.color_type
                == ColorType::GrayscaleAlpha,
            maxv as nat == spec_sample_max(img.ihdr.bit_depth.spec_bits()),
            key matches Some(kk) ==> kk <= maxv && spec_key_free(
                img@,
                kk as nat,
                kk as nat,
                kk as nat,
            ),
        decreases maxv as u32 + 1 - k,
    {
        if key.is_none() && key_free(img, k as u16, k as u16, k as u16) {
            key = Some(k as u16);
        }
        k = k + 1;
    }
    let kk = match key {
        Some(kk) => kk,
        None => {
            return Option::None;
        },
    };
    let new_ihdr = IhdrData {
        width: img.ihdr.width,
        height: img.ihdr.height,
        color_type: new_ct,
        bit_depth: img.ihdr.bit_depth,
        interlaced: img.ihdr.interlaced,
    };
    proof {
        lemma_dims_ok_fewer_channels(img.ihdr, new_ihdr);
    }
    let h = new_ihdr.height as usize;
    let w = new_ihdr.width as usize;
    let cha = img.ihdr.color_type.channels() as usize;
    let chb = new_ihdr.color_type.channels() as usize;
    let rb = new_ihdr.rb();
    let bits = new_ihdr.bit_depth.as_u8();
    let total = new_ihdr.data_len();
    let mut out_data = crate::filters::zero_vec(total);
    let mut y: usize = 0;
    while y < h
        invariant
            y <= h,
            img_wf(img@),
            img.ihdr.color_type == ColorType::RGBA || img.ihdr.color_type
                == ColorType::GrayscaleAlpha,
            new_ihdr.spec_dims_ok(),
            new_ihdr.width == img.ihdr.width,
            new_ihdr.height == img.ihdr.height,
            new_ihdr.bit_depth == img.ihdr.bit_depth,
            chb == new_ihdr.color_type.spec_channels(),
            cha == img.ihdr.color_type.spec_channels(),
            chb + 1 == cha,
            1 <= chb <= 3,
            h == new_ihdr.height,
            w == new_ihdr.width,
            rb as nat == new_ihdr.spec_rb(),
            bits as nat == new_ihdr.bit_depth.spec_bits(),
            valid_bits(bits as nat),
            total as nat == new_ihdr.spec_data_len(),
            out_data.len() == total,
            kk <= spec_sample_max(bits as nat),
            forall|y2: int, x2: int, c: int|
                0 <= y2 < y && 0 <= x2 < w && 0 <= c < chb ==> #[trigger] spec_sample(
                    out_data@,
                    y2 * rb as int,
                    bits as nat,
                    chb as int * x2 + c,
                ) == (if spec_alpha_sample(img@, y2, x2) != 0 {
                    spec_img_sample(img@, y2, cha as int * x2 + c)
                } else {
                    kk as nat
                }),
        decreases h - y,
    {
        let mut x: usize = 0;
        while x < w
            invariant
                x <= w,
                y < h,
                img_wf(img@),
                img.ihdr.color_type == ColorType::RGBA || img.ihdr.color_type
                    == ColorType::GrayscaleAlpha,
                new_ihdr.spec_dims_ok(),
                new_ihdr.width == img.ihdr.width,
                new_ihdr.height == img.ihdr.height,
                new_ihdr.bit_depth == img.ihdr.bit_depth,
                chb == new_ihdr.color_type.spec_channels(),
                cha == img.ihdr.color_type.spec_channels(),
                chb + 1 == cha,
                1 <= chb <= 3,
                h == new_ihdr.height,
                w == new_ihdr.width,
                rb as nat == new_ihdr.spec_rb(),
                bits as nat == new_ihdr.bit_depth.spec_bits(),
                valid_bits(bits as nat),
                total as nat == new_ihdr.spec_data_len(),
                out_data.len() == total,
                kk <= spec_sample_max(bits as nat),
                forall|y2: int, x2: int, c: int|
                    0 <= y2 < y && 0 <= x2 < w && 0 <= c < chb ==> #[trigger] spec_sample(
                        out_data@,
                        y2 * rb as int,
                        bits as nat,
                        chb as int * x2 + c,
                    ) == (if spec_alpha_sample(img@, y2, x2) != 0 {
                        spec_img_sample(img@, y2, cha as int * x2 + c)
                    } else {
                        kk as nat
                    }),
                forall|x2: int, c: int|
                    0 <= x2 < x && 0 <= c < chb ==> #[trigger] spec_sample(
                        out_data@,
                        y * rb as int,
                        bits as nat,
                        chb as int * x2 + c,
                    ) == (if spec_alpha_sample(img@, y as int, x2) != 0 {
                        spec_img_sample(img@, y as int, cha as int * x2 + c)
                    } else {
                        kk as nat
                    }),
            decreases w - x,
        {
            proof {
                assert(cha * x + cha <= cha * w && cha as int * w == img.ihdr.spec_row_samples()
                    && cha * x + cha <= usize::MAX) by (nonlinear_arith)
                    requires
                        0 <= x < w,
                        cha >= 1,
                        img.ihdr.spec_row_samples() == img.ihdr.width as nat * cha,
                        w == img.ihdr.width,
                        img.ihdr.spec_row_samples() * img.ihdr.bit_depth.spec_bits() + 7
                            <= usize::MAX,
                        img.ihdr.bit_depth.spec_bits() >= 1,
                ;
            }
            let alpha = img.sample(y, cha * x + cha - 1);
            let mut c: usize = 0;
            while c < chb
                invariant
                    c <= chb,
                    x < w,
                    y < h,
                    img_wf(img@),
                    img.ihdr.color_type == ColorType::RGBA || img.ihdr.color_type
                        == ColorType::GrayscaleAlpha,
                    new_ihdr.spec_dims_ok(),
                    new_ihdr.width == img.ihdr.width,
                    new_ihdr.height == img.ihdr.height,
                    new_ihdr.bit_depth == img.ihdr.bit_depth,
                    chb == new_ihdr.color_type.spec_channels(),
                    cha == img.ihdr.color_type.spec_channels(),
                    chb + 1 == cha,
                    1 <= chb <= 3,
                    h == new_ihdr.height,
                    w == new_ihdr.width,
                    rb as nat == new_ihdr.spec_rb(),
                    bits as nat == new_ihdr.bit_depth.spec_bits(),
                    valid_bits(bits as nat),
                    total as nat == new_ihdr.spec_data_len(),
                    out_data.len() == total,
                    kk <= spec_sample_max(bits as nat),
                    cha * x + cha <= cha * w,
                    cha as int * w == img.ihdr.spec_row_samples(),
                    alpha as nat == spec_alpha_sample(img@, y as int, x as int),
                    forall|y2: int, x2: int, c2: int|
                        0 <= y2 < y && 0 <= x2 < w && 0 <= c2 < chb ==> #[trigger] spec_sample(
                            out_data@,
                            y2 * rb as int,
                            bits as nat,
                            chb as int * x2 + c2,
                        ) == (if spec_alpha_sample(img@, y2, x2) != 0 {
                            spec_img_sample(img@, y2, cha as int * x2 + c2)
                        } else {
                            kk as nat
                        }),
                    forall|x2: int, c2: int|
                        0 <= x2 < x && 0 <= c2 < chb ==> #[trigger] spec_sample(
                            out_data@,
                            y * rb as int,
                            bits as nat,
                            chb as int * x2 + c2,
                        ) == (if spec_alpha_sample(img@, y as int, x2) != 0 {
                            spec_img_sample(img@, y as int, cha as int * x2 + c2)
                        } else {
                            kk as nat
                        }),
                    forall|c2: int|
                        0 <= c2 < c ==> #[trigger] spec_sample(
                            out_data@,
                            y * rb as int,
                            bits as nat,
                            chb as int * (x as int) + c2,
                        ) == (if spec_alpha_sample(img@, y as int, x as int) != 0 {
                            spec_img_sample(img@, y as int, cha as int * (x as int) + c2)
                        } else {
                            kk as nat
                        }),
                decreases chb - c,
            {
                let v: u16 = if alpha != 0 {
                    img.sample(y, cha * x + c)
                } else {
                    kk
                };
                proof {
                    assert(0 <= chb as int * (x as int) + c < chb as int * w && chb as int * w
                        == new_ihdr.spec_row_samples() && chb * x + c <= usize::MAX)
                        by (nonlinear_arith)
                        requires
                            0 <= x < w,
                            0 <= c < chb,
                            new_ihdr.spec_row_samples() == new_ihdr.width as nat * chb,
                            w == new_ihdr.width,
                            new_ihdr.spec_row_samples() * new_ihdr.bit_depth.spec_bits() + 7
                                <= usize::MAX,
                            new_ihdr.bit_depth.spec_bits() >= 1,
                    ;
                    lemma_sample_in_row(new_ihdr.spec_row_samples(), bits as nat, chb as int * (
                    x as int) + c);
                    lemma_row_extent(y as int, h as int, rb as nat);
                    assert(h as nat * rb as nat == total) by (nonlinear_arith)
                        requires
                            total as nat == new_ihdr.spec_data_len(),
                            new_ihdr.spec_data_len() == new_ihdr.height as nat
                                * new_ihdr.spec_rb(),
                            rb as nat == new_ihdr.spec_rb(),
                            h == new_ihdr.height,
                    ;
                    if alpha != 0 {
                        lemma_sample_bound(
                            img@.data,
                            y * img.ihdr.spec_rb() as int,
                            bits as nat,
                            (cha * x + c) as int,
                        );
                    }
                }
                let i = chb * x + c;
                let ghost pre = out_data@;
                set_packed_sample(&mut out_data, y * rb, bits, i, v);
                proof {
                    assert forall|y2: int, x2: int, c2: int|
                        0 <= y2 < y && 0 <= x2 < w && 0 <= c2 < chb implies #[trigger] spec_sample(
                        out_data@,
                        y2 * rb as int,
                        bits as nat,
                        chb as int * x2 + c2,
                    ) == (if spec_alpha_sample(img@, y2, x2) != 0 {
                        spec_img_sample(img@, y2, cha as int * x2 + c2)
                    } else {
                        kk as nat
                    }) by {
                        assert(0 <= chb as int * x2 + c2 < chb as int * w) by (nonlinear_arith)
                            requires
                                0 <= x2 < w,
                                0 <= c2 < chb,
                        ;
                        lemma_sample_in_row(new_ihdr.spec_row_samples(), bits as nat, chb as int
                            * x2 + c2);
                        lemma_row_extent(y2, h as int, rb as nat);
                        assert(y2 * rb as int + spec_row_bytes(
                            new_ihdr.spec_row_samples(),
                            bits as nat,
                        ) <= y * rb + crate::bits::spec_sample_start(bits as nat, i as int) || y
                            * rb + crate::bits::spec_sample_end(bits as nat, i as int) <= y2 * rb
                            as int) by (nonlinear_arith)
                            requires
                                0 <= y2 < y,
                                0 <= crate::bits::spec_sample_start(bits as nat, i as int),
                                crate::bits::spec_sample_end(bits as nat, i as int) <= rb,
                                spec_row_bytes(new_ihdr.spec_row_samples(), bits as nat) == rb,
                        ;
                        lemma_sample_frame(pre, out_data@, y2 * rb as int, bits as nat, chb as int
                            * x2 + c2);
                    }
                    assert forall|x2: int, c2: int|
                        0 <= x2 < x && 0 <= c2 < chb implies #[trigger] spec_sample(
                        out_data@,
                        y * rb as int,
                        bits as nat,
                        chb as int * x2 + c2,
                    ) == (if spec_alpha_sample(img@, y as int, x2) != 0 {
                        spec_img_sample(img@, y as int, cha as int * x2 + c2)
                    } else {
                        kk as nat
                    }) by {
                        assert(0 <= chb as int * x2 + c2 && chb as int * x2 + c2 < chb as int * (
                        x as int) + c) by (nonlinear_arith)
                            requires
                                0 <= x2 < x,
                                0 <= c2 < chb,
                        ;
                        lemma_sample_in_row(new_ihdr.spec_row_samples(), bits as nat, chb as int
                            * x2 + c2);
                    }
                    assert forall|c2: int|
                        0 <= c2 < c + 1 implies #[trigger] spec_sample(
                        out_data@,
                        y * rb as int,
                        bits as nat,
                        chb as int * (x as int) + c2,
                    ) == (if spec_alpha_sample(img@, y as int, x as int) != 0 {
                        spec_img_sample(img@, y as int, cha as int * (x as int) + c2)
                    } else {
                        kk as nat
                    }) by {
                        if c2 < c {
                            lemma_sample_in_row(new_ihdr.spec_row_samples(), bits as nat, chb
                                as int * (x as int) + c2);
                        }
                    }
                }
                c = c + 1;
            }
            proof {
                assert forall|x2: int, c2: int|
                    0 <= x2 < x + 1 && 0 <= c2 < chb implies #[trigger] spec_sample(
                    out_data@,
                    y * rb as int,
                    bits as nat,
                    chb as int * x2 + c2,
                ) == (if spec_alpha_sample(img@, y as int, x2) != 0 {
                    spec_img_sample(img@, y as int, cha as int * x2 + c2)
                } else {
                    kk as nat
                }) by {
                    if x2 == x {
                        assert(spec_sample(out_data@, y * rb as int, bits as nat, chb as int * (
                        x as int) + c2) == (if spec_alpha_sample(img@, y as int, x as int) != 0 {
                            spec_img_sample(img@, y as int, cha as int * (x as int) + c2)
                        } else {
                            kk as nat
                        }));
                    }
                }
            }
            x = x + 1;
        }
        proof {
            assert forall|y2: int, x2: int, c2: int|
                0 <= y2 < y + 1 && 0 <= x2 < w && 0 <= c2 < chb implies #[trigger] spec_sample(
                out_data@,
                y2 * rb as int,
                bits as nat,
                chb as int * x2 + c2,
            ) == (if spec_alpha_sample(img@, y2, x2) != 0 {
                spec_img_sample(img@, y2, cha as int * x2 + c2)
            } else {
                kk as nat
            }) by {
                if y2 == y {
                    assert(spec_sample(out_data@, y * rb as int, bits as nat, chb as int * x2
                        + c2) == (if spec_alpha_sample(img@, y as int, x2) != 0 {
                        spec_img_sample(img@, y as int, cha as int * x2 + c2)
                    } else {
                        kk as nat
                    }));
                }
            }
        }
        y = y + 1;
    }
    // record the key for the transparency chunk
    proof {
        assert(kk >> 8 < 256 && (kk & 0xff) < 256) by (bit_vector);
    }
    let hi: u8 = (kk >> 8) as u8;
    let lo: u8 = (kk & 0xff) as u8;
    proof {
        assert(((kk >> 8) as u8) as nat * 256 + ((kk & 0xff) as u8) as nat == kk as nat)
            by (bit_vector);
    }
    let mut trns: Vec<u8> = Vec::new();
    if chb == 3 {
        trns.push(hi);
        trns.push(lo);
        trns.push(hi);
        trns.push(lo);
        trns.push(hi);
        trns.push(lo);
        proof {
            assert(trns@.len() == 6);
            assert(spec_trns_rgb(trns@) == (kk as nat, kk as nat, kk as nat));
        }
    } else {
        trns.push(hi);
        trns.push(lo);
        proof {
            assert(trns@.len() == 2);
            assert(spec_trns_gray(trns@) == kk as nat);
        }
    }
    let out = PngImage {
        ihdr: new_ihdr,
        data: out_data,
        palette: Option::None,
        transparency: Some(trns),
        aux_headers: aux_clone(&img.aux_headers),
    };
    proof {
        assert(out@.aux == img@.aux);
        assert(img_wf(out@));
        lemma_pixels_vis_to_trns(img@, out@, kk as nat, kk as nat, kk as nat);
    }
    Some(out)
}

} // verus!
