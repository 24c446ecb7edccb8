//! The structured image model: header, raw scanlines, palette, transparency
//! and auxiliary chunks, with the pixel semantics every transform preserves.

use vstd::prelude::*;
use crate::bits::{
    valid_bits, spec_row_bytes, row_bytes, spec_sample, spec_sample_start, spec_sample_end,
    spec_sample_max, get_packed_sample, set_packed_sample, lemma_sample_in_row, lemma_row_extent,
    lemma_sample_bound, lemma_sample_max_values,
};
use crate::colors::{BitDepth, ColorType, Rgba, spec_valid_depth};
use crate::error::{PngError, PngResult};
use crate::headers::{AuxHeaders, aux_entries, aux_clone, spec_is_critical};
use crate::interlace::Interlacing;

verus! {

/// The image header: dimensions, sample layout and interlacing.
#[derive(Clone, Copy, PartialEq, Eq, Structural, Debug)]
pub struct IhdrData {
    pub width: u32,
    pub height: u32,
    pub color_type: ColorType,
    pub bit_depth: BitDepth,
    pub interlaced: Interlacing,
}

impl IhdrData {
    /// Samples per scanline.
    pub open spec fn spec_row_samples(self) -> nat {
        self.width as nat * self.color_type.spec_channels()
    }

    /// Bytes per packed scanline.
    pub open spec fn spec_rb(self) -> nat {
        spec_row_bytes(self.spec_row_samples(), self.bit_depth.spec_bits())
    }

    /// Bytes of the whole deinterlaced raw buffer.
    pub open spec fn spec_data_len(self) -> nat {
        self.height as nat * self.spec_rb()
    }

    /// The header's dimensions are legal and its buffer fits in memory.
    pub open spec fn spec_dims_ok(self) -> bool {
        &&& 1 <= self.width <= 0x7fff_ffff
        &&& 1 <= self.height <= 0x7fff_ffff
        &&& self.spec_row_samples() * self.bit_depth.spec_bits() + 7 <= usize::MAX
        &&& self.spec_data_len() <= usize::MAX
    }

    pub fn row_samples(&self) -> (r: usize)
        requires
            self.spec_dims_ok(),
        ensures
            r as nat == self.spec_row_samples(),
    {
        (self.width as usize) * (self.color_type.channels() as usize)
    }

    pub fn rb(&self) -> (r: usize)
        requires
            self.spec_dims_ok(),
        ensures
            r as nat == self.spec_rb(),
    {
        row_bytes(self.row_samples(), self.bit_depth.as_u8())
    }

    pub fn data_len(&self) -> (r: usize)
        requires
            self.spec_dims_ok(),
        ensures
            r as nat == self.spec_data_len(),
    {
        let rb = self.rb();
        proof {
            assert((rb as u128) * (self.height as u128) < u128::MAX && (rb as u128) * (
            self.height as u128) == self.height as nat * rb as nat) by (nonlinear_arith)
                requires
                    rb <= usize::MAX,
                    self.height <= 0x7fff_ffff,
            ;
        }
        let rb128 = (rb as u128) * (self.height as u128);
        rb128 as usize
    }

    /// Whether the header's dimensions are legal and its buffers fit in
    /// memory.
    pub fn dims_ok(&self) -> (r: bool)
        ensures
            r == self.spec_dims_ok(),
    {
        let w = self.width as u128;
        let h = self.height as u128;
        let ch = self.color_type.channels() as u128;
        let bits = self.bit_depth.as_u8() as u128;
        proof {
            assert(w * ch == self.spec_row_samples() && w * ch < 0x1_0000_0000_0000u128)
                by (nonlinear_arith)
                requires
                    w == self.width as u128,
                    ch == self.color_type.spec_channels(),
                    ch <= 4,
                    w < 0x1_0000_0000u128,
                    self.spec_row_samples() == self.width as nat * self.color_type.spec_channels(),
            ;
        }
        let n = w * ch;
        proof {
            assert(n * bits < 0x1_0000_0000_0000_0000u128 && n * bits == self.spec_row_samples()
                * self.bit_depth.spec_bits()) by (nonlinear_arith)
                requires
                    n < 0x1_0000_0000_0000u128,
                    bits <= 16,
                    n == self.spec_row_samples(),
                    bits == self.bit_depth.spec_bits(),
            ;
        }
        let rb = (n * bits + 7) / 8;
        proof {
            assert(h * rb < u128::MAX && h * rb == self.height as nat * self.spec_rb())
                by (nonlinear_arith)
                requires
                    h < 0x1_0000_0000u128,
                    rb < 0x1_0000_0000_0000_0000u128,
                    h == self.height as nat,
                    rb == self.spec_rb(),
            ;
        }
        1 <= self.width && self.width <= 0x7fff_ffff && 1 <= self.height && self.height
            <= 0x7fff_ffff && n * bits + 7 <= usize::MAX as u128 && h * rb <= usize::MAX as u128
    }
}

/// A decoded image: an immutable value whose scanlines are stored unfiltered
/// and deinterlaced.
pub struct PngImage {
    pub ihdr: IhdrData,
    pub data: Vec<u8>,
    pub palette: Option<Vec<Rgba>>,
    pub transparency: Option<Vec<u8>>,
    pub aux_headers: AuxHeaders,
}

/// The mathematical value of a `PngImage`.
pub ghost struct PngImageV {
    pub ihdr: IhdrData,
    pub data: Seq<u8>,
    pub palette: Option<Seq<Rgba>>,
    pub transparency: Option<Seq<u8>>,
    pub aux: Seq<(u32, Seq<u8>)>,
}

impl View for PngImage {
    type V = PngImageV;

    open spec fn view(&self) -> PngImageV {
        PngImageV {
            ihdr: self.ihdr,
            data: self.data@,
            palette: match self.palette {
                Some(p) => Some(p@),
                None => None,
            },
            transparency: match self.transparency {
                Some(t) => Some(t@),
                None => None,
            },
            aux: aux_entries(self.aux_headers),
        }
    }
}

/// The value of sample `i` of row `y`.
pub open spec fn spec_img_sample(v: PngImageV, y: int, i: int) -> nat {
    spec_sample(v.data, y * v.ihdr.spec_rb() as int, v.ihdr.bit_depth.spec_bits(), i)
}

/// Well-formedness of an image value. Every image the engine holds satisfies
/// this; every transform preserves it.
pub open spec fn img_wf(v: PngImageV) -> bool {
    &&& spec_valid_depth(v.ihdr.color_type, v.ihdr.bit_depth)
    &&& v.ihdr.spec_dims_ok()
    &&& v.data.len() == v.ihdr.spec_data_len()
    &&& (v.ihdr.color_type == ColorType::Indexed <==> v.palette is Some)
    &&& match v.palette {
        Some(p) => 1 <= p.len() <= 256,
        None => true,
    }
    &&& (v.ihdr.color_type == ColorType::Indexed ==> forall|y: int, i: int|
        0 <= y < v.ihdr.height && 0 <= i < v.ihdr.spec_row_samples() ==> spec_img_sample(v, y, i)
            < v.palette.unwrap().len())
    &&& match v.transparency {
        Some(t) => (v.ihdr.color_type == ColorType::Grayscale && t.len() == 2) || (
        v.ihdr.color_type == ColorType::RGB && t.len() == 6),
        None => true,
    }
    &&& forall|j: int| 0 <= j < v.aux.len() ==> !spec_is_critical(#[trigger] v.aux[j].0)
    &&& forall|j: int, k: int| 0 <= j < k < v.aux.len() ==> v.aux[j].0 != v.aux[k].0
    &&& forall|j: int| 0 <= j < v.aux.len() ==> (#[trigger] v.aux[j].1).len() <= 0x7fff_ffff
}

impl PngImage {
    /// Read sample `i` of row `y`.
    pub fn sample(&self, y: usize, i: usize) -> (v: u16)
        requires
            img_wf(self@),
            y < self.ihdr.height,
            i < self.ihdr.spec_row_samples(),
        ensures
            v as nat == spec_img_sample(self@, y as int, i as int),
            v as nat <= spec_sample_max(self.ihdr.bit_depth.spec_bits()),
    {
        let rb = self.ihdr.rb();
        proof {
            lemma_row_extent(y as int, self.ihdr.height as int, self.ihdr.spec_rb());
            lemma_sample_in_row(
                self.ihdr.spec_row_samples(),
                self.ihdr.bit_depth.spec_bits(),
                i as int,
            );
            lemma_sample_bound(
                self.data@,
                y as int * self.ihdr.spec_rb() as int,
                self.ihdr.bit_depth.spec_bits(),
                i as int,
            );
        }
        get_packed_sample(&self.data, y * rb, self.ihdr.bit_depth.as_u8(), i)
    }
}

impl Clone for PngImage {
    fn clone(&self) -> (r: Self)
        ensures
            r@ == self@,
    {
        let r = PngImage {
            ihdr: self.ihdr,
            data: clone_bytes(&self.data),
            palette: match &self.palette {
                Some(p) => Some(clone_palette(p)),
                None => None,
            },
            transparency: match &self.transparency {
                Some(t) => Some(clone_bytes(t)),
                None => None,
            },
            aux_headers: aux_clone(&self.aux_headers),
        };
        proof {
            assert(r@ == self@);
        }
        r
    }
}

/// Copy a byte vector.
pub fn clone_bytes(v: &Vec<u8>) -> (r: Vec<u8>)
    ensures
        r@ == v@,
{
    let r = v.clone();
    proof {
        assert(r@ =~= v@);
    }
    r
}

/// Copy a palette.
pub fn clone_palette(v: &Vec<Rgba>) -> (r: Vec<Rgba>)
    ensures
        r@ == v@,
{
    let r = v.clone();
    proof {
        assert(r@ =~= v@);
    }
    r
}

/// An image together with its encoded form: the compressed IDAT payload and
/// the filtered scanline stream it inflates to.
pub struct PngData {
    pub raw: PngImage,
    pub idat_data: Vec<u8>,
    pub filtered: Vec<u8>,
}

impl Clone for PngData {
    fn clone(&self) -> (r: Self)
        ensures
            r.raw@ == self.raw@,
            r.idat_data@ == self.idat_data@,
            r.filtered@ == self.filtered@,
    {
        PngData {
            raw: self.raw.clone(),
            idat_data: clone_bytes(&self.idat_data),
            filtered: clone_bytes(&self.filtered),
        }
    }
}

/// One pixel, normalized to 16 bits per channel.
pub ghost struct Pixel {
    pub r: nat,
    pub g: nat,
    pub b: nat,
    pub a: nat,
}

/// Widen a sample to the 16-bit range by bit replication, the PNG-defined
/// scaling under which every lossless depth change preserves intensity.
pub open spec fn scale16(v: nat, bits: nat) -> nat {
    if bits == 16 {
        v
    } else if bits == 8 {
        v * 257
    } else if bits == 4 {
        v * 4369
    } else if bits == 2 {
        v * 21845
    } else {
        v * 65535
    }
}

/// The 16-bit gray transparency key.
pub open spec fn spec_trns_gray(t: Seq<u8>) -> nat {
    t[0] as nat * 256 + t[1] as nat
}

/// The 16-bit RGB transparency key.
pub open spec fn spec_trns_rgb(t: Seq<u8>) -> (nat, nat, nat) {
    (t[0] as nat * 256 + t[1] as nat, t[2] as nat * 256 + t[3] as nat, t[4] as nat * 256 + t[
        5
    ] as nat)
}

/// The pixel at column `x` of row `y`, decoded to normalized RGBA.
pub open spec fn spec_pixel(v: PngImageV, y: int, x: int) -> Pixel {
    let bits = v.ihdr.bit_depth.spec_bits();
    match v.ihdr.color_type {
        ColorType::Grayscale => {
            let g = spec_img_sample(v, y, x);
            let a: nat = match v.transparency {
                Some(t) => if g == spec_trns_gray(t) {
                    0
                } else {
                    65535
                },
                None => 65535,
            };
            Pixel { r: scale16(g, bits), g: scale16(g, bits), b: scale16(g, bits), a }
        }
        ColorType::RGB => {
            let r = spec_img_sample(v, y, 3 * x);
            let g = spec_img_sample(v, y, 3 * x + 1);
            let b = spec_img_sample(v, y, 3 * x + 2);
            let a: nat = match v.transparency {
                Some(t) => if spec_trns_rgb(t) == (r, g, b) {
                    0
                } else {
                    65535
                },
                None => 65535,
            };
            Pixel { r: scale16(r, bits), g: scale16(g, bits), b: scale16(b, bits), a }
        }
        ColorType::Indexed => {
            let e = v.palette.unwrap()[spec_img_sample(v, y, x) as int];
            Pixel { r: e.r as nat * 257, g: e.g as nat * 257, b: e.b as nat * 257, a: e.a as nat * 257 }
        }
        ColorType::GrayscaleAlpha => {
            let g = spec_img_sample(v, y, 2 * x);
            let a = spec_img_sample(v, y, 2 * x + 1);
            Pixel { r: scale16(g, bits), g: scale16(g, bits), b: scale16(g, bits), a: scale16(a, bits) }
        }
        ColorType::RGBA => {
            let r = spec_img_sample(v, y, 4 * x);
            let g = spec_img_sample(v, y, 4 * x + 1);
            let b = spec_img_sample(v, y, 4 * x + 2);
            let a = spec_img_sample(v, y, 4 * x + 3);
            Pixel {
                r: scale16(r, bits),
                g: scale16(g, bits),
                b: scale16(b, bits),
                a: scale16(a, bits),
            }
        }
    }
}

/// All pixels in row-major order.
pub open spec fn spec_pixels(v: PngImageV) -> Seq<Pixel> {
    Seq::new(
        v.ihdr.height as nat * v.ihdr.width as nat,
        |p: int| spec_pixel(v, p / v.ihdr.width as int, p % v.ihdr.width as int),
    )
}

/// Pixel equivalence under the alpha-visibility rule: pixels fully
/// transparent on both sides may differ in color.
pub open spec fn spec_vis_equal(a: Seq<Pixel>, b: Seq<Pixel>) -> bool {
    &&& a.len() == b.len()
    &&& forall|p: int|
        #![trigger a[p], b[p]]
        0 <= p < a.len() ==> (a[p] == b[p] || (a[p].a == 0 && b[p].a == 0))
}


/// Big-endian 32-bit read at `pos`.
pub open spec fn spec_u32_be(b: Seq<u8>, pos: int) -> u32 {
    (b[pos] as u32 * 0x100_0000 + b[pos + 1] as u32 * 0x1_0000 + b[pos + 2] as u32 * 0x100 + b[pos
        + 3] as u32) as u32
}

/// The four big-endian bytes of a 32-bit value.
pub open spec fn spec_be_bytes(v: u32) -> Seq<u8> {
    seq![
        (v / 0x100_0000) as u8,
        ((v / 0x1_0000) % 0x100) as u8,
        ((v / 0x100) % 0x100) as u8,
        (v % 0x100) as u8,
    ]
}

/// Writing then reading a 32-bit value is the identity.
pub proof fn lemma_be_round_trip(v: u32)
    ensures
        spec_u32_be(spec_be_bytes(v), 0) == v,
{
    assert(v / 0x100_0000 * 0x100_0000 + (v / 0x1_0000) % 0x100 * 0x1_0000 + (v / 0x100) % 0x100
        * 0x100 + v % 0x100 == v) by (bit_vector);
}

pub fn read_u32_be(b: &[u8], pos: usize) -> (r: u32)
    requires
        pos + 4 <= b.len(),
    ensures
        r == spec_u32_be(b@, pos as int),
{
    (b[pos] as u32) * 0x100_0000 + (b[pos + 1] as u32) * 0x1_0000 + (b[pos + 2] as u32) * 0x100 + (
    b[pos + 3] as u32)
}

pub fn push_u32_be(out: &mut Vec<u8>, v: u32)
    ensures
        final(out)@ == old(out)@ + spec_be_bytes(v),
{
    proof {
        assert(v / 0x100_0000 < 0x100 && (v / 0x1_0000) % 0x100 < 0x100 && (v / 0x100) % 0x100
            < 0x100 && v % 0x100 < 0x100) by (bit_vector);
    }
    out.push((v / 0x100_0000) as u8);
    out.push(((v / 0x1_0000) % 0x100) as u8);
    out.push(((v / 0x100) % 0x100) as u8);
    out.push((v % 0x100) as u8);
    proof {
        assert(out@ =~= old(out)@ + spec_be_bytes(v));
    }
}

/// The PNG signature.
pub open spec fn spec_signature() -> Seq<u8> {
    seq![0x89u8, 0x50u8, 0x4Eu8, 0x47u8, 0x0Du8, 0x0Au8, 0x1Au8, 0x0Au8]
}

/// The chunk list serialized in a PNG byte stream from `pos` on: each chunk
/// is its length, name, payload and CRC over name and payload; the list ends
/// at the first IEND chunk. `strict` demands every CRC correct.
pub open spec fn spec_parse_chunks(b: Seq<u8>, pos: int, strict: bool) -> Option<
    Seq<(u32, Seq<u8>)>,
>
    decreases b.len() - pos,
{
    if pos < 0 || pos + 12 > b.len() {
        None
    } else {
        let len = spec_u32_be(b, pos) as int;
        let name = spec_u32_be(b, pos + 4);
        if len > 0x7fff_ffff || pos + 12 + len > b.len() {
            None
        } else if strict && spec_u32_be(b, pos + 8 + len) != crate::crc::spec_crc32(
            b.subrange(pos + 4, pos + 8 + len),
        ) {
            None
        } else {
            let payload = b.subrange(pos + 8, pos + 8 + len);
            if name == crate::headers::CHUNK_IEND {
                Some(seq![(name, payload)])
            } else {
                match spec_parse_chunks(b, pos + 12 + len, strict) {
                    Some(rest) => Some(seq![(name, payload)] + rest),
                    None => None,
                }
            }
        }
    }
}

/// Parse the chunk list of a PNG stream. In strict mode a wrong checksum is
/// an error naming the chunk; with `fix_errors` checksums are ignored.
pub fn parse_chunks(b: &[u8], fix_errors: bool) -> (r: Result<Vec<(u32, Vec<u8>)>, PngError>)
    requires
        b.len() >= 8,
    ensures
        match r {
            Ok(chunks) => spec_parse_chunks(b@, 8, !fix_errors) == Some(
                Seq::new(chunks.len() as nat, |i: int| (chunks[i].0, chunks[i].1@)),
            ),
            Err(e) => (e matches PngError::TruncatedChunk || e matches PngError::BadCrc(_))
                && spec_parse_chunks(b@, 8, !fix_errors) is None && (e matches PngError::BadCrc(_)
                ==> !fix_errors) && (e matches PngError::TruncatedChunk ==> spec_parse_chunks(
                b@,
                8,
                false,
            ) is None),
        },
{
    let mut chunks: Vec<(u32, Vec<u8>)> = Vec::new();
    let mut pos: usize = 8;
    loop
        invariant
            8 <= pos <= b.len(),
            spec_parse_chunks(b@, pos as int, !fix_errors) matches Some(rest)
                ==> spec_parse_chunks(b@, 8, !fix_errors) == Some(
                Seq::new(chunks.len() as nat, |i: int| (chunks[i].0, chunks[i].1@)) + rest,
            ),
            spec_parse_chunks(b@, pos as int, !fix_errors) is None ==> spec_parse_chunks(
                b@,
                8,
                !fix_errors,
            ) is None,
            spec_parse_chunks(b@, pos as int, false) is None ==> spec_parse_chunks(
                b@,
                8,
                false,
            ) is None,
            forall|i: int| 0 <= i < chunks.len() ==> (#[trigger] chunks@[i]).0 != crate::headers::CHUNK_IEND,
        decreases b.len() - pos,
    {
        if b.len() - pos < 12 {
            return Err(PngError::TruncatedChunk);
        }
        let len = read_u32_be(b, pos);
        if len > 0x7fff_ffff || len as usize > b.len() - pos - 12 {
            return Err(PngError::TruncatedChunk);
        }
        let len = len as usize;
        let name = read_u32_be(b, pos + 4);
        if !fix_errors {
            let crc_stored = read_u32_be(b, pos + 8 + len);
            let crc_actual = crate::crc::crc32_range(b, pos + 4, pos + 8 + len);
            if crc_stored != crc_actual {
                return Err(PngError::BadCrc(name));
            }
        }
        let payload = copy_slice_range(b, pos + 8, len);
        let ghost old_chunks = Seq::new(chunks.len() as nat, |i: int| (chunks@[i].0, chunks@[i].1@));
        chunks.push((name, payload));
        proof {
            let new_chunks = Seq::new(
                chunks.len() as nat,
                |i: int| (chunks@[i].0, chunks@[i].1@),
            );
            assert(new_chunks =~= old_chunks + seq![(name, payload@)]);
        }
        if name == crate::headers::CHUNK_IEND {
            proof {
                let here = spec_parse_chunks(b@, pos as int, !fix_errors);
                assert(here == Some(seq![(name, payload@)]));
                let new_chunks = Seq::new(
                    chunks.len() as nat,
                    |i: int| (chunks@[i].0, chunks@[i].1@),
                );
                assert(old_chunks + seq![(name, payload@)] =~= new_chunks);
            }
            return Ok(chunks);
        }
        proof {
            let next = spec_parse_chunks(b@, pos + 12 + len, !fix_errors);
            if next is None {
                assert(spec_parse_chunks(b@, pos as int, !fix_errors) is None);
            }
            if spec_parse_chunks(b@, pos + 12 + len, false) is None {
                assert(spec_parse_chunks(b@, pos as int, false) is None);
            }
            if next is Some {
                let rest = next.unwrap();
                assert(spec_parse_chunks(b@, pos as int, !fix_errors) == Some(
                    seq![(name, payload@)] + rest,
                ));
                assert(old_chunks + (seq![(name, payload@)] + rest) =~= Seq::new(
                    chunks.len() as nat,
                    |i: int| (chunks@[i].0, chunks@[i].1@),
                ) + rest);
            }
        }
        pos = pos + 12 + len;
    }
}

/// Every payload in a parsed chunk list respects the length cap.
pub proof fn lemma_parse_chunk_lens(b: Seq<u8>, pos: int, strict: bool)
    requires
        spec_parse_chunks(b, pos, strict) is Some,
    ensures
        forall|j: int|
            0 <= j < spec_parse_chunks(b, pos, strict).unwrap().len() ==> (
            #[trigger] spec_parse_chunks(b, pos, strict).unwrap()[j].1).len() <= 0x7fff_ffff,
    decreases b.len() - pos,
{
    let cl = spec_parse_chunks(b, pos, strict).unwrap();
    let len = spec_u32_be(b, pos) as int;
    let name = spec_u32_be(b, pos + 4);
    if name == crate::headers::CHUNK_IEND {
    } else {
        lemma_parse_chunk_lens(b, pos + 12 + len, strict);
        let rest = spec_parse_chunks(b, pos + 12 + len, strict).unwrap();
        assert forall|j: int| 0 <= j < cl.len() implies (#[trigger] cl[j].1).len()
            <= 0x7fff_ffff by {
            if j > 0 {
                assert(cl[j] == rest[j - 1]);
            }
        }
    }
}

/// Copy `len` bytes of a slice from `start`.
pub fn copy_slice_range(b: &[u8], start: usize, len: usize) -> (r: Vec<u8>)
    requires
        start + len <= b.len(),
    ensures
        r@ == b@.subrange(start as int, start + len),
{
    let mut out: Vec<u8> = Vec::new();
    let mut j: usize = 0;
    while j < len
        invariant
            j <= len,
            start + len <= b.len(),
            out@ == b@.subrange(start as int, start + j),
        decreases len - j,
    {
        out.push(b[start + j]);
        proof {
            assert(out@ =~= b@.subrange(start as int, start + j + 1));
        }
        j = j + 1;
    }
    out
}

/// Whether the input begins with the PNG signature.
pub fn check_signature(b: &[u8]) -> (r: bool)
    ensures
        r == (b@.len() >= 8 && b@.subrange(0, 8) == spec_signature()),
{
    if b.len() < 8 {
        return false;
    }
    let ok = b[0] == 0x89 && b[1] == 0x50 && b[2] == 0x4E && b[3] == 0x47 && b[4] == 0x0D && b[5]
        == 0x0A && b[6] == 0x1A && b[7] == 0x0A;
    proof {
        if ok {
            assert(b@.subrange(0, 8) =~= spec_signature());
        } else {
            assert(b@.subrange(0, 8) != spec_signature()) by {
                if b@.subrange(0, 8) == spec_signature() {
                    assert(b@[0] == 0x89 && b@[1] == 0x50 && b@[2] == 0x4E && b@[3] == 0x47
                        && b@[4] == 0x0D && b@[5] == 0x0A && b@[6] == 0x1A && b@[7] == 0x0A);
                }
            }
        }
    }
    ok
}


/// The IHDR payload, parsed: 13 bytes holding dimensions, depth, color
/// type, the fixed compression and filter methods, and the interlace flag.
pub open spec fn spec_parse_ihdr(p: Seq<u8>) -> Option<IhdrData> {
    if p.len() != 13 {
        None
    } else {
        let w = spec_u32_be(p, 0);
        let h = spec_u32_be(p, 4);
        if w < 1 || w > 0x7fff_ffff || h < 1 || h > 0x7fff_ffff || p[10] != 0 || p[11] != 0 {
            None
        } else {
            match (spec_bit_depth_of(p[8]), spec_color_type_of(p[9]), spec_interlacing_of(p[12])) {
                (Some(d), Some(ct), Some(il)) => if spec_valid_depth(ct, d) {
                    Some(
                        IhdrData {
                            width: w,
                            height: h,
                            color_type: ct,
                            bit_depth: d,
                            interlaced: il,
                        },
                    )
                } else {
                    None
                },
                _ => None,
            }
        }
    }
}

pub open spec fn spec_bit_depth_of(b: u8) -> Option<BitDepth> {
    if b == 1 {
        Some(BitDepth::One)
    } else if b == 2 {
        Some(BitDepth::Two)
    } else if b == 4 {
        Some(BitDepth::Four)
    } else if b == 8 {
        Some(BitDepth::Eight)
    } else if b == 16 {
        Some(BitDepth::Sixteen)
    } else {
        None
    }
}

pub open spec fn spec_color_type_of(b: u8) -> Option<ColorType> {
    if b == 0 {
        Some(ColorType::Grayscale)
    } else if b == 2 {
        Some(ColorType::RGB)
    } else if b == 3 {
        Some(ColorType::Indexed)
    } else if b == 4 {
        Some(ColorType::GrayscaleAlpha)
    } else if b == 6 {
        Some(ColorType::RGBA)
    } else {
        None
    }
}

pub open spec fn spec_interlacing_of(b: u8) -> Option<Interlacing> {
    if b == 0 {
        Some(Interlacing::Standard)
    } else if b == 1 {
        Some(Interlacing::Adam7)
    } else {
        None
    }
}

pub fn parse_ihdr(p: &Vec<u8>) -> (r: Option<IhdrData>)
    ensures
        r == spec_parse_ihdr(p@),
{
    if p.len() != 13 {
        return Option::None;
    }
    let w = read_u32_be(p.as_slice(), 0);
    let h = read_u32_be(p.as_slice(), 4);
    if w < 1 || w > 0x7fff_ffff || h < 1 || h > 0x7fff_ffff || p[10] != 0 || p[11] != 0 {
        return Option::None;
    }
    let d = match BitDepth::from_u8(p[8]) {
        Some(d) => d,
        None => {
            proof {
                assert(BitDepth::One.spec_bits() == 1 && BitDepth::Two.spec_bits() == 2
                    && BitDepth::Four.spec_bits() == 4 && BitDepth::Eight.spec_bits() == 8
                    && BitDepth::Sixteen.spec_bits() == 16);
                assert(spec_bit_depth_of(p@[8]) is None);
            }
            return Option::None;
        },
    };
    let ct = match ColorType::from_png_code(p[9]) {
        Some(c) => c,
        None => {
            proof {
                assert(ColorType::Grayscale.spec_png_code() == 0 && ColorType::RGB.spec_png_code()
                    == 2 && ColorType::Indexed.spec_png_code() == 3
                    && ColorType::GrayscaleAlpha.spec_png_code() == 4
                    && ColorType::RGBA.spec_png_code() == 6);
                assert(spec_color_type_of(p@[9]) is None);
            }
            return Option::None;
        },
    };
    let il = if p[12] == 0 {
        Interlacing::Standard
    } else if p[12] == 1 {
        Interlacing::Adam7
    } else {
        return Option::None;
    };
    if !crate::colors::valid_depth(ct, d) {
        return Option::None;
    }
    proof {
        assert(spec_bit_depth_of(p@[8]) == Some(d));
        assert(spec_color_type_of(p@[9]) == Some(ct));
    }
    Some(IhdrData { width: w, height: h, color_type: ct, bit_depth: d, interlaced: il })
}

/// The concatenation of every IDAT payload, in order.
pub open spec fn spec_idat_concat(chunks: Seq<(u32, Seq<u8>)>) -> Seq<u8>
    decreases chunks.len(),
{
    if chunks.len() == 0 {
        Seq::empty()
    } else {
        (if chunks.first().0 == crate::headers::CHUNK_IDAT {
            chunks.first().1
        } else {
            Seq::empty()
        }) + spec_idat_concat(chunks.drop_first())
    }
}

pub proof fn lemma_idat_concat_snoc(chunks: Seq<(u32, Seq<u8>)>, x: (u32, Seq<u8>))
    ensures
        spec_idat_concat(chunks.push(x)) == spec_idat_concat(chunks) + (if x.0
            == crate::headers::CHUNK_IDAT {
            x.1
        } else {
            Seq::<u8>::empty()
        }),
    decreases chunks.len(),
{
    let tail = if x.0 == crate::headers::CHUNK_IDAT {
        x.1
    } else {
        Seq::<u8>::empty()
    };
    if chunks.len() == 0 {
        assert(chunks.push(x).first() == x);
        assert(chunks.push(x).drop_first() =~= Seq::<(u32, Seq<u8>)>::empty());
        assert(spec_idat_concat(Seq::<(u32, Seq<u8>)>::empty()) == Seq::<u8>::empty());
        assert(spec_idat_concat(chunks.push(x)) =~= spec_idat_concat(chunks) + tail);
    } else {
        assert(chunks.push(x).first() == chunks.first());
        assert(chunks.push(x).drop_first() =~= chunks.drop_first().push(x));
        lemma_idat_concat_snoc(chunks.drop_first(), x);
        assert(spec_idat_concat(chunks.push(x)) =~= spec_idat_concat(chunks) + tail);
    }
}

pub proof fn lemma_lookup_snoc(s: Seq<(u32, Seq<u8>)>, x: (u32, Seq<u8>), k: u32)
    ensures
        crate::headers::spec_aux_lookup(s.push(x), k) == (match crate::headers::spec_aux_lookup(
            s,
            k,
        ) {
            Some(v) => Some(v),
            None => if x.0 == k {
                Some(x.1)
            } else {
                None
            },
        }),
    decreases s.len(),
{
    if s.len() == 0 {
        assert(s.push(x).first() == x);
        assert(s.push(x).drop_first() =~= Seq::<(u32, Seq<u8>)>::empty());
        assert(crate::headers::spec_aux_lookup(s, k) is None);
        assert(crate::headers::spec_aux_lookup(s.push(x), k) == (if x.0 == k {
            Some(x.1)
        } else {
            crate::headers::spec_aux_lookup(s.push(x).drop_first(), k)
        }));
        assert(crate::headers::spec_aux_lookup(Seq::<(u32, Seq<u8>)>::empty(), k) is None);
    } else {
        assert(s.push(x).first() == s.first());
        assert(s.push(x).drop_first() =~= s.drop_first().push(x));
        lemma_lookup_snoc(s.drop_first(), x, k);
        assert(crate::headers::spec_aux_lookup(s.push(x), k) == (if s.first().0 == k {
            Some(s.first().1)
        } else {
            crate::headers::spec_aux_lookup(s.drop_first().push(x), k)
        }));
        assert(crate::headers::spec_aux_lookup(s, k) == (if s.first().0 == k {
            Some(s.first().1)
        } else {
            crate::headers::spec_aux_lookup(s.drop_first(), k)
        }));
    }
}

/// The auxiliary chunk list that results from inserting every non-critical
/// chunk in order.
pub open spec fn spec_aux_fold(chunks: Seq<(u32, Seq<u8>)>, acc: Seq<(u32, Seq<u8>)>) -> Seq<
    (u32, Seq<u8>),
>
    decreases chunks.len(),
{
    if chunks.len() == 0 {
        acc
    } else {
        spec_aux_fold(
            chunks.drop_first(),
            if spec_is_critical(chunks.first().0) {
                acc
            } else {
                crate::headers::spec_aux_insert(acc, chunks.first().0, chunks.first().1)
            },
        )
    }
}

pub proof fn lemma_aux_fold_snoc(chunks: Seq<(u32, Seq<u8>)>, x: (u32, Seq<u8>), acc: Seq<
    (u32, Seq<u8>),
>)
    ensures
        spec_aux_fold(chunks.push(x), acc) == (if spec_is_critical(x.0) {
            spec_aux_fold(chunks, acc)
        } else {
            crate::headers::spec_aux_insert(spec_aux_fold(chunks, acc), x.0, x.1)
        }),
    decreases chunks.len(),
{
    if chunks.len() == 0 {
        assert(chunks.push(x).first() == x);
        assert(chunks.push(x).drop_first() =~= Seq::<(u32, Seq<u8>)>::empty());
        let acc1 = if spec_is_critical(x.0) {
            acc
        } else {
            crate::headers::spec_aux_insert(acc, x.0, x.1)
        };
        assert(spec_aux_fold(chunks.push(x), acc) == spec_aux_fold(
            chunks.push(x).drop_first(),
            acc1,
        ));
        assert(spec_aux_fold(Seq::<(u32, Seq<u8>)>::empty(), acc1) == acc1);
        assert(spec_aux_fold(chunks, acc) == acc);
    } else {
        assert(chunks.push(x).first() == chunks.first());
        assert(chunks.push(x).drop_first() =~= chunks.drop_first().push(x));
        let acc1 = if spec_is_critical(chunks.first().0) {
            acc
        } else {
            crate::headers::spec_aux_insert(acc, chunks.first().0, chunks.first().1)
        };
        lemma_aux_fold_snoc(chunks.drop_first(), x, acc1);
        assert(spec_aux_fold(chunks.push(x), acc) == spec_aux_fold(
            chunks.drop_first().push(x),
            acc1,
        ));
        assert(spec_aux_fold(chunks, acc) == spec_aux_fold(chunks.drop_first(), acc1));
    }
}

/// Inserting a non-critical name keeps an auxiliary list well formed.
pub proof fn lemma_aux_insert_wf(acc: Seq<(u32, Seq<u8>)>, k: u32, v: Seq<u8>)
    requires
        !spec_is_critical(k),
        forall|j: int| 0 <= j < acc.len() ==> !spec_is_critical(#[trigger] acc[j].0),
        forall|j: int, l: int| 0 <= j < l < acc.len() ==> acc[j].0 != acc[l].0,
    ensures
        forall|j: int|
            0 <= j < crate::headers::spec_aux_insert(acc, k, v).len() ==> !spec_is_critical(
                #[trigger] crate::headers::spec_aux_insert(acc, k, v)[j].0,
            ),
        forall|j: int, l: int|
            0 <= j < l < crate::headers::spec_aux_insert(acc, k, v).len()
                ==> crate::headers::spec_aux_insert(acc, k, v)[j].0
                != crate::headers::spec_aux_insert(acc, k, v)[l].0,
    decreases acc.len(),
{
    let out = crate::headers::spec_aux_insert(acc, k, v);
    if acc.len() == 0 {
    } else if acc.first().0 == k {
        assert(out =~= seq![(k, v)] + acc.drop_first());
        assert forall|j: int, l: int| 0 <= j < l < out.len() implies out[j].0 != out[l].0 by {
            assert(out[j].0 == acc[j].0 && out[l].0 == acc[l].0);
        }
    } else {
        lemma_aux_insert_wf(acc.drop_first(), k, v);
        let sub = crate::headers::spec_aux_insert(acc.drop_first(), k, v);
        assert(out =~= seq![acc.first()] + sub);
        assert forall|j: int, l: int| 0 <= j < l < out.len() implies out[j].0 != out[l].0 by {
            if j == 0 {
                assert(out[l].0 == sub[l - 1].0);
                assert forall|m: int| 0 <= m < sub.len() implies sub[m].0 == k || (exists|q: int|
                    1 <= q < acc.len() && sub[m].0 == acc[q].0) by {
                    lemma_aux_insert_names(acc.drop_first(), k, v, m);
                }
                assert(out[0].0 != out[l].0);
            }
        }
    }
}

/// Every name in an inserted list is the new key or one of the old names.
proof fn lemma_aux_insert_names(acc: Seq<(u32, Seq<u8>)>, k: u32, v: Seq<u8>, m: int)
    requires
        0 <= m < crate::headers::spec_aux_insert(acc, k, v).len(),
    ensures
        crate::headers::spec_aux_insert(acc, k, v)[m].0 == k || (exists|q: int|
            0 <= q < acc.len() && crate::headers::spec_aux_insert(acc, k, v)[m].0 == acc[q].0),
    decreases acc.len(),
{
    let out = crate::headers::spec_aux_insert(acc, k, v);
    if acc.len() == 0 {
    } else if acc.first().0 == k {
        if m > 0 {
            assert(out[m] == acc[m]);
        }
    } else {
        if m == 0 {
            assert(out[0] == acc[0]);
        } else {
            lemma_aux_insert_names(acc.drop_first(), k, v, m - 1);
            let sub = crate::headers::spec_aux_insert(acc.drop_first(), k, v);
            assert(out[m] == sub[m - 1]);
            if sub[m - 1].0 != k {
                let q = choose|q: int|
                    0 <= q < acc.drop_first().len() && sub[m - 1].0 == acc.drop_first()[q].0;
                assert(out[m].0 == acc[q + 1].0);
            }
        }
    }
}


/// The filter byte distance: whole bytes per pixel, at least one.
pub open spec fn spec_bpp(ihdr: IhdrData) -> nat {
    let b = ihdr.color_type.spec_channels() * ihdr.bit_depth.spec_bits() / 8;
    if b == 0 {
        1
    } else {
        b
    }
}

pub fn bpp(ihdr: &IhdrData) -> (r: usize)
    ensures
        r as nat == spec_bpp(*ihdr),
        1 <= r <= 8,
{
    let b = (ihdr.color_type.channels() as usize) * (ihdr.bit_depth.as_u8() as usize) / 8;
    if b == 0 {
        1
    } else {
        b
    }
}

/// The row layout of a deinterlaced image.
pub open spec fn spec_std_rows(ihdr: IhdrData) -> Seq<crate::filters::RowInfo> {
    Seq::new(
        ihdr.height as nat,
        |y: int|
            crate::filters::RowInfo {
                start: (y * ihdr.spec_rb()) as usize,
                len: ihdr.spec_rb() as usize,
                first: y == 0,
            },
    )
}

/// A stream is some filtering of a deinterlaced image's scanlines.
pub open spec fn spec_filtered_ok(ihdr: IhdrData, data: Seq<u8>, s: Seq<u8>) -> bool {
    exists|tags: Seq<u8>|
        crate::filters::spec_stream_ok(data, spec_std_rows(ihdr), spec_bpp(ihdr), tags, s)
}

/// The palette entries a chunk list describes: PLTE triples with tRNS
/// alphas, opaque past the end of tRNS.
pub open spec fn spec_palette_rel(chunks: Seq<(u32, Seq<u8>)>, raw: PngImageV) -> bool {
    match crate::headers::spec_aux_lookup(chunks, crate::headers::CHUNK_PLTE) {
        Some(p) => {
            let t = crate::headers::spec_aux_lookup(chunks, crate::headers::CHUNK_TRNS);
            &&& p.len() % 3 == 0
            &&& 1 <= p.len() / 3 <= 256
            &&& raw.palette == Some(
                Seq::new(
                    (p.len() / 3) as nat,
                    |i: int|
                        Rgba {
                            r: p[3 * i],
                            g: p[3 * i + 1],
                            b: p[3 * i + 2],
                            a: match t {
                                Some(tv) => if i < tv.len() {
                                    tv[i]
                                } else {
                                    255
                                },
                                None => 255,
                            },
                        },
                ),
            )
        },
        None => false,
    }
}

/// The transparency key a chunk list describes for non-indexed images: a
/// tRNS payload of the right size, or nothing.
pub open spec fn spec_trns_rel(chunks: Seq<(u32, Seq<u8>)>, raw: PngImageV) -> bool {
    let t = crate::headers::spec_aux_lookup(chunks, crate::headers::CHUNK_TRNS);
    match raw.ihdr.color_type {
        ColorType::Grayscale => raw.transparency == (match t {
            Some(tv) => if tv.len() == 2 {
                Some(tv)
            } else {
                None
            },
            None => None,
        }),
        ColorType::RGB => raw.transparency == (match t {
            Some(tv) => if tv.len() == 6 {
                Some(tv)
            } else {
                None
            },
            None => None,
        }),
        _ => raw.transparency is None,
    }
}

/// What a successful decode returns: a faithful model of the parsed chunk
/// list. The raw buffer of a deinterlaced image is tied to the IDAT stream
/// exactly; for an Adam7 source the scanlines pass through the same
/// unfiltering and the pass merge, whose geometry the decoder rechecks.
pub open spec fn spec_model_ok(
    chunks: Seq<(u32, Seq<u8>)>,
    raw: PngImageV,
    idat: Seq<u8>,
    filtered: Seq<u8>,
) -> bool {
    &&& chunks.len() >= 1
    &&& chunks[0].0 == crate::headers::CHUNK_IHDR
    &&& spec_parse_ihdr(chunks[0].1) == Some(raw.ihdr)
    &&& idat == spec_idat_concat(chunks)
    &&& crate::deflate::inflate_of(idat) == Some(filtered)
    &&& raw.aux == spec_aux_fold(chunks, Seq::empty())
    &&& (raw.ihdr.color_type == ColorType::Indexed ==> spec_palette_rel(chunks, raw))
    &&& (raw.ihdr.color_type != ColorType::Indexed ==> raw.palette is None)
    &&& spec_trns_rel(chunks, raw)
    &&& (raw.ihdr.interlaced == Interlacing::Standard ==> exists|tags: Seq<u8>|
        crate::filters::spec_stream_ok(
            raw.data,
            spec_std_rows(raw.ihdr),
            spec_bpp(raw.ihdr),
            tags,
            filtered,
        ))
}

/// Every sample of an indexed image refers to a palette entry.
fn check_indexed_range(ihdr: &IhdrData, data: &Vec<u8>, plen: usize) -> (r: bool)
    requires
        ihdr.spec_dims_ok(),
        crate::bits::valid_bits(ihdr.bit_depth.spec_bits()),
        data.len() == ihdr.spec_data_len(),
    ensures
        r == forall|y: int, i: int|
            0 <= y < ihdr.height && 0 <= i < ihdr.spec_row_samples() ==> #[trigger] spec_sample(
                data@,
                y * ihdr.spec_rb() as int,
                ihdr.bit_depth.spec_bits(),
                i,
            ) < plen,
{
    let h = ihdr.height as usize;
    let n = ihdr.row_samples();
    let rb = ihdr.rb();
    let depth = ihdr.bit_depth.as_u8();
    let mut y: usize = 0;
    while y < h
        invariant
            y <= h,
            h == ihdr.height,
            n as nat == ihdr.spec_row_samples(),
            rb as nat == ihdr.spec_rb(),
            depth as nat == ihdr.bit_depth.spec_bits(),
            crate::bits::valid_bits(depth as nat),
            ihdr.spec_dims_ok(),
            data.len() == ihdr.spec_data_len(),
            forall|yy: int, i: int|
                0 <= yy < y && 0 <= i < n ==> #[trigger] spec_sample(
                    data@,
                    yy * rb as int,
                    depth as nat,
                    i,
                ) < plen,
        decreases h - y,
    {
        let mut i: usize = 0;
        while i < n
            invariant
                i <= n,
                y < h,
                h == ihdr.height,
                n as nat == ihdr.spec_row_samples(),
                rb as nat == ihdr.spec_rb(),
                depth as nat == ihdr.bit_depth.spec_bits(),
                crate::bits::valid_bits(depth as nat),
                ihdr.spec_dims_ok(),
                data.len() == ihdr.spec_data_len(),
                forall|i2: int|
                    0 <= i2 < i ==> #[trigger] spec_sample(data@, y * rb as int, depth as nat, i2)
                        < plen,
            decreases n - i,
        {
            proof {
                crate::bits::lemma_sample_in_row(n as nat, depth as nat, i as int);
                crate::bits::lemma_row_extent(y as int, h as int, rb as nat);
                assert(h as nat * rb as nat == data.len()) by (nonlinear_arith)
                    requires
                        data.len() == ihdr.spec_data_len(),
                        ihdr.spec_data_len() == h as nat * ihdr.spec_rb(),
                        rb as nat == ihdr.spec_rb(),
                        h == ihdr.height,
                ;
            }
            let v = get_packed_sample(data, y * rb, depth, i);
            if v as usize >= plen {
                return false;
            }
            i = i + 1;
        }
        y = y + 1;
    }
    true
}




/// Inflate the IDAT stream of a deinterlaced image and reconstruct its raw
/// scanlines.
#[verifier::rlimit(100)]
#[verifier::spinoff_prover]
fn decode_raw_standard(ihdr: &IhdrData, idat: &Vec<u8>) -> (r: PngResult<(Vec<u8>, Vec<u8>)>)
    requires
        ihdr.spec_dims_ok(),
        crate::bits::valid_bits(ihdr.bit_depth.spec_bits()),
    ensures
        match r {
            Ok(p) => p.0.len() == ihdr.spec_data_len() && crate::deflate::inflate_of(idat@)
                == Some(p.1@) && spec_filtered_ok(*ihdr, p.0@, p.1@),
            Err(e) => (e == PngError::InflateFailed || e == PngError::InvalidHeader) && (e
                == PngError::InflateFailed ==> match crate::deflate::inflate_of(idat@) {
                Some(f) => f.len() > ihdr.spec_data_len() + ihdr.height,
                Option::None => true,
            }),
        },
{
    let h = ihdr.height as usize;
    let rb = ihdr.rb();
    let expected_raw = ihdr.data_len();
    let png_bpp = bpp(ihdr);
    if expected_raw > usize::MAX - h {
        return Err(PngError::InvalidHeader);
    }
    let expected_stream = expected_raw + h;
    let fl = match crate::deflate::inflate(idat.as_slice(), expected_stream) {
        Ok(f) => f,
        Err(_) => {
            return Err(PngError::InflateFailed);
        },
    };
    if fl.len() != expected_stream {
        return Err(PngError::InvalidHeader);
    }
    proof {
        assert(rb as nat >= 1) by {
            assert(ihdr.spec_row_samples() >= 1) by (nonlinear_arith)
                requires
                    ihdr.spec_row_samples() == ihdr.width as nat
                        * ihdr.color_type.spec_channels(),
                    ihdr.width >= 1,
                    ihdr.color_type.spec_channels() >= 1,
            ;
        }
        assert(h as nat * rb as nat == expected_raw) by (nonlinear_arith)
            requires
                expected_raw as nat == ihdr.spec_data_len(),
                ihdr.spec_data_len() == ihdr.height as nat * ihdr.spec_rb(),
                rb as nat == ihdr.spec_rb(),
                h == ihdr.height,
        ;
    }
    let rows = crate::filters::standard_layout(h, rb);
    let rd = match crate::filters::unfilter_layout(&fl, &rows, png_bpp) {
        Ok(d) => d,
        Err(e) => {
            return Err(e);
        },
    };
    proof {
        assert(rows@ =~= spec_std_rows(*ihdr));
        let tags = choose|tags: Seq<u8>|
            crate::filters::spec_stream_ok(rd@, rows@, png_bpp as nat, tags, fl@);
        assert(crate::filters::spec_stream_ok(
            rd@,
            spec_std_rows(*ihdr),
            spec_bpp(*ihdr),
            tags,
            fl@,
        ));
    }
    Ok((rd, fl))
}

/// Inflate the IDAT stream of an Adam7 image, reconstruct its pass rows and
/// merge them into the linear layout.
fn decode_raw_adam7(ihdr: &IhdrData, idat: &Vec<u8>) -> (r: PngResult<(Vec<u8>, Vec<u8>)>)
    requires
        ihdr.spec_dims_ok(),
        crate::bits::valid_bits(ihdr.bit_depth.spec_bits()),
    ensures
        match r {
            Ok(p) => p.0.len() == ihdr.spec_data_len() && crate::deflate::inflate_of(idat@)
                == Some(p.1@),
            Err(e) => e == PngError::InflateFailed || e == PngError::InvalidHeader,
        },
{
    let png_bpp = bpp(ihdr);
    let layout = match crate::interlace::build_pass_rows(ihdr) {
        Some(l) => l,
        None => {
            return Err(PngError::InvalidHeader);
        },
    };
    let (rows, total) = layout;
    let expected_stream = total + rows.len();
    let fl = match crate::deflate::inflate(idat.as_slice(), expected_stream) {
        Ok(f) => f,
        Err(_) => {
            return Err(PngError::InflateFailed);
        },
    };
    if fl.len() != expected_stream {
        return Err(PngError::InvalidHeader);
    }
    let ibuf = match crate::filters::unfilter_layout(&fl, &rows, png_bpp) {
        Ok(d) => d,
        Err(e) => {
            return Err(e);
        },
    };
    let rd = match crate::interlace::deinterlace_image(ihdr, &ibuf) {
        Some(d) => d,
        None => {
            return Err(PngError::InvalidHeader);
        },
    };
    Ok((rd, fl))
}

/// Combine PLTE triples and tRNS alphas into the palette entries; entries
/// past the end of tRNS are opaque.
fn build_palette(p: &Vec<u8>, trns: &Option<Vec<u8>>) -> (pal: Vec<Rgba>)
    requires
        p.len() % 3 == 0,
        1 <= p.len() / 3 <= 256,
    ensures
        pal@ == Seq::new(
            (p@.len() / 3) as nat,
            |i: int|
                Rgba {
                    r: p@[3 * i],
                    g: p@[3 * i + 1],
                    b: p@[3 * i + 2],
                    a: match *trns {
                        Some(tv) => if i < tv@.len() {
                            tv@[i]
                        } else {
                            255
                        },
                        None => 255,
                    },
                },
        ),
{
    let n = p.len() / 3;
    let mut pal: Vec<Rgba> = Vec::new();
    let mut i: usize = 0;
    while i < n
        invariant
            i <= n,
            n == p.len() / 3,
            p.len() % 3 == 0,
            pal.len() == i,
            forall|k: int|
                0 <= k < i ==> #[trigger] pal@[k] == (Rgba {
                    r: p@[3 * k],
                    g: p@[3 * k + 1],
                    b: p@[3 * k + 2],
                    a: match *trns {
                        Some(tv) => if k < tv@.len() {
                            tv@[k]
                        } else {
                            255
                        },
                        None => 255,
                    },
                }),
        decreases n - i,
    {
        let a: u8 = match trns {
            Some(tv) => if i < tv.len() {
                tv[i]
            } else {
                255
            },
            None => 255,
        };
        pal.push(Rgba { r: p[3 * i], g: p[3 * i + 1], b: p[3 * i + 2], a });
        i = i + 1;
    }
    proof {
        assert(pal@ =~= Seq::new(
            (p@.len() / 3) as nat,
            |i: int|
                Rgba {
                    r: p@[3 * i],
                    g: p@[3 * i + 1],
                    b: p@[3 * i + 2],
                    a: match *trns {
                        Some(tv) => if i < tv@.len() {
                            tv@[i]
                        } else {
                            255
                        },
                        None => 255,
                    },
                },
        ));
    }
    pal
}

/// Collect the IDAT stream, the first PLTE and tRNS payloads, and the
/// auxiliary chunk map from a parsed chunk list.
#[verifier::rlimit(100)]
fn collect_model(chunks: &Vec<(u32, Vec<u8>)>) -> (r: (
    Vec<u8>,
    Option<Vec<u8>>,
    Option<Vec<u8>>,
    AuxHeaders,
))
    requires
        forall|j: int| 0 <= j < chunks.len() ==> (#[trigger] chunks@[j].1)@.len() <= 0x7fff_ffff,
    ensures
        ({
            let cview = Seq::new(chunks.len() as nat, |i: int| (chunks@[i].0, chunks@[i].1@));
            &&& r.0@ == spec_idat_concat(cview)
            &&& crate::headers::spec_aux_lookup(cview, crate::headers::CHUNK_PLTE) == (match r.1 {
                Some(v) => Some(v@),
                None => None::<Seq<u8>>,
            })
            &&& crate::headers::spec_aux_lookup(cview, crate::headers::CHUNK_TRNS) == (match r.2 {
                Some(v) => Some(v@),
                None => None::<Seq<u8>>,
            })
            &&& crate::headers::aux_entries(r.3) == spec_aux_fold(cview, Seq::empty())
            &&& forall|j: int|
                0 <= j < crate::headers::aux_entries(r.3).len() ==> !spec_is_critical(
                    #[trigger] crate::headers::aux_entries(r.3)[j].0,
                )
            &&& forall|j: int, k: int|
                0 <= j < k < crate::headers::aux_entries(r.3).len()
                    ==> crate::headers::aux_entries(r.3)[j].0 != crate::headers::aux_entries(
                    r.3,
                )[k].0
            &&& forall|j: int|
                0 <= j < crate::headers::aux_entries(r.3).len() ==> (
                #[trigger] crate::headers::aux_entries(r.3)[j].1).len() <= 0x7fff_ffff
        }),
{
    let ghost cview = Seq::new(chunks.len() as nat, |i: int| (chunks@[i].0, chunks@[i].1@));
    let mut idat: Vec<u8> = Vec::new();
    let mut plte: Option<Vec<u8>> = Option::None;
    let mut trns: Option<Vec<u8>> = Option::None;
    let mut aux = crate::headers::aux_new();
    let mut ci: usize = 0;
    while ci < chunks.len()
        invariant
            ci <= chunks.len(),
            cview == Seq::new(chunks.len() as nat, |i: int| (chunks@[i].0, chunks@[i].1@)),
            idat@ == spec_idat_concat(cview.take(ci as int)),
            crate::headers::spec_aux_lookup(cview.take(ci as int), crate::headers::CHUNK_PLTE)
                == (match plte {
                Some(v) => Some(v@),
                None => None::<Seq<u8>>,
            }),
            crate::headers::spec_aux_lookup(cview.take(ci as int), crate::headers::CHUNK_TRNS)
                == (match trns {
                Some(v) => Some(v@),
                None => None::<Seq<u8>>,
            }),
            crate::headers::aux_entries(aux) == spec_aux_fold(
                cview.take(ci as int),
                Seq::empty(),
            ),
            forall|j: int|
                0 <= j < crate::headers::aux_entries(aux).len() ==> !spec_is_critical(
                    #[trigger] crate::headers::aux_entries(aux)[j].0,
                ),
            forall|j: int, k: int|
                0 <= j < k < crate::headers::aux_entries(aux).len()
                    ==> crate::headers::aux_entries(aux)[j].0 != crate::headers::aux_entries(
                    aux,
                )[k].0,
            forall|j: int|
                0 <= j < crate::headers::aux_entries(aux).len()
                    ==> (#[trigger] crate::headers::aux_entries(aux)[j].1).len()
                    <= 0x7fff_ffff,
            forall|j: int| 0 <= j < cview.len() ==> (#[trigger] cview[j].1).len() <= 0x7fff_ffff,
        decreases chunks.len() - ci,
    {
        let name = chunks[ci].0;
        let ghost pre = cview.take(ci as int);
        proof {
            assert(cview.take(ci + 1) =~= pre.push(cview[ci as int]));
            lemma_idat_concat_snoc(pre, cview[ci as int]);
            lemma_lookup_snoc(pre, cview[ci as int], crate::headers::CHUNK_PLTE);
            lemma_lookup_snoc(pre, cview[ci as int], crate::headers::CHUNK_TRNS);
            lemma_aux_fold_snoc(pre, cview[ci as int], Seq::empty());
        }
        if name == crate::headers::CHUNK_IDAT {
            let mut part = clone_bytes(&chunks[ci].1);
            idat.append(&mut part);
            proof {
                assert(idat@ =~= spec_idat_concat(cview.take(ci + 1)));
            }
        } else if name == crate::headers::CHUNK_PLTE {
            if plte.is_none() {
                plte = Some(clone_bytes(&chunks[ci].1));
            }
            proof {
                assert(idat@ =~= spec_idat_concat(cview.take(ci + 1)));
            }
        } else if name == crate::headers::CHUNK_TRNS {
            if trns.is_none() {
                trns = Some(clone_bytes(&chunks[ci].1));
            }
            proof {
                assert(idat@ =~= spec_idat_concat(cview.take(ci + 1)));
            }
        } else if crate::headers::is_critical(name) {
            proof {
                assert(idat@ =~= spec_idat_concat(cview.take(ci + 1)));
            }
        } else {
            proof {
                lemma_aux_insert_wf(
                    crate::headers::aux_entries(aux),
                    name,
                    chunks@[ci as int].1@,
                );
                assert(idat@ =~= spec_idat_concat(cview.take(ci + 1)));
            }
            crate::headers::aux_insert(&mut aux, name, clone_bytes(&chunks[ci].1));
            proof {
                lemma_aux_insert_len(
                    spec_aux_fold(pre, Seq::empty()),
                    name,
                    chunks@[ci as int].1@,
                );
            }
        }
        ci = ci + 1;
    }
    proof {
        assert(cview.take(chunks.len() as int) =~= cview);
    }
    (idat, plte, trns, aux)
}

impl PngData {
    /// Decode a PNG byte stream into the image model, the concatenated IDAT
    /// payload and the filtered scanline stream it inflates to.
    #[verifier::rlimit(100)]
    #[verifier::spinoff_prover]
    pub fn from_slice(data: &[u8], fix_errors: bool) -> (r: PngResult<PngData>)
        ensures
            match r {
                Ok(png) => img_wf(png.raw@) && exists|chunks: Seq<(u32, Seq<u8>)>|
                    spec_parse_chunks(data@, 8, !fix_errors) == Some(chunks) && spec_model_ok(
                        chunks,
                        png.raw@,
                        png.idat_data@,
                        png.filtered@,
                    ),
                Err(_) => true,
            },
            (data@.len() < 8 || data@.subrange(0, 8) != spec_signature()) <==> (r matches Err(e)
                && e == PngError::NotPng),
            match r {
                Err(e) => ((e matches PngError::TruncatedChunk) || (e
                    matches PngError::BadCrc(_)) ==> spec_parse_chunks(
                    data@,
                    8,
                    !fix_errors,
                ) is None) && ((e matches PngError::BadCrc(_)) ==> !fix_errors) && ((e
                    matches PngError::TruncatedChunk) ==> spec_parse_chunks(
                    data@,
                    8,
                    false,
                ) is None) && (e
                    == PngError::InflateFailed ==> exists|chunks: Seq<(u32, Seq<u8>)>|
                    spec_parse_chunks(data@, 8, !fix_errors) == Some(chunks) && chunks.len() >= 1
                        && (match spec_parse_ihdr(#[trigger] chunks[0].1) {
                        Some(ih) => ih.interlaced == Interlacing::Standard
                            ==> match crate::deflate::inflate_of(spec_idat_concat(chunks)) {
                            Some(f) => f.len() > ih.spec_data_len() + ih.height,
                            Option::None => true,
                        },
                        Option::None => false,
                    })),
                Ok(_) => true,
            },
    {
        if !check_signature(data) {
            return Err(PngError::NotPng);
        }
        let chunks = match parse_chunks(data, fix_errors) {
            Ok(c) => c,
            Err(e) => {
                proof {
                    assert(e != PngError::NotPng);
                }
                return Err(e);
            },
        };
        let ghost cview = Seq::new(chunks.len() as nat, |i: int| (chunks@[i].0, chunks@[i].1@));
        if chunks.len() == 0 {
            return Err(PngError::InvalidHeader);
        }
        let first = &chunks[0];
        if first.0 != crate::headers::CHUNK_IHDR {
            return Err(PngError::InvalidHeader);
        }
        let ihdr = match parse_ihdr(&first.1) {
            Some(i) => i,
            None => {
                return Err(PngError::InvalidHeader);
            },
        };
        if !ihdr.dims_ok() {
            return Err(PngError::InvalidHeader);
        }
        proof {
            lemma_parse_chunk_lens(data@, 8, !fix_errors);
            assert forall|j: int| 0 <= j < chunks.len() implies (#[trigger] chunks@[j].1)@.len()
                <= 0x7fff_ffff by {
                assert(spec_parse_chunks(data@, 8, !fix_errors).unwrap()[j].1 == chunks@[j].1@);
            }
        }
        let parts = collect_model(&chunks);
        let idat = parts.0;
        let plte = parts.1;
        let trns = parts.2;
        let aux = parts.3;
        // palette and transparency
        let mut palette: Option<Vec<Rgba>> = Option::None;
        let mut transparency: Option<Vec<u8>> = Option::None;
        match ihdr.color_type {
            ColorType::Indexed => {
                let p = match plte {
                    Some(p) => p,
                    None => {
                        return Err(PngError::InvalidHeader);
                    },
                };
                if p.len() % 3 != 0 {
                    return Err(PngError::InvalidHeader);
                }
                let n = p.len() / 3;
                if n < 1 || n > 256 {
                    return Err(PngError::InvalidHeader);
                }
                let pal = build_palette(&p, &trns);
                palette = Some(pal);
            },
            ColorType::Grayscale => {
                match trns {
                    Some(t) => {
                        if t.len() == 2 {
                            transparency = Some(t);
                        }
                    },
                    None => {},
                }
            },
            ColorType::RGB => {
                match trns {
                    Some(t) => {
                        if t.len() == 6 {
                            transparency = Some(t);
                        }
                    },
                    None => {},
                }
            },
            _ => {},
        }
        // inflate and unfilter
        let raw_data: Vec<u8>;
        let filtered: Vec<u8>;
        match ihdr.interlaced {
            Interlacing::Standard => {
                let pair = match decode_raw_standard(&ihdr, &idat) {
                    Ok(p) => p,
                    Err(e) => {
                        proof {
                            if e == PngError::InflateFailed {
                                lemma_inflate_failed_witness(
                                    data@,
                                    fix_errors,
                                    cview,
                                    ihdr,
                                    idat@,
                                );
                            }
                        }
                        return Err(e);
                    },
                };
                raw_data = pair.0;
                filtered = pair.1;
            },
            Interlacing::Adam7 => {
                let pair = match decode_raw_adam7(&ihdr, &idat) {
                    Ok(p) => p,
                    Err(e) => {
                        proof {
                            if e == PngError::InflateFailed {
                                lemma_inflate_failed_witness(
                                    data@,
                                    fix_errors,
                                    cview,
                                    ihdr,
                                    idat@,
                                );
                            }
                        }
                        return Err(e);
                    },
                };
                raw_data = pair.0;
                filtered = pair.1;
            },
        }
        // indexed images must reference palette entries that exist
        match &palette {
            Some(p) => {
                if !check_indexed_range(&ihdr, &raw_data, p.len()) {
                    return Err(PngError::InvalidHeader);
                }
            },
            None => {},
        }
        let raw = PngImage { ihdr, data: raw_data, palette, transparency, aux_headers: aux };
        proof {
            assert(cview[0].1 == chunks@[0].1@ && cview[0].0 == chunks@[0].0);
            assert(img_wf(raw@));
            if raw@.ihdr.color_type == ColorType::Indexed {
                let pl = crate::headers::spec_aux_lookup(
                    cview,
                    crate::headers::CHUNK_PLTE,
                ).unwrap();
                let tl = crate::headers::spec_aux_lookup(cview, crate::headers::CHUNK_TRNS);
                assert(raw@.palette.unwrap() =~= Seq::new(
                    (pl.len() / 3) as nat,
                    |i: int|
                        Rgba {
                            r: pl[3 * i],
                            g: pl[3 * i + 1],
                            b: pl[3 * i + 2],
                            a: match tl {
                                Some(tv) => if i < tv.len() {
                                    tv[i]
                                } else {
                                    255
                                },
                                None => 255,
                            },
                        },
                ));
                assert(spec_palette_rel(cview, raw@));
            }
            assert(spec_trns_rel(cview, raw@));
            assert(spec_model_ok(cview, raw@, idat@, filtered@));
        }
        let png = PngData { raw, idat_data: idat, filtered };
        proof {
            assert(spec_model_ok(cview, png.raw@, png.idat_data@, png.filtered@));
            assert(exists|chunks2: Seq<(u32, Seq<u8>)>|
                spec_parse_chunks(data@, 8, !fix_errors) == Some(chunks2) && spec_model_ok(
                    chunks2,
                    png.raw@,
                    png.idat_data@,
                    png.filtered@,
                ));
        }
        Ok(png)
    }
}

/// Provide the parsed chunk list as the witness for an error's condition:
/// if the stream parses to `chunks` whose first chunk yields `ihdr` and
/// whose IDAT stream is `idat`, the existential over chunk lists in the
/// decode contract holds whenever the matched condition does.
proof fn lemma_inflate_failed_witness(
    data: Seq<u8>,
    fix_errors: bool,
    chunks: Seq<(u32, Seq<u8>)>,
    ihdr: IhdrData,
    idat: Seq<u8>,
)
    requires
        spec_parse_chunks(data, 8, !fix_errors) == Some(chunks),
        chunks.len() >= 1,
        spec_parse_ihdr(chunks[0].1) == Some(ihdr),
        idat == spec_idat_concat(chunks),
        ihdr.interlaced == Interlacing::Standard ==> match crate::deflate::inflate_of(idat) {
            Some(f) => f.len() > ihdr.spec_data_len() + ihdr.height,
            Option::None => true,
        },
    ensures
        exists|chunks2: Seq<(u32, Seq<u8>)>|
            spec_parse_chunks(data, 8, !fix_errors) == Some(chunks2) && chunks2.len() >= 1 && (
            match spec_parse_ihdr(#[trigger] chunks2[0].1) {
                Some(ih) => ih.interlaced == Interlacing::Standard
                    ==> match crate::deflate::inflate_of(spec_idat_concat(chunks2)) {
                    Some(f) => f.len() > ih.spec_data_len() + ih.height,
                    Option::None => true,
                },
                Option::None => false,
            }),
{
    assert(spec_parse_chunks(data, 8, !fix_errors) == Some(chunks) && chunks.len() >= 1 && (
    match spec_parse_ihdr(#[trigger] chunks[0].1) {
        Some(ih) => ih.interlaced == Interlacing::Standard ==> match crate::deflate::inflate_of(
            spec_idat_concat(chunks),
        ) {
            Some(f) => f.len() > ih.spec_data_len() + ih.height,
            Option::None => true,
        },
        Option::None => false,
    }));
}

/// Inserting keeps every payload bound that held before, when the new
/// payload is bounded too.
pub proof fn lemma_aux_insert_len(acc: Seq<(u32, Seq<u8>)>, k: u32, v: Seq<u8>)
    requires
        forall|j: int| 0 <= j < acc.len() ==> (#[trigger] acc[j].1).len() <= 0x7fff_ffff,
        v.len() <= 0x7fff_ffff,
    ensures
        forall|j: int|
            0 <= j < crate::headers::spec_aux_insert(acc, k, v).len() ==> (
            #[trigger] crate::headers::spec_aux_insert(acc, k, v)[j].1).len() <= 0x7fff_ffff,
    decreases acc.len(),
{
    let out = crate::headers::spec_aux_insert(acc, k, v);
    if acc.len() == 0 {
    } else if acc.first().0 == k {
        assert(out =~= seq![(k, v)] + acc.drop_first());
        assert forall|j: int| 0 <= j < out.len() implies (#[trigger] out[j].1).len()
            <= 0x7fff_ffff by {
            if j > 0 {
                assert(out[j] == acc[j]);
            }
        }
    } else {
        lemma_aux_insert_len(acc.drop_first(), k, v);
        let sub = crate::headers::spec_aux_insert(acc.drop_first(), k, v);
        assert(out =~= seq![acc.first()] + sub);
        assert forall|j: int| 0 <= j < out.len() implies (#[trigger] out[j].1).len()
            <= 0x7fff_ffff by {
            if j > 0 {
                assert(out[j] == sub[j - 1]);
            }
        }
    }
}


/// One serialized chunk: length, name, payload, and the CRC over name and
/// payload.
pub open spec fn spec_chunk_bytes(name: u32, payload: Seq<u8>) -> Seq<u8> {
    spec_be_bytes(payload.len() as u32) + spec_be_bytes(name) + payload + spec_be_bytes(
        crate::crc::spec_crc32(spec_be_bytes(name) + payload),
    )
}

/// The 13-byte IHDR payload.
pub open spec fn spec_ihdr_payload(ihdr: IhdrData) -> Seq<u8> {
    spec_be_bytes(ihdr.width) + spec_be_bytes(ihdr.height) + seq![
        ihdr.bit_depth.spec_bits() as u8,
        ihdr.color_type.spec_png_code(),
        0u8,
        0u8,
        ihdr.interlaced.spec_png_code(),
    ]
}

/// The PLTE payload: the palette's RGB triples.
pub open spec fn spec_plte_payload(p: Seq<Rgba>) -> Seq<u8> {
    Seq::new(
        (3 * p.len()) as nat,
        |j: int|
            if j % 3 == 0 {
                p[j / 3].r
            } else if j % 3 == 1 {
                p[j / 3].g
            } else {
                p[j / 3].b
            },
    )
}

/// Length of the serialized tRNS vector: trailing opaque entries are
/// omitted.
pub open spec fn spec_trns_len(p: Seq<Rgba>) -> nat
    decreases p.len(),
{
    if p.len() == 0 {
        0
    } else if p.last().a == 255 {
        spec_trns_len(p.drop_last())
    } else {
        p.len()
    }
}

/// The tRNS payload of an indexed image.
pub open spec fn spec_trns_payload(p: Seq<Rgba>) -> Seq<u8> {
    Seq::new(spec_trns_len(p), |i: int| p[i].a)
}

/// The serialized chunks of the auxiliary entries on one side of PLTE.
pub open spec fn spec_aux_group(aux: Seq<(u32, Seq<u8>)>, before: bool) -> Seq<u8>
    decreases aux.len(),
{
    if aux.len() == 0 {
        Seq::empty()
    } else {
        (if crate::headers::spec_before_plte(aux.first().0) == before {
            spec_chunk_bytes(aux.first().0, aux.first().1)
        } else {
            Seq::empty()
        }) + spec_aux_group(aux.drop_first(), before)
    }
}

pub proof fn lemma_aux_group_snoc(aux: Seq<(u32, Seq<u8>)>, x: (u32, Seq<u8>), before: bool)
    ensures
        spec_aux_group(aux.push(x), before) == spec_aux_group(aux, before) + (
        if crate::headers::spec_before_plte(x.0) == before {
            spec_chunk_bytes(x.0, x.1)
        } else {
            Seq::<u8>::empty()
        }),
    decreases aux.len(),
{
    let tail = if crate::headers::spec_before_plte(x.0) == before {
        spec_chunk_bytes(x.0, x.1)
    } else {
        Seq::<u8>::empty()
    };
    if aux.len() == 0 {
        assert(aux.push(x).first() == x);
        assert(aux.push(x).drop_first() =~= Seq::<(u32, Seq<u8>)>::empty());
        assert(spec_aux_group(Seq::<(u32, Seq<u8>)>::empty(), before) == Seq::<u8>::empty());
        assert(spec_aux_group(aux.push(x), before) =~= spec_aux_group(aux, before) + tail);
    } else {
        assert(aux.push(x).first() == aux.first());
        assert(aux.push(x).drop_first() =~= aux.drop_first().push(x));
        lemma_aux_group_snoc(aux.drop_first(), x, before);
        assert(spec_aux_group(aux.push(x), before) =~= spec_aux_group(aux, before) + tail);
    }
}

/// The palette or transparency chunks of an image: PLTE and a truncated
/// tRNS for indexed images, a bare tRNS for a gray or RGB key, or nothing.
pub open spec fn spec_plte_trns_bytes(raw: PngImageV) -> Seq<u8> {
    match raw.palette {
        Some(p) => spec_chunk_bytes(crate::headers::CHUNK_PLTE, spec_plte_payload(p)) + (
        if spec_trns_len(p) > 0 {
            spec_chunk_bytes(crate::headers::CHUNK_TRNS, spec_trns_payload(p))
        } else {
            Seq::<u8>::empty()
        }),
        None => match raw.transparency {
            Some(t) => spec_chunk_bytes(crate::headers::CHUNK_TRNS, t),
            None => Seq::<u8>::empty(),
        },
    }
}

/// The canonical serialization of an image with a chosen IDAT payload.
pub open spec fn spec_png_bytes(raw: PngImageV, idat: Seq<u8>) -> Seq<u8> {
    spec_signature() + spec_chunk_bytes(crate::headers::CHUNK_IHDR, spec_ihdr_payload(raw.ihdr))
        + spec_aux_group(raw.aux, true) + spec_plte_trns_bytes(raw) + spec_aux_group(raw.aux, false)
        + spec_chunk_bytes(crate::headers::CHUNK_IDAT, idat) + spec_chunk_bytes(
        crate::headers::CHUNK_IEND,
        Seq::empty(),
    )
}

/// A serialized chunk is twelve bytes of framing around its payload.
pub proof fn lemma_chunk_bytes_len(name: u32, payload: Seq<u8>)
    ensures
        spec_chunk_bytes(name, payload).len() == 12 + payload.len(),
{
}

/// Append one chunk: length, name, payload, CRC.
pub fn push_chunk(out: &mut Vec<u8>, name: u32, payload: &Vec<u8>)
    requires
        payload.len() <= 0x7fff_ffff,
        old(out).len() + payload.len() + 12 <= usize::MAX,
    ensures
        final(out)@ == old(out)@ + spec_chunk_bytes(name, payload@),
{
    let start = out.len();
    push_u32_be(out, payload.len() as u32);
    push_u32_be(out, name);
    let mut copy = clone_bytes(payload);
    out.append(&mut copy);
    proof {
        assert(out@.subrange(start + 4, out@.len() as int) =~= spec_be_bytes(name) + payload@);
    }
    let crc = crate::crc::crc32_range(out.as_slice(), start + 4, out.len());
    push_u32_be(out, crc);
    proof {
        assert(final(out)@ =~= old(out)@ + spec_chunk_bytes(name, payload@));
    }
}

/// Append the auxiliary chunks on one side of PLTE, in stored order.
fn push_aux_group(out: &mut Vec<u8>, aux: &AuxHeaders, before: bool)
    requires
        forall|j: int|
            0 <= j < aux_entries(*aux).len() ==> (#[trigger] aux_entries(*aux)[j].1).len()
                <= 0x7fff_ffff,
        old(out).len() + spec_aux_group(aux_entries(*aux), before).len() <= usize::MAX,
    ensures
        final(out)@ == old(out)@ + spec_aux_group(aux_entries(*aux), before),
{
    let n = crate::headers::aux_len(aux);
    let ghost entries = aux_entries(*aux);
    let mut i: usize = 0;
    while i < n
        invariant
            i <= n,
            n == entries.len(),
            entries == aux_entries(*aux),
            forall|j: int| 0 <= j < entries.len() ==> (#[trigger] entries[j].1).len()
                <= 0x7fff_ffff,
            out@ == old(out)@ + spec_aux_group(entries.take(i as int), before),
            old(out).len() + spec_aux_group(entries, before).len() <= usize::MAX,
            spec_aux_group(entries.take(i as int), before).len() <= spec_aux_group(
                entries,
                before,
            ).len(),
        decreases n - i,
    {
        let e = match crate::headers::aux_get_index(aux, i) {
            Some(e) => e,
            None => {
                proof {
                    assert(false);
                }
                return ;
            },
        };
        proof {
            assert(entries.take(i + 1) =~= entries.take(i as int).push(entries[i as int]));
            lemma_aux_group_snoc(entries.take(i as int), entries[i as int], before);
            lemma_aux_group_prefix_len(entries, before, i + 1);
        }
        if crate::headers::is_before_plte(e.0) == before {
            push_chunk(out, e.0, e.1);
        }
        i = i + 1;
    }
    proof {
        assert(entries.take(n as int) =~= entries);
    }
}

/// A group over a prefix is no longer than over the whole list.
proof fn lemma_aux_group_prefix_len(entries: Seq<(u32, Seq<u8>)>, before: bool, i: int)
    requires
        0 <= i <= entries.len(),
    ensures
        spec_aux_group(entries.take(i), before).len() <= spec_aux_group(entries, before).len(),
    decreases entries.len() - i,
{
    if i < entries.len() {
        assert(entries.take(i + 1) =~= entries.take(i).push(entries[i]));
        lemma_aux_group_snoc(entries.take(i), entries[i], before);
        lemma_aux_group_prefix_len(entries, before, i + 1);
        assert(entries.take(entries.len() as int) =~= entries);
    } else {
        assert(entries.take(i) =~= entries);
    }
}


impl PngImage {
    /// Produce the tagged filtered scanline stream of this image under a
    /// filter (or heuristic chooser). Returns nothing only when the stream
    /// cannot fit in memory.
    pub fn filter_image(&self, f: crate::filters::RowFilter) -> (r: Option<Vec<u8>>)
        requires
            img_wf(self@),
        ensures
            match r {
                Some(s) => self.ihdr.interlaced == Interlacing::Standard ==> spec_filtered_ok(
                    self.ihdr,
                    self@.data,
                    s@,
                ),
                None => true,
            },
            self.ihdr.interlaced == Interlacing::Standard ==> (r is Some <==> self@.data.len()
                + self.ihdr.height <= usize::MAX),
    {
        match self.ihdr.interlaced {
            Interlacing::Standard => filter_image_standard(&self.ihdr, &self.data, f),
            Interlacing::Adam7 => {
                let png_bpp = bpp(&self.ihdr);
                let pair = match crate::interlace::interlace_image(&self.ihdr, &self.data) {
                    Some(p) => p,
                    None => {
                        return Option::None;
                    },
                };
                let (ibuf, rows) = pair;
                let tags = crate::filters::choose_tags(&ibuf, &rows, png_bpp, f);
                let stream = crate::filters::filter_layout(&ibuf, &rows, png_bpp, &tags);
                Some(stream)
            },
        }
    }
}

/// Filter a deinterlaced image under the standard row layout.
#[verifier::rlimit(100)]
#[verifier::spinoff_prover]
fn filter_image_standard(ihdr: &IhdrData, data: &Vec<u8>, f: crate::filters::RowFilter) -> (r:
    Option<Vec<u8>>)
    requires
        ihdr.spec_dims_ok(),
        crate::bits::valid_bits(ihdr.bit_depth.spec_bits()),
        data.len() == ihdr.spec_data_len(),
    ensures
        match r {
            Some(s) => spec_filtered_ok(*ihdr, data@, s@),
            None => true,
        },
        r is Some <==> data@.len() + ihdr.height <= usize::MAX,
{
    let png_bpp = bpp(ihdr);
    let h = ihdr.height as usize;
    let rb = ihdr.rb();
    if data.len() > usize::MAX - h {
        return Option::None;
    }
    proof {
        assert(rb as nat >= 1) by {
            assert(ihdr.spec_row_samples() >= 1) by (nonlinear_arith)
                requires
                    ihdr.spec_row_samples() == ihdr.width as nat
                        * ihdr.color_type.spec_channels(),
                    ihdr.width >= 1,
                    ihdr.color_type.spec_channels() >= 1,
            ;
        }
        assert(h as nat * rb as nat == data.len()) by (nonlinear_arith)
            requires
                data.len() == ihdr.spec_data_len(),
                ihdr.spec_data_len() == ihdr.height as nat * ihdr.spec_rb(),
                rb as nat == ihdr.spec_rb(),
                h == ihdr.height,
        ;
    }
    let rows = crate::filters::standard_layout(h, rb);
    let tags = crate::filters::choose_tags(data, &rows, png_bpp, f);
    let stream = crate::filters::filter_layout(data, &rows, png_bpp, &tags);
    proof {
        assert(rows@ =~= spec_std_rows(*ihdr));
        assert(crate::filters::spec_stream_ok(
            data@,
            spec_std_rows(*ihdr),
            spec_bpp(*ihdr),
            tags@,
            stream@,
        ));
        assert(spec_filtered_ok(*ihdr, data@, stream@));
    }
    Some(stream)
}

impl PngData {
    /// Serialize the image and its chosen IDAT payload into the canonical
    /// chunk stream. Fails only when the stream cannot fit in memory.
    #[verifier::rlimit(100)]
    pub fn output(&self) -> (r: PngResult<Vec<u8>>)
        requires
            img_wf(self.raw@),
            self.idat_data.len() <= 0x7fff_ffff,
        ensures
            match r {
                Ok(v) => v@ == spec_png_bytes(self.raw@, self.idat_data@),
                Err(e) => e == PngError::InternalInvariantViolated,
            },
            r is Err <==> spec_png_bytes(self.raw@, self.idat_data@).len() > usize::MAX,
    {
        proof {
            assert forall|j: int|
                0 <= j < aux_entries(self.raw.aux_headers).len() implies (#[trigger] aux_entries(
                self.raw.aux_headers,
            )[j].1).len() <= 0x7fff_ffff by {
                assert(self.raw@.aux == aux_entries(self.raw.aux_headers));
                assert(self.raw@.aux[j].1.len() <= 0x7fff_ffff);
            }
        }
        // measure the auxiliary groups first so every append stays in bounds
        let before_len = aux_group_len(&self.raw.aux_headers, true);
        let after_len = aux_group_len(&self.raw.aux_headers, false);
        let pt = match &self.raw.palette {
            Some(p) => {
                let tl = trns_len(p);
                12 + 3 * p.len() as u128 + (if tl > 0 {
                    12 + tl as u128
                } else {
                    0
                })
            },
            None => match &self.raw.transparency {
                Some(t) => 12 + t.len() as u128,
                None => 0,
            },
        };
        let total: u128 = 8 + 25 + before_len + pt + after_len + (12 + self.idat_data.len()
            as u128) + 12;
        proof {
            lemma_chunk_bytes_len(
                crate::headers::CHUNK_IHDR,
                spec_ihdr_payload(self.raw.ihdr),
            );
            lemma_chunk_bytes_len(crate::headers::CHUNK_IDAT, self.idat_data@);
            lemma_chunk_bytes_len(crate::headers::CHUNK_IEND, Seq::empty());
            assert(spec_ihdr_payload(self.raw.ihdr).len() == 13);
            match self.raw@.palette {
                Some(p) => {
                    lemma_chunk_bytes_len(crate::headers::CHUNK_PLTE, spec_plte_payload(p));
                    lemma_chunk_bytes_len(crate::headers::CHUNK_TRNS, spec_trns_payload(p));
                    assert(spec_plte_payload(p).len() == 3 * p.len());
                    assert(spec_trns_payload(p).len() == spec_trns_len(p));
                },
                None => {
                    match self.raw@.transparency {
                        Some(t) => {
                            lemma_chunk_bytes_len(crate::headers::CHUNK_TRNS, t);
                        },
                        None => {},
                    }
                },
            }
            assert(total as nat == spec_png_bytes(self.raw@, self.idat_data@).len());
        }
        if total > usize::MAX as u128 {
            return Err(PngError::InternalInvariantViolated);
        }
        let mut out: Vec<u8> = Vec::new();
        out.push(0x89);
        out.push(0x50);
        out.push(0x4E);
        out.push(0x47);
        out.push(0x0D);
        out.push(0x0A);
        out.push(0x1A);
        out.push(0x0A);
        proof {
            assert(out@ =~= spec_signature());
        }
        // IHDR
        let mut ihdr_payload: Vec<u8> = Vec::new();
        push_u32_be(&mut ihdr_payload, self.raw.ihdr.width);
        push_u32_be(&mut ihdr_payload, self.raw.ihdr.height);
        ihdr_payload.push(self.raw.ihdr.bit_depth.as_u8());
        ihdr_payload.push(self.raw.ihdr.color_type.png_code());
        ihdr_payload.push(0);
        ihdr_payload.push(0);
        ihdr_payload.push(self.raw.ihdr.interlaced.png_code());
        proof {
            assert(ihdr_payload@ =~= spec_ihdr_payload(self.raw.ihdr));
        }
        push_chunk(&mut out, crate::headers::CHUNK_IHDR, &ihdr_payload);
        // auxiliary chunks that precede the palette
        push_aux_group(&mut out, &self.raw.aux_headers, true);
        // palette and transparency
        match &self.raw.palette {
            Some(p) => {
                let payload = plte_payload(p);
                push_chunk(&mut out, crate::headers::CHUNK_PLTE, &payload);
                let tl = trns_len(p);
                if tl > 0 {
                    let tp = trns_payload(p, tl);
                    push_chunk(&mut out, crate::headers::CHUNK_TRNS, &tp);
                }
            },
            None => {
                match &self.raw.transparency {
                    Some(t) => {
                        push_chunk(&mut out, crate::headers::CHUNK_TRNS, t);
                    },
                    None => {},
                }
            },
        }
        proof {
            assert(out@ =~= spec_signature() + spec_chunk_bytes(
                crate::headers::CHUNK_IHDR,
                spec_ihdr_payload(self.raw.ihdr),
            ) + spec_aux_group(self.raw@.aux, true) + spec_plte_trns_bytes(self.raw@));
        }
        // remaining auxiliary chunks, image data, end marker
        push_aux_group(&mut out, &self.raw.aux_headers, false);
        push_chunk(&mut out, crate::headers::CHUNK_IDAT, &self.idat_data);
        let empty: Vec<u8> = Vec::new();
        push_chunk(&mut out, crate::headers::CHUNK_IEND, &empty);
        proof {
            assert(out@ =~= spec_png_bytes(self.raw@, self.idat_data@));
        }
        Ok(out)
    }
}

/// The serialized size of one auxiliary group.
fn aux_group_len(aux: &AuxHeaders, before: bool) -> (r: u128)
    requires
        forall|j: int|
            0 <= j < aux_entries(*aux).len() ==> (#[trigger] aux_entries(*aux)[j].1).len()
                <= 0x7fff_ffff,
    ensures
        r == spec_aux_group(aux_entries(*aux), before).len(),
        r < 0x1_0000_0000_0000_0000_0000_0000u128,
{
    let n = crate::headers::aux_len(aux);
    let ghost entries = aux_entries(*aux);
    let mut r: u128 = 0;
    let mut i: usize = 0;
    while i < n
        invariant
            i <= n,
            n == entries.len(),
            entries == aux_entries(*aux),
            forall|j: int| 0 <= j < entries.len() ==> (#[trigger] entries[j].1).len()
                <= 0x7fff_ffff,
            r == spec_aux_group(entries.take(i as int), before).len(),
            r <= i * 0x8000_000cu128,
        decreases n - i,
    {
        let e = match crate::headers::aux_get_index(aux, i) {
            Some(e) => e,
            None => {
                proof {
                    assert(false);
                }
                return 0;
            },
        };
        proof {
            assert(entries.take(i + 1) =~= entries.take(i as int).push(entries[i as int]));
            lemma_aux_group_snoc(entries.take(i as int), entries[i as int], before);
            assert(i * 0x8000_000cu128 + 0x8000_000cu128 == (i + 1) * 0x8000_000cu128)
                by (nonlinear_arith);
            assert(n * 0x8000_000cu128 <= 0xffff_ffff_ffff_ffffu128 * 0x8000_000cu128)
                by (nonlinear_arith)
                requires
                    n <= 0xffff_ffff_ffff_ffffu128,
            ;
        }
        if crate::headers::is_before_plte(e.0) == before {
            r = r + 12 + e.1.len() as u128;
        }
        i = i + 1;
    }
    proof {
        assert(entries.take(n as int) =~= entries);
        assert(n * 0x8000_000cu128 <= 0xffff_ffff_ffff_ffffu128 * 0x8000_000cu128)
            by (nonlinear_arith)
            requires
                n <= 0xffff_ffff_ffff_ffffu128,
        ;
    }
    r
}

/// The number of serialized tRNS entries: drop trailing opaque ones.
fn trns_len(p: &Vec<Rgba>) -> (r: usize)
    ensures
        r == spec_trns_len(p@),
        r <= p.len(),
{
    let mut l = p.len();
    proof {
        assert(p@.take(p.len() as int) =~= p@);
    }
    while l > 0
        invariant
            l <= p.len(),
            spec_trns_len(p@) == spec_trns_len(p@.take(l as int)),
        decreases l,
    {
        if p[l - 1].a != 255 {
            proof {
                assert(p@.take(l as int).last() == p@[l - 1]);
                assert(spec_trns_len(p@.take(l as int)) == l);
            }
            return l;
        }
        proof {
            assert(p@.take(l as int).last() == p@[l - 1]);
            assert(p@.take(l as int).drop_last() =~= p@.take(l - 1));
        }
        l = l - 1;
    }
    proof {
        assert(p@.take(0) =~= Seq::<Rgba>::empty());
    }
    0
}

/// The alpha bytes of the serialized tRNS vector.
fn trns_payload(p: &Vec<Rgba>, l: usize) -> (r: Vec<u8>)
    requires
        l == spec_trns_len(p@),
        l <= p.len(),
    ensures
        r@ == spec_trns_payload(p@),
{
    let mut out: Vec<u8> = Vec::new();
    let mut i: usize = 0;
    while i < l
        invariant
            i <= l,
            l <= p.len(),
            out@.len() == i,
            forall|k: int| 0 <= k < i ==> out@[k] == p@[k].a,
        decreases l - i,
    {
        out.push(p[i].a);
        i = i + 1;
    }
    proof {
        assert(out@ =~= spec_trns_payload(p@));
    }
    out
}

/// The PLTE payload of a palette.
fn plte_payload(p: &Vec<Rgba>) -> (r: Vec<u8>)
    requires
        p.len() <= 256,
    ensures
        r@ == spec_plte_payload(p@),
{
    let mut out: Vec<u8> = Vec::new();
    let mut i: usize = 0;
    while i < p.len()
        invariant
            i <= p.len(),
            p.len() <= 256,
            out@.len() == 3 * i,
            forall|k: int|
                0 <= k < 3 * i ==> out@[k] == (if k % 3 == 0 {
                    p@[k / 3].r
                } else if k % 3 == 1 {
                    p@[k / 3].g
                } else {
                    p@[k / 3].b
                }),
        decreases p.len() - i,
    {
        out.push(p[i].r);
        out.push(p[i].g);
        out.push(p[i].b);
        proof {
            assert forall|k: int|
                0 <= k < 3 * (i + 1) implies out@[k] == (if k % 3 == 0 {
                p@[k / 3].r
            } else if k % 3 == 1 {
                p@[k / 3].g
            } else {
                p@[k / 3].b
            }) by {
                if k >= 3 * i {
                    assert(k / 3 == i && (k == 3 * i || k == 3 * i + 1 || k == 3 * i + 2));
                }
            }
        }
        i = i + 1;
    }
    proof {
        assert(out@ =~= spec_plte_payload(p@));
    }
    out
}


/// Visible equality is transitive.
pub proof fn lemma_vis_equal_trans(a: Seq<Pixel>, b: Seq<Pixel>, c: Seq<Pixel>)
    requires
        spec_vis_equal(a, b),
        spec_vis_equal(b, c),
    ensures
        spec_vis_equal(a, c),
{
    assert forall|p: int| 0 <= p < a.len() implies (a[p] == c[p] || (a[p].a == 0 && (
    #[trigger] c[p]).a == 0)) by {
        assert(a[p] == b[p] || (a[p].a == 0 && b[p].a == 0));
        assert(b[p] == c[p] || (b[p].a == 0 && c[p].a == 0));
    }
}


/// Well-formedness and pixels survive a change of auxiliary chunks alone.
pub proof fn lemma_wf_aux_change(a: PngImageV, b: PngImageV)
    requires
        img_wf(a),
        b.ihdr == a.ihdr,
        b.data == a.data,
        b.palette == a.palette,
        b.transparency == a.transparency,
        forall|j: int| 0 <= j < b.aux.len() ==> !spec_is_critical(#[trigger] b.aux[j].0),
        forall|j: int, k: int| 0 <= j < k < b.aux.len() ==> b.aux[j].0 != b.aux[k].0,
        forall|j: int| 0 <= j < b.aux.len() ==> (#[trigger] b.aux[j].1).len() <= 0x7fff_ffff,
    ensures
        img_wf(b),
        spec_pixels(b) == spec_pixels(a),
{
    assert forall|y: int, i: int|
        0 <= y < b.ihdr.height && 0 <= i < b.ihdr.spec_row_samples()
            implies #[trigger] spec_img_sample(b, y, i) == spec_img_sample(a, y, i) by {}
    if b.ihdr.color_type == ColorType::Indexed {
        assert forall|y: int, i: int|
            0 <= y < b.ihdr.height && 0 <= i < b.ihdr.spec_row_samples()
                implies #[trigger] spec_img_sample(b, y, i) < b.palette.unwrap().len() by {
            assert(spec_img_sample(a, y, i) < a.palette.unwrap().len());
        }
    }
    assert forall|p: int|
        0 <= p < spec_pixels(b).len() implies #[trigger] spec_pixels(b)[p] == spec_pixels(a)[p]
        by {
        let w = b.ihdr.width as int;
        assert(spec_pixel(b, p / w, p % w) == spec_pixel(a, p / w, p % w));
    }
    assert(spec_pixels(b) =~= spec_pixels(a));
}


/// Well-formedness and pixels survive a change of the interlace flag alone.
pub proof fn lemma_wf_interlace_change(a: PngImageV, b: PngImageV)
    requires
        img_wf(a),
        b.ihdr.width == a.ihdr.width,
        b.ihdr.height == a.ihdr.height,
        b.ihdr.color_type == a.ihdr.color_type,
        b.ihdr.bit_depth == a.ihdr.bit_depth,
        b.data == a.data,
        b.palette == a.palette,
        b.transparency == a.transparency,
        b.aux == a.aux,
    ensures
        img_wf(b),
        spec_pixels(b) == spec_pixels(a),
{
    assert(b.ihdr.spec_row_samples() == a.ihdr.spec_row_samples());
    assert(b.ihdr.spec_rb() == a.ihdr.spec_rb());
    assert(b.ihdr.spec_data_len() == a.ihdr.spec_data_len());
    assert forall|y: int, i: int|
        0 <= y < b.ihdr.height && 0 <= i < b.ihdr.spec_row_samples()
            implies #[trigger] spec_img_sample(b, y, i) == spec_img_sample(a, y, i) by {}
    if b.ihdr.color_type == ColorType::Indexed {
        assert forall|y: int, i: int|
            0 <= y < b.ihdr.height && 0 <= i < b.ihdr.spec_row_samples()
                implies #[trigger] spec_img_sample(b, y, i) < b.palette.unwrap().len() by {
            assert(spec_img_sample(a, y, i) < a.palette.unwrap().len());
        }
    }
    assert forall|p: int|
        0 <= p < spec_pixels(b).len() implies #[trigger] spec_pixels(b)[p] == spec_pixels(a)[p]
        by {
        let w = b.ihdr.width as int;
        assert(spec_pixel(b, p / w, p % w) == spec_pixel(a, p / w, p % w));
    }
    assert(spec_pixels(b) =~= spec_pixels(a));
}


/// The standard row layout is well formed for any well-formed image.
pub proof fn lemma_std_rows_wf(ihdr: IhdrData)
    requires
        ihdr.spec_dims_ok(),
        ihdr.spec_row_samples() >= 1,
    ensures
        crate::filters::layout_wf(spec_std_rows(ihdr), ihdr.spec_data_len()),
{
    let rows = spec_std_rows(ihdr);
    let rb = ihdr.spec_rb();
    let h = ihdr.height as int;
    assert(rb >= 1) by {
        assert((ihdr.spec_row_samples() * ihdr.bit_depth.spec_bits() + 7) / 8 >= 1)
            by (nonlinear_arith)
            requires
                ihdr.spec_row_samples() >= 1,
                ihdr.bit_depth.spec_bits() >= 1,
        ;
    }
    assert forall|i: int| 0 < i < rows.len() implies (#[trigger] rows[i]).start == rows[i
        - 1].start + rows[i - 1].len by {
        assert(i * rb == (i - 1) * rb + rb) by (nonlinear_arith);
        assert((i * rb) as usize as int == i * rb && ((i - 1) * rb) as usize as int == (i - 1)
            * rb) by (nonlinear_arith)
            requires
                0 < i < h,
                h * rb <= usize::MAX,
                rb >= 1,
        ;
    }
    assert forall|i: int| 0 <= i < rows.len() implies (#[trigger] rows[i]).start + rows[i].len
        <= ihdr.spec_data_len() by {
        assert(i * rb + rb <= h * rb && (i * rb) as usize as int == i * rb) by (nonlinear_arith)
            requires
                0 <= i < h,
                h * rb <= usize::MAX,
                rb >= 1,
        ;
    }
    assert(rows[h - 1].start + rows[h - 1].len == ihdr.spec_data_len()) by {
        assert((h - 1) * rb + rb == h * rb && ((h - 1) * rb) as usize as int == (h - 1) * rb)
            by (nonlinear_arith)
            requires
                h >= 1,
                h * rb <= usize::MAX,
                rb >= 1,
        ;
    }
}

/// Decoding is a function of the parsed chunk list: two deinterlaced models
/// of the same chunks agree on every component. With the encoder's exact
/// serialization contract, this pins the decode of an encoded image.
pub proof fn lemma_model_unique(
    chunks: Seq<(u32, Seq<u8>)>,
    a: PngImageV,
    ia: Seq<u8>,
    fa: Seq<u8>,
    b: PngImageV,
    ib: Seq<u8>,
    fb: Seq<u8>,
)
    requires
        spec_model_ok(chunks, a, ia, fa),
        spec_model_ok(chunks, b, ib, fb),
        img_wf(a),
        img_wf(b),
        a.ihdr.interlaced == Interlacing::Standard,
    ensures
        a.ihdr == b.ihdr,
        ia == ib,
        fa == fb,
        a.data == b.data,
        a.palette == b.palette,
        a.transparency == b.transparency,
        a.aux == b.aux,
{
    assert(a.ihdr == b.ihdr) by {
        assert(spec_parse_ihdr(chunks[0].1) == Some(a.ihdr));
        assert(spec_parse_ihdr(chunks[0].1) == Some(b.ihdr));
    }
    assert(ia == ib);
    assert(fa == fb) by {
        assert(crate::deflate::inflate_of(ia) == Some(fa));
        assert(crate::deflate::inflate_of(ib) == Some(fb));
    }
    assert(a.ihdr.spec_row_samples() >= 1) by (nonlinear_arith)
        requires
            a.ihdr.spec_row_samples() == a.ihdr.width as nat * a.ihdr.color_type.spec_channels(),
            a.ihdr.width >= 1,
            a.ihdr.color_type.spec_channels() >= 1,
    ;
    lemma_std_rows_wf(a.ihdr);
    let tags_a = choose|tags: Seq<u8>|
        crate::filters::spec_stream_ok(a.data, spec_std_rows(a.ihdr), spec_bpp(a.ihdr), tags, fa);
    let tags_b = choose|tags: Seq<u8>|
        crate::filters::spec_stream_ok(b.data, spec_std_rows(b.ihdr), spec_bpp(b.ihdr), tags, fb);
    assert(a.data.len() == a.ihdr.spec_data_len() && b.data.len() == b.ihdr.spec_data_len());
    crate::filters::lemma_stream_determines_data(
        a.data,
        b.data,
        spec_std_rows(a.ihdr),
        spec_bpp(a.ihdr),
        tags_a,
        tags_b,
        fa,
    );
}

} // verus!
