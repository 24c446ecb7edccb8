//! The row filter engine: the five PNG line filters, their inverses, and the
//! heuristic per-row choosers.

use vstd::prelude::*;
use crate::atomicmin::AtomicMin;
use crate::deflate;
use crate::error::PngError;

verus! {

/// A row filter, or a heuristic that chooses one per row.
#[derive(Clone, Copy, PartialEq, Eq, Structural, Debug, Hash)]
pub enum RowFilter {
    NoFilter,
    Sub,
    Up,
    Average,
    Paeth,
    MinSum,
    Entropy,
    Bigrams,
    BigEnt,
    Brute,
}

impl RowFilter {
    /// The position of this filter in the deterministic tie-break order.
    pub open spec fn spec_ordinal(self) -> u8 {
        match self {
            RowFilter::NoFilter => 0,
            RowFilter::Sub => 1,
            RowFilter::Up => 2,
            RowFilter::Average => 3,
            RowFilter::Paeth => 4,
            RowFilter::MinSum => 5,
            RowFilter::Entropy => 6,
            RowFilter::Bigrams => 7,
            RowFilter::BigEnt => 8,
            RowFilter::Brute => 9,
        }
    }

    pub fn ordinal(self) -> (r: u8)
        ensures
            r == self.spec_ordinal(),
    {
        match self {
            RowFilter::NoFilter => 0,
            RowFilter::Sub => 1,
            RowFilter::Up => 2,
            RowFilter::Average => 3,
            RowFilter::Paeth => 4,
            RowFilter::MinSum => 5,
            RowFilter::Entropy => 6,
            RowFilter::Bigrams => 7,
            RowFilter::BigEnt => 8,
            RowFilter::Brute => 9,
        }
    }

    /// Whether this is one of the five plain filters rather than a heuristic.
    pub open spec fn spec_is_plain(self) -> bool {
        self.spec_ordinal() <= 4
    }

    pub fn is_plain(self) -> (r: bool)
        ensures
            r == self.spec_is_plain(),
    {
        self.ordinal() <= 4
    }
}

/// Addition modulo 256.
pub open spec fn add_w(x: u8, y: u8) -> u8 {
    if x + y > 255 {
        (x + y - 256) as u8
    } else {
        (x + y) as u8
    }
}

/// Subtraction modulo 256.
pub open spec fn sub_w(x: u8, y: u8) -> u8 {
    if x >= y {
        (x - y) as u8
    } else {
        (x - y + 256) as u8
    }
}

/// Wrapped subtraction then addition of the same value restores the byte.
pub proof fn lemma_wrap_inverse(x: u8, y: u8)
    ensures
        add_w(sub_w(x, y), y) == x,
{
}

/// The Paeth predictor: whichever of left, above and upper-left is closest
/// to their linear estimate.
pub open spec fn spec_paeth(a: u8, b: u8, c: u8) -> u8 {
    let p = a + b - c;
    let pa = if p >= a {
        p - a
    } else {
        a - p
    };
    let pb = if p >= b {
        p - b
    } else {
        b - p
    };
    let pc = if p >= c {
        p - c
    } else {
        c - p
    };
    if pa <= pb && pa <= pc {
        a
    } else if pb <= pc {
        b
    } else {
        c
    }
}

pub fn paeth(a: u8, b: u8, c: u8) -> (r: u8)
    ensures
        r == spec_paeth(a, b, c),
{
    let p: i32 = a as i32 + b as i32 - c as i32;
    let pa: i32 = if p >= a as i32 {
        p - a as i32
    } else {
        a as i32 - p
    };
    let pb: i32 = if p >= b as i32 {
        p - b as i32
    } else {
        b as i32 - p
    };
    let pc: i32 = if p >= c as i32 {
        p - c as i32
    } else {
        c as i32 - p
    };
    if pa <= pb && pa <= pc {
        a
    } else if pb <= pc {
        b
    } else {
        c
    }
}

/// The predicted byte for a filter tag, from the left, above and upper-left
/// neighbors.
pub open spec fn spec_predictor(tag: u8, a: u8, b: u8, c: u8) -> u8 {
    if tag == 0 {
        0
    } else if tag == 1 {
        a
    } else if tag == 2 {
        b
    } else if tag == 3 {
        ((a + b) / 2) as u8
    } else {
        spec_paeth(a, b, c)
    }
}

pub fn predictor(tag: u8, a: u8, b: u8, c: u8) -> (r: u8)
    ensures
        r == spec_predictor(tag, a, b, c),
{
    if tag == 0 {
        0
    } else if tag == 1 {
        a
    } else if tag == 2 {
        b
    } else if tag == 3 {
        ((a as u16 + b as u16) / 2) as u8
    } else {
        paeth(a, b, c)
    }
}

/// A row of zeros, standing for the missing row above the first scanline.
pub open spec fn zero_row(n: nat) -> Seq<u8> {
    Seq::new(n, |j: int| 0u8)
}

/// The filtered form of a scanline: each byte minus its prediction from the
/// raw bytes to its left and above.
pub open spec fn spec_filter_row(cur: Seq<u8>, prev: Seq<u8>, bpp: nat, tag: u8) -> Seq<u8> {
    Seq::new(
        cur.len(),
        |j: int|
            sub_w(
                cur[j],
                spec_predictor(
                    tag,
                    if j >= bpp {
                        cur[j - bpp]
                    } else {
                        0
                    },
                    prev[j],
                    if j >= bpp {
                        prev[j - bpp]
                    } else {
                        0
                    },
                ),
            ),
    )
}

/// Byte `j` of the reconstruction of a filtered scanline. Reconstruction is
/// sequential: the left neighbor is itself reconstructed.
pub open spec fn spec_unfilter_byte(filt: Seq<u8>, prev: Seq<u8>, bpp: nat, tag: u8, j: int) -> u8
    recommends
        bpp >= 1,
    decreases j,
{
    add_w(
        filt[j],
        spec_predictor(
            tag,
            if j >= bpp && bpp >= 1 {
                spec_unfilter_byte(filt, prev, bpp, tag, j - bpp)
            } else {
                0
            },
            prev[j],
            if j >= bpp {
                prev[j - bpp]
            } else {
                0
            },
        ),
    )
}

/// The reconstruction of a whole filtered scanline.
pub open spec fn spec_unfilter_row(filt: Seq<u8>, prev: Seq<u8>, bpp: nat, tag: u8) -> Seq<u8> {
    Seq::new(filt.len(), |j: int| spec_unfilter_byte(filt, prev, bpp, tag, j))
}

/// Filtering then unfiltering restores every byte of the scanline.
pub proof fn lemma_unfilter_byte_inverse(cur: Seq<u8>, prev: Seq<u8>, bpp: nat, tag: u8, j: int)
    requires
        bpp >= 1,
        0 <= j < cur.len(),
        prev.len() == cur.len(),
    ensures
        spec_unfilter_byte(spec_filter_row(cur, prev, bpp, tag), prev, bpp, tag, j) == cur[j],
    decreases j,
{
    let filt = spec_filter_row(cur, prev, bpp, tag);
    if j >= bpp {
        lemma_unfilter_byte_inverse(cur, prev, bpp, tag, j - bpp);
    }
    let a = if j >= bpp {
        cur[j - bpp]
    } else {
        0
    };
    let c = if j >= bpp {
        prev[j - bpp]
    } else {
        0
    };
    lemma_wrap_inverse(cur[j], spec_predictor(tag, a, prev[j], c));
}

/// Row round trip: `unfilter(filter(row, prev)) == row`, for every row,
/// previous row, pixel distance and filter.
pub proof fn lemma_filter_round_trip(cur: Seq<u8>, prev: Seq<u8>, bpp: nat, tag: u8)
    requires
        bpp >= 1,
        prev.len() == cur.len(),
    ensures
        spec_unfilter_row(spec_filter_row(cur, prev, bpp, tag), prev, bpp, tag) == cur,
{
    let filt = spec_filter_row(cur, prev, bpp, tag);
    let out = spec_unfilter_row(filt, prev, bpp, tag);
    assert forall|j: int| 0 <= j < cur.len() implies out[j] == cur[j] by {
        lemma_unfilter_byte_inverse(cur, prev, bpp, tag, j);
    }
    assert(out =~= cur);
}

/// Filter one scanline.
pub fn filter_row(cur: &Vec<u8>, prev: &Vec<u8>, bpp: usize, tag: u8) -> (r: Vec<u8>)
    requires
        bpp >= 1,
        prev.len() == cur.len(),
        tag <= 4,
    ensures
        r@ == spec_filter_row(cur@, prev@, bpp as nat, tag),
{
    let mut out: Vec<u8> = Vec::new();
    let n = cur.len();
    let mut j: usize = 0;
    while j < n
        invariant
            j <= n,
            n == cur.len(),
            prev.len() == n,
            bpp >= 1,
            out@ == spec_filter_row(cur@, prev@, bpp as nat, tag).take(j as int),
        decreases n - j,
    {
        let a = if j >= bpp {
            cur[j - bpp]
        } else {
            0
        };
        let c = if j >= bpp {
            prev[j - bpp]
        } else {
            0
        };
        let pred = predictor(tag, a, prev[j], c);
        let x = cur[j];
        let fb = x.wrapping_sub(pred);
        proof {
            assert(fb == sub_w(x, pred));
        }
        out.push(fb);
        proof {
            assert(out@ =~= spec_filter_row(cur@, prev@, bpp as nat, tag).take(j + 1));
        }
        j = j + 1;
    }
    proof {
        assert(out@ =~= spec_filter_row(cur@, prev@, bpp as nat, tag));
    }
    out
}

/// Reconstruct one scanline from its filtered form.
pub fn unfilter_row(filt: &Vec<u8>, prev: &Vec<u8>, bpp: usize, tag: u8) -> (r: Vec<u8>)
    requires
        bpp >= 1,
        prev.len() == filt.len(),
        tag <= 4,
    ensures
        r@ == spec_unfilter_row(filt@, prev@, bpp as nat, tag),
{
    let mut out: Vec<u8> = Vec::new();
    let n = filt.len();
    let mut j: usize = 0;
    while j < n
        invariant
            j <= n,
            n == filt.len(),
            prev.len() == n,
            bpp >= 1,
            out@ == spec_unfilter_row(filt@, prev@, bpp as nat, tag).take(j as int),
        decreases n - j,
    {
        let a = if j >= bpp {
            let av = out[j - bpp];
            proof {
                assert(spec_unfilter_row(filt@, prev@, bpp as nat, tag).take(j as int)[j - bpp
                    as int] == spec_unfilter_byte(filt@, prev@, bpp as nat, tag, j - bpp as int));
            }
            av
        } else {
            0
        };
        let c = if j >= bpp {
            prev[j - bpp]
        } else {
            0
        };
        let pred = predictor(tag, a, prev[j], c);
        let rb = filt[j].wrapping_add(pred);
        proof {
            assert(rb == add_w(filt@[j as int], pred));
            assert(rb == spec_unfilter_byte(filt@, prev@, bpp as nat, tag, j as int));
        }
        out.push(rb);
        proof {
            assert(out@ =~= spec_unfilter_row(filt@, prev@, bpp as nat, tag).take(j + 1));
        }
        j = j + 1;
    }
    proof {
        assert(out@ =~= spec_unfilter_row(filt@, prev@, bpp as nat, tag));
    }
    out
}


/// One scanline's place in a serialized (possibly interlaced) buffer.
#[derive(Clone, Copy, PartialEq, Eq, Structural, Debug)]
pub struct RowInfo {
    pub start: usize,
    pub len: usize,
    /// True when no row stands above this one: the first row of the image or
    /// of an interlace pass. Its filters predict from a row of zeros.
    pub first: bool,
}

/// The rows tile the buffer contiguously, and every non-first row has the
/// same length as the row above it.
pub open spec fn layout_wf(rows: Seq<RowInfo>, total: nat) -> bool {
    &&& (rows.len() > 0 ==> rows[0].start == 0 && rows[0].first)
    &&& forall|i: int|
        0 < i < rows.len() ==> (#[trigger] rows[i]).start == rows[i - 1].start + rows[i - 1].len
    &&& forall|i: int| 0 < i < rows.len() && !(#[trigger] rows[i]).first ==> rows[i].len == rows[i
        - 1].len
    &&& forall|i: int| 0 <= i < rows.len() ==> (#[trigger] rows[i]).start + rows[i].len <= total
    &&& total == if rows.len() == 0 {
        0
    } else {
        rows[rows.len() - 1].start + rows[rows.len() - 1].len
    }
}

/// Row `i` of the raw buffer.
pub open spec fn row_of(data: Seq<u8>, rows: Seq<RowInfo>, i: int) -> Seq<u8> {
    data.subrange(rows[i].start as int, rows[i].start + rows[i].len)
}

/// The row above row `i`: the previous row, or zeros at a pass start.
pub open spec fn prev_of(data: Seq<u8>, rows: Seq<RowInfo>, i: int) -> Seq<u8> {
    if rows[i].first {
        zero_row(rows[i].len as nat)
    } else {
        row_of(data, rows, i - 1)
    }
}

/// The filtered stream `stream` is exactly the filtering of `data` under the
/// layout, the pixel byte distance `bpp`, and the per-row filter `tags`:
/// each row appears as one tag byte followed by its filtered bytes.
pub open spec fn spec_stream_ok(
    data: Seq<u8>,
    rows: Seq<RowInfo>,
    bpp: nat,
    tags: Seq<u8>,
    stream: Seq<u8>,
) -> bool {
    &&& stream.len() == data.len() + rows.len()
    &&& tags.len() == rows.len()
    &&& forall|i: int| 0 <= i < rows.len() ==> stream[rows[i].start + i] == tags[i]
    &&& forall|i: int|
        0 <= i < rows.len() ==> #[trigger] stream.subrange(
            rows[i].start + i + 1,
            rows[i].start + i + 1 + rows[i].len,
        ) == spec_filter_row(row_of(data, rows, i), prev_of(data, rows, i), bpp, tags[i])
}

/// Unfiltering is the inverse in the other direction as well: filtering a
/// reconstructed row restores the filtered bytes.
pub proof fn lemma_filter_of_unfilter(filt: Seq<u8>, prev: Seq<u8>, bpp: nat, tag: u8)
    requires
        bpp >= 1,
        prev.len() == filt.len(),
    ensures
        spec_filter_row(spec_unfilter_row(filt, prev, bpp, tag), prev, bpp, tag) == filt,
{
    let recon = spec_unfilter_row(filt, prev, bpp, tag);
    let out = spec_filter_row(recon, prev, bpp, tag);
    assert forall|j: int| 0 <= j < filt.len() implies out[j] == filt[j] by {
        let a = if j >= bpp {
            recon[j - bpp]
        } else {
            0
        };
        let c = if j >= bpp {
            prev[j - bpp]
        } else {
            0
        };
        let pred = spec_predictor(tag, a, prev[j], c);
        assert(recon[j] == add_w(filt[j], pred));
        assert(sub_w(add_w(filt[j], pred), pred) == filt[j]);
    }
    assert(out =~= filt);
}

/// A filtered stream reconstructs to exactly one raw buffer.
pub proof fn lemma_stream_determines_data(
    d1: Seq<u8>,
    d2: Seq<u8>,
    rows: Seq<RowInfo>,
    bpp: nat,
    tags1: Seq<u8>,
    tags2: Seq<u8>,
    stream: Seq<u8>,
)
    requires
        bpp >= 1,
        layout_wf(rows, d1.len()),
        layout_wf(rows, d2.len()),
        spec_stream_ok(d1, rows, bpp, tags1, stream),
        spec_stream_ok(d2, rows, bpp, tags2, stream),
    ensures
        d1 == d2,
{
    if rows.len() == 0 {
        assert(d1 =~= d2);
    } else {
        lemma_stream_prefix_eq(d1, d2, rows, bpp, tags1, tags2, stream, rows.len() - 1);
        let last = rows[rows.len() - 1];
        assert(d1.subrange(0, last.start + last.len) =~= d1);
        assert(d2.subrange(0, last.start + last.len) =~= d2);
    }
}

/// Two rows that filter to the same bytes against the same previous row are
/// equal.
proof fn lemma_row_unique(part: Seq<u8>, prev: Seq<u8>, bpp: nat, tag: u8, r1: Seq<u8>, r2: Seq<u8>)
    requires
        bpp >= 1,
        prev.len() == r1.len(),
        r1.len() == r2.len(),
        part == spec_filter_row(r1, prev, bpp, tag),
        part == spec_filter_row(r2, prev, bpp, tag),
    ensures
        r1 == r2,
{
    lemma_filter_round_trip(r1, prev, bpp, tag);
    lemma_filter_round_trip(r2, prev, bpp, tag);
}

/// Prefix form of the uniqueness argument, by induction over rows: the rows
/// so far, and the bytes they tile, agree.
#[verifier::rlimit(100)]
#[verifier::spinoff_prover]
proof fn lemma_stream_prefix_eq(
    d1: Seq<u8>,
    d2: Seq<u8>,
    rows: Seq<RowInfo>,
    bpp: nat,
    tags1: Seq<u8>,
    tags2: Seq<u8>,
    stream: Seq<u8>,
    i: int,
)
    requires
        bpp >= 1,
        layout_wf(rows, d1.len()),
        layout_wf(rows, d2.len()),
        spec_stream_ok(d1, rows, bpp, tags1, stream),
        spec_stream_ok(d2, rows, bpp, tags2, stream),
        0 <= i < rows.len(),
    ensures
        forall|k: int| 0 <= k <= i ==> row_of(d1, rows, k) == row_of(d2, rows, k),
        d1.subrange(0, rows[i].start + rows[i].len) == d2.subrange(
            0,
            rows[i].start + rows[i].len,
        ),
    decreases i,
{
    if i > 0 {
        lemma_stream_prefix_eq(d1, d2, rows, bpp, tags1, tags2, stream, i - 1);
    }
    assert(tags1[i] == stream[rows[i].start + i] && tags2[i] == stream[rows[i].start + i]);
    let tag = tags1[i];
    let p1 = prev_of(d1, rows, i);
    let p2 = prev_of(d2, rows, i);
    assert(p1 == p2) by {
        if !rows[i].first {
            assert(row_of(d1, rows, i - 1) == row_of(d2, rows, i - 1));
        }
    }
    assert(p1.len() == rows[i].len) by {
        if !rows[i].first {
            assert(rows[i].len == rows[i - 1].len);
        }
    }
    let part = stream.subrange(rows[i].start + i + 1, rows[i].start + i + 1 + rows[i].len);
    lemma_row_unique(part, p1, bpp, tag, row_of(d1, rows, i), row_of(d2, rows, i));
    if i > 0 {
        let pr = rows[i - 1];
        assert(d1.subrange(0, rows[i].start + rows[i].len) =~= d1.subrange(0, pr.start + pr.len)
            + row_of(d1, rows, i));
        assert(d2.subrange(0, rows[i].start + rows[i].len) =~= d2.subrange(0, pr.start + pr.len)
            + row_of(d2, rows, i));
    } else {
        assert(d1.subrange(0, rows[0].start + rows[0].len) =~= row_of(d1, rows, 0));
        assert(d2.subrange(0, rows[0].start + rows[0].len) =~= row_of(d2, rows, 0));
    }
}

/// Copy `data[start..start+len]`.
pub fn copy_range(data: &Vec<u8>, start: usize, len: usize) -> (r: Vec<u8>)
    requires
        start + len <= data.len(),
    ensures
        r@ == data@.subrange(start as int, start + len),
{
    let mut out: Vec<u8> = Vec::new();
    let mut j: usize = 0;
    while j < len
        invariant
            j <= len,
            start + len <= data.len(),
            out@ == data@.subrange(start as int, start + j),
        decreases len - j,
    {
        out.push(data[start + j]);
        proof {
            assert(out@ =~= data@.subrange(start as int, start + j + 1));
        }
        j = j + 1;
    }
    out
}

/// A vector of `len` zero bytes.
pub fn zero_vec(len: usize) -> (r: Vec<u8>)
    ensures
        r@ == zero_row(len as nat),
{
    let mut out: Vec<u8> = Vec::new();
    let mut j: usize = 0;
    while j < len
        invariant
            j <= len,
            out@ == zero_row(j as nat),
        decreases len - j,
    {
        out.push(0);
        proof {
            assert(out@ =~= zero_row((j + 1) as nat));
        }
        j = j + 1;
    }
    out
}

/// The first `i` rows of `out` are the filtered form of the first `i` rows
/// of `data`.
pub open spec fn stream_prefix_ok(
    data: Seq<u8>,
    rows: Seq<RowInfo>,
    bpp: nat,
    tags: Seq<u8>,
    out: Seq<u8>,
    i: int,
) -> bool {
    &&& tags.len() >= i
    &&& out.len() == if i == 0 {
        0int
    } else {
        rows[i - 1].start + rows[i - 1].len + i
    }
    &&& forall|k: int| 0 <= k < i ==> out[rows[k].start + k] == tags[k]
    &&& forall|k: int|
        0 <= k < i ==> #[trigger] out.subrange(
            rows[k].start + k + 1,
            rows[k].start + k + 1 + rows[k].len,
        ) == spec_filter_row(row_of(data, rows, k), prev_of(data, rows, k), bpp, tags[k])
}

/// Appending row `i`'s tag and filtered bytes extends a good prefix by one
/// row.
#[verifier::rlimit(60)]
proof fn lemma_stream_prefix_push(
    data: Seq<u8>,
    rows: Seq<RowInfo>,
    bpp: nat,
    tags: Seq<u8>,
    out_before: Seq<u8>,
    fr: Seq<u8>,
    out_after: Seq<u8>,
    i: int,
)
    requires
        layout_wf(rows, data.len()),
        0 <= i < rows.len(),
        tags.len() > i,
        stream_prefix_ok(data, rows, bpp, tags, out_before, i),
        fr == spec_filter_row(row_of(data, rows, i), prev_of(data, rows, i), bpp, tags[i]),
        out_after == out_before + seq![tags[i]] + fr,
    ensures
        stream_prefix_ok(data, rows, bpp, tags, out_after, i + 1),
{
    assert(out_before.len() == rows[i].start + i);
    assert(fr.len() == rows[i].len);
    assert(out_after.len() == rows[i].start + rows[i].len + i + 1);
    assert(out_after[rows[i].start + i] == tags[i]);
    assert(out_after.subrange(rows[i].start + i + 1, rows[i].start + i + 1 + rows[i].len)
        =~= fr);
    assert forall|k: int| 0 <= k < i + 1 implies out_after[rows[k].start + k] == tags[k] by {
        if k < i {
            assert(rows[k].start + rows[k].len <= rows[i].start) by {
                lemma_layout_monotonic(rows, data.len(), k, i);
            }
            assert(out_after[rows[k].start + k] == out_before[rows[k].start + k]);
        }
    }
    assert forall|k: int|
        0 <= k < i + 1 implies #[trigger] out_after.subrange(
        rows[k].start + k + 1,
        rows[k].start + k + 1 + rows[k].len,
    ) == spec_filter_row(row_of(data, rows, k), prev_of(data, rows, k), bpp, tags[k]) by {
        if k < i {
            assert(rows[k].start + rows[k].len <= rows[i].start) by {
                lemma_layout_monotonic(rows, data.len(), k, i);
            }
            assert(out_after.subrange(rows[k].start + k + 1, rows[k].start + k + 1 + rows[k].len)
                =~= out_before.subrange(
                rows[k].start + k + 1,
                rows[k].start + k + 1 + rows[k].len,
            ));
        }
    }
}

/// Rows earlier in the layout end no later than later rows begin.
pub proof fn lemma_layout_monotonic(rows: Seq<RowInfo>, total: nat, k: int, i: int)
    requires
        layout_wf(rows, total),
        0 <= k < i < rows.len(),
    ensures
        rows[k].start + rows[k].len <= rows[i].start,
    decreases i - k,
{
    if k + 1 < i {
        lemma_layout_monotonic(rows, total, k + 1, i);
    }
}

/// Filter the raw buffer under a layout with the given per-row tags,
/// producing the tagged filtered stream.
pub fn filter_layout(data: &Vec<u8>, rows: &Vec<RowInfo>, bpp: usize, tags: &Vec<u8>) -> (out: Vec<
    u8,
>)
    requires
        bpp >= 1,
        layout_wf(rows@, data.len() as nat),
        tags.len() == rows.len(),
        forall|i: int| 0 <= i < tags.len() ==> tags[i] <= 4,
        data.len() + rows.len() <= usize::MAX,
    ensures
        spec_stream_ok(data@, rows@, bpp as nat, tags@, out@),
{
    let n = rows.len();
    let mut out: Vec<u8> = Vec::new();
    let mut i: usize = 0;
    while i < n
        invariant
            i <= n,
            n == rows.len(),
            tags.len() == n,
            bpp >= 1,
            layout_wf(rows@, data.len() as nat),
            forall|k: int| 0 <= k < n ==> tags[k] <= 4,
            data.len() + n <= usize::MAX,
            stream_prefix_ok(data@, rows@, bpp as nat, tags@, out@, i as int),
        decreases n - i,
    {
        let info = rows[i];
        proof {
            if i > 0 {
                assert(rows@[i as int].start == rows@[i - 1].start + rows@[i - 1].len);
            }
            assert(out@.len() == info.start + i);
            assert(info.start + info.len <= data.len());
            if !info.first {
                assert(rows@[i - 1].start + rows@[i - 1].len <= data.len());
            }
        }
        let cur = copy_range(data, info.start, info.len);
        let prev: Vec<u8> = if info.first {
            zero_vec(info.len)
        } else {
            let pr = rows[i - 1];
            copy_range(data, pr.start, pr.len)
        };
        let ghost out_before = out@;
        out.push(tags[i]);
        let mut fr = filter_row(&cur, &prev, bpp, tags[i]);
        let ghost fr_snap = fr@;
        out.append(&mut fr);
        proof {
            assert(cur@ == row_of(data@, rows@, i as int));
            assert(prev@ == prev_of(data@, rows@, i as int));
            assert(out@ =~= out_before + seq![tags@[i as int]] + fr_snap);
            lemma_stream_prefix_push(data@, rows@, bpp as nat, tags@, out_before, fr_snap, out@,
                i as int);
        }
        i = i + 1;
    }
    proof {
        assert(stream_prefix_ok(data@, rows@, bpp as nat, tags@, out@, n as int));
        if n > 0 {
            assert(out@.len() == data.len() + n);
        }
    }
    out
}

/// The first `i` rows of `data` reconstruct the first `i` rows of `stream`.
pub open spec fn recon_prefix_ok(
    stream: Seq<u8>,
    rows: Seq<RowInfo>,
    bpp: nat,
    tags: Seq<u8>,
    data: Seq<u8>,
    i: int,
) -> bool {
    &&& tags.len() == i
    &&& data.len() == if i == 0 {
        0int
    } else {
        rows[i - 1].start + rows[i - 1].len
    }
    &&& forall|k: int| 0 <= k < i ==> stream[rows[k].start + k] == tags[k]
    &&& forall|k: int|
        0 <= k < i ==> #[trigger] stream.subrange(
            rows[k].start + k + 1,
            rows[k].start + k + 1 + rows[k].len,
        ) == spec_filter_row(row_of(data, rows, k), prev_of(data, rows, k), bpp, tags[k])
}

/// Appending row `i`'s reconstruction extends a good prefix by one row.
#[verifier::rlimit(60)]
proof fn lemma_recon_prefix_push(
    stream: Seq<u8>,
    rows: Seq<RowInfo>,
    bpp: nat,
    tags: Seq<u8>,
    data_before: Seq<u8>,
    filt: Seq<u8>,
    prev: Seq<u8>,
    recon: Seq<u8>,
    data_after: Seq<u8>,
    i: int,
    tag: u8,
)
    requires
        bpp >= 1,
        layout_wf(rows, (stream.len() - rows.len()) as nat),
        rows.len() <= stream.len(),
        0 <= i < rows.len(),
        recon_prefix_ok(stream, rows, bpp, tags, data_before, i),
        stream[rows[i].start + i] == tag,
        filt == stream.subrange(rows[i].start + i + 1, rows[i].start + i + 1 + rows[i].len),
        prev == (if rows[i].first {
            zero_row(rows[i].len as nat)
        } else {
            data_before.subrange(rows[i - 1].start as int, rows[i - 1].start + rows[i - 1].len)
        }),
        recon == spec_unfilter_row(filt, prev, bpp, tag),
        data_after == data_before + recon,
    ensures
        recon_prefix_ok(stream, rows, bpp, tags.push(tag), data_after, i + 1),
{
    assert(data_before.len() == rows[i].start);
    assert(filt.len() == rows[i].len);
    assert(recon.len() == rows[i].len);
    assert(row_of(data_after, rows, i) =~= recon);
    assert(prev == prev_of(data_after, rows, i)) by {
        if !rows[i].first {
            assert(row_of(data_after, rows, i - 1) =~= data_before.subrange(
                rows[i - 1].start as int,
                rows[i - 1].start + rows[i - 1].len,
            ));
        }
    }
    lemma_filter_of_unfilter(filt, prev, bpp, tag);
    let tags2 = tags.push(tag);
    assert forall|k: int|
        0 <= k < i + 1 implies #[trigger] stream.subrange(
        rows[k].start + k + 1,
        rows[k].start + k + 1 + rows[k].len,
    ) == spec_filter_row(row_of(data_after, rows, k), prev_of(data_after, rows, k), bpp, tags2[k])
        by {
        if k < i {
            assert(rows[k].start + rows[k].len <= rows[i].start) by {
                lemma_layout_monotonic(rows, (stream.len() - rows.len()) as nat, k, i);
            }
            assert(row_of(data_after, rows, k) =~= row_of(data_before, rows, k));
            if !rows[k].first {
                assert(rows[k - 1].start + rows[k - 1].len <= rows[i].start) by {
                    lemma_layout_monotonic(rows, (stream.len() - rows.len()) as nat, k - 1, i);
                }
                assert(prev_of(data_after, rows, k) =~= prev_of(data_before, rows, k));
            } else {
                assert(prev_of(data_after, rows, k) =~= prev_of(data_before, rows, k));
            }
            assert(stream.subrange(rows[k].start + k + 1, rows[k].start + k + 1 + rows[k].len)
                == spec_filter_row(
                row_of(data_before, rows, k),
                prev_of(data_before, rows, k),
                bpp,
                tags[k],
            ));
        } else {
            assert(stream.subrange(rows[i].start + i + 1, rows[i].start + i + 1 + rows[i].len)
                == spec_filter_row(recon, prev, bpp, tag));
        }
    }
}

/// Reconstruct the raw buffer from a tagged filtered stream under a layout.
/// Fails when a row carries an unknown filter tag.
#[verifier::rlimit(100)]
#[verifier::spinoff_prover]
pub fn unfilter_layout(stream: &Vec<u8>, rows: &Vec<RowInfo>, bpp: usize) -> (r: Result<
    Vec<u8>,
    PngError,
>)
    requires
        bpp >= 1,
        rows.len() <= stream.len(),
        layout_wf(rows@, (stream.len() - rows.len()) as nat),
    ensures
        match r {
            Ok(data) => data.len() == stream.len() - rows.len() && exists|tags: Seq<u8>|
                spec_stream_ok(data@, rows@, bpp as nat, tags, stream@),
            Err(e) => e == PngError::InvalidHeader,
        },
{
    let n = rows.len();
    let ghost total = (stream.len() - rows.len()) as nat;
    let mut data: Vec<u8> = Vec::new();
    let ghost mut tags: Seq<u8> = Seq::empty();
    let mut i: usize = 0;
    while i < n
        invariant
            i <= n,
            n == rows.len(),
            bpp >= 1,
            rows.len() <= stream.len(),
            layout_wf(rows@, total),
            total == stream.len() - rows.len(),
            recon_prefix_ok(stream@, rows@, bpp as nat, tags, data@, i as int),
        decreases n - i,
    {
        let info = rows[i];
        proof {
            if i > 0 {
                assert(rows@[i as int].start == rows@[i - 1].start + rows@[i - 1].len);
            }
            assert(info.start + info.len <= total);
            assert(data@.len() == info.start);
        }
        let pos = info.start + i;
        let tag = stream[pos];
        if tag > 4 {
            return Err(PngError::InvalidHeader);
        }
        let filt = copy_range(stream, pos + 1, info.len);
        let prev: Vec<u8> = if info.first {
            zero_vec(info.len)
        } else {
            let pr = rows[i - 1];
            copy_range(&data, pr.start, pr.len)
        };
        let mut recon = unfilter_row(&filt, &prev, bpp, tag);
        let ghost data_before = data@;
        let ghost recon_snap = recon@;
        data.append(&mut recon);
        proof {
            lemma_recon_prefix_push(stream@, rows@, bpp as nat, tags, data_before, filt@, prev@,
                recon_snap, data@, i as int, tag);
            tags = tags.push(tag);
        }
        i = i + 1;
    }
    proof {
        assert(recon_prefix_ok(stream@, rows@, bpp as nat, tags, data@, n as int));
        if n > 0 {
            assert(data@.len() == total);
        }
        assert(stream@.len() == data@.len() + rows@.len());
        assert(tags.len() == rows@.len());
        assert(forall|k: int| 0 <= k < rows@.len() ==> stream@[rows@[k].start + k] == tags[k]);
        assert(forall|k: int|
            0 <= k < rows@.len() ==> #[trigger] stream@.subrange(
                rows@[k].start + k + 1,
                rows@[k].start + k + 1 + rows@[k].len,
            ) == spec_filter_row(
                row_of(data@, rows@, k),
                prev_of(data@, rows@, k),
                bpp as nat,
                tags[k],
            ));
        assert(spec_stream_ok(data@, rows@, bpp as nat, tags, stream@));
        assert(exists|tags0: Seq<u8>| spec_stream_ok(data@, rows@, bpp as nat, tags0, stream@));
    }
    Ok(data)
}


/// The layout of a deinterlaced image: `h` rows of `rb` bytes.
pub fn standard_layout(h: usize, rb: usize) -> (rows: Vec<RowInfo>)
    requires
        h >= 1,
        rb >= 1,
        h * rb <= usize::MAX,
    ensures
        rows.len() == h,
        layout_wf(rows@, (h * rb) as nat),
        forall|i: int|
            0 <= i < h ==> (#[trigger] rows@[i]).start == i * rb && rows@[i].len == rb
                && rows@[i].first == (i == 0),
{
    let mut rows: Vec<RowInfo> = Vec::new();
    let mut y: usize = 0;
    while y < h
        invariant
            y <= h,
            h >= 1,
            rb >= 1,
            h * rb <= usize::MAX,
            rows.len() == y,
            forall|i: int|
                0 <= i < y ==> (#[trigger] rows@[i]).start == i * rb && rows@[i].len == rb
                    && rows@[i].first == (i == 0),
        decreases h - y,
    {
        proof {
            assert(y * rb + rb <= h * rb) by (nonlinear_arith)
                requires
                    y < h,
                    rb >= 1,
            ;
        }
        rows.push(RowInfo { start: y * rb, len: rb, first: y == 0 });
        y = y + 1;
    }
    proof {
        assert forall|i: int| 0 < i < h implies (#[trigger] rows@[i]).start == rows@[i - 1].start
            + rows@[i - 1].len by {
            assert(i * rb == (i - 1) * rb + rb) by (nonlinear_arith);
        }
        assert forall|i: int| 0 <= i < h implies (#[trigger] rows@[i]).start + rows@[i].len <= h
            * rb by {
            assert(i * rb + rb <= h * rb) by (nonlinear_arith)
                requires
                    0 <= i < h,
            ;
        }
        assert(rows@[h - 1].start + rows@[h - 1].len == h * rb) by {
            assert((h - 1) * rb + rb == h * rb) by (nonlinear_arith);
        }
    }
    rows
}

/// Integer floor of the base-2 logarithm.
fn ilog2(x: u64) -> (r: u32)
    ensures
        r <= 63,
{
    let mut v = x;
    let mut r: u32 = 0;
    while v >= 2
        invariant
            r <= 63,
        decreases v,
    {
        v = v / 2;
        if r < 63 {
            r = r + 1;
        }
    }
    r
}

/// An integer estimate of the coded size of a row under a byte histogram:
/// frequent values count for fewer bits.
fn entropy_score(row: &Vec<u8>) -> (score: u128) {
    let mut counts: Vec<u64> = Vec::new();
    let mut k: usize = 0;
    while k < 256
        invariant
            counts.len() == k,
            k <= 256,
        decreases 256 - k,
    {
        counts.push(0);
        k = k + 1;
    }
    let mut j: usize = 0;
    while j < row.len()
        invariant
            counts.len() == 256,
        decreases row.len() - j,
    {
        let b = row[j] as usize;
        let c = counts[b];
        if c < u64::MAX {
            counts.set(b, c + 1);
        }
        j = j + 1;
    }
    let total_bits = ilog2(row.len() as u64) + 1;
    let mut score: u128 = 0;
    let mut v: usize = 0;
    while v < 256
        invariant
            counts.len() == 256,
            v <= 256,
            total_bits <= 64,
            score <= 0xffff_ffff_ffff_ffff_ffff_ffff_u128,
        decreases 256 - v,
    {
        let c = counts[v];
        if c > 0 {
            let lb = ilog2(c);
            let bits: u32 = if total_bits > lb {
                total_bits - lb
            } else {
                1
            };
            proof {
                assert((c as u128) * (bits as u128) <= 0xffff_ffff_ffff_ffff_u128 * 64)
                    by (nonlinear_arith)
                    requires
                        c <= u64::MAX,
                        bits <= 64,
                ;
            }
            let add128 = (c as u128) * (bits as u128);
            if score <= 0xffff_ffff_ffff_ffff_ffff_u128 {
                score = score + add128;
            }
        }
        v = v + 1;
    }
    score
}

/// An integer estimate of the coded size of a row under an adjacent byte
/// pair histogram.
fn bigram_score(row: &Vec<u8>) -> (score: u128) {
    let mut counts: Vec<u64> = Vec::new();
    let mut k: usize = 0;
    while k < 65536
        invariant
            counts.len() == k,
            k <= 65536,
        decreases 65536 - k,
    {
        counts.push(0);
        k = k + 1;
    }
    let mut j: usize = 0;
    while j < row.len() && j + 1 < row.len()
        invariant
            counts.len() == 65536,
            j <= row.len(),
        decreases row.len() - j,
    {
        let b = (row[j] as usize) * 256 + (row[j + 1] as usize);
        let c = counts[b];
        if c < u64::MAX {
            counts.set(b, c + 1);
        }
        j = j + 1;
    }
    let total_bits = ilog2(row.len() as u64) + 1;
    let mut score: u128 = 0;
    let mut v: usize = 0;
    while v < 65536
        invariant
            counts.len() == 65536,
            v <= 65536,
            total_bits <= 64,
            score <= 0xffff_ffff_ffff_ffff_ffff_ffff_u128,
        decreases 65536 - v,
    {
        let c = counts[v];
        if c > 0 {
            let lb = ilog2(c);
            let bits: u32 = if total_bits > lb {
                total_bits - lb
            } else {
                1
            };
            proof {
                assert((c as u128) * (bits as u128) <= 0xffff_ffff_ffff_ffff_u128 * 64)
                    by (nonlinear_arith)
                    requires
                        c <= u64::MAX,
                        bits <= 64,
                ;
            }
            let add128 = (c as u128) * (bits as u128);
            if score <= 0xffff_ffff_ffff_ffff_ffff_u128 {
                score = score + add128;
            }
        }
        v = v + 1;
    }
    score
}

/// Sum of absolute signed values of the filtered bytes: the classic minimum
/// sum heuristic.
fn min_sum_score(row: &Vec<u8>) -> (score: u128) {
    let mut score: u128 = 0;
    let mut j: usize = 0;
    while j < row.len()
        invariant
            score <= 128 * j as u128,
            j <= row.len(),
        decreases row.len() - j,
    {
        let b = row[j];
        let mag: u128 = if b < 128 {
            b as u128
        } else {
            256 - b as u128
        };
        score = score + mag;
        j = j + 1;
    }
    score
}

/// Sum of the row's bytes, the penalty term of the `BigEnt` heuristic.
fn byte_sum(row: &Vec<u8>) -> (score: u128) {
    let mut score: u128 = 0;
    let mut j: usize = 0;
    while j < row.len()
        invariant
            score <= 255 * j as u128,
            j <= row.len(),
        decreases row.len() - j,
    {
        score = score + row[j] as u128;
        j = j + 1;
    }
    score
}

/// Score one filtered row candidate under a heuristic.
fn heuristic_score(f: RowFilter, fr: &Vec<u8>) -> (score: u128) {
    match f {
        RowFilter::MinSum => min_sum_score(fr),
        RowFilter::Entropy => entropy_score(fr),
        RowFilter::Bigrams => bigram_score(fr),
        RowFilter::BigEnt => {
            let s = bigram_score(fr);
            let p = byte_sum(fr);
            if s <= u128::MAX - p {
                s + p
            } else {
                u128::MAX
            }
        },
        _ => {
            let best = AtomicMin::new(Option::None);
            match deflate::deflate(fr.as_slice(), 2, &best) {
                Ok(v) => v.len() as u128,
                Err(_) => u128::MAX,
            }
        },
    }
}

/// Choose a filter tag for every row: the plain filters choose themselves,
/// and their tags are pinned exactly; a heuristic filters each row five
/// ways and keeps the cheapest under its integer score, breaking ties
/// toward the lower tag. Which tag a heuristic picks is an empirical
/// size-estimate choice, so only its validity is stated: any choice of
/// valid tags reconstructs losslessly.
pub fn choose_tags(data: &Vec<u8>, rows: &Vec<RowInfo>, bpp: usize, f: RowFilter) -> (tags: Vec<
    u8,
>)
    requires
        bpp >= 1,
        layout_wf(rows@, data.len() as nat),
    ensures
        tags.len() == rows.len(),
        forall|i: int| 0 <= i < tags.len() ==> tags[i] <= 4,
        f.spec_is_plain() ==> forall|i: int| 0 <= i < tags.len() ==> tags[i] == f.spec_ordinal(),
{
    let n = rows.len();
    let mut tags: Vec<u8> = Vec::new();
    if f.is_plain() {
        let t = f.ordinal();
        let mut i: usize = 0;
        while i < n
            invariant
                i <= n,
                t <= 4,
                t == f.spec_ordinal(),
                tags.len() == i,
                forall|k: int| 0 <= k < i ==> tags[k] == t,
            decreases n - i,
        {
            tags.push(t);
            i = i + 1;
        }
        return tags;
    }
    let mut i: usize = 0;
    while i < n
        invariant
            i <= n,
            n == rows.len(),
            bpp >= 1,
            layout_wf(rows@, data.len() as nat),
            tags.len() == i,
            forall|k: int| 0 <= k < i ==> tags[k] <= 4,
        decreases n - i,
    {
        let info = rows[i];
        proof {
            if i > 0 {
                assert(rows@[i as int].start == rows@[i - 1].start + rows@[i - 1].len);
            }
            assert(info.start + info.len <= data.len());
            if !info.first {
                assert(rows@[i - 1].start + rows@[i - 1].len <= data.len());
            }
        }
        let cur = copy_range(data, info.start, info.len);
        let prev: Vec<u8> = if info.first {
            zero_vec(info.len)
        } else {
            let pr = rows[i - 1];
            copy_range(data, pr.start, pr.len)
        };
        let mut best_tag: u8 = 0;
        let mut best_score: u128 = u128::MAX;
        let mut t: u8 = 0;
        while t <= 4
            invariant
                best_tag <= 4,
                bpp >= 1,
                prev.len() == cur.len(),
                t <= 5,
            decreases 5 - t,
        {
            let fr = filter_row(&cur, &prev, bpp, t);
            let score = heuristic_score(f, &fr);
            if score < best_score {
                best_score = score;
                best_tag = t;
            }
            t = t + 1;
        }
        tags.push(best_tag);
        i = i + 1;
    }
    tags
}

} // verus!
