//! Lossless PNG optimizer core.
//!
//! The engine decodes a PNG byte stream into a structured image, applies a
//! lattice of pixel-preserving reductions (bit depth, color type, palette,
//! alpha cleaning), evaluates candidate encodings over row filters and a
//! DEFLATE compressor, and re-encodes the smallest result. Every transform
//! carries a proof that no visible pixel changes.

pub mod atomicmin;
pub mod bits;
pub mod crc;
pub mod deadline;
pub mod evaluate;
pub mod deflate;
pub mod colors;
pub mod error;
pub mod filters;
pub mod headers;
pub mod interlace;
pub mod png;
pub mod reduction;

use vstd::prelude::*;
use crate::atomicmin::AtomicMin;
use crate::deadline::Deadline;
use crate::deflate::Deflaters;
use crate::error::{PngError, PngResult};
use crate::filters::RowFilter;
use crate::headers::Headers;
use crate::interlace::Interlacing;
use crate::png::{PngData, PngImage, img_wf, spec_pixels, spec_vis_equal, spec_png_bytes};
use crate::evaluate::Evaluator;

verus! {

#[verifier::external_type_specification]
#[verifier::external_body]
pub struct ExPathBuf(std::path::PathBuf);

/// Where to write the result.
pub enum OutFile {
    /// A path, or the input's own path when absent.
    Path(Option<std::path::PathBuf>),
    StdOut,
}

impl OutFile {
    pub fn path(&self) -> (r: Option<&std::path::PathBuf>)
        ensures
            match self {
                OutFile::Path(Some(p)) => r == Some(p),
                _ => r is None,
            },
    {
        match self {
            OutFile::Path(Some(p)) => Some(p),
            _ => Option::None,
        }
    }
}

/// Where to read the image from.
pub enum InFile {
    Path(std::path::PathBuf),
    StdIn,
}

impl InFile {
    pub fn path(&self) -> (r: Option<&std::path::PathBuf>)
        ensures
            match self {
                InFile::Path(p) => r == Some(p),
                InFile::StdIn => r is None,
            },
    {
        match self {
            InFile::Path(p) => Some(p),
            InFile::StdIn => Option::None,
        }
    }
}

/// Options controlling the optimization pipeline.
pub struct Options {
    /// Back the input file up before writing over it.
    pub backup: bool,
    /// Tolerate recoverable decode errors instead of failing.
    pub fix_errors: bool,
    /// Decode only; never optimize or write.
    pub check: bool,
    /// Compute the best result but write nothing.
    pub pretend: bool,
    /// Emit the output even when it is no smaller than the input.
    pub force: bool,
    /// Give the output file the input file's permissions and times.
    pub preserve_attrs: bool,
    /// The row filters the trial phase may use; empty means automatic.
    pub filter: Vec<RowFilter>,
    /// Change the interlacing to this mode; `None` keeps the current one.
    pub interlace: Option<Interlacing>,
    /// Allow fully transparent pixels to be rewritten.
    pub optimize_alpha: bool,
    /// Attempt bit depth reduction.
    pub bit_depth_reduction: bool,
    /// Attempt color type reduction.
    pub color_type_reduction: bool,
    /// Attempt palette reduction.
    pub palette_reduction: bool,
    /// Attempt grayscale reduction.
    pub grayscale_reduction: bool,
    /// Recompress the image data even when no reduction changed the image.
    pub idat_recoding: bool,
    /// Which auxiliary chunks to strip.
    pub strip: Headers,
    /// The DEFLATE strategy for the main trials.
    pub deflate: Deflaters,
    /// Evaluate filters cheaply first, then run one main compression pass.
    pub fast_evaluation: bool,
    /// Stop starting new work after this many milliseconds.
    pub timeout: Option<u64>,
}

/// Two option sets agree on everything except the trial knobs (the filter
/// set, fast evaluation and the deflate strategy), which the presets tune.
pub open spec fn spec_same_but_trials(a: Options, b: Options) -> bool {
    &&& a.backup == b.backup
    &&& a.fix_errors == b.fix_errors
    &&& a.check == b.check
    &&& a.pretend == b.pretend
    &&& a.force == b.force
    &&& a.preserve_attrs == b.preserve_attrs
    &&& a.interlace == b.interlace
    &&& a.optimize_alpha == b.optimize_alpha
    &&& a.bit_depth_reduction == b.bit_depth_reduction
    &&& a.color_type_reduction == b.color_type_reduction
    &&& a.palette_reduction == b.palette_reduction
    &&& a.grayscale_reduction == b.grayscale_reduction
    &&& a.idat_recoding == b.idat_recoding
    &&& a.strip == b.strip
    &&& a.timeout == b.timeout
}

impl Options {
    /// The defaults: every reduction on, four trial filters, cheap level
    /// 11, fast evaluation.
    pub fn default_options() -> (r: Options)
        ensures
            r.backup == false && r.fix_errors == false && r.check == false && r.pretend == false
                && r.force == false && r.preserve_attrs == false,
            r.filter@ == seq![
                RowFilter::NoFilter,
                RowFilter::Sub,
                RowFilter::Entropy,
                RowFilter::Bigrams,
            ],
            r.interlace is None,
            r.optimize_alpha == false,
            r.bit_depth_reduction && r.color_type_reduction && r.palette_reduction
                && r.grayscale_reduction && r.idat_recoding,
            r.strip matches Headers::NoStrip,
            r.deflate matches Deflaters::Libdeflater { compression } && compression == 11,
            r.fast_evaluation == true,
            r.timeout is None,
    {
        let mut filter: Vec<RowFilter> = Vec::new();
        filter.push(RowFilter::NoFilter);
        filter.push(RowFilter::Sub);
        filter.push(RowFilter::Entropy);
        filter.push(RowFilter::Bigrams);
        proof {
            assert(filter@ =~= seq![
                RowFilter::NoFilter,
                RowFilter::Sub,
                RowFilter::Entropy,
                RowFilter::Bigrams,
            ]);
        }
        Options {
            backup: false,
            fix_errors: false,
            check: false,
            pretend: false,
            force: false,
            preserve_attrs: false,
            filter,
            interlace: Option::None,
            optimize_alpha: false,
            bit_depth_reduction: true,
            color_type_reduction: true,
            palette_reduction: true,
            grayscale_reduction: true,
            idat_recoding: true,
            strip: Headers::NoStrip,
            deflate: Deflaters::Libdeflater { compression: 11 },
            fast_evaluation: true,
            timeout: Option::None,
        }
    }

    /// Build options from an effort preset; levels above the highest behave
    /// like the highest. Presets differ from the defaults only in the
    /// filter set, fast evaluation and the compression level; every other
    /// field keeps its default.
    pub fn from_preset(level: u8) -> (r: Options)
        ensures
            r.backup == false && r.fix_errors == false && r.check == false && r.pretend == false
                && r.force == false && r.preserve_attrs == false,
            r.interlace is None && r.optimize_alpha == false,
            r.bit_depth_reduction && r.color_type_reduction && r.palette_reduction
                && r.grayscale_reduction && r.idat_recoding,
            r.strip matches Headers::NoStrip,
            r.timeout is None,
            level == 0 ==> r.filter@.len() == 0 && r.compression_spec() == 5,
            level == 1 ==> r.filter@.len() == 0 && r.compression_spec() == 10,
            level == 2 ==> r.compression_spec() == 11 && r.fast_evaluation && r.filter@ == seq![
                RowFilter::NoFilter,
                RowFilter::Sub,
                RowFilter::Entropy,
                RowFilter::Bigrams,
            ],
            level >= 3 ==> !r.fast_evaluation,
            level >= 4 ==> r.compression_spec() == 12,
            level >= 6 ==> r.filter@ == seq![
                RowFilter::NoFilter,
                RowFilter::Sub,
                RowFilter::Entropy,
                RowFilter::Bigrams,
                RowFilter::Average,
                RowFilter::Paeth,
                RowFilter::Up,
                RowFilter::MinSum,
                RowFilter::BigEnt,
                RowFilter::Brute,
            ],
    {
        let opts = Options::default_options();
        if level == 0 {
            opts.apply_preset_0()
        } else if level == 1 {
            opts.apply_preset_1()
        } else if level == 2 {
            opts.apply_preset_2()
        } else if level == 3 {
            opts.apply_preset_3()
        } else if level == 4 {
            opts.apply_preset_4()
        } else if level == 5 {
            opts.apply_preset_5()
        } else {
            opts.apply_preset_6()
        }
    }

    /// The most thorough preset: every filter, top compression level, no
    /// fast evaluation.
    pub fn max_compression() -> (r: Options)
        ensures
            !r.fast_evaluation,
            r.compression_spec() == 12,
            r.filter@ == seq![
                RowFilter::NoFilter,
                RowFilter::Sub,
                RowFilter::Entropy,
                RowFilter::Bigrams,
                RowFilter::Average,
                RowFilter::Paeth,
                RowFilter::Up,
                RowFilter::MinSum,
                RowFilter::BigEnt,
                RowFilter::Brute,
            ],
    {
        Options::from_preset(6)
    }

    fn apply_preset_0(self) -> (r: Options)
        ensures
            spec_same_but_trials(r, self),
            r.fast_evaluation == self.fast_evaluation,
            r.filter@.len() == 0,
            r.deflate matches Deflaters::Libdeflater { compression } && compression == 5,
    {
        let mut s = self;
        s.filter = Vec::new();
        s.deflate = Deflaters::Libdeflater { compression: 5 };
        s
    }

    fn apply_preset_1(self) -> (r: Options)
        ensures
            spec_same_but_trials(r, self),
            r.fast_evaluation == self.fast_evaluation,
            r.filter@.len() == 0,
            r.deflate matches Deflaters::Libdeflater { compression } && compression == 10,
    {
        let mut s = self;
        s.filter = Vec::new();
        s.deflate = Deflaters::Libdeflater { compression: 10 };
        s
    }

    fn apply_preset_2(self) -> (r: Options)
        ensures
            r == self,
    {
        self
    }

    fn apply_preset_3(self) -> (r: Options)
        ensures
            spec_same_but_trials(r, self),
            r.deflate == self.deflate,
            r.fast_evaluation == false,
            r.filter@ == seq![
                RowFilter::NoFilter,
                RowFilter::Bigrams,
                RowFilter::BigEnt,
                RowFilter::Brute,
            ],
    {
        let mut s = self;
        s.fast_evaluation = false;
        let mut filter: Vec<RowFilter> = Vec::new();
        filter.push(RowFilter::NoFilter);
        filter.push(RowFilter::Bigrams);
        filter.push(RowFilter::BigEnt);
        filter.push(RowFilter::Brute);
        proof {
            assert(filter@ =~= seq![
                RowFilter::NoFilter,
                RowFilter::Bigrams,
                RowFilter::BigEnt,
                RowFilter::Brute,
            ]);
        }
        s.filter = filter;
        s
    }

    fn apply_preset_4(self) -> (r: Options)
        ensures
            spec_same_but_trials(r, self),
            r.fast_evaluation == false,
            r.deflate matches Deflaters::Libdeflater { compression } && compression == 12,
    {
        let r = self.apply_preset_3();
        let mut r2 = r;
        r2.deflate = Deflaters::Libdeflater { compression: 12 };
        r2
    }

    fn apply_preset_5(self) -> (r: Options)
        ensures
            spec_same_but_trials(r, self),
            r.fast_evaluation == false,
            r.deflate matches Deflaters::Libdeflater { compression } && compression == 12,
            self.filter@ == seq![
                RowFilter::NoFilter,
                RowFilter::Sub,
                RowFilter::Entropy,
                RowFilter::Bigrams,
                RowFilter::Average,
                RowFilter::Paeth,
            ] ==> r.filter@ == seq![
                RowFilter::NoFilter,
                RowFilter::Sub,
                RowFilter::Entropy,
                RowFilter::Bigrams,
                RowFilter::Average,
                RowFilter::Paeth,
                RowFilter::Up,
                RowFilter::MinSum,
                RowFilter::BigEnt,
                RowFilter::Brute,
            ],
    {
        let mut s = self;
        s.fast_evaluation = false;
        s.filter = push_unique(s.filter, RowFilter::Up);
        s.filter = push_unique(s.filter, RowFilter::MinSum);
        s.filter = push_unique(s.filter, RowFilter::BigEnt);
        s.filter = push_unique(s.filter, RowFilter::Brute);
        s.deflate = Deflaters::Libdeflater { compression: 12 };
        proof {
            let l6 = seq![
                RowFilter::NoFilter,
                RowFilter::Sub,
                RowFilter::Entropy,
                RowFilter::Bigrams,
                RowFilter::Average,
                RowFilter::Paeth,
            ];
            if self.filter@ == l6 {
                assert(!l6.contains(RowFilter::Up)) by {
                    if l6.contains(RowFilter::Up) {
                        let i = choose|i: int| 0 <= i < l6.len() && l6[i] == RowFilter::Up;
                    }
                }
                let l7 = l6.push(RowFilter::Up);
                assert(!l7.contains(RowFilter::MinSum)) by {
                    if l7.contains(RowFilter::MinSum) {
                        let i = choose|i: int| 0 <= i < l7.len() && l7[i] == RowFilter::MinSum;
                    }
                }
                let l8 = l7.push(RowFilter::MinSum);
                assert(!l8.contains(RowFilter::BigEnt)) by {
                    if l8.contains(RowFilter::BigEnt) {
                        let i = choose|i: int| 0 <= i < l8.len() && l8[i] == RowFilter::BigEnt;
                    }
                }
                let l9 = l8.push(RowFilter::BigEnt);
                assert(!l9.contains(RowFilter::Brute)) by {
                    if l9.contains(RowFilter::Brute) {
                        let i = choose|i: int| 0 <= i < l9.len() && l9[i] == RowFilter::Brute;
                    }
                }
                assert(s.filter@ =~= seq![
                    RowFilter::NoFilter,
                    RowFilter::Sub,
                    RowFilter::Entropy,
                    RowFilter::Bigrams,
                    RowFilter::Average,
                    RowFilter::Paeth,
                    RowFilter::Up,
                    RowFilter::MinSum,
                    RowFilter::BigEnt,
                    RowFilter::Brute,
                ]);
            }
        }
        s
    }

    fn apply_preset_6(self) -> (r: Options)
        ensures
            spec_same_but_trials(r, self),
            r.fast_evaluation == false,
            r.deflate matches Deflaters::Libdeflater { compression } && compression == 12,
            self.filter@ == seq![
                RowFilter::NoFilter,
                RowFilter::Sub,
                RowFilter::Entropy,
                RowFilter::Bigrams,
            ] ==> r.filter@ == seq![
                RowFilter::NoFilter,
                RowFilter::Sub,
                RowFilter::Entropy,
                RowFilter::Bigrams,
                RowFilter::Average,
                RowFilter::Paeth,
                RowFilter::Up,
                RowFilter::MinSum,
                RowFilter::BigEnt,
                RowFilter::Brute,
            ],
    {
        let mut s = self;
        s.filter = push_unique(s.filter, RowFilter::Average);
        s.filter = push_unique(s.filter, RowFilter::Paeth);
        proof {
            let l4 = seq![
                RowFilter::NoFilter,
                RowFilter::Sub,
                RowFilter::Entropy,
                RowFilter::Bigrams,
            ];
            if self.filter@ == l4 {
                assert(!l4.contains(RowFilter::Average)) by {
                    if l4.contains(RowFilter::Average) {
                        let i = choose|i: int| 0 <= i < l4.len() && l4[i] == RowFilter::Average;
                    }
                }
                let l5 = l4.push(RowFilter::Average);
                assert(!l5.contains(RowFilter::Paeth)) by {
                    if l5.contains(RowFilter::Paeth) {
                        let i = choose|i: int| 0 <= i < l5.len() && l5[i] == RowFilter::Paeth;
                    }
                }
                assert(s.filter@ =~= seq![
                    RowFilter::NoFilter,
                    RowFilter::Sub,
                    RowFilter::Entropy,
                    RowFilter::Bigrams,
                    RowFilter::Average,
                    RowFilter::Paeth,
                ]);
            }
        }
        s.apply_preset_5()
    }

    /// The main trial compression level.
    pub open spec fn compression_spec(&self) -> u8 {
        match self.deflate {
            Deflaters::Libdeflater { compression } => compression,
        }
    }

    /// The main trial compression level.
    pub fn compression_level(&self) -> (r: u8)
        ensures
            r == self.compression_spec(),
    {
        match self.deflate {
            Deflaters::Libdeflater { compression } => compression,
        }
    }
}

impl Default for Options {
    /// The same defaults as `default_options`.
    fn default() -> (r: Options)
        ensures
            r.backup == false && r.fix_errors == false && r.check == false && r.pretend == false
                && r.force == false && r.preserve_attrs == false,
            r.filter@ == seq![
                RowFilter::NoFilter,
                RowFilter::Sub,
                RowFilter::Entropy,
                RowFilter::Bigrams,
            ],
            r.interlace is None,
            r.optimize_alpha == false,
            r.bit_depth_reduction && r.color_type_reduction && r.palette_reduction
                && r.grayscale_reduction && r.idat_recoding,
            r.strip matches Headers::NoStrip,
            r.deflate matches Deflaters::Libdeflater { compression } && compression == 11,
            r.fast_evaluation == true,
            r.timeout is None,
    {
        Options::default_options()
    }
}

/// The filters in ascending ordinal order, so that a run over them breaks
/// compressed-size ties toward the lower ordinal. The result holds exactly
/// the given filters, sorted.
fn sort_by_ordinal(filter: &Vec<RowFilter>) -> (r: Vec<RowFilter>)
    ensures
        r.len() == filter.len(),
        r@.to_multiset() == filter@.to_multiset(),
        forall|a: int, b: int|
            0 <= a < b < r@.len() ==> (#[trigger] r@[a]).spec_ordinal()
                <= (#[trigger] r@[b]).spec_ordinal(),
{
    broadcast use vstd::seq_lib::group_to_multiset_ensures;

    let mut out: Vec<RowFilter> = Vec::new();
    let mut remaining: Vec<RowFilter> = Vec::new();
    let mut k: usize = 0;
    while k < filter.len()
        invariant
            remaining.len() == k,
            k <= filter.len(),
            remaining@ == filter@.take(k as int),
        decreases filter.len() - k,
    {
        remaining.push(filter[k]);
        proof {
            assert(remaining@ =~= filter@.take(k + 1));
        }
        k = k + 1;
    }
    proof {
        assert(remaining@ =~= filter@);
    }
    while remaining.len() > 0
        invariant
            out.len() + remaining.len() == filter.len(),
            out@.to_multiset().add(remaining@.to_multiset()) == filter@.to_multiset(),
            forall|a: int, b: int|
                0 <= a < b < out@.len() ==> (#[trigger] out@[a]).spec_ordinal()
                    <= (#[trigger] out@[b]).spec_ordinal(),
            forall|a: int, b: int|
                0 <= a < out@.len() && 0 <= b < remaining@.len() ==> (
                #[trigger] out@[a]).spec_ordinal() <= (#[trigger] remaining@[b]).spec_ordinal(),
        decreases remaining.len(),
    {
        let mut min_at: usize = 0;
        let mut j: usize = 1;
        while j < remaining.len()
            invariant
                min_at < remaining.len(),
                j <= remaining.len(),
                remaining.len() > 0,
                forall|b: int|
                    0 <= b < j ==> (#[trigger] remaining@[min_at as int]).spec_ordinal()
                        <= remaining@[b].spec_ordinal(),
            decreases remaining.len() - j,
        {
            if remaining[j].ordinal() < remaining[min_at].ordinal() {
                min_at = j;
            }
            j = j + 1;
        }
        let ghost pre = remaining@;
        let ghost preout = out@;
        let f = remaining.remove(min_at);
        out.push(f);
        proof {
            broadcast use vstd::seq_lib::group_to_multiset_ensures;

            assert(out@ =~= preout.push(f));
            assert(preout.push(f).to_multiset() =~= preout.to_multiset().insert(f));
            assert(out@.to_multiset() == preout.to_multiset().insert(f));
            assert(remaining@ =~= pre.take(min_at as int) + pre.skip(min_at + 1));
            assert(pre =~= pre.take(min_at as int).push(f) + pre.skip(min_at + 1));
            vstd::seq_lib::lemma_multiset_commutative(pre.take(min_at as int).push(f), pre.skip(
                min_at + 1,
            ));
            vstd::seq_lib::lemma_multiset_commutative(pre.take(min_at as int), pre.skip(min_at
                + 1));
            assert(pre.take(min_at as int).push(f).to_multiset() == pre.take(
                min_at as int,
            ).to_multiset().insert(f));
            assert(pre.to_multiset() =~= remaining@.to_multiset().insert(f));
            assert(out@.to_multiset().add(remaining@.to_multiset())
                =~= preout.to_multiset().add(pre.to_multiset()));
            assert forall|b: int|
                0 <= b < remaining@.len() implies f.spec_ordinal()
                    <= (#[trigger] remaining@[b]).spec_ordinal() by {
                if b < min_at {
                    assert(remaining@[b] == pre[b]);
                } else {
                    assert(remaining@[b] == pre[b + 1]);
                }
            }
        }
    }
    proof {
        assert(remaining@.to_multiset() =~= Seq::<RowFilter>::empty().to_multiset());
        assert(out@.to_multiset().add(remaining@.to_multiset()) =~= out@.to_multiset());
    }
    out
}

/// Append a filter to the set unless it is already there: the filter list
/// behaves as an insertion-ordered set.
fn push_unique(filter: Vec<RowFilter>, f: RowFilter) -> (r: Vec<RowFilter>)
    ensures
        r@.contains(f),
        r@ == if filter@.contains(f) {
            filter@
        } else {
            filter@.push(f)
        },
{
    let mut out = filter;
    let mut k: usize = 0;
    while k < out.len()
        invariant
            k <= out.len(),
            out@ == filter@,
            forall|i: int| 0 <= i < k ==> out@[i] != f,
        decreases out.len() - k,
    {
        if out[k].ordinal() == f.ordinal() {
            proof {
                assert(out@[k as int] == f) by {
                    assert(out@[k as int].spec_ordinal() == f.spec_ordinal());
                }
                assert(out@.contains(f));
            }
            return out;
        }
        proof {
            assert(out@[k as int] != f) by {
                if out@[k as int] == f {
                    assert(out@[k as int].spec_ordinal() == f.spec_ordinal());
                }
            }
        }
        k = k + 1;
    }
    proof {
        assert(!out@.contains(f)) by {
            if out@.contains(f) {
                let i = choose|i: int| 0 <= i < out@.len() && out@[i] == f;
                assert(out@[i] != f);
            }
        }
    }
    out.push(f);
    proof {
        assert(out@[out@.len() - 1] == f);
        assert(out@.contains(f));
    }
    out
}

/// Options of one compression trial.
#[derive(Clone, Copy, PartialEq, Eq, Structural, Debug)]
pub struct TrialOptions {
    pub filter: RowFilter,
    pub compression: u8,
}

/// The deterministic trial order: smaller output first, then the lower
/// filter ordinal, then the lower compression level.
pub open spec fn spec_trial_better(
    a_len: nat,
    a: TrialOptions,
    b_len: nat,
    b: TrialOptions,
) -> bool {
    ||| a_len < b_len
    ||| (a_len == b_len && a.filter.spec_ordinal() < b.filter.spec_ordinal())
    ||| (a_len == b_len && a.filter.spec_ordinal() == b.filter.spec_ordinal() && a.compression
        < b.compression)
}

pub fn trial_better(a_len: usize, a: TrialOptions, b_len: usize, b: TrialOptions) -> (r: bool)
    ensures
        r == spec_trial_better(a_len as nat, a, b_len as nat, b),
{
    a_len < b_len || (a_len == b_len && a.filter.ordinal() < b.filter.ordinal()) || (a_len == b_len
        && a.filter.ordinal() == b.filter.ordinal() && a.compression < b.compression)
}

/// Execute one compression trial: compress the filtered stream, lowering
/// the shared ceiling; a result that does not beat the ceiling loses.
pub fn perform_trial(
    filtered: &Vec<u8>,
    opts: &Options,
    trial: TrialOptions,
    best_size: &mut AtomicMin,
) -> (r: Option<(TrialOptions, Vec<u8>)>)
    ensures
        match r {
            Some(t) => t.0 == trial && t.1@ == deflate::deflate_of(
                filtered@,
                deflate::spec_clamp_level(trial.compression),
            ) && deflate::inflate_of(t.1@) == Some(filtered@) && match old(
                best_size,
            ).spec_get() {
                Some(m) => t.1@.len() < m,
                None => true,
            } && final(best_size).spec_get() == Some(t.1.len()),
            None => final(best_size).spec_get() == old(best_size).spec_get() && match old(
                best_size,
            ).spec_get() {
                Some(m) => deflate::deflate_of(
                    filtered@,
                    deflate::spec_clamp_level(trial.compression),
                ).len() >= m,
                None => false,
            },
        },
{
    let new_idat = match deflate::deflate(filtered.as_slice(), trial.compression, best_size) {
        Ok(n) => n,
        Err(_) => {
            return Option::None;
        },
    };
    if best_size.set_min(new_idat.len()) {
        Some((trial, new_idat))
    } else {
        Option::None
    }
}

/// Whether the file was already at its minimum before optimization: no
/// byte was saved, nothing forced a rewrite, and no interlacing change was
/// requested.
pub fn is_fully_optimized(original_size: usize, optimized_size: usize, opts: &Options) -> (r:
    bool)
    ensures
        r == (original_size <= optimized_size && !opts.force && opts.interlace is None),
{
    original_size <= optimized_size && !opts.force && opts.interlace.is_none()
}

/// A summary of the image format, as the pipeline reports it.
#[derive(Clone, Copy, PartialEq, Eq, Structural, Debug)]
pub struct FormatInfo {
    pub bit_depth: u8,
    pub channels: u8,
    pub palette_len: usize,
    pub indexed: bool,
    pub interlaced: bool,
}

/// Describe the format of the image data.
pub fn report_format(png: &PngImage) -> (r: FormatInfo)
    ensures
        r.bit_depth as nat == png.ihdr.bit_depth.spec_bits(),
        r.channels as nat == png.ihdr.color_type.spec_channels(),
        r.indexed == (png.ihdr.color_type == crate::colors::ColorType::Indexed),
        r.interlaced == (png.ihdr.interlaced == Interlacing::Adam7),
        png@.palette matches Some(p) ==> r.palette_len == p.len(),
{
    FormatInfo {
        bit_depth: png.ihdr.bit_depth.as_u8(),
        channels: png.ihdr.color_type.channels(),
        palette_len: match &png.palette {
            Some(p) => p.len(),
            None => 0,
        },
        indexed: matches!(png.ihdr.color_type, crate::colors::ColorType::Indexed),
        interlaced: matches!(png.ihdr.interlaced, Interlacing::Adam7),
    }
}


/// Whether the strip policy keeps an auxiliary chunk, before the sRGB/iCCP
/// canonicalization.
pub open spec fn spec_policy_keeps(strip: Headers, name: u32) -> bool {
    match strip {
        Headers::NoStrip => true,
        Headers::Keep(names) => names@.contains(name),
        Headers::Strip(names) => !names@.contains(name),
        Headers::Safe => name == crate::headers::CHUNK_CICP || name == crate::headers::CHUNK_ICCP
            || name == crate::headers::CHUNK_SBIT || name == crate::headers::CHUNK_SRGB || name
            == crate::headers::CHUNK_PHYS,
        Headers::All => false,
    }
}

/// Whether the strip policy permits replacing an sRGB-like ICC profile with
/// a one-byte sRGB chunk.
pub open spec fn spec_may_replace_iccp(strip: Headers) -> bool {
    match strip {
        Headers::Keep(names) => names@.contains(crate::headers::CHUNK_SRGB),
        Headers::Strip(names) => !names@.contains(crate::headers::CHUNK_SRGB),
        Headers::Safe => true,
        Headers::NoStrip => false,
        Headers::All => false,
    }
}

/// The predicate form of the policy's keep decision.
pub open spec fn pred_keeps(strip: Headers) -> spec_fn(u32) -> bool {
    |n: u32| spec_policy_keeps(strip, n)
}

/// The keep decision after the first `k` stored names were examined.
pub open spec fn pred_keeps_upto(strip: Headers, keys: Seq<u32>, k: int) -> spec_fn(u32) -> bool {
    |n: u32| spec_policy_keeps(strip, n) || !keys.take(k).contains(n)
}

/// The survival decision after the first `k` named strips were applied.
pub open spec fn pred_not_stripped(names: Seq<u32>, k: int) -> spec_fn(u32) -> bool {
    |n: u32| !names.take(k).contains(n)
}

/// The auxiliary entries the policy keeps, in their stored order.
pub open spec fn spec_policy_filter(entries: Seq<(u32, Seq<u8>)>, strip: Headers) -> Seq<
    (u32, Seq<u8>),
> {
    crate::headers::spec_aux_filter(entries, pred_keeps(strip))
}

/// The auxiliary entry list after the strip pass: the policy filter in
/// stored order, then the sRGB/iCCP canonicalization where the policy
/// permits it.
pub open spec fn spec_strip_entries(entries: Seq<(u32, Seq<u8>)>, strip: Headers) -> Seq<
    (u32, Seq<u8>),
> {
    let kept = spec_policy_filter(entries, strip);
    if !spec_may_replace_iccp(strip) {
        kept
    } else if crate::headers::spec_aux_lookup(kept, crate::headers::CHUNK_SRGB) is Some {
        crate::headers::spec_aux_remove(kept, crate::headers::CHUNK_ICCP)
    } else {
        match crate::headers::spec_aux_lookup(kept, crate::headers::CHUNK_ICCP) {
            Some(ic) => match spec_srgb_intent(ic) {
                Some(i) => crate::headers::spec_aux_insert(
                    crate::headers::spec_aux_remove(kept, crate::headers::CHUNK_ICCP),
                    crate::headers::CHUNK_SRGB,
                    seq![i],
                ),
                Option::None => kept,
            },
            Option::None => kept,
        }
    }
}

/// The payload an auxiliary chunk holds after the strip pass: the policy
/// filter, then the sRGB/iCCP canonicalization where the policy permits it
/// (an sRGB chunk wins over iCCP; an sRGB-like profile becomes the one-byte
/// sRGB chunk holding its rendering intent).
pub open spec fn spec_stripped_lookup(aux: Seq<(u32, Seq<u8>)>, strip: Headers, k: u32) -> Option<
    Seq<u8>,
> {
    let kept = if spec_policy_keeps(strip, k) {
        crate::headers::spec_aux_lookup(aux, k)
    } else {
        Option::<Seq<u8>>::None
    };
    if !spec_may_replace_iccp(strip) {
        kept
    } else if crate::headers::spec_aux_lookup(aux, crate::headers::CHUNK_SRGB) is Some {
        if k == crate::headers::CHUNK_ICCP {
            Option::<Seq<u8>>::None
        } else {
            kept
        }
    } else {
        match (if spec_policy_keeps(strip, crate::headers::CHUNK_ICCP) {
            crate::headers::spec_aux_lookup(aux, crate::headers::CHUNK_ICCP)
        } else {
            Option::<Seq<u8>>::None
        }) {
            Some(ic) => match spec_srgb_intent(ic) {
                Some(i) => if k == crate::headers::CHUNK_ICCP {
                    Option::<Seq<u8>>::None
                } else if k == crate::headers::CHUNK_SRGB {
                    Some(seq![i])
                } else {
                    kept
                },
                Option::None => kept,
            },
            Option::None => kept,
        }
    }
}

/// Whether a name stands in a list.
fn names_contain(names: &Vec<u32>, name: u32) -> (r: bool)
    ensures
        r == names@.contains(name),
{
    let mut j: usize = 0;
    while j < names.len()
        invariant
            j <= names.len(),
            forall|i: int| 0 <= i < j ==> names@[i] != name,
        decreases names.len() - j,
    {
        if names[j] == name {
            return true;
        }
        j = j + 1;
    }
    false
}

/// Strip auxiliary chunks as the options direct, and canonicalize an sRGB
/// profile into the one-byte sRGB chunk where the policy allows it. The
/// image's pixels, header, palette and transparency are untouched; each
/// auxiliary chunk survives, disappears or is rewritten exactly as
/// `spec_stripped_lookup` says.
#[verifier::rlimit(100)]
pub fn perform_strip(png: &mut PngData, opts: &Options)
    requires
        img_wf(old(png).raw@),
    ensures
        img_wf(final(png).raw@),
        final(png).raw.ihdr == old(png).raw.ihdr,
        final(png).raw@.data == old(png).raw@.data,
        final(png).raw@.palette == old(png).raw@.palette,
        final(png).raw@.transparency == old(png).raw@.transparency,
        final(png).idat_data@ == old(png).idat_data@,
        final(png).filtered@ == old(png).filtered@,
        spec_pixels(final(png).raw@) == spec_pixels(old(png).raw@),
        forall|k: u32| #[trigger]
            crate::headers::spec_aux_lookup(final(png).raw@.aux, k) == spec_stripped_lookup(
                old(png).raw@.aux,
                opts.strip,
                k,
            ),
        final(png).raw@.aux == spec_strip_entries(old(png).raw@.aux, opts.strip),
        opts.strip matches Headers::All ==> final(png).raw@.aux.len() == 0,
{
    let ghost orig = old(png).raw@.aux;
    proof {
        assert forall|x: int, y: int|
            0 <= x < y < crate::headers::aux_names(orig).len()
                implies crate::headers::aux_names(orig)[x] != crate::headers::aux_names(
                orig,
            )[y] by {
            assert(crate::headers::aux_names(orig)[x] == orig[x].0 && crate::headers::aux_names(
                orig,
            )[y] == orig[y].0);
        }
    }
    match &opts.strip {
        Headers::NoStrip => {
            proof {
                assert forall|j: int| 0 <= j < orig.len() implies pred_keeps(opts.strip)(
                    (#[trigger] orig[j]).0,
                ) by {}
                crate::headers::lemma_aux_filter_all(orig, pred_keeps(opts.strip));
                assert(png.raw@.aux == spec_policy_filter(orig, opts.strip));
            }
        },
        Headers::Keep(names) => {
            let keys = crate::headers::aux_keys(&png.raw.aux_headers);
            proof {
                assert(keys@.take(0) =~= Seq::<u32>::empty());
                let pred0 = pred_keeps_upto(opts.strip, keys@, 0);
                assert forall|j: int| 0 <= j < orig.len() implies pred0(
                    (#[trigger] orig[j]).0,
                ) by {
                    if keys@.take(0).contains(orig[j].0) {
                        let q = choose|q: int|
                            0 <= q < keys@.take(0).len() && (#[trigger] keys@.take(0)[q])
                                == orig[j].0;
                    }
                }
                crate::headers::lemma_aux_filter_all(orig, pred0);
            }
            let mut k: usize = 0;
            while k < keys.len()
                invariant
                    k <= keys.len(),
                    img_wf(png.raw@),
                    png.raw.ihdr == old(png).raw.ihdr,
                    png.raw@.data == old(png).raw@.data,
                    png.raw@.palette == old(png).raw@.palette,
                    png.raw@.transparency == old(png).raw@.transparency,
                    png.idat_data@ == old(png).idat_data@,
                    png.filtered@ == old(png).filtered@,
                    keys@ == crate::headers::aux_names(orig),
                    forall|x2: int, y2: int| 0 <= x2 < y2 < keys@.len() ==> keys@[x2] != keys@[y2],
                    forall|n: u32| #[trigger]
                        spec_policy_keeps(opts.strip, n) == names@.contains(n),
                    png.raw@.aux == crate::headers::spec_aux_filter(
                        orig,
                        pred_keeps_upto(opts.strip, keys@, k as int),
                    ),
                    forall|j: u32| #[trigger]
                        crate::headers::spec_aux_lookup(png.raw@.aux, j) == (
                        if keys@.take(k as int).contains(j) && !names@.contains(j) {
                            Option::<Seq<u8>>::None
                        } else {
                            crate::headers::spec_aux_lookup(orig, j)
                        }),
                decreases keys.len() - k,
            {
                let name = keys[k];
                let keep = names_contain(names, name);
                let ghost pre = png.raw@;
                if !keep {
                    crate::headers::aux_shift_remove(&mut png.raw.aux_headers, name);
                    proof {
                        lemma_aux_remove_wf(pre.aux, name);
                        crate::png::lemma_wf_aux_change(pre, png.raw@);
                    }
                }
                proof {
                    let predk = pred_keeps_upto(opts.strip, keys@, k as int);
                    let predk1 = pred_keeps_upto(opts.strip, keys@, k + 1);
                    assert forall|n: u32|
                        #![trigger keys@.take(k + 1).contains(n)]
                        true implies (keys@.take(k + 1).contains(n) <==> keys@.take(
                        k as int,
                    ).contains(n) || n == keys@[k as int]) by {
                        if keys@.take(k + 1).contains(n) {
                            let q = choose|q: int|
                                0 <= q < keys@.take(k + 1).len() && (#[trigger] keys@.take(
                                    k + 1,
                                )[q]) == n;
                            if q < k {
                                assert(keys@.take(k as int)[q] == n);
                            }
                        }
                        if keys@.take(k as int).contains(n) {
                            let q = choose|q: int|
                                0 <= q < keys@.take(k as int).len() && (#[trigger] keys@.take(
                                    k as int,
                                )[q]) == n;
                            assert(keys@.take(k + 1)[q] == n);
                        }
                        if n == keys@[k as int] {
                            assert(keys@.take(k + 1)[k as int] == n);
                        }
                    }
                    assert(!keys@.take(k as int).contains(name)) by {
                        if keys@.take(k as int).contains(name) {
                            let q = choose|q: int|
                                0 <= q < keys@.take(k as int).len() && (#[trigger] keys@.take(
                                    k as int,
                                )[q]) == name;
                            assert(keys@[q] == keys@[k as int]);
                        }
                    }
                    if !keep {
                        let pq = crate::headers::pred_and(predk, crate::headers::pred_ne(name));
                        assert forall|j: int| 0 <= j < orig.len() implies pq(
                            (#[trigger] orig[j]).0,
                        ) == predk1(orig[j].0) by {
                            let n = orig[j].0;
                            assert(keys@.take(k + 1).contains(n) <==> keys@.take(
                                k as int,
                            ).contains(n) || n == keys@[k as int]);
                        }
                        crate::headers::lemma_remove_is_filter(pre.aux, name);
                        crate::headers::lemma_filter_filter(
                            orig,
                            predk,
                            crate::headers::pred_ne(name),
                        );
                        crate::headers::lemma_aux_filter_ext(orig, pq, predk1);
                        assert(png.raw@.aux == crate::headers::spec_aux_filter(orig, predk1));
                    } else {
                        assert forall|j: int|
                            0 <= j < orig.len() implies predk((#[trigger] orig[j]).0) == predk1(
                            orig[j].0,
                        ) by {
                            let n = orig[j].0;
                            assert(keys@.take(k + 1).contains(n) <==> keys@.take(
                                k as int,
                            ).contains(n) || n == keys@[k as int]);
                            if n == name {
                                assert(names@.contains(name));
                            }
                        }
                        crate::headers::lemma_aux_filter_ext(orig, predk, predk1);
                        assert(png.raw@.aux == crate::headers::spec_aux_filter(orig, predk1));
                    }
                    assert(keys@.take(k + 1) =~= keys@.take(k as int).push(keys@[k as int]));
                    assert forall|j: u32| #[trigger]
                        crate::headers::spec_aux_lookup(png.raw@.aux, j) == (
                        if keys@.take(k + 1).contains(j) && !names@.contains(j) {
                            Option::<Seq<u8>>::None
                        } else {
                            crate::headers::spec_aux_lookup(orig, j)
                        }) by {
                        if !keep {
                            crate::headers::lemma_lookup_remove(pre.aux, name, j);
                        }
                        assert(keys@.take(k + 1).contains(j) <==> keys@.take(k as int).contains(j)
                            || j == keys@[k as int]) by {
                            if keys@.take(k + 1).contains(j) {
                                let q = choose|q: int|
                                    0 <= q < keys@.take(k + 1).len() && (#[trigger] keys@.take(k + 1)[q]) == j;
                                if q < k {
                                    assert(keys@.take(k as int)[q] == j);
                                }
                            }
                            if keys@.take(k as int).contains(j) {
                                let q = choose|q: int|
                                    0 <= q < keys@.take(k as int).len() && (#[trigger] keys@.take(
                                        k as int,
                                    )[q]) == j;
                                assert(keys@.take(k + 1)[q] == j);
                            }
                            if j == keys@[k as int] {
                                assert(keys@.take(k + 1)[k as int] == j);
                            }
                        }
                    }
                }
                k = k + 1;
            }
            proof {
                assert(keys@.take(keys@.len() as int) =~= keys@);
                assert forall|j: u32| #[trigger]
                    crate::headers::spec_aux_lookup(png.raw@.aux, j) == (
                    if names@.contains(j) {
                        crate::headers::spec_aux_lookup(orig, j)
                    } else {
                        Option::<Seq<u8>>::None
                    }) by {
                    if !keys@.contains(j) {
                        assert forall|q: int| 0 <= q < orig.len() implies (#[trigger] orig[q]).0
                            != j by {
                            assert(crate::headers::aux_names(orig)[q] == orig[q].0);
                        }
                        crate::headers::lemma_lookup_absent(orig, j);
                    }
                }
                let predend = pred_keeps_upto(opts.strip, keys@, k as int);
                assert forall|j: int| 0 <= j < orig.len() implies predend(
                    (#[trigger] orig[j]).0,
                ) == pred_keeps(opts.strip)(orig[j].0) by {
                    assert(crate::headers::aux_names(orig)[j] == orig[j].0);
                    assert(keys@.contains(orig[j].0)) by {
                        assert(keys@[j] == orig[j].0);
                    }
                    assert(keys@.take(k as int).contains(orig[j].0));
                }
                crate::headers::lemma_aux_filter_ext(orig, predend, pred_keeps(opts.strip));
                assert(png.raw@.aux == spec_policy_filter(orig, opts.strip));
            }
        },
        Headers::Strip(names) => {
            proof {
                assert(names@.take(0) =~= Seq::<u32>::empty());
                let pred0 = pred_not_stripped(names@, 0);
                assert forall|j: int| 0 <= j < orig.len() implies pred0(
                    (#[trigger] orig[j]).0,
                ) by {
                    if names@.take(0).contains(orig[j].0) {
                        let q = choose|q: int|
                            0 <= q < names@.take(0).len() && (#[trigger] names@.take(0)[q])
                                == orig[j].0;
                    }
                }
                crate::headers::lemma_aux_filter_all(orig, pred0);
            }
            let mut k: usize = 0;
            while k < names.len()
                invariant
                    k <= names.len(),
                    img_wf(png.raw@),
                    png.raw.ihdr == old(png).raw.ihdr,
                    png.raw@.data == old(png).raw@.data,
                    png.raw@.palette == old(png).raw@.palette,
                    png.raw@.transparency == old(png).raw@.transparency,
                    png.idat_data@ == old(png).idat_data@,
                    png.filtered@ == old(png).filtered@,
                    png.raw@.aux == crate::headers::spec_aux_filter(
                        orig,
                        pred_not_stripped(names@, k as int),
                    ),
                    forall|j: u32| #[trigger]
                        crate::headers::spec_aux_lookup(png.raw@.aux, j) == (
                        if names@.take(k as int).contains(j) {
                            Option::<Seq<u8>>::None
                        } else {
                            crate::headers::spec_aux_lookup(orig, j)
                        }),
                decreases names.len() - k,
            {
                let name = names[k];
                let ghost pre = png.raw@;
                crate::headers::aux_shift_remove(&mut png.raw.aux_headers, name);
                proof {
                    lemma_aux_remove_wf(pre.aux, name);
                    crate::png::lemma_wf_aux_change(pre, png.raw@);
                    assert(names@.take(k + 1) =~= names@.take(k as int).push(names@[k as int]));
                    let predk = pred_not_stripped(names@, k as int);
                    let predk1 = pred_not_stripped(names@, k + 1);
                    let pq = crate::headers::pred_and(predk, crate::headers::pred_ne(name));
                    assert forall|j: u32|
                        #![trigger names@.take(k + 1).contains(j)]
                        true implies (names@.take(k + 1).contains(j) <==> names@.take(
                        k as int,
                    ).contains(j) || j == names@[k as int]) by {
                        if names@.take(k + 1).contains(j) {
                            let q = choose|q: int|
                                0 <= q < names@.take(k + 1).len() && (#[trigger] names@.take(
                                    k + 1,
                                )[q]) == j;
                            if q < k {
                                assert(names@.take(k as int)[q] == j);
                            }
                        }
                        if names@.take(k as int).contains(j) {
                            let q = choose|q: int|
                                0 <= q < names@.take(k as int).len() && (#[trigger] names@.take(
                                    k as int,
                                )[q]) == j;
                            assert(names@.take(k + 1)[q] == j);
                        }
                        if j == names@[k as int] {
                            assert(names@.take(k + 1)[k as int] == j);
                        }
                    }
                    assert forall|j: int| 0 <= j < orig.len() implies pq(
                        (#[trigger] orig[j]).0,
                    ) == predk1(orig[j].0) by {
                        let n = orig[j].0;
                        assert(names@.take(k + 1).contains(n) <==> names@.take(k as int).contains(
                            n,
                        ) || n == names@[k as int]);
                    }
                    crate::headers::lemma_remove_is_filter(pre.aux, name);
                    crate::headers::lemma_filter_filter(orig, predk, crate::headers::pred_ne(name));
                    crate::headers::lemma_aux_filter_ext(orig, pq, predk1);
                    assert(png.raw@.aux == crate::headers::spec_aux_filter(orig, predk1));
                    assert forall|j: u32| #[trigger]
                        crate::headers::spec_aux_lookup(png.raw@.aux, j) == (
                        if names@.take(k + 1).contains(j) {
                            Option::<Seq<u8>>::None
                        } else {
                            crate::headers::spec_aux_lookup(orig, j)
                        }) by {
                        crate::headers::lemma_lookup_remove(pre.aux, name, j);
                        assert(names@.take(k + 1).contains(j) <==> names@.take(k as int).contains(
                            j,
                        ) || j == names@[k as int]) by {
                            if names@.take(k + 1).contains(j) {
                                let q = choose|q: int|
                                    0 <= q < names@.take(k + 1).len() && (#[trigger] names@.take(
                                        k + 1,
                                    )[q]) == j;
                                if q < k {
                                    assert(names@.take(k as int)[q] == j);
                                }
                            }
                            if names@.take(k as int).contains(j) {
                                let q = choose|q: int|
                                    0 <= q < names@.take(k as int).len() && (#[trigger] names@.take(
                                        k as int,
                                    )[q]) == j;
                                assert(names@.take(k + 1)[q] == j);
                            }
                            if j == names@[k as int] {
                                assert(names@.take(k + 1)[k as int] == j);
                            }
                        }
                    }
                }
                k = k + 1;
            }
            proof {
                assert(names@.take(names@.len() as int) =~= names@);
                let predend = pred_not_stripped(names@, names@.len() as int);
                assert forall|j: int| 0 <= j < orig.len() implies predend(
                    (#[trigger] orig[j]).0,
                ) == pred_keeps(opts.strip)(orig[j].0) by {}
                crate::headers::lemma_aux_filter_ext(orig, predend, pred_keeps(opts.strip));
                assert(png.raw@.aux == spec_policy_filter(orig, opts.strip));
            }
        },
        Headers::Safe => {
            let keys = crate::headers::aux_keys(&png.raw.aux_headers);
            proof {
                assert(keys@.take(0) =~= Seq::<u32>::empty());
                let pred0 = pred_keeps_upto(opts.strip, keys@, 0);
                assert forall|j: int| 0 <= j < orig.len() implies pred0(
                    (#[trigger] orig[j]).0,
                ) by {
                    if keys@.take(0).contains(orig[j].0) {
                        let q = choose|q: int|
                            0 <= q < keys@.take(0).len() && (#[trigger] keys@.take(0)[q])
                                == orig[j].0;
                    }
                }
                crate::headers::lemma_aux_filter_all(orig, pred0);
            }
            let mut k: usize = 0;
            while k < keys.len()
                invariant
                    k <= keys.len(),
                    img_wf(png.raw@),
                    png.raw.ihdr == old(png).raw.ihdr,
                    png.raw@.data == old(png).raw@.data,
                    png.raw@.palette == old(png).raw@.palette,
                    png.raw@.transparency == old(png).raw@.transparency,
                    png.idat_data@ == old(png).idat_data@,
                    png.filtered@ == old(png).filtered@,
                    keys@ == crate::headers::aux_names(orig),
                    opts.strip == Headers::Safe,
                    png.raw@.aux == crate::headers::spec_aux_filter(
                        orig,
                        pred_keeps_upto(opts.strip, keys@, k as int),
                    ),
                    forall|j: u32| #[trigger]
                        crate::headers::spec_aux_lookup(png.raw@.aux, j) == (
                        if keys@.take(k as int).contains(j) && !spec_policy_keeps(
                            Headers::Safe,
                            j,
                        ) {
                            Option::<Seq<u8>>::None
                        } else {
                            crate::headers::spec_aux_lookup(orig, j)
                        }),
                decreases keys.len() - k,
            {
                let name = keys[k];
                let keep = name == crate::headers::CHUNK_CICP || name == crate::headers::CHUNK_ICCP
                    || name == crate::headers::CHUNK_SBIT || name == crate::headers::CHUNK_SRGB
                    || name == crate::headers::CHUNK_PHYS;
                let ghost pre = png.raw@;
                if !keep {
                    crate::headers::aux_shift_remove(&mut png.raw.aux_headers, name);
                    proof {
                        lemma_aux_remove_wf(pre.aux, name);
                        crate::png::lemma_wf_aux_change(pre, png.raw@);
                    }
                }
                proof {
                    assert(keys@.take(k + 1) =~= keys@.take(k as int).push(keys@[k as int]));
                    let predk = pred_keeps_upto(opts.strip, keys@, k as int);
                    let predk1 = pred_keeps_upto(opts.strip, keys@, k + 1);
                    assert forall|j: u32|
                        #![trigger keys@.take(k + 1).contains(j)]
                        true implies (keys@.take(k + 1).contains(j) <==> keys@.take(
                        k as int,
                    ).contains(j) || j == keys@[k as int]) by {
                        if keys@.take(k + 1).contains(j) {
                            let q = choose|q: int|
                                0 <= q < keys@.take(k + 1).len() && (#[trigger] keys@.take(
                                    k + 1,
                                )[q]) == j;
                            if q < k {
                                assert(keys@.take(k as int)[q] == j);
                            }
                        }
                        if keys@.take(k as int).contains(j) {
                            let q = choose|q: int|
                                0 <= q < keys@.take(k as int).len() && (#[trigger] keys@.take(
                                    k as int,
                                )[q]) == j;
                            assert(keys@.take(k + 1)[q] == j);
                        }
                        if j == keys@[k as int] {
                            assert(keys@.take(k + 1)[k as int] == j);
                        }
                    }
                    if !keep {
                        let pq = crate::headers::pred_and(predk, crate::headers::pred_ne(name));
                        assert forall|j: int| 0 <= j < orig.len() implies pq(
                            (#[trigger] orig[j]).0,
                        ) == predk1(orig[j].0) by {
                            let n = orig[j].0;
                            assert(keys@.take(k + 1).contains(n) <==> keys@.take(
                                k as int,
                            ).contains(n) || n == keys@[k as int]);
                        }
                        crate::headers::lemma_remove_is_filter(pre.aux, name);
                        crate::headers::lemma_filter_filter(
                            orig,
                            predk,
                            crate::headers::pred_ne(name),
                        );
                        crate::headers::lemma_aux_filter_ext(orig, pq, predk1);
                        assert(png.raw@.aux == crate::headers::spec_aux_filter(orig, predk1));
                    } else {
                        assert forall|j: int| 0 <= j < orig.len() implies predk(
                            (#[trigger] orig[j]).0,
                        ) == predk1(orig[j].0) by {
                            let n = orig[j].0;
                            assert(keys@.take(k + 1).contains(n) <==> keys@.take(
                                k as int,
                            ).contains(n) || n == keys@[k as int]);
                        }
                        crate::headers::lemma_aux_filter_ext(orig, predk, predk1);
                        assert(png.raw@.aux == crate::headers::spec_aux_filter(orig, predk1));
                    }
                    assert forall|j: u32| #[trigger]
                        crate::headers::spec_aux_lookup(png.raw@.aux, j) == (
                        if keys@.take(k + 1).contains(j) && !spec_policy_keeps(Headers::Safe, j) {
                            Option::<Seq<u8>>::None
                        } else {
                            crate::headers::spec_aux_lookup(orig, j)
                        }) by {
                        if !keep {
                            crate::headers::lemma_lookup_remove(pre.aux, name, j);
                        }
                        assert(keys@.take(k + 1).contains(j) <==> keys@.take(k as int).contains(j)
                            || j == keys@[k as int]) by {
                            if keys@.take(k + 1).contains(j) {
                                let q = choose|q: int|
                                    0 <= q < keys@.take(k + 1).len() && (#[trigger] keys@.take(k + 1)[q]) == j;
                                if q < k {
                                    assert(keys@.take(k as int)[q] == j);
                                }
                            }
                            if keys@.take(k as int).contains(j) {
                                let q = choose|q: int|
                                    0 <= q < keys@.take(k as int).len() && (#[trigger] keys@.take(
                                        k as int,
                                    )[q]) == j;
                                assert(keys@.take(k + 1)[q] == j);
                            }
                            if j == keys@[k as int] {
                                assert(keys@.take(k + 1)[k as int] == j);
                            }
                        }
                    }
                }
                k = k + 1;
            }
            proof {
                assert(keys@.take(keys@.len() as int) =~= keys@);
                let predend = pred_keeps_upto(opts.strip, keys@, k as int);
                assert forall|j: int| 0 <= j < orig.len() implies predend(
                    (#[trigger] orig[j]).0,
                ) == pred_keeps(opts.strip)(orig[j].0) by {
                    assert(crate::headers::aux_names(orig)[j] == orig[j].0);
                    assert(keys@.contains(orig[j].0)) by {
                        assert(keys@[j] == orig[j].0);
                    }
                    assert(keys@.take(k as int).contains(orig[j].0));
                }
                crate::headers::lemma_aux_filter_ext(orig, predend, pred_keeps(opts.strip));
                assert(png.raw@.aux == spec_policy_filter(orig, opts.strip));
                assert forall|j: u32| #[trigger]
                    crate::headers::spec_aux_lookup(png.raw@.aux, j) == (
                    if spec_policy_keeps(Headers::Safe, j) {
                        crate::headers::spec_aux_lookup(orig, j)
                    } else {
                        Option::<Seq<u8>>::None
                    }) by {
                    if !keys@.contains(j) {
                        assert forall|q: int| 0 <= q < orig.len() implies (#[trigger] orig[q]).0
                            != j by {
                            assert(crate::headers::aux_names(orig)[q] == orig[q].0);
                        }
                        crate::headers::lemma_lookup_absent(orig, j);
                    }
                }
            }
        },
        Headers::All => {
            let ghost pre = png.raw@;
            png.raw.aux_headers = crate::headers::aux_new();
            proof {
                crate::png::lemma_wf_aux_change(pre, png.raw@);
                assert forall|j: u32| #[trigger]
                    crate::headers::spec_aux_lookup(png.raw@.aux, j) is None by {}
                assert forall|j: int| 0 <= j < orig.len() implies !pred_keeps(opts.strip)(
                    (#[trigger] orig[j]).0,
                ) by {}
                crate::headers::lemma_aux_filter_none(orig, pred_keeps(opts.strip));
                assert(png.raw@.aux == spec_policy_filter(orig, opts.strip));
            }
        },
    }
    let ghost kept = png.raw@.aux;
    proof {
        assert(kept == spec_policy_filter(orig, opts.strip));
        assert forall|j: u32| #[trigger]
            crate::headers::spec_aux_lookup(png.raw@.aux, j) == (
            if spec_policy_keeps(opts.strip, j) {
                crate::headers::spec_aux_lookup(orig, j)
            } else {
                Option::<Seq<u8>>::None
            }) by {}
    }
    // an sRGB-like ICC profile may be replaced by a one-byte sRGB chunk
    let may_replace_iccp = match &opts.strip {
        Headers::Keep(names) => names_contain(names, crate::headers::CHUNK_SRGB),
        Headers::Strip(names) => !names_contain(names, crate::headers::CHUNK_SRGB),
        Headers::Safe => true,
        Headers::NoStrip => false,
        Headers::All => false,
    };
    proof {
        assert(may_replace_iccp == spec_may_replace_iccp(opts.strip));
        if may_replace_iccp {
            assert(spec_policy_keeps(opts.strip, crate::headers::CHUNK_SRGB));
        }
    }
    if may_replace_iccp {
        if crate::headers::aux_contains(&png.raw.aux_headers, crate::headers::CHUNK_SRGB) {
            // files are not supposed to carry both; honor sRGB
            let ghost pre = png.raw@;
            crate::headers::aux_shift_remove(&mut png.raw.aux_headers, crate::headers::CHUNK_ICCP);
            proof {
                lemma_aux_remove_wf(pre.aux, crate::headers::CHUNK_ICCP);
                crate::png::lemma_wf_aux_change(pre, png.raw@);
                assert forall|j: u32| #[trigger]
                    crate::headers::spec_aux_lookup(png.raw@.aux, j) == spec_stripped_lookup(
                    orig,
                    opts.strip,
                    j,
                ) by {
                    crate::headers::lemma_lookup_remove(
                        pre.aux,
                        crate::headers::CHUNK_ICCP,
                        j,
                    );
                }
                assert(png.raw@.aux == spec_strip_entries(orig, opts.strip)) by {
                    assert(crate::headers::spec_aux_lookup(kept, crate::headers::CHUNK_SRGB)
                        is Some);
                }
            }
        } else {
            let intent: Option<u8> = match crate::headers::aux_get(
                &png.raw.aux_headers,
                crate::headers::CHUNK_ICCP,
            ) {
                Some(iccp) => srgb_rendering_intent(iccp.as_slice()),
                None => Option::None,
            };
            match intent {
                Some(i) => {
                    let ghost pre = png.raw@;
                    crate::headers::aux_shift_remove(
                        &mut png.raw.aux_headers,
                        crate::headers::CHUNK_ICCP,
                    );
                    proof {
                        lemma_aux_remove_wf(pre.aux, crate::headers::CHUNK_ICCP);
                        crate::png::lemma_wf_aux_change(pre, png.raw@);
                    }
                    let ghost pre2 = png.raw@;
                    let mut payload: Vec<u8> = Vec::new();
                    payload.push(i);
                    crate::headers::aux_insert(
                        &mut png.raw.aux_headers,
                        crate::headers::CHUNK_SRGB,
                        payload,
                    );
                    proof {
                        crate::png::lemma_aux_insert_wf(
                            pre2.aux,
                            crate::headers::CHUNK_SRGB,
                            seq![i],
                        );
                        crate::png::lemma_aux_insert_len(
                            pre2.aux,
                            crate::headers::CHUNK_SRGB,
                            seq![i],
                        );
                        crate::png::lemma_wf_aux_change(pre2, png.raw@);
                        assert forall|j: u32| #[trigger]
                            crate::headers::spec_aux_lookup(png.raw@.aux, j)
                            == spec_stripped_lookup(orig, opts.strip, j) by {
                            crate::headers::lemma_lookup_remove(
                                pre.aux,
                                crate::headers::CHUNK_ICCP,
                                j,
                            );
                            crate::headers::lemma_lookup_insert(
                                pre2.aux,
                                crate::headers::CHUNK_SRGB,
                                seq![i],
                                j,
                            );
                        }
                        assert(png.raw@.aux == spec_strip_entries(orig, opts.strip)) by {
                            assert(crate::headers::spec_aux_lookup(
                                kept,
                                crate::headers::CHUNK_SRGB,
                            ) is None);
                            assert(payload@ =~= seq![i]);
                            assert(png.raw@.aux == crate::headers::spec_aux_insert(
                                crate::headers::spec_aux_remove(kept, crate::headers::CHUNK_ICCP),
                                crate::headers::CHUNK_SRGB,
                                seq![i],
                            ));
                        }
                    }
                },
                None => {
                    proof {
                        assert(png.raw@.aux == spec_strip_entries(orig, opts.strip));
                    }
                },
            }
        }
    }
}

/// Removing a key keeps the auxiliary list well formed.
proof fn lemma_aux_remove_wf(acc: Seq<(u32, Seq<u8>)>, k: u32)
    requires
        forall|j: int| 0 <= j < acc.len() ==> !crate::headers::spec_is_critical(
            #[trigger] acc[j].0,
        ),
        forall|j: int, l: int| 0 <= j < l < acc.len() ==> acc[j].0 != acc[l].0,
        forall|j: int| 0 <= j < acc.len() ==> (#[trigger] acc[j].1).len() <= 0x7fff_ffff,
    ensures
        ({
            let out = crate::headers::spec_aux_remove(acc, k);
            &&& forall|j: int|
                0 <= j < out.len() ==> !crate::headers::spec_is_critical(#[trigger] out[j].0)
            &&& forall|j: int, l: int| 0 <= j < l < out.len() ==> out[j].0 != out[l].0
            &&& forall|j: int| 0 <= j < out.len() ==> (#[trigger] out[j].1).len() <= 0x7fff_ffff
        }),
    decreases acc.len(),
{
    let out = crate::headers::spec_aux_remove(acc, k);
    if acc.len() == 0 {
    } else if acc.first().0 == k {
        assert(out =~= acc.drop_first());
        assert forall|j: int| 0 <= j < out.len() implies !crate::headers::spec_is_critical(
            #[trigger] out[j].0,
        ) && (out[j].1).len() <= 0x7fff_ffff by {
            assert(out[j] == acc[j + 1]);
        }
        assert forall|j: int, l: int| 0 <= j < l < out.len() implies out[j].0 != out[l].0 by {
            assert(out[j] == acc[j + 1] && out[l] == acc[l + 1]);
        }
    } else {
        lemma_aux_remove_wf(acc.drop_first(), k);
        let sub = crate::headers::spec_aux_remove(acc.drop_first(), k);
        assert(out =~= seq![acc.first()] + sub);
        assert forall|j: int| 0 <= j < out.len() implies !crate::headers::spec_is_critical(
            #[trigger] out[j].0,
        ) && (out[j].1).len() <= 0x7fff_ffff by {
            if j > 0 {
                assert(out[j] == sub[j - 1]);
            }
        }
        assert forall|j: int, l: int| 0 <= j < l < out.len() implies out[j].0 != out[l].0 by {
            if j > 0 {
                assert(out[j] == sub[j - 1] && out[l] == sub[l - 1]);
            } else {
                assert(out[l] == sub[l - 1]);
                lemma_aux_remove_subset(acc.drop_first(), k, l - 1);
            }
        }
    }
}

/// Every entry that survives a removal was present before.
proof fn lemma_aux_remove_subset(acc: Seq<(u32, Seq<u8>)>, k: u32, m: int)
    requires
        0 <= m < crate::headers::spec_aux_remove(acc, k).len(),
    ensures
        exists|q: int|
            0 <= q < acc.len() && #[trigger] acc[q] == crate::headers::spec_aux_remove(acc, k)[m],
    decreases acc.len(),
{
    let out = crate::headers::spec_aux_remove(acc, k);
    if acc.len() == 0 {
    } else if acc.first().0 == k {
        assert(out[m] == acc[m + 1]);
    } else {
        if m == 0 {
            assert(out[0] == acc[0]);
        } else {
            lemma_aux_remove_subset(acc.drop_first(), k, m - 1);
            let sub = crate::headers::spec_aux_remove(acc.drop_first(), k);
            assert(out[m] == sub[m - 1]);
            let q = choose|q: int|
                0 <= q < acc.drop_first().len() && #[trigger] acc.drop_first()[q] == sub[m - 1];
            assert(acc[q + 1] == out[m]);
        }
    }
}

/// The first NUL byte's position in a byte sequence.
pub open spec fn spec_first_nul(s: Seq<u8>) -> Option<int>
    decreases s.len(),
{
    if s.len() == 0 {
        Option::None
    } else if s.first() == 0 {
        Some(0int)
    } else {
        match spec_first_nul(s.drop_first()) {
            Some(p) => Some(p + 1),
            Option::None => Option::None,
        }
    }
}

/// The first NUL is the least index holding zero.
pub proof fn lemma_first_nul(s: Seq<u8>)
    ensures
        match spec_first_nul(s) {
            Some(p) => 0 <= p < s.len() && s[p] == 0 && forall|j: int| 0 <= j < p ==> s[j] != 0,
            Option::None => forall|j: int| 0 <= j < s.len() ==> s[j] != 0,
        },
    decreases s.len(),
{
    if s.len() == 0 {
    } else if s.first() == 0 {
    } else {
        lemma_first_nul(s.drop_first());
        match spec_first_nul(s.drop_first()) {
            Some(p) => {
                assert forall|j: int| 0 <= j < p + 1 implies s[j] != 0 by {
                    if j > 0 {
                        assert(s.drop_first()[j - 1] != 0);
                    }
                }
            },
            Option::None => {
                assert forall|j: int| 0 <= j < s.len() implies s[j] != 0 by {
                    if j > 0 {
                        assert(s.drop_first()[j - 1] != 0);
                    }
                }
            },
        }
    }
}

/// The inflation buffer bound the profile reader uses.
pub open spec fn spec_inflate_limit(n: nat) -> nat {
    if n > 500 {
        if n > usize::MAX / 2 {
            usize::MAX as nat
        } else {
            2 * n
        }
    } else {
        1000
    }
}

/// Whether a profile's ID field holds one of the four known sRGB digests.
pub open spec fn spec_srgb_digest(icc: Seq<u8>) -> bool {
    ||| (icc[84] == 0x29 && icc[85] == 0xf8 && icc[86] == 0x3d && icc[87] == 0xde && icc[88]
        == 0xaf && icc[89] == 0xf2 && icc[90] == 0x55 && icc[91] == 0xae && icc[92] == 0x78
        && icc[93] == 0x42 && icc[94] == 0xfa && icc[95] == 0xe4 && icc[96] == 0xca && icc[97]
        == 0x83 && icc[98] == 0x39 && icc[99] == 0x0d)
    ||| (icc[84] == 0xc9 && icc[85] == 0x5b && icc[86] == 0xd6 && icc[87] == 0x37 && icc[88]
        == 0xe9 && icc[89] == 0x5d && icc[90] == 0x8a && icc[91] == 0x3b && icc[92] == 0x0d
        && icc[93] == 0xf3 && icc[94] == 0x8f && icc[95] == 0x99 && icc[96] == 0xc1 && icc[97]
        == 0x32 && icc[98] == 0x03 && icc[99] == 0x89)
    ||| (icc[84] == 0xfc && icc[85] == 0x66 && icc[86] == 0x33 && icc[87] == 0x78 && icc[88]
        == 0x37 && icc[89] == 0xe2 && icc[90] == 0x88 && icc[91] == 0x6b && icc[92] == 0xfd
        && icc[93] == 0x72 && icc[94] == 0xe9 && icc[95] == 0x83 && icc[96] == 0x82 && icc[97]
        == 0x28 && icc[98] == 0xf1 && icc[99] == 0xb8)
    ||| (icc[84] == 0x34 && icc[85] == 0x56 && icc[86] == 0x2a && icc[87] == 0xbf && icc[88]
        == 0x99 && icc[89] == 0x4c && icc[90] == 0xcd && icc[91] == 0x06 && icc[92] == 0x6d
        && icc[93] == 0x2c && icc[94] == 0x57 && icc[95] == 0x21 && icc[96] == 0xd0 && icc[97]
        == 0xd6 && icc[98] == 0x8c && icc[99] == 0x5d)
}

/// Whether a profile's ID field is blank.
pub open spec fn spec_blank_id(icc: Seq<u8>) -> bool {
    forall|j: int| 84 <= j < 100 ==> icc[j] == 0
}

/// A profile counts as sRGB when its ID matches a known digest, or the ID
/// is blank and its checksum and length match a known sRGB profile
/// published without an ID.
pub open spec fn spec_is_srgb_profile(icc: Seq<u8>) -> bool {
    ||| spec_srgb_digest(icc)
    ||| (spec_blank_id(icc) && ((crate::crc::spec_crc32(icc) == 0x5d51_29ce && icc.len() == 3024)
        || (crate::crc::spec_crc32(icc) == 0x182e_a552 && icc.len() == 3144) || (
        crate::crc::spec_crc32(icc) == 0xf29e_526d && icc.len() == 3144)))
}

/// The rendering intent the profile recognizer yields: skip the
/// NUL-terminated name, require compression method zero, inflate the rest
/// within the buffer bound, and accept a profile of at least 100 bytes that
/// `spec_is_srgb_profile` accepts, yielding its intent byte.
pub open spec fn spec_srgb_intent(iccp: Seq<u8>) -> Option<u8> {
    match spec_first_nul(iccp) {
        Some(p) => if p + 2 > iccp.len() || iccp[p + 1] != 0 {
            Option::None
        } else {
            let compressed = iccp.subrange(p + 2, iccp.len() as int);
            match deflate::inflate_of(compressed) {
                Some(icc) => if icc.len() > spec_inflate_limit(compressed.len()) || icc.len()
                    < 100 || !spec_is_srgb_profile(icc) {
                    Option::None
                } else {
                    Some(icc[67])
                },
                Option::None => Option::None,
            }
        },
        Option::None => Option::None,
    }
}

/// If the ICC profile is sRGB, extract its rendering intent byte.
///
/// The profile payload holds a name, a compression method byte and a
/// zlib-compressed profile. A profile counts as sRGB exactly when
/// `spec_srgb_intent` says so: its embedded profile ID matches one of the
/// four well-known sRGB digests, or, where the ID field is blank, its
/// checksum and length match one of the three known sRGB profiles
/// published without an ID.
pub fn srgb_rendering_intent(iccp: &[u8]) -> (r: Option<u8>)
    ensures
        r == spec_srgb_intent(iccp@),
{
    proof {
        lemma_first_nul(iccp@);
    }
    // skip the profile name, up to and including its terminator
    let mut pos: usize = 0;
    while pos < iccp.len()
        invariant
            pos <= iccp.len(),
            forall|j: int| 0 <= j < pos ==> iccp@[j] != 0,
        ensures
            pos <= iccp.len(),
            forall|j: int| 0 <= j < pos ==> iccp@[j] != 0,
            pos < iccp.len() ==> iccp@[pos as int] == 0,
        decreases iccp.len() - pos,
    {
        if iccp[pos] == 0 {
            break ;
        }
        pos = pos + 1;
    }
    if pos >= iccp.len() {
        proof {
            assert(spec_first_nul(iccp@) is None) by {
                if spec_first_nul(iccp@) is Some {
                    let p = spec_first_nul(iccp@).unwrap();
                    assert(iccp@[p] != 0);
                }
            }
        }
        return Option::None;
    }
    proof {
        assert(spec_first_nul(iccp@) == Some(pos as int)) by {
            match spec_first_nul(iccp@) {
                Some(p) => {
                    if p < pos {
                        assert(iccp@[p] != 0);
                    }
                    if p > pos {
                        assert(iccp@[pos as int] != 0);
                    }
                },
                Option::None => {
                    assert(iccp@[pos as int] != 0);
                },
            }
        }
    }
    if iccp.len() - pos < 2 {
        return Option::None;
    }
    let compression_method = iccp[pos + 1];
    if compression_method != 0 {
        return Option::None;
    }
    let start = pos + 2;
    let compressed = crate::png::copy_slice_range(iccp, start, iccp.len() - start);
    // the decompressed size is unknown; bound the buffer generously
    let max_size = if compressed.len() > 500 {
        if compressed.len() > usize::MAX / 2 {
            usize::MAX
        } else {
            compressed.len() * 2
        }
    } else {
        1000
    };
    proof {
        assert(max_size as nat == spec_inflate_limit(compressed@.len()));
    }
    let icc_data = match deflate::inflate(compressed.as_slice(), max_size) {
        Ok(d) => d,
        Err(_) => {
            return Option::None;
        },
    };
    if icc_data.len() < 100 {
        return Option::None;
    }
    let rendering_intent = icc_data[67];
    if matches_srgb_profile_id(&icc_data) {
        return Some(rendering_intent);
    }
    if profile_id_blank(&icc_data) {
        let crc = crate::crc::crc32_range(icc_data.as_slice(), 0, icc_data.len());
        proof {
            assert(icc_data@.subrange(0, icc_data@.len() as int) =~= icc_data@);
        }
        if (crc == 0x5d51_29ce && icc_data.len() == 3024) || (crc == 0x182e_a552 && icc_data.len()
            == 3144) || (crc == 0xf29e_526d && icc_data.len() == 3144) {
            return Some(rendering_intent);
        }
    }
    Option::None
}

/// Whether the profile ID field matches one of the four known sRGB digests.
fn matches_srgb_profile_id(icc: &Vec<u8>) -> (r: bool)
    requires
        icc.len() >= 100,
    ensures
        r == spec_srgb_digest(icc@),
{
    let a = icc[84] == 0x29 && icc[85] == 0xf8 && icc[86] == 0x3d && icc[87] == 0xde && icc[88]
        == 0xaf && icc[89] == 0xf2 && icc[90] == 0x55 && icc[91] == 0xae && icc[92] == 0x78
        && icc[93] == 0x42 && icc[94] == 0xfa && icc[95] == 0xe4 && icc[96] == 0xca && icc[97]
        == 0x83 && icc[98] == 0x39 && icc[99] == 0x0d;
    let b = icc[84] == 0xc9 && icc[85] == 0x5b && icc[86] == 0xd6 && icc[87] == 0x37 && icc[88]
        == 0xe9 && icc[89] == 0x5d && icc[90] == 0x8a && icc[91] == 0x3b && icc[92] == 0x0d
        && icc[93] == 0xf3 && icc[94] == 0x8f && icc[95] == 0x99 && icc[96] == 0xc1 && icc[97]
        == 0x32 && icc[98] == 0x03 && icc[99] == 0x89;
    let c = icc[84] == 0xfc && icc[85] == 0x66 && icc[86] == 0x33 && icc[87] == 0x78 && icc[88]
        == 0x37 && icc[89] == 0xe2 && icc[90] == 0x88 && icc[91] == 0x6b && icc[92] == 0xfd
        && icc[93] == 0x72 && icc[94] == 0xe9 && icc[95] == 0x83 && icc[96] == 0x82 && icc[97]
        == 0x28 && icc[98] == 0xf1 && icc[99] == 0xb8;
    let d = icc[84] == 0x34 && icc[85] == 0x56 && icc[86] == 0x2a && icc[87] == 0xbf && icc[88]
        == 0x99 && icc[89] == 0x4c && icc[90] == 0xcd && icc[91] == 0x06 && icc[92] == 0x6d
        && icc[93] == 0x2c && icc[94] == 0x57 && icc[95] == 0x21 && icc[96] == 0xd0 && icc[97]
        == 0xd6 && icc[98] == 0x8c && icc[99] == 0x5d;
    a || b || c || d
}

/// Whether the profile ID field is all zero.
fn profile_id_blank(icc: &Vec<u8>) -> (r: bool)
    requires
        icc.len() >= 100,
    ensures
        r == spec_blank_id(icc@),
{
    let mut j: usize = 84;
    while j < 100
        invariant
            84 <= j <= 100,
            icc.len() >= 100,
            forall|j2: int| 84 <= j2 < j ==> icc@[j2] == 0,
        decreases 100 - j,
    {
        if icc[j] != 0 {
            return false;
        }
        j = j + 1;
    }
    true
}


/// What a byte stream decodes to as width, height and RGBA bytes, when it
/// is a readable image.
pub uninterp spec fn decoded_rgba(data: Seq<u8>) -> Option<(u32, u32, Seq<u8>)>;

/// Relies on `image::ImageReader` configured for PNG (`set_format`,
/// `no_limits`, `decode`) and `DynamicImage::to_rgba8`: decoding is a
/// function of the bytes alone, yielding the dimensions and the 8-bit RGBA
/// pixels in row-major order.
#[verifier::external_body]
fn decode_rgba8(data: &[u8]) -> (r: Option<(u32, u32, Vec<u8>)>)
    ensures
        match r {
            Some(v) => decoded_rgba(data@) == Some((v.0, v.1, v.2@)),
            None => decoded_rgba(data@) is None,
        },
{
    let mut reader = image::ImageReader::new(std::io::Cursor::new(data));
    reader.set_format(image::ImageFormat::Png);
    reader.no_limits();
    match reader.decode() {
        Ok(img) => {
            let rgba = img.to_rgba8();
            let (w, h) = (rgba.width(), rgba.height());
            Some((w, h, rgba.into_raw()))
        },
        Err(_) => None,
    }
}

/// Pixel equivalence of two decoded RGBA images: equal dimensions, and
/// every pixel equal unless fully transparent on both sides.
pub open spec fn spec_rgba_images_equal(a: (u32, u32, Seq<u8>), b: (u32, u32, Seq<u8>)) -> bool {
    &&& a.0 == b.0
    &&& a.1 == b.1
    &&& a.2.len() == b.2.len()
    &&& forall|q: int|
        0 <= q && 4 * q + 3 < a.2.len() ==> ((#[trigger] a.2[4 * q] == b.2[4 * q] && a.2[4 * q + 1]
            == b.2[4 * q + 1] && a.2[4 * q + 2] == b.2[4 * q + 2] && a.2[4 * q + 3] == b.2[4 * q
            + 3]) || (a.2[4 * q + 3] == 0 && b.2[4 * q + 3] == 0))
}

/// Compare two decoded images pixel by pixel, ignoring pixels fully
/// transparent in both.
pub fn images_equal(a: &(u32, u32, Vec<u8>), b: &(u32, u32, Vec<u8>)) -> (r: bool)
    ensures
        r == spec_rgba_images_equal((a.0, a.1, a.2@), (b.0, b.1, b.2@)),
{
    if a.0 != b.0 || a.1 != b.1 || a.2.len() != b.2.len() {
        return false;
    }
    let mut q: usize = 0;
    while q < a.2.len() / 4
        invariant
            a.2.len() == b.2.len(),
            q <= a.2.len() / 4,
            forall|q2: int|
                0 <= q2 < q && 4 * q2 + 3 < a.2@.len() ==> ((#[trigger] a.2@[4 * q2] == b.2@[4
                    * q2] && a.2@[4 * q2 + 1] == b.2@[4 * q2 + 1] && a.2@[4 * q2 + 2] == b.2@[4
                    * q2 + 2] && a.2@[4 * q2 + 3] == b.2@[4 * q2 + 3]) || (a.2@[4 * q2 + 3] == 0
                    && b.2@[4 * q2 + 3] == 0)),
        decreases a.2.len() / 4 - q,
    {
        proof {
            assert(4 * q + 3 < a.2.len()) by (nonlinear_arith)
                requires
                    q < a.2.len() / 4,
            ;
        }
        let same = a.2[4 * q] == b.2[4 * q] && a.2[4 * q + 1] == b.2[4 * q + 1] && a.2[4 * q + 2]
            == b.2[4 * q + 2] && a.2[4 * q + 3] == b.2[4 * q + 3];
        let both_clear = a.2[4 * q + 3] == 0 && b.2[4 * q + 3] == 0;
        if !same && !both_clear {
            return false;
        }
        proof {
            assert forall|q2: int|
                0 <= q2 < q + 1 && 4 * q2 + 3 < a.2@.len() implies ((#[trigger] a.2@[4 * q2]
                == b.2@[4 * q2] && a.2@[4 * q2 + 1] == b.2@[4 * q2 + 1] && a.2@[4 * q2 + 2]
                == b.2@[4 * q2 + 2] && a.2@[4 * q2 + 3] == b.2@[4 * q2 + 3]) || (a.2@[4 * q2 + 3]
                == 0 && b.2@[4 * q2 + 3] == 0)) by {
                if q2 == q {
                    assert(a.2@[4 * (q as int)] == a.2@[4 * (q as int)]);
                }
            }
        }
        q = q + 1;
    }
    proof {
        assert forall|q2: int|
            0 <= q2 && 4 * q2 + 3 < a.2@.len() implies ((#[trigger] a.2@[4 * q2] == b.2@[4 * q2]
            && a.2@[4 * q2 + 1] == b.2@[4 * q2 + 1] && a.2@[4 * q2 + 2] == b.2@[4 * q2 + 2]
            && a.2@[4 * q2 + 3] == b.2@[4 * q2 + 3]) || (a.2@[4 * q2 + 3] == 0 && b.2@[4 * q2 + 3]
            == 0)) by {
            assert(q2 < a.2@.len() / 4) by (nonlinear_arith)
                requires
                    4 * q2 + 3 < a.2@.len(),
                    q2 >= 0,
            ;
            assert(q2 < q);
        }
    }
    true
}

/// What validation means over the two decodings: the output must decode,
/// and where the input also decodes the two must agree on every pixel not
/// fully transparent in both.
pub open spec fn spec_validated(out_dec: Option<(u32, u32, Seq<u8>)>, orig_dec: Option<(u32, u32, Seq<u8>)>) -> bool {
    match (out_dec, orig_dec) {
        (Option::None, _) => false,
        (Some(_), Option::None) => true,
        (Some(n), Some(o)) => spec_rgba_images_equal(o, n),
    }
}

/// Decode the produced bytes and the original independently and compare
/// their visible pixels. An undecodable original (tolerated under
/// `fix_errors`) leaves only the output's decodability to check.
pub fn validate_output(output: &[u8], original_data: &[u8]) -> (r: bool)
    ensures
        r == spec_validated(decoded_rgba(output@), decoded_rgba(original_data@)),
{
    let new_png = decode_rgba8(output);
    let old_png = decode_rgba8(original_data);
    match (new_png, old_png) {
        (Option::None, _) => false,
        (Some(_), Option::None) => true,
        (Some(n), Some(o)) => images_equal(&o, &n),
    }
}

/// Run the enabled reductions, chaining each over the last, and propose
/// every result to the evaluator; after a bit depth reduction below four
/// bits, also propose the four-bit widening. When at least one proposal is
/// made the baseline joins the pool first — the first new submission is the
/// unreduced input, so an exact size tie keeps the baseline; with no
/// proposal the pool is left untouched and `false` comes back.
#[verifier::rlimit(100)]
pub fn perform_reductions(
    img: &PngImage,
    opts: &Options,
    deadline: &Deadline,
    eval: &mut Evaluator,
) -> (reduction_occurred: bool)
    requires
        img_wf(img@),
        old(eval).inv(),
        old(eval).spec_best() is None,
    ensures
        final(eval).inv(),
        !reduction_occurred ==> final(eval).spec_best() == old(eval).spec_best()
            && final(eval).spec_submitted() == old(eval).spec_submitted(),
        reduction_occurred ==> final(eval).spec_submitted().len() > old(
            eval,
        ).spec_submitted().len() && final(eval).spec_submitted()[old(
            eval,
        ).spec_submitted().len() as int] == img@,
        match final(eval).spec_best() {
            Some(c) => spec_vis_equal(spec_pixels(img@), spec_pixels(c.image.raw@)) && (
            !opts.optimize_alpha ==> spec_pixels(img@) == spec_pixels(c.image.raw@))
                && c.image.raw@.ihdr.interlaced == img.ihdr.interlaced,
            None => true,
        },
{
    let mut proposals: Vec<PngImage> = Vec::new();
    let mut current: Option<PngImage> = Option::None;
    if opts.palette_reduction && !deadline.passed() {
        let red = reduced_palette_of(img, &current, opts.optimize_alpha);
        match red {
            Some(r) => {
                proposals.push(r.clone());
                current = Some(r);
            },
            None => {},
        }
    }
    if opts.bit_depth_reduction && !deadline.passed() {
        let prev_is_four = match &current {
            Some(c) => matches!(c.ihdr.bit_depth, crate::colors::BitDepth::Four),
            None => matches!(img.ihdr.bit_depth, crate::colors::BitDepth::Four),
        };
        let red = match &current {
            Some(c) => crate::reduction::reduce_bit_depth(c, 1),
            None => crate::reduction::reduce_bit_depth(img, 1),
        };
        match red {
            Some(r) => {
                proposals.push(r.clone());
                let bits = r.ihdr.bit_depth.as_u8();
                if (bits == 1 || bits == 2) && !prev_is_four {
                    let widened = match &current {
                        Some(c) => crate::reduction::reduce_bit_depth(c, 4),
                        None => crate::reduction::reduce_bit_depth(img, 4),
                    };
                    match widened {
                        Some(w) => {
                            proposals.push(w);
                        },
                        None => {},
                    }
                }
                current = Some(r);
            },
            None => {},
        }
    }
    if opts.color_type_reduction && !deadline.passed() {
        let red = match &current {
            Some(c) => crate::reduction::reduce_color_type(
                c,
                opts.grayscale_reduction,
                opts.optimize_alpha,
            ),
            None => crate::reduction::reduce_color_type(
                img,
                opts.grayscale_reduction,
                opts.optimize_alpha,
            ),
        };
        match red {
            Some(r) => {
                proof {
                    match &current {
                        Some(c) => {
                            crate::png::lemma_vis_equal_trans(
                                spec_pixels(img@),
                                spec_pixels(c@),
                                spec_pixels(r@),
                            );
                        },
                        None => {},
                    }
                }
                proposals.push(r);
            },
            None => {},
        }
    }
    proof {
        assert forall|j: int|
            0 <= j < proposals@.len() implies img_wf((#[trigger] proposals@[j])@)
            && spec_vis_equal(spec_pixels(img@), spec_pixels(proposals@[j]@)) && (
        !opts.optimize_alpha ==> spec_pixels(img@) == spec_pixels(proposals@[j]@))
            && proposals@[j]@.ihdr.interlaced == img.ihdr.interlaced by {}
    }
    let reduction_occurred = proposals.len() > 0;
    let ghost base_at = eval.spec_submitted().len() as int;
    if reduction_occurred {
        // the baseline first, so that an exact compressed-size tie keeps it
        eval.try_image(img, false, deadline);
        let mut i: usize = 0;
        while i < proposals.len()
            invariant
                i <= proposals.len(),
                img_wf(img@),
                eval.inv(),
                eval.spec_submitted().len() > base_at >= 0,
                eval.spec_submitted()[base_at] == img@,
                forall|j: int|
                    0 <= j < proposals@.len() ==> img_wf((#[trigger] proposals@[j])@)
                        && spec_vis_equal(spec_pixels(img@), spec_pixels(proposals@[j]@)) && (
                    !opts.optimize_alpha ==> spec_pixels(img@) == spec_pixels(proposals@[j]@))
                        && proposals@[j]@.ihdr.interlaced == img.ihdr.interlaced,
                match eval.spec_best() {
                    Some(c) => spec_vis_equal(spec_pixels(img@), spec_pixels(c.image.raw@)) && (
                    !opts.optimize_alpha ==> spec_pixels(img@) == spec_pixels(c.image.raw@))
                        && c.image.raw@.ihdr.interlaced == img.ihdr.interlaced,
                    None => true,
                },
            decreases proposals.len() - i,
        {
            eval.try_image(&proposals[i], true, deadline);
            i = i + 1;
        }
    }
    reduction_occurred
}

/// Palette-reduce the latest proposal, or the base image if none stands.
fn reduced_palette_of(img: &PngImage, current: &Option<PngImage>, optimize_alpha: bool) -> (r:
    Option<PngImage>)
    requires
        img_wf(img@),
        current matches Some(c) ==> img_wf(c@) && spec_vis_equal(
            spec_pixels(img@),
            spec_pixels(c@),
        ) && (!optimize_alpha ==> spec_pixels(img@) == spec_pixels(c@)) && c.ihdr.interlaced
            == img.ihdr.interlaced,
    ensures
        match r {
            Some(out) => img_wf(out@) && spec_vis_equal(spec_pixels(img@), spec_pixels(out@)) && (
            !optimize_alpha ==> spec_pixels(img@) == spec_pixels(out@)) && out.ihdr.interlaced
                == img.ihdr.interlaced,
            None => true,
        },
{
    let red = match current {
        Some(c) => crate::reduction::reduced_palette(c, optimize_alpha),
        None => crate::reduction::reduced_palette(img, optimize_alpha),
    };
    match red {
        Some(out) => {
            proof {
                match current {
                    Some(c) => {
                        crate::png::lemma_vis_equal_trans(
                            spec_pixels(img@),
                            spec_pixels(c@),
                            spec_pixels(out@),
                        );
                    },
                    None => {},
                }
            }
            Some(out)
        },
        None => Option::None,
    }
}


/// Optimize a decoded image: strip chunks, change interlacing, clean the
/// alpha channel, run the reductions through the evaluator, run the filter
/// and compression trials, keep the best result that beats the original
/// IDAT (or anything under `force`), serialize and validate.
///
/// On success the returned bytes are exactly the serialization of the final
/// image, whose visible pixels equal the input image's; without
/// `optimize_alpha` every pixel is untouched.
#[verifier::rlimit(100)]
#[verifier::spinoff_prover]
pub fn optimize_png(
    png: &mut PngData,
    original_data: &[u8],
    opts: &Options,
    deadline: &Deadline,
) -> (r: PngResult<Vec<u8>>)
    requires
        img_wf(old(png).raw@),
    ensures
        match r {
            Ok(v) => img_wf(final(png).raw@) && v@ == spec_png_bytes(
                final(png).raw@,
                final(png).idat_data@,
            ) && spec_vis_equal(spec_pixels(old(png).raw@), spec_pixels(final(png).raw@)) && (
            !opts.optimize_alpha ==> spec_pixels(old(png).raw@) == spec_pixels(final(png).raw@))
                && spec_validated(decoded_rgba(v@), decoded_rgba(original_data@)) && (opts.force
                || final(png).idat_data@.len() < old(png).idat_data@.len() || (
            final(png).idat_data@ == old(png).idat_data@ && final(png).raw@.data == old(
                png,
            ).raw@.data && final(png).raw.ihdr == old(png).raw.ihdr && final(png).raw@.palette
                == old(png).raw@.palette && final(png).raw@.transparency == old(
                png,
            ).raw@.transparency && final(png).filtered@ == old(png).filtered@)) && (match opts.interlace {
                Some(t) => final(png).raw.ihdr.interlaced == t || final(png).raw.ihdr == old(
                    png,
                ).raw.ihdr,
                None => true,
            }),
            Err(e) => e == PngError::InternalInvariantViolated && (final(png).idat_data@.len()
                > 0x7fff_ffff || spec_png_bytes(final(png).raw@, final(png).idat_data@).len()
                > usize::MAX || !spec_validated(
                decoded_rgba(spec_png_bytes(final(png).raw@, final(png).idat_data@)),
                decoded_rgba(original_data@),
            )),
        },
{
    let idat_original_size = png.idat_data.len();
    let ghost orig_pixels = spec_pixels(old(png).raw@);
    // strip auxiliary chunks first, so reductions need not consider them
    perform_strip(png, opts);
    let stripped_png = png.clone();
    let ghost stripped_pixels = spec_pixels(stripped_png.raw@);
    proof {
        assert(stripped_pixels == orig_pixels);
        assert(stripped_png.idat_data@ == old(png).idat_data@);
        assert(stripped_png.raw@.data == old(png).raw@.data);
        assert(stripped_png.raw.ihdr == old(png).raw.ihdr);
        assert(stripped_png.raw@.palette == old(png).raw@.palette);
        assert(stripped_png.raw@.transparency == old(png).raw@.transparency);
        assert(stripped_png.filtered@ == old(png).filtered@);
        assert(idat_original_size == old(png).idat_data@.len());
    }
    // interlacing is not an evaluator trial; change it up front
    let mut reduction_occurred = false;
    match opts.interlace {
        Some(target) => {
            if target.png_code() != png.raw.ihdr.interlaced.png_code() {
                let ghost pre = png.raw@;
                let old_ihdr = png.raw.ihdr;
                png.raw.ihdr = crate::png::IhdrData {
                    width: old_ihdr.width,
                    height: old_ihdr.height,
                    color_type: old_ihdr.color_type,
                    bit_depth: old_ihdr.bit_depth,
                    interlaced: target,
                };
                reduction_occurred = true;
                proof {
                    crate::png::lemma_wf_interlace_change(pre, png.raw@);
                }
            }
        },
        None => {},
    }
    // alpha cleaning can unlock reductions that need rewritable pixels
    if opts.optimize_alpha {
        match crate::reduction::cleaned_alpha_channel(&png.raw) {
            Some(cleaned) => {
                proof {
                    crate::png::lemma_vis_equal_trans(
                        orig_pixels,
                        spec_pixels(png.raw@),
                        spec_pixels(cleaned@),
                    );
                }
                png.raw = cleaned;
            },
            None => {},
        }
    }
    proof {
        assert(spec_vis_equal(orig_pixels, spec_pixels(png.raw@)));
        assert(!opts.optimize_alpha ==> orig_pixels == spec_pixels(png.raw@));
    }
    // evaluate the reduction proposals with a cheap compression level
    let mut eval_filters: Vec<RowFilter> = Vec::new();
    eval_filters.push(RowFilter::NoFilter);
    eval_filters.push(RowFilter::Bigrams);
    let mut eval = Evaluator::new(eval_filters, 5);
    let red = perform_reductions(&png.raw, opts, deadline, &mut eval);
    if red {
        reduction_occurred = true;
    }
    let mut eval_filter: Option<RowFilter> = Option::None;
    match eval.get_best_candidate() {
        Some(result) => {
            proof {
                crate::png::lemma_vis_equal_trans(
                    orig_pixels,
                    spec_pixels(png.raw@),
                    spec_pixels(result.image.raw@),
                );
            }
            if result.is_reduction {
                reduction_occurred = true;
            }
            eval_filter = Some(result.filter);
            *png = result.image;
        },
        None => {},
    }
    proof {
        assert(spec_vis_equal(orig_pixels, spec_pixels(png.raw@)));
        assert(!opts.optimize_alpha ==> orig_pixels == spec_pixels(png.raw@));
    }
    // filter and compression trials
    if opts.idat_recoding || reduction_occurred {
        let compression = opts.compression_level();
        let fast_eval = opts.fast_evaluation && (opts.filter.len() > 1 || eval_filter.is_some());
        let best: Option<(TrialOptions, Vec<u8>)> = if fast_eval {
            // cheap evaluation of the remaining filters, then one main pass
            let mut remaining: Vec<RowFilter> = Vec::new();
            let mut k: usize = 0;
            while k < opts.filter.len()
                decreases opts.filter.len() - k,
            {
                let f = opts.filter[k];
                let already = eval_filter.is_some() && (f.ordinal() == 0 || f.ordinal() == 7);
                if !already {
                    remaining.push(f);
                }
                k = k + 1;
            }
            if remaining.len() > 0 {
                let mut eval2 = Evaluator::new(remaining, 5);
                if eval_filter.is_some() {
                    eval2.set_best_size(png.idat_data.len());
                }
                eval2.try_image(&png.raw, false, deadline);
                match eval2.get_best_candidate() {
                    Some(result) => {
                        proof {
                            crate::png::lemma_vis_equal_trans(
                                orig_pixels,
                                spec_pixels(png.raw@),
                                spec_pixels(result.image.raw@),
                            );
                        }
                        eval_filter = Some(result.filter);
                        *png = result.image;
                    },
                    None => {},
                }
            }
            match eval_filter {
                Some(f) => {
                    let trial = TrialOptions { filter: f, compression };
                    if trial.compression > 0 && trial.compression <= 5 {
                        // the evaluator's bytes already used this level
                        if png.idat_data.len() < idat_original_size || opts.force {
                            Some((trial, crate::png::clone_bytes(&png.idat_data)))
                        } else {
                            Option::None
                        }
                    } else {
                        let mut best_size = AtomicMin::new(
                            if opts.force {
                                Option::None
                            } else {
                                Some(idat_original_size)
                            },
                        );
                        perform_trial(&png.filtered, opts, trial, &mut best_size)
                    }
                },
                None => Option::None,
            }
        } else {
            // full trials of every selected filter at the main level, in
            // ordinal order so that ties fall to the lower ordinal
            let mut filters = sort_by_ordinal(&opts.filter);
            if filters.len() == 0 {
                if png.raw.ihdr.bit_depth.as_u8() >= 8 {
                    filters.push(RowFilter::Bigrams);
                } else {
                    filters.push(RowFilter::NoFilter);
                }
            }
            let mut best_size = AtomicMin::new(
                if opts.force {
                    Option::None
                } else {
                    Some(idat_original_size)
                },
            );
            let mut best: Option<(TrialOptions, Vec<u8>)> = Option::None;
            let mut k: usize = 0;
            while k < filters.len()
                invariant
                    img_wf(png.raw@),
                    !opts.force ==> match best_size.spec_get() {
                        Some(m) => m <= idat_original_size,
                        None => false,
                    },
                    match best {
                        Some(t) => deflate::inflate_of(t.1@) is Some && (!opts.force ==> t.1@.len()
                            < idat_original_size),
                        None => true,
                    },
                decreases filters.len() - k,
            {
                if deadline.passed() {
                    break ;
                }
                let trial = TrialOptions { filter: filters[k], compression };
                let filtered = match png.raw.filter_image(filters[k]) {
                    Some(s) => s,
                    None => {
                        k = k + 1;
                        continue ;
                    },
                };
                match perform_trial(&filtered, opts, trial, &mut best_size) {
                    Some(t) => {
                        best = Some(t);
                    },
                    None => {},
                }
                k = k + 1;
            }
            best
        };
        proof {
            assert(match best {
                Some(t) => opts.force || t.1@.len() < idat_original_size,
                None => true,
            });
        }
        match best {
            Some(t) => {
                png.idat_data = t.1;
            },
            None => {
                *png = stripped_png;
                proof {
                    assert(spec_pixels(png.raw@) == stripped_pixels);
                }
            },
        }
    } else if png.idat_data.len() >= idat_original_size {
        *png = stripped_png;
        proof {
            assert(spec_pixels(png.raw@) == stripped_pixels);
        }
    }
    proof {
        assert(spec_vis_equal(orig_pixels, spec_pixels(png.raw@)));
        assert(!opts.optimize_alpha ==> orig_pixels == spec_pixels(png.raw@));
    }
    // serialize and validate
    if png.idat_data.len() > 0x7fff_ffff {
        return Err(PngError::InternalInvariantViolated);
    }
    let output = match png.output() {
        Ok(v) => v,
        Err(e) => {
            return Err(e);
        },
    };
    if !validate_output(output.as_slice(), original_data) {
        return Err(PngError::InternalInvariantViolated);
    }
    Ok(output)
}

/// Optimize a PNG that is already in memory, returning the optimized bytes,
/// or the input bytes unchanged when nothing was saved and nothing forced a
/// rewrite. Without `force` and without an interlacing change the result is
/// never larger than the input.
pub fn optimize_from_memory(data: &[u8], opts: &Options) -> (r: PngResult<Vec<u8>>)
    ensures
        match r {
            Ok(v) => ((!opts.force && opts.interlace is None) ==> (v@ == data@ || v@.len()
                < data@.len())) && (v@ == data@ || spec_validated(
                decoded_rgba(v@),
                decoded_rgba(data@),
            )),
            Err(e) => ((e matches PngError::TruncatedChunk) || (e matches PngError::BadCrc(_))
                ==> crate::png::spec_parse_chunks(data@, 8, !opts.fix_errors) is None) && ((e
                matches PngError::BadCrc(_)) ==> !opts.fix_errors) && ((e
                matches PngError::TruncatedChunk) ==> crate::png::spec_parse_chunks(
                data@,
                8,
                false,
            ) is None) && (e
                == PngError::InflateFailed ==> exists|chunks: Seq<(u32, Seq<u8>)>|
                crate::png::spec_parse_chunks(data@, 8, !opts.fix_errors) == Some(chunks)
                    && chunks.len() >= 1 && (match crate::png::spec_parse_ihdr(
                    #[trigger] chunks[0].1,
                ) {
                    Some(ih) => ih.interlaced == Interlacing::Standard
                        ==> match deflate::inflate_of(crate::png::spec_idat_concat(chunks)) {
                        Some(f) => f.len() > ih.spec_data_len() + ih.height,
                        Option::None => true,
                    },
                    Option::None => false,
                })),
        },
        (data@.len() < 8 || data@.subrange(0, 8) != crate::png::spec_signature()) <==> (r matches
            Err(e) && e == PngError::NotPng),
{
    let deadline = Deadline::new(opts.timeout);
    let original_size = data.len();
    let mut png = match PngData::from_slice(data, opts.fix_errors) {
        Ok(p) => p,
        Err(e) => {
            return Err(e);
        },
    };
    let optimized_output = match optimize_png(&mut png, data, opts, &deadline) {
        Ok(v) => v,
        Err(e) => {
            proof {
                assert(e != PngError::NotPng);
            }
            return Err(e);
        },
    };
    if is_fully_optimized(original_size, optimized_output.len(), opts) {
        Ok(crate::png::copy_slice_range(data, 0, original_size))
    } else {
        Ok(optimized_output)
    }
}


/// One trial outcome: its options and its compressed size.
pub open spec fn trial_lt(a: (TrialOptions, nat), b: (TrialOptions, nat)) -> bool {
    spec_trial_better(a.1, a.0, b.1, b.0)
}

/// The winner of a list of trial outcomes: the first outcome that no later
/// outcome strictly beats, exactly as the sequential reduction keeps it.
pub open spec fn spec_select_best(s: Seq<(TrialOptions, nat)>) -> Option<(TrialOptions, nat)>
    decreases s.len(),
{
    if s.len() == 0 {
        None
    } else {
        match spec_select_best(s.drop_last()) {
            None => Some(s.last()),
            Some(b) => if trial_lt(s.last(), b) {
                Some(s.last())
            } else {
                Some(b)
            },
        }
    }
}

/// Filter ordinals identify filters.
proof fn lemma_ordinal_injective(f: RowFilter, g: RowFilter)
    requires
        f.spec_ordinal() == g.spec_ordinal(),
    ensures
        f == g,
{
}

/// The trial order is a strict total order: of two different outcomes, one
/// beats the other, and never both.
proof fn lemma_trial_order_total(a: (TrialOptions, nat), b: (TrialOptions, nat))
    ensures
        a == b || trial_lt(a, b) || trial_lt(b, a),
        !(trial_lt(a, b) && trial_lt(b, a)),
{
    if !trial_lt(a, b) && !trial_lt(b, a) {
        lemma_ordinal_injective(a.0.filter, b.0.filter);
    }
}

/// The selected winner is a member of the list that no other member beats.
proof fn lemma_select_best_is_min(s: Seq<(TrialOptions, nat)>)
    requires
        s.len() > 0,
    ensures
        spec_select_best(s) matches Some(m) && s.contains(m) && forall|i: int|
            0 <= i < s.len() ==> (s[i] == m || trial_lt(m, #[trigger] s[i])),
    decreases s.len(),
{
    let m = spec_select_best(s).unwrap();
    if s.len() == 1 {
        assert(m == s[0]);
        assert(s.contains(m)) by {
            assert(s[0] == m);
        }
    } else {
        lemma_select_best_is_min(s.drop_last());
        let b = spec_select_best(s.drop_last()).unwrap();
        assert(s.drop_last().contains(b));
        let bi = choose|bi: int| 0 <= bi < s.drop_last().len() && s.drop_last()[bi] == b;
        assert(s[bi] == b);
        if trial_lt(s.last(), b) {
            assert(m == s.last());
            assert(s[s.len() - 1] == m);
            assert(s.contains(m));
            assert forall|i: int| 0 <= i < s.len() implies (s[i] == m || trial_lt(
                m,
                #[trigger] s[i],
            )) by {
                if i < s.len() - 1 {
                    assert(s.drop_last()[i] == s[i]);
                    assert(s[i] == b || trial_lt(b, s[i]));
                    if s[i] == b {
                        assert(trial_lt(m, s[i]));
                    } else {
                        lemma_trial_order_total(m, s[i]);
                        lemma_trial_order_total(b, s[i]);
                        if s[i] == m {
                        } else if trial_lt(s[i], m) {
                            // then s[i] beats m which beats b which beats s[i]
                            assert(trial_lt(s[i], b)) by {
                                lemma_trial_lt_trans(s[i], m, b);
                            }
                            lemma_trial_order_total(s[i], b);
                            assert(false);
                        }
                    }
                }
            }
        } else {
            assert(m == b);
            assert(s.contains(m)) by {
                assert(s[bi] == m);
            }
            assert forall|i: int| 0 <= i < s.len() implies (s[i] == m || trial_lt(
                m,
                #[trigger] s[i],
            )) by {
                if i < s.len() - 1 {
                    assert(s.drop_last()[i] == s[i]);
                } else {
                    lemma_trial_order_total(m, s.last());
                    if s.last() != m && !trial_lt(m, s.last()) {
                        assert(trial_lt(s.last(), m));
                        assert(false);
                    }
                }
            }
        }
    }
}

/// The trial order is transitive.
proof fn lemma_trial_lt_trans(a: (TrialOptions, nat), b: (TrialOptions, nat), c: (
    TrialOptions,
    nat,
))
    requires
        trial_lt(a, b),
        trial_lt(b, c),
    ensures
        trial_lt(a, c),
{
}

/// Deterministic tie-break: two runs over the same trial outcomes, in any
/// order, select the same winner. The winner is pinned by the lexicographic
/// order on compressed size, filter ordinal and compression level, so the
/// selection does not depend on the order trials complete in.
pub proof fn lemma_trial_selection_deterministic(
    s1: Seq<(TrialOptions, nat)>,
    s2: Seq<(TrialOptions, nat)>,
)
    requires
        s1.to_multiset() == s2.to_multiset(),
    ensures
        spec_select_best(s1) == spec_select_best(s2),
{
    broadcast use vstd::seq_lib::group_to_multiset_ensures;

    if s1.len() == 0 {
        assert(s1.to_multiset().len() == 0);
        assert(s2.to_multiset().len() == s2.len());
        assert(s2.len() == 0);
    } else {
        assert(s1.to_multiset().len() == s1.len());
        assert(s2.to_multiset().len() == s2.len());
        lemma_select_best_is_min(s1);
        lemma_select_best_is_min(s2);
        let m1 = spec_select_best(s1).unwrap();
        let m2 = spec_select_best(s2).unwrap();
        assert(s1.to_multiset().contains(m1));
        assert(s2.to_multiset().contains(m2));
        assert(s2.contains(m1));
        assert(s1.contains(m2));
        let i1 = choose|i: int| 0 <= i < s1.len() && s1[i] == m2;
        let i2 = choose|i: int| 0 <= i < s2.len() && s2[i] == m1;
        assert(m2 == m1 || trial_lt(m1, m2));
        assert(m1 == m2 || trial_lt(m2, m1));
        lemma_trial_order_total(m1, m2);
    }
}

} // verus!
