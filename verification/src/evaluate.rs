//! The evaluator: a best-of-N pool that filters candidate images with a
//! small filter set, compresses each at a cheap level, and keeps the
//! smallest result. This build runs the trials in order; the selection is
//! the same min-reduction a parallel pool would compute.

use vstd::prelude::*;
use crate::atomicmin::AtomicMin;
use crate::deadline::Deadline;
use crate::deflate;
use crate::filters::RowFilter;
use crate::png::{PngData, PngImage, img_wf, spec_filtered_ok, spec_pixels};
use crate::interlace::Interlacing;

verus! {

/// The winning candidate: the encoded image, the filter that produced it,
/// and whether it came from a reduction rather than the baseline.
pub struct Candidate {
    pub image: PngData,
    pub filter: RowFilter,
    pub is_reduction: bool,
}

/// What the evaluator guarantees of everything it retains: a well-formed
/// image whose stored IDAT inflates to its stored filtered stream, which in
/// turn is a filtering of its raw scanlines.
pub open spec fn spec_candidate_ok(image: &PngData) -> bool {
    &&& img_wf(image.raw@)
    &&& deflate::inflate_of(image.idat_data@) == Some(image.filtered@)
    &&& (image.raw.ihdr.interlaced == Interlacing::Standard ==> spec_filtered_ok(
        image.raw.ihdr,
        image.raw@.data,
        image.filtered@,
    ))
}

pub struct Evaluator {
    filters: Vec<RowFilter>,
    compression: u8,
    best_size: AtomicMin,
    best: Option<Candidate>,
    submitted: Ghost<Seq<crate::png::PngImageV>>,
}

impl Evaluator {
    /// Every retained candidate is consistent: well formed, its IDAT is the
    /// compressor's output for its filtered stream at the pool's level, and
    /// the ceiling is at most its size.
    pub closed spec fn inv(&self) -> bool {
        match &self.best {
            Some(c) => spec_candidate_ok(&c.image) && c.image.idat_data@
                == deflate::deflate_of(
                c.image.filtered@,
                deflate::spec_clamp_level(self.compression),
            ) && match self.best_size.spec_get() {
                Some(m) => m <= c.image.idat_data@.len(),
                None => false,
            },
            None => true,
        }
    }

    /// The retained candidate, used by the orchestrator to track pixel
    /// preservation across the pool.
    pub closed spec fn spec_best(&self) -> Option<Candidate> {
        self.best
    }

    /// The images submitted to the pool so far, in submission order.
    pub closed spec fn spec_submitted(&self) -> Seq<crate::png::PngImageV> {
        self.submitted@
    }

    /// The current size ceiling a candidate must strictly beat.
    pub closed spec fn spec_ceiling(&self) -> Option<usize> {
        self.best_size.spec_get()
    }

    /// The cheap compression level trials run at.
    pub closed spec fn spec_compression(&self) -> u8 {
        self.compression
    }

    pub fn new(filters: Vec<RowFilter>, compression: u8) -> (r: Evaluator)
        ensures
            r.inv(),
            r.spec_best() is None,
            r.spec_ceiling() is None,
            r.spec_compression() == compression,
            r.spec_submitted() == Seq::<crate::png::PngImageV>::empty(),
    {
        Evaluator {
            filters,
            compression,
            best_size: AtomicMin::new(Option::None),
            best: Option::None,
            submitted: Ghost(Seq::empty()),
        }
    }

    /// Seed the size ceiling from a previous stage: the ceiling becomes the
    /// minimum of its old value and `n`.
    pub fn set_best_size(&mut self, n: usize)
        requires
            old(self).inv(),
        ensures
            final(self).inv(),
            final(self).spec_best() == old(self).spec_best(),
            final(self).spec_compression() == old(self).spec_compression(),
            final(self).spec_submitted() == old(self).spec_submitted(),
            final(self).spec_ceiling() == match old(self).spec_ceiling() {
                Some(m) => if n < m {
                    Some(n)
                } else {
                    Some(m)
                },
                None => Some(n),
            },
    {
        self.best_size.set_min(n);
    }

    /// Submit a candidate image: filter it with each configured filter,
    /// compress cheaply, and retain the smallest result seen so far. The
    /// submission joins the pool's log; the ceiling never rises; a retained
    /// newcomer is the submitted image itself, its IDAT is exactly the
    /// compressor's output for its filtered stream, and the ceiling equals
    /// its size.
    pub fn try_image(&mut self, img: &PngImage, is_reduction: bool, deadline: &Deadline)
        requires
            old(self).inv(),
            img_wf(img@),
        ensures
            final(self).inv(),
            final(self).spec_submitted() == old(self).spec_submitted().push(img@),
            final(self).spec_compression() == old(self).spec_compression(),
            match (old(self).spec_ceiling(), final(self).spec_ceiling()) {
                (Some(m0), Some(m1)) => m1 <= m0,
                (Some(m0), None) => false,
                (None, _) => true,
            },
            match final(self).spec_best() {
                Some(c) => (match old(self).spec_best() {
                    Some(p) => c == p,
                    None => false,
                }) || (c.image.raw@ == img@ && c.is_reduction == is_reduction
                    && final(self).spec_ceiling() == Some(c.image.idat_data@.len() as usize)),
                None => old(self).spec_best() is None,
            },
    {
        proof {
            self.submitted@ = self.submitted@.push(img@);
        }
        let nf = self.filters.len();
        let mut k: usize = 0;
        while k < nf
            invariant
                k <= nf,
                nf == self.filters.len(),
                self.inv(),
                img_wf(img@),
                self.spec_submitted() == old(self).spec_submitted().push(img@),
                self.spec_compression() == old(self).spec_compression(),
                match (old(self).spec_ceiling(), self.spec_ceiling()) {
                    (Some(m0), Some(m1)) => m1 <= m0,
                    (Some(m0), None) => false,
                    (None, _) => true,
                },
                match self.spec_best() {
                    Some(c) => (match old(self).spec_best() {
                        Some(p) => c == p,
                        None => false,
                    }) || (c.image.raw@ == img@ && c.is_reduction == is_reduction
                        && self.spec_ceiling() == Some(c.image.idat_data@.len() as usize)),
                    None => old(self).spec_best() is None,
                },
            decreases nf - k,
        {
            if deadline.passed() {
                return ;
            }
            let f = self.filters[k];
            let filtered = match img.filter_image(f) {
                Some(s) => s,
                None => {
                    k = k + 1;
                    continue ;
                },
            };
            let idat = match deflate::deflate(filtered.as_slice(), self.compression, &self.best_size)
                {
                Ok(v) => v,
                Err(_) => {
                    k = k + 1;
                    continue ;
                },
            };
            if self.best_size.set_min(idat.len()) {
                let image = PngData { raw: img.clone(), idat_data: idat, filtered };
                proof {
                    assert(spec_candidate_ok(&image));
                    assert(spec_pixels(image.raw@) == spec_pixels(img@));
                }
                self.best = Some(Candidate { image, filter: f, is_reduction });
            }
            k = k + 1;
        }
    }

    /// Return the winner, if any candidate beat the ceiling.
    pub fn get_best_candidate(self) -> (r: Option<Candidate>)
        requires
            self.inv(),
        ensures
            r == self.spec_best(),
            match r {
                Some(c) => spec_candidate_ok(&c.image),
                None => true,
            },
    {
        self.best
    }
}

} // verus!
