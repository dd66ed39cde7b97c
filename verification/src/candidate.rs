//! The image candidate record and its comparison rule.

use core::cmp::Ordering;
use vstd::prelude::*;

use crate::decimal::Decimal;
use crate::decimal::DecView;
use crate::decimal::dec_ord;

verus! {

/// The mathematical content of an `ImageCandidate`: the URL text and the
/// optional descriptor values.
pub struct CandView {
    pub url: Seq<char>,
    pub width: Option<DecView>,
    pub density: Option<DecView>,
}

/// One candidate of a srcset: an image URL, optionally annotated with an
/// intrinsic width (`100w`) or a pixel density (`2x`). At most one of the two
/// descriptors is ever present.
#[derive(Debug)]
pub struct ImageCandidate {
    pub url: String,
    pub width: Option<Decimal>,
    pub density: Option<Decimal>,
}

pub open spec fn opt_dec_view(d: Option<Decimal>) -> Option<DecView> {
    match d {
        Some(x) => Some(x@),
        None => None,
    }
}

impl View for ImageCandidate {
    type V = CandView;

    open spec fn view(&self) -> CandView {
        CandView {
            url: self.url@,
            width: opt_dec_view(self.width),
            density: opt_dec_view(self.density),
        }
    }
}

impl DeepView for ImageCandidate {
    type V = CandView;

    open spec fn deep_view(&self) -> CandView {
        self.view()
    }
}

/// The comparison rule over candidates: two candidates are comparable only
/// when both carry a width and nothing else, or both carry a density and
/// nothing else; they then compare by that number. Every other pair is
/// incomparable.
pub open spec fn cand_cmp(a: CandView, b: CandView) -> Option<Ordering> {
    match (a.width, a.density, b.width, b.density) {
        (Some(x), None, Some(y), None) => Some(dec_ord(x, y)),
        (None, Some(x), None, Some(y)) => Some(dec_ord(x, y)),
        _ => None,
    }
}

impl PartialEq for ImageCandidate {
    /// Field equality: the same URL text and the same descriptors.
    fn eq(&self, other: &Self) -> (r: bool) {
        let w = match (&self.width, &other.width) {
            (Some(x), Some(y)) => *x == *y,
            (None, None) => true,
            _ => false,
        };
        let d = match (&self.density, &other.density) {
            (Some(x), Some(y)) => *x == *y,
            (None, None) => true,
            _ => false,
        };
        w && d && self.url == other.url
    }
}

impl vstd::std_specs::cmp::PartialEqSpecImpl for ImageCandidate {
    open spec fn obeys_eq_spec() -> bool {
        true
    }

    open spec fn eq_spec(&self, other: &Self) -> bool {
        self@ == other@
    }
}

impl PartialOrd for ImageCandidate {
    /// Candidates of the same descriptor kind compare by its numeric value;
    /// every other pair is incomparable.
    fn partial_cmp(&self, other: &Self) -> (r: Option<Ordering>) {
        match (&self.width, &self.density, &other.width, &other.density) {
            (Some(a), None, Some(b), None) => Some(a.cmp_value(b)),
            (None, Some(a), None, Some(b)) => Some(a.cmp_value(b)),
            _ => None,
        }
    }
}

impl vstd::std_specs::cmp::PartialOrdSpecImpl for ImageCandidate {
    open spec fn obeys_partial_cmp_spec() -> bool {
        true
    }

    open spec fn partial_cmp_spec(&self, other: &Self) -> Option<Ordering> {
        cand_cmp(self@, other@)
    }
}

impl Clone for ImageCandidate {
    /// An equal candidate.
    fn clone(&self) -> (r: Self)
        ensures
            r@ == self@,
    {
        let w = match &self.width {
            Some(x) => Some(x.clone()),
            None => None,
        };
        let d = match &self.density {
            Some(x) => Some(x.clone()),
            None => None,
        };
        ImageCandidate { url: clone_string(&self.url), width: w, density: d }
    }
}

fn clone_string(s: &String) -> (r: String)
    ensures
        r@ == s@,
{
    s.clone()
}

} // verus!
