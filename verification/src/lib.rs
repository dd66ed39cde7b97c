//! Parser for the `srcset` attribute of responsive images: a comma-separated
//! list of image URLs, each optionally annotated with a pixel-density (`2x`)
//! or intrinsic-width (`100w`) descriptor.
//!
//! The parser is total: it never fails, and degrades malformed numeric
//! descriptors to zero. Candidates of the same descriptor kind can be ranked
//! through a strict partial order; candidates of different kinds are
//! incomparable.

mod candidate;
mod chars;
mod decimal;
mod grammar;
mod laws;
mod parser;
mod text;

pub use candidate::CandView;
pub use candidate::ImageCandidate;
pub use candidate::cand_cmp;
pub use chars::is_space;
pub use chars::is_digit;
pub use decimal::Decimal;
pub use decimal::DecView;
pub use decimal::dec_lt;
pub use decimal::dec_eq_val;
pub use decimal::dec_ord;
pub use decimal::dec_scaled;
pub use decimal::token_to_dec;
pub use grammar::parse_spec;
pub use grammar::parse_from;
pub use grammar::candidate_at;
pub use grammar::match_at;
pub use grammar::match_end;
pub use laws::DescSpec;
pub use laws::SegSpec;
pub use laws::SepSpec;
pub use laws::body_text;
pub use laws::seg_cand;
pub use laws::seg_text;
pub use laws::sep_text;
pub use laws::wf_desc;
pub use laws::wf_seg;
pub use laws::wf_sep;
pub use laws::wf_url;
pub use laws::lemma_descriptor_exclusive;
pub use laws::lemma_parse_segments;
pub use laws::lemma_partial_order;
pub use laws::lemma_strict_partial_order;
pub use parser::parse;
