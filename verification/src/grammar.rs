//! The srcset grammar, written out as specification functions.
//!
//! The text is scanned left to right. A match begins at the first position
//! from which a run of non-whitespace characters contains something besides
//! commas. The URL token is that run with its trailing commas stripped — so
//! a separator comma is dropped while commas inside a URL are kept. After
//! the URL, whitespace followed by a numeric token followed immediately by
//! `x` or `w` reads as a descriptor; anything else leaves the candidate bare.
//! `parse_from` collects the candidates of all matches, in input order.

use vstd::prelude::*;

use crate::candidate::CandView;
use crate::chars::is_space;
use crate::chars::is_num_char;
use crate::decimal::token_to_dec;

verus! {

/// End of the maximal run of non-whitespace characters beginning at `i`.
pub open spec fn run_end(s: Seq<char>, i: int) -> int
    recommends
        0 <= i <= s.len(),
    decreases s.len() - i,
{
    if i < 0 || i >= s.len() {
        i
    } else if is_space(s[i]) {
        i
    } else {
        run_end(s, i + 1)
    }
}

/// End of the maximal run of whitespace beginning at `i`.
pub open spec fn space_end(s: Seq<char>, i: int) -> int
    recommends
        0 <= i <= s.len(),
    decreases s.len() - i,
{
    if i < 0 || i >= s.len() {
        i
    } else if is_space(s[i]) {
        space_end(s, i + 1)
    } else {
        i
    }
}

/// End of the maximal run of digits and points beginning at `i`.
pub open spec fn num_end(s: Seq<char>, i: int) -> int
    recommends
        0 <= i <= s.len(),
    decreases s.len() - i,
{
    if i < 0 || i >= s.len() {
        i
    } else if is_num_char(s[i]) {
        num_end(s, i + 1)
    } else {
        i
    }
}

/// `q` walked back over trailing commas, stopping at `i`.
pub open spec fn strip_commas(s: Seq<char>, i: int, q: int) -> int
    recommends
        0 <= i <= q <= s.len(),
    decreases q - i,
{
    if q <= i {
        i
    } else if s[q - 1] == ',' {
        strip_commas(s, i, q - 1)
    } else {
        q
    }
}

/// End of the URL token of a match at `i`: the non-whitespace run, stripped
/// of its trailing commas.
pub open spec fn group1_end(s: Seq<char>, i: int) -> int {
    strip_commas(s, i, run_end(s, i))
}

/// A match begins at `i` when its URL token would not be empty.
pub open spec fn match_at(s: Seq<char>, i: int) -> bool {
    0 <= i < s.len() && group1_end(s, i) > i
}

/// After a URL ending at `g`: whitespace, then a non-empty numeric token,
/// then `x` or `w`, reads as a descriptor.
pub open spec fn desc_found(s: Seq<char>, g: int) -> bool {
    let ws = space_end(s, g);
    let ne = num_end(s, ws);
    ws > g && ne > ws && ne < s.len() && (s[ne] == 'x' || s[ne] == 'w')
}

/// The candidate of the match at `i`.
pub open spec fn candidate_at(s: Seq<char>, i: int) -> CandView {
    let g = group1_end(s, i);
    let url = s.subrange(i, g);
    let ws = space_end(s, g);
    let ne = num_end(s, ws);
    if desc_found(s, g) {
        let d = token_to_dec(s.subrange(ws, ne));
        if s[ne] == 'w' {
            CandView { url, width: Some(d), density: None }
        } else {
            CandView { url, width: None, density: Some(d) }
        }
    } else {
        CandView { url, width: None, density: None }
    }
}

/// The position just after the match at `i`.
pub open spec fn match_end(s: Seq<char>, i: int) -> int {
    let g = group1_end(s, i);
    let ws = space_end(s, g);
    let ne = num_end(s, ws);
    if desc_found(s, g) {
        ne + 1
    } else {
        g
    }
}

pub proof fn lemma_run_end(s: Seq<char>, i: int)
    requires
        0 <= i <= s.len(),
    ensures
        i <= run_end(s, i) <= s.len(),
        forall|j: int| i <= j < run_end(s, i) ==> !is_space(#[trigger] s[j]),
        run_end(s, i) < s.len() ==> is_space(s[run_end(s, i)]),
    decreases s.len() - i,
{
    if i < s.len() && !is_space(s[i]) {
        lemma_run_end(s, i + 1);
    }
}

pub proof fn lemma_space_end(s: Seq<char>, i: int)
    requires
        0 <= i <= s.len(),
    ensures
        i <= space_end(s, i) <= s.len(),
        forall|j: int| i <= j < space_end(s, i) ==> is_space(#[trigger] s[j]),
        space_end(s, i) < s.len() ==> !is_space(s[space_end(s, i)]),
    decreases s.len() - i,
{
    if i < s.len() && is_space(s[i]) {
        lemma_space_end(s, i + 1);
    }
}

pub proof fn lemma_num_end(s: Seq<char>, i: int)
    requires
        0 <= i <= s.len(),
    ensures
        i <= num_end(s, i) <= s.len(),
        forall|j: int| i <= j < num_end(s, i) ==> is_num_char(#[trigger] s[j]),
        num_end(s, i) < s.len() ==> !is_num_char(s[num_end(s, i)]),
    decreases s.len() - i,
{
    if i < s.len() && is_num_char(s[i]) {
        lemma_num_end(s, i + 1);
    }
}

pub proof fn lemma_strip_commas(s: Seq<char>, i: int, q: int)
    requires
        0 <= i <= q <= s.len(),
    ensures
        i <= strip_commas(s, i, q) <= q,
        forall|j: int| strip_commas(s, i, q) <= j < q ==> #[trigger] s[j] == ',',
        strip_commas(s, i, q) > i ==> s[strip_commas(s, i, q) - 1] != ',',
    decreases q - i,
{
    if q > i && s[q - 1] == ',' {
        lemma_strip_commas(s, i, q - 1);
    }
}

/// A match reaches past its own start but not past the end of the text.
pub proof fn lemma_match_bounds(s: Seq<char>, i: int)
    requires
        match_at(s, i),
    ensures
        i < match_end(s, i) <= s.len(),
        i < group1_end(s, i) <= s.len(),
{
    lemma_run_end(s, i);
    lemma_strip_commas(s, i, run_end(s, i));
    let g = group1_end(s, i);
    lemma_space_end(s, g);
    lemma_num_end(s, space_end(s, g));
}

/// The candidates of all matches from `i` on, in input order.
pub open spec fn parse_from(s: Seq<char>, i: int) -> Seq<CandView>
    recommends
        0 <= i,
    decreases s.len() - i,
        via parse_from_decreases
{
    if i < 0 || i >= s.len() {
        Seq::empty()
    } else if !match_at(s, i) {
        parse_from(s, i + 1)
    } else {
        seq![candidate_at(s, i)] + parse_from(s, match_end(s, i))
    }
}

#[via_fn]
proof fn parse_from_decreases(s: Seq<char>, i: int) {
    if 0 <= i < s.len() && match_at(s, i) {
        lemma_match_bounds(s, i);
    }
}

/// What parsing the whole text yields.
pub open spec fn parse_spec(s: Seq<char>) -> Seq<CandView> {
    parse_from(s, 0)
}

/// `run_end` is the one place where the non-whitespace run ends.
pub proof fn lemma_run_end_is(s: Seq<char>, i: int, q: int)
    requires
        0 <= i <= q <= s.len(),
        forall|j: int| i <= j < q ==> !is_space(#[trigger] s[j]),
        q < s.len() ==> is_space(s[q]),
    ensures
        run_end(s, i) == q,
{
    lemma_run_end(s, i);
    let r = run_end(s, i);
    if r < q {
        assert(!is_space(s[r]));
        assert(false);
    }
    if r > q {
        assert(!is_space(s[q]));
        assert(false);
    }
}

/// `space_end` is the one place where the whitespace run ends.
pub proof fn lemma_space_end_is(s: Seq<char>, i: int, q: int)
    requires
        0 <= i <= q <= s.len(),
        forall|j: int| i <= j < q ==> is_space(#[trigger] s[j]),
        q < s.len() ==> !is_space(s[q]),
    ensures
        space_end(s, i) == q,
{
    lemma_space_end(s, i);
    let r = space_end(s, i);
    if r < q {
        assert(is_space(s[r]));
        assert(false);
    }
    if r > q {
        assert(is_space(s[q]));
        assert(false);
    }
}

/// `num_end` is the one place where the numeric run ends.
pub proof fn lemma_num_end_is(s: Seq<char>, i: int, q: int)
    requires
        0 <= i <= q <= s.len(),
        forall|j: int| i <= j < q ==> is_num_char(#[trigger] s[j]),
        q < s.len() ==> !is_num_char(s[q]),
    ensures
        num_end(s, i) == q,
{
    lemma_num_end(s, i);
    let r = num_end(s, i);
    if r < q {
        assert(!is_num_char(s[r]));
        assert(false);
    }
    if r > q {
        assert(!is_num_char(s[q]));
        assert(false);
    }
}

/// `strip_commas` lands exactly where the trailing commas start.
pub proof fn lemma_strip_commas_is(s: Seq<char>, i: int, q: int, r: int)
    requires
        0 <= i <= r <= q <= s.len(),
        forall|j: int| r <= j < q ==> #[trigger] s[j] == ',',
        r > i ==> s[r - 1] != ',',
    ensures
        strip_commas(s, i, q) == r,
{
    lemma_strip_commas(s, i, q);
    let g = strip_commas(s, i, q);
    if g < r {
        assert(s[r - 1] == ',');
        assert(false);
    }
    if g > r {
        assert(s[g - 1] == ',');
        assert(false);
    }
}

/// No match begins on a whitespace character.
pub proof fn lemma_no_match_at_space(s: Seq<char>, p: int)
    requires
        0 <= p < s.len(),
        is_space(s[p]),
    ensures
        !match_at(s, p),
{
    assert(run_end(s, p) == p);
    assert(strip_commas(s, p, p) == p);
}

/// No match begins on a comma that whitespace or the end of the text follows.
pub proof fn lemma_no_match_at_comma(s: Seq<char>, p: int)
    requires
        0 <= p < s.len(),
        s[p] == ',',
        p + 1 == s.len() || is_space(s[p + 1]),
    ensures
        !match_at(s, p),
{
    assert(!is_space(s[p]));
    assert(run_end(s, p) == run_end(s, p + 1));
    assert(run_end(s, p + 1) == p + 1);
    assert(strip_commas(s, p, p + 1) == strip_commas(s, p, p));
    assert(strip_commas(s, p, p) == p);
}

/// Positions without a match contribute no candidate.
pub proof fn lemma_skip_nonmatches(s: Seq<char>, i: int, j: int)
    requires
        0 <= i <= j <= s.len(),
        forall|p: int| i <= p < j ==> !match_at(s, p),
    ensures
        parse_from(s, i) == parse_from(s, j),
    decreases j - i,
{
    if i < j {
        assert(parse_from(s, i) == parse_from(s, i + 1));
        lemma_skip_nonmatches(s, i + 1, j);
    }
}

/// Text that is whitespace to the end holds no candidate.
pub proof fn lemma_parse_spaces(s: Seq<char>, i: int)
    requires
        0 <= i <= s.len(),
        forall|j: int| i <= j < s.len() ==> is_space(#[trigger] s[j]),
    ensures
        parse_from(s, i) == Seq::<CandView>::empty(),
{
    assert forall|p: int| i <= p < s.len() implies !match_at(s, p) by {
        lemma_no_match_at_space(s, p);
    }
    lemma_skip_nonmatches(s, i, s.len() as int);
}

} // verus!
