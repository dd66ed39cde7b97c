//! The guarantees of the parser and of the comparison rule, stated and
//! proved over the grammar.

use core::cmp::Ordering;
use vstd::prelude::*;

use crate::candidate::CandView;
use crate::candidate::cand_cmp;
use crate::chars::is_space;
use crate::chars::is_num_char;
use crate::chars::lemma_num_not_space;
use crate::chars::lemma_kind_not_num;
use crate::decimal::dec_lt;
use crate::decimal::dec_eq_val;
use crate::decimal::lemma_dec_lt_strict;
use crate::decimal::token_to_dec;
use crate::grammar::space_end;
use crate::grammar::num_end;
use crate::grammar::group1_end;
use crate::grammar::match_at;
use crate::grammar::desc_found;
use crate::grammar::candidate_at;
use crate::grammar::match_end;
use crate::grammar::parse_from;
use crate::grammar::parse_spec;
use crate::grammar::lemma_match_bounds;
use crate::grammar::lemma_run_end_is;
use crate::grammar::lemma_space_end_is;
use crate::grammar::lemma_num_end_is;
use crate::grammar::lemma_strip_commas_is;
use crate::grammar::lemma_no_match_at_space;
use crate::grammar::lemma_no_match_at_comma;
use crate::grammar::lemma_skip_nonmatches;
use crate::grammar::lemma_parse_spaces;

verus! {

/// Descriptor exclusivity: no candidate the parser produces carries both a
/// width and a density.
pub proof fn lemma_descriptor_exclusive(s: Seq<char>, i: int)
    ensures
        forall|j: int|
            0 <= j < parse_from(s, i).len() ==> !((#[trigger] parse_from(s, i)[j]).width is Some
                && parse_from(s, i)[j].density is Some),
    decreases s.len() - i,
{
    if i < 0 || i >= s.len() {
    } else if !match_at(s, i) {
        lemma_descriptor_exclusive(s, i + 1);
    } else {
        lemma_match_bounds(s, i);
        lemma_descriptor_exclusive(s, match_end(s, i));
    }
}

/// Partial order correctness: two candidates that both carry a width and
/// nothing else compare exactly as those numbers do, and likewise for two
/// densities; every other pair — width against density, or a missing
/// descriptor — is incomparable.
pub proof fn lemma_partial_order(a: CandView, b: CandView)
    ensures
        (a.width is Some && a.density is None && b.width is Some && b.density is None) ==> {
            &&& (cand_cmp(a, b) == Some(Ordering::Less) <==> dec_lt(a.width->0, b.width->0))
            &&& (cand_cmp(a, b) == Some(Ordering::Greater) <==> dec_lt(b.width->0, a.width->0))
            &&& (cand_cmp(a, b) == Some(Ordering::Equal) <==> dec_eq_val(a.width->0, b.width->0))
        },
        (a.density is Some && a.width is None && b.density is Some && b.width is None) ==> {
            &&& (cand_cmp(a, b) == Some(Ordering::Less) <==> dec_lt(a.density->0, b.density->0))
            &&& (cand_cmp(a, b) == Some(Ordering::Greater) <==> dec_lt(b.density->0, a.density->0))
            &&& (cand_cmp(a, b) == Some(Ordering::Equal) <==> dec_eq_val(
                a.density->0,
                b.density->0,
            ))
        },
        !((a.width is Some && a.density is None && b.width is Some && b.density is None) || (
        a.density is Some && a.width is None && b.density is Some && b.width is None))
            ==> cand_cmp(a, b) is None,
{
}

/// The comparison rule is a strict partial order: never `Less` against
/// itself, asymmetric, and transitive.
pub proof fn lemma_strict_partial_order(a: CandView, b: CandView, c: CandView)
    ensures
        cand_cmp(a, a) != Some(Ordering::Less),
        cand_cmp(a, b) == Some(Ordering::Less) ==> cand_cmp(b, a) == Some(Ordering::Greater),
        cand_cmp(a, b) == Some(Ordering::Less) && cand_cmp(b, c) == Some(Ordering::Less)
            ==> cand_cmp(a, c) == Some(Ordering::Less),
{
    lemma_dec_lt_strict(a.width->0, b.width->0, c.width->0);
    lemma_dec_lt_strict(a.density->0, b.density->0, c.density->0);
}

/// One well-formed segment of srcset text: a URL, optionally followed by
/// whitespace, a numeric token and a descriptor kind letter.
pub struct SegSpec {
    pub url: Seq<char>,
    pub desc: Option<DescSpec>,
}

/// The descriptor part of a segment.
pub struct DescSpec {
    pub ws: Seq<char>,
    pub num: Seq<char>,
    pub kind: char,
}

/// A URL token: non-empty, free of whitespace, not ending on a comma.
/// Commas inside it are allowed.
pub open spec fn wf_url(u: Seq<char>) -> bool {
    &&& u.len() > 0
    &&& forall|j: int| 0 <= j < u.len() ==> !is_space(#[trigger] u[j])
    &&& u[u.len() - 1] != ','
}

/// A descriptor: non-empty whitespace, then a non-empty numeric token, then
/// `x` or `w`.
pub open spec fn wf_desc(d: DescSpec) -> bool {
    &&& d.ws.len() > 0
    &&& forall|j: int| 0 <= j < d.ws.len() ==> is_space(#[trigger] d.ws[j])
    &&& d.num.len() > 0
    &&& forall|j: int| 0 <= j < d.num.len() ==> is_num_char(#[trigger] d.num[j])
    &&& (d.kind == 'x' || d.kind == 'w')
}

pub open spec fn wf_seg(g: SegSpec) -> bool {
    &&& wf_url(g.url)
    &&& g.desc is Some ==> wf_desc(g.desc->0)
}

/// The text a segment stands written as.
pub open spec fn seg_text(g: SegSpec) -> Seq<char> {
    match g.desc {
        None => g.url,
        Some(d) => g.url + d.ws + d.num + seq![d.kind],
    }
}

/// The candidate a segment describes.
pub open spec fn seg_cand(g: SegSpec) -> CandView {
    match g.desc {
        None => CandView { url: g.url, width: None, density: None },
        Some(d) => if d.kind == 'w' {
            CandView { url: g.url, width: Some(token_to_dec(d.num)), density: None }
        } else {
            CandView { url: g.url, width: None, density: Some(token_to_dec(d.num)) }
        },
    }
}

/// A separator between segments: optional whitespace, a comma, then at least
/// one whitespace character.
pub struct SepSpec {
    pub before: Seq<char>,
    pub after: Seq<char>,
}

pub open spec fn wf_sep(p: SepSpec) -> bool {
    &&& forall|j: int| 0 <= j < p.before.len() ==> is_space(#[trigger] p.before[j])
    &&& p.after.len() > 0
    &&& forall|j: int| 0 <= j < p.after.len() ==> is_space(#[trigger] p.after[j])
}

pub open spec fn sep_text(p: SepSpec) -> Seq<char> {
    p.before + seq![','] + p.after
}

/// Segments joined by separators.
pub open spec fn body_text(segs: Seq<SegSpec>, seps: Seq<SepSpec>) -> Seq<char>
    recommends
        segs.len() == seps.len() + 1 || (segs.len() == 0 && seps.len() == 0),
    decreases segs.len(),
{
    if segs.len() == 0 {
        Seq::empty()
    } else if segs.len() == 1 {
        seg_text(segs[0])
    } else {
        seg_text(segs[0]) + sep_text(seps[0]) + body_text(segs.drop_first(), seps.drop_first())
    }
}

/// A well-formed segment at `i` is matched exactly: its URL and descriptor
/// are read off as written, and the match ends where the segment does. What
/// follows is either whitespace to the end, or — when `comma_at >= 0` — a
/// separator: `comma_at` whitespace characters, a comma, and whitespace.
proof fn lemma_seg_match(s: Seq<char>, i: int, g: SegSpec, rest: Seq<char>, comma_at: int)
    requires
        0 <= i <= s.len(),
        wf_seg(g),
        s.skip(i) == seg_text(g) + rest,
        comma_at < 0 ==> forall|j: int| 0 <= j < rest.len() ==> is_space(#[trigger] rest[j]),
        comma_at >= 0 ==> {
            &&& 0 <= comma_at < rest.len()
            &&& rest[comma_at] == ','
            &&& comma_at + 1 < rest.len()
            &&& is_space(rest[comma_at + 1])
            &&& forall|j: int| 0 <= j < comma_at ==> is_space(#[trigger] rest[j])
        },
    ensures
        match_at(s, i),
        candidate_at(s, i) == seg_cand(g),
        match_end(s, i) == i + seg_text(g).len(),
{
    let st = seg_text(g);
    let u = g.url;
    assert(s.skip(i).len() == s.len() - i);
    assert((st + rest).len() == st.len() + rest.len());
    assert(s.len() == i + st.len() + rest.len());
    assert forall|j: int| 0 <= j < st.len() + rest.len() implies s[i + j] == (st + rest)[j] by {
        assert(s.skip(i)[j] == s[i + j]);
    }
    assert(forall|j: int| 0 <= j < u.len() ==> st[j] == u[j]);
    let e = i + u.len();
    assert forall|j: int| i <= j < e implies s[j] == u[j - i] by {
        assert(s[i + (j - i)] == (st + rest)[j - i]);
        assert((st + rest)[j - i] == st[j - i]);
    }
    assert forall|j: int| i <= j < e implies !is_space(#[trigger] s[j]) by {
        assert(s[j] == u[j - i]);
    }
    assert(e > i);
    assert(s[e - 1] == u[u.len() - 1]);
    match g.desc {
        Some(d) => {
            let w0 = e + d.ws.len();
            let n0 = w0 + d.num.len();
            assert forall|j: int| 0 <= j < d.ws.len() implies s[e + j] == d.ws[j] by {
                assert(s[i + (u.len() + j)] == (st + rest)[u.len() + j]);
                assert((st + rest)[u.len() + j] == st[u.len() + j]);
            }
            assert forall|j: int| 0 <= j < d.num.len() implies s[w0 + j] == d.num[j] by {
                assert(s[i + (u.len() + d.ws.len() + j)] == (st + rest)[u.len() + d.ws.len() + j]);
                assert((st + rest)[u.len() + d.ws.len() + j] == st[u.len() + d.ws.len() + j]);
            }
            assert(s[i + (u.len() + d.ws.len() + d.num.len())] == (st + rest)[u.len() as int
                + d.ws.len() + d.num.len()]);
            assert((st + rest)[u.len() as int + d.ws.len() + d.num.len()] == st[u.len() as int
                + d.ws.len() + d.num.len()]);
            assert(s[n0] == d.kind);
            assert(s[e + 0] == d.ws[0]);
            assert(is_space(s[e]));
            lemma_run_end_is(s, i, e);
            lemma_strip_commas_is(s, i, e, e);
            assert(group1_end(s, i) == e);
            assert(match_at(s, i));
            assert forall|j: int| e <= j < w0 implies is_space(#[trigger] s[j]) by {
                assert(s[e + (j - e)] == d.ws[j - e]);
            }
            lemma_num_not_space(d.num[0]);
            assert(s[w0 + 0] == d.num[0]);
            assert(s[w0] == d.num[0]);
            lemma_space_end_is(s, e, w0);
            assert forall|j: int| w0 <= j < n0 implies is_num_char(#[trigger] s[j]) by {
                assert(s[w0 + (j - w0)] == d.num[j - w0]);
            }
            lemma_kind_not_num(d.kind);
            lemma_num_end_is(s, w0, n0);
            assert(desc_found(s, e));
            assert(s.subrange(i, e) =~= u);
            assert(s.subrange(w0, n0) =~= d.num);
            assert(match_end(s, i) == n0 + 1);
            assert(n0 + 1 == i + st.len());
            assert(candidate_at(s, i) == seg_cand(g));
        },
        None => {
            assert(st =~= u);
            assert forall|j: int| 0 <= j < rest.len() implies s[e + j] == rest[j] by {
                assert(s[i + (u.len() + j)] == (st + rest)[u.len() + j]);
            }
            if comma_at >= 0 && comma_at == 0 {
                // a comma follows the URL at once; it joins the run and is
                // stripped back off
                assert(s[e + 0] == rest[0]);
                assert(s[e] == ',');
                assert(!is_space(s[e]));
                assert(s[e + 1] == rest[1]);
                assert(is_space(s[e + 1]));
                lemma_run_end_is(s, i, e + 1);
                lemma_strip_commas_is(s, i, e + 1, e);
                assert(group1_end(s, i) == e);
                assert(match_at(s, i));
                assert(space_end(s, e) == e);
                assert(!desc_found(s, e));
            } else {
                // whitespace (or the end) follows the URL
                if e < s.len() {
                    assert(s[e + 0] == rest[0]);
                    assert(is_space(s[e]));
                }
                lemma_run_end_is(s, i, e);
                lemma_strip_commas_is(s, i, e, e);
                assert(group1_end(s, i) == e);
                assert(match_at(s, i));
                if comma_at < 0 {
                    assert forall|j: int| e <= j < s.len() implies is_space(
                        #[trigger] s[j],
                    ) by {
                        assert(s[e + (j - e)] == rest[j - e]);
                    }
                    lemma_space_end_is(s, e, s.len() as int);
                    assert(num_end(s, s.len() as int) == s.len());
                    assert(!desc_found(s, e));
                } else {
                    let c = e + comma_at;
                    assert(s[e + comma_at] == rest[comma_at]);
                    assert(s[c] == ',');
                    assert forall|j: int| e <= j < c implies is_space(#[trigger] s[j]) by {
                        assert(s[e + (j - e)] == rest[j - e]);
                    }
                    assert(!is_space(s[c]));
                    lemma_space_end_is(s, e, c);
                    assert(!is_num_char(s[c]));
                    assert(num_end(s, c) == c);
                    assert(!desc_found(s, e));
                }
            }
            assert(s.subrange(i, e) =~= u);
            assert(candidate_at(s, i) == seg_cand(g));
            assert(match_end(s, i) == e);
            assert(e == i + st.len());
        },
    }
}

proof fn lemma_parse_tail(
    s: Seq<char>,
    i: int,
    sp: Seq<char>,
    segs: Seq<SegSpec>,
    seps: Seq<SepSpec>,
    trail: Seq<char>,
)
    requires
        0 <= i <= s.len(),
        segs.len() == 0 ==> seps.len() == 0,
        segs.len() > 0 ==> segs.len() == seps.len() + 1,
        s.skip(i) == sp + body_text(segs, seps) + trail,
        forall|j: int| 0 <= j < sp.len() ==> is_space(#[trigger] sp[j]),
        forall|j: int| 0 <= j < trail.len() ==> is_space(#[trigger] trail[j]),
        forall|j: int| 0 <= j < segs.len() ==> wf_seg(#[trigger] segs[j]),
        forall|j: int| 0 <= j < seps.len() ==> wf_sep(#[trigger] seps[j]),
    ensures
        parse_from(s, i).len() == segs.len(),
        forall|j: int| 0 <= j < segs.len() ==> parse_from(s, i)[j] == seg_cand(#[trigger] segs[j]),
    decreases segs.len(),
{
    let body = body_text(segs, seps);
    assert(s.skip(i).len() == s.len() - i);
    assert((sp + body + trail).len() == sp.len() + body.len() + trail.len());
    assert(s.len() == i + sp.len() + body.len() + trail.len());
    assert forall|j: int| 0 <= j < sp.len() + body.len() + trail.len() implies s[i + j] == (sp
        + body + trail)[j] by {
        assert(s.skip(i)[j] == s[i + j]);
    }
    if segs.len() == 0 {
        assert forall|j: int| i <= j < s.len() implies is_space(#[trigger] s[j]) by {
            assert(s[j] == s[i + (j - i)]);
            assert(s[j] == (sp + body + trail)[j - i]);
        }
        lemma_parse_spaces(s, i);
    } else {
        let i1 = i + sp.len();
        assert forall|p: int| i <= p < i1 implies !match_at(s, p) by {
            assert(s[p] == (sp + body_text(segs, seps) + trail)[p - i]);
            assert(is_space(s[p]));
            lemma_no_match_at_space(s, p);
        }
        lemma_skip_nonmatches(s, i, i1);
        let g0 = segs[0];
        let st = seg_text(g0);
        if segs.len() == 1 {
            assert(body == st);
            assert forall|j: int| 0 <= j < s.len() - i1 implies s.skip(i1)[j] == (st + trail)[j] by {
                assert(s.skip(i1)[j] == s[i1 + j]);
                assert(s[i + (sp.len() + j)] == (sp + body + trail)[sp.len() + j]);
            }
            assert(s.skip(i1) =~= st + trail);
            lemma_seg_match(s, i1, g0, trail, -1);
            let m = i1 + st.len();
            lemma_match_bounds(s, i1);
            assert(parse_from(s, i1) == seq![candidate_at(s, i1)] + parse_from(s, m));
            assert forall|j: int| m <= j < s.len() implies is_space(#[trigger] s[j]) by {
                assert(s[j] == (st + trail)[j - i1]);
                assert(s[j] == trail[j - m]);
            }
            lemma_parse_spaces(s, m);
            assert(parse_from(s, i).len() == 1);
            assert(parse_from(s, i)[0] == seg_cand(g0));
        } else {
            let p0 = seps[0];
            let segs2 = segs.drop_first();
            let seps2 = seps.drop_first();
            let rest2 = sep_text(p0) + body_text(segs2, seps2) + trail;
            assert(body == st + sep_text(p0) + body_text(segs2, seps2));
            assert forall|j: int| 0 <= j < s.len() - i1 implies s.skip(i1)[j] == (st + rest2)[j] by {
                assert(s.skip(i1)[j] == s[i1 + j]);
                assert(s[i + (sp.len() + j)] == (sp + body + trail)[sp.len() + j]);
            }
            assert(s.skip(i1) =~= st + rest2);
            assert(rest2[p0.before.len() as int] == ',');
            assert(rest2[p0.before.len() as int + 1] == p0.after[0]);
            assert forall|j: int| 0 <= j < p0.before.len() implies is_space(#[trigger] rest2[j]) by {
                assert(rest2[j] == p0.before[j]);
            }
            lemma_seg_match(s, i1, g0, rest2, p0.before.len() as int);
            let m = i1 + st.len();
            lemma_match_bounds(s, i1);
            assert(parse_from(s, i1) == seq![candidate_at(s, i1)] + parse_from(s, m));
            let c = m + p0.before.len();
            let i2 = c + 1;
            assert forall|p: int| m <= p < i2 implies !match_at(s, p) by {
                assert(s.skip(i1)[p - i1] == s[p]);
                assert((st + rest2)[p - i1] == rest2[p - i1 - st.len()]);
                assert(s[p] == rest2[p - m]);
                if p < c {
                    assert(rest2[p - m] == p0.before[p - m]);
                    assert(is_space(s[p]));
                    lemma_no_match_at_space(s, p);
                } else {
                    assert(s[p] == ',');
                    assert(s.skip(i1)[p + 1 - i1] == s[p + 1]);
                    assert((st + rest2)[p + 1 - i1] == rest2[p + 1 - i1 - st.len()]);
                    assert(s[p + 1] == rest2[p + 1 - m]);
                    assert(rest2[p + 1 - m] == p0.after[0]);
                    assert(is_space(s[p + 1]));
                    lemma_no_match_at_comma(s, p);
                }
            }
            lemma_skip_nonmatches(s, m, i2);
            assert forall|j: int| 0 <= j < s.len() - i2 implies s.skip(i2)[j] == (p0.after
                + body_text(segs2, seps2) + trail)[j] by {
                assert(s.skip(i2)[j] == s[i2 + j]);
                assert(s.skip(i1)[i2 - i1 + j] == s[i2 + j]);
                assert((st + rest2)[st.len() + (p0.before.len() + 1 + j)] == rest2[p0.before.len()
                    + 1 + j]);
            }
            assert(s.skip(i2) =~= p0.after + body_text(segs2, seps2) + trail);
            assert forall|j: int| 0 <= j < segs2.len() implies wf_seg(#[trigger] segs2[j]) by {
                assert(segs2[j] == segs[j + 1]);
            }
            assert forall|j: int| 0 <= j < seps2.len() implies wf_sep(#[trigger] seps2[j]) by {
                assert(seps2[j] == seps[j + 1]);
            }
            lemma_parse_tail(s, i2, p0.after, segs2, seps2, trail);
            assert(parse_from(s, i).len() == segs.len());
            assert forall|j: int| 0 <= j < segs.len() implies parse_from(s, i)[j] == seg_cand(
                #[trigger] segs[j],
            ) by {
                if j == 0 {
                    assert(parse_from(s, i)[0] == seg_cand(g0));
                } else {
                    assert(parse_from(s, i)[j] == parse_from(s, i2)[j - 1]);
                    assert(parse_from(s, i2)[j - 1] == seg_cand(segs2[j - 1]));
                    assert(segs2[j - 1] == segs[j]);
                }
            }
        }
    }
}

/// Round-trip of structure, whitespace tolerance and comma tolerance in one:
/// a text laid out as well-formed segments joined by comma separators, under
/// arbitrary leading, trailing and internal whitespace, parses to exactly
/// those segments' candidates, one each and in input order — URLs with
/// internal commas included.
pub proof fn lemma_parse_segments(
    lead: Seq<char>,
    segs: Seq<SegSpec>,
    seps: Seq<SepSpec>,
    trail: Seq<char>,
)
    requires
        segs.len() == 0 ==> seps.len() == 0,
        segs.len() > 0 ==> segs.len() == seps.len() + 1,
        forall|j: int| 0 <= j < lead.len() ==> is_space(#[trigger] lead[j]),
        forall|j: int| 0 <= j < trail.len() ==> is_space(#[trigger] trail[j]),
        forall|j: int| 0 <= j < segs.len() ==> wf_seg(#[trigger] segs[j]),
        forall|j: int| 0 <= j < seps.len() ==> wf_sep(#[trigger] seps[j]),
    ensures
        parse_spec(lead + body_text(segs, seps) + trail).len() == segs.len(),
        forall|j: int|
            0 <= j < segs.len() ==> parse_spec(lead + body_text(segs, seps) + trail)[j]
                == seg_cand(#[trigger] segs[j]),
{
    let s = lead + body_text(segs, seps) + trail;
    assert(s.skip(0) =~= lead + body_text(segs, seps) + trail);
    lemma_parse_tail(s, 0, lead, segs, seps, trail);
}

} // verus!
