//! The srcset parser: the executable scanner, verified against the grammar.

use vstd::prelude::*;

use crate::candidate::ImageCandidate;
use crate::chars::space_char;
use crate::chars::num_char;
use crate::decimal::Decimal;
use crate::grammar::run_end;
use crate::grammar::space_end;
use crate::grammar::num_end;
use crate::grammar::strip_commas;
use crate::grammar::group1_end;
use crate::grammar::match_at;
use crate::grammar::desc_found;
use crate::grammar::candidate_at;
use crate::grammar::match_end;
use crate::grammar::parse_from;
use crate::grammar::parse_spec;
use crate::grammar::lemma_match_bounds;
use crate::text::chars_of;
use crate::text::string_from_range;

verus! {

fn scan_run_end(v: &Vec<char>, i: usize) -> (r: usize)
    requires
        i <= v@.len(),
    ensures
        r == run_end(v@, i as int),
        i <= r <= v@.len(),
{
    let mut r = i;
    while r < v.len() && !space_char(v[r])
        invariant
            i <= r <= v@.len(),
            run_end(v@, i as int) == run_end(v@, r as int),
        decreases v@.len() - r,
    {
        r += 1;
        proof {
            assert(run_end(v@, r - 1) == run_end(v@, r as int));
        }
    }
    proof {
        assert(run_end(v@, r as int) == r);
    }
    r
}

fn scan_space_end(v: &Vec<char>, i: usize) -> (r: usize)
    requires
        i <= v@.len(),
    ensures
        r == space_end(v@, i as int),
        i <= r <= v@.len(),
{
    let mut r = i;
    while r < v.len() && space_char(v[r])
        invariant
            i <= r <= v@.len(),
            space_end(v@, i as int) == space_end(v@, r as int),
        decreases v@.len() - r,
    {
        r += 1;
        proof {
            assert(space_end(v@, r - 1) == space_end(v@, r as int));
        }
    }
    proof {
        assert(space_end(v@, r as int) == r);
    }
    r
}

fn scan_num_end(v: &Vec<char>, i: usize) -> (r: usize)
    requires
        i <= v@.len(),
    ensures
        r == num_end(v@, i as int),
        i <= r <= v@.len(),
{
    let mut r = i;
    while r < v.len() && num_char(v[r])
        invariant
            i <= r <= v@.len(),
            num_end(v@, i as int) == num_end(v@, r as int),
        decreases v@.len() - r,
    {
        r += 1;
        proof {
            assert(num_end(v@, r - 1) == num_end(v@, r as int));
        }
    }
    proof {
        assert(num_end(v@, r as int) == r);
    }
    r
}

fn scan_strip_commas(v: &Vec<char>, i: usize, q: usize) -> (g: usize)
    requires
        i <= q <= v@.len(),
    ensures
        g == strip_commas(v@, i as int, q as int),
        i <= g <= q,
{
    let mut g = q;
    while g > i && v[g - 1] == ','
        invariant
            i <= g <= q <= v@.len(),
            strip_commas(v@, i as int, q as int) == strip_commas(v@, i as int, g as int),
        decreases g,
    {
        g -= 1;
        proof {
            assert(strip_commas(v@, i as int, g + 1) == strip_commas(v@, i as int, g as int));
        }
    }
    proof {
        assert(strip_commas(v@, i as int, g as int) == g);
    }
    g
}

/// Parses srcset text into its image candidates, in input order.
///
/// The parser is total: any text yields a (possibly empty) candidate list,
/// and the result is exactly what the grammar ascribes to the text.
pub fn parse(srcset: &str) -> (r: Vec<ImageCandidate>)
    ensures
        r.deep_view() == parse_spec(srcset@),
{
    let chars = chars_of(srcset);
    let ghost s = srcset@;
    let n = chars.len();
    let mut out: Vec<ImageCandidate> = Vec::new();
    let mut i: usize = 0;
    proof {
        assert(out.deep_view() + parse_from(s, 0) =~= parse_from(s, 0));
    }
    while i < n
        invariant
            chars@ == s,
            n == s.len(),
            0 <= i <= n,
            out.deep_view() + parse_from(s, i as int) == parse_from(s, 0),
        decreases n - i,
    {
        let re = scan_run_end(&chars, i);
        let g = scan_strip_commas(&chars, i, re);
        if g == i {
            proof {
                assert(group1_end(s, i as int) == i);
                assert(!match_at(s, i as int));
                assert(parse_from(s, i as int) == parse_from(s, i + 1));
            }
            i += 1;
        } else {
            proof {
                assert(match_at(s, i as int));
                lemma_match_bounds(s, i as int);
            }
            let url = string_from_range(&chars, i, g);
            let ws = scan_space_end(&chars, g);
            let mut width: Option<Decimal> = None;
            let mut density: Option<Decimal> = None;
            let mut nxt = g;
            if ws > g {
                let ne = scan_num_end(&chars, ws);
                if ne > ws && ne < n && (chars[ne] == 'x' || chars[ne] == 'w') {
                    let d = Decimal::from_chars(&chars, ws, ne);
                    if chars[ne] == 'w' {
                        width = Some(d);
                    } else {
                        density = Some(d);
                    }
                    nxt = ne + 1;
                    proof {
                        assert(desc_found(s, g as int));
                    }
                } else {
                    proof {
                        assert(!desc_found(s, g as int));
                    }
                }
            } else {
                proof {
                    assert(!desc_found(s, g as int));
                }
            }
            let cand = ImageCandidate { url, width, density };
            proof {
                assert(cand@ == candidate_at(s, i as int));
                assert(match_end(s, i as int) == nxt);
                assert(parse_from(s, i as int) == seq![candidate_at(s, i as int)] + parse_from(
                    s,
                    nxt as int,
                ));
            }
            let ghost old_deep = out.deep_view();
            out.push(cand);
            proof {
                assert(out.deep_view() =~= old_deep.push(cand@));
                assert(old_deep.push(cand@) + parse_from(s, nxt as int) =~= old_deep + (seq![
                    candidate_at(s, i as int),
                ] + parse_from(s, nxt as int)));
            }
            i = nxt;
        }
    }
    proof {
        assert(parse_from(s, i as int) =~= Seq::<crate::candidate::CandView>::empty());
        assert(out.deep_view() + parse_from(s, i as int) =~= out.deep_view());
    }
    out
}

} // verus!
