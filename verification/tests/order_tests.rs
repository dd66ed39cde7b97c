use std::cmp::Ordering;

use srcset_parse::Decimal;
use srcset_parse::ImageCandidate;
use srcset_parse::parse;

fn width_candidate(url: &str, value: &str) -> ImageCandidate {
    ImageCandidate {
        url: url.to_string(),
        width: Some(Decimal::from_text(value)),
        density: None,
    }
}

fn density_candidate(url: &str, value: &str) -> ImageCandidate {
    ImageCandidate {
        url: url.to_string(),
        width: None,
        density: Some(Decimal::from_text(value)),
    }
}

#[test]
fn widths_compare_numerically() {
    let a = width_candidate("a.png", "100");
    let b = width_candidate("b.png", "1024");
    assert_eq!(a.partial_cmp(&b), Some(Ordering::Less));
    assert_eq!(b.partial_cmp(&a), Some(Ordering::Greater));
    assert_eq!(a.partial_cmp(&a), Some(Ordering::Equal));
}

#[test]
fn densities_compare_numerically() {
    let a = density_candidate("a.png", "1.5");
    let b = density_candidate("b.png", "2.4");
    assert_eq!(a.partial_cmp(&b), Some(Ordering::Less));
    assert_eq!(b.partial_cmp(&a), Some(Ordering::Greater));
}

#[test]
fn fractional_digits_compare_at_a_common_scale() {
    let a = density_candidate("a.png", "2.35");
    let b = density_candidate("b.png", "2.4");
    assert_eq!(a.partial_cmp(&b), Some(Ordering::Less));
    let c = density_candidate("c.png", "1.50");
    let d = density_candidate("d.png", "1.5");
    assert_eq!(c.partial_cmp(&d), Some(Ordering::Equal));
}

#[test]
fn width_against_density_is_incomparable() {
    let a = width_candidate("a.png", "100");
    let b = density_candidate("b.png", "2");
    assert_eq!(a.partial_cmp(&b), None);
    assert_eq!(b.partial_cmp(&a), None);
}

#[test]
fn bare_candidates_are_incomparable() {
    let bare = ImageCandidate { url: "a.png".to_string(), width: None, density: None };
    let w = width_candidate("b.png", "3");
    assert_eq!(bare.partial_cmp(&w), None);
    assert_eq!(w.partial_cmp(&bare), None);
    assert_eq!(bare.partial_cmp(&bare), None);
}

#[test]
fn parsed_candidates_rank_by_their_descriptors() {
    let candidates = parse("small.png 100w, large.png 1024w");
    assert_eq!(candidates[0].partial_cmp(&candidates[1]), Some(Ordering::Less));
}

#[test]
fn decimal_text_normalizes() {
    assert_eq!(Decimal::from_text("2.0"), Decimal::from_text("2"));
    assert_eq!(Decimal::from_text("02"), Decimal::from_text("2"));
    assert_eq!(Decimal::from_text("0.50"), Decimal::from_text(".5"));
    assert_eq!(Decimal::from_text("2."), Decimal::from_text("2"));
    assert_eq!(Decimal::from_text("."), Decimal::from_text("0"));
    assert_eq!(Decimal::from_text("1.2.3"), Decimal::from_text("0"));
    assert_ne!(Decimal::from_text("2.4"), Decimal::from_text("2.40000001"));
}

#[test]
fn candidate_equality_is_field_equality() {
    let a = width_candidate("a.png", "100");
    let also_a = width_candidate("a.png", "100.0");
    let other = width_candidate("other.png", "100");
    assert_eq!(a, also_a);
    assert_ne!(a, other);
    assert_eq!(a.clone(), a);
}
