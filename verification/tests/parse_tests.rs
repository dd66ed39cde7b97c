use srcset_parse::Decimal;
use srcset_parse::ImageCandidate;
use srcset_parse::parse;

#[test]
fn parses_srcset_strings() {
    let srcset = "cat-@2x.jpeg 2x, dog.jpeg 100w";
    let result = parse(srcset);
    assert_eq!(
        result,
        vec![
            ImageCandidate {
                url: "cat-@2x.jpeg".to_string(),
                width: None,
                density: Some(Decimal::from_text("2.0")),
            },
            ImageCandidate {
                url: "dog.jpeg".to_string(),
                width: Some(Decimal::from_text("100.0")),
                density: None,
            },
        ]
    );
}

#[test]
fn ignores_extra_whitespaces() {
    let srcset = r#"
            foo-bar.png     2x ,
            bar-baz.png  100w
        "#;

    let result = parse(srcset);
    assert_eq!(
        result,
        vec![
            ImageCandidate {
                url: "foo-bar.png".to_string(),
                width: None,
                density: Some(Decimal::from_text("2.0")),
            },
            ImageCandidate {
                url: "bar-baz.png".to_string(),
                width: Some(Decimal::from_text("100.0")),
                density: None,
            },
        ]
    );
}

#[test]
fn properly_parses_float_descriptors() {
    let srcset = "cat.jpeg 2.4x, dog.jpeg 1.5x";
    let result = parse(srcset);
    assert_eq!(
        result,
        vec![
            ImageCandidate {
                url: "cat.jpeg".to_string(),
                width: None,
                density: Some(Decimal::from_text("2.4")),
            },
            ImageCandidate {
                url: "dog.jpeg".to_string(),
                width: None,
                density: Some(Decimal::from_text("1.5")),
            },
        ]
    );
}

#[test]
fn supports_urls_that_contain_comma() {
    let srcset = r#"
          https://foo.bar/w=100,h=200/dog.png  100w,
          https://baz.bar/cat.png?meow=yes     1024w
        "#;

    let result = parse(srcset);
    assert_eq!(
        result,
        vec![
            ImageCandidate {
                url: "https://foo.bar/w=100,h=200/dog.png".to_string(),
                width: Some(Decimal::from_text("100.0")),
                density: None,
            },
            ImageCandidate {
                url: "https://baz.bar/cat.png?meow=yes".to_string(),
                width: Some(Decimal::from_text("1024.0")),
                density: None,
            },
        ]
    );
}

#[test]
fn supports_single_urls() {
    let srcset = "/cat.jpg";
    let result = parse(srcset);
    assert_eq!(
        result,
        vec![ImageCandidate { url: "/cat.jpg".to_string(), width: None, density: None }]
    );
}

#[test]
fn supports_optional_descriptors() {
    let srcset = "/cat.jpg, /dog.png 3x , /lol ";
    let result = parse(srcset);
    assert_eq!(
        result,
        vec![
            ImageCandidate { url: "/cat.jpg".to_string(), width: None, density: None },
            ImageCandidate {
                url: "/dog.png".to_string(),
                width: None,
                density: Some(Decimal::from_text("3.0")),
            },
            ImageCandidate { url: "/lol".to_string(), width: None, density: None },
        ]
    );
}

#[test]
fn empty_input_yields_no_candidates() {
    assert_eq!(parse(""), vec![]);
}

#[test]
fn whitespace_only_input_yields_no_candidates() {
    assert_eq!(parse("   \t \n  "), vec![]);
}

#[test]
fn tolerates_surrounding_whitespace_on_one_line() {
    let srcset = "  foo-bar.png   2x , bar-baz.png  100w  ";
    let result = parse(srcset);
    assert_eq!(
        result,
        vec![
            ImageCandidate {
                url: "foo-bar.png".to_string(),
                width: None,
                density: Some(Decimal::from_text("2.0")),
            },
            ImageCandidate {
                url: "bar-baz.png".to_string(),
                width: Some(Decimal::from_text("100.0")),
                density: None,
            },
        ]
    );
}

#[test]
fn keeps_segment_count_and_order() {
    let srcset = "image1.png 1x, image2.png 2x, image3.png 100w";
    let candidates = parse(srcset);
    assert_eq!(candidates.len(), 3);
    assert_eq!(candidates[0].url, "image1.png".to_string());
    assert_eq!(candidates[0].density, Some(Decimal::from_text("1.0")));
    assert_eq!(candidates[1].density, Some(Decimal::from_text("2.0")));
    assert_eq!(candidates[2].width, Some(Decimal::from_text("100.0")));
}

#[test]
fn never_sets_both_descriptors() {
    let srcset = "a.png 1x, b.png 20w, c.png, d.png 0.5x";
    for candidate in parse(srcset) {
        assert!(!(candidate.width.is_some() && candidate.density.is_some()));
    }
}

#[test]
fn malformed_number_degrades_to_zero() {
    let result = parse("cat.jpeg 1.2.3x");
    assert_eq!(
        result,
        vec![ImageCandidate {
            url: "cat.jpeg".to_string(),
            width: None,
            density: Some(Decimal::from_text("0")),
        }]
    );
}

#[test]
fn strips_separator_commas_but_keeps_internal_ones() {
    let result = parse("a,,, b");
    assert_eq!(
        result,
        vec![
            ImageCandidate { url: "a".to_string(), width: None, density: None },
            ImageCandidate { url: "b".to_string(), width: None, density: None },
        ]
    );
}

#[test]
fn unicode_whitespace_separates_url_and_descriptor() {
    let result = parse("cat.jpeg\u{a0}2x");
    assert_eq!(
        result,
        vec![ImageCandidate {
            url: "cat.jpeg".to_string(),
            width: None,
            density: Some(Decimal::from_text("2")),
        }]
    );
}

#[test]
fn text_after_a_descriptor_begins_a_new_candidate() {
    let result = parse("cat.jpeg 2x dog.jpeg");
    assert_eq!(
        result,
        vec![
            ImageCandidate {
                url: "cat.jpeg".to_string(),
                width: None,
                density: Some(Decimal::from_text("2")),
            },
            ImageCandidate { url: "dog.jpeg".to_string(), width: None, density: None },
        ]
    );
}

#[test]
fn descriptor_requires_whitespace_before_number() {
    // with no whitespace, the descriptor text belongs to the URL token
    let result = parse("cat.jpeg2x");
    assert_eq!(
        result,
        vec![ImageCandidate { url: "cat.jpeg2x".to_string(), width: None, density: None }]
    );
}
