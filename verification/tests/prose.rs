use trail::images::ImageIndex;
use trail::prose::{
    boundary_after, boundary_before, classify_image, covered, rfc_keyword_spans, section_href, section_label,
    section_suffix, ImageFate,
};
use trail::refs::SectionTarget;
use trail::site::ImageAsset;

fn chars(s: &str) -> Vec<char> {
    s.chars().collect()
}

#[test]
fn section_labels_are_digits_letters_and_dots() {
    assert_eq!(section_label(&chars("2.1 rest")), Some(3));
    assert_eq!(section_label(&chars("A.3.")), Some(3));
    assert_eq!(section_label(&chars("2.A)")), Some(3));
    assert_eq!(section_label(&chars("...")), None);
    assert_eq!(section_label(&chars("2x")), None);
    assert_eq!(section_label(&chars("")), None);
}

#[test]
fn section_suffixes_follow_a_phrase() {
    assert_eq!(section_suffix(&chars(" \u{a7}9.9 and")), Some((5, 3)));
    assert_eq!(section_suffix(&chars("\u{a0}\u{a7}2")), Some((3, 1)));
    assert_eq!(section_suffix(&chars("\u{a7}2")), None);
    assert_eq!(section_suffix(&chars(" \u{a7}x")), None);
}

#[test]
fn section_links_go_by_fragment_on_the_same_page() {
    let t = SectionTarget { path: "/b/a".to_string(), fragment: Some("h".to_string()) };
    assert_eq!(section_href(&t, "/b/a", "/base").as_deref(), Some("#h"));
    assert_eq!(section_href(&t, "/b/x", "/base").as_deref(), Some("/base/b/a#h"));
    let whole = SectionTarget { path: "/b/a".to_string(), fragment: None };
    assert_eq!(section_href(&whole, "/b/a", ""), None);
    assert_eq!(section_href(&whole, "/b/x", ""), Some("/b/a".to_string()));
}

#[test]
fn word_boundaries_respect_letters_digits_and_underscores() {
    let t = chars("a_b c");
    assert!(boundary_before(&t, 0));
    assert!(!boundary_before(&t, 2));
    assert!(boundary_before(&t, 4));
    assert!(boundary_after(&t, 3));
    assert!(!boundary_after(&t, 1));
    assert!(boundary_after(&t, 5));
}

#[test]
fn rfc_keywords_highlight_longest_first_and_whole_words() {
    let text = chars("You MUST NOT do it; you MAY. MUSTARD is not.");
    let mut spans = Vec::new();
    rfc_keyword_spans(&text, &mut spans);
    assert_eq!(spans.len(), 2);
    assert_eq!(spans[0], (4, 12, "<span class=\"rfc-keyword\">MUST NOT</span>".to_string()));
    assert_eq!(spans[1].2, "<span class=\"rfc-keyword\">MAY</span>");
    assert!(covered(&spans, 5));
    assert!(!covered(&spans, 12));
}

#[test]
fn keywords_inside_existing_spans_stay_plain() {
    let text = chars("SHOULD");
    let mut spans = vec![(0usize, 6usize, "<a>".to_string())];
    rfc_keyword_spans(&text, &mut spans);
    assert_eq!(spans.len(), 1);
}

#[test]
fn image_destinations_are_classified() {
    let assets = vec![ImageAsset { source: "docs/img/a.png".to_string(), url: "/img/a.png".to_string() }];
    let mut index = ImageIndex::new(&assets, &vec![None]);
    match classify_image("~page", "", false, &mut index, Some("docs")) {
        ImageFate::Broken(m) => assert!(m.contains("~references name pages"), "{m}"),
        _ => panic!("tilde destinations are broken"),
    }
    assert!(matches!(classify_image("https://x/y.png", "", false, &mut index, Some("docs")), ImageFate::PassThrough));
    assert!(matches!(classify_image("img/a.png", "", false, &mut index, None), ImageFate::PassThrough));
    match classify_image("img/a.png", "/base", false, &mut index, Some("docs")) {
        ImageFate::Local(info) => assert_eq!(info.url, "/base/img/a.png"),
        _ => panic!("the tree image resolves"),
    }
    assert!(index.is_used(&assets[0]));
    match classify_image("img/missing.png", "", true, &mut index, Some("docs")) {
        ImageFate::Dangling(m) => assert!(m.contains("not found"), "{m}"),
        _ => panic!("missing images dangle when allowed"),
    }
    assert!(matches!(classify_image("img/missing.png", "", false, &mut index, Some("docs")), ImageFate::Broken(_)));
}
