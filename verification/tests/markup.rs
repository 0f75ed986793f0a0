use trail::markdown::{IdCounter, ImageInfo, PrintScope};
use trail::links::ResolveError;
use trail::prose::ImageFate;
use trail::markup::{
    admonition_close, admonition_open, admonition_typo_error, admonition_typo_name, figure_for, table_close,
    table_open, toc_entry, apply_edits, fence_token, figure_html, heading_anchor, heading_insert,
    heading_number, heading_permalink, inline_dest, link_target, mermaid_block, mirror_dest, mirror_number,
    tilde_reference,
};

fn chars(s: &str) -> Vec<char> {
    s.chars().collect()
}

#[test]
fn heading_anchors_slug_the_title_and_count_repeats() {
    let mut used = IdCounter::new();
    assert_eq!(heading_anchor(&mut used, None, "Getting Started", None).as_deref(), Some("getting-started"));
    assert_eq!(heading_anchor(&mut used, None, "Getting started!", None).as_deref(), Some("getting-started-2"));
    assert_eq!(heading_anchor(&mut used, Some("custom"), "Getting Started", None).as_deref(), Some("custom"));
    assert_eq!(heading_anchor(&mut used, None, "Getting Started", None).as_deref(), Some("getting-started-3"));
}

#[test]
fn heading_anchors_inside_a_bundle_carry_the_page_prefix() {
    let mut used = IdCounter::new();
    assert_eq!(heading_anchor(&mut used, None, "Usage", Some("guide-install")).as_deref(), Some("guide-install--usage"));
    assert_eq!(heading_anchor(&mut used, Some("x"), "Usage", Some("p")).as_deref(), Some("p--x"));
}

#[test]
fn numbered_headings_and_permalinks() {
    assert_eq!(heading_number("2.1"), "<span class=\"heading-number\">2.1</span> ");
    assert_eq!(
        heading_permalink("usage"),
        " <a class=\"heading-anchor\" href=\"#usage\" aria-label=\"Link to this section\">#</a>"
    );
}

#[test]
fn fence_languages_end_at_space_or_comma() {
    assert_eq!(fence_token("rust").as_deref(), Some("rust"));
    assert_eq!(fence_token("rust,ignore").as_deref(), Some("rust"));
    assert_eq!(fence_token("python title=x").as_deref(), Some("python"));
    assert_eq!(fence_token(""), None);
    assert_eq!(fence_token(" rust"), None);
}

#[test]
fn mermaid_sources_are_escaped() {
    assert_eq!(mermaid_block("a --> b & <c>"), "<pre class=\"mermaid\">a --&gt; b &amp; &lt;c&gt;</pre>\n");
}

#[test]
fn link_targets_outside_a_bundle_go_under_the_base() {
    assert_eq!(link_target("/alpha/x", None, None, "/docs"), "/docs/alpha/x");
    assert_eq!(link_target("/alpha/x", Some("usage"), None, ""), "/alpha/x#usage");
}

#[test]
fn link_targets_inside_a_bundle_become_anchors() {
    let anchors = vec![("/alpha/x".to_string(), "alpha-x".to_string())];
    let scope = PrintScope { anchors: &anchors, base: Some("https://example.com") };
    assert_eq!(link_target("/alpha/x", None, Some(&scope), "/docs"), "#alpha-x");
    assert_eq!(link_target("/alpha/x", Some("usage"), Some(&scope), "/docs"), "#alpha-x--usage");
    assert_eq!(link_target("/beta/y", Some("h"), Some(&scope), "/docs"), "https://example.com/docs/beta/y#h");
    let relative = PrintScope { anchors: &anchors, base: None };
    assert_eq!(link_target("/beta/y", None, Some(&relative), ""), "/beta/y");
}

#[test]
fn admonitions_open_with_their_kind() {
    assert_eq!(
        admonition_open("Warning"),
        "<aside class=\"admonition admonition-warning\">\n<p class=\"admonition-title\">Warning</p>\n"
    );
}

#[test]
fn misspelled_admonition_markers_are_recognised() {
    assert_eq!(admonition_typo_name("[!NOTEE] text").as_deref(), Some("NOTEE"));
    assert_eq!(admonition_typo_name("[!tip]").as_deref(), Some("tip"));
    assert_eq!(admonition_typo_name("[!] nothing"), None);
    assert_eq!(admonition_typo_name("[!NOTE"), None);
    assert_eq!(admonition_typo_name("[!NO TE]"), None);
    assert_eq!(admonition_typo_name("plain quote"), None);
}

#[test]
fn captioned_images_become_figures() {
    let info = ImageInfo { url: "/img/a.png".to_string(), width: Some(640), height: Some(480) };
    assert_eq!(
        figure_html(&info, "A diagram", "Flow <1>"),
        "<figure><img src=\"/img/a.png\" alt=\"A diagram\" width=\"640\" height=\"480\"><figcaption>Flow &lt;1&gt;</figcaption></figure>\n"
    );
}

#[test]
fn tilde_references_split_at_the_first_hash() {
    assert_eq!(tilde_reference("~alpha/a2#part"), Some(("alpha/a2".to_string(), Some("part".to_string()))));
    assert_eq!(tilde_reference("~alpha/a2#a#b"), Some(("alpha/a2".to_string(), Some("a#b".to_string()))));
    assert_eq!(tilde_reference("~alpha"), Some(("alpha".to_string(), None)));
    assert_eq!(tilde_reference("alpha/a2"), None);
    assert_eq!(tilde_reference(""), None);
}

#[test]
fn mirror_links_point_at_the_target_mirror() {
    assert_eq!(mirror_dest("", "/alpha/acorn/wide/a2", Some("part")), "/alpha/acorn/wide/a2.md#part");
    assert_eq!(mirror_dest("/docs", "/alpha/x1", None), "/docs/alpha/x1.md");
    assert_eq!(mirror_number("2.1.1"), "2.1.1 ");
}

#[test]
fn inline_destinations_are_found_between_the_brackets() {
    assert_eq!(inline_dest(&chars("[a2](~alpha/a2#part)"), "~alpha/a2#part"), Some((5, 19)));
    assert_eq!(inline_dest(&chars("![Alt](wiring.png \"Cap\")"), "wiring.png"), Some((7, 17)));
    assert_eq!(inline_dest(&chars("[x][ref]"), "~alpha/a2"), None);
    assert_eq!(inline_dest(&chars("[x](other)"), "~alpha/a2"), None);
    assert_eq!(inline_dest(&chars("[x](~a2x)"), "~a2"), None);
}

#[test]
fn heading_numbers_go_after_the_hashes() {
    assert_eq!(heading_insert(&chars("## First\n")), Some(3));
    assert_eq!(heading_insert(&chars("### Sub")), Some(4));
    assert_eq!(heading_insert(&chars("First\n=====\n")), None);
    assert_eq!(heading_insert(&chars("##NoSpace")), None);
}

#[test]
fn edits_apply_from_the_back() {
    let text = chars("## First\n\nSee [a2](~alpha/a2).\n");
    let edits = vec![(3, 3, "2.1.1 ".to_string()), (19, 28, "/alpha/acorn/wide/a2.md".to_string())];
    assert_eq!(
        apply_edits(&text, edits).as_deref(),
        Some("## 2.1.1 First\n\nSee [a2](/alpha/acorn/wide/a2.md).\n")
    );
    assert_eq!(apply_edits(&chars("abc"), vec![(2, 5, "x".to_string())]), None);
    assert_eq!(apply_edits(&chars("abc"), Vec::new()).as_deref(), Some("abc"));
}

#[test]
fn ambiguity_always_breaks_the_build_and_missing_targets_only_when_strict() {
    let ambiguous = ResolveError::Ambiguous("x".to_string());
    let missing = ResolveError::NoMatch("y".to_string());
    assert!(ambiguous.breaks_build(true));
    assert!(ambiguous.breaks_build(false));
    assert!(!missing.breaks_build(true));
    assert!(missing.breaks_build(false));
}

#[test]
fn unknown_admonition_kinds_are_reported() {
    assert_eq!(
        admonition_typo_error("[!WARN] Mind the gap.").as_deref(),
        Some("unknown admonition type '[!WARN]' (expected NOTE, TIP, IMPORTANT, WARNING or CAUTION)")
    );
    assert_eq!(admonition_typo_error("[!not-a-marker] just quoting"), None);
    assert_eq!(admonition_close(), "</aside>\n");
}

#[test]
fn tables_scroll_inside_their_own_container() {
    assert_eq!(table_open(), "<div class=\"table-scroll\">\n");
    assert_eq!(table_close(), "</div>\n");
}

#[test]
fn only_h2_and_h3_join_the_outline() {
    let e = toc_entry(2, "a".to_string(), "A".to_string(), Some("2.1.1".to_string())).unwrap();
    assert_eq!((e.level, e.id.as_str(), e.title.as_str(), e.number.as_deref()), (2, "a", "A", Some("2.1.1")));
    assert!(toc_entry(3, "b".to_string(), "B".to_string(), None).is_some());
    assert!(toc_entry(1, "c".to_string(), "C".to_string(), None).is_none());
    assert!(toc_entry(4, "d".to_string(), "D".to_string(), None).is_none());
}

#[test]
fn figures_need_a_caption_and_an_image_that_resolves() {
    let local = ImageFate::Local(ImageInfo { url: "/t/w.png".to_string(), width: Some(2), height: Some(1) });
    assert_eq!(
        figure_for(local, "w.png", "Wiring overview", "The wiring").as_deref(),
        Some("<figure><img src=\"/t/w.png\" alt=\"Wiring overview\" width=\"2\" height=\"1\"><figcaption>The wiring</figcaption></figure>\n")
    );
    assert_eq!(
        figure_for(ImageFate::PassThrough, "https://x/i.png", "x", "cap").as_deref(),
        Some("<figure><img src=\"https://x/i.png\" alt=\"x\"><figcaption>cap</figcaption></figure>\n")
    );
    assert_eq!(figure_for(ImageFate::Broken("m".to_string()), "gone.png", "x", "cap"), None);
    assert_eq!(figure_for(ImageFate::PassThrough, "https://x/i.png", "x", ""), None);
}

#[test]
fn heading_anchors_skip_suffixes_already_in_use() {
    let mut used = IdCounter::new();
    assert_eq!(heading_anchor(&mut used, None, "Setup 2", None).as_deref(), Some("setup-2"));
    assert_eq!(heading_anchor(&mut used, None, "Setup", None).as_deref(), Some("setup"));
    assert_eq!(heading_anchor(&mut used, None, "Setup", None).as_deref(), Some("setup-3"));
    assert_eq!(heading_anchor(&mut used, None, "Setup 2", None).as_deref(), Some("setup-2-2"));
}
