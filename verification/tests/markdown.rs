use trail::markdown::{citation_anchors, citation_name, escape_text, slugify};
use trail::tabs::expand_tab_groups;

#[test]
fn citation_names_are_lowercase_dotted_segments() {
    assert_eq!(citation_name("copy-up.preserves-ownership]").as_deref(), Some("copy-up.preserves-ownership"));
    assert_eq!(citation_name("a1]").as_deref(), Some("a1"));
    assert_eq!(citation_name(".leading]"), None);
    assert_eq!(citation_name("trailing.]"), None);
    assert_eq!(citation_name("double..dot]"), None);
    assert_eq!(citation_name("mixed-.sep]"), None);
    assert_eq!(citation_name("Upper]"), None);
    assert_eq!(citation_name("]"), None);
}

#[test]
fn citation_anchors_skip_code_fences_and_inline_code() {
    let body = "Prose. [*real.anchor]\n\n\
                Inline `[*inline.example]` stays literal.\n\n\
                ```\n[*fenced.example]\n```\n";
    let names: Vec<_> = citation_anchors(body).into_iter().map(|a| a.name).collect();
    assert_eq!(names, vec!["real.anchor"]);
}

#[test]
fn citation_context_is_the_block_with_markers_removed() {
    let body = "First block.\n\n\
                Ownership [*one] is preserved\nacross lines. [*two]\n\n\
                Third block.\n";
    let anchors = citation_anchors(body);
    assert_eq!(anchors.len(), 2);
    assert_eq!(anchors[0].context, "Ownership is preserved across lines.");
    assert_eq!(anchors[0].context, anchors[1].context);
}

#[test]
fn tab_groups_expand_into_buttons_and_panels() {
    let out = expand_tab_groups(":::tabs\n:::tab npm\nRun it.\n:::tab pnpm\nOther.\n:::\n\nAfter.\n").unwrap();
    assert!(out.contains("<div class=\"tabs\" data-tabs>"));
    assert!(out.contains(
        "<button class=\"tab-button\" type=\"button\" role=\"tab\" data-tab=\"0\" aria-selected=\"true\">npm</button>"
    ));
    assert!(out.contains("aria-selected=\"false\">pnpm</button>"));
    assert!(out.contains("data-tab-panel=\"0\">"));
    assert!(out.contains("data-tab-panel=\"1\" hidden>"));
    assert!(out.contains("Run it."));
    assert!(out.contains("After."));
}

#[test]
fn text_without_tab_markers_passes_through_unchanged() {
    let source = "# Title\n\nSome text.\n";
    assert_eq!(expand_tab_groups(source).unwrap(), source);
}

#[test]
fn escaping_covers_the_three_markup_characters() {
    assert_eq!(escape_text("a < b && c > d"), "a &lt; b &amp;&amp; c &gt; d");
}

#[test]
fn slugs_are_lowercase_dashed_words() {
    assert_eq!(slugify("Hello, World!"), "hello-world");
}

#[test]
fn outline_lists_h2_and_h3_with_render_ids_and_numbers() {
    let outline = trail::outline::heading_outline("# Top\n\n## One\n\n### Two `x`\n\n## One\n\n#### Deep\n", Some("3")).unwrap();
    let got: Vec<_> = outline.iter().map(|e| (e.level, e.id.as_str(), e.title.as_str(), e.number.as_deref())).collect();
    assert_eq!(
        got,
        [(2, "one", "One", Some("3.1")), (3, "two-x", "Two x", Some("3.1.1")), (2, "one-2", "One", Some("3.2"))]
    );
    let plain = trail::outline::heading_outline("## A\n\n## A\n", None).unwrap();
    let ids: Vec<_> = plain.iter().map(|e| (e.id.as_str(), e.number.clone())).collect();
    assert_eq!(ids, [("a", None), ("a-2", None)]);
}
