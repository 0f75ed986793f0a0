use trail::highlight::code_block;

#[test]
fn known_languages_are_highlighted_with_classed_spans() {
    let html = code_block(Some("rust"), "// hi\nlet s = \"x\";\n");
    assert!(html.contains("<div class=\"code-block\" data-language=\"rust\">"));
    assert!(html.contains("data-copy-code"));
    assert!(html.contains("hl-comment"));
    assert!(html.contains("hl-keyword"));
    assert!(html.contains("hl-string"));
    assert!(!html.contains("style=\"color"));
}

#[test]
fn unknown_and_absent_languages_still_render_escaped_code() {
    for language in [Some("nosuchlang"), None] {
        let html = code_block(language, "a < b && c > d\n");
        assert!(html.contains("a &lt; b &amp;&amp; c &gt; d"));
        assert!(html.contains("<div class=\"code-block\""));
        assert!(!html.contains("hl-keyword"));
    }
    assert!(code_block(Some("nosuchlang"), "x\n").contains("data-language=\"nosuchlang\""));
}

#[test]
fn the_extended_set_covers_the_languages_the_defaults_miss() {
    for (language, source) in [
        ("toml", "# hi\nkey = \"value\"\n"),
        ("typescript", "// hi\nconst s: string = \"x\";\n"),
        ("dockerfile", "# hi\nFROM alpine\n"),
        ("nix", "# hi\n{ pkgs }: pkgs.hello\n"),
        ("zig", "// hi\nconst x = 1;\n"),
    ] {
        let html = code_block(Some(language), source);
        assert!(html.contains("hl-comment"), "{language} was not highlighted: {html}");
    }
}

#[test]
fn aliases_resolve_to_their_syntax() {
    assert!(code_block(Some("sh"), "echo hi\n").contains("hl-"));
    assert!(code_block(Some("rs"), "let x = 1;\n").contains("hl-keyword"));
}

#[test]
fn the_frame_carries_the_language_label_and_copy_button() {
    let html = code_block(Some("  rust  "), "fn main() {}\n");
    assert!(html.contains("data-language=\"rust\""));
    assert!(html.starts_with("<div class=\"code-block\""));
}

#[test]
fn blank_fence_labels_count_as_absent() {
    assert_eq!(code_block(Some("   "), "a<b\n"), code_block(None, "a<b\n"));
    assert!(!code_block(None, "x\n").contains("data-language"));
}

#[test]
fn syntax_licenses_are_shippable() {
    let text = trail::highlight::licenses();
    assert!(text.contains("two-face"));
    assert!(text.len() > 500, "acknowledgements look empty");
}

#[test]
fn licence_file_points_at_the_full_listing() {
    let text = trail::highlight::licenses();
    assert!(text.contains(
        "acknowledgement, is at:\nhttps://github.com/CosmicHorrorDev/two-face/blob/v0.4.5/generated/acknowledgements_full.md\n"
    ));
}

#[test]
fn licence_files_list_each_entry_under_its_path() {
    let entries = vec![("syntaxes/A/LICENSE".to_string(), "MIT terms\n\n".to_string())];
    let text = trail::highlight::license_file("https://example.org/list", &entries);
    assert!(text.contains("acknowledgement, is at:\nhttps://example.org/list\n"));
    assert!(text.ends_with("\n\n---- syntaxes/A/LICENSE ----\n\nMIT terms\n"));
}
