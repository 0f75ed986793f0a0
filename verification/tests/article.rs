//! Rendering tests: the link fixture is the same tree the link tests resolve through.
use trail::links::LinkIndex;
use trail::load::finish_site;
use trail::site::{
    Anthology, AnthologyChild, AnthologyItem, Article, Book, BookChild, Chapter, LinkStub, Product, ProductChild,
    ProductItem, Shelf, Site, SiteConfig, Topic, TopicChild, TopicFolder,
};

fn slug_of(path: &str) -> String {
    path.rsplit('/').next().unwrap().to_string()
}

fn art(path: &str, order: u32) -> Article {
    Article {
        slug: slug_of(path),
        path: path.to_string(),
        order,
        title: format!("Article {}", slug_of(path)),
        number: None,
        appendix: false,
        kind: None,
        description: None,
        related: Vec::new(),
        inline_refs: Vec::new(),
        updated: None,
        reading_minutes: 1,
        original: None,
        body: String::new(),
        source_dir: String::new(),
        source_file: String::new(),
    }
}

fn topic(path: &str, order: u32, children: Vec<TopicChild>) -> Topic {
    Topic {
        slug: slug_of(path),
        path: path.to_string(),
        order,
        title: slug_of(path),
        reading_minutes: 0,
        updated: None,
        inline_refs: Vec::new(),
        children,
        links: Vec::new(),
    }
}

fn folder(path: &str, order: u32, articles: Vec<Article>) -> TopicFolder {
    TopicFolder {
        slug: slug_of(path),
        path: path.to_string(),
        order,
        title: slug_of(path),
        entry: articles.first().map(|a| a.path.clone()),
        reading_minutes: 0,
        updated: None,
        inline_refs: Vec::new(),
        articles,
        links: Vec::new(),
    }
}

fn chapter(path: &str, order: u32, number: &str, children: Vec<BookChild>) -> Chapter {
    Chapter {
        slug: slug_of(path),
        path: path.to_string(),
        order,
        number: number.to_string(),
        appendix: false,
        title: slug_of(path),
        entry: String::new(),
        reading_minutes: 0,
        updated: None,
        inline_refs: Vec::new(),
        children,
        links: Vec::new(),
    }
}

fn book(path: &str, order: u32, children: Vec<BookChild>) -> Book {
    Book {
        slug: slug_of(path),
        path: path.to_string(),
        order,
        title: slug_of(path),
        short: None,
        description: String::new(),
        reading_minutes: 0,
        updated: None,
        inline_refs: Vec::new(),
        children,
        links: Vec::new(),
    }
}

fn anthology(path: &str, order: u32, children: Vec<AnthologyChild>) -> Anthology {
    Anthology {
        slug: slug_of(path),
        path: path.to_string(),
        order,
        title: slug_of(path),
        description: String::new(),
        reading_minutes: 0,
        updated: None,
        inline_refs: Vec::new(),
        children,
    }
}

fn a(article: Article) -> TopicChild {
    TopicChild::Article { article }
}

fn ba(article: Article) -> BookChild {
    BookChild::Article { article }
}

fn config(featured: &[&str]) -> SiteConfig {
    SiteConfig {
        sitename: "Test Learn".to_string(),
        title: "Docs for testing".to_string(),
        description: "A fixture site.".to_string(),
        url: None,
        featured: featured.iter().map(|s| s.to_string()).collect(),
        footer: "footer text".to_string(),
        accent: None,
        accent_dark: None,
        custom_css: None,
        favicon: None,
        head_html: None,
        edit_url: None,
        nav: Vec::new(),
        passthrough: Vec::new(),
        product_theming: true,
        built_by_trail: true,
    }
}

fn product(slug: &str, title: &str, children: Vec<ProductChild>) -> Product {
    Product {
        slug: slug.to_string(),
        path: format!("/{slug}"),
        title: title.to_string(),
        monogram: "Xx".to_string(),
        color: "#3b82f6".to_string(),
        description: "a description".to_string(),
        reading_minutes: 0,
        updated: None,
        inline_refs: Vec::new(),
        children,
    }
}

fn stub(slug: &str, order: u32, title: &str, target: &str) -> LinkStub {
    LinkStub { slug: slug.to_string(), order, appendix: false, title: title.to_string(), target: target.to_string() }
}

/// A book article with its section number.
fn numbered(path: &str, order: u32, number: &str) -> Article {
    let mut x = art(path, order);
    x.number = Some(number.to_string());
    x.body = format!("Body of {}.\n", slug_of(path));
    x
}

fn appendix(mut x: Article) -> Article {
    x.appendix = true;
    x
}

/// A topic article with the fixture's frontmatter.
fn concept(path: &str, order: u32) -> Article {
    let mut x = art(path, order);
    x.kind = Some("concept".to_string());
    x.description = Some(format!("about {}", slug_of(path)));
    x.body = format!("Body of {}.\n", slug_of(path));
    x
}

fn topic_of(path: &str, order: u32, slugs: &[(&str, u32)]) -> Topic {
    topic(path, order, slugs.iter().map(|(s, o)| a(concept(&format!("{path}/{s}"), *o))).collect())
}

fn numbered_chapter(path: &str, order: u32, number: &str, children: Vec<BookChild>) -> Chapter {
    let mut c = chapter(path, order, number, children);
    c.entry = match &c.children[0] {
        BookChild::Article { article } => article.path.clone(),
        BookChild::Chapter { chapter } => chapter.entry.clone(),
    };
    c
}

/// The product tree of the fixture site, as loading leaves it: products
/// "alpha" and "beta", with anthologies, shelves, topics, a subfolder,
/// books with chapters and appendices, and two links.
fn alpha() -> Product {
    let mut wide = topic_of("/alpha/acorn/wide", 100, &[("a1", 1), ("a2", 2), ("a3", 3), ("a4", 4), ("a5", 12)]);
    wide.title = "Wide Topic".to_string();
    let mut extra = folder("/alpha/acorn/narrow/extra", 5, vec![concept("/alpha/acorn/narrow/extra/c1", 1)]);
    extra.links = vec![stub("linked", 2, "Linked X1", "~alpha/x1")];
    let mut narrow = topic_of("/alpha/acorn/narrow", 200, &[("b1", 1), ("b2", 2)]);
    narrow.children.push(TopicChild::Folder { folder: extra });
    let bonus = topic_of("/alpha/acorn/bonus", 10, &[("y1", 1)]);
    let spec = book("/alpha/acorn/spec", 400, vec![ba(numbered("/alpha/acorn/spec/rules", 1, "1"))]);
    let inner = anthology(
        "/alpha/acorn/inner",
        500,
        vec![AnthologyChild::Item(AnthologyItem::Topic { topic: topic_of("/alpha/acorn/inner/deep", 1, &[("d1", 1)]) })],
    );
    let acorn = anthology(
        "/alpha/acorn",
        2,
        vec![
            AnthologyChild::Item(AnthologyItem::Topic { topic: wide }),
            AnthologyChild::Item(AnthologyItem::Topic { topic: narrow }),
            AnthologyChild::Shelf(Shelf {
                slug: "extras".to_string(),
                order: 300,
                title: "Extras".to_string(),
                items: vec![AnthologyItem::Topic { topic: bonus }],
            }),
            AnthologyChild::Item(AnthologyItem::Book { book: spec }),
            AnthologyChild::Item(AnthologyItem::Anthology { anthology: inner }),
        ],
    );
    let mut loose = topic_of("/alpha/loose", 5, &[("x1", 1), ("x2", 2), ("a1", 3), ("pic", 20)]);
    if let TopicChild::Article { article } = &mut loose.children[1] {
        article.updated = Some("2026-03-15".to_string());
    }
    loose.links = vec![stub("alias", 4, "Alias", "~alpha/a2")];
    let kit = anthology("/alpha/kit", 1, Vec::new());
    let spare = topic_of("/alpha/spare", 2, &[("z1", 1)]);
    let guide = book("/alpha/field-guide", 3, vec![ba(numbered("/alpha/field-guide/notes", 1, "1"))]);
    let mut intro = numbered("/alpha/manual/intro", 1, "1");
    intro.reading_minutes = 30;
    intro.updated = Some("2026-05-01".to_string());
    let advanced = numbered_chapter(
        "/alpha/manual/setup/advanced",
        2,
        "2.2",
        vec![ba(numbered("/alpha/manual/setup/advanced/tuning", 1, "2.2.1"))],
    );
    let setup = numbered_chapter(
        "/alpha/manual/setup",
        2,
        "2",
        vec![
            ba(numbered("/alpha/manual/setup/install", 1, "2.1")),
            BookChild::Chapter { chapter: advanced },
            ba(appendix(numbered("/alpha/manual/setup/sidenotes", 1, "2.A"))),
        ],
    );
    let mut tables = numbered_chapter(
        "/alpha/manual/appendix",
        3,
        "3",
        vec![ba(numbered("/alpha/manual/appendix/tables", 1, "3.1"))],
    );
    tables.title = "Appendix A".to_string();
    let mut history = numbered_chapter(
        "/alpha/manual/history",
        2,
        "B",
        vec![ba(numbered("/alpha/manual/history/old", 1, "B.1"))],
    );
    history.appendix = true;
    let mut manual = book(
        "/alpha/manual",
        7,
        vec![
            ba(intro),
            BookChild::Chapter { chapter: setup },
            BookChild::Chapter { chapter: tables },
            ba(appendix(numbered("/alpha/manual/glossary", 1, "A"))),
            BookChild::Chapter { chapter: history },
        ],
    );
    manual.title = "Alpha Manual".to_string();
    manual.short = Some("AM".to_string());
    manual.inline_refs = vec!["Alpha Manual".to_string()];
    let zulu = anthology("/alpha/zulu", 10, Vec::new());
    product(
        "alpha",
        "Alpha",
        vec![
            ProductChild::Item(ProductItem::Anthology { anthology: acorn }),
            ProductChild::Item(ProductItem::Topic { topic: loose }),
            ProductChild::Shelf(Shelf {
                slug: "tools".to_string(),
                order: 6,
                title: "Tools".to_string(),
                items: vec![
                    ProductItem::Anthology { anthology: kit },
                    ProductItem::Topic { topic: spare },
                    ProductItem::Book { book: guide },
                ],
            }),
            ProductChild::Item(ProductItem::Book { book: manual }),
            ProductChild::Item(ProductItem::Anthology { anthology: zulu }),
        ],
    )
}

fn loaded(featured: &[&str]) -> Site {
    let beta = product("beta", "Beta", vec![]);
    finish_site(config(featured), vec![alpha(), beta], Vec::new(), None, None, None, String::new()).ok().unwrap()
}

fn index() -> LinkIndex {
    LinkIndex::new(&loaded(&["beta"]))
}

use trail::article::{render, RenderError, RenderOptions};
use trail::highlight::Highlighter;
use trail::images::ImageIndex;
use trail::markdown::{Rendered, TocEntry};
use trail::outline::heading_outline;
use trail::site::ImageAsset;

const TEST_PNG: &[u8] = &[
    137, 80, 78, 71, 13, 10, 26, 10, 0, 0, 0, 13, 73, 72, 68, 82, 0, 0, 0, 2, 0, 0, 0, 1, 8, 2, 0, 0, 0, 123, 64,
    232, 221, 0, 0, 0, 13, 73, 68, 65, 84, 120, 156, 99, 248, 207, 192, 0, 68, 0, 8, 254, 1, 255, 198, 158, 121,
    247, 0, 0, 0, 0, 73, 69, 78, 68, 174, 66, 96, 130,
];

fn options() -> RenderOptions<'static> {
    RenderOptions {
        allow_dangling: false,
        numbering: None,
        id_prefix: None,
        image_dir: None,
        refs: None,
        print: None,
        base: "",
    }
}

fn allow_dangling() -> RenderOptions<'static> {
    RenderOptions { allow_dangling: true, ..options() }
}

fn no_images() -> ImageIndex {
    ImageIndex::new(&Vec::new(), &Vec::new())
}

/// A one-image index: wiring.png (the 2x1 test PNG) inside /site/topic,
/// published at /alpha/topic/wiring.png.
fn image_fixture() -> ImageIndex {
    let assets = vec![ImageAsset {
        source: "/site/topic/wiring.png".to_string(),
        url: "/alpha/topic/wiring.png".to_string(),
    }];
    ImageIndex::new(&assets, &vec![Some(TEST_PNG.to_vec())])
}

fn render_with(markdown: &str, links: &LinkIndex, options: &RenderOptions, images: &mut ImageIndex) -> Result<Rendered, RenderError> {
    render(markdown, links, &Highlighter::bundled(), options, images)
}

/// Renders with an empty link index, for tests of plain markdown.
fn plain(markdown: &str) -> Rendered {
    let empty = LinkIndex { products: Vec::new() };
    render_with(markdown, &empty, &options(), &mut no_images()).ok().unwrap()
}

fn entries(toc: &[TocEntry]) -> Vec<(u8, String, String, Option<String>)> {
    toc.iter().map(|e| (e.level, e.id.clone(), e.title.clone(), e.number.clone())).collect()
}

fn message(error: RenderError) -> String {
    match error {
        RenderError::Invalid(m) => m,
        RenderError::Overlapping(run) => format!("overlapping spans in {run}"),
        RenderError::TooManyEvents => "too many events".to_string(),
    }
}

#[test]
fn tilde_links_resolve_through_the_index() {
    let index = index();
    let rendered = render_with("See [a2](~alpha/a2#part).", &index, &options(), &mut no_images()).ok().unwrap();
    assert!(rendered.html.contains("<a href=\"/alpha/acorn/wide/a2#part\">a2</a>"));
}

#[test]
fn a_base_moves_the_links_the_tree_owns_and_nothing_else() {
    let index = index();
    let opts = RenderOptions { base: "/deadbeef", ..options() };
    let rendered = render_with(
        "See [a2](~alpha/a2#part), [the spec](https://example.com/spec) and [the root](/elsewhere).",
        &index,
        &opts,
        &mut no_images(),
    )
    .ok()
    .unwrap();
    assert!(rendered.html.contains("<a href=\"/deadbeef/alpha/acorn/wide/a2#part\">a2</a>"));
    assert!(rendered.html.contains("https://example.com/spec"));
    assert!(rendered.html.contains("<a href=\"/elsewhere\">"));
    let rewritten =
        trail::mirror::rewrite_source("See [a2](~alpha/a2).\n", &index, None, &mut no_images(), None, "/deadbeef")
            .unwrap();
    assert!(rewritten.contains("(/deadbeef/alpha/acorn/wide/a2.md)"));
}

#[test]
fn unresolvable_tilde_links_are_collected_as_broken() {
    let index = index();
    let rendered =
        render_with("[gone](~alpha/nope) and [which](~alpha/a1)", &index, &options(), &mut no_images()).ok().unwrap();
    assert_eq!(rendered.broken.len(), 2);
    assert!(rendered.broken[0].contains("matches no page"));
    assert!(rendered.broken[1].contains("ambiguous"));
    assert!(rendered.dangling.is_empty());
}

#[test]
fn allow_dangling_downgrades_missing_targets_to_warnings() {
    let index = index();
    let rendered = render_with("[gone](~alpha/nope)", &index, &allow_dangling(), &mut no_images()).ok().unwrap();
    assert!(rendered.html.contains("href=\"~alpha/nope\""));
    assert_eq!(rendered.dangling.len(), 1);
    assert!(rendered.dangling[0].contains("matches no page"));
    assert!(rendered.broken.is_empty());
}

#[test]
fn allow_dangling_still_breaks_on_ambiguous_links() {
    let index = index();
    let rendered = render_with("[which](~alpha/a1)", &index, &allow_dangling(), &mut no_images()).ok().unwrap();
    assert_eq!(rendered.broken.len(), 1);
    assert!(rendered.broken[0].contains("ambiguous"));
}

#[test]
fn unknown_admonition_types_are_errors() {
    let index = index();
    let error =
        render_with("> [!WARN]\n> Mind the gap.\n", &index, &options(), &mut no_images()).err().unwrap();
    assert!(message(error).contains("unknown admonition type '[!WARN]'"));
    let rendered = plain("> [!not-a-marker] just quoting\n");
    assert!(rendered.html.contains("<blockquote>"));
}

#[test]
fn headings_get_ids_and_the_toc_collects_h2_and_h3() {
    let rendered = plain("## The String Form\n\ntext\n\n### When it's hex\n\nmore\n");
    assert!(rendered.html.contains("<h2 id=\"the-string-form\">"));
    assert!(rendered.html.contains("<h3 id=\"when-it-s-hex\">"));
    assert_eq!(
        entries(&rendered.toc),
        entries(&[
            TocEntry { level: 2, id: "the-string-form".into(), title: "The String Form".into(), number: None },
            TocEntry { level: 3, id: "when-it-s-hex".into(), title: "When it's hex".into(), number: None },
        ])
    );
}

#[test]
fn heading_numbers_continue_the_page_section() {
    let empty = LinkIndex { products: Vec::new() };
    let opts = RenderOptions { numbering: Some("2.1"), ..options() };
    let rendered =
        render_with("## A\n\ntext\n\n### B\n\n#### D\n\n## C\n", &empty, &opts, &mut no_images()).ok().unwrap();
    assert!(rendered.html.contains("<h2 id=\"a\"><span class=\"heading-number\">2.1.1</span> A"));
    assert!(rendered.html.contains("<h3 id=\"b\"><span class=\"heading-number\">2.1.1.1</span> B"));
    assert!(rendered.html.contains("<h2 id=\"c\"><span class=\"heading-number\">2.1.2</span> C"));
    assert!(rendered.html.contains("<h4 id=\"d\">D"));
    assert_eq!(rendered.toc[0].number.as_deref(), Some("2.1.1"));
    assert_eq!(rendered.toc[0].title, "A");
    assert_eq!(rendered.toc[1].number.as_deref(), Some("2.1.1.1"));
    assert_eq!(rendered.toc[2].number.as_deref(), Some("2.1.2"));
}

#[test]
fn id_prefix_namespaces_heading_anchors() {
    let empty = LinkIndex { products: Vec::new() };
    let opts = RenderOptions { id_prefix: Some("wide-a1"), ..options() };
    let rendered = render_with("## Overview\n", &empty, &opts, &mut no_images()).ok().unwrap();
    assert!(rendered.html.contains("<h2 id=\"wide-a1--overview\">"));
}

#[test]
fn duplicate_heading_ids_are_deduplicated() {
    let rendered = plain("## Overview\n\n## Overview\n");
    assert!(rendered.html.contains("id=\"overview\""));
    assert!(rendered.html.contains("id=\"overview-2\""));
}

#[test]
fn h4_and_deeper_stay_out_of_the_toc() {
    let rendered = plain("#### Deep detail\n");
    assert!(rendered.html.contains("<h4 id=\"deep-detail\">"));
    assert!(rendered.toc.is_empty());
}

#[test]
fn mermaid_fences_become_mermaid_pre_blocks() {
    let rendered = plain("```mermaid\ngraph TD;\n  A-->B;\n```\n");
    assert!(rendered.has_mermaid);
    assert!(rendered.html.contains("<pre class=\"mermaid\">graph TD;\n  A--&gt;B;\n</pre>"));
    assert!(!rendered.html.contains("language-mermaid"));
}

#[test]
fn ordinary_code_blocks_are_highlighted_and_copyable() {
    let rendered = plain("```rust\nfn main() {}\n```\n");
    assert!(!rendered.has_mermaid);
    assert!(rendered.html.contains("<div class=\"code-block\" data-language=\"rust\">"));
    assert!(rendered.html.contains("data-copy-code"));
    assert!(rendered.html.contains("hl-storage"));
    let rendered = plain("    plain text\n");
    assert!(rendered.html.contains("<div class=\"code-block\">"));
    assert!(!rendered.html.contains("data-language"));
}

#[test]
fn headings_carry_permalink_anchors() {
    let rendered = plain("## The Rule\n");
    assert!(rendered.html.contains(
        "<h2 id=\"the-rule\">The Rule <a class=\"heading-anchor\" href=\"#the-rule\" aria-label=\"Link to this section\">#</a></h2>"
    ));
    assert_eq!(rendered.toc[0].title, "The Rule");
}

#[test]
fn admonitions_render_as_titled_asides() {
    let rendered = plain("> [!WARNING]\n> Mind the gap.\n");
    assert!(rendered.html.contains("<aside class=\"admonition admonition-warning\">"));
    assert!(rendered.html.contains("<p class=\"admonition-title\">Warning</p>"));
    assert!(rendered.html.contains("Mind the gap."));
    assert!(rendered.html.contains("</aside>"));
    assert!(!rendered.html.contains("<blockquote>"));
}

#[test]
fn plain_blockquotes_stay_blockquotes() {
    let rendered = plain("> just quoting someone\n");
    assert!(rendered.html.contains("<blockquote>"));
    assert!(!rendered.html.contains("admonition"));
}

#[test]
fn relative_images_resolve_with_dimensions() {
    let empty = LinkIndex { products: Vec::new() };
    let mut images = image_fixture();
    let opts = RenderOptions { image_dir: Some("/site/topic"), ..options() };
    let rendered = render_with("Inline ![Alt \"text\"](wiring.png) here.", &empty, &opts, &mut images).ok().unwrap();
    assert!(rendered.html.contains(
        "<img src=\"/alpha/topic/wiring.png\" alt=\"Alt &quot;text&quot;\" width=\"2\" height=\"1\">"
    ));
    assert!(rendered.broken.is_empty());
}

#[test]
fn captioned_standalone_images_become_figures() {
    let empty = LinkIndex { products: Vec::new() };
    let mut images = image_fixture();
    let opts = RenderOptions { image_dir: Some("/site/topic"), ..options() };
    let rendered = render_with("![Alt](wiring.png \"A caption\")\n", &empty, &opts, &mut images).ok().unwrap();
    assert_eq!(
        rendered.html,
        "<figure><img src=\"/alpha/topic/wiring.png\" alt=\"Alt\" width=\"2\" height=\"1\"><figcaption>A caption</figcaption></figure>\n"
    );
    let rendered = render_with("Before ![Alt](wiring.png \"Cap\") after.", &empty, &opts, &mut images).ok().unwrap();
    assert!(rendered.html.contains("<p>Before <img"));
    assert!(rendered.html.contains(" title=\"Cap\"> after.</p>"));
    assert!(!rendered.html.contains("<figure>"));
}

#[test]
fn missing_images_are_broken_and_downgradable() {
    let empty = LinkIndex { products: Vec::new() };
    let mut images = image_fixture();
    let opts = RenderOptions { image_dir: Some("/site/topic"), ..options() };
    let rendered = render_with("![x](gone.png)", &empty, &opts, &mut images).ok().unwrap();
    assert_eq!(rendered.broken.len(), 1);
    assert!(rendered.broken[0].contains("image 'gone.png' not found"));
    let opts = RenderOptions { image_dir: Some("/site/topic"), allow_dangling: true, ..options() };
    let rendered = render_with("![x](gone.png)", &empty, &opts, &mut images).ok().unwrap();
    assert!(rendered.broken.is_empty());
    assert_eq!(rendered.dangling.len(), 1);
    assert!(rendered.html.contains("src=\"gone.png\""));
}

#[test]
fn tilde_image_destinations_are_always_broken() {
    let empty = LinkIndex { products: Vec::new() };
    let rendered = render_with("![x](~alpha/a2)", &empty, &allow_dangling(), &mut no_images()).ok().unwrap();
    assert_eq!(rendered.broken.len(), 1);
    assert!(rendered.broken[0].contains("~references name pages"));
}

#[test]
fn external_and_absolute_images_pass_through() {
    let rendered = plain("![x](https://example.com/i.png) and ![y](/assets/logo.svg)\n");
    assert!(rendered.html.contains("src=\"https://example.com/i.png\""));
    assert!(rendered.html.contains("src=\"/assets/logo.svg\""));
    assert!(rendered.broken.is_empty());
}

#[test]
fn rfc_keywords_highlight_in_prose_but_not_code() {
    let rendered =
        plain("You MUST NOT fail, though you MAY retry.\n\n```\nMUST\n```\n\nUse `MUST` here. A MUSTARD note.\n");
    assert!(rendered.html.contains("<span class=\"rfc-keyword\">MUST NOT</span>"));
    assert!(rendered.html.contains("<span class=\"rfc-keyword\">MAY</span>"));
    assert!(rendered.html.contains("<code>MUST\n</code>"));
    assert!(rendered.html.contains("<code>MUST</code>"));
    assert!(rendered.html.contains("MUSTARD"));
    assert_eq!(rendered.html.matches("rfc-keyword").count(), 2);
}

#[test]
fn rfc_keywords_stay_out_of_headings_and_links() {
    let rendered = plain("## What You MUST Do\n\n[MUST read](https://example.com/)\n");
    assert!(!rendered.html.contains("rfc-keyword"));
    assert!(rendered.html.contains("<h2 id=\"what-you-must-do\">"));
}

#[test]
fn heading_outline_matches_what_render_assigns() {
    let source = "## A\n\ntext\n\n### B\n\n#### D\n\n## A\n";
    let outline = heading_outline(source, Some("2.1")).unwrap();
    let empty = LinkIndex { products: Vec::new() };
    let opts = RenderOptions { numbering: Some("2.1"), ..options() };
    let rendered = render_with(source, &empty, &opts, &mut no_images()).ok().unwrap();
    assert_eq!(entries(&outline), entries(&rendered.toc));
    assert_eq!(outline[2].id, "a-2");
    assert_eq!(outline[2].number.as_deref(), Some("2.1.2"));
}

#[test]
fn citation_anchors_survive_emphasis_in_the_same_block() {
    let body = "Ownership is preserved. [*copy-up.owner] And *emphasis* follows.\n";
    let anchors = trail::markdown::citation_anchors(body);
    assert_eq!(anchors.len(), 1);
    assert_eq!(anchors[0].name, "copy-up.owner");
    let html = plain(body).html;
    assert!(html.contains("id=\"cite-copy-up.owner\""), "{html}");
    assert!(html.contains("<em>emphasis</em>"), "{html}");
    assert!(!html.contains("[*copy-up.owner]"), "{html}");
}

#[test]
fn a_citation_marker_renders_as_a_self_targeting_superscript() {
    let html = plain("Ownership is preserved. [*copy-up.owner]\n").html;
    assert!(html.contains("href=\"#cite-copy-up.owner\""), "{html}");
    assert!(html.contains("<sup>"), "{html}");
}

#[test]
fn tab_groups_expand_and_their_bodies_stay_markdown() {
    let rendered = plain(
        ":::tabs\n:::tab npm\nRun `npm i` — see **docs**.\n\n             :::tab pnpm\n```sh\npnpm add x\n```\n:::\n\nAfter.\n",
    );
    assert!(rendered.html.contains("<div class=\"tabs\" data-tabs>"));
    assert!(rendered.html.contains(
        "<button class=\"tab-button\" type=\"button\" role=\"tab\" data-tab=\"0\" aria-selected=\"true\">npm</button>"
    ));
    assert!(rendered.html.contains("aria-selected=\"false\">pnpm</button>"));
    assert!(rendered.html.contains("data-tab-panel=\"0\">"));
    assert!(rendered.html.contains("data-tab-panel=\"1\" hidden>"));
    assert!(rendered.html.contains("<strong>docs</strong>"));
    assert!(rendered.html.contains("<code>npm i</code>"));
    assert!(rendered.html.contains("data-language=\"sh\""));
    assert!(rendered.html.contains("<p>After.</p>"));
}

#[test]
fn tab_markers_inside_code_samples_stay_literal() {
    let rendered = plain("```markdown\n:::tabs\n:::tab One\n:::\n```\n");
    assert!(!rendered.html.contains("<div class=\"tabs\""));
    assert!(rendered.html.contains(":::tabs"));
}

#[test]
fn malformed_tab_groups_are_errors() {
    let cases = [
        (":::tabs\n:::tab One\ntext\n", "unclosed"),
        (":::tab One\ntext\n:::\n", "outside a ':::tabs' block"),
        (":::tabs\n:::\n", "no ':::tab' labels"),
        (":::tabs\n:::tab \ntext\n:::\n", "needs a label"),
        (":::tabs\n:::tab One\n:::tabs\n:::\n:::\n", "cannot nest"),
        ("text\n:::\n", "none is open"),
    ];
    let empty = LinkIndex { products: Vec::new() };
    for (source, expected) in cases {
        let error = message(render_with(source, &empty, &options(), &mut no_images()).err().unwrap());
        assert!(error.contains(expected), "{source:?} gave {error:?}, wanted {expected:?}");
    }
}

#[test]
fn tables_and_inline_code_render() {
    let rendered = plain("| a | b |\n|---|---|\n| 1 | 2 |\n\nUse `token` here.\n");
    assert!(rendered.html.contains("<div class=\"table-scroll\">\n<table>"));
    assert!(rendered.html.contains("</table>\n</div>"));
    assert!(rendered.html.contains("<code>token</code>"));
}

#[test]
fn rendering_leaves_the_image_bookkeeping_to_resolution() {
    let empty = LinkIndex { products: Vec::new() };
    let mut images = image_fixture();
    let opts = RenderOptions { image_dir: Some("/site/topic"), ..options() };
    let asset = ImageAsset { source: "/site/topic/wiring.png".to_string(), url: "/alpha/topic/wiring.png".to_string() };
    assert!(!images.is_used(&asset));
    render_with("![x](gone.png)", &empty, &opts, &mut images).ok().unwrap();
    assert!(!images.is_used(&asset));
    render_with("![x](wiring.png)", &empty, &opts, &mut images).ok().unwrap();
    assert!(images.is_used(&asset));
}

#[test]
fn heading_ids_stay_unique_when_a_title_spells_a_suffix() {
    let source = "## A\n\n## A\n\n## A-2\n";
    let rendered = plain(source);
    let ids: Vec<String> = rendered.toc.iter().map(|e| e.id.clone()).collect();
    assert_eq!(ids, vec!["a", "a-2", "a-2-2"]);
    let outline = heading_outline(source, None).unwrap();
    assert_eq!(entries(&outline), entries(&rendered.toc));
}
