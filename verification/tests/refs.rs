use trail::load::finish_site;
use trail::markdown::TocEntry;
use trail::prose::{enrich_prose, phrase_span, Prose, ProseRefs};
use trail::refs::{InlineRefIndex, PhraseTarget};
use trail::site::{
    Anthology, AnthologyChild, AnthologyItem, Article, Book, BookChild, Chapter, LinkStub, Product, ProductChild,
    ProductItem, Shelf, Site, SiteConfig, Topic, TopicChild, TopicFolder,
};

fn slug_of(path: &str) -> String {
    path.rsplit('/').next().unwrap().to_string()
}

fn art(path: &str, order: u32) -> Article {
    Article {
        slug: slug_of(path),
        path: path.to_string(),
        order,
        title: format!("Article {}", slug_of(path)),
        number: None,
        appendix: false,
        kind: None,
        description: None,
        related: Vec::new(),
        inline_refs: Vec::new(),
        updated: None,
        reading_minutes: 1,
        original: None,
        body: String::new(),
        source_dir: String::new(),
        source_file: String::new(),
    }
}

fn topic(path: &str, order: u32, children: Vec<TopicChild>) -> Topic {
    Topic {
        slug: slug_of(path),
        path: path.to_string(),
        order,
        title: slug_of(path),
        reading_minutes: 0,
        updated: None,
        inline_refs: Vec::new(),
        children,
        links: Vec::new(),
    }
}

fn folder(path: &str, order: u32, articles: Vec<Article>) -> TopicFolder {
    TopicFolder {
        slug: slug_of(path),
        path: path.to_string(),
        order,
        title: slug_of(path),
        entry: articles.first().map(|a| a.path.clone()),
        reading_minutes: 0,
        updated: None,
        inline_refs: Vec::new(),
        articles,
        links: Vec::new(),
    }
}

fn chapter(path: &str, order: u32, number: &str, children: Vec<BookChild>) -> Chapter {
    Chapter {
        slug: slug_of(path),
        path: path.to_string(),
        order,
        number: number.to_string(),
        appendix: false,
        title: slug_of(path),
        entry: String::new(),
        reading_minutes: 0,
        updated: None,
        inline_refs: Vec::new(),
        children,
        links: Vec::new(),
    }
}

fn book(path: &str, order: u32, children: Vec<BookChild>) -> Book {
    Book {
        slug: slug_of(path),
        path: path.to_string(),
        order,
        title: slug_of(path),
        short: None,
        description: String::new(),
        reading_minutes: 0,
        updated: None,
        inline_refs: Vec::new(),
        children,
        links: Vec::new(),
    }
}

fn anthology(path: &str, order: u32, children: Vec<AnthologyChild>) -> Anthology {
    Anthology {
        slug: slug_of(path),
        path: path.to_string(),
        order,
        title: slug_of(path),
        description: String::new(),
        reading_minutes: 0,
        updated: None,
        inline_refs: Vec::new(),
        children,
    }
}

fn a(article: Article) -> TopicChild {
    TopicChild::Article { article }
}

fn ba(article: Article) -> BookChild {
    BookChild::Article { article }
}

fn config(featured: &[&str]) -> SiteConfig {
    SiteConfig {
        sitename: "Test Learn".to_string(),
        title: "Docs for testing".to_string(),
        description: "A fixture site.".to_string(),
        url: None,
        featured: featured.iter().map(|s| s.to_string()).collect(),
        footer: "footer text".to_string(),
        accent: None,
        accent_dark: None,
        custom_css: None,
        favicon: None,
        head_html: None,
        edit_url: None,
        nav: Vec::new(),
        passthrough: Vec::new(),
        product_theming: true,
        built_by_trail: true,
    }
}

fn product(slug: &str, title: &str, children: Vec<ProductChild>) -> Product {
    Product {
        slug: slug.to_string(),
        path: format!("/{slug}"),
        title: title.to_string(),
        monogram: "Xx".to_string(),
        color: "#3b82f6".to_string(),
        description: "a description".to_string(),
        reading_minutes: 0,
        updated: None,
        inline_refs: Vec::new(),
        children,
    }
}

fn stub(slug: &str, order: u32, title: &str, target: &str) -> LinkStub {
    LinkStub { slug: slug.to_string(), order, appendix: false, title: title.to_string(), target: target.to_string() }
}

/// A book article with its section number.
fn numbered(path: &str, order: u32, number: &str) -> Article {
    let mut x = art(path, order);
    x.number = Some(number.to_string());
    x.body = format!("Body of {}.\n", slug_of(path));
    x
}

fn appendix(mut x: Article) -> Article {
    x.appendix = true;
    x
}

/// A topic article with the fixture's frontmatter.
fn concept(path: &str, order: u32) -> Article {
    let mut x = art(path, order);
    x.kind = Some("concept".to_string());
    x.description = Some(format!("about {}", slug_of(path)));
    x.body = format!("Body of {}.\n", slug_of(path));
    x
}

fn topic_of(path: &str, order: u32, slugs: &[(&str, u32)]) -> Topic {
    topic(path, order, slugs.iter().map(|(s, o)| a(concept(&format!("{path}/{s}"), *o))).collect())
}

fn numbered_chapter(path: &str, order: u32, number: &str, children: Vec<BookChild>) -> Chapter {
    let mut c = chapter(path, order, number, children);
    c.entry = match &c.children[0] {
        BookChild::Article { article } => article.path.clone(),
        BookChild::Chapter { chapter } => chapter.entry.clone(),
    };
    c
}

/// The product tree of the fixture site, as loading leaves it: products
/// "alpha" and "beta", with anthologies, shelves, topics, a subfolder,
/// books with chapters and appendices, and two links.
fn alpha() -> Product {
    let mut wide = topic_of("/alpha/acorn/wide", 100, &[("a1", 1), ("a2", 2), ("a3", 3), ("a4", 4), ("a5", 12)]);
    wide.title = "Wide Topic".to_string();
    let mut extra = folder("/alpha/acorn/narrow/extra", 5, vec![concept("/alpha/acorn/narrow/extra/c1", 1)]);
    extra.links = vec![stub("linked", 2, "Linked X1", "~alpha/x1")];
    let mut narrow = topic_of("/alpha/acorn/narrow", 200, &[("b1", 1), ("b2", 2)]);
    narrow.children.push(TopicChild::Folder { folder: extra });
    let bonus = topic_of("/alpha/acorn/bonus", 10, &[("y1", 1)]);
    let spec = book("/alpha/acorn/spec", 400, vec![ba(numbered("/alpha/acorn/spec/rules", 1, "1"))]);
    let inner = anthology(
        "/alpha/acorn/inner",
        500,
        vec![AnthologyChild::Item(AnthologyItem::Topic { topic: topic_of("/alpha/acorn/inner/deep", 1, &[("d1", 1)]) })],
    );
    let acorn = anthology(
        "/alpha/acorn",
        2,
        vec![
            AnthologyChild::Item(AnthologyItem::Topic { topic: wide }),
            AnthologyChild::Item(AnthologyItem::Topic { topic: narrow }),
            AnthologyChild::Shelf(Shelf {
                slug: "extras".to_string(),
                order: 300,
                title: "Extras".to_string(),
                items: vec![AnthologyItem::Topic { topic: bonus }],
            }),
            AnthologyChild::Item(AnthologyItem::Book { book: spec }),
            AnthologyChild::Item(AnthologyItem::Anthology { anthology: inner }),
        ],
    );
    let mut loose = topic_of("/alpha/loose", 5, &[("x1", 1), ("x2", 2), ("a1", 3), ("pic", 20)]);
    if let TopicChild::Article { article } = &mut loose.children[1] {
        article.updated = Some("2026-03-15".to_string());
    }
    loose.links = vec![stub("alias", 4, "Alias", "~alpha/a2")];
    let kit = anthology("/alpha/kit", 1, Vec::new());
    let spare = topic_of("/alpha/spare", 2, &[("z1", 1)]);
    let guide = book("/alpha/field-guide", 3, vec![ba(numbered("/alpha/field-guide/notes", 1, "1"))]);
    let mut intro = numbered("/alpha/manual/intro", 1, "1");
    intro.reading_minutes = 30;
    intro.updated = Some("2026-05-01".to_string());
    let advanced = numbered_chapter(
        "/alpha/manual/setup/advanced",
        2,
        "2.2",
        vec![ba(numbered("/alpha/manual/setup/advanced/tuning", 1, "2.2.1"))],
    );
    let setup = numbered_chapter(
        "/alpha/manual/setup",
        2,
        "2",
        vec![
            ba(numbered("/alpha/manual/setup/install", 1, "2.1")),
            BookChild::Chapter { chapter: advanced },
            ba(appendix(numbered("/alpha/manual/setup/sidenotes", 1, "2.A"))),
        ],
    );
    let mut tables = numbered_chapter(
        "/alpha/manual/appendix",
        3,
        "3",
        vec![ba(numbered("/alpha/manual/appendix/tables", 1, "3.1"))],
    );
    tables.title = "Appendix A".to_string();
    let mut history = numbered_chapter(
        "/alpha/manual/history",
        2,
        "B",
        vec![ba(numbered("/alpha/manual/history/old", 1, "B.1"))],
    );
    history.appendix = true;
    let mut manual = book(
        "/alpha/manual",
        7,
        vec![
            ba(intro),
            BookChild::Chapter { chapter: setup },
            BookChild::Chapter { chapter: tables },
            ba(appendix(numbered("/alpha/manual/glossary", 1, "A"))),
            BookChild::Chapter { chapter: history },
        ],
    );
    manual.title = "Alpha Manual".to_string();
    manual.short = Some("AM".to_string());
    manual.inline_refs = vec!["Alpha Manual".to_string()];
    let zulu = anthology("/alpha/zulu", 10, Vec::new());
    product(
        "alpha",
        "Alpha",
        vec![
            ProductChild::Item(ProductItem::Anthology { anthology: acorn }),
            ProductChild::Item(ProductItem::Topic { topic: loose }),
            ProductChild::Shelf(Shelf {
                slug: "tools".to_string(),
                order: 6,
                title: "Tools".to_string(),
                items: vec![
                    ProductItem::Anthology { anthology: kit },
                    ProductItem::Topic { topic: spare },
                    ProductItem::Book { book: guide },
                ],
            }),
            ProductChild::Item(ProductItem::Book { book: manual }),
            ProductChild::Item(ProductItem::Anthology { anthology: zulu }),
        ],
    )
}

fn loaded(featured: &[&str]) -> Site {
    let beta = product("beta", "Beta", vec![]);
    finish_site(config(featured), vec![alpha(), beta], Vec::new(), None, None, None, String::new()).ok().unwrap()
}


const INSTALL_BODY: &str = "Body of install.\n\n## First section of install\n\nWords.\n\n### Detail of install\n\nMore words.\n\
    \n![Layout again](../layout.png)\n\nSee \u{a7}2.2.1 and \u{a7}A for more. External citations like \u{a7}9.9 stay plain.\n\n\
    The installer preserves ownership. [*install.preserves-ownership] And *emphasis* in the same block must not \
    swallow it, nor may a literal `[*not.an.anchor]` in code.\n";

fn loose_mut(p: &mut Product) -> &mut Topic {
    match &mut p.children[1] {
        ProductChild::Item(ProductItem::Topic { topic }) => topic,
        _ => unreachable!(),
    }
}

fn manual_mut(p: &mut Product) -> &mut Book {
    match &mut p.children[3] {
        ProductChild::Item(ProductItem::Book { book }) => book,
        _ => unreachable!(),
    }
}

fn wide_a1_mut(p: &mut Product) -> &mut Article {
    match &mut p.children[0] {
        ProductChild::Item(ProductItem::Anthology { anthology }) => match &mut anthology.children[0] {
            AnthologyChild::Item(AnthologyItem::Topic { topic }) => match &mut topic.children[0] {
                TopicChild::Article { article } => article,
                _ => unreachable!(),
            },
            _ => unreachable!(),
        },
        _ => unreachable!(),
    }
}

/// The fixture tree with its phrases and citation anchors: the manual
/// claims "Alpha Manual", x2 claims "X-Two", install holds an anchor.
fn refs_alpha() -> Product {
    let mut p = alpha();
    if let TopicChild::Article { article } = &mut loose_mut(&mut p).children[1] {
        article.inline_refs = vec!["X-Two".to_string()];
    }
    if let BookChild::Chapter { chapter } = &mut manual_mut(&mut p).children[1] {
        if let BookChild::Article { article } = &mut chapter.children[0] {
            article.body = INSTALL_BODY.to_string();
        }
    }
    p
}

fn site_of(alpha: Product) -> Site {
    finish_site(config(&["beta"]), vec![alpha, product("beta", "Beta", vec![])], Vec::new(), None, None, None, String::new())
        .ok()
        .unwrap()
}

/// The heading outline of every numbered article the fixture's headings
/// give: each has an h2 "First section of <slug>" and an h3 below it.
fn outlines(site: &Site) -> Vec<(String, Vec<TocEntry>)> {
    let mut out = Vec::new();
    for product in &site.products {
        for item in product.items() {
            if let ProductItem::Book { book } = item {
                for (_, article) in book.articles() {
                    if let Some(n) = &article.number {
                        out.push((
                            article.path.clone(),
                            vec![
                                TocEntry {
                                    level: 2,
                                    id: format!("first-section-of-{}", article.slug),
                                    title: format!("First section of {}", article.slug),
                                    number: Some(format!("{n}.1")),
                                },
                                TocEntry {
                                    level: 3,
                                    id: format!("detail-of-{}", article.slug),
                                    title: format!("Detail of {}", article.slug),
                                    number: Some(format!("{n}.1.1")),
                                },
                            ],
                        ));
                    }
                }
            }
        }
    }
    out
}

fn fixture_index() -> InlineRefIndex {
    let site = site_of(refs_alpha());
    InlineRefIndex::new(&site, &outlines(&site)).ok().unwrap()
}

fn error_of(alpha: Product) -> String {
    let site = site_of(alpha);
    InlineRefIndex::new(&site, &outlines(&site)).err().unwrap()
}

#[test]
fn section_index_covers_articles_chapters_headings_and_appendices() {
    let index = fixture_index();
    let section = |number: &str| index.section("/alpha/manual", number).unwrap();
    assert_eq!(section("1").path, "/alpha/manual/intro");
    assert_eq!(section("2").path, "/alpha/manual/setup/install");
    assert_eq!(section("2.1").path, "/alpha/manual/setup/install");
    assert_eq!(section("2.2.1").path, "/alpha/manual/setup/advanced/tuning");
    let heading = section("2.1.1");
    assert_eq!(heading.path, "/alpha/manual/setup/install");
    assert_eq!(heading.fragment.as_deref(), Some("first-section-of-install"));
    assert_eq!(section("A").path, "/alpha/manual/glossary");
    assert_eq!(section("2.A").path, "/alpha/manual/setup/sidenotes");
    assert_eq!(section("B.1").path, "/alpha/manual/history/old");
    assert!(index.section("/alpha/manual", "9.9").is_none());
    assert!(index.section("/alpha/field-guide", "1").is_some());
}

#[test]
fn phrases_resolve_to_their_declarers() {
    let index = fixture_index();
    let matcher = index.matcher().unwrap();
    let hit = matcher.find("see the Alpha Manual here").unwrap();
    match &index.phrase(hit.pattern().as_usize()).target {
        PhraseTarget::Book(path) => assert_eq!(path, "/alpha/manual"),
        PhraseTarget::Page(_) => panic!("expected a book target"),
    }
    let hit = matcher.find("X-Two explains").unwrap();
    match &index.phrase(hit.pattern().as_usize()).target {
        PhraseTarget::Page(path) => assert_eq!(path, "/alpha/loose/x2"),
        PhraseTarget::Book(_) => panic!("expected a page target"),
    }
}

#[test]
fn citations_carry_their_book_article_and_context() {
    let index = fixture_index();
    let citation = index.citations().iter().find(|c| c.name == "install.preserves-ownership").expect("fixture anchor");
    assert_eq!(citation.qualified, "AM *install.preserves-ownership");
    assert_eq!(citation.book, "/alpha/manual");
    assert_eq!(citation.article, "/alpha/manual/setup/install");
    assert_eq!(citation.number.as_deref(), Some("2.1"));
    assert!(citation.context.starts_with("The installer preserves ownership."));
    assert!(!citation.context.contains("[*install.preserves-ownership]"));
    assert!(citation.context.contains("`[*not.an.anchor]`"));
    assert!(index.citations().iter().all(|c| c.name != "not.an.anchor"));
}

#[test]
fn a_name_declared_twice_in_one_book_is_rejected() {
    let mut p = refs_alpha();
    if let BookChild::Article { article } = &mut manual_mut(&mut p).children[0] {
        article.body.push_str("\nAgain. [*install.preserves-ownership]\n");
    }
    let err = error_of(p);
    assert!(err.contains("declared twice"), "{err}");
    assert!(err.contains("install.preserves-ownership"), "{err}");
}

#[test]
fn a_citation_outside_a_book_is_rejected() {
    let mut p = refs_alpha();
    wide_a1_mut(&mut p).body.push_str("\nStatement. [*loose.anchor]\n");
    let err = error_of(p);
    assert!(err.contains("only valid inside a book"), "{err}");
}

#[test]
fn duplicate_phrases_are_rejected() {
    let mut p = refs_alpha();
    wide_a1_mut(&mut p).inline_refs = vec!["X-Two".to_string()];
    let err = error_of(p);
    assert!(err.contains("claimed by both"), "{err}");
    assert!(err.contains("X-Two"), "{err}");
}

#[test]
fn malformed_phrases_are_rejected() {
    let mut p = refs_alpha();
    manual_mut(&mut p).inline_refs = vec![" padded".to_string()];
    assert_eq!(
        error_of(p),
        "book '/alpha/manual' declares inline_ref phrase ' padded' with leading or trailing whitespace"
    );
    let mut p = refs_alpha();
    manual_mut(&mut p).inline_refs = vec!["  ".to_string()];
    assert_eq!(error_of(p), "book '/alpha/manual' declares an empty inline_ref phrase");
    let mut p = refs_alpha();
    manual_mut(&mut p).inline_refs = vec!["PGSS \u{a7}9".to_string()];
    let err = error_of(p);
    assert!(err.ends_with("containing '\u{a7}'"), "{err}");
}

#[test]
fn topics_without_pages_cannot_declare_phrases() {
    let mut p = refs_alpha();
    if let ProductChild::Shelf(shelf) = &mut p.children[2] {
        if let ProductItem::Topic { topic } = &mut shelf.items[1] {
            topic.children.clear();
            topic.inline_refs = vec!["Spare".to_string()];
        }
    }
    assert_eq!(error_of(p), "topic '/alpha/spare' declares inline_ref but holds no articles to land on");
}

#[test]
fn phrase_hits_are_character_ranges() {
    let index = fixture_index();
    let manual = (0..index.phrase_count()).find(|i| index.phrase(*i).text == "Alpha Manual").unwrap();
    let two = (0..index.phrase_count()).find(|i| index.phrase(*i).text == "X-Two").unwrap();
    assert_eq!(index.phrase_hits("d\u{e9}j\u{e0} the Alpha Manual, X-Two"), vec![(9, 21, manual), (23, 28, two)]);
    assert_eq!(index.phrase_hits("nothing here"), Vec::new());
}

fn chars(s: &str) -> Vec<char> {
    s.chars().collect()
}

fn manual_pattern(index: &InlineRefIndex) -> usize {
    (0..index.phrase_count()).find(|i| index.phrase(*i).text == "Alpha Manual").unwrap()
}

fn enrich(text: &str, hits: &[(usize, usize)], index: &InlineRefIndex, page: &str, book: Option<&str>,
    allow_dangling: bool) -> (Prose, Vec<String>, Vec<String>) {
    let (mut dangling, mut broken) = (Vec::new(), Vec::new());
    let refs = ProseRefs { index, page, book };
    let p = manual_pattern(index);
    let hits: Vec<(usize, usize, usize)> = hits.iter().map(|(a, b)| (*a, *b, p)).collect();
    let r = enrich_prose(&chars(text), &hits, Some(refs), "/base", allow_dangling, &mut dangling, &mut broken);
    (r, dangling, broken)
}

fn marked(p: Prose) -> String {
    match p {
        Prose::Marked(html) => html,
        Prose::Plain => panic!("expected markup, got plain prose"),
        Prose::Overlapping => panic!("expected markup, got overlapping spans"),
    }
}

#[test]
fn a_book_phrase_with_a_section_links_the_section() {
    let index = fixture_index();
    let (r, dangling, broken) = enrich("See the Alpha Manual \u{a7}2.1 now.", &[(8, 20)], &index, "/alpha/loose/x1", None, false);
    assert_eq!(
        marked(r),
        "See the <a class=\"inline-ref\" href=\"/base/alpha/manual/setup/install\">Alpha Manual \u{a7}2.1</a> now."
    );
    assert!(dangling.is_empty() && broken.is_empty());
}

#[test]
fn an_unknown_section_links_the_book_and_is_reported() {
    let index = fixture_index();
    let text = "the Alpha Manual \u{a7}9.9 and";
    let (r, dangling, broken) = enrich(text, &[(4, 16)], &index, "/alpha/loose/x1", None, false);
    assert_eq!(marked(r), "the <a class=\"inline-ref\" href=\"/base/alpha/manual\">Alpha Manual</a> \u{a7}9.9 and");
    assert!(dangling.is_empty());
    assert_eq!(broken, vec!["'Alpha Manual \u{a7}9.9' does not match any section of '/alpha/manual'".to_string()]);
    let (_, dangling, broken) = enrich(text, &[(4, 16)], &index, "/alpha/loose/x1", None, true);
    assert_eq!(dangling.len(), 1);
    assert!(broken.is_empty());
}

#[test]
fn a_page_never_links_a_phrase_to_itself_and_words_stay_whole() {
    let index = fixture_index();
    let (r, _, _) = enrich("the Alpha Manual here", &[(4, 16)], &index, "/alpha/manual", None, false);
    assert!(matches!(r, Prose::Plain));
    let (r, _, _) = enrich("xAlpha Manual here", &[(1, 13)], &index, "/alpha/loose/x1", None, false);
    assert!(matches!(r, Prose::Plain));
}

#[test]
fn bare_sections_and_keywords_join_phrase_links_in_order() {
    let index = fixture_index();
    let (r, _, _) = enrich("You MUST read \u{a7}2.1.1 & Alpha Manual.", &[(23, 35)], &index, "/alpha/manual/intro",
        Some("/alpha/manual"), false);
    assert_eq!(
        marked(r),
        "You <span class=\"rfc-keyword\">MUST</span> read \
         <a class=\"inline-ref\" href=\"/base/alpha/manual/setup/install#first-section-of-install\">\u{a7}2.1.1</a> \
         &amp; <a class=\"inline-ref\" href=\"/base/alpha/manual\">Alpha Manual</a>."
    );
}

#[test]
fn prose_without_references_only_marks_keywords() {
    let (mut dangling, mut broken) = (Vec::new(), Vec::new());
    let r = enrich_prose(&chars("It SHOULD <work>"), &Vec::new(), None, "", false, &mut dangling, &mut broken);
    assert_eq!(marked(r), "It <span class=\"rfc-keyword\">SHOULD</span> &lt;work&gt;");
    let r = enrich_prose(&chars("nothing here"), &Vec::new(), None, "", false, &mut dangling, &mut broken);
    assert!(matches!(r, Prose::Plain));
}

#[test]
fn overlapping_spans_are_refused() {
    let index = fixture_index();
    let (r, _, _) = enrich("Alpha Manual \u{a7}2.1", &[(0, 12), (14, 17)], &index, "/alpha/loose/x1", None, false);
    assert!(matches!(r, Prose::Overlapping));
}

#[test]
fn one_phrase_match_adds_one_span() {
    let index = fixture_index();
    let text = chars("Alpha Manual");
    let (mut spans, mut dangling, mut broken) = (Vec::new(), Vec::new(), Vec::new());
    phrase_span(&text, 0, 12, manual_pattern(&index), &index, "/x", "", false, &mut spans, &mut dangling, &mut broken);
    assert_eq!(spans, vec![(0, 12, "<a class=\"inline-ref\" href=\"/alpha/manual\">Alpha Manual</a>".to_string())]);
}
