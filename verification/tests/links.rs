//! The link tests resolve through the same fixture tree as the site tests.
use trail::links::LinkIndex;
use trail::load::finish_site;
use trail::site::{
    Anthology, AnthologyChild, AnthologyItem, Article, Book, BookChild, Chapter, LinkStub, Product, ProductChild,
    ProductItem, Shelf, Site, SiteConfig, Topic, TopicChild, TopicFolder,
};

fn slug_of(path: &str) -> String {
    path.rsplit('/').next().unwrap().to_string()
}

fn art(path: &str, order: u32) -> Article {
    Article {
        slug: slug_of(path),
        path: path.to_string(),
        order,
        title: format!("Article {}", slug_of(path)),
        number: None,
        appendix: false,
        kind: None,
        description: None,
        related: Vec::new(),
        inline_refs: Vec::new(),
        updated: None,
        reading_minutes: 1,
        original: None,
        body: String::new(),
        source_dir: String::new(),
        source_file: String::new(),
    }
}

fn topic(path: &str, order: u32, children: Vec<TopicChild>) -> Topic {
    Topic {
        slug: slug_of(path),
        path: path.to_string(),
        order,
        title: slug_of(path),
        reading_minutes: 0,
        updated: None,
        inline_refs: Vec::new(),
        children,
        links: Vec::new(),
    }
}

fn folder(path: &str, order: u32, articles: Vec<Article>) -> TopicFolder {
    TopicFolder {
        slug: slug_of(path),
        path: path.to_string(),
        order,
        title: slug_of(path),
        entry: articles.first().map(|a| a.path.clone()),
        reading_minutes: 0,
        updated: None,
        inline_refs: Vec::new(),
        articles,
        links: Vec::new(),
    }
}

fn chapter(path: &str, order: u32, number: &str, children: Vec<BookChild>) -> Chapter {
    Chapter {
        slug: slug_of(path),
        path: path.to_string(),
        order,
        number: number.to_string(),
        appendix: false,
        title: slug_of(path),
        entry: String::new(),
        reading_minutes: 0,
        updated: None,
        inline_refs: Vec::new(),
        children,
        links: Vec::new(),
    }
}

fn book(path: &str, order: u32, children: Vec<BookChild>) -> Book {
    Book {
        slug: slug_of(path),
        path: path.to_string(),
        order,
        title: slug_of(path),
        short: None,
        description: String::new(),
        reading_minutes: 0,
        updated: None,
        inline_refs: Vec::new(),
        children,
        links: Vec::new(),
    }
}

fn anthology(path: &str, order: u32, children: Vec<AnthologyChild>) -> Anthology {
    Anthology {
        slug: slug_of(path),
        path: path.to_string(),
        order,
        title: slug_of(path),
        description: String::new(),
        reading_minutes: 0,
        updated: None,
        inline_refs: Vec::new(),
        children,
    }
}

fn a(article: Article) -> TopicChild {
    TopicChild::Article { article }
}

fn ba(article: Article) -> BookChild {
    BookChild::Article { article }
}

fn config(featured: &[&str]) -> SiteConfig {
    SiteConfig {
        sitename: "Test Learn".to_string(),
        title: "Docs for testing".to_string(),
        description: "A fixture site.".to_string(),
        url: None,
        featured: featured.iter().map(|s| s.to_string()).collect(),
        footer: "footer text".to_string(),
        accent: None,
        accent_dark: None,
        custom_css: None,
        favicon: None,
        head_html: None,
        edit_url: None,
        nav: Vec::new(),
        passthrough: Vec::new(),
        product_theming: true,
        built_by_trail: true,
    }
}

fn product(slug: &str, title: &str, children: Vec<ProductChild>) -> Product {
    Product {
        slug: slug.to_string(),
        path: format!("/{slug}"),
        title: title.to_string(),
        monogram: "Xx".to_string(),
        color: "#3b82f6".to_string(),
        description: "a description".to_string(),
        reading_minutes: 0,
        updated: None,
        inline_refs: Vec::new(),
        children,
    }
}

fn stub(slug: &str, order: u32, title: &str, target: &str) -> LinkStub {
    LinkStub { slug: slug.to_string(), order, appendix: false, title: title.to_string(), target: target.to_string() }
}

/// A book article with its section number.
fn numbered(path: &str, order: u32, number: &str) -> Article {
    let mut x = art(path, order);
    x.number = Some(number.to_string());
    x.body = format!("Body of {}.\n", slug_of(path));
    x
}

fn appendix(mut x: Article) -> Article {
    x.appendix = true;
    x
}

/// A topic article with the fixture's frontmatter.
fn concept(path: &str, order: u32) -> Article {
    let mut x = art(path, order);
    x.kind = Some("concept".to_string());
    x.description = Some(format!("about {}", slug_of(path)));
    x.body = format!("Body of {}.\n", slug_of(path));
    x
}

fn topic_of(path: &str, order: u32, slugs: &[(&str, u32)]) -> Topic {
    topic(path, order, slugs.iter().map(|(s, o)| a(concept(&format!("{path}/{s}"), *o))).collect())
}

fn numbered_chapter(path: &str, order: u32, number: &str, children: Vec<BookChild>) -> Chapter {
    let mut c = chapter(path, order, number, children);
    c.entry = match &c.children[0] {
        BookChild::Article { article } => article.path.clone(),
        BookChild::Chapter { chapter } => chapter.entry.clone(),
    };
    c
}

/// The product tree of the fixture site, as loading leaves it: products
/// "alpha" and "beta", with anthologies, shelves, topics, a subfolder,
/// books with chapters and appendices, and two links.
fn alpha() -> Product {
    let mut wide = topic_of("/alpha/acorn/wide", 100, &[("a1", 1), ("a2", 2), ("a3", 3), ("a4", 4), ("a5", 12)]);
    wide.title = "Wide Topic".to_string();
    let mut extra = folder("/alpha/acorn/narrow/extra", 5, vec![concept("/alpha/acorn/narrow/extra/c1", 1)]);
    extra.links = vec![stub("linked", 2, "Linked X1", "~alpha/x1")];
    let mut narrow = topic_of("/alpha/acorn/narrow", 200, &[("b1", 1), ("b2", 2)]);
    narrow.children.push(TopicChild::Folder { folder: extra });
    let bonus = topic_of("/alpha/acorn/bonus", 10, &[("y1", 1)]);
    let spec = book("/alpha/acorn/spec", 400, vec![ba(numbered("/alpha/acorn/spec/rules", 1, "1"))]);
    let inner = anthology(
        "/alpha/acorn/inner",
        500,
        vec![AnthologyChild::Item(AnthologyItem::Topic { topic: topic_of("/alpha/acorn/inner/deep", 1, &[("d1", 1)]) })],
    );
    let acorn = anthology(
        "/alpha/acorn",
        2,
        vec![
            AnthologyChild::Item(AnthologyItem::Topic { topic: wide }),
            AnthologyChild::Item(AnthologyItem::Topic { topic: narrow }),
            AnthologyChild::Shelf(Shelf {
                slug: "extras".to_string(),
                order: 300,
                title: "Extras".to_string(),
                items: vec![AnthologyItem::Topic { topic: bonus }],
            }),
            AnthologyChild::Item(AnthologyItem::Book { book: spec }),
            AnthologyChild::Item(AnthologyItem::Anthology { anthology: inner }),
        ],
    );
    let mut loose = topic_of("/alpha/loose", 5, &[("x1", 1), ("x2", 2), ("a1", 3), ("pic", 20)]);
    if let TopicChild::Article { article } = &mut loose.children[1] {
        article.updated = Some("2026-03-15".to_string());
    }
    loose.links = vec![stub("alias", 4, "Alias", "~alpha/a2")];
    let kit = anthology("/alpha/kit", 1, Vec::new());
    let spare = topic_of("/alpha/spare", 2, &[("z1", 1)]);
    let guide = book("/alpha/field-guide", 3, vec![ba(numbered("/alpha/field-guide/notes", 1, "1"))]);
    let mut intro = numbered("/alpha/manual/intro", 1, "1");
    intro.reading_minutes = 30;
    intro.updated = Some("2026-05-01".to_string());
    let advanced = numbered_chapter(
        "/alpha/manual/setup/advanced",
        2,
        "2.2",
        vec![ba(numbered("/alpha/manual/setup/advanced/tuning", 1, "2.2.1"))],
    );
    let setup = numbered_chapter(
        "/alpha/manual/setup",
        2,
        "2",
        vec![
            ba(numbered("/alpha/manual/setup/install", 1, "2.1")),
            BookChild::Chapter { chapter: advanced },
            ba(appendix(numbered("/alpha/manual/setup/sidenotes", 1, "2.A"))),
        ],
    );
    let mut tables = numbered_chapter(
        "/alpha/manual/appendix",
        3,
        "3",
        vec![ba(numbered("/alpha/manual/appendix/tables", 1, "3.1"))],
    );
    tables.title = "Appendix A".to_string();
    let mut history = numbered_chapter(
        "/alpha/manual/history",
        2,
        "B",
        vec![ba(numbered("/alpha/manual/history/old", 1, "B.1"))],
    );
    history.appendix = true;
    let mut manual = book(
        "/alpha/manual",
        7,
        vec![
            ba(intro),
            BookChild::Chapter { chapter: setup },
            BookChild::Chapter { chapter: tables },
            ba(appendix(numbered("/alpha/manual/glossary", 1, "A"))),
            BookChild::Chapter { chapter: history },
        ],
    );
    manual.title = "Alpha Manual".to_string();
    manual.short = Some("AM".to_string());
    manual.inline_refs = vec!["Alpha Manual".to_string()];
    let zulu = anthology("/alpha/zulu", 10, Vec::new());
    product(
        "alpha",
        "Alpha",
        vec![
            ProductChild::Item(ProductItem::Anthology { anthology: acorn }),
            ProductChild::Item(ProductItem::Topic { topic: loose }),
            ProductChild::Shelf(Shelf {
                slug: "tools".to_string(),
                order: 6,
                title: "Tools".to_string(),
                items: vec![
                    ProductItem::Anthology { anthology: kit },
                    ProductItem::Topic { topic: spare },
                    ProductItem::Book { book: guide },
                ],
            }),
            ProductChild::Item(ProductItem::Book { book: manual }),
            ProductChild::Item(ProductItem::Anthology { anthology: zulu }),
        ],
    )
}

fn loaded(featured: &[&str]) -> Site {
    let beta = product("beta", "Beta", vec![]);
    finish_site(config(featured), vec![alpha(), beta], Vec::new(), None, None, None, String::new()).ok().unwrap()
}

fn index() -> LinkIndex {
    LinkIndex::new(&loaded(&["beta"]))
}

fn err(index: &LinkIndex, reference: &str) -> String {
    index.resolve(reference).err().unwrap().message()
}

#[test]
fn resolves_the_shortest_unambiguous_suffix() {
    let index = index();
    assert_eq!(index.resolve("alpha/a2").ok().unwrap(), "/alpha/acorn/wide/a2");
    assert_eq!(index.resolve("alpha/x1").ok().unwrap(), "/alpha/loose/x1");
}

#[test]
fn longer_suffixes_disambiguate_including_anthology_segments() {
    let index = index();
    let e = err(&index, "alpha/a1");
    assert!(e.contains("ambiguous"));
    assert!(e.contains("~alpha/acorn/wide/a1"));
    assert!(e.contains("~alpha/loose/a1"));
    assert_eq!(index.resolve("alpha/wide/a1").ok().unwrap(), "/alpha/acorn/wide/a1");
    assert_eq!(index.resolve("alpha/loose/a1").ok().unwrap(), "/alpha/loose/a1");
    assert_eq!(index.resolve("alpha/acorn/wide/a1").ok().unwrap(), "/alpha/acorn/wide/a1");
}

#[test]
fn resolves_anthology_and_product_pages() {
    let index = index();
    assert_eq!(index.resolve("alpha/acorn").ok().unwrap(), "/alpha/acorn");
    assert_eq!(index.resolve("alpha").ok().unwrap(), "/alpha");
}

#[test]
fn resolves_book_covers_and_articles() {
    let index = index();
    assert_eq!(index.resolve("alpha/manual").ok().unwrap(), "/alpha/manual");
    assert_eq!(index.resolve("alpha/tuning").ok().unwrap(), "/alpha/manual/setup/advanced/tuning");
    assert_eq!(index.resolve("alpha/advanced/tuning").ok().unwrap(), "/alpha/manual/setup/advanced/tuning");
    assert_eq!(index.resolve("alpha/manual/setup/install").ok().unwrap(), "/alpha/manual/setup/install");
    assert_eq!(index.resolve("alpha/notes").ok().unwrap(), "/alpha/field-guide/notes");
}

#[test]
fn resolves_topic_subfolder_articles() {
    let index = index();
    assert_eq!(index.resolve("alpha/c1").ok().unwrap(), "/alpha/acorn/narrow/extra/c1");
    assert_eq!(index.resolve("alpha/extra/c1").ok().unwrap(), "/alpha/acorn/narrow/extra/c1");
    assert_eq!(index.resolve("alpha/narrow/extra/c1").ok().unwrap(), "/alpha/acorn/narrow/extra/c1");
}

#[test]
fn resolves_books_and_anthologies_nested_in_anthologies() {
    let index = index();
    assert_eq!(index.resolve("alpha/spec").ok().unwrap(), "/alpha/acorn/spec");
    assert_eq!(index.resolve("alpha/rules").ok().unwrap(), "/alpha/acorn/spec/rules");
    assert_eq!(index.resolve("alpha/acorn/spec/rules").ok().unwrap(), "/alpha/acorn/spec/rules");
    assert_eq!(index.resolve("alpha/inner").ok().unwrap(), "/alpha/acorn/inner");
    assert_eq!(index.resolve("alpha/d1").ok().unwrap(), "/alpha/acorn/inner/deep/d1");
}

#[test]
fn unknown_targets_and_products_are_errors() {
    let index = index();
    assert!(err(&index, "alpha/nope").contains("matches no page in product 'alpha'"));
    assert!(err(&index, "ghost/x").contains("unknown product 'ghost'"));
}

#[test]
fn resolve_page_gives_the_title_too() {
    let index = index();
    let (path, title) = index.resolve_page("alpha/x1").ok().unwrap();
    assert_eq!(path, "/alpha/loose/x1");
    assert_eq!(title, "Article x1");
}


#[test]
fn rewrite_source_resolves_links_to_mirrors_and_numbers_headings() {
    let index = index();
    let mut images = trail::images::ImageIndex::new(&Vec::new(), &Vec::new());
    let source = "Intro with [a2](~alpha/a2#part) and [missing](~alpha/nope).\n\n\
                  ## First\n\n```\n## not a heading [x](~alpha/a2)\n```\n\n### Sub\n";
    let rewritten = trail::mirror::rewrite_source(source, &index, Some("2.1"), &mut images, None, "").unwrap();
    assert!(rewritten.contains("[a2](/alpha/acorn/wide/a2.md#part)"));
    assert!(rewritten.contains("[missing](~alpha/nope)"));
    assert!(rewritten.contains("## not a heading [x](~alpha/a2)"));
    assert!(rewritten.contains("## 2.1.1 First"));
    assert!(rewritten.contains("### 2.1.1.1 Sub"));
}

#[test]
fn rewrite_source_without_numbering_leaves_headings_alone() {
    let index = index();
    let mut images = trail::images::ImageIndex::new(&Vec::new(), &Vec::new());
    let rewritten =
        trail::mirror::rewrite_source("## Plain\n\nSee [a2](~alpha/a2).\n", &index, None, &mut images, None, "").unwrap();
    assert!(rewritten.contains("## Plain"));
    assert!(rewritten.contains("[a2](/alpha/acorn/wide/a2.md)"));
}

#[test]
fn rewrite_source_rewrites_image_destinations() {
    let index = index();
    let assets = vec![trail::site::ImageAsset {
        source: "/site/alpha.product/topic/wiring.png".to_string(),
        url: "/alpha/topic/wiring.png".to_string(),
    }];
    let mut images = trail::images::ImageIndex::new(&assets, &vec![None]);
    let source = "![Alt](wiring.png \"Cap\")\n\n![B](wiring.png)\n\n![C](gone.png)\n";
    let rewritten =
        trail::mirror::rewrite_source(source, &index, None, &mut images, Some("/site/alpha.product/topic"), "").unwrap();
    assert!(rewritten.contains("![Alt](/alpha/topic/wiring.png \"Cap\")"));
    assert!(rewritten.contains("![B](/alpha/topic/wiring.png)"));
    assert!(rewritten.contains("![C](gone.png)"));
}

#[test]
fn mirrors_carry_the_base_prefix() {
    let index = index();
    let mut images = trail::images::ImageIndex::new(&Vec::new(), &Vec::new());
    let rewritten = trail::mirror::rewrite_source("See [a2](~alpha/a2).\n", &index, None, &mut images, None, "/deadbeef").unwrap();
    assert!(rewritten.contains("(/deadbeef/alpha/acorn/wide/a2.md)"));
}

#[test]
fn unresolved_sources_are_their_own_mirrors() {
    let index = index();
    let mut images = trail::images::ImageIndex::new(&Vec::new(), &Vec::new());
    let source = "## Heading\n\nSee [x](~alpha/nope), [y](https://example.com) and ![z](gone.png).\n";
    let rewritten = trail::mirror::rewrite_source(source, &index, None, &mut images, Some("/site"), "").unwrap();
    assert_eq!(rewritten, source);
}

#[test]
fn longer_references_only_narrow() {
    let index = index();
    assert_eq!(index.resolve("alpha/a2").ok().unwrap(), "/alpha/acorn/wide/a2");
    assert_eq!(index.resolve("alpha/wide/a2").ok().unwrap(), "/alpha/acorn/wide/a2");
    assert_eq!(index.resolve("alpha/acorn/wide/a2").ok().unwrap(), "/alpha/acorn/wide/a2");
    assert!(err(&index, "alpha/narrow/a2").contains("matches no page"));
}
