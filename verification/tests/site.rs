use trail::load::finish_site;
use trail::site::{
    Anthology, AnthologyChild, AnthologyItem, Article, Book, BookChild, Chapter, LinkStub, Product, ProductChild,
    ProductItem, Shelf, Site, SiteConfig, Topic, TopicChild, TopicFolder,
};

fn slug_of(path: &str) -> String {
    path.rsplit('/').next().unwrap().to_string()
}

fn art(path: &str, order: u32) -> Article {
    Article {
        slug: slug_of(path),
        path: path.to_string(),
        order,
        title: format!("Article {}", slug_of(path)),
        number: None,
        appendix: false,
        kind: None,
        description: None,
        related: Vec::new(),
        inline_refs: Vec::new(),
        updated: None,
        reading_minutes: 1,
        original: None,
        body: String::new(),
        source_dir: String::new(),
        source_file: String::new(),
    }
}

/// A slug's derived title: its first letter capitalised.
fn titled(slug: &str) -> String {
    let mut c = slug.chars();
    match c.next() {
        Some(f) => f.to_uppercase().collect::<String>() + c.as_str(),
        None => String::new(),
    }
}

fn topic(path: &str, order: u32, children: Vec<TopicChild>) -> Topic {
    Topic {
        slug: slug_of(path),
        path: path.to_string(),
        order,
        title: titled(&slug_of(path)),
        reading_minutes: 0,
        updated: None,
        inline_refs: Vec::new(),
        children,
        links: Vec::new(),
    }
}

fn folder(path: &str, order: u32, articles: Vec<Article>) -> TopicFolder {
    TopicFolder {
        slug: slug_of(path),
        path: path.to_string(),
        order,
        title: titled(&slug_of(path)),
        entry: articles.first().map(|a| a.path.clone()),
        reading_minutes: 0,
        updated: None,
        inline_refs: Vec::new(),
        articles,
        links: Vec::new(),
    }
}

fn chapter(path: &str, order: u32, number: &str, children: Vec<BookChild>) -> Chapter {
    Chapter {
        slug: slug_of(path),
        path: path.to_string(),
        order,
        number: number.to_string(),
        appendix: false,
        title: titled(&slug_of(path)),
        entry: String::new(),
        reading_minutes: 0,
        updated: None,
        inline_refs: Vec::new(),
        children,
        links: Vec::new(),
    }
}

fn book(path: &str, order: u32, children: Vec<BookChild>) -> Book {
    Book {
        slug: slug_of(path),
        path: path.to_string(),
        order,
        title: slug_of(path),
        short: None,
        description: String::new(),
        reading_minutes: 0,
        updated: None,
        inline_refs: Vec::new(),
        children,
        links: Vec::new(),
    }
}

fn anthology(path: &str, order: u32, children: Vec<AnthologyChild>) -> Anthology {
    Anthology {
        slug: slug_of(path),
        path: path.to_string(),
        order,
        title: slug_of(path),
        description: String::new(),
        reading_minutes: 0,
        updated: None,
        inline_refs: Vec::new(),
        children,
    }
}

fn a(article: Article) -> TopicChild {
    TopicChild::Article { article }
}

fn ba(article: Article) -> BookChild {
    BookChild::Article { article }
}

fn config(featured: &[&str]) -> SiteConfig {
    SiteConfig {
        sitename: "Test Learn".to_string(),
        title: "Docs for testing".to_string(),
        description: "A fixture site.".to_string(),
        url: None,
        featured: featured.iter().map(|s| s.to_string()).collect(),
        footer: "footer text".to_string(),
        accent: None,
        accent_dark: None,
        custom_css: None,
        favicon: None,
        head_html: None,
        edit_url: None,
        nav: Vec::new(),
        passthrough: Vec::new(),
        product_theming: true,
        built_by_trail: true,
    }
}

fn product(slug: &str, title: &str, children: Vec<ProductChild>) -> Product {
    Product {
        slug: slug.to_string(),
        path: format!("/{slug}"),
        title: title.to_string(),
        monogram: "Xx".to_string(),
        color: "#3b82f6".to_string(),
        description: "a description".to_string(),
        reading_minutes: 0,
        updated: None,
        inline_refs: Vec::new(),
        children,
    }
}

fn stub(slug: &str, order: u32, title: &str, target: &str) -> LinkStub {
    LinkStub { slug: slug.to_string(), order, appendix: false, title: title.to_string(), target: target.to_string() }
}

/// A book article with its section number.
fn numbered(path: &str, order: u32, number: &str) -> Article {
    let mut x = art(path, order);
    x.number = Some(number.to_string());
    x.body = format!("Body of {}.\n", slug_of(path));
    x
}

fn appendix(mut x: Article) -> Article {
    x.appendix = true;
    x
}

/// A topic article with the fixture's frontmatter.
fn concept(path: &str, order: u32) -> Article {
    let mut x = art(path, order);
    x.kind = Some("concept".to_string());
    x.description = Some(format!("about {}", slug_of(path)));
    x.body = format!("Body of {}.\n", slug_of(path));
    x
}

/// A topic whose articles carry the fixture's `related` references.
fn topic_of(path: &str, order: u32, slugs: &[(&str, u32)]) -> Topic {
    topic(
        path,
        order,
        slugs
            .iter()
            .map(|(s, o)| {
                let mut x = concept(&format!("{path}/{s}"), *o);
                x.related = vec!["alpha/b1".to_string(), "alpha/manual".to_string()];
                a(x)
            })
            .collect(),
    )
}

fn titled_anthology(path: &str, order: u32, title: &str, description: &str, children: Vec<AnthologyChild>) -> Anthology {
    let mut x = anthology(path, order, children);
    x.title = title.to_string();
    x.description = description.to_string();
    x
}

fn titled_book(path: &str, order: u32, title: &str, description: &str, children: Vec<BookChild>) -> Book {
    let mut x = book(path, order, children);
    x.title = title.to_string();
    x.description = description.to_string();
    x
}

fn numbered_chapter(path: &str, order: u32, number: &str, children: Vec<BookChild>) -> Chapter {
    let mut c = chapter(path, order, number, children);
    c.entry = match &c.children[0] {
        BookChild::Article { article } => article.path.clone(),
        BookChild::Chapter { chapter } => chapter.entry.clone(),
    };
    c
}

/// The product tree of the fixture site, as loading leaves it: products
/// "alpha" and "beta", with anthologies, shelves, topics, a subfolder,
/// books with chapters and appendices, and two links.
fn alpha() -> Product {
    let mut wide = topic_of("/alpha/acorn/wide", 100, &[("a1", 1), ("a2", 2), ("a3", 3), ("a4", 4), ("a5", 12)]);
    wide.title = "Wide Topic".to_string();
    let mut extra = folder("/alpha/acorn/narrow/extra", 5, vec![concept("/alpha/acorn/narrow/extra/c1", 1)]);
    extra.links = vec![stub("linked", 2, "Linked X1", "~alpha/x1")];
    let mut narrow = topic_of("/alpha/acorn/narrow", 200, &[("b1", 1), ("b2", 2)]);
    narrow.children.push(TopicChild::Folder { folder: extra });
    let bonus = topic_of("/alpha/acorn/bonus", 10, &[("y1", 1)]);
    let spec = titled_book("/alpha/acorn/spec", 400, "Acorn Spec", "spec description",
        vec![ba(numbered("/alpha/acorn/spec/rules", 1, "1"))]);
    let deep = topic("/alpha/acorn/inner/deep", 1, vec![a(concept("/alpha/acorn/inner/deep/d1", 1))]);
    let inner = titled_anthology(
        "/alpha/acorn/inner",
        500,
        "Inner Docs",
        "inner description",
        vec![AnthologyChild::Item(AnthologyItem::Topic { topic: deep })],
    );
    let acorn = titled_anthology(
        "/alpha/acorn",
        2,
        "Acorn Docs",
        "anthology description",
        vec![
            AnthologyChild::Item(AnthologyItem::Topic { topic: wide }),
            AnthologyChild::Item(AnthologyItem::Topic { topic: narrow }),
            AnthologyChild::Shelf(Shelf {
                slug: "extras".to_string(),
                order: 300,
                title: "Extras".to_string(),
                items: vec![AnthologyItem::Topic { topic: bonus }],
            }),
            AnthologyChild::Item(AnthologyItem::Book { book: spec }),
            AnthologyChild::Item(AnthologyItem::Anthology { anthology: inner }),
        ],
    );
    let mut loose = topic_of("/alpha/loose", 5, &[("x1", 1), ("x2", 2), ("a1", 3), ("pic", 20)]);
    if let TopicChild::Article { article } = &mut loose.children[3] {
        article.related = Vec::new();
    }
    if let TopicChild::Article { article } = &mut loose.children[1] {
        article.updated = Some("2026-03-15".to_string());
    }
    loose.links = vec![stub("alias", 4, "Alias", "~alpha/a2")];
    let kit = titled_anthology("/alpha/kit", 1, "Kit Docs", "anthology description", Vec::new());
    let spare = topic_of("/alpha/spare", 2, &[("z1", 1)]);
    let guide = titled_book("/alpha/field-guide", 3, "Field Guide", "book description",
        vec![ba(numbered("/alpha/field-guide/notes", 1, "1"))]);
    let mut intro = numbered("/alpha/manual/intro", 1, "1");
    intro.reading_minutes = 30;
    intro.updated = Some("2026-05-01".to_string());
    let advanced = numbered_chapter(
        "/alpha/manual/setup/advanced",
        2,
        "2.2",
        vec![ba(numbered("/alpha/manual/setup/advanced/tuning", 1, "2.2.1"))],
    );
    let setup = numbered_chapter(
        "/alpha/manual/setup",
        2,
        "2",
        vec![
            ba(numbered("/alpha/manual/setup/install", 1, "2.1")),
            BookChild::Chapter { chapter: advanced },
            ba(appendix(numbered("/alpha/manual/setup/sidenotes", 1, "2.A"))),
        ],
    );
    let mut tables = numbered_chapter(
        "/alpha/manual/appendix",
        3,
        "3",
        vec![ba(numbered("/alpha/manual/appendix/tables", 1, "3.1"))],
    );
    tables.title = "Appendix A".to_string();
    let mut history = numbered_chapter(
        "/alpha/manual/history",
        2,
        "B",
        vec![ba(numbered("/alpha/manual/history/old", 1, "B.1"))],
    );
    history.appendix = true;
    let mut manual = book(
        "/alpha/manual",
        7,
        vec![
            ba(intro),
            BookChild::Chapter { chapter: setup },
            BookChild::Chapter { chapter: tables },
            ba(appendix(numbered("/alpha/manual/glossary", 1, "A"))),
            BookChild::Chapter { chapter: history },
        ],
    );
    manual.title = "Alpha Manual".to_string();
    manual.description = "book description".to_string();
    manual.short = Some("AM".to_string());
    manual.inline_refs = vec!["Alpha Manual".to_string()];
    let zulu = titled_anthology("/alpha/zulu", 10, "Zulu Docs", "anthology description", Vec::new());
    product(
        "alpha",
        "Alpha",
        vec![
            ProductChild::Item(ProductItem::Anthology { anthology: acorn }),
            ProductChild::Item(ProductItem::Topic { topic: loose }),
            ProductChild::Shelf(Shelf {
                slug: "tools".to_string(),
                order: 6,
                title: "Tools".to_string(),
                items: vec![
                    ProductItem::Anthology { anthology: kit },
                    ProductItem::Topic { topic: spare },
                    ProductItem::Book { book: guide },
                ],
            }),
            ProductChild::Item(ProductItem::Book { book: manual }),
            ProductChild::Item(ProductItem::Anthology { anthology: zulu }),
        ],
    )
}

fn loaded(featured: &[&str]) -> Site {
    let beta = product("beta", "Beta", vec![]);
    finish_site(config(featured), vec![alpha(), beta], Vec::new(), None, None, None, String::new()).ok().unwrap()
}

fn find_product<'a>(site: &'a Site, slug: &str) -> &'a Product {
    site.products.iter().find(|p| p.slug == slug).unwrap()
}

fn anthologies(p: &Product) -> Vec<&Anthology> {
    p.items()
        .into_iter()
        .filter_map(|item| match item {
            ProductItem::Anthology { anthology } => Some(anthology),
            _ => None,
        })
        .collect()
}

fn acorn(site: &Site) -> &Anthology {
    anthologies(find_product(site, "alpha")).into_iter().find(|d| d.slug == "acorn").unwrap()
}

fn loose(p: &Product) -> &Topic {
    p.items()
        .into_iter()
        .find_map(|item| match item {
            ProductItem::Topic { topic } if topic.slug == "loose" => Some(topic),
            _ => None,
        })
        .unwrap()
}

fn manual(p: &Product) -> &Book {
    p.items()
        .into_iter()
        .find_map(|item| match item {
            ProductItem::Book { book } if book.slug == "manual" => Some(book),
            _ => None,
        })
        .unwrap()
}

#[test]
fn loads_and_orders_products_featured_first_then_by_title() {
    let site = loaded(&["beta"]);
    let slugs: Vec<_> = site.products.iter().map(|p| p.slug.as_str()).collect();
    assert_eq!(slugs, ["beta", "alpha"]);
    let featured: Vec<_> = site.featured().iter().map(|p| p.slug.as_str()).collect();
    assert_eq!(featured, ["beta"]);
}

#[test]
fn unknown_featured_products_are_errors() {
    let r = finish_site(config(&["ghost"]), vec![alpha()], Vec::new(), None, None, None, String::new());
    let err = r.err().unwrap();
    assert!(err.contains("ghost"), "{err}");
}

#[test]
fn flattens_shelf_items_into_display_order() {
    let site = loaded(&["beta"]);
    let items: Vec<_> = find_product(&site, "alpha").items().into_iter().map(|i| i.slug()).collect();
    assert_eq!(items, ["acorn", "loose", "kit", "spare", "field-guide", "manual", "zulu"]);
}

#[test]
fn sections_coalesce_loose_runs_and_title_shelves() {
    let site = loaded(&["beta"]);
    let alpha = find_product(&site, "alpha");
    let sections = alpha.sections();
    assert_eq!(sections.len(), 3);
    assert_eq!(sections[0].title, None);
    assert_eq!(sections[0].items.iter().map(|i| i.slug()).collect::<Vec<_>>(), ["acorn", "loose"]);
    assert_eq!(sections[1].title, Some("Tools"));
    assert_eq!(sections[1].items.iter().map(|i| i.slug()).collect::<Vec<_>>(), ["kit", "spare", "field-guide"]);
    assert_eq!(sections[2].title, None);
    assert_eq!(sections[2].items.iter().map(|i| i.slug()).collect::<Vec<_>>(), ["manual", "zulu"]);

    let acorn = acorn(&site);
    let sections = acorn.sections();
    assert_eq!(sections.len(), 3);
    assert_eq!(sections[1].title, Some("Extras"));
    assert_eq!(sections[2].items.iter().map(|i| i.slug()).collect::<Vec<_>>(), ["spec", "inner"]);
}

#[test]
fn book_articles_walk_in_reading_order_with_chapter_trails() {
    let site = loaded(&["beta"]);
    let manual = manual(find_product(&site, "alpha"));
    let walked: Vec<_> = manual
        .articles()
        .into_iter()
        .map(|(trail, article)| {
            let trail: Vec<_> = trail.iter().map(|c| c.slug.as_str()).collect();
            (trail, article.slug.as_str())
        })
        .collect();
    assert_eq!(
        walked,
        [
            (vec![], "intro"),
            (vec!["setup"], "install"),
            (vec!["setup", "advanced"], "tuning"),
            (vec!["setup"], "sidenotes"),
            (vec!["appendix"], "tables"),
            (vec![], "glossary"),
            (vec!["history"], "old"),
        ]
    );
}

#[test]
fn links_alias_articles_into_other_locations() {
    let site = loaded(&["beta"]);
    let loose = loose(find_product(&site, "alpha"));
    let pages: Vec<_> = loose.pages().into_iter().map(|a| a.slug.as_str()).collect();
    assert_eq!(pages, ["x1", "x2", "a1", "alias", "pic"]);
    let alias = loose.pages().into_iter().find(|a| a.slug == "alias").unwrap();
    assert_eq!(alias.path, "/alpha/loose/alias");
    assert_eq!(alias.title, "Alias", "derived from the link slug");
    assert_eq!(alias.original.as_deref(), Some("/alpha/acorn/wide/a2"));
    assert!(alias.body.contains("Body of a2."));
    assert_eq!(alias.number, None);

    let narrow = acorn(&site).topics().into_iter().find(|t| t.slug == "narrow").unwrap();
    let linked = narrow.pages().into_iter().find(|a| a.slug == "linked").unwrap();
    assert_eq!(linked.title, "Linked X1");
    assert_eq!(linked.path, "/alpha/acorn/narrow/extra/linked");
    assert_eq!(linked.original.as_deref(), Some("/alpha/loose/x1"));
}

#[test]
fn reading_times_and_dates_roll_up_the_tree() {
    let site = loaded(&["beta"]);
    let alpha = find_product(&site, "alpha");
    let loose = loose(alpha);
    assert!(loose.pages().into_iter().all(|article| article.reading_minutes >= 1));
    let manual = manual(alpha);
    let intro = manual.articles().into_iter().find(|(_, article)| article.slug == "intro").unwrap().1;
    assert_eq!(intro.reading_minutes, 30);
    assert_eq!(intro.updated.as_deref(), Some("2026-05-01"));
    assert_eq!(loose.reading_minutes, loose.pages().into_iter().map(|a| a.reading_minutes).sum::<u32>());
    assert_eq!(manual.reading_minutes, manual.articles().into_iter().map(|(_, a)| a.reading_minutes).sum::<u32>());
    assert!(manual.reading_minutes >= 30);
    assert_eq!(
        alpha.reading_minutes,
        alpha
            .items()
            .into_iter()
            .map(|item| match item {
                ProductItem::Topic { topic } => topic.reading_minutes,
                ProductItem::Book { book } => book.reading_minutes,
                ProductItem::Anthology { anthology } => anthology.reading_minutes,
            })
            .sum::<u32>()
    );
    assert_eq!(loose.updated.as_deref(), Some("2026-03-15"));
    assert_eq!(manual.updated.as_deref(), Some("2026-05-01"));
    assert_eq!(alpha.updated.as_deref(), Some("2026-05-01"));
    let narrow_has_dates =
        anthologies(alpha).into_iter().flat_map(|anthology| anthology.topics()).any(|topic| topic.updated.is_some());
    assert!(!narrow_has_dates);
}

#[test]
fn unfeatured_products_follow_by_lowercased_title() {
    let site = finish_site(
        config(&["beta"]),
        vec![product("zed", "Zulu", vec![]), alpha(), product("beta", "Beta", vec![]), product("low", "aardvark", vec![])],
        Vec::new(),
        None,
        None,
        None,
        String::new(),
    )
    .ok()
    .unwrap();
    let slugs: Vec<_> = site.products.iter().map(|p| p.slug.as_str()).collect();
    assert_eq!(slugs, ["beta", "low", "alpha", "zed"]);
}

#[test]
fn favicon_is_served_under_its_own_file_name() {
    let mut site = loaded(&[]);
    assert_eq!(site.favicon_href(), None);
    site.favicon = Some("/site/img/fav.png".to_string());
    assert_eq!(site.favicon_href(), Some("/fav.png".to_string()));
    site.favicon = Some("x/y/".to_string());
    assert_eq!(site.favicon_href(), Some("/y".to_string()));
    site.favicon = Some("x/y/./".to_string());
    assert_eq!(site.favicon_href(), Some("/y".to_string()));
    site.favicon = Some("icon.svg".to_string());
    assert_eq!(site.favicon_href(), Some("/icon.svg".to_string()));
}
