use trail::load::{
    anthology_from, anthology_shelf_from, article_from, book_children_from, book_entry, book_from, chapter_from,
    folder_entry, folder_from, grouping_kind, grouping_title, product_from, product_shelf_from, topic_entry, topic_from,
    AnthologyConfig, ArticleFront, BookConfig, DirEntry, Grouping, ProductConfig, TitleConfig,
};
use trail::site::{
    Anthology, AnthologyChild, AnthologyItem, Article, Book, BookChild, ImageAsset, Product, ProductChild, ProductItem,
    Topic, TopicChild, TopicFolder,
};
use trail::validate::parse_grouping_name;

/// An in-memory directory tree: directories with their optional
/// `trail.toml`, markdown articles with their frontmatter, and images.
enum Node {
    Dir(&'static str, Option<Toml>, Vec<Node>),
    Md(&'static str, &'static str, Option<&'static str>),
    Img(&'static str),
}

enum Toml {
    Title(&'static str),
    Antho(&'static str),
    Book(&'static str, Option<&'static str>, &'static str),
}

fn dir(name: &'static str, toml: Option<Toml>, children: Vec<Node>) -> Node {
    Node::Dir(name, toml, children)
}

fn topic_md(stem: &'static str) -> Node {
    Node::Md(stem, "", Some("concept"))
}

fn book_md(stem: &'static str) -> Node {
    Node::Md(stem, "", None)
}

fn front(stem: &str, kind: Option<&str>) -> ArticleFront {
    let slug = stem.split_once("--").unwrap().1;
    ArticleFront {
        title: format!("Article {slug}"),
        kind: kind.map(|k| k.to_string()),
        description: Some(format!("about {slug}")),
        related: if kind.is_some() { vec!["alpha/b1".to_string(), "alpha/manual".to_string()] } else { Vec::new() },
        inline_ref: Vec::new(),
        updated: None,
        reading_minutes: None,
    }
}

fn name_of(n: &Node) -> String {
    match n {
        Node::Dir(name, _, _) => name.to_string(),
        Node::Md(stem, _, _) => format!("{stem}.md"),
        Node::Img(name) => name.to_string(),
    }
}

fn sorted(children: &[Node]) -> Vec<&Node> {
    let mut v: Vec<&Node> = children.iter().collect();
    v.sort_by_key(|n| name_of(n));
    v
}

fn title_config(toml: &Option<Toml>) -> Option<TitleConfig> {
    match toml {
        Some(Toml::Title(t)) => Some(TitleConfig { title: Some(t.to_string()), inline_ref: Vec::new() }),
        _ => None,
    }
}

fn article(n: &Node, source_dir: &str, parent: &str, prefix: Option<&str>) -> Article {
    let Node::Md(stem, _, kind) = n else { panic!("not an article") };
    let fm = front(stem, *kind);
    article_from(stem, parent, prefix, Ok(fm), format!("Body of {stem}.\n"), source_dir.to_string(), format!("{source_dir}/{stem}.md"))
        .unwrap()
}

fn load_topic(src: &str, n: &Node, parent: &str, images: &mut Vec<ImageAsset>) -> Topic {
    let Node::Dir(name, toml, children) = n else { panic!("not a directory") };
    let g = parse_grouping_name(name).unwrap();
    let (title, refs) = grouping_title(title_config(toml), &g.slug);
    let path = format!("{parent}/{}", g.slug);
    let here = format!("{src}/{name}");
    let mut kids = Vec::new();
    for c in sorted(children) {
        match topic_entry(&name_of(c), matches!(c, Node::Dir(..)), format!("{here}/{}", name_of(c)), &path).unwrap() {
            DirEntry::Folder { order, slug } => kids.push(TopicChild::Folder { folder: load_folder(&here, c, order, slug, &path, images) }),
            DirEntry::Image(a) => images.push(a),
            DirEntry::Article { .. } => kids.push(TopicChild::Article { article: article(c, &here, &path, None) }),
            _ => {}
        }
    }
    topic_from(g, title, refs, parent, kids, Vec::new()).unwrap()
}

fn load_folder(src: &str, n: &Node, order: u32, slug: String, parent: &str, images: &mut Vec<ImageAsset>) -> TopicFolder {
    let Node::Dir(name, toml, children) = n else { panic!("not a directory") };
    let (title, refs) = grouping_title(title_config(toml), &slug);
    let path = format!("{parent}/{slug}");
    let here = format!("{src}/{name}");
    let mut articles = Vec::new();
    for c in sorted(children) {
        match folder_entry(&name_of(c), matches!(c, Node::Dir(..)), format!("{here}/{}", name_of(c)), &path).unwrap() {
            DirEntry::Image(a) => images.push(a),
            DirEntry::Article { .. } => articles.push(article(c, &here, &path, None)),
            _ => {}
        }
    }
    folder_from(order, slug, title, refs, parent, articles, Vec::new()).unwrap()
}

fn load_book_children(src: &str, children: &[Node], parent: &str, prefix: &str, images: &mut Vec<ImageAsset>) -> Vec<BookChild> {
    let mut kids = Vec::new();
    for c in sorted(children) {
        match book_entry(&name_of(c), matches!(c, Node::Dir(..)), format!("{src}/{}", name_of(c)), parent, prefix, "a book").unwrap() {
            DirEntry::Chapter { order, appendix, slug, number } => {
                let Node::Dir(name, toml, grand) = c else { panic!("not a directory") };
                let (title, refs) = grouping_title(title_config(toml), &slug);
                let path = format!("{parent}/{slug}");
                let sub = load_book_children(&format!("{src}/{name}"), grand, &path, &format!("{number}."), images);
                let chapter = chapter_from(order, appendix, slug, parent, number, title, refs, sub, Vec::new()).unwrap();
                kids.push(BookChild::Chapter { chapter });
            },
            DirEntry::Image(a) => images.push(a),
            DirEntry::Article { .. } => kids.push(BookChild::Article { article: article(c, src, parent, Some(prefix)) }),
            _ => {}
        }
    }
    book_children_from(kids).unwrap()
}

fn load_book(src: &str, n: &Node, parent: &str, images: &mut Vec<ImageAsset>) -> Book {
    let Node::Dir(name, toml, children) = n else { panic!("not a directory") };
    let g = parse_grouping_name(name).unwrap();
    let Some(Toml::Book(title, short, description)) = toml else { panic!("a book needs its trail.toml") };
    let config = BookConfig {
        title: title.to_string(),
        short: short.map(|s| s.to_string()),
        description: description.to_string(),
        inline_ref: Vec::new(),
    };
    let path = format!("{parent}/{}", g.slug);
    let kids = load_book_children(&format!("{src}/{name}"), children, &path, "", images);
    book_from(g, config, parent, kids, Vec::new())
}

fn load_item(src: &str, n: &Node, kind: Grouping, parent: &str, images: &mut Vec<ImageAsset>) -> AnthologyItem {
    match kind {
        Grouping::Topic => AnthologyItem::Topic { topic: load_topic(src, n, parent, images) },
        Grouping::Book => AnthologyItem::Book { book: load_book(src, n, parent, images) },
        Grouping::Anthology => AnthologyItem::Anthology { anthology: load_anthology(src, n, parent, images) },
        Grouping::Shelf => panic!("a shelf cannot hold a shelf"),
    }
}

fn product_item(i: AnthologyItem) -> ProductItem {
    match i {
        AnthologyItem::Topic { topic } => ProductItem::Topic { topic },
        AnthologyItem::Book { book } => ProductItem::Book { book },
        AnthologyItem::Anthology { anthology } => ProductItem::Anthology { anthology },
    }
}

fn load_anthology(src: &str, n: &Node, parent: &str, images: &mut Vec<ImageAsset>) -> Anthology {
    let Node::Dir(name, toml, children) = n else { panic!("not a directory") };
    let g = parse_grouping_name(name).unwrap();
    let title = match toml {
        Some(Toml::Antho(t)) => t.to_string(),
        _ => panic!("an anthology needs its trail.toml"),
    };
    let config = AnthologyConfig { title, description: "anthology description".to_string(), inline_ref: Vec::new() };
    let path = format!("{parent}/{}", g.slug);
    let here = format!("{src}/{name}");
    let mut kids = Vec::new();
    for c in sorted(children) {
        let cname = name_of(c);
        let cg = parse_grouping_name(&cname).unwrap();
        let kind = grouping_kind(&cg.kind, &cname, false, "an anthology", ".antho, .topic, .book or .shelf").unwrap();
        if let Grouping::Shelf = kind {
            let Node::Dir(_, stoml, items) = c else { panic!("not a directory") };
            let (title, _) = grouping_title(title_config(stoml), &cg.slug);
            let mut v = Vec::new();
            for i in sorted(items) {
                let iname = name_of(i);
                let ig = parse_grouping_name(&iname).unwrap();
                let k = grouping_kind(&ig.kind, &iname, true, "an anthology's shelf", ".antho, .topic or .book").unwrap();
                v.push(load_item(&format!("{here}/{cname}"), i, k, &path, images));
            }
            kids.push(AnthologyChild::Shelf(anthology_shelf_from(cg, title, v).unwrap()));
        } else {
            kids.push(AnthologyChild::Item(load_item(&here, c, kind, &path, images)));
        }
    }
    anthology_from(g, config, parent, kids).unwrap()
}

fn load_product(slug: &str, children: &[Node], images: &mut Vec<ImageAsset>) -> Product {
    let here = format!("{slug}.product");
    let path = format!("/{slug}");
    let config = ProductConfig {
        title: "Alpha".to_string(),
        monogram: "Xx".to_string(),
        color: "#3b82f6".to_string(),
        description: "a description".to_string(),
        inline_ref: Vec::new(),
    };
    let mut kids = Vec::new();
    for c in sorted(children) {
        let cname = name_of(c);
        let cg = parse_grouping_name(&cname).unwrap();
        let kind = grouping_kind(&cg.kind, &cname, false, "a product", ".antho, .book, .topic or .shelf").unwrap();
        if let Grouping::Shelf = kind {
            let Node::Dir(_, stoml, items) = c else { panic!("not a directory") };
            let (title, _) = grouping_title(title_config(stoml), &cg.slug);
            let mut v = Vec::new();
            for i in sorted(items) {
                let iname = name_of(i);
                let ig = parse_grouping_name(&iname).unwrap();
                let k = grouping_kind(&ig.kind, &iname, true, "a shelf", ".antho, .book or .topic").unwrap();
                v.push(product_item(load_item(&format!("{here}/{cname}"), i, k, &path, images)));
            }
            kids.push(ProductChild::Shelf(product_shelf_from(cg, title, v).unwrap()));
        } else {
            kids.push(ProductChild::Item(product_item(load_item(&here, c, kind, &path, images))));
        }
    }
    product_from(slug, config, kids).unwrap()
}

/// The alpha product of the fixture site, as far as these tests reach.
fn alpha_tree() -> Vec<Node> {
    vec![
        dir("2--acorn.antho", Some(Toml::Antho("Acorn Docs")), vec![
            dir("100--wide.topic", Some(Toml::Title("Wide Topic")), vec![
                topic_md("1--a1"), topic_md("2--a2"), topic_md("3--a3"), topic_md("4--a4"), topic_md("12--a5"),
            ]),
            dir("200--narrow.topic", None, vec![
                topic_md("1--b1"),
                topic_md("2--b2"),
                dir("5--extra", None, vec![topic_md("1--c1")]),
            ]),
            dir("300--extras.shelf", None, vec![dir("10--bonus.topic", None, vec![topic_md("1--y1")])]),
            dir("400--spec.book", Some(Toml::Book("Spec", None, "spec description")), vec![book_md("1--rules")]),
            dir("500--inner.antho", Some(Toml::Antho("Inner Docs")), vec![
                dir("1--deep.topic", None, vec![topic_md("1--d1")]),
            ]),
        ]),
        dir("5--loose.topic", None, vec![
            topic_md("1--x1"),
            topic_md("2--x2"),
            topic_md("3--a1"),
            topic_md("4--pic"),
            Node::Img("wiring.png"),
            Node::Img("glyph.svg"),
            dir("9--hollow", None, vec![]),
        ]),
        dir("6--tools.shelf", Some(Toml::Title("Tools")), vec![
            dir("1--kit.antho", Some(Toml::Antho("Kit Docs")), vec![]),
            dir("2--spare.topic", None, vec![topic_md("1--z1")]),
            dir("3--field-guide.book", Some(Toml::Book("Field Guide", None, "guide description")), vec![book_md("1--start")]),
        ]),
        dir("7--manual.book", Some(Toml::Book("Alpha Manual", Some("AM"), "book description")), vec![
            book_md("1--intro"),
            Node::Img("layout.png"),
            dir("2--setup", None, vec![
                book_md("1--install"),
                dir("2--advanced", None, vec![book_md("1--tuning")]),
                book_md("a1--sidenotes"),
            ]),
            dir("3--appendix", Some(Toml::Title("Appendix A")), vec![book_md("1--faq")]),
            book_md("a1--glossary"),
            dir("a2--history", None, vec![book_md("1--old")]),
        ]),
    ]
}

fn alpha(images: &mut Vec<ImageAsset>) -> Product {
    load_product("alpha", &alpha_tree(), images)
}

fn anthologies(p: &Product) -> Vec<&Anthology> {
    p.items().into_iter().filter_map(|i| match i {
        ProductItem::Anthology { anthology } => Some(anthology),
        _ => None,
    }).collect()
}

fn topic<'a>(p: &'a Product, slug: &str) -> &'a Topic {
    p.items().into_iter().find_map(|i| match i {
        ProductItem::Topic { topic } if topic.slug == slug => Some(topic),
        _ => None,
    }).unwrap()
}

fn acorn(p: &Product) -> &Anthology {
    anthologies(p).into_iter().find(|a| a.slug == "acorn").unwrap()
}

fn acorn_topics(a: &Anthology) -> Vec<&Topic> {
    a.items().into_iter().filter_map(|i| match i {
        AnthologyItem::Topic { topic } => Some(topic),
        _ => None,
    }).collect()
}

#[test]
fn shelves_are_invisible_in_urls() {
    let mut images = Vec::new();
    let alpha = alpha(&mut images);
    assert_eq!(alpha.path, "/alpha");
    let kit = anthologies(&alpha).into_iter().find(|d| d.slug == "kit").unwrap();
    assert_eq!(kit.path, "/alpha/kit");
    let acorn = acorn(&alpha);
    assert_eq!(acorn.path, "/alpha/acorn");
    assert_eq!(acorn_topics(acorn)[0].path, "/alpha/acorn/wide");
    let bonus = acorn_topics(acorn).into_iter().find(|t| t.slug == "bonus").unwrap();
    assert_eq!(bonus.pages()[0].path, "/alpha/acorn/bonus/y1");
    let spare = topic(&alpha, "spare");
    assert_eq!(spare.pages()[0].path, "/alpha/spare/z1");
}

#[test]
fn loads_topics_and_articles_with_frontmatter() {
    let mut images = Vec::new();
    let alpha = alpha(&mut images);
    let acorn = acorn(&alpha);
    let topics: Vec<_> = acorn_topics(acorn).iter().map(|t| t.slug.as_str()).collect();
    assert_eq!(topics, ["wide", "narrow", "bonus"]);

    let wide = acorn_topics(acorn)[0];
    assert_eq!(wide.title, "Wide Topic", "trail.toml overrides the title");
    let narrow = acorn_topics(acorn).into_iter().find(|t| t.slug == "narrow").unwrap();
    assert_eq!(narrow.title, "Narrow", "derived from the slug");
    let articles: Vec<_> = wide.pages().iter().map(|a| a.slug.as_str()).collect();
    assert_eq!(articles, ["a1", "a2", "a3", "a4", "a5"]);
    let a1 = wide.pages()[0];
    assert_eq!(a1.title, "Article a1");
    assert_eq!(a1.kind.as_deref(), Some("concept"));
    assert_eq!(a1.number, None, "only book articles are numbered");
    assert_eq!(a1.related, ["alpha/b1", "alpha/manual"]);
}

#[test]
fn images_are_collected_with_published_urls() {
    let mut images = Vec::new();
    let alpha = alpha(&mut images);
    let urls: Vec<_> = images.iter().map(|i| i.url.as_str()).collect();
    assert!(urls.contains(&"/alpha/loose/wiring.png"));
    assert!(urls.contains(&"/alpha/loose/glyph.svg"));
    assert!(urls.contains(&"/alpha/manual/layout.png"));
    let wiring = images.iter().find(|i| i.url == "/alpha/loose/wiring.png").unwrap();
    assert!(wiring.source.ends_with("5--loose.topic/wiring.png"));

    let pic = topic(&alpha, "loose").pages().into_iter().find(|a| a.slug == "pic").unwrap();
    assert!(pic.source_dir.ends_with("alpha.product/5--loose.topic"));
}

#[test]
fn loads_topic_subfolders_with_their_own_url_segment() {
    let mut images = Vec::new();
    let alpha = alpha(&mut images);
    let narrow = acorn_topics(acorn(&alpha)).into_iter().find(|t| t.slug == "narrow").unwrap();
    let kinds: Vec<_> = narrow
        .children
        .iter()
        .map(|child| match child {
            TopicChild::Article { article } => ("article", article.slug.as_str()),
            TopicChild::Folder { folder } => ("folder", folder.slug.as_str()),
        })
        .collect();
    assert_eq!(kinds, [("article", "b1"), ("article", "b2"), ("folder", "extra")]);

    let TopicChild::Folder { folder } = &narrow.children[2] else {
        panic!("expected the extra folder");
    };
    assert_eq!(folder.title, "Extra", "derived from the slug");
    assert_eq!(folder.entry.as_deref(), Some("/alpha/acorn/narrow/extra/c1"));
    assert_eq!(folder.articles[0].path, "/alpha/acorn/narrow/extra/c1");

    let pages: Vec<_> = narrow.pages().iter().map(|a| a.slug.as_str()).collect();
    assert_eq!(pages, ["b1", "b2", "c1"]);
    assert_eq!(narrow.entry(), Some("/alpha/acorn/narrow/b1"));

    let loose = topic(&alpha, "loose");
    let TopicChild::Folder { folder } = loose.children.iter().find(|c| c.slug() == "hollow").unwrap() else {
        panic!("expected the hollow folder");
    };
    assert_eq!(folder.entry, None);
    assert_eq!(folder.title, "Hollow");
}

#[test]
fn loads_books_with_interleaved_articles_and_chapters() {
    let mut images = Vec::new();
    let alpha = alpha(&mut images);
    let manual = alpha.items().into_iter().find_map(|i| match i {
        ProductItem::Book { book } if book.slug == "manual" => Some(book),
        _ => None,
    }).unwrap();
    assert_eq!(manual.path, "/alpha/manual");
    assert_eq!(manual.title, "Alpha Manual");
    assert_eq!(manual.short.as_deref(), Some("AM"));
    assert_eq!(manual.description, "book description");

    let kinds: Vec<_> = manual
        .children
        .iter()
        .map(|child| match child {
            BookChild::Article { article } => ("article", article.slug.as_str()),
            BookChild::Chapter { chapter } => ("chapter", chapter.slug.as_str()),
        })
        .collect();
    assert_eq!(
        kinds,
        [("article", "intro"), ("chapter", "setup"), ("chapter", "appendix"), ("article", "glossary"), ("chapter", "history")]
    );

    let BookChild::Article { article: intro } = &manual.children[0] else {
        panic!("expected the intro article");
    };
    assert_eq!(intro.number.as_deref(), Some("1"));
    let BookChild::Chapter { chapter: setup } = &manual.children[1] else {
        panic!("expected the setup chapter");
    };
    assert_eq!(setup.title, "Setup", "derived from the slug");
    assert_eq!(setup.entry, "/alpha/manual/setup/install");
    assert_eq!(setup.number, "2");
    let BookChild::Chapter { chapter: advanced } = &setup.children[1] else {
        panic!("expected the nested advanced chapter");
    };
    assert_eq!(advanced.entry, "/alpha/manual/setup/advanced/tuning");
    assert_eq!(advanced.number, "2.2");
    let BookChild::Article { article: tuning } = &advanced.children[0] else {
        panic!("expected the tuning article");
    };
    assert_eq!(tuning.number.as_deref(), Some("2.2.1"));
    let BookChild::Chapter { chapter: appendix } = &manual.children[2] else {
        panic!("expected the appendix chapter");
    };
    assert_eq!(appendix.title, "Appendix A", "trail.toml overrides the title");

    let BookChild::Article { article: glossary } = &manual.children[3] else {
        panic!("expected the glossary appendix");
    };
    assert_eq!(glossary.number.as_deref(), Some("A"));
    let BookChild::Article { article: sidenotes } = setup.children.last().unwrap() else {
        panic!("expected the sidenotes appendix");
    };
    assert_eq!(sidenotes.number.as_deref(), Some("2.A"));
    assert!(sidenotes.appendix);
    let BookChild::Chapter { chapter: history } = &manual.children[4] else {
        panic!("expected the history appendix chapter");
    };
    assert_eq!(history.number, "B");
    let BookChild::Article { article: old } = &history.children[0] else {
        panic!("expected the old article");
    };
    assert_eq!(old.number.as_deref(), Some("B.1"));

    let guide = alpha.items().into_iter().find_map(|i| match i {
        ProductItem::Book { book } if book.slug == "field-guide" => Some(book),
        _ => None,
    }).unwrap();
    assert_eq!(guide.short, None, "short is optional");
    assert_eq!(guide.path, "/alpha/field-guide", "shelves stay invisible");
}

#[test]
fn loads_books_and_nested_anthologies_inside_anthologies() {
    let mut images = Vec::new();
    let alpha = alpha(&mut images);
    let acorn = acorn(&alpha);
    let items: Vec<_> = acorn.items().iter().map(|i| i.slug()).collect();
    assert_eq!(items, ["wide", "narrow", "bonus", "spec", "inner"]);
    let spec = acorn.items().into_iter().find_map(|i| match i {
        AnthologyItem::Book { book } => Some(book),
        _ => None,
    }).unwrap();
    assert_eq!(spec.path, "/alpha/acorn/spec");
    let BookChild::Article { article: rules } = &spec.children[0] else {
        panic!("expected the rules article");
    };
    assert_eq!(rules.path, "/alpha/acorn/spec/rules");
    assert_eq!(rules.kind, None, "book frontmatter is title-only");
    let inner = acorn.items().into_iter().find_map(|i| match i {
        AnthologyItem::Anthology { anthology } => Some(anthology),
        _ => None,
    }).unwrap();
    assert_eq!(inner.path, "/alpha/acorn/inner");
    let deep = acorn_topics(inner)[0];
    assert_eq!(deep.pages()[0].path, "/alpha/acorn/inner/deep/d1");
}

#[test]
fn topic_and_book_articles_carry_their_kind_as_their_place_demands() {
    let book_with_type = article_from("1--x", "/p/b", Some(""), Ok(front("1--x", Some("concept"))), String::new(), String::new(), String::new());
    assert!(book_with_type.err().unwrap().contains("a book article takes no 'type'"));
    let topic_without_type = article_from("1--x", "/p/t", None, Ok(front("1--x", None)), String::new(), String::new(), String::new());
    assert!(topic_without_type.err().unwrap().contains("missing field 'type'"));
}

#[test]
fn loader_refusals_name_what_is_wrong() {
    let keep: Vec<String> = Vec::new();
    let stray = trail::load::root_entry("stray.txt", false, false, &keep).err().unwrap();
    assert_eq!(stray, "unexpected file 'stray.txt' in site root: only trail.toml is allowed");
    let reserved = trail::load::root_entry("assets.product", true, false, &keep).err().unwrap();
    assert!(reserved.contains("'assets' is a reserved product slug"));
    let typed = match topic_entry("6--bad.shelf", true, String::new(), "/p/t") {
        Err(m) => m,
        Ok(_) => panic!("a typed subfolder is refused"),
    };
    assert_eq!(typed, "unexpected grouping type '.shelf' on '6--bad.shelf' in a topic: subfolders are plain '<order>--<slug>' directories");
    let unsuffixed = parse_grouping_name("3--plain").err().unwrap();
    assert!(unsuffixed.contains("has no type suffix"));
}

#[test]
fn duplicate_groupings_are_reported_by_order_then_slug() {
    let mut images = Vec::new();
    let config = || ProductConfig {
        title: "Alpha".to_string(),
        monogram: "Xx".to_string(),
        color: "#3b82f6".to_string(),
        description: "a description".to_string(),
        inline_ref: Vec::new(),
    };
    let acorn = dir("2--acorn.antho", Some(Toml::Antho("Acorn")), vec![]);
    let other = dir("2--other.topic", None, vec![topic_md("1--q")]);
    let kids = vec![
        ProductChild::Item(product_item(load_item("alpha.product", &acorn, Grouping::Anthology, "/alpha", &mut images))),
        ProductChild::Item(product_item(load_item("alpha.product", &other, Grouping::Topic, "/alpha", &mut images))),
    ];
    let err = product_from("alpha", config(), kids).err().unwrap();
    assert_eq!(err, "groupings 'acorn' and 'other' share order 2");

    let first = dir("2--acorn.antho", Some(Toml::Antho("Acorn")), vec![]);
    let shelf = dir("3--more.shelf", None, vec![dir("1--acorn.topic", None, vec![topic_md("1--q")])]);
    let Node::Dir(_, _, items) = &shelf else { panic!("a directory") };
    let shelved = vec![product_item(load_item("alpha.product/3--more.shelf", &items[0], Grouping::Topic, "/alpha", &mut images))];
    let kids = vec![
        ProductChild::Item(product_item(load_item("alpha.product", &first, Grouping::Anthology, "/alpha", &mut images))),
        ProductChild::Shelf(product_shelf_from(parse_grouping_name("3--more.shelf").unwrap(), "More".to_string(), shelved).unwrap()),
    ];
    let err = product_from("alpha", config(), kids).err().unwrap();
    assert!(err.contains("duplicate grouping slug 'acorn'"));
}
