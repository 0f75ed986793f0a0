use trail::export::{
    article_markdown, book_mirror, bundle_anchors, bundle_markdown, book_unit, llms_txt, mirror_path, page_paths,
    print_anchor, product_mirror, product_unit, push_related_footer, robots_txt, sitemap_xml,
};
use trail::json::{related_pages, site_json, Json};
use trail::links::LinkIndex;
use trail::site::{
    Article, Book, BookChild, Chapter, Product, ProductChild, ProductItem, Site, SiteConfig, Topic, TopicChild,
};

fn article(path: &str, title: &str, order: u32) -> Article {
    let slug = path.rsplit('/').next().unwrap().to_string();
    Article {
        slug,
        path: path.to_string(),
        order,
        title: title.to_string(),
        number: None,
        appendix: false,
        kind: Some("concept".to_string()),
        description: Some(format!("about {title}")),
        related: Vec::new(),
        inline_refs: Vec::new(),
        updated: None,
        reading_minutes: 1,
        original: None,
        body: format!("Body of {title}.\n"),
        source_dir: String::new(),
        source_file: String::new(),
    }
}

fn numbered(path: &str, title: &str, order: u32, number: &str) -> Article {
    let mut a = article(path, title, order);
    a.number = Some(number.to_string());
    a.kind = None;
    a.description = None;
    a
}

fn site(url: Option<&str>) -> Site {
    let mut x2 = article("/alpha/loose/x2", "X Two", 2);
    x2.updated = Some("2026-03-15".to_string());
    x2.related = vec!["alpha/manual".to_string(), "alpha/nowhere".to_string()];
    let mut alias = article("/alpha/loose/alias", "X Two", 3);
    alias.original = Some("/alpha/loose/x2".to_string());
    let loose = Topic {
        slug: "loose".to_string(),
        path: "/alpha/loose".to_string(),
        order: 1,
        title: "Loose".to_string(),
        reading_minutes: 3,
        updated: Some("2026-03-15".to_string()),
        inline_refs: Vec::new(),
        children: vec![
            TopicChild::Article { article: article("/alpha/loose/x1", "X One", 1) },
            TopicChild::Article { article: x2 },
            TopicChild::Article { article: alias },
        ],
        links: Vec::new(),
    };
    let mut glossary = numbered("/alpha/manual/glossary", "Glossary", 1, "A");
    glossary.appendix = true;
    let setup = Chapter {
        slug: "setup".to_string(),
        path: "/alpha/manual/setup".to_string(),
        order: 2,
        number: "2".to_string(),
        appendix: false,
        title: "Setup".to_string(),
        entry: "/alpha/manual/setup/install".to_string(),
        reading_minutes: 1,
        updated: None,
        inline_refs: Vec::new(),
        children: vec![BookChild::Article { article: numbered("/alpha/manual/setup/install", "Install", 1, "2.1") }],
        links: Vec::new(),
    };
    let manual = Book {
        slug: "manual".to_string(),
        path: "/alpha/manual".to_string(),
        order: 7,
        title: "Alpha Manual".to_string(),
        short: Some("AM".to_string()),
        description: "book description".to_string(),
        reading_minutes: 3,
        updated: Some("2026-05-01".to_string()),
        inline_refs: vec!["Alpha Manual".to_string()],
        children: vec![
            BookChild::Article { article: numbered("/alpha/manual/intro", "Intro", 1, "1") },
            BookChild::Chapter { chapter: setup },
            BookChild::Article { article: glossary },
        ],
        links: Vec::new(),
    };
    let alpha = Product {
        slug: "alpha".to_string(),
        path: "/alpha".to_string(),
        title: "Alpha".to_string(),
        monogram: "A".to_string(),
        color: "#123456".to_string(),
        description: "a description".to_string(),
        reading_minutes: 6,
        updated: Some("2026-05-01".to_string()),
        inline_refs: Vec::new(),
        children: vec![
            ProductChild::Item(ProductItem::Topic { topic: loose }),
            ProductChild::Item(ProductItem::Book { book: manual }),
        ],
    };
    Site {
        config: SiteConfig {
            sitename: "Test Learn".to_string(),
            title: "Test".to_string(),
            description: "A fixture site.".to_string(),
            url: url.map(|u| u.to_string()),
            featured: Vec::new(),
            footer: String::new(),
            accent: None,
            accent_dark: None,
            custom_css: None,
            favicon: None,
            head_html: None,
            edit_url: None,
            nav: Vec::new(),
            passthrough: Vec::new(),
            product_theming: false,
            built_by_trail: true,
        },
        products: vec![alpha],
        images: Vec::new(),
        custom_css: None,
        favicon: None,
        head_html: None,
        root: String::new(),
    }
}

fn manual(site: &Site) -> &Book {
    match &site.products[0].children[1] {
        ProductChild::Item(ProductItem::Book { book }) => book,
        _ => unreachable!(),
    }
}

#[test]
fn llms_txt_lists_products_units_and_counts() {
    let llms = llms_txt(&site(None));
    assert!(llms.starts_with("# Test Learn\n\n> A fixture site.\n"));
    assert!(llms.contains("with `.md` appended"));
    assert!(llms.contains("## Alpha"));
    assert!(llms.contains("- [Alpha overview](/alpha.md): a description"));
    assert!(llms.contains("- [All Alpha docs in one file](/alpha/print.md)"));
    assert!(llms.contains("- [Loose](/alpha/loose/print.md): 3 articles"));
    assert!(llms.contains("- [Alpha Manual](/alpha/manual/print.md): book description"));
}

#[test]
fn sitemap_and_robots_follow_the_base_url() {
    let robots = robots_txt(&site(None));
    assert!(robots.contains("Allow: /"));
    assert!(!robots.contains("Sitemap:"));

    let with_url = site(Some("https://docs.example"));
    let sitemap = sitemap_xml(&with_url);
    assert!(sitemap.starts_with("<?xml version=\"1.0\" encoding=\"UTF-8\"?>\n"));
    assert!(sitemap.contains("<loc>https://docs.example/</loc><lastmod>2026-05-01</lastmod>"));
    assert!(sitemap.contains("<loc>https://docs.example/alpha/print/</loc>"));
    assert!(sitemap.contains("<loc>https://docs.example/alpha/loose/x2/</loc><lastmod>2026-03-15</lastmod>"));
    assert!(sitemap.contains("<loc>https://docs.example/alpha/manual/</loc><lastmod>2026-05-01</lastmod>"));
    assert!(sitemap.contains("<loc>https://docs.example/alpha/loose/x1/</loc></url>"));
    assert!(!sitemap.contains("/alpha/loose/alias/"));
    assert!(sitemap.ends_with("</urlset>\n"));
    let robots = robots_txt(&with_url);
    assert!(robots.contains("Sitemap: https://docs.example/sitemap.xml"));
}

#[test]
fn page_paths_start_at_the_front_page_and_skip_aliases() {
    let s = site(None);
    let paths = page_paths(&s);
    assert_eq!(paths[0], (String::new(), Some("2026-05-01".to_string())));
    let names: Vec<&str> = paths.iter().map(|(p, _)| p.as_str()).collect();
    assert_eq!(
        names,
        [
            "",
            "/alpha",
            "/alpha/print",
            "/alpha/loose/print",
            "/alpha/loose/x1",
            "/alpha/loose/x2",
            "/alpha/manual",
            "/alpha/manual/print",
            "/alpha/manual/intro",
            "/alpha/manual/setup/install",
            "/alpha/manual/glossary",
        ]
    );
}

#[test]
fn book_mirrors_list_nested_contents() {
    let s = site(None);
    let md = book_mirror(manual(&s));
    assert!(md.starts_with("# Alpha Manual (AM)\n\n> book description\n"));
    assert!(md.contains("[/alpha/manual/print.md](/alpha/manual/print.md)"));
    assert!(md.contains("Contents:\n\n- 1 [Intro](/alpha/manual/intro.md)\n"));
    assert!(md.contains("- 2 [Setup](/alpha/manual/setup/install.md)\n    - 2.1 [Install](/alpha/manual/setup/install.md)\n"));
    assert!(md.contains("- Appendix A [Glossary](/alpha/manual/glossary.md)\n"));
}

#[test]
fn product_mirrors_list_items_with_counts() {
    let s = site(None);
    let md = product_mirror(&s.products[0]);
    assert!(md.starts_with("# Alpha\n\n> a description\n"));
    assert!(md.contains("- [Loose](/alpha/loose/print.md): 3 articles\n"));
    assert!(md.contains("- [Alpha Manual](/alpha/manual.md): book description\n"));
}

#[test]
fn site_json_nests_products_items_and_articles() {
    let s = site(None);
    let links = LinkIndex::new(&s);
    let json = site_json(&s, &links);
    let Json::Obj(fields) = json else { panic!("not an object") };
    let get = |fields: &Vec<(String, Json)>, key: &str| -> Option<usize> { fields.iter().position(|(k, _)| k == key) };
    let i = get(&fields, "sitename").unwrap();
    assert!(matches!(&fields[i].1, Json::Str(v) if v == "Test Learn"));
    let i = get(&fields, "url").unwrap();
    assert!(matches!(fields[i].1, Json::Null));
    let i = get(&fields, "products").unwrap();
    let Json::Arr(products) = &fields[i].1 else { panic!() };
    let Json::Obj(alpha) = &products[0] else { panic!() };
    let i = get(alpha, "print").unwrap();
    assert!(matches!(&alpha[i].1, Json::Str(v) if v == "/alpha/print.md"));
    let i = get(alpha, "items").unwrap();
    let Json::Arr(items) = &alpha[i].1 else { panic!() };
    let Json::Obj(topic) = &items[0] else { panic!() };
    let k = get(topic, "kind").unwrap();
    assert!(matches!(&topic[k].1, Json::Str(v) if v == "topic"));
    let k = get(topic, "children").unwrap();
    let Json::Arr(children) = &topic[k].1 else { panic!() };
    let Json::Obj(x2) = &children[1] else { panic!() };
    let r = get(x2, "related").unwrap();
    let Json::Arr(related) = &x2[r].1 else { panic!() };
    assert_eq!(related.len(), 1);
    assert!(matches!(&related[0], Json::Str(v) if v == "/alpha/manual"));
    let Json::Obj(x1) = &children[0] else { panic!() };
    assert!(get(x1, "related").is_none(), "articles without related get no key");
    let Json::Obj(book) = &items[1] else { panic!() };
    let k = get(book, "children").unwrap();
    let Json::Arr(bc) = &book[k].1 else { panic!() };
    let Json::Obj(chapter) = &bc[1] else { panic!() };
    let n = get(chapter, "number").unwrap();
    assert!(matches!(&chapter[n].1, Json::Str(v) if v == "2"));
    let Json::Obj(glossary) = &bc[2] else { panic!() };
    let a = get(glossary, "appendix").unwrap();
    assert!(matches!(glossary[a].1, Json::Bool(true)));
}

#[test]
fn related_pages_keep_only_what_resolves() {
    let s = site(None);
    let links = LinkIndex::new(&s);
    let topic = match &s.products[0].children[0] {
        ProductChild::Item(ProductItem::Topic { topic }) => topic,
        _ => unreachable!(),
    };
    let TopicChild::Article { article } = &topic.children[1] else { unreachable!() };
    let related = related_pages(&links, article);
    assert_eq!(related, vec![("/alpha/manual".to_string(), "Alpha Manual".to_string())]);
    let mut footer = String::new();
    push_related_footer(&mut footer, &related);
    assert_eq!(footer, "\nRelated content:\n\n- [Alpha Manual](/alpha/manual.md)\n");
    let mut none = String::from("x");
    push_related_footer(&mut none, &Vec::new());
    assert_eq!(none, "x");
}

#[test]
fn article_markdown_frames_the_body() {
    let mut a = numbered("/alpha/manual/glossary", "Glossary", 1, "A");
    a.appendix = true;
    a.description = Some("terms".to_string());
    let crumbs = vec!["Alpha".to_string(), "Alpha Manual".to_string()];
    let md = article_markdown(&crumbs, &a, "Body.\n\n\n");
    assert_eq!(md, "# Appendix A Glossary\n\n_Alpha / Alpha Manual_\n\n> terms\n\nBody.\n");
    let plain = article("/alpha/loose/x1", "X One", 1);
    let md = article_markdown(&Vec::new(), &plain, "Text");
    assert_eq!(md, "# X One\n\n__\n\n> about X One\n\nText\n");
}

#[test]
fn bundles_join_their_articles_under_rules() {
    let s = site(None);
    let unit = book_unit(&Vec::new(), manual(&s));
    assert_eq!(unit.entries.len(), 3);
    let md = bundle_markdown(&unit, &vec!["one\n".to_string(), "two\n".to_string()]);
    assert_eq!(md, "# Alpha Manual\n\n> book description\n\n---\n\none\n\n---\n\ntwo\n");
    let anchors = bundle_anchors(&unit);
    assert_eq!(anchors[1], ("/alpha/manual/setup/install".to_string(), "setup-install".to_string()));
    let product = product_unit(&s.products[0]);
    assert_eq!(product.entries.len(), 6);
    assert_eq!(product.entries[0].0, vec!["Alpha".to_string(), "Loose".to_string()]);
}

#[test]
fn print_anchors_flatten_the_path_below_the_unit() {
    let a = article("/alpha/manual/setup/install", "Install", 1);
    assert_eq!(print_anchor("/alpha/manual", &a), "setup-install");
    assert_eq!(print_anchor("/elsewhere", &a), "install");
}

#[test]
fn mirrors_land_beside_their_pages() {
    assert_eq!(mirror_path("dist", "/alpha/acorn"), "dist/alpha/acorn.md");
    assert_eq!(mirror_path("dist/", "//x"), "dist/x.md");
    assert_eq!(mirror_path("", "/x"), "x.md");
}
