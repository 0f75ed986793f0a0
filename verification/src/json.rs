//! `site.json`: the whole site model as a JSON tree, for tools that want
//! structure rather than prose.
use vstd::prelude::*;
use crate::links::{resolution, LinkIndex, ProductIndex, Resolution};
use crate::site::{
    derefs, topic_pages, Anthology, AnthologyChild, AnthologyItem, Article, Book, BookChild, Product, ProductItem,
    Site, Topic, TopicChild, TopicFolder,
};
use crate::text::{owned, push_str};

verus! {

/// A JSON value. Objects keep their fields in the order they were
/// written; a serialiser that sorts keys sees the same object.
pub enum Json {
    Null,
    Bool(bool),
    Str(String),
    Arr(Vec<Json>),
    Obj(Vec<(String, Json)>),
}

/// A JSON value as plain values.
#[verifier::ext_equal]
pub enum JsonV {
    Null,
    Bool(bool),
    Str(Seq<char>),
    Arr(Seq<JsonV>),
    Obj(Seq<(Seq<char>, JsonV)>),
}

pub open spec fn json_view(j: Json) -> JsonV
    decreases j,
{
    match j {
        Json::Null => JsonV::Null,
        Json::Bool(b) => JsonV::Bool(b),
        Json::Str(s) => JsonV::Str(s@),
        Json::Arr(v) => JsonV::Arr(jsons_view(v@)),
        Json::Obj(v) => JsonV::Obj(fields_view(v@)),
    }
}

pub open spec fn jsons_view(s: Seq<Json>) -> Seq<JsonV>
    decreases s,
{
    if s.len() == 0 { Seq::empty() } else { jsons_view(s.drop_last()).push(json_view(s[s.len() - 1])) }
}

pub open spec fn fields_view(s: Seq<(String, Json)>) -> Seq<(Seq<char>, JsonV)>
    decreases s,
{
    if s.len() == 0 {
        Seq::empty()
    } else {
        fields_view(s.drop_last()).push((s[s.len() - 1].0@, json_view(s[s.len() - 1].1)))
    }
}

/// A string, or null where there is none.
pub open spec fn opt_str(o: Option<String>) -> JsonV {
    match o {
        Some(s) => JsonV::Str(s@),
        None => JsonV::Null,
    }
}

/// The related pages an article lists that resolve, as (path, title);
/// references that do not resolve are left out.
pub open spec fn related_of(products: Seq<ProductIndex>, refs: Seq<Seq<char>>) -> Seq<(Seq<char>, Seq<char>)>
    decreases refs.len(),
{
    if refs.len() == 0 {
        Seq::empty()
    } else {
        related_of(products, refs.drop_last()) + match resolution(products, refs.last()) {
            Resolution::Page(path, title) => seq![(path, title)],
            _ => Seq::empty(),
        }
    }
}

/// An article's `related:` references resolved to pages.
pub fn related_pages(links: &LinkIndex, article: &Article) -> (r: Vec<(String, String)>)
    ensures
        r@.map_values(|e: (String, String)| (e.0@, e.1@))
            == related_of(links.products@, article.related@.map_values(|s: String| s@)),
{
    let ghost refs = article.related@.map_values(|s: String| s@);
    let mut out: Vec<(String, String)> = Vec::new();
    for i in 0..article.related.len()
        invariant
            refs == article.related@.map_values(|s: String| s@),
            out@.map_values(|e: (String, String)| (e.0@, e.1@)) == related_of(links.products@, refs.take(i as int)),
    {
        assert(refs.take(i + 1).drop_last() =~= refs.take(i as int));
        assert(refs.take(i + 1).last() == article.related@[i as int]@);
        let ghost before = out@.map_values(|e: (String, String)| (e.0@, e.1@));
        match links.resolve_page(article.related[i].as_str()) {
            Ok(found) => {
                out.push(found);
                assert(out@.map_values(|e: (String, String)| (e.0@, e.1@)) =~= before.push((out@.last().0@, out@.last().1@)));
            },
            Err(_) => {},
        }
        assert(out@.map_values(|e: (String, String)| (e.0@, e.1@)) =~= related_of(links.products@, refs.take(i + 1)));
    }
    assert(refs.take(refs.len() as int) =~= refs);
    out
}


pub open spec fn s(text: Seq<char>) -> JsonV {
    JsonV::Str(text)
}

/// The fields present only when they say something: a number, the
/// appendix flag, an alias's original, resolved related pages.
pub open spec fn article_extras(a: Article, related: Seq<(Seq<char>, Seq<char>)>) -> Seq<(Seq<char>, JsonV)> {
    (match a.number { Some(n) => seq![("number"@, s(n@))], None => Seq::empty() })
        + (if a.appendix { seq![("appendix"@, JsonV::Bool(true))] } else { Seq::empty() })
        + (match a.original { Some(o) => seq![("original"@, s(o@))], None => Seq::empty() })
        + (if related.len() > 0 {
            seq![("related"@, JsonV::Arr(related.map_values(|e: (Seq<char>, Seq<char>)| s(e.0))))]
        } else {
            Seq::empty()
        })
}

/// An article's node.
pub open spec fn article_jv(products: Seq<ProductIndex>, a: Article) -> JsonV {
    JsonV::Obj(seq![
        ("slug"@, s(a.slug@)),
        ("path"@, s(a.path@)),
        ("md"@, s(a.path@ + ".md"@)),
        ("title"@, s(a.title@)),
        ("type"@, opt_str(a.kind)),
        ("description"@, opt_str(a.description)),
    ] + article_extras(a, related_of(products, a.related@.map_values(|x: String| x@))))
}

pub open spec fn articles_jv(products: Seq<ProductIndex>, arts: Seq<Article>) -> Seq<JsonV> {
    arts.map_values(|a: Article| article_jv(products, a))
}

pub open spec fn folder_jv(products: Seq<ProductIndex>, f: TopicFolder) -> JsonV {
    JsonV::Obj(seq![
        ("kind"@, s("folder"@)),
        ("slug"@, s(f.slug@)),
        ("path"@, s(f.path@)),
        ("title"@, s(f.title@)),
        ("articles"@, JsonV::Arr(articles_jv(products, f.articles@))),
    ])
}

pub open spec fn tchild_jv(products: Seq<ProductIndex>, c: TopicChild) -> JsonV {
    match c {
        TopicChild::Article { article } => article_jv(products, article),
        TopicChild::Folder { folder } => folder_jv(products, folder),
    }
}

/// A topic's node: its children in order, subfolders nested.
pub open spec fn topic_jv(products: Seq<ProductIndex>, t: Topic) -> JsonV {
    let pages = topic_pages(t.children@);
    JsonV::Obj(seq![
        ("kind"@, s("topic"@)),
        ("slug"@, s(t.slug@)),
        ("path"@, s(t.path@)),
        ("print"@, s(t.path@ + "/print.md"@)),
        ("title"@, s(t.title@)),
        ("entry"@, if pages.len() > 0 { s(pages[0].path@) } else { JsonV::Null }),
        ("children"@, JsonV::Arr(t.children@.map_values(|c: TopicChild| tchild_jv(products, c)))),
    ])
}

pub open spec fn bchildren_jv(products: Seq<ProductIndex>, cs: Seq<BookChild>) -> Seq<JsonV>
    decreases cs,
{
    if cs.len() == 0 {
        Seq::empty()
    } else {
        bchildren_jv(products, cs.drop_last()).push(bchild_jv(products, cs[cs.len() - 1]))
    }
}

pub open spec fn bchild_jv(products: Seq<ProductIndex>, c: BookChild) -> JsonV
    decreases c,
{
    match c {
        BookChild::Article { article } => article_jv(products, article),
        BookChild::Chapter { chapter } => JsonV::Obj(seq![
            ("kind"@, s("chapter"@)),
            ("slug"@, s(chapter.slug@)),
            ("number"@, s(chapter.number@)),
            ("title"@, s(chapter.title@)),
            ("entry"@, s(chapter.entry@)),
            ("children"@, JsonV::Arr(bchildren_jv(products, chapter.children@))),
        ] + if chapter.appendix { seq![("appendix"@, JsonV::Bool(true))] } else { Seq::empty() }),
    }
}

pub open spec fn book_jv(products: Seq<ProductIndex>, b: Book) -> JsonV {
    JsonV::Obj(seq![
        ("kind"@, s("book"@)),
        ("slug"@, s(b.slug@)),
        ("path"@, s(b.path@)),
        ("md"@, s(b.path@ + ".md"@)),
        ("print"@, s(b.path@ + "/print.md"@)),
        ("title"@, s(b.title@)),
        ("short"@, opt_str(b.short)),
        ("description"@, s(b.description@)),
        ("children"@, JsonV::Arr(bchildren_jv(products, b.children@))),
    ])
}

pub open spec fn anthology_jv(products: Seq<ProductIndex>, a: Anthology) -> JsonV
    decreases a,
{
    JsonV::Obj(seq![
        ("kind"@, s("anthology"@)),
        ("slug"@, s(a.slug@)),
        ("path"@, s(a.path@)),
        ("md"@, s(a.path@ + ".md"@)),
        ("print"@, s(a.path@ + "/print.md"@)),
        ("title"@, s(a.title@)),
        ("description"@, s(a.description@)),
        ("items"@, JsonV::Arr(achildren_jv(products, a.children@))),
    ])
}

pub open spec fn aitem_jv(products: Seq<ProductIndex>, i: AnthologyItem) -> JsonV
    decreases i,
{
    match i {
        AnthologyItem::Topic { topic } => topic_jv(products, topic),
        AnthologyItem::Book { book } => book_jv(products, book),
        AnthologyItem::Anthology { anthology } => anthology_jv(products, anthology),
    }
}

pub open spec fn aitems_jv(products: Seq<ProductIndex>, items: Seq<AnthologyItem>) -> Seq<JsonV>
    decreases items,
{
    if items.len() == 0 {
        Seq::empty()
    } else {
        aitems_jv(products, items.drop_last()).push(aitem_jv(products, items[items.len() - 1]))
    }
}

/// An anthology's items in display order, shelves flattened.
pub open spec fn achildren_jv(products: Seq<ProductIndex>, children: Seq<AnthologyChild>) -> Seq<JsonV>
    decreases children,
{
    if children.len() == 0 {
        Seq::empty()
    } else {
        achildren_jv(products, children.drop_last()) + match children[children.len() - 1] {
            AnthologyChild::Item(item) => seq![aitem_jv(products, item)],
            AnthologyChild::Shelf(shelf) => aitems_jv(products, shelf.items@),
        }
    }
}

pub open spec fn pitem_jv(products: Seq<ProductIndex>, i: ProductItem) -> JsonV {
    match i {
        ProductItem::Anthology { anthology } => anthology_jv(products, anthology),
        ProductItem::Topic { topic } => topic_jv(products, topic),
        ProductItem::Book { book } => book_jv(products, book),
    }
}

pub open spec fn product_jv(products: Seq<ProductIndex>, p: Product) -> JsonV {
    JsonV::Obj(seq![
        ("slug"@, s(p.slug@)),
        ("path"@, s(p.path@)),
        ("md"@, s(p.path@ + ".md"@)),
        ("print"@, s(p.path@ + "/print.md"@)),
        ("title"@, s(p.title@)),
        ("monogram"@, s(p.monogram@)),
        ("color"@, s(p.color@)),
        ("description"@, s(p.description@)),
        ("items"@, JsonV::Arr(crate::site::product_items(p.children@).map_values(|i: ProductItem| pitem_jv(products, i)))),
    ])
}

/// The whole site as one JSON tree.
pub open spec fn site_jv(products: Seq<ProductIndex>, site: Site) -> JsonV {
    JsonV::Obj(seq![
        ("sitename"@, s(site.config.sitename@)),
        ("title"@, s(site.config.title@)),
        ("description"@, s(site.config.description@)),
        ("url"@, opt_str(site.config.url)),
        ("llms"@, s("/llms.txt"@)),
        ("products"@, JsonV::Arr(site.products@.map_values(|p: Product| product_jv(products, p)))),
    ])
}


fn jstr(text: &str) -> (r: Json)
    ensures
        json_view(r) == s(text@),
{
    Json::Str(owned(text))
}

fn jopt(o: &Option<String>) -> (r: Json)
    ensures
        json_view(r) == opt_str(*o),
{
    match o {
        Some(x) => Json::Str(x.clone()),
        None => Json::Null,
    }
}

fn jsuffixed(text: &str, suffix: &str) -> (r: Json)
    ensures
        json_view(r) == s(text@ + suffix@),
{
    let mut t = owned(text);
    push_str(&mut t, suffix);
    Json::Str(t)
}

/// Appends one field to an object under construction.
fn field(fields: &mut Vec<(String, Json)>, key: &str, value: Json)
    ensures
        fields_view(final(fields)@) == fields_view(old(fields)@).push((key@, json_view(value))),
{
    let ghost v = value;
    fields.push((owned(key), value));
    assert(fields@.drop_last() =~= old(fields)@);
}

fn arr(items: Vec<Json>) -> (r: Json)
    ensures
        json_view(r) == JsonV::Arr(jsons_view(items@)),
{
    Json::Arr(items)
}

fn obj(fields: Vec<(String, Json)>) -> (r: Json)
    ensures
        json_view(r) == JsonV::Obj(fields_view(fields@)),
{
    Json::Obj(fields)
}

fn push_item(items: &mut Vec<Json>, value: Json)
    ensures
        jsons_view(final(items)@) == jsons_view(old(items)@).push(json_view(value)),
{
    items.push(value);
    assert(items@.drop_last() =~= old(items)@);
}

fn article_json(links: &LinkIndex, a: &Article) -> (r: Json)
    ensures
        json_view(r) == article_jv(links.products@, *a),
{
    let mut f: Vec<(String, Json)> = Vec::new();
    assert(fields_view(f@) =~= Seq::<(Seq<char>, JsonV)>::empty());
    field(&mut f, "slug", jstr(a.slug.as_str()));
    assert(fields_view(f@) =~= seq![("slug"@, s(a.slug@))]);
    field(&mut f, "path", jstr(a.path.as_str()));
    field(&mut f, "md", jsuffixed(a.path.as_str(), ".md"));
    field(&mut f, "title", jstr(a.title.as_str()));
    field(&mut f, "type", jopt(&a.kind));
    field(&mut f, "description", jopt(&a.description));
    let ghost head = fields_view(f@);
    match &a.number {
        Some(n) => field(&mut f, "number", jstr(n.as_str())),
        None => {},
    }
    if a.appendix {
        field(&mut f, "appendix", Json::Bool(true));
    }
    match &a.original {
        Some(o) => field(&mut f, "original", jstr(o.as_str())),
        None => {},
    }
    let related = related_pages(links, a);
    let ghost rv = related@.map_values(|e: (String, String)| (e.0@, e.1@));
    if related.len() > 0 {
        let mut paths: Vec<Json> = Vec::new();
        for k in 0..related.len()
            invariant
                rv == related@.map_values(|e: (String, String)| (e.0@, e.1@)),
                jsons_view(paths@) == rv.take(k as int).map_values(|e: (Seq<char>, Seq<char>)| s(e.0)),
        {
            push_item(&mut paths, jstr(related[k].0.as_str()));
            assert(rv.take(k + 1).map_values(|e: (Seq<char>, Seq<char>)| s(e.0))
                =~= rv.take(k as int).map_values(|e: (Seq<char>, Seq<char>)| s(e.0)).push(s(rv[k as int].0)));
        }
        assert(rv.take(rv.len() as int) =~= rv);
        field(&mut f, "related", arr(paths));
    }
    assert(fields_view(f@) =~= head + article_extras(*a, rv));
    assert(fields_view(f@) =~= seq![
        ("slug"@, s(a.slug@)),
        ("path"@, s(a.path@)),
        ("md"@, s(a.path@ + ".md"@)),
        ("title"@, s(a.title@)),
        ("type"@, opt_str(a.kind)),
        ("description"@, opt_str(a.description)),
    ] + article_extras(*a, rv));
    assert(JsonV::Obj(fields_view(f@)) =~~= article_jv(links.products@, *a));
    obj(f)
}

fn articles_json(links: &LinkIndex, arts: &Vec<Article>) -> (r: Vec<Json>)
    ensures
        jsons_view(r@) == articles_jv(links.products@, arts@),
{
    let mut out: Vec<Json> = Vec::new();
    for k in 0..arts.len()
        invariant
            jsons_view(out@) == articles_jv(links.products@, arts@.take(k as int)),
    {
        push_item(&mut out, article_json(links, &arts[k]));
        assert(articles_jv(links.products@, arts@.take(k + 1))
            =~= articles_jv(links.products@, arts@.take(k as int)).push(article_jv(links.products@, arts@[k as int])));
    }
    assert(arts@.take(arts@.len() as int) =~= arts@);
    out
}

fn topic_json(links: &LinkIndex, t: &Topic) -> (r: Json)
    ensures
        json_view(r) == topic_jv(links.products@, *t),
{
    let mut f: Vec<(String, Json)> = Vec::new();
    assert(fields_view(f@) =~= Seq::<(Seq<char>, JsonV)>::empty());
    field(&mut f, "kind", jstr("topic"));
    assert(fields_view(f@) =~= seq![("kind"@, s("topic"@))]);
    field(&mut f, "slug", jstr(t.slug.as_str()));
    field(&mut f, "path", jstr(t.path.as_str()));
    field(&mut f, "print", jsuffixed(t.path.as_str(), "/print.md"));
    field(&mut f, "title", jstr(t.title.as_str()));
    let entry = match t.entry() {
        Some(p) => jstr(p),
        None => Json::Null,
    };
    field(&mut f, "entry", entry);
    let ghost cv = t.children@.map_values(|c: TopicChild| tchild_jv(links.products@, c));
    let mut children: Vec<Json> = Vec::new();
    for k in 0..t.children.len()
        invariant
            cv == t.children@.map_values(|c: TopicChild| tchild_jv(links.products@, c)),
            jsons_view(children@) == cv.take(k as int),
    {
        let node = match &t.children[k] {
            TopicChild::Article { article } => article_json(links, article),
            TopicChild::Folder { folder } => {
                let mut g: Vec<(String, Json)> = Vec::new();
                assert(fields_view(g@) =~= Seq::<(Seq<char>, JsonV)>::empty());
                field(&mut g, "kind", jstr("folder"));
                assert(fields_view(g@) =~= seq![("kind"@, s("folder"@))]);
                field(&mut g, "slug", jstr(folder.slug.as_str()));
                field(&mut g, "path", jstr(folder.path.as_str()));
                field(&mut g, "title", jstr(folder.title.as_str()));
                field(&mut g, "articles", arr(articles_json(links, &folder.articles)));
                assert(fields_view(g@) =~= seq![
                    ("kind"@, s("folder"@)),
                    ("slug"@, s(folder.slug@)),
                    ("path"@, s(folder.path@)),
                    ("title"@, s(folder.title@)),
                    ("articles"@, JsonV::Arr(articles_jv(links.products@, folder.articles@))),
                ]);
                assert(JsonV::Obj(fields_view(g@)) =~~= folder_jv(links.products@, *folder));
                obj(g)
            },
        };
        push_item(&mut children, node);
        assert(cv.take(k + 1) =~= cv.take(k as int).push(cv[k as int]));
    }
    assert(cv.take(cv.len() as int) =~= cv);
    field(&mut f, "children", arr(children));
    assert(fields_view(f@) =~= seq![
        ("kind"@, s("topic"@)),
        ("slug"@, s(t.slug@)),
        ("path"@, s(t.path@)),
        ("print"@, s(t.path@ + "/print.md"@)),
        ("title"@, s(t.title@)),
        ("entry"@, if topic_pages(t.children@).len() > 0 { s(topic_pages(t.children@)[0].path@) } else { JsonV::Null }),
        ("children"@, JsonV::Arr(t.children@.map_values(|c: TopicChild| tchild_jv(links.products@, c)))),
    ]);
    assert(JsonV::Obj(fields_view(f@)) =~~= topic_jv(links.products@, *t));
    obj(f)
}

fn bchild_json(links: &LinkIndex, c: &BookChild) -> (r: Json)
    ensures
        json_view(r) == bchild_jv(links.products@, *c),
    decreases *c,
{
    match c {
        BookChild::Article { article } => article_json(links, article),
        BookChild::Chapter { chapter } => {
            let mut f: Vec<(String, Json)> = Vec::new();
            assert(fields_view(f@) =~= Seq::<(Seq<char>, JsonV)>::empty());
            field(&mut f, "kind", jstr("chapter"));
            assert(fields_view(f@) =~= seq![("kind"@, s("chapter"@))]);
            field(&mut f, "slug", jstr(chapter.slug.as_str()));
            field(&mut f, "number", jstr(chapter.number.as_str()));
            field(&mut f, "title", jstr(chapter.title.as_str()));
            field(&mut f, "entry", jstr(chapter.entry.as_str()));
            assert(decreases_to!(*c => *chapter));
            assert(decreases_to!(*chapter => chapter.children));
            assert(decreases_to!(chapter.children => chapter.children@));
            let children = bchildren_json(links, &chapter.children);
            field(&mut f, "children", arr(children));
            let ghost head = fields_view(f@);
            if chapter.appendix {
                field(&mut f, "appendix", Json::Bool(true));
            }
            assert(fields_view(f@) =~= seq![
                ("kind"@, s("chapter"@)),
                ("slug"@, s(chapter.slug@)),
                ("number"@, s(chapter.number@)),
                ("title"@, s(chapter.title@)),
                ("entry"@, s(chapter.entry@)),
                ("children"@, JsonV::Arr(bchildren_jv(links.products@, chapter.children@))),
            ] + if chapter.appendix { seq![("appendix"@, JsonV::Bool(true))] } else { Seq::empty() });
            assert(JsonV::Obj(fields_view(f@)) =~~= bchild_jv(links.products@, *c));
            obj(f)
        },
    }
}

fn bchildren_json(links: &LinkIndex, cs: &Vec<BookChild>) -> (r: Vec<Json>)
    ensures
        jsons_view(r@) == bchildren_jv(links.products@, cs@),
    decreases cs@,
{
    let mut out: Vec<Json> = Vec::new();
    for k in 0..cs.len()
        invariant
            jsons_view(out@) == bchildren_jv(links.products@, cs@.take(k as int)),
    {
        assert(cs@.take(k + 1).drop_last() =~= cs@.take(k as int));
        assert(cs@.take(k + 1)[k as int] == cs@[k as int]);
        assert(decreases_to!(cs@ => cs@[k as int]));
        push_item(&mut out, bchild_json(links, &cs[k]));
    }
    assert(cs@.take(cs@.len() as int) =~= cs@);
    out
}

fn book_json(links: &LinkIndex, b: &Book) -> (r: Json)
    ensures
        json_view(r) == book_jv(links.products@, *b),
{
    let mut f: Vec<(String, Json)> = Vec::new();
    assert(fields_view(f@) =~= Seq::<(Seq<char>, JsonV)>::empty());
    field(&mut f, "kind", jstr("book"));
    assert(fields_view(f@) =~= seq![("kind"@, s("book"@))]);
    field(&mut f, "slug", jstr(b.slug.as_str()));
    field(&mut f, "path", jstr(b.path.as_str()));
    field(&mut f, "md", jsuffixed(b.path.as_str(), ".md"));
    field(&mut f, "print", jsuffixed(b.path.as_str(), "/print.md"));
    field(&mut f, "title", jstr(b.title.as_str()));
    field(&mut f, "short", jopt(&b.short));
    field(&mut f, "description", jstr(b.description.as_str()));
    field(&mut f, "children", arr(bchildren_json(links, &b.children)));
    assert(fields_view(f@) =~= seq![
        ("kind"@, s("book"@)),
        ("slug"@, s(b.slug@)),
        ("path"@, s(b.path@)),
        ("md"@, s(b.path@ + ".md"@)),
        ("print"@, s(b.path@ + "/print.md"@)),
        ("title"@, s(b.title@)),
        ("short"@, opt_str(b.short)),
        ("description"@, s(b.description@)),
        ("children"@, JsonV::Arr(bchildren_jv(links.products@, b.children@))),
    ]);
    assert(JsonV::Obj(fields_view(f@)) =~~= book_jv(links.products@, *b));
    obj(f)
}

fn aitem_json(links: &LinkIndex, i: &AnthologyItem) -> (r: Json)
    ensures
        json_view(r) == aitem_jv(links.products@, *i),
    decreases i,
{
    match i {
        AnthologyItem::Topic { topic } => topic_json(links, topic),
        AnthologyItem::Book { book } => book_json(links, book),
        AnthologyItem::Anthology { anthology } => {
            assert(decreases_to!(i => anthology));
            anthology_json(links, anthology)
        },
    }
}

fn anthology_json(links: &LinkIndex, anthology: &Anthology) -> (r: Json)
    ensures
        json_view(r) == anthology_jv(links.products@, *anthology),
    decreases anthology,
{
    let mut f: Vec<(String, Json)> = Vec::new();
    assert(fields_view(f@) =~= Seq::<(Seq<char>, JsonV)>::empty());
    field(&mut f, "kind", jstr("anthology"));
    assert(fields_view(f@) =~= seq![("kind"@, s("anthology"@))]);
    field(&mut f, "slug", jstr(anthology.slug.as_str()));
    field(&mut f, "path", jstr(anthology.path.as_str()));
    field(&mut f, "md", jsuffixed(anthology.path.as_str(), ".md"));
    field(&mut f, "print", jsuffixed(anthology.path.as_str(), "/print.md"));
    field(&mut f, "title", jstr(anthology.title.as_str()));
    field(&mut f, "description", jstr(anthology.description.as_str()));
    let ghost ps = links.products@;
    let mut items: Vec<Json> = Vec::new();
    for i in 0..anthology.children.len()
        invariant
            ps == links.products@,
            jsons_view(items@) == achildren_jv(ps, anthology.children@.take(i as int)),
    {
        assert(anthology.children@.take(i + 1).drop_last() =~= anthology.children@.take(i as int));
        assert(anthology.children@.take(i + 1)[i as int] == anthology.children@[i as int]);
        let ghost mid = jsons_view(items@);
        assert(decreases_to!(anthology => anthology.children));
        assert(decreases_to!(anthology.children => anthology.children@));
        assert(decreases_to!(anthology.children@ => anthology.children@[i as int]));
        match &anthology.children[i] {
            AnthologyChild::Item(item) => {
                push_item(&mut items, aitem_json(links, item));
            },
            AnthologyChild::Shelf(shelf) => {
                for j in 0..shelf.items.len()
                    invariant
                        ps == links.products@,
                        i < anthology.children@.len(),
                        anthology.children@[i as int] == AnthologyChild::Shelf(*shelf),
                        jsons_view(items@) == mid + aitems_jv(ps, shelf.items@.take(j as int)),
                {
                    assert(shelf.items@.take(j + 1).drop_last() =~= shelf.items@.take(j as int));
                    assert(shelf.items@.take(j + 1)[j as int] == shelf.items@[j as int]);
                    assert(decreases_to!(anthology => anthology.children));
                    assert(decreases_to!(anthology.children => anthology.children@));
                    assert(decreases_to!(anthology.children@ => anthology.children@[i as int]));
                    assert(anthology.children@[i as int]->Shelf_0 == *shelf);
                    assert(decreases_to!(anthology.children@[i as int] => anthology.children@[i as int]->Shelf_0));
                    assert(decreases_to!(*shelf => shelf.items));
                    assert(decreases_to!(shelf.items => shelf.items@));
                    assert(decreases_to!(shelf.items@ => shelf.items@[j as int]));
                    push_item(&mut items, aitem_json(links, &shelf.items[j]));
                    assert(jsons_view(items@) =~= mid + aitems_jv(ps, shelf.items@.take(j + 1)));
                }
                assert(shelf.items@.take(shelf.items.len() as int) =~= shelf.items@);
            },
        }
        assert(jsons_view(items@) =~= achildren_jv(ps, anthology.children@.take(i + 1)));
    }
    assert(anthology.children@.take(anthology.children.len() as int) =~= anthology.children@);
    field(&mut f, "items", arr(items));
    assert(fields_view(f@) =~= seq![
        ("kind"@, s("anthology"@)),
        ("slug"@, s(anthology.slug@)),
        ("path"@, s(anthology.path@)),
        ("md"@, s(anthology.path@ + ".md"@)),
        ("print"@, s(anthology.path@ + "/print.md"@)),
        ("title"@, s(anthology.title@)),
        ("description"@, s(anthology.description@)),
        ("items"@, JsonV::Arr(achildren_jv(links.products@, anthology.children@))),
    ]);
    assert(JsonV::Obj(fields_view(f@)) =~~= anthology_jv(links.products@, *anthology));
    obj(f)
}

fn product_json(links: &LinkIndex, p: &Product) -> (r: Json)
    ensures
        json_view(r) == product_jv(links.products@, *p),
{
    let mut f: Vec<(String, Json)> = Vec::new();
    assert(fields_view(f@) =~= Seq::<(Seq<char>, JsonV)>::empty());
    field(&mut f, "slug", jstr(p.slug.as_str()));
    assert(fields_view(f@) =~= seq![("slug"@, s(p.slug@))]);
    field(&mut f, "path", jstr(p.path.as_str()));
    field(&mut f, "md", jsuffixed(p.path.as_str(), ".md"));
    field(&mut f, "print", jsuffixed(p.path.as_str(), "/print.md"));
    field(&mut f, "title", jstr(p.title.as_str()));
    field(&mut f, "monogram", jstr(p.monogram.as_str()));
    field(&mut f, "color", jstr(p.color.as_str()));
    field(&mut f, "description", jstr(p.description.as_str()));
    let src = p.items();
    let ghost iv = derefs(src@).map_values(|i: ProductItem| pitem_jv(links.products@, i));
    let mut items: Vec<Json> = Vec::new();
    for k in 0..src.len()
        invariant
            iv == derefs(src@).map_values(|i: ProductItem| pitem_jv(links.products@, i)),
            jsons_view(items@) == iv.take(k as int),
    {
        let node = match src[k] {
            ProductItem::Anthology { anthology } => anthology_json(links, anthology),
            ProductItem::Topic { topic } => topic_json(links, topic),
            ProductItem::Book { book } => book_json(links, book),
        };
        push_item(&mut items, node);
        assert(iv.take(k + 1) =~= iv.take(k as int).push(iv[k as int]));
    }
    assert(iv.take(iv.len() as int) =~= iv);
    field(&mut f, "items", arr(items));
    assert(fields_view(f@) =~= seq![
        ("slug"@, s(p.slug@)),
        ("path"@, s(p.path@)),
        ("md"@, s(p.path@ + ".md"@)),
        ("print"@, s(p.path@ + "/print.md"@)),
        ("title"@, s(p.title@)),
        ("monogram"@, s(p.monogram@)),
        ("color"@, s(p.color@)),
        ("description"@, s(p.description@)),
        ("items"@, JsonV::Arr(crate::site::product_items(p.children@).map_values(|i: ProductItem| pitem_jv(links.products@, i)))),
    ]);
    assert(JsonV::Obj(fields_view(f@)) =~~= product_jv(links.products@, *p));
    obj(f)
}

/// The whole site model as a JSON tree.
pub fn site_json(site: &Site, links: &LinkIndex) -> (r: Json)
    ensures
        json_view(r) == site_jv(links.products@, *site),
{
    let mut f: Vec<(String, Json)> = Vec::new();
    assert(fields_view(f@) =~= Seq::<(Seq<char>, JsonV)>::empty());
    field(&mut f, "sitename", jstr(site.config.sitename.as_str()));
    assert(fields_view(f@) =~= seq![("sitename"@, s(site.config.sitename@))]);
    field(&mut f, "title", jstr(site.config.title.as_str()));
    field(&mut f, "description", jstr(site.config.description.as_str()));
    field(&mut f, "url", jopt(&site.config.url));
    field(&mut f, "llms", jstr("/llms.txt"));
    let ghost pv = site.products@.map_values(|p: Product| product_jv(links.products@, p));
    let mut products: Vec<Json> = Vec::new();
    for k in 0..site.products.len()
        invariant
            pv == site.products@.map_values(|p: Product| product_jv(links.products@, p)),
            jsons_view(products@) == pv.take(k as int),
    {
        push_item(&mut products, product_json(links, &site.products[k]));
        assert(pv.take(k + 1) =~= pv.take(k as int).push(pv[k as int]));
    }
    assert(pv.take(pv.len() as int) =~= pv);
    field(&mut f, "products", arr(products));
    assert(fields_view(f@) =~= seq![
        ("sitename"@, s(site.config.sitename@)),
        ("title"@, s(site.config.title@)),
        ("description"@, s(site.config.description@)),
        ("url"@, opt_str(site.config.url)),
        ("llms"@, s("/llms.txt"@)),
        ("products"@, JsonV::Arr(site.products@.map_values(|p: Product| product_jv(links.products@, p)))),
    ]);
    assert(JsonV::Obj(fields_view(f@)) =~~= site_jv(links.products@, *site));
    obj(f)
}


/// The page a reference lands on, as (path, title), if it lands on one.
pub open spec fn page_of(products: Seq<ProductIndex>, reference: Seq<char>) -> Option<(Seq<char>, Seq<char>)> {
    match resolution(products, reference) {
        Resolution::Page(path, title) => Some((path, title)),
        _ => None,
    }
}

/// An article's related pages are exactly the pages its references land
/// on, in the order written: references that do not resolve are left
/// out, and no resolving one is dropped.
pub proof fn law_related_pages_are_every_resolving_reference(products: Seq<ProductIndex>, refs: Seq<Seq<char>>)
    ensures
        related_of(products, refs) == refs.filter_map(|r: Seq<char>| page_of(products, r)),
        related_of(products, refs).len() == refs.filter(|r: Seq<char>| page_of(products, r) is Some).len(),
    decreases refs.len(),
{
    if refs.len() > 0 {
        law_related_pages_are_every_resolving_reference(products, refs.drop_last());
        let pred = |r: Seq<char>| page_of(products, r) is Some;
        let sub = refs.drop_last().filter(pred);
        reveal(Seq::filter);
        match resolution(products, refs.last()) {
            Resolution::Page(path, title) => {
                assert(pred(refs.last()));
                assert(refs.filter(pred) == sub.push(refs.last()));
                assert(related_of(products, refs) =~= related_of(products, refs.drop_last()) + seq![(path, title)]);
            },
            _ => {
                assert(!pred(refs.last()));
                assert(refs.filter(pred) == sub);
                assert(related_of(products, refs) =~= related_of(products, refs.drop_last()));
            },
        }
    }
}

} // verus!
