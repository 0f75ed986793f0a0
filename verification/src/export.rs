//! The AI-facing surface of a site, as text: markdown mirrors of every
//! page, the framing of whole-unit bundles, `llms.txt`, the `site.json`
//! tree, `sitemap.xml` and `robots.txt`.
use vstd::prelude::*;
use crate::links::{copy_strings, extend_segments, strs};
use crate::site::{
    book_walk, derefs, walk_view, Anthology, AnthologyChild, AnthologyItem, Article, Book, BookChild, Chapter,
    Product, ProductChild, ProductItem, Site, Topic, TopicChild,
};
use crate::text::{chars_of, decimal, join, owned, push_chars, push_decimal, push_decimal_usize, push_joined, push_str};

verus! {

/// An entry of a unit as plain values: its crumb segments and article.
pub type EntryV = (Seq<Seq<char>>, Article);

/// A bundleable unit: a container whose articles read as one document.
pub struct Unit<'a> {
    pub title: String,
    pub description: Option<String>,
    /// The unit's URL path; bundles live at `<path>/print[.md]`.
    pub path: String,
    /// Every article of the unit in reading order, with its display crumb
    /// segments.
    pub entries: Vec<(Vec<String>, &'a Article)>,
}

pub open spec fn entry_view<'a>(e: (Vec<String>, &'a Article)) -> EntryV {
    (strs(e.0@), *e.1)
}

pub open spec fn entries_view<'a>(v: Seq<(Vec<String>, &'a Article)>) -> Seq<EntryV> {
    v.map_values(|e: (Vec<String>, &'a Article)| entry_view(e))
}

/// The entries of a topic's children under the topic's crumbs: a
/// subfolder's articles carry the subfolder's title too.
pub open spec fn tchild_entries(base: Seq<Seq<char>>, s: Seq<TopicChild>) -> Seq<EntryV>
    decreases s.len(),
{
    if s.len() == 0 {
        Seq::empty()
    } else {
        tchild_entries(base, s.drop_last()) + match s.last() {
            TopicChild::Article { article } => seq![(base, article)],
            TopicChild::Folder { folder } => folder.articles@.map_values(|a: Article| (base.push(folder.title@), a)),
        }
    }
}

/// A topic's entries below `base`.
pub open spec fn topic_entries(base: Seq<Seq<char>>, t: Topic) -> Seq<EntryV> {
    tchild_entries(base.push(t.title@), t.children@)
}

/// The name a book goes by in crumbs: its short name, else its title.
pub open spec fn book_name(b: Book) -> Seq<char> {
    match b.short {
        Some(s) => s@,
        None => b.title@,
    }
}

/// A book's entries below `base`: each article with the book's name and
/// its chapter trail.
pub open spec fn book_entries(base: Seq<Seq<char>>, b: Book) -> Seq<EntryV> {
    book_walk(b.children@, Seq::empty()).map_values(|e: (Seq<Chapter>, Article)|
        (base.push(book_name(b)) + e.0.map_values(|c: Chapter| c.title@), e.1))
}

pub open spec fn aitem_entries(base: Seq<Seq<char>>, i: AnthologyItem) -> Seq<EntryV>
    decreases i,
{
    match i {
        AnthologyItem::Topic { topic } => topic_entries(base, topic),
        AnthologyItem::Book { book } => book_entries(base, book),
        AnthologyItem::Anthology { anthology } => achildren_entries(base.push(anthology.title@), anthology.children@),
    }
}

pub open spec fn aitems_entries(base: Seq<Seq<char>>, s: Seq<AnthologyItem>) -> Seq<EntryV>
    decreases s,
{
    if s.len() == 0 { Seq::empty() } else { aitems_entries(base, s.drop_last()) + aitem_entries(base, s.last()) }
}

pub open spec fn achildren_entries(base: Seq<Seq<char>>, s: Seq<AnthologyChild>) -> Seq<EntryV>
    decreases s,
{
    if s.len() == 0 {
        Seq::empty()
    } else {
        achildren_entries(base, s.drop_last()) + match s.last() {
            AnthologyChild::Item(i) => aitem_entries(base, i),
            AnthologyChild::Shelf(sh) => aitems_entries(base, sh.items@),
        }
    }
}

/// An anthology's entries below `base`.
pub open spec fn anthology_entries(base: Seq<Seq<char>>, a: Anthology) -> Seq<EntryV> {
    achildren_entries(base.push(a.title@), a.children@)
}

pub open spec fn pitem_entries(base: Seq<Seq<char>>, i: ProductItem) -> Seq<EntryV> {
    match i {
        ProductItem::Topic { topic } => topic_entries(base, topic),
        ProductItem::Book { book } => book_entries(base, book),
        ProductItem::Anthology { anthology } => anthology_entries(base, anthology),
    }
}

pub open spec fn pitems_entries(base: Seq<Seq<char>>, s: Seq<ProductItem>) -> Seq<EntryV>
    decreases s.len(),
{
    if s.len() == 0 { Seq::empty() } else { pitems_entries(base, s.drop_last()) + pitem_entries(base, s.last()) }
}

pub open spec fn pchildren_entries(base: Seq<Seq<char>>, s: Seq<ProductChild>) -> Seq<EntryV>
    decreases s.len(),
{
    if s.len() == 0 {
        Seq::empty()
    } else {
        pchildren_entries(base, s.drop_last()) + match s.last() {
            ProductChild::Item(i) => pitem_entries(base, i),
            ProductChild::Shelf(sh) => pitems_entries(base, sh.items@),
        }
    }
}

/// A product's entries: everything beneath it, under its title.
pub open spec fn product_entries(p: Product) -> Seq<EntryV> {
    pchildren_entries(seq![p.title@], p.children@)
}

fn push_entry<'a>(out: &mut Vec<(Vec<String>, &'a Article)>, crumbs: Vec<String>, article: &'a Article)
    ensures
        entries_view(final(out)@) == entries_view(old(out)@).push((strs(crumbs@), *article)),
{
    let ghost b = entries_view(out@);
    out.push((crumbs, article));
    assert(entries_view(out@) =~= b.push((strs(crumbs@), *article)));
}

/// Appends a topic's entries.
fn push_topic_entries<'a>(base: &Vec<String>, topic: &'a Topic, out: &mut Vec<(Vec<String>, &'a Article)>)
    ensures
        entries_view(final(out)@) == entries_view(old(out)@) + topic_entries(strs(base@), *topic),
{
    let tb = extend_segments(base, topic.title.as_str());
    let ghost o0 = entries_view(out@);
    for i in 0..topic.children.len()
        invariant
            strs(tb@) == strs(base@).push(topic.title@),
            entries_view(out@) == o0 + tchild_entries(strs(tb@), topic.children@.take(i as int)),
    {
        assert(topic.children@.take(i + 1).drop_last() =~= topic.children@.take(i as int));
        let ghost mid = entries_view(out@);
        match &topic.children[i] {
            TopicChild::Article { article } => {
                push_entry(out, copy_strings(&tb), article);
            },
            TopicChild::Folder { folder } => {
                for j in 0..folder.articles.len()
                    invariant
                        strs(tb@) == strs(base@).push(topic.title@),
                        entries_view(out@) == mid + folder.articles@.take(j as int).map_values(|a: Article| (strs(tb@).push(folder.title@), a)),
                {
                    let crumbs = extend_segments(&tb, folder.title.as_str());
                    push_entry(out, crumbs, &folder.articles[j]);
                    assert(folder.articles@.take(j + 1).map_values(|a: Article| (strs(tb@).push(folder.title@), a))
                        =~= folder.articles@.take(j as int).map_values(|a: Article| (strs(tb@).push(folder.title@), a))
                            .push((strs(tb@).push(folder.title@), folder.articles@[j as int])));
                }
                assert(folder.articles@.take(folder.articles.len() as int) =~= folder.articles@);
            },
        }
        assert(entries_view(out@) =~= o0 + tchild_entries(strs(tb@), topic.children@.take(i + 1)));
    }
    assert(topic.children@.take(topic.children.len() as int) =~= topic.children@);
}

/// Appends a book's entries.
fn push_book_entries<'a>(base: &Vec<String>, book: &'a Book, out: &mut Vec<(Vec<String>, &'a Article)>)
    ensures
        entries_view(final(out)@) == entries_view(old(out)@) + book_entries(strs(base@), *book),
{
    let name: &str = match &book.short {
        Some(s) => s.as_str(),
        None => book.title.as_str(),
    };
    let nb = extend_segments(base, name);
    let walked = book.articles();
    let ghost w = book_walk(book.children@, Seq::empty());
    let ghost o0 = entries_view(out@);
    for i in 0..walked.len()
        invariant
            strs(nb@) == strs(base@).push(book_name(*book)),
            walked@.map_values(|e: (Vec<&Chapter>, &Article)| walk_view(e)) == w,
            w == book_walk(book.children@, Seq::empty()),
            entries_view(out@) == o0 + w.take(i as int).map_values(|e: (Seq<Chapter>, Article)|
                (strs(base@).push(book_name(*book)) + e.0.map_values(|c: Chapter| c.title@), e.1)),
    {
        let (chapters, article) = (&walked[i].0, walked[i].1);
        let mut crumbs = copy_strings(&nb);
        for j in 0..chapters.len()
            invariant
                strs(crumbs@) == strs(nb@) + derefs(chapters@).take(j as int).map_values(|c: Chapter| c.title@),
        {
            let ghost b = strs(crumbs@);
            crumbs.push(chapters[j].title.clone());
            assert(strs(crumbs@) =~= b.push(chapters@[j as int].title@));
            assert(derefs(chapters@).take(j + 1).map_values(|c: Chapter| c.title@)
                =~= derefs(chapters@).take(j as int).map_values(|c: Chapter| c.title@).push(chapters@[j as int].title@));
        }
        assert(derefs(chapters@).take(chapters@.len() as int) =~= derefs(chapters@));
        assert(walk_view(walked@[i as int]) == w[i as int]);
        push_entry(out, crumbs, article);
        assert(w.take(i + 1).map_values(|e: (Seq<Chapter>, Article)|
                (strs(base@).push(book_name(*book)) + e.0.map_values(|c: Chapter| c.title@), e.1))
            =~= w.take(i as int).map_values(|e: (Seq<Chapter>, Article)|
                (strs(base@).push(book_name(*book)) + e.0.map_values(|c: Chapter| c.title@), e.1))
                .push((strs(base@).push(book_name(*book)) + w[i as int].0.map_values(|c: Chapter| c.title@), w[i as int].1)));
    }
    assert(w.take(walked@.len() as int) =~= w);
}

/// Appends the entries of an anthology item.
fn push_aitem_entries<'a>(base: &Vec<String>, i: &'a AnthologyItem, out: &mut Vec<(Vec<String>, &'a Article)>)
    ensures
        entries_view(final(out)@) == entries_view(old(out)@) + aitem_entries(strs(base@), *i),
    decreases i,
{
    match i {
        AnthologyItem::Topic { topic } => push_topic_entries(base, topic, out),
        AnthologyItem::Book { book } => push_book_entries(base, book, out),
        AnthologyItem::Anthology { anthology } => {
            let cb = extend_segments(base, anthology.title.as_str());
            assert(decreases_to!(*i => *anthology));
            assert(decreases_to!(*anthology => anthology.children));
            push_achildren_entries(&cb, &anthology.children, out);
        },
    }
}

fn push_aitems_entries<'a>(base: &Vec<String>, s: &'a Vec<AnthologyItem>, out: &mut Vec<(Vec<String>, &'a Article)>)
    ensures
        entries_view(final(out)@) == entries_view(old(out)@) + aitems_entries(strs(base@), s@),
    decreases s,
{
    let ghost o0 = entries_view(out@);
    for k in 0..s.len()
        invariant
            entries_view(out@) == o0 + aitems_entries(strs(base@), s@.take(k as int)),
    {
        assert(s@.take(k + 1).drop_last() =~= s@.take(k as int));
        assert(decreases_to!(*s => s@));
        assert(decreases_to!(s@ => s@[k as int]));
        push_aitem_entries(base, &s[k], out);
        assert(entries_view(out@) =~= o0 + aitems_entries(strs(base@), s@.take(k + 1)));
    }
    assert(s@.take(s.len() as int) =~= s@);
}

fn push_achildren_entries<'a>(base: &Vec<String>, s: &'a Vec<AnthologyChild>, out: &mut Vec<(Vec<String>, &'a Article)>)
    ensures
        entries_view(final(out)@) == entries_view(old(out)@) + achildren_entries(strs(base@), s@),
    decreases s,
{
    let ghost o0 = entries_view(out@);
    for k in 0..s.len()
        invariant
            entries_view(out@) == o0 + achildren_entries(strs(base@), s@.take(k as int)),
    {
        assert(s@.take(k + 1).drop_last() =~= s@.take(k as int));
        assert(decreases_to!(*s => s@));
        assert(decreases_to!(s@ => s@[k as int]));
        match &s[k] {
            AnthologyChild::Item(i) => {
                assert(decreases_to!(s@[k as int] => *i));
                push_aitem_entries(base, i, out);
            },
            AnthologyChild::Shelf(sh) => {
                assert(decreases_to!(s@[k as int] => *sh));
                assert(decreases_to!(*sh => sh.items));
                push_aitems_entries(base, &sh.items, out);
            },
        }
        assert(entries_view(out@) =~= o0 + achildren_entries(strs(base@), s@.take(k + 1)));
    }
    assert(s@.take(s.len() as int) =~= s@);
}

fn push_pitem_entries<'a>(base: &Vec<String>, i: &'a ProductItem, out: &mut Vec<(Vec<String>, &'a Article)>)
    ensures
        entries_view(final(out)@) == entries_view(old(out)@) + pitem_entries(strs(base@), *i),
{
    match i {
        ProductItem::Topic { topic } => push_topic_entries(base, topic, out),
        ProductItem::Book { book } => push_book_entries(base, book, out),
        ProductItem::Anthology { anthology } => {
            let cb = extend_segments(base, anthology.title.as_str());
            push_achildren_entries(&cb, &anthology.children, out);
        },
    }
}

/// A product as a unit: every article beneath it, in reading order.
pub fn product_unit(product: &Product) -> (r: Unit<'_>)
    ensures
        r.title == product.title,
        r.description == Some(product.description),
        r.path == product.path,
        entries_view(r.entries@) == product_entries(*product),
{
    let mut entries: Vec<(Vec<String>, &Article)> = Vec::new();
    let mut base: Vec<String> = Vec::new();
    base.push(product.title.clone());
    assert(strs(base@) =~= seq![product.title@]);
    let ghost s = product.children@;
    assert(entries_view(entries@) =~= Seq::<EntryV>::empty());
    for k in 0..product.children.len()
        invariant
            strs(base@) == seq![product.title@],
            s == product.children@,
            entries_view(entries@) == pchildren_entries(strs(base@), s.take(k as int)),
    {
        assert(s.take(k + 1).drop_last() =~= s.take(k as int));
        let ghost mid = entries_view(entries@);
        match &product.children[k] {
            ProductChild::Item(i) => push_pitem_entries(&base, i, &mut entries),
            ProductChild::Shelf(sh) => {
                for j in 0..sh.items.len()
                    invariant
                        entries_view(entries@) == mid + pitems_entries(strs(base@), sh.items@.take(j as int)),
                {
                    assert(sh.items@.take(j + 1).drop_last() =~= sh.items@.take(j as int));
                    push_pitem_entries(&base, &sh.items[j], &mut entries);
                    assert(entries_view(entries@) =~= mid + pitems_entries(strs(base@), sh.items@.take(j + 1)));
                }
                assert(sh.items@.take(sh.items.len() as int) =~= sh.items@);
            },
        }
        assert(entries_view(entries@) =~= pchildren_entries(strs(base@), s.take(k + 1)));
    }
    assert(s.take(s.len() as int) =~= s);
    Unit { title: product.title.clone(), description: Some(product.description.clone()), path: product.path.clone(), entries }
}

/// An anthology as a unit below `base`.
pub fn anthology_unit<'a>(base: &Vec<String>, anthology: &'a Anthology) -> (r: Unit<'a>)
    ensures
        r.title == anthology.title,
        r.description == Some(anthology.description),
        r.path == anthology.path,
        entries_view(r.entries@) == anthology_entries(strs(base@), *anthology),
{
    let mut entries: Vec<(Vec<String>, &Article)> = Vec::new();
    assert(entries_view(entries@) =~= Seq::<EntryV>::empty());
    let cb = extend_segments(base, anthology.title.as_str());
    push_achildren_entries(&cb, &anthology.children, &mut entries);
    assert(entries_view(entries@) =~= anthology_entries(strs(base@), *anthology));
    Unit { title: anthology.title.clone(), description: Some(anthology.description.clone()), path: anthology.path.clone(), entries }
}

/// A topic as a unit below `base`; topics carry no description.
pub fn topic_unit<'a>(base: &Vec<String>, topic: &'a Topic) -> (r: Unit<'a>)
    ensures
        r.title == topic.title,
        r.description is None,
        r.path == topic.path,
        entries_view(r.entries@) == topic_entries(strs(base@), *topic),
{
    let mut entries: Vec<(Vec<String>, &Article)> = Vec::new();
    assert(entries_view(entries@) =~= Seq::<EntryV>::empty());
    push_topic_entries(base, topic, &mut entries);
    assert(entries_view(entries@) =~= topic_entries(strs(base@), *topic));
    Unit { title: topic.title.clone(), description: None, path: topic.path.clone(), entries }
}

/// A book as a unit below `base`.
pub fn book_unit<'a>(base: &Vec<String>, book: &'a Book) -> (r: Unit<'a>)
    ensures
        r.title == book.title,
        r.description == Some(book.description),
        r.path == book.path,
        entries_view(r.entries@) == book_entries(strs(base@), *book),
{
    let mut entries: Vec<(Vec<String>, &Article)> = Vec::new();
    assert(entries_view(entries@) =~= Seq::<EntryV>::empty());
    push_book_entries(base, book, &mut entries);
    assert(entries_view(entries@) =~= book_entries(strs(base@), *book));
    Unit { title: book.title.clone(), description: Some(book.description.clone()), path: book.path.clone(), entries }
}


/// A page's anchor within its unit's `/print` bundle: its path below the
/// unit, flattened with dashes (its slug where it lies elsewhere).
pub open spec fn print_anchor_of(unit_path: Seq<char>, article: Article) -> Seq<char> {
    let prefix = unit_path.push('/');
    let rest = if crate::text::has_prefix(article.path@, prefix) { article.path@.skip(prefix.len() as int) } else { article.slug@ };
    rest.map_values(|c: char| if c == '/' { '-' } else { c })
}

/// A page's anchor id within its unit's `/print` bundle, shared by the
/// bundle and the links pointing into it.
pub fn print_anchor(unit_path: &str, article: &Article) -> (r: String)
    ensures
        r@ == print_anchor_of(unit_path@, *article),
{
    let mut prefix = owned(unit_path);
    prefix.push('/');
    let pc = chars_of(prefix.as_str());
    let path = chars_of(article.path.as_str());
    let rest = if crate::text::chars_start_with(path.as_slice(), prefix.as_str()) {
        crate::text::slice_vec(path.as_slice(), pc.len(), path.len())
    } else {
        chars_of(article.slug.as_str())
    };
    let mut out: Vec<char> = Vec::new();
    for i in 0..rest.len()
        invariant
            out@ == rest@.take(i as int).map_values(|c: char| if c == '/' { '-' } else { c }),
    {
        out.push(if rest[i] == '/' { '-' } else { rest[i] });
        assert(out@ =~= rest@.take(i + 1).map_values(|c: char| if c == '/' { '-' } else { c }));
    }
    assert(rest@.take(rest@.len() as int) =~= rest@);
    crate::text::string_of(out.as_slice())
}

/// `s` without its leading slashes.
pub open spec fn leading_trimmed(s: Seq<char>) -> Seq<char>
    decreases s.len(),
{
    if s.len() > 0 && s[0] == '/' { leading_trimmed(s.drop_first()) } else { s }
}

/// Where a page's markdown mirror lands: its URL with `.md` appended,
/// under the output directory.
pub fn mirror_path(out: &str, url_path: &str) -> (r: String)
    ensures
        r@ == crate::cli::path_join(out@, leading_trimmed(url_path@) + ".md"@),
{
    let c = chars_of(url_path);
    let n = c.len();
    let mut i: usize = 0;
    assert(c@.skip(0) =~= c@);
    while i < n && c[i] == '/'
        invariant
            i <= n,
            n == c@.len(),
            c@ == url_path@,
            leading_trimmed(url_path@) == leading_trimmed(c@.skip(i as int)),
        decreases n - i,
    {
        assert(c@.skip(i as int).drop_first() =~= c@.skip(i + 1));
        i = i + 1;
    }
    let mut name = crate::text::string_of(crate::text::slice_vec(c.as_slice(), i, n).as_slice());
    assert(name@ =~= c@.skip(i as int));
    push_str(&mut name, ".md");
    let oc = chars_of(out);
    if oc.len() == 0 {
        return name;
    }
    let mut r = owned(out);
    if oc[oc.len() - 1] != '/' {
        r.push('/');
    }
    push_str(&mut r, name.as_str());
    r
}

/// `robots.txt`: everything allowed, the sitemap named when the site
/// has a base URL.
pub open spec fn robots_text(url: Option<Seq<char>>) -> Seq<char> {
    "User-agent: *\nAllow: /\n"@ + match url {
        Some(u) => "\nSitemap: "@ + u + "/sitemap.xml\n"@,
        None => Seq::empty(),
    }
}

/// The site's `robots.txt`.
pub fn robots_txt(site: &Site) -> (r: String)
    ensures
        r@ == robots_text(match site.config.url { Some(u) => Some(u@), None => None }),
{
    let mut out = owned("User-agent: *\nAllow: /\n");
    match &site.config.url {
        Some(u) => {
            push_str(&mut out, "\nSitemap: ");
            push_str(&mut out, u.as_str());
            push_str(&mut out, "/sitemap.xml\n");
        },
        None => {},
    }
    out
}

/// A list line: `- [title](target): tail`.
pub open spec fn list_line(title: Seq<char>, target: Seq<char>, tail: Seq<char>) -> Seq<char> {
    "- ["@ + title + "]("@ + target + "): "@ + tail + "\n"@
}

fn push_list_line(out: &mut String, title: &str, target: &str, target_suffix: &str, tail: &str)
    ensures
        final(out)@ == old(out)@ + list_line(title@, target@ + target_suffix@, tail@),
{
    push_str(out, "- [");
    push_str(out, title);
    push_str(out, "](");
    push_str(out, target);
    push_str(out, target_suffix);
    push_str(out, "): ");
    push_str(out, tail);
    push_str(out, "\n");
    assert(final(out)@ =~= old(out)@ + list_line(title@, target@ + target_suffix@, tail@));
}

/// A mirror's heading: title, description, and the link to the whole
/// unit as one markdown file.
pub open spec fn mirror_head(title: Seq<char>, description: Seq<char>, path: Seq<char>) -> Seq<char> {
    "# "@ + title + "\n\n> "@ + description + "\n"@
        + "\nAll of "@ + title + " as one markdown file: ["@ + path + "/print.md]("@ + path + "/print.md)\n"@
}

fn push_mirror_head(out: &mut String, title: &str, description: &str, path: &str)
    ensures
        final(out)@ == old(out)@ + mirror_head(title@, description@, path@),
{
    push_str(out, "# ");
    push_str(out, title);
    push_str(out, "\n\n> ");
    push_str(out, description);
    push_str(out, "\n");
    push_str(out, "\nAll of ");
    push_str(out, title);
    push_str(out, " as one markdown file: [");
    push_str(out, path);
    push_str(out, "/print.md](");
    push_str(out, path);
    push_str(out, "/print.md)\n");
    assert(final(out)@ =~= old(out)@ + mirror_head(title@, description@, path@));
}

/// A product page's line for one of its items.
pub open spec fn pitem_line(i: ProductItem) -> Seq<char> {
    match i {
        ProductItem::Anthology { anthology } => list_line(anthology.title@, anthology.path@ + ".md"@, anthology.description@),
        ProductItem::Topic { topic } => list_line(topic.title@, topic.path@ + "/print.md"@,
            decimal(crate::site::topic_pages(topic.children@).len()) + " articles"@),
        ProductItem::Book { book } => list_line(book.title@, book.path@ + ".md"@, book.description@),
    }
}

pub open spec fn pitem_lines(items: Seq<ProductItem>) -> Seq<char>
    decreases items.len(),
{
    if items.len() == 0 { Seq::empty() } else { pitem_lines(items.drop_last()) + pitem_line(items.last()) }
}

/// The sections of a product mirror: a heading for each shelf, then its
/// items' lines.
pub open spec fn product_sections_text(sections: Seq<(Option<Seq<char>>, Seq<ProductItem>)>) -> Seq<char>
    decreases sections.len(),
{
    if sections.len() == 0 {
        Seq::empty()
    } else {
        let (title, items) = sections.last();
        product_sections_text(sections.drop_last())
            + match title { Some(t) => "\n## "@ + t + "\n"@, None => Seq::empty() }
            + "\n"@ + pitem_lines(items)
    }
}

/// A product's markdown mirror.
pub open spec fn product_mirror_text(p: Product) -> Seq<char> {
    mirror_head(p.title@, p.description@, p.path@) + product_sections_text(crate::site::product_sections(p.children@))
}

fn push_pitem_line(out: &mut String, item: &ProductItem)
    ensures
        final(out)@ == old(out)@ + pitem_line(*item),
{
    match item {
        ProductItem::Anthology { anthology } =>
            push_list_line(out, anthology.title.as_str(), anthology.path.as_str(), ".md", anthology.description.as_str()),
        ProductItem::Topic { topic } => {
            let count = topic.pages().len();
            let mut tail = String::new();
            push_decimal_usize(&mut tail, count);
            push_str(&mut tail, " articles");
            push_list_line(out, topic.title.as_str(), topic.path.as_str(), "/print.md", tail.as_str());
        },
        ProductItem::Book { book } =>
            push_list_line(out, book.title.as_str(), book.path.as_str(), ".md", book.description.as_str()),
    }
}

/// A product's markdown mirror: its heading, then each display section.
pub fn product_mirror(product: &Product) -> (r: String)
    ensures
        r@ == product_mirror_text(*product),
{
    let mut out = String::new();
    push_mirror_head(&mut out, product.title.as_str(), product.description.as_str(), product.path.as_str());
    let ghost head = out@;
    let sections = product.sections();
    let ghost sv = crate::site::sections_view(sections@);
    for k in 0..sections.len()
        invariant
            sv == crate::site::sections_view(sections@),
            out@ == head + product_sections_text(sv.take(k as int)),
    {
        assert(sv.take(k + 1).drop_last() =~= sv.take(k as int));
        let section = &sections[k];
        let ghost items = derefs(section.items@);
        assert(sv[k as int] == crate::site::section_view(*section));
        match section.title {
            Some(t) => {
                push_str(&mut out, "\n## ");
                push_str(&mut out, t);
                push_str(&mut out, "\n");
            },
            None => {},
        }
        push_str(&mut out, "\n");
        let ghost mid = out@;
        for j in 0..section.items.len()
            invariant
                items == derefs(section.items@),
                out@ == mid + pitem_lines(items.take(j as int)),
        {
            assert(items.take(j + 1).drop_last() =~= items.take(j as int));
            push_pitem_line(&mut out, section.items[j]);
        }
        assert(items.take(section.items@.len() as int) =~= items);
        assert(out@ =~= head + product_sections_text(sv.take(k + 1)));
    }
    assert(sv.take(sections@.len() as int) =~= sv);
    out
}

/// An anthology mirror's line for a nested anthology or book; topics
/// get their own section instead.
pub open spec fn aitem_line(i: AnthologyItem) -> Seq<char> {
    match i {
        AnthologyItem::Anthology { anthology } => list_line(anthology.title@, anthology.path@ + ".md"@, anthology.description@),
        AnthologyItem::Book { book } => list_line(book.title@, book.path@ + ".md"@, book.description@),
        AnthologyItem::Topic { .. } => Seq::empty(),
    }
}

pub open spec fn aitem_lines(items: Seq<AnthologyItem>) -> Seq<char>
    decreases items.len(),
{
    if items.len() == 0 { Seq::empty() } else { aitem_lines(items.drop_last()) + aitem_line(items.last()) }
}

/// Whether a run of anthology items holds a nested anthology or book.
pub open spec fn lists_any(items: Seq<AnthologyItem>) -> bool {
    exists|k: int| 0 <= k < items.len() && !(#[trigger] items[k] is Topic)
}

/// A topic's section in an anthology mirror: its title, then a line per
/// article with its description.
pub open spec fn topic_section_text(t: Topic) -> Seq<char> {
    "\n## "@ + t.title@ + "\n\n"@ + article_lines(crate::site::topic_pages(t.children@))
}

pub open spec fn article_lines(pages: Seq<Article>) -> Seq<char>
    decreases pages.len(),
{
    if pages.len() == 0 {
        Seq::empty()
    } else {
        article_lines(pages.drop_last()) + list_line(pages.last().title@, pages.last().path@ + ".md"@,
            match pages.last().description { Some(d) => d@, None => Seq::empty() })
    }
}

pub open spec fn topic_sections_text(topics: Seq<Topic>) -> Seq<char>
    decreases topics.len(),
{
    if topics.len() == 0 { Seq::empty() } else { topic_sections_text(topics.drop_last()) + topic_section_text(topics.last()) }
}

/// An anthology's markdown mirror: nested anthologies and books as an
/// annotated list, then each direct topic with its articles.
pub open spec fn anthology_mirror_text(a: Anthology) -> Seq<char> {
    let items = crate::site::anthology_items(a.children@);
    mirror_head(a.title@, a.description@, a.path@)
        + (if lists_any(items) { "\n"@ } else { Seq::empty() })
        + aitem_lines(items)
        + topic_sections_text(crate::site::item_topics(items))
}

/// An anthology's markdown mirror.
pub fn anthology_mirror(anthology: &Anthology) -> (r: String)
    ensures
        r@ == anthology_mirror_text(*anthology),
{
    let mut out = String::new();
    push_mirror_head(&mut out, anthology.title.as_str(), anthology.description.as_str(), anthology.path.as_str());
    let ghost head = out@;
    let items = anthology.items();
    let ghost iv = derefs(items@);
    let mut listed = false;
    let mut lines = String::new();
    for k in 0..items.len()
        invariant
            iv == derefs(items@),
            lines@ == aitem_lines(iv.take(k as int)),
            listed == lists_any(iv.take(k as int)),
    {
        assert(iv.take(k + 1).drop_last() =~= iv.take(k as int));
        assert(iv.take(k + 1).last() == *items@[k as int]);
        match items[k] {
            AnthologyItem::Anthology { anthology: inner } => {
                push_list_line(&mut lines, inner.title.as_str(), inner.path.as_str(), ".md", inner.description.as_str());
                listed = true;
                assert(!(iv.take(k + 1)[k as int] is Topic));
            },
            AnthologyItem::Book { book } => {
                push_list_line(&mut lines, book.title.as_str(), book.path.as_str(), ".md", book.description.as_str());
                listed = true;
                assert(!(iv.take(k + 1)[k as int] is Topic));
            },
            AnthologyItem::Topic { .. } => {
                assert(lists_any(iv.take(k + 1)) == lists_any(iv.take(k as int))) by {
                    if lists_any(iv.take(k + 1)) {
                        let w = choose|w: int| 0 <= w < k + 1 && !(#[trigger] iv.take(k + 1)[w] is Topic);
                        assert(iv.take(k as int)[w] == iv.take(k + 1)[w]);
                    }
                    if lists_any(iv.take(k as int)) {
                        let w = choose|w: int| 0 <= w < k && !(#[trigger] iv.take(k as int)[w] is Topic);
                        assert(iv.take(k as int)[w] == iv.take(k + 1)[w]);
                    }
                }
            },
        }
    }
    assert(iv.take(items@.len() as int) =~= iv);
    if listed {
        push_str(&mut out, "\n");
    }
    push_str(&mut out, lines.as_str());
    assert(out@ =~= head + (if listed { "\n"@ } else { Seq::empty() }) + aitem_lines(iv));
    let topics = anthology.topics();
    let ghost tv = derefs(topics@);
    let ghost before = out@;
    for k in 0..topics.len()
        invariant
            tv == derefs(topics@),
            out@ == before + topic_sections_text(tv.take(k as int)),
    {
        assert(tv.take(k + 1).drop_last() =~= tv.take(k as int));
        let topic = topics[k];
        let ghost m = out@;
        push_str(&mut out, "\n## ");
        push_str(&mut out, topic.title.as_str());
        push_str(&mut out, "\n\n");
        let ghost m2 = out@;
        let pages = topic.pages();
        let ghost pv = derefs(pages@);
        for j in 0..pages.len()
            invariant
                pv == derefs(pages@),
                out@ == m2 + article_lines(pv.take(j as int)),
        {
            assert(pv.take(j + 1).drop_last() =~= pv.take(j as int));
            let a = pages[j];
            let d: &str = match &a.description {
                Some(d) => d.as_str(),
                None => "",
            };
            proof {
                reveal_strlit("");
            }
            push_list_line(&mut out, a.title.as_str(), a.path.as_str(), ".md", d);
        }
        assert(pv.take(pages@.len() as int) =~= pv);
        assert(out@ =~= before + topic_sections_text(tv.take(k + 1)));
    }
    assert(tv.take(topics@.len() as int) =~= tv);
    assert(out@ =~= anthology_mirror_text(*anthology));
    out
}


/// `"Appendix "` before the number of an appendix entry.
pub open spec fn appendix_label(appendix: bool) -> Seq<char> {
    if appendix { "Appendix "@ } else { Seq::empty() }
}

/// The contents lines of one book level, each indented by `indent`.
pub open spec fn contents_text(s: Seq<BookChild>, indent: Seq<char>) -> Seq<char>
    decreases s,
{
    if s.len() == 0 {
        Seq::empty()
    } else {
        contents_text(s.drop_last(), indent) + child_text(s[s.len() - 1], indent)
    }
}

/// One contents line; a chapter's own children follow its line, four
/// spaces deeper.
pub open spec fn child_text(c: BookChild, indent: Seq<char>) -> Seq<char>
    decreases c,
{
    match c {
        BookChild::Article { article } => indent + "- "@ + appendix_label(article.appendix)
            + (match article.number { Some(n) => n@, None => Seq::empty() })
            + " ["@ + article.title@ + "]("@ + article.path@ + ".md)\n"@,
        BookChild::Chapter { chapter } => indent + "- "@ + appendix_label(chapter.appendix) + chapter.number@
            + " ["@ + chapter.title@ + "]("@ + chapter.entry@ + ".md)\n"@
            + contents_text(chapter.children@, indent + "    "@),
    }
}

/// A book's markdown mirror: heading (with its short name), description,
/// the link to the whole book, then the nested contents.
pub open spec fn book_mirror_text(b: Book) -> Seq<char> {
    "# "@ + b.title@ + (match b.short { Some(s) => " ("@ + s@ + ")"@, None => Seq::empty() }) + "\n"@
        + "\n> "@ + b.description@ + "\n"@
        + "\nThe whole book as one markdown file: ["@ + b.path@ + "/print.md]("@ + b.path@ + "/print.md)\n"@
        + "\nContents:\n\n"@
        + contents_text(b.children@, Seq::empty())
}

fn push_label(out: &mut String, appendix: bool)
    ensures
        final(out)@ == old(out)@ + appendix_label(appendix),
{
    if appendix {
        push_str(out, "Appendix ");
    } else {
        assert(old(out)@ + appendix_label(appendix) =~= old(out)@);
    }
}

fn push_line(out: &mut String, indent: &str, appendix: bool, number: &str, title: &str, target: &str)
    ensures
        final(out)@ == old(out)@ + indent@ + "- "@ + appendix_label(appendix) + number@ + " ["@ + title@ + "]("@
            + target@ + ".md)\n"@,
{
    push_str(out, indent);
    push_str(out, "- ");
    push_label(out, appendix);
    push_str(out, number);
    push_str(out, " [");
    push_str(out, title);
    push_str(out, "](");
    push_str(out, target);
    push_str(out, ".md)\n");
}

fn push_child(out: &mut String, child: &BookChild, indent: &str)
    ensures
        final(out)@ == old(out)@ + child_text(*child, indent@),
    decreases *child,
{
    match child {
        BookChild::Article { article } => {
            let number: &str = match &article.number {
                Some(n) => n.as_str(),
                None => "",
            };
            proof {
                reveal_strlit("");
            }
            push_line(out, indent, article.appendix, number, article.title.as_str(), article.path.as_str());
        },
        BookChild::Chapter { chapter } => {
            push_line(out, indent, chapter.appendix, chapter.number.as_str(), chapter.title.as_str(), chapter.entry.as_str());
            let mut deeper = owned(indent);
            push_str(&mut deeper, "    ");
            assert(decreases_to!(*child => *chapter));
            assert(decreases_to!(*chapter => chapter.children));
            assert(decreases_to!(chapter.children => chapter.children@));
            push_contents(out, &chapter.children, deeper.as_str());
        },
    }
}

fn push_contents(out: &mut String, children: &Vec<BookChild>, indent: &str)
    ensures
        final(out)@ == old(out)@ + contents_text(children@, indent@),
    decreases children@,
{
    let ghost start = out@;
    for i in 0..children.len()
        invariant
            out@ == start + contents_text(children@.take(i as int), indent@),
    {
        assert(children@.take(i + 1).drop_last() =~= children@.take(i as int));
        assert(children@.take(i + 1)[i as int] == children@[i as int]);
        assert(decreases_to!(children@ => children@[i as int]));
        push_child(out, &children[i], indent);
    }
    assert(children@.take(children@.len() as int) =~= children@);
}

/// A book's markdown mirror.
pub fn book_mirror(book: &Book) -> (r: String)
    ensures
        r@ == book_mirror_text(*book),
{
    let mut out = owned("# ");
    push_str(&mut out, book.title.as_str());
    match &book.short {
        Some(short) => {
            push_str(&mut out, " (");
            push_str(&mut out, short.as_str());
            push_str(&mut out, ")");
        },
        None => {},
    }
    push_str(&mut out, "\n");
    push_str(&mut out, "\n> ");
    push_str(&mut out, book.description.as_str());
    push_str(&mut out, "\n");
    push_str(&mut out, "\nThe whole book as one markdown file: [");
    push_str(&mut out, book.path.as_str());
    push_str(&mut out, "/print.md](");
    push_str(&mut out, book.path.as_str());
    push_str(&mut out, "/print.md)\n");
    push_str(&mut out, "\nContents:\n\n");
    let ghost head = out@;
    proof {
        reveal_strlit("");
    }
    push_contents(&mut out, &book.children, "");
    assert(""@ =~= Seq::<char>::empty());
    assert(out@ =~= head + contents_text(book.children@, Seq::empty()));
    assert(out@ =~= book_mirror_text(*book));
    out
}


/// An anthology's lines in `llms.txt`: its bundle, then nested
/// anthologies' and books' bundles; topics are reached through them.
pub open spec fn llms_anthology(a: Anthology) -> Seq<char>
    decreases a,
{
    list_line(a.title@, a.path@ + "/print.md"@, a.description@) + llms_achildren(a.children@)
}

pub open spec fn llms_aitem(i: AnthologyItem) -> Seq<char>
    decreases i,
{
    match i {
        AnthologyItem::Anthology { anthology } => llms_anthology(anthology),
        AnthologyItem::Book { book } => list_line(book.title@, book.path@ + "/print.md"@, book.description@),
        AnthologyItem::Topic { .. } => Seq::empty(),
    }
}

pub open spec fn llms_aitems(items: Seq<AnthologyItem>) -> Seq<char>
    decreases items,
{
    if items.len() == 0 { Seq::empty() } else { llms_aitems(items.drop_last()) + llms_aitem(items.last()) }
}

pub open spec fn llms_achildren(children: Seq<AnthologyChild>) -> Seq<char>
    decreases children,
{
    if children.len() == 0 {
        Seq::empty()
    } else {
        llms_achildren(children.drop_last()) + match children.last() {
            AnthologyChild::Item(item) => llms_aitem(item),
            AnthologyChild::Shelf(shelf) => llms_aitems(shelf.items@),
        }
    }
}

/// A product item's lines in `llms.txt`; a topic without pages has none.
pub open spec fn llms_pitem(i: ProductItem) -> Seq<char> {
    match i {
        ProductItem::Anthology { anthology } => llms_anthology(anthology),
        ProductItem::Topic { topic } => {
            let count = crate::site::topic_pages(topic.children@).len();
            if count > 0 {
                list_line(topic.title@, topic.path@ + "/print.md"@, decimal(count) + " articles"@)
            } else {
                Seq::empty()
            }
        },
        ProductItem::Book { book } => list_line(book.title@, book.path@ + "/print.md"@, book.description@),
    }
}

pub open spec fn llms_pitems(items: Seq<ProductItem>) -> Seq<char>
    decreases items.len(),
{
    if items.len() == 0 { Seq::empty() } else { llms_pitems(items.drop_last()) + llms_pitem(items.last()) }
}

/// A product's section of `llms.txt`: its overview mirror, its whole
/// bundle, then its items.
pub open spec fn llms_product(p: Product) -> Seq<char> {
    "\n## "@ + p.title@ + "\n\n"@
        + list_line(p.title@ + " overview"@, p.path@ + ".md"@, p.description@)
        + "- [All "@ + p.title@ + " docs in one file]("@ + p.path@ + "/print.md)\n"@
        + llms_pitems(crate::site::product_items(p.children@))
}

pub open spec fn llms_products(ps: Seq<Product>) -> Seq<char>
    decreases ps.len(),
{
    if ps.len() == 0 { Seq::empty() } else { llms_products(ps.drop_last()) + llms_product(ps.last()) }
}

/// The paragraph that tells a reader of `llms.txt` what else there is.
pub open spec fn llms_intro() -> Seq<char> {
    "\nEvery page on this site is also available as markdown at the same URL with `.md` appended. Each section below links whole units as single markdown files. The full machine-readable structure is at /site.json.\n"@
}

/// `llms.txt`: a curated markdown map of the site for AI readers,
/// linking the markdown mirrors and bundles.
pub open spec fn llms_text(site: Site) -> Seq<char> {
    "# "@ + site.config.sitename@ + "\n\n> "@ + site.config.description@ + "\n"@ + llms_intro()
        + llms_products(site.products@)
}

fn push_llms_aitem(out: &mut String, item: &AnthologyItem)
    ensures
        final(out)@ == old(out)@ + llms_aitem(*item),
    decreases item,
{
    match item {
        AnthologyItem::Anthology { anthology } => {
            assert(decreases_to!(item => anthology));
            push_llms_anthology(out, anthology);
        },
        AnthologyItem::Book { book } =>
            push_list_line(out, book.title.as_str(), book.path.as_str(), "/print.md", book.description.as_str()),
        AnthologyItem::Topic { .. } => {
            assert(old(out)@ + llms_aitem(*item) =~= old(out)@);
        },
    }
}

fn push_llms_anthology(out: &mut String, anthology: &Anthology)
    ensures
        final(out)@ == old(out)@ + llms_anthology(*anthology),
    decreases anthology,
{
    push_list_line(out, anthology.title.as_str(), anthology.path.as_str(), "/print.md", anthology.description.as_str());
    let ghost c1 = out@;
    for i in 0..anthology.children.len()
        invariant
            out@ == c1 + llms_achildren(anthology.children@.take(i as int)),
    {
        assert(anthology.children@.take(i + 1).drop_last() =~= anthology.children@.take(i as int));
        let ghost mid = out@;
        assert(decreases_to!(anthology => anthology.children));
        assert(decreases_to!(anthology.children => anthology.children@));
        assert(decreases_to!(anthology.children@ => anthology.children@[i as int]));
        match &anthology.children[i] {
            AnthologyChild::Item(item) => {
                push_llms_aitem(out, item);
            },
            AnthologyChild::Shelf(shelf) => {
                for j in 0..shelf.items.len()
                    invariant
                        i < anthology.children@.len(),
                        anthology.children@[i as int] == AnthologyChild::Shelf(*shelf),
                        out@ == mid + llms_aitems(shelf.items@.take(j as int)),
                {
                    assert(shelf.items@.take(j + 1).drop_last() =~= shelf.items@.take(j as int));
                    assert(decreases_to!(anthology => anthology.children));
                    assert(decreases_to!(anthology.children => anthology.children@));
                    assert(decreases_to!(anthology.children@ => anthology.children@[i as int]));
                    assert(anthology.children@[i as int]->Shelf_0 == *shelf);
                    assert(decreases_to!(anthology.children@[i as int] => anthology.children@[i as int]->Shelf_0));
                    assert(decreases_to!(*shelf => shelf.items));
                    assert(decreases_to!(shelf.items => shelf.items@));
                    assert(decreases_to!(shelf.items@ => shelf.items@[j as int]));
                    push_llms_aitem(out, &shelf.items[j]);
                    assert(out@ =~= mid + llms_aitems(shelf.items@.take(j + 1)));
                }
                assert(shelf.items@.take(shelf.items.len() as int) =~= shelf.items@);
            },
        }
        assert(out@ =~= c1 + llms_achildren(anthology.children@.take(i + 1)));
    }
    assert(anthology.children@.take(anthology.children.len() as int) =~= anthology.children@);
}

fn push_llms_pitem(out: &mut String, item: &ProductItem)
    ensures
        final(out)@ == old(out)@ + llms_pitem(*item),
{
    match item {
        ProductItem::Anthology { anthology } => push_llms_anthology(out, anthology),
        ProductItem::Topic { topic } => {
            let count = topic.pages().len();
            if count > 0 {
                let mut tail = String::new();
                push_decimal_usize(&mut tail, count);
                push_str(&mut tail, " articles");
                push_list_line(out, topic.title.as_str(), topic.path.as_str(), "/print.md", tail.as_str());
            } else {
                assert(old(out)@ + llms_pitem(*item) =~= old(out)@);
            }
        },
        ProductItem::Book { book } =>
            push_list_line(out, book.title.as_str(), book.path.as_str(), "/print.md", book.description.as_str()),
    }
}

fn push_llms_product(out: &mut String, product: &Product)
    ensures
        final(out)@ == old(out)@ + llms_product(*product),
{
    let ghost start = out@;
    push_str(out, "\n## ");
    push_str(out, product.title.as_str());
    push_str(out, "\n\n");
    let mut overview = owned(product.title.as_str());
    push_str(&mut overview, " overview");
    push_list_line(out, overview.as_str(), product.path.as_str(), ".md", product.description.as_str());
    push_str(out, "- [All ");
    push_str(out, product.title.as_str());
    push_str(out, " docs in one file](");
    push_str(out, product.path.as_str());
    push_str(out, "/print.md)\n");
    let ghost head = out@;
    let items = product.items();
    let ghost iv = derefs(items@);
    for k in 0..items.len()
        invariant
            iv == derefs(items@),
            out@ == head + llms_pitems(iv.take(k as int)),
    {
        assert(iv.take(k + 1).drop_last() =~= iv.take(k as int));
        push_llms_pitem(out, items[k]);
    }
    assert(iv.take(items@.len() as int) =~= iv);
    assert(out@ =~= start + llms_product(*product));
}

/// The site's `llms.txt`.
pub fn llms_txt(site: &Site) -> (r: String)
    ensures
        r@ == llms_text(*site),
{
    let mut out = owned("# ");
    push_str(&mut out, site.config.sitename.as_str());
    push_str(&mut out, "\n\n> ");
    push_str(&mut out, site.config.description.as_str());
    push_str(&mut out, "\n");
    push_str(&mut out, "\nEvery page on this site is also available as markdown at the same URL with `.md` appended. Each section below links whole units as single markdown files. The full machine-readable structure is at /site.json.\n");
    let ghost head = out@;
    for k in 0..site.products.len()
        invariant
            out@ == head + llms_products(site.products@.take(k as int)),
    {
        assert(site.products@.take(k + 1).drop_last() =~= site.products@.take(k as int));
        push_llms_product(&mut out, &site.products[k]);
    }
    assert(site.products@.take(site.products@.len() as int) =~= site.products@);
    out
}


/// A sitemap entry as plain values: a URL path and its last-updated date.
pub type PathV = (Seq<char>, Option<Seq<char>>);

pub open spec fn path_view(e: (String, Option<String>)) -> PathV {
    (e.0@, crate::validate::opt_view(e.1))
}

pub open spec fn paths_view(v: Seq<(String, Option<String>)>) -> Seq<PathV> {
    v.map_values(|e: (String, Option<String>)| path_view(e))
}

/// The canonical pages among `arts`: aliases stay out of the sitemap,
/// their canonical is the original.
pub open spec fn canonical_paths(arts: Seq<Article>) -> Seq<PathV>
    decreases arts.len(),
{
    if arts.len() == 0 {
        Seq::empty()
    } else {
        canonical_paths(arts.drop_last()) + if arts.last().original is None {
            seq![(arts.last().path@, crate::validate::opt_view(arts.last().updated))]
        } else {
            Seq::empty()
        }
    }
}

/// A `/print` bundle page, present when its unit has articles.
pub open spec fn print_path(has: bool, path: Seq<char>, updated: Option<String>) -> Seq<PathV> {
    if has { seq![(path + "/print"@, crate::validate::opt_view(updated))] } else { Seq::empty() }
}

pub open spec fn topic_paths(t: Topic) -> Seq<PathV> {
    let pages = crate::site::topic_pages(t.children@);
    print_path(pages.len() > 0, t.path@, t.updated) + canonical_paths(pages)
}

pub open spec fn book_paths(b: Book) -> Seq<PathV> {
    let walk = book_walk(b.children@, Seq::empty());
    seq![(b.path@, crate::validate::opt_view(b.updated))] + print_path(walk.len() > 0, b.path@, b.updated)
        + canonical_paths(walk.map_values(|e: (Seq<Chapter>, Article)| e.1))
}

pub open spec fn anthology_paths(a: Anthology) -> Seq<PathV>
    decreases a,
{
    seq![(a.path@, crate::validate::opt_view(a.updated))]
        + print_path(anthology_entries(Seq::empty(), a).len() > 0, a.path@, a.updated)
        + achildren_paths(a.children@)
}

pub open spec fn aitem_paths(i: AnthologyItem) -> Seq<PathV>
    decreases i,
{
    match i {
        AnthologyItem::Topic { topic } => topic_paths(topic),
        AnthologyItem::Book { book } => book_paths(book),
        AnthologyItem::Anthology { anthology } => anthology_paths(anthology),
    }
}

pub open spec fn aitems_paths(items: Seq<AnthologyItem>) -> Seq<PathV>
    decreases items,
{
    if items.len() == 0 { Seq::empty() } else { aitems_paths(items.drop_last()) + aitem_paths(items.last()) }
}

pub open spec fn achildren_paths(children: Seq<AnthologyChild>) -> Seq<PathV>
    decreases children,
{
    if children.len() == 0 {
        Seq::empty()
    } else {
        achildren_paths(children.drop_last()) + match children.last() {
            AnthologyChild::Item(item) => aitem_paths(item),
            AnthologyChild::Shelf(shelf) => aitems_paths(shelf.items@),
        }
    }
}

pub open spec fn pitem_paths(i: ProductItem) -> Seq<PathV> {
    match i {
        ProductItem::Anthology { anthology } => anthology_paths(anthology),
        ProductItem::Topic { topic } => topic_paths(topic),
        ProductItem::Book { book } => book_paths(book),
    }
}

pub open spec fn pitems_paths(items: Seq<ProductItem>) -> Seq<PathV>
    decreases items.len(),
{
    if items.len() == 0 { Seq::empty() } else { pitems_paths(items.drop_last()) + pitem_paths(items.last()) }
}

pub open spec fn product_paths(p: Product) -> Seq<PathV> {
    seq![(p.path@, crate::validate::opt_view(p.updated))] + print_path(product_entries(p).len() > 0, p.path@, p.updated)
        + pitems_paths(crate::site::product_items(p.children@))
}

pub open spec fn products_paths(ps: Seq<Product>) -> Seq<PathV>
    decreases ps.len(),
{
    if ps.len() == 0 { Seq::empty() } else { products_paths(ps.drop_last()) + product_paths(ps.last()) }
}

/// The site's last update: the latest of its products'.
pub open spec fn products_updated(ps: Seq<Product>) -> Option<Seq<char>>
    decreases ps.len(),
{
    if ps.len() == 0 {
        None
    } else {
        crate::validate::later_of(products_updated(ps.drop_last()), crate::validate::opt_view(ps.last().updated))
    }
}

/// Every HTML page's URL path with its last-updated date, in site
/// order; the empty path is the front page.
pub open spec fn site_paths(site: Site) -> Seq<PathV> {
    seq![(Seq::<char>::empty(), products_updated(site.products@))] + products_paths(site.products@)
}

fn push_path(paths: &mut Vec<(String, Option<String>)>, path: &str, suffix: &str, updated: &Option<String>)
    ensures
        paths_view(final(paths)@) == paths_view(old(paths)@).push((path@ + suffix@, crate::validate::opt_view(*updated))),
{
    let mut p = owned(path);
    push_str(&mut p, suffix);
    paths.push((p, crate::linking::copy_opt(updated)));
    assert(paths_view(paths@) =~= paths_view(old(paths)@).push((path@ + suffix@, crate::validate::opt_view(*updated))));
}

fn push_canonical(paths: &mut Vec<(String, Option<String>)>, article: &Article)
    ensures
        paths_view(final(paths)@) == paths_view(old(paths)@) + canonical_paths(seq![*article]),
{
    assert(seq![*article].drop_last() =~= Seq::<Article>::empty());
    if article.original.is_none() {
        proof {
            reveal_strlit("");
        }
        push_path(paths, article.path.as_str(), "", &article.updated);
        assert(article.path@ + ""@ =~= article.path@);
    }
    assert(canonical_paths(Seq::<Article>::empty()) =~= Seq::<PathV>::empty());
    assert(paths_view(paths@) =~= paths_view(old(paths)@) + canonical_paths(seq![*article]));
}

proof fn lemma_canonical_push(arts: Seq<Article>, a: Article)
    ensures
        canonical_paths(arts.push(a)) == canonical_paths(arts) + canonical_paths(seq![a]),
{
    assert(arts.push(a).drop_last() =~= arts);
    assert(seq![a].drop_last() =~= Seq::<Article>::empty());
    assert(canonical_paths(Seq::<Article>::empty()) =~= Seq::<PathV>::empty());
}

fn push_topic_paths(paths: &mut Vec<(String, Option<String>)>, topic: &Topic)
    ensures
        paths_view(final(paths)@) == paths_view(old(paths)@) + topic_paths(*topic),
{
    let pages = topic.pages();
    let ghost pv = derefs(pages@);
    let ghost start = paths_view(paths@);
    if pages.len() > 0 {
        push_path(paths, topic.path.as_str(), "/print", &topic.updated);
    }
    let ghost head = paths_view(paths@);
    assert(head =~= start + print_path(pv.len() > 0, topic.path@, topic.updated));
    for k in 0..pages.len()
        invariant
            pv == derefs(pages@),
            paths_view(paths@) == head + canonical_paths(pv.take(k as int)),
    {
        assert(pv.take(k + 1) =~= pv.take(k as int).push(pv[k as int]));
        proof {
            lemma_canonical_push(pv.take(k as int), pv[k as int]);
        }
        push_canonical(paths, pages[k]);
    }
    assert(pv.take(pages@.len() as int) =~= pv);
}

fn push_book_paths(paths: &mut Vec<(String, Option<String>)>, book: &Book)
    ensures
        paths_view(final(paths)@) == paths_view(old(paths)@) + book_paths(*book),
{
    let ghost start = paths_view(paths@);
    proof {
        reveal_strlit("");
    }
    push_path(paths, book.path.as_str(), "", &book.updated);
    assert(book.path@ + ""@ =~= book.path@);
    let walk = book.articles();
    let ghost wv = walk@.map_values(|e: (Vec<&Chapter>, &Article)| walk_view(e));
    let ghost av = wv.map_values(|e: (Seq<Chapter>, Article)| e.1);
    if walk.len() > 0 {
        push_path(paths, book.path.as_str(), "/print", &book.updated);
    }
    let ghost head = paths_view(paths@);
    for k in 0..walk.len()
        invariant
            wv == walk@.map_values(|e: (Vec<&Chapter>, &Article)| walk_view(e)),
            av == wv.map_values(|e: (Seq<Chapter>, Article)| e.1),
            paths_view(paths@) == head + canonical_paths(av.take(k as int)),
    {
        assert(av.take(k + 1) =~= av.take(k as int).push(av[k as int]));
        assert(av[k as int] == *walk@[k as int].1);
        proof {
            lemma_canonical_push(av.take(k as int), av[k as int]);
        }
        push_canonical(paths, walk[k].1);
    }
    assert(av.take(walk@.len() as int) =~= av);
    assert(paths_view(paths@) =~= start + book_paths(*book));
}

fn push_aitem_paths(paths: &mut Vec<(String, Option<String>)>, item: &AnthologyItem)
    ensures
        paths_view(final(paths)@) == paths_view(old(paths)@) + aitem_paths(*item),
    decreases item,
{
    match item {
        AnthologyItem::Topic { topic } => push_topic_paths(paths, topic),
        AnthologyItem::Book { book } => push_book_paths(paths, book),
        AnthologyItem::Anthology { anthology } => {
            assert(decreases_to!(item => anthology));
            push_anthology_paths(paths, anthology);
        },
    }
}

fn push_anthology_paths(paths: &mut Vec<(String, Option<String>)>, anthology: &Anthology)
    ensures
        paths_view(final(paths)@) == paths_view(old(paths)@) + anthology_paths(*anthology),
    decreases anthology,
{
    let ghost start = paths_view(paths@);
    proof {
        reveal_strlit("");
    }
    push_path(paths, anthology.path.as_str(), "", &anthology.updated);
    assert(anthology.path@ + ""@ =~= anthology.path@);
    let none: Vec<String> = Vec::new();
    let unit = anthology_unit(&none, anthology);
    assert(strs(none@) =~= Seq::<Seq<char>>::empty());
    if unit.entries.len() > 0 {
        push_path(paths, anthology.path.as_str(), "/print", &anthology.updated);
    }
    let ghost c1 = paths_view(paths@);
    for i in 0..anthology.children.len()
        invariant
            paths_view(paths@) == c1 + achildren_paths(anthology.children@.take(i as int)),
    {
        assert(anthology.children@.take(i + 1).drop_last() =~= anthology.children@.take(i as int));
        let ghost mid = paths_view(paths@);
        assert(decreases_to!(anthology => anthology.children));
        assert(decreases_to!(anthology.children => anthology.children@));
        assert(decreases_to!(anthology.children@ => anthology.children@[i as int]));
        match &anthology.children[i] {
            AnthologyChild::Item(item) => {
                push_aitem_paths(paths, item);
            },
            AnthologyChild::Shelf(shelf) => {
                for j in 0..shelf.items.len()
                    invariant
                        i < anthology.children@.len(),
                        anthology.children@[i as int] == AnthologyChild::Shelf(*shelf),
                        paths_view(paths@) == mid + aitems_paths(shelf.items@.take(j as int)),
                {
                    assert(shelf.items@.take(j + 1).drop_last() =~= shelf.items@.take(j as int));
                    assert(decreases_to!(anthology => anthology.children));
                    assert(decreases_to!(anthology.children => anthology.children@));
                    assert(decreases_to!(anthology.children@ => anthology.children@[i as int]));
                    assert(anthology.children@[i as int]->Shelf_0 == *shelf);
                    assert(decreases_to!(anthology.children@[i as int] => anthology.children@[i as int]->Shelf_0));
                    assert(decreases_to!(*shelf => shelf.items));
                    assert(decreases_to!(shelf.items => shelf.items@));
                    assert(decreases_to!(shelf.items@ => shelf.items@[j as int]));
                    push_aitem_paths(paths, &shelf.items[j]);
                    assert(paths_view(paths@) =~= mid + aitems_paths(shelf.items@.take(j + 1)));
                }
                assert(shelf.items@.take(shelf.items.len() as int) =~= shelf.items@);
            },
        }
        assert(paths_view(paths@) =~= c1 + achildren_paths(anthology.children@.take(i + 1)));
    }
    assert(anthology.children@.take(anthology.children.len() as int) =~= anthology.children@);
    assert(paths_view(paths@) =~= start + anthology_paths(*anthology));
}

fn push_product_paths(paths: &mut Vec<(String, Option<String>)>, product: &Product)
    ensures
        paths_view(final(paths)@) == paths_view(old(paths)@) + product_paths(*product),
{
    let ghost start = paths_view(paths@);
    proof {
        reveal_strlit("");
    }
    push_path(paths, product.path.as_str(), "", &product.updated);
    assert(product.path@ + ""@ =~= product.path@);
    let unit = product_unit(product);
    if unit.entries.len() > 0 {
        push_path(paths, product.path.as_str(), "/print", &product.updated);
    }
    let ghost head = paths_view(paths@);
    let items = product.items();
    let ghost iv = derefs(items@);
    for k in 0..items.len()
        invariant
            iv == derefs(items@),
            paths_view(paths@) == head + pitems_paths(iv.take(k as int)),
    {
        assert(iv.take(k + 1).drop_last() =~= iv.take(k as int));
        match items[k] {
            ProductItem::Anthology { anthology } => push_anthology_paths(paths, anthology),
            ProductItem::Topic { topic } => push_topic_paths(paths, topic),
            ProductItem::Book { book } => push_book_paths(paths, book),
        }
    }
    assert(iv.take(items@.len() as int) =~= iv);
    assert(paths_view(paths@) =~= start + product_paths(*product));
}

/// Every HTML page's URL path with its last-updated date, for the
/// sitemap.
pub fn page_paths(site: &Site) -> (r: Vec<(String, Option<String>)>)
    ensures
        paths_view(r@) == site_paths(*site),
{
    let mut updated: Option<String> = None;
    for k in 0..site.products.len()
        invariant
            crate::validate::opt_view(updated) == products_updated(site.products@.take(k as int)),
    {
        assert(site.products@.take(k + 1).drop_last() =~= site.products@.take(k as int));
        updated = crate::validate::later(updated, crate::linking::copy_opt(&site.products[k].updated));
    }
    assert(site.products@.take(site.products@.len() as int) =~= site.products@);
    let mut paths: Vec<(String, Option<String>)> = Vec::new();
    paths.push((String::new(), updated));
    let ghost head = paths_view(paths@);
    assert(head =~= seq![(Seq::<char>::empty(), products_updated(site.products@))]);
    for k in 0..site.products.len()
        invariant
            paths_view(paths@) == head + products_paths(site.products@.take(k as int)),
    {
        assert(site.products@.take(k + 1).drop_last() =~= site.products@.take(k as int));
        push_product_paths(&mut paths, &site.products[k]);
    }
    assert(site.products@.take(site.products@.len() as int) =~= site.products@);
    paths
}

/// One `<url>` line of the sitemap.
pub open spec fn sitemap_line(base: Seq<char>, e: PathV) -> Seq<char> {
    "  <url><loc>"@ + base + e.0 + "/</loc>"@ + match e.1 {
        Some(u) => "<lastmod>"@ + u + "</lastmod>"@,
        None => Seq::empty(),
    } + "</url>\n"@
}

pub open spec fn sitemap_lines(base: Seq<char>, es: Seq<PathV>) -> Seq<char>
    decreases es.len(),
{
    if es.len() == 0 { Seq::empty() } else { sitemap_lines(base, es.drop_last()) + sitemap_line(base, es.last()) }
}

/// `sitemap.xml`: every page's absolute URL under `base`, with its date.
pub open spec fn sitemap_text(base: Seq<char>, site: Site) -> Seq<char> {
    "<?xml version=\"1.0\" encoding=\"UTF-8\"?>\n<urlset xmlns=\"http://www.sitemaps.org/schemas/sitemap/0.9\">\n"@
        + sitemap_lines(base, site_paths(site)) + "</urlset>\n"@
}

/// The site's `sitemap.xml`. Sitemaps need absolute URLs, so it exists
/// only for a site with a base URL.
pub fn sitemap_xml(site: &Site) -> (r: String)
    requires
        site.config.url is Some,
    ensures
        r@ == sitemap_text(site.config.url->0@, *site),
{
    let base = match &site.config.url {
        Some(u) => u.as_str(),
        None => "",
    };
    let mut out = owned("<?xml version=\"1.0\" encoding=\"UTF-8\"?>\n<urlset xmlns=\"http://www.sitemaps.org/schemas/sitemap/0.9\">\n");
    let ghost head = out@;
    let paths = page_paths(site);
    let ghost pv = paths_view(paths@);
    for k in 0..paths.len()
        invariant
            pv == paths_view(paths@),
            base@ == site.config.url->0@,
            out@ == head + sitemap_lines(base@, pv.take(k as int)),
    {
        assert(pv.take(k + 1).drop_last() =~= pv.take(k as int));
        let (path, updated) = &paths[k];
        push_str(&mut out, "  <url><loc>");
        push_str(&mut out, base);
        push_str(&mut out, path.as_str());
        push_str(&mut out, "/</loc>");
        match updated {
            Some(u) => {
                push_str(&mut out, "<lastmod>");
                push_str(&mut out, u.as_str());
                push_str(&mut out, "</lastmod>");
            },
            None => {},
        }
        push_str(&mut out, "</url>\n");
        assert(out@ =~= head + sitemap_lines(base@, pv.take(k + 1)));
    }
    assert(pv.take(paths@.len() as int) =~= pv);
    push_str(&mut out, "</urlset>\n");
    out
}


/// An article's heading line: numbered inside books, appendices named.
pub open spec fn article_heading(a: Article) -> Seq<char> {
    "# "@ + (match a.number { Some(n) => appendix_label(a.appendix) + n@ + " "@, None => Seq::empty() }) + a.title@ + "\n"@
}

/// One article as standalone markdown: heading, crumbs for orientation,
/// description, then the body (already rewritten for reading outside the
/// site) without trailing whitespace.
pub open spec fn article_markdown_text(crumbs: Seq<Seq<char>>, a: Article, body: Seq<char>) -> Seq<char> {
    article_heading(a) + "\n_"@ + crate::text::join(crumbs, " / "@) + "_\n"@
        + (match a.description { Some(d) => "\n> "@ + d@ + "\n"@, None => Seq::empty() })
        + "\n"@ + crate::text::trim_end(body) + "\n"@
}

/// Appends `body` without its trailing whitespace.
fn push_trimmed_end(out: &mut String, body: &str)
    ensures
        final(out)@ == old(out)@ + crate::text::trim_end(body@),
{
    let c = chars_of(body);
    let mut b = c.len();
    assert(c@.subrange(0, b as int) =~= c@);
    while b > 0 && crate::text::char_is_space(c[b - 1])
        invariant
            b <= c@.len(),
            c@ == body@,
            crate::text::trim_end(body@) == crate::text::trim_end(c@.subrange(0, b as int)),
        decreases b,
    {
        assert(c@.subrange(0, b as int).drop_last() =~= c@.subrange(0, b - 1));
        b = b - 1;
    }
    push_chars(out, crate::text::slice_vec(c.as_slice(), 0, b).as_slice());
}

/// One article as standalone markdown, given its crumbs and its body as
/// rewritten for reading outside the site.
pub fn article_markdown(crumbs: &Vec<String>, article: &Article, body: &str) -> (r: String)
    ensures
        r@ == article_markdown_text(strs(crumbs@), *article, body@),
{
    let mut out = owned("# ");
    match &article.number {
        Some(n) => {
            push_label(&mut out, article.appendix);
            push_str(&mut out, n.as_str());
            push_str(&mut out, " ");
        },
        None => {},
    }
    push_str(&mut out, article.title.as_str());
    push_str(&mut out, "\n");
    push_str(&mut out, "\n_");
    push_joined(&mut out, crumbs, " / ");
    push_str(&mut out, "_\n");
    match &article.description {
        Some(d) => {
            push_str(&mut out, "\n> ");
            push_str(&mut out, d.as_str());
            push_str(&mut out, "\n");
        },
        None => {},
    }
    push_str(&mut out, "\n");
    push_trimmed_end(&mut out, body);
    push_str(&mut out, "\n");
    assert(crumbs@.map_values(|p: String| p@) =~= strs(crumbs@));
    assert(out@ =~= article_markdown_text(strs(crumbs@), *article, body@));
    out
}

/// The footer a standalone mirror carries: its Related Content list,
/// pointing at the targets' own mirrors.
pub open spec fn related_footer_text(related: Seq<(Seq<char>, Seq<char>)>) -> Seq<char> {
    if related.len() == 0 { Seq::empty() } else { "\nRelated content:\n\n"@ + related_lines(related) }
}

pub open spec fn related_lines(related: Seq<(Seq<char>, Seq<char>)>) -> Seq<char>
    decreases related.len(),
{
    if related.len() == 0 {
        Seq::empty()
    } else {
        related_lines(related.drop_last()) + "- ["@ + related.last().1 + "]("@ + related.last().0 + ".md)\n"@
    }
}

/// Appends the Related Content list of a standalone mirror; nothing for
/// an article without resolvable related pages.
pub fn push_related_footer(out: &mut String, related: &Vec<(String, String)>)
    ensures
        final(out)@ == old(out)@ + related_footer_text(related@.map_values(|e: (String, String)| (e.0@, e.1@))),
{
    let ghost rv = related@.map_values(|e: (String, String)| (e.0@, e.1@));
    if related.len() == 0 {
        assert(old(out)@ + related_footer_text(rv) =~= old(out)@);
        return;
    }
    push_str(out, "\nRelated content:\n\n");
    let ghost head = out@;
    for k in 0..related.len()
        invariant
            rv == related@.map_values(|e: (String, String)| (e.0@, e.1@)),
            out@ == head + related_lines(rv.take(k as int)),
    {
        assert(rv.take(k + 1).drop_last() =~= rv.take(k as int));
        push_str(out, "- [");
        push_str(out, related[k].1.as_str());
        push_str(out, "](");
        push_str(out, related[k].0.as_str());
        push_str(out, ".md)\n");
        assert(out@ =~= head + related_lines(rv.take(k + 1)));
    }
    assert(rv.take(rv.len() as int) =~= rv);
}

/// A whole unit as one markdown document: its heading and description,
/// then each article's markdown after a rule.
pub open spec fn bundle_text(title: Seq<char>, description: Option<Seq<char>>, articles: Seq<Seq<char>>) -> Seq<char> {
    "# "@ + title + "\n"@ + (match description { Some(d) => "\n> "@ + d + "\n"@, None => Seq::empty() })
        + bundle_parts(articles)
}

pub open spec fn bundle_parts(articles: Seq<Seq<char>>) -> Seq<char>
    decreases articles.len(),
{
    if articles.len() == 0 { Seq::empty() } else { bundle_parts(articles.drop_last()) + "\n---\n\n"@ + articles.last() }
}

/// A unit's bundle, given each entry's standalone markdown in order.
pub fn bundle_markdown(unit: &Unit, articles: &Vec<String>) -> (r: String)
    ensures
        r@ == bundle_text(unit.title@, match unit.description { Some(d) => Some(d@), None => None },
            articles@.map_values(|a: String| a@)),
{
    let ghost av = articles@.map_values(|a: String| a@);
    let mut out = owned("# ");
    push_str(&mut out, unit.title.as_str());
    push_str(&mut out, "\n");
    match &unit.description {
        Some(d) => {
            push_str(&mut out, "\n> ");
            push_str(&mut out, d.as_str());
            push_str(&mut out, "\n");
        },
        None => {},
    }
    let ghost head = out@;
    for k in 0..articles.len()
        invariant
            av == articles@.map_values(|a: String| a@),
            out@ == head + bundle_parts(av.take(k as int)),
    {
        assert(av.take(k + 1).drop_last() =~= av.take(k as int));
        push_str(&mut out, "\n---\n\n");
        push_str(&mut out, articles[k].as_str());
        assert(out@ =~= head + bundle_parts(av.take(k + 1)));
    }
    assert(av.take(av.len() as int) =~= av);
    out
}

/// Where each page of a unit is reached inside the unit's bundle: the
/// page (an alias by its original) and its anchor there.
pub open spec fn bundle_anchors_of(unit_path: Seq<char>, entries: Seq<EntryV>) -> Seq<(Seq<char>, Seq<char>)> {
    entries.map_values(|e: EntryV| (
        match e.1.original { Some(o) => o@, None => e.1.path@ },
        print_anchor_of(unit_path, e.1),
    ))
}

/// The anchors of a unit's pages within its bundle, so links between
/// pages of one bundle stay inside it.
pub fn bundle_anchors(unit: &Unit) -> (r: Vec<(String, String)>)
    ensures
        r@.map_values(|e: (String, String)| (e.0@, e.1@)) == bundle_anchors_of(unit.path@, entries_view(unit.entries@)),
{
    let ghost ev = entries_view(unit.entries@);
    let ghost want = bundle_anchors_of(unit.path@, ev);
    let mut out: Vec<(String, String)> = Vec::new();
    for k in 0..unit.entries.len()
        invariant
            ev == entries_view(unit.entries@),
            want == bundle_anchors_of(unit.path@, ev),
            out@.map_values(|e: (String, String)| (e.0@, e.1@)) == want.take(k as int),
    {
        let article = unit.entries[k].1;
        assert(ev[k as int].1 == *article);
        let key = match &article.original {
            Some(o) => o.clone(),
            None => article.path.clone(),
        };
        let anchor = print_anchor(unit.path.as_str(), article);
        let ghost before = out@.map_values(|e: (String, String)| (e.0@, e.1@));
        out.push((key, anchor));
        assert(out@.map_values(|e: (String, String)| (e.0@, e.1@)) =~= before.push(want[k as int]));
        assert(want.take(k + 1) =~= want.take(k as int).push(want[k as int]));
    }
    assert(want.take(want.len() as int) =~= want);
    out
}


/// A bundle anchor is one path segment: it never holds a slash.
pub proof fn law_print_anchor_has_no_slash(unit_path: Seq<char>, article: Article)
    ensures
        forall|k: int| 0 <= k < print_anchor_of(unit_path, article).len() ==> #[trigger] print_anchor_of(unit_path, article)[k] != '/',
{
}

/// Inside a unit's `/print` bundle, a link to one of the unit's pages
/// lands on that page's anchor in the bundle (its first entry there),
/// never outside the bundle; a fragment keeps the page's id prefix.
pub proof fn law_bundle_links_stay_inside(unit_path: Seq<char>, entries: Seq<EntryV>, k: int,
    fragment: Option<Seq<char>>, site: Option<Seq<char>>, base: Seq<char>)
    requires
        0 <= k < entries.len(),
        forall|j: int| 0 <= j < k ==> #[trigger] bundle_anchors_of(unit_path, entries)[j].0
            != bundle_anchors_of(unit_path, entries)[k].0,
    ensures
        ({
            let page = bundle_anchors_of(unit_path, entries)[k].0;
            let anchor = print_anchor_of(unit_path, entries[k].1);
            crate::markup::link_target_of(page, fragment, Some((bundle_anchors_of(unit_path, entries), site)), base)
                == match fragment {
                    Some(f) => "#"@ + anchor + "--"@ + f,
                    None => "#"@ + anchor,
                }
        }),
{
    let anchors = bundle_anchors_of(unit_path, entries);
    crate::markup::lemma_bundle_anchor_first(anchors, anchors[k].0, k);
}


/// Whether `part` occurs in `text`.
pub open spec fn occurs_in(part: Seq<char>, text: Seq<char>) -> bool {
    exists|p: int| 0 <= p && p + part.len() <= text.len() && #[trigger] text.subrange(p, p + part.len()) == part
}

proof fn lemma_aitem_lines_prefix(items: Seq<AnthologyItem>, j: int)
    requires
        0 <= j <= items.len(),
    ensures
        aitem_lines(items.take(j)).len() <= aitem_lines(items).len(),
        aitem_lines(items).subrange(0, aitem_lines(items.take(j)).len() as int) == aitem_lines(items.take(j)),
    decreases items.len(),
{
    if j == items.len() {
        assert(items.take(j) =~= items);
        assert(aitem_lines(items).subrange(0, aitem_lines(items).len() as int) =~= aitem_lines(items));
    } else {
        assert(items.drop_last().take(j) =~= items.take(j));
        lemma_aitem_lines_prefix(items.drop_last(), j);
        let l = aitem_lines(items.take(j)).len() as int;
        assert(aitem_lines(items) == aitem_lines(items.drop_last()) + aitem_line(items.last()));
        assert(aitem_lines(items).subrange(0, l) =~= aitem_lines(items.drop_last()).subrange(0, l));
    }
}

/// An anthology's mirror lists every anthology and book nested in it,
/// shelves looked through, as `- [title](path.md): description`.
pub proof fn law_anthology_mirror_lists_every_nested_item(a: Anthology, k: int)
    requires
        0 <= k < crate::site::anthology_items(a.children@).len(),
    ensures
        crate::site::anthology_items(a.children@)[k] matches AnthologyItem::Book { book } ==> occurs_in(
            "- ["@ + book.title@ + "]("@ + book.path@ + ".md): "@ + book.description@ + "\n"@, anthology_mirror_text(a)),
        crate::site::anthology_items(a.children@)[k] matches AnthologyItem::Anthology { anthology } ==> occurs_in(
            "- ["@ + anthology.title@ + "]("@ + anthology.path@ + ".md): "@ + anthology.description@ + "\n"@,
            anthology_mirror_text(a)),
{
    let items = crate::site::anthology_items(a.children@);
    lemma_aitem_lines_prefix(items, k + 1);
    assert(items.take(k + 1).drop_last() =~= items.take(k));
    assert(items.take(k + 1).last() == items[k]);
    let lines = aitem_lines(items);
    let before = aitem_lines(items.take(k));
    let line = aitem_line(items[k]);
    assert(aitem_lines(items.take(k + 1)) == before + line);
    let head = mirror_head(a.title@, a.description@, a.path@) + (if lists_any(items) { "\n"@ } else { Seq::empty() });
    let text = anthology_mirror_text(a);
    assert(text == head + lines + topic_sections_text(crate::site::item_topics(items)));
    let p: int = (head.len() + before.len()) as int;
    assert(lines.subrange(before.len() as int, (before.len() + line.len()) as int) =~= line) by {
        assert(lines.subrange(0, (before + line).len() as int) == before + line);
        assert(lines.subrange(before.len() as int, (before.len() + line.len()) as int)
            =~= lines.subrange(0, (before + line).len() as int).subrange(before.len() as int, (before.len() + line.len()) as int));
        assert((before + line).subrange(before.len() as int, (before.len() + line.len()) as int) =~= line);
    }
    assert(text.subrange(p, p + line.len() as int) =~= line);
    reveal_strlit(".md");
    reveal_strlit("): ");
    reveal_strlit(".md): ");
    match items[k] {
        AnthologyItem::Book { book } => {
            assert(line =~= "- ["@ + book.title@ + "]("@ + book.path@ + ".md): "@ + book.description@ + "\n"@);
        },
        AnthologyItem::Anthology { anthology } => {
            assert(line =~= "- ["@ + anthology.title@ + "]("@ + anthology.path@ + ".md): "@ + anthology.description@ + "\n"@);
        },
        _ => {},
    }
}

} // verus!
