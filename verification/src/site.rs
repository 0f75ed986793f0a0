//! The site model: products, anthologies, topics, books and articles,
//! with the ordered views the renderer and exporters walk.
use vstd::prelude::*;

verus! {

/// The root `trail.toml`.
pub struct SiteConfig {
    pub sitename: String,
    pub title: String,
    pub description: String,
    /// The public base URL, trailing slashes removed at load.
    pub url: Option<String>,
    /// Slugs of the products shown as cards on the front page, in order.
    pub featured: Vec<String>,
    pub footer: String,
    pub accent: Option<String>,
    pub accent_dark: Option<String>,
    pub custom_css: Option<String>,
    pub favicon: Option<String>,
    pub head_html: Option<String>,
    pub edit_url: Option<String>,
    pub nav: Vec<NavItem>,
    pub passthrough: Vec<String>,
    pub product_theming: bool,
    pub built_by_trail: bool,
}

/// One header navigation link.
pub struct NavItem {
    pub label: String,
    pub url: String,
}

/// An image file found beside the articles: its source path and the
/// site-absolute URL it publishes at.
pub struct ImageAsset {
    pub source: String,
    pub url: String,
}

/// The loaded and validated site.
pub struct Site {
    pub config: SiteConfig,
    /// Featured products first (in `featured` order), then the rest by title.
    pub products: Vec<Product>,
    pub images: Vec<ImageAsset>,
    /// The configured custom stylesheet's source file.
    pub custom_css: Option<String>,
    /// The configured favicon's source file.
    pub favicon: Option<String>,
    /// The head_html snippet's contents.
    pub head_html: Option<String>,
    /// The site root directory.
    pub root: String,
}

pub struct Product {
    pub slug: String,
    pub path: String,
    pub title: String,
    pub monogram: String,
    pub color: String,
    pub description: String,
    pub reading_minutes: u32,
    pub updated: Option<String>,
    pub inline_refs: Vec<String>,
    pub children: Vec<ProductChild>,
}

pub enum ProductChild {
    Item(ProductItem),
    Shelf(Shelf<ProductItem>),
}

pub enum ProductItem {
    Anthology { anthology: Anthology },
    Topic { topic: Topic },
    Book { book: Book },
}

/// A presentational grouping with no page or URL segment of its own.
pub struct Shelf<T> {
    pub slug: String,
    pub order: u32,
    pub title: String,
    pub items: Vec<T>,
}

/// One display section of a product or anthology page.
pub struct Section<'a, T> {
    /// None for a run of loose items; the shelf title otherwise.
    pub title: Option<&'a str>,
    pub items: Vec<&'a T>,
}

pub struct Anthology {
    pub slug: String,
    pub path: String,
    pub order: u32,
    pub title: String,
    pub description: String,
    pub reading_minutes: u32,
    pub updated: Option<String>,
    pub inline_refs: Vec<String>,
    pub children: Vec<AnthologyChild>,
}

pub enum AnthologyChild {
    Item(AnthologyItem),
    Shelf(Shelf<AnthologyItem>),
}

pub enum AnthologyItem {
    Topic { topic: Topic },
    Book { book: Book },
    Anthology { anthology: Anthology },
}

pub struct Topic {
    pub slug: String,
    pub path: String,
    pub order: u32,
    pub title: String,
    pub reading_minutes: u32,
    pub updated: Option<String>,
    pub inline_refs: Vec<String>,
    pub children: Vec<TopicChild>,
    /// `.link` entries awaiting resolution.
    pub links: Vec<LinkStub>,
}

pub enum TopicChild {
    Article { article: Article },
    Folder { folder: TopicFolder },
}

pub struct TopicFolder {
    pub slug: String,
    pub path: String,
    pub order: u32,
    pub title: String,
    pub entry: Option<String>,
    pub reading_minutes: u32,
    pub updated: Option<String>,
    pub inline_refs: Vec<String>,
    pub articles: Vec<Article>,
    pub links: Vec<LinkStub>,
}

pub struct Article {
    pub slug: String,
    pub path: String,
    pub order: u32,
    pub title: String,
    pub number: Option<String>,
    pub appendix: bool,
    pub kind: Option<String>,
    pub description: Option<String>,
    pub related: Vec<String>,
    pub inline_refs: Vec<String>,
    pub updated: Option<String>,
    pub reading_minutes: u32,
    pub original: Option<String>,
    pub body: String,
    pub source_dir: String,
    pub source_file: String,
}

pub struct Book {
    pub slug: String,
    pub path: String,
    pub order: u32,
    pub title: String,
    pub short: Option<String>,
    pub description: String,
    pub reading_minutes: u32,
    pub updated: Option<String>,
    pub inline_refs: Vec<String>,
    pub children: Vec<BookChild>,
    pub links: Vec<LinkStub>,
}

pub enum BookChild {
    Article { article: Article },
    Chapter { chapter: Chapter },
}

pub struct Chapter {
    pub slug: String,
    pub path: String,
    pub order: u32,
    pub number: String,
    pub appendix: bool,
    pub title: String,
    pub entry: String,
    pub reading_minutes: u32,
    pub updated: Option<String>,
    pub inline_refs: Vec<String>,
    pub children: Vec<BookChild>,
    pub links: Vec<LinkStub>,
}

/// An unresolved `.link` entry.
pub struct LinkStub {
    pub slug: String,
    pub order: u32,
    pub appendix: bool,
    pub title: String,
    pub target: String,
}


/// A sequence of references, read as the values they point to.
pub open spec fn derefs<T>(s: Seq<&T>) -> Seq<T> {
    s.map_values(|r: &T| *r)
}

/// The items a product child contributes to the flattened item list.
pub open spec fn product_child_items(child: ProductChild) -> Seq<ProductItem> {
    match child {
        ProductChild::Item(item) => seq![item],
        ProductChild::Shelf(shelf) => shelf.items@,
    }
}

/// Product children flattened into display order: shelves are inlined.
pub open spec fn product_items(children: Seq<ProductChild>) -> Seq<ProductItem>
    decreases children.len(),
{
    if children.len() == 0 {
        Seq::empty()
    } else {
        product_items(children.drop_last()) + product_child_items(children.last())
    }
}

/// The items an anthology child contributes to the flattened item list.
pub open spec fn anthology_child_items(child: AnthologyChild) -> Seq<AnthologyItem> {
    match child {
        AnthologyChild::Item(item) => seq![item],
        AnthologyChild::Shelf(shelf) => shelf.items@,
    }
}

/// Anthology children flattened into display order: shelves are inlined.
pub open spec fn anthology_items(children: Seq<AnthologyChild>) -> Seq<AnthologyItem>
    decreases children.len(),
{
    if children.len() == 0 {
        Seq::empty()
    } else {
        anthology_items(children.drop_last()) + anthology_child_items(children.last())
    }
}

/// The articles a topic child contributes to the topic's reading order.
pub open spec fn topic_child_pages(child: TopicChild) -> Seq<Article> {
    match child {
        TopicChild::Article { article } => seq![article],
        TopicChild::Folder { folder } => folder.articles@,
    }
}

/// A topic's articles in reading order, folder contents inlined.
pub open spec fn topic_pages(children: Seq<TopicChild>) -> Seq<Article>
    decreases children.len(),
{
    if children.len() == 0 {
        Seq::empty()
    } else {
        topic_pages(children.drop_last()) + topic_child_pages(children.last())
    }
}

/// Appends the items a product child contributes.
fn push_product_child_items<'a>(child: &'a ProductChild, out: &mut Vec<&'a ProductItem>)
    ensures
        derefs(final(out)@) == derefs(old(out)@) + product_child_items(*child),
{
    match child {
        ProductChild::Item(item) => {
            out.push(item);
            assert(derefs(out@) =~= derefs(old(out)@) + product_child_items(*child));
        },
        ProductChild::Shelf(shelf) => {
            let ghost start = derefs(out@);
            for i in 0..shelf.items.len()
                invariant
                    derefs(out@) == start + shelf.items@.take(i as int),
            {
                let ghost before = derefs(out@);
                out.push(&shelf.items[i]);
                assert(derefs(out@) =~= before.push(shelf.items@[i as int]));
                assert(shelf.items@.take(i + 1) =~= shelf.items@.take(i as int).push(shelf.items@[i as int]));
                assert(derefs(out@) =~= start + shelf.items@.take(i + 1));
            }
            assert(shelf.items@.take(shelf.items.len() as int) =~= shelf.items@);
        },
    }
}

/// Appends the items an anthology child contributes.
fn push_anthology_child_items<'a>(child: &'a AnthologyChild, out: &mut Vec<&'a AnthologyItem>)
    ensures
        derefs(final(out)@) == derefs(old(out)@) + anthology_child_items(*child),
{
    match child {
        AnthologyChild::Item(item) => {
            out.push(item);
            assert(derefs(out@) =~= derefs(old(out)@) + anthology_child_items(*child));
        },
        AnthologyChild::Shelf(shelf) => {
            let ghost start = derefs(out@);
            for i in 0..shelf.items.len()
                invariant
                    derefs(out@) == start + shelf.items@.take(i as int),
            {
                let ghost before = derefs(out@);
                out.push(&shelf.items[i]);
                assert(derefs(out@) =~= before.push(shelf.items@[i as int]));
                assert(shelf.items@.take(i + 1) =~= shelf.items@.take(i as int).push(shelf.items@[i as int]));
                assert(derefs(out@) =~= start + shelf.items@.take(i + 1));
            }
            assert(shelf.items@.take(shelf.items.len() as int) =~= shelf.items@);
        },
    }
}

impl Product {
    /// The product's anthologies, books and topics in display order, with
    /// shelf contents flattened in place.
    pub fn items(&self) -> (res: Vec<&ProductItem>)
        ensures
            derefs(res@) == product_items(self.children@),
    {
        let mut out: Vec<&ProductItem> = Vec::new();
        for i in 0..self.children.len()
            invariant
                derefs(out@) == product_items(self.children@.take(i as int)),
        {
            push_product_child_items(&self.children[i], &mut out);
            assert(self.children@.take(i + 1).drop_last() =~= self.children@.take(i as int));
        }
        assert(self.children@.take(self.children.len() as int) =~= self.children@);
        out
    }
}

impl Anthology {
    /// The anthology's topics, books and nested anthologies in display
    /// order, with shelf contents flattened in place.
    pub fn items(&self) -> (res: Vec<&AnthologyItem>)
        ensures
            derefs(res@) == anthology_items(self.children@),
    {
        let mut out: Vec<&AnthologyItem> = Vec::new();
        for i in 0..self.children.len()
            invariant
                derefs(out@) == anthology_items(self.children@.take(i as int)),
        {
            push_anthology_child_items(&self.children[i], &mut out);
            assert(self.children@.take(i + 1).drop_last() =~= self.children@.take(i as int));
        }
        assert(self.children@.take(self.children.len() as int) =~= self.children@);
        out
    }
}

impl Topic {
    /// Every article in reading order, subfolder contents flattened in place.
    pub fn pages(&self) -> (res: Vec<&Article>)
        ensures
            derefs(res@) == topic_pages(self.children@),
    {
        let mut out: Vec<&Article> = Vec::new();
        for i in 0..self.children.len()
            invariant
                derefs(out@) == topic_pages(self.children@.take(i as int)),
        {
            assert(self.children@.take(i + 1).drop_last() =~= self.children@.take(i as int));
            match &self.children[i] {
                TopicChild::Article { article } => {
                    let ghost before = derefs(out@);
                    out.push(article);
                    assert(derefs(out@) =~= before + seq![*article]);
                },
                TopicChild::Folder { folder } => {
                    let ghost start = derefs(out@);
                    for j in 0..folder.articles.len()
                        invariant
                            derefs(out@) == start + folder.articles@.take(j as int),
                    {
                        let ghost before = derefs(out@);
                        out.push(&folder.articles[j]);
                        assert(derefs(out@) =~= before.push(folder.articles@[j as int]));
                        assert(folder.articles@.take(j + 1) =~= folder.articles@.take(j as int).push(folder.articles@[j as int]));
                        assert(derefs(out@) =~= start + folder.articles@.take(j + 1));
                    }
                    assert(folder.articles@.take(folder.articles.len() as int) =~= folder.articles@);
                },
            }
        }
        assert(self.children@.take(self.children.len() as int) =~= self.children@);
        out
    }
}


/// A display section as plain values: its title and its items.
pub open spec fn section_view<'a, T>(section: Section<'a, T>) -> (Option<Seq<char>>, Seq<T>) {
    (match section.title {
        Some(t) => Some(t@),
        None => None,
    }, derefs(section.items@))
}

/// Sections as plain values.
pub open spec fn sections_view<'a, T>(sections: Seq<Section<'a, T>>) -> Seq<(Option<Seq<char>>, Seq<T>)> {
    sections.map_values(|s: Section<'a, T>| section_view(s))
}

/// Closes a pending run of loose items into an untitled section.
pub open spec fn close_loose<T>(sections: Seq<(Option<Seq<char>>, Seq<T>)>, loose: Seq<T>) -> Seq<(Option<Seq<char>>, Seq<T>)> {
    if loose.len() > 0 { sections.push((None, loose)) } else { sections }
}

/// The sections built so far from a prefix of product children, and the run
/// of loose items not yet closed.
pub open spec fn product_sections_fold(children: Seq<ProductChild>) -> (Seq<(Option<Seq<char>>, Seq<ProductItem>)>, Seq<ProductItem>)
    decreases children.len(),
{
    if children.len() == 0 {
        (Seq::empty(), Seq::empty())
    } else {
        let (sections, loose) = product_sections_fold(children.drop_last());
        match children.last() {
            ProductChild::Item(item) => (sections, loose.push(item)),
            ProductChild::Shelf(shelf) => (close_loose(sections, loose).push((Some(shelf.title@), shelf.items@)), Seq::empty()),
        }
    }
}

/// Display sections: runs of loose items coalesce into untitled
/// sections; each shelf is a titled one.
pub open spec fn product_sections(children: Seq<ProductChild>) -> Seq<(Option<Seq<char>>, Seq<ProductItem>)> {
    let (sections, loose) = product_sections_fold(children);
    close_loose(sections, loose)
}

impl Product {
    /// Display sections for the product page: runs of loose items coalesce
    /// into untitled sections; each shelf is a titled one.
    pub fn sections(&self) -> (res: Vec<Section<'_, ProductItem>>)
        ensures
            sections_view(res@) == product_sections(self.children@),
    {
        let mut sections: Vec<Section<'_, ProductItem>> = Vec::new();
        let mut loose: Vec<&ProductItem> = Vec::new();
        for i in 0..self.children.len()
            invariant
                (sections_view(sections@), derefs(loose@)) == product_sections_fold(self.children@.take(i as int)),
        {
            assert(self.children@.take(i + 1).drop_last() =~= self.children@.take(i as int));
            match &self.children[i] {
                ProductChild::Item(item) => {
                    let ghost before = derefs(loose@);
                    loose.push(item);
                    assert(derefs(loose@) =~= before.push(*item));
                },
                ProductChild::Shelf(shelf) => {
                    let ghost before = sections_view(sections@);
                    if loose.len() > 0 {
                        let taken = loose;
                        loose = Vec::new();
                        sections.push(Section { title: None, items: taken });
                        assert(sections_view(sections@) =~= before.push((None, derefs(taken@))));
                    }
                    let ghost middle = sections_view(sections@);
                    let mut items: Vec<&ProductItem> = Vec::new();
                    for j in 0..shelf.items.len()
                        invariant
                            derefs(items@) == shelf.items@.take(j as int),
                    {
                        let ghost b = derefs(items@);
                        items.push(&shelf.items[j]);
                        assert(derefs(items@) =~= b.push(shelf.items@[j as int]));
                        assert(shelf.items@.take(j + 1) =~= shelf.items@.take(j as int).push(shelf.items@[j as int]));
                    }
                    assert(shelf.items@.take(shelf.items.len() as int) =~= shelf.items@);
                    sections.push(Section { title: Some(shelf.title.as_str()), items });
                    assert(sections_view(sections@) =~= middle.push((Some(shelf.title@), shelf.items@)));
                    assert(derefs(loose@) =~= Seq::<ProductItem>::empty());
                },
            }
        }
        assert(self.children@.take(self.children.len() as int) =~= self.children@);
        if loose.len() > 0 {
            let ghost before = sections_view(sections@);
            sections.push(Section { title: None, items: loose });
            assert(sections_view(sections@) =~= before.push((None, derefs(loose@))));
        }
        sections
    }
}

/// The sections built so far from a prefix of anthology children, and the run
/// of loose items not yet closed.
pub open spec fn anthology_sections_fold(children: Seq<AnthologyChild>) -> (Seq<(Option<Seq<char>>, Seq<AnthologyItem>)>, Seq<AnthologyItem>)
    decreases children.len(),
{
    if children.len() == 0 {
        (Seq::empty(), Seq::empty())
    } else {
        let (sections, loose) = anthology_sections_fold(children.drop_last());
        match children.last() {
            AnthologyChild::Item(item) => (sections, loose.push(item)),
            AnthologyChild::Shelf(shelf) => (close_loose(sections, loose).push((Some(shelf.title@), shelf.items@)), Seq::empty()),
        }
    }
}

/// Display sections: runs of loose items coalesce into untitled
/// sections; each shelf is a titled one.
pub open spec fn anthology_sections(children: Seq<AnthologyChild>) -> Seq<(Option<Seq<char>>, Seq<AnthologyItem>)> {
    let (sections, loose) = anthology_sections_fold(children);
    close_loose(sections, loose)
}

impl Anthology {
    /// Display sections for the anthology page: runs of loose items coalesce
    /// into untitled sections; each shelf is a titled one.
    pub fn sections(&self) -> (res: Vec<Section<'_, AnthologyItem>>)
        ensures
            sections_view(res@) == anthology_sections(self.children@),
    {
        let mut sections: Vec<Section<'_, AnthologyItem>> = Vec::new();
        let mut loose: Vec<&AnthologyItem> = Vec::new();
        for i in 0..self.children.len()
            invariant
                (sections_view(sections@), derefs(loose@)) == anthology_sections_fold(self.children@.take(i as int)),
        {
            assert(self.children@.take(i + 1).drop_last() =~= self.children@.take(i as int));
            match &self.children[i] {
                AnthologyChild::Item(item) => {
                    let ghost before = derefs(loose@);
                    loose.push(item);
                    assert(derefs(loose@) =~= before.push(*item));
                },
                AnthologyChild::Shelf(shelf) => {
                    let ghost before = sections_view(sections@);
                    if loose.len() > 0 {
                        let taken = loose;
                        loose = Vec::new();
                        sections.push(Section { title: None, items: taken });
                        assert(sections_view(sections@) =~= before.push((None, derefs(taken@))));
                    }
                    let ghost middle = sections_view(sections@);
                    let mut items: Vec<&AnthologyItem> = Vec::new();
                    for j in 0..shelf.items.len()
                        invariant
                            derefs(items@) == shelf.items@.take(j as int),
                    {
                        let ghost b = derefs(items@);
                        items.push(&shelf.items[j]);
                        assert(derefs(items@) =~= b.push(shelf.items@[j as int]));
                        assert(shelf.items@.take(j + 1) =~= shelf.items@.take(j as int).push(shelf.items@[j as int]));
                    }
                    assert(shelf.items@.take(shelf.items.len() as int) =~= shelf.items@);
                    sections.push(Section { title: Some(shelf.title.as_str()), items });
                    assert(sections_view(sections@) =~= middle.push((Some(shelf.title@), shelf.items@)));
                    assert(derefs(loose@) =~= Seq::<AnthologyItem>::empty());
                },
            }
        }
        assert(self.children@.take(self.children.len() as int) =~= self.children@);
        if loose.len() > 0 {
            let ghost before = sections_view(sections@);
            sections.push(Section { title: None, items: loose });
            assert(sections_view(sections@) =~= before.push((None, derefs(loose@))));
        }
        sections
    }
}


/// A book's articles in reading order, each with its chapter trail,
/// for a run of children reached through `trail`.
pub open spec fn book_walk(children: Seq<BookChild>, trail: Seq<Chapter>) -> Seq<(Seq<Chapter>, Article)>
    decreases children,
{
    if children.len() == 0 {
        Seq::empty()
    } else {
        book_walk(children.drop_last(), trail) + match children.last() {
            BookChild::Article { article } => seq![(trail, article)],
            BookChild::Chapter { chapter } => book_walk(chapter.children@, trail.push(chapter)),
        }
    }
}

/// A walked entry as plain values.
pub open spec fn walk_view<'a>(e: (Vec<&'a Chapter>, &'a Article)) -> (Seq<Chapter>, Article) {
    (derefs(e.0@), *e.1)
}

/// Walks a run of book children, appending every article with its trail.
fn walk_book<'a>(children: &'a Vec<BookChild>, trail: &mut Vec<&'a Chapter>, out: &mut Vec<(Vec<&'a Chapter>, &'a Article)>)
    ensures
        derefs(final(trail)@) == derefs(old(trail)@),
        final(out)@.map_values(|e: (Vec<&'a Chapter>, &'a Article)| walk_view(e))
            == old(out)@.map_values(|e: (Vec<&'a Chapter>, &'a Article)| walk_view(e)) + book_walk(children@, derefs(old(trail)@)),
    decreases children@,
{
    let ghost t0 = derefs(trail@);
    let ghost o0 = out@.map_values(|e: (Vec<&'a Chapter>, &'a Article)| walk_view(e));
    for i in 0..children.len()
        invariant
            derefs(trail@) == t0,
            out@.map_values(|e: (Vec<&'a Chapter>, &'a Article)| walk_view(e)) == o0 + book_walk(children@.take(i as int), t0),
    {
        assert(children@.take(i + 1).drop_last() =~= children@.take(i as int));
        let ghost before = out@.map_values(|e: (Vec<&'a Chapter>, &'a Article)| walk_view(e));
        match &children[i] {
            BookChild::Article { article } => {
                let copy = clone_trail(trail);
                out.push((copy, article));
                assert(out@.map_values(|e: (Vec<&'a Chapter>, &'a Article)| walk_view(e)) =~= before.push((t0, *article)));
            },
            BookChild::Chapter { chapter } => {
                assert(decreases_to!(children@ => children@[i as int]));
                let ghost tb = trail@;
                trail.push(chapter);
                assert(derefs(trail@) =~= t0.push(*chapter));
                walk_book(&chapter.children, trail, out);
                let ghost tw = trail@;
                assert(derefs(tw) == t0.push(*chapter));
                trail.pop();
                assert(trail@ =~= tw.drop_last());
                assert(derefs(trail@) =~= derefs(tw).drop_last());
                assert(derefs(trail@) =~= t0);
            },
        }
    }
    assert(children@.take(children.len() as int) =~= children@);
}

/// A copy of a chapter trail.
fn clone_trail<'a>(trail: &Vec<&'a Chapter>) -> (r: Vec<&'a Chapter>)
    ensures
        derefs(r@) == derefs(trail@),
{
    let mut r: Vec<&'a Chapter> = Vec::new();
    for i in 0..trail.len()
        invariant
            derefs(r@) == derefs(trail@).take(i as int),
    {
        let ghost b = derefs(r@);
        r.push(trail[i]);
        assert(derefs(r@) =~= b.push(*trail@[i as int]));
        assert(derefs(trail@).take(i + 1) =~= derefs(trail@).take(i as int).push(*trail@[i as int]));
    }
    assert(derefs(trail@).take(trail.len() as int) =~= derefs(trail@));
    r
}

impl Book {
    /// Every article in reading order, each with its chapter trail.
    pub fn articles(&self) -> (res: Vec<(Vec<&Chapter>, &Article)>)
        ensures
            res@.map_values(|e: (Vec<&Chapter>, &Article)| walk_view(e)) == book_walk(self.children@, Seq::empty()),
    {
        let mut out: Vec<(Vec<&Chapter>, &Article)> = Vec::new();
        let mut trail: Vec<&Chapter> = Vec::new();
        assert(derefs(trail@) =~= Seq::<Chapter>::empty());
        walk_book(&self.children, &mut trail, &mut out);
        assert(out@.map_values(|e: (Vec<&Chapter>, &Article)| walk_view(e)) =~= book_walk(self.children@, Seq::empty()));
        out
    }
}


impl ProductItem {
    /// The item's order prefix.
    pub fn order(&self) -> (r: u32)
        ensures
            r == match *self {
                ProductItem::Anthology { anthology } => anthology.order,
                ProductItem::Topic { topic } => topic.order,
                ProductItem::Book { book } => book.order,
            },
    {
        match self {
            ProductItem::Anthology { anthology } => anthology.order,
            ProductItem::Topic { topic } => topic.order,
            ProductItem::Book { book } => book.order,
        }
    }

    /// The item's slug.
    pub fn slug(&self) -> (r: &str)
        ensures
            r@ == match *self {
                ProductItem::Anthology { anthology } => anthology.slug@,
                ProductItem::Topic { topic } => topic.slug@,
                ProductItem::Book { book } => book.slug@,
            },
    {
        match self {
            ProductItem::Anthology { anthology } => anthology.slug.as_str(),
            ProductItem::Topic { topic } => topic.slug.as_str(),
            ProductItem::Book { book } => book.slug.as_str(),
        }
    }
}

impl ProductChild {
    /// The child's order prefix: an item's own, or the shelf's.
    pub fn order(&self) -> (r: u32)
        ensures
            r == match *self {
                ProductChild::Item(item) => match item {
                    ProductItem::Anthology { anthology } => anthology.order,
                    ProductItem::Topic { topic } => topic.order,
                    ProductItem::Book { book } => book.order,
                },
                ProductChild::Shelf(shelf) => shelf.order,
            },
    {
        match self {
            ProductChild::Item(item) => item.order(),
            ProductChild::Shelf(shelf) => shelf.order,
        }
    }

    /// The child's slug: an item's own, or the shelf's.
    pub fn slug(&self) -> (r: &str)
        ensures
            r@ == match *self {
                ProductChild::Item(item) => match item {
                    ProductItem::Anthology { anthology } => anthology.slug@,
                    ProductItem::Topic { topic } => topic.slug@,
                    ProductItem::Book { book } => book.slug@,
                },
                ProductChild::Shelf(shelf) => shelf.slug@,
            },
    {
        match self {
            ProductChild::Item(item) => item.slug(),
            ProductChild::Shelf(shelf) => shelf.slug.as_str(),
        }
    }
}

impl AnthologyItem {
    /// The item's order prefix.
    pub fn order(&self) -> (r: u32)
        ensures
            r == match *self {
                AnthologyItem::Topic { topic } => topic.order,
                AnthologyItem::Book { book } => book.order,
                AnthologyItem::Anthology { anthology } => anthology.order,
            },
    {
        match self {
            AnthologyItem::Topic { topic } => topic.order,
            AnthologyItem::Book { book } => book.order,
            AnthologyItem::Anthology { anthology } => anthology.order,
        }
    }

    /// The item's slug.
    pub fn slug(&self) -> (r: &str)
        ensures
            r@ == match *self {
                AnthologyItem::Topic { topic } => topic.slug@,
                AnthologyItem::Book { book } => book.slug@,
                AnthologyItem::Anthology { anthology } => anthology.slug@,
            },
    {
        match self {
            AnthologyItem::Topic { topic } => topic.slug.as_str(),
            AnthologyItem::Book { book } => book.slug.as_str(),
            AnthologyItem::Anthology { anthology } => anthology.slug.as_str(),
        }
    }
}

impl AnthologyChild {
    /// The child's order prefix: an item's own, or the shelf's.
    pub fn order(&self) -> (r: u32)
        ensures
            r == match *self {
                AnthologyChild::Item(item) => match item {
                    AnthologyItem::Topic { topic } => topic.order,
                    AnthologyItem::Book { book } => book.order,
                    AnthologyItem::Anthology { anthology } => anthology.order,
                },
                AnthologyChild::Shelf(shelf) => shelf.order,
            },
    {
        match self {
            AnthologyChild::Item(item) => item.order(),
            AnthologyChild::Shelf(shelf) => shelf.order,
        }
    }

    /// The child's slug: an item's own, or the shelf's.
    pub fn slug(&self) -> (r: &str)
        ensures
            r@ == match *self {
                AnthologyChild::Item(item) => match item {
                    AnthologyItem::Topic { topic } => topic.slug@,
                    AnthologyItem::Book { book } => book.slug@,
                    AnthologyItem::Anthology { anthology } => anthology.slug@,
                },
                AnthologyChild::Shelf(shelf) => shelf.slug@,
            },
    {
        match self {
            AnthologyChild::Item(item) => item.slug(),
            AnthologyChild::Shelf(shelf) => shelf.slug.as_str(),
        }
    }
}

impl TopicChild {
    /// The child's order prefix.
    pub fn order(&self) -> (r: u32)
        ensures
            r == match *self {
                TopicChild::Article { article } => article.order,
                TopicChild::Folder { folder } => folder.order,
            },
    {
        match self {
            TopicChild::Article { article } => article.order,
            TopicChild::Folder { folder } => folder.order,
        }
    }

    /// The child's slug.
    pub fn slug(&self) -> (r: &str)
        ensures
            r@ == match *self {
                TopicChild::Article { article } => article.slug@,
                TopicChild::Folder { folder } => folder.slug@,
            },
    {
        match self {
            TopicChild::Article { article } => article.slug.as_str(),
            TopicChild::Folder { folder } => folder.slug.as_str(),
        }
    }
}

impl BookChild {
    /// The child's order prefix.
    pub fn order(&self) -> (r: u32)
        ensures
            r == match *self {
                BookChild::Article { article } => article.order,
                BookChild::Chapter { chapter } => chapter.order,
            },
    {
        match self {
            BookChild::Article { article } => article.order,
            BookChild::Chapter { chapter } => chapter.order,
        }
    }

    /// Whether the child is an appendix entry.
    pub fn appendix(&self) -> (r: bool)
        ensures
            r == match *self {
                BookChild::Article { article } => article.appendix,
                BookChild::Chapter { chapter } => chapter.appendix,
            },
    {
        match self {
            BookChild::Article { article } => article.appendix,
            BookChild::Chapter { chapter } => chapter.appendix,
        }
    }

    /// The order prefix as authored: "3", or "a1" for an appendix.
    pub fn order_label(&self) -> (r: String)
        ensures
            r@ == if self.appendix_spec() { seq!['a'] + crate::text::decimal(self.order_spec() as nat) } else { crate::text::decimal(self.order_spec() as nat) },
    {
        let mut s = String::new();
        if self.appendix() {
            s.push('a');
        }
        crate::text::push_decimal(&mut s, self.order());
        s
    }

    /// The child's slug.
    pub fn slug(&self) -> (r: &str)
        ensures
            r@ == match *self {
                BookChild::Article { article } => article.slug@,
                BookChild::Chapter { chapter } => chapter.slug@,
            },
    {
        match self {
            BookChild::Article { article } => article.slug.as_str(),
            BookChild::Chapter { chapter } => chapter.slug.as_str(),
        }
    }

    pub open spec fn appendix_spec(&self) -> bool {
        match *self {
            BookChild::Article { article } => article.appendix,
            BookChild::Chapter { chapter } => chapter.appendix,
        }
    }

    pub open spec fn order_spec(&self) -> u32 {
        match *self {
            BookChild::Article { article } => article.order,
            BookChild::Chapter { chapter } => chapter.order,
        }
    }
}

impl Topic {
    /// Where topic links land: the first article in reading order; None
    /// for a topic with no articles anywhere.
    pub fn entry(&self) -> (r: Option<&str>)
        ensures
            match r {
                Some(p) => topic_pages(self.children@).len() > 0 && p@ == topic_pages(self.children@)[0].path@,
                None => topic_pages(self.children@).len() == 0,
            },
    {
        let pages = self.pages();
        if pages.len() > 0 {
            Some(pages[0].path.as_str())
        } else {
            None
        }
    }
}

/// The topics among a run of anthology items.
pub open spec fn item_topics(items: Seq<AnthologyItem>) -> Seq<Topic>
    decreases items.len(),
{
    if items.len() == 0 {
        Seq::empty()
    } else {
        item_topics(items.drop_last()) + match items.last() {
            AnthologyItem::Topic { topic } => seq![topic],
            _ => Seq::empty(),
        }
    }
}

impl Anthology {
    /// The anthology's direct topics in display order, shelf contents
    /// inlined.
    pub fn topics(&self) -> (r: Vec<&Topic>)
        ensures
            derefs(r@) == item_topics(anthology_items(self.children@)),
    {
        let items = self.items();
        let mut out: Vec<&Topic> = Vec::new();
        for i in 0..items.len()
            invariant
                derefs(items@) == anthology_items(self.children@),
                derefs(out@) == item_topics(derefs(items@).take(i as int)),
        {
            assert(derefs(items@).take(i + 1).drop_last() =~= derefs(items@).take(i as int));
            assert(derefs(items@).take(i + 1).last() == *items@[i as int]);
            match items[i] {
                AnthologyItem::Topic { topic } => {
                    let ghost b = derefs(out@);
                    out.push(topic);
                    assert(derefs(out@) =~= b + seq![*topic]);
                },
                _ => {
                    assert(derefs(out@) =~= item_topics(derefs(items@).take(i + 1)));
                },
            }
        }
        assert(derefs(items@).take(items.len() as int) =~= derefs(items@));
        out
    }
}

/// The products a featured list names, in its order; slugs naming no
/// product are passed over.
pub open spec fn featured_products(featured: Seq<String>, products: Seq<Product>) -> Seq<Product>
    decreases featured.len(),
{
    if featured.len() == 0 {
        Seq::empty()
    } else {
        featured_products(featured.drop_last(), products) + match first_product(products, featured.last()@) {
            Some(j) => seq![products[j]],
            None => Seq::empty(),
        }
    }
}

/// The first product with the slug.
pub open spec fn first_product(products: Seq<Product>, slug: Seq<char>) -> Option<int>
    decreases products.len(),
{
    if products.len() == 0 {
        None
    } else {
        match first_product(products.drop_last(), slug) {
            Some(j) => Some(j),
            None => if products.last().slug@ == slug { Some(products.len() - 1) } else { None },
        }
    }
}

proof fn lemma_first_product(products: Seq<Product>, slug: Seq<char>, n: int)
    requires
        0 <= n <= products.len(),
    ensures
        first_product(products.take(n), slug) is Some ==> first_product(products, slug) == first_product(products.take(n), slug),
        first_product(products.take(n), slug) is Some ==> 0 <= first_product(products.take(n), slug)->Some_0 < n,
    decreases products.len(),
{
    if n < products.len() {
        assert(products.drop_last().take(n) =~= products.take(n));
        lemma_first_product(products.drop_last(), slug, n);
    } else {
        assert(products.take(n) =~= products);
        lemma_first_product_bounds(products, slug);
    }
}

proof fn lemma_first_product_bounds(products: Seq<Product>, slug: Seq<char>)
    ensures
        first_product(products, slug) is Some ==> 0 <= first_product(products, slug)->Some_0 < products.len(),
    decreases products.len(),
{
    if products.len() > 0 {
        lemma_first_product_bounds(products.drop_last(), slug);
    }
}

/// A path with its trailing separators and trailing `.` components
/// taken off: `x/y/` and `x/y/.` both become `x/y`.
pub open spec fn trim_path_end(p: Seq<char>) -> Seq<char>
    decreases p.len(),
{
    if p.len() > 0 && p.last() == '/' {
        trim_path_end(p.drop_last())
    } else if p.len() >= 2 && p.last() == '.' && p[p.len() - 2] == '/' {
        trim_path_end(p.drop_last())
    } else {
        p
    }
}

/// The file name at the end of a path: its last component, once trailing
/// separators and `.` components are set aside.
pub open spec fn file_name(p: Seq<char>) -> Seq<char> {
    let t = trim_path_end(p);
    match crate::text::last_index(t, '/') {
        Some(k) => t.skip(k + 1),
        None => t,
    }
}

/// Whether a path ends in a file name at all: not empty, not the root,
/// not `.` and not `..`.
pub open spec fn has_file_name(p: Seq<char>) -> bool {
    let f = file_name(p);
    f.len() > 0 && f != seq!['.'] && f != seq!['.', '.']
}

impl Site {
    /// The products shown as cards on the front page, in `featured`
    /// order.
    pub fn featured(&self) -> (r: Vec<&Product>)
        ensures
            derefs(r@) == featured_products(self.config.featured@, self.products@),
    {
        let mut out: Vec<&Product> = Vec::new();
        let f = &self.config.featured;
        for i in 0..f.len()
            invariant
                f == &self.config.featured,
                derefs(out@) == featured_products(f@.take(i as int), self.products@),
        {
            assert(f@.take(i + 1).drop_last() =~= f@.take(i as int));
            let slug = f[i].as_str();
            let mut j: usize = 0;
            let mut found: Option<usize> = None;
            while j < self.products.len()
                invariant
                    j <= self.products@.len(),
                    found is None ==> first_product(self.products@.take(j as int), slug@) is None,
                    found matches Some(x) ==> first_product(self.products@, slug@) == Some(x as int) && x < self.products@.len(),
                decreases self.products@.len() - j,
            {
                if found.is_none() {
                    assert(self.products@.take(j + 1).drop_last() =~= self.products@.take(j as int));
                    if crate::text::text_eq(self.products[j].slug.as_str(), slug) {
                        proof {
                            lemma_first_product(self.products@, slug@, j + 1);
                        }
                        found = Some(j);
                    }
                }
                j = j + 1;
            }
            if found.is_none() {
                assert(self.products@.take(j as int) =~= self.products@);
            }
            let ghost b = derefs(out@);
            match found {
                Some(x) => {
                    out.push(&self.products[x]);
                    assert(derefs(out@) =~= b + seq![self.products@[x as int]]);
                },
                None => {},
            }
            assert(f@.take(i + 1).last() == f@[i as int]);
        }
        assert(f@.take(f@.len() as int) =~= f@);
        out
    }

    /// The served favicon URL: the configured file's own name at the
    /// output root.
    pub fn favicon_href(&self) -> (r: Option<String>)
        requires
            self.favicon matches Some(f) ==> has_file_name(f@),
        ensures
            match self.favicon {
                Some(source) => r matches Some(h) && h@ == seq!['/'] + file_name(source@),
                None => r is None,
            },
    {
        match &self.favicon {
            Some(source) => {
                let c = crate::text::chars_of(source.as_str());
                let mut end = c.len();
                assert(c@.take(end as int) =~= c@);
                while end > 0 && (c[end - 1] == '/' || (end >= 2 && c[end - 1] == '.' && c[end - 2] == '/'))
                    invariant
                        end <= c@.len(),
                        trim_path_end(c@.take(end as int)) == trim_path_end(c@),
                    decreases end,
                {
                    assert(c@.take(end as int).drop_last() =~= c@.take(end - 1));
                    end = end - 1;
                }
                let t = crate::text::slice_vec(c.as_slice(), 0, end);
                assert(t@ =~= c@.take(end as int));
                assert(trim_path_end(t@) == t@);
                proof {
                    crate::text::lemma_last_index_bounds(t@, '/');
                }
                let start = match crate::text::find_last(t.as_slice(), '/') {
                    Some(k) => k + 1,
                    None => 0,
                };
                let mut h = String::new();
                h.push('/');
                let name = crate::text::slice_vec(t.as_slice(), start, end);
                crate::text::push_chars(&mut h, name.as_slice());
                assert(t@.skip(0) =~= t@);
                assert(t@.subrange(start as int, end as int) =~= t@.skip(start as int));
                assert(h@ =~= seq!['/'] + file_name(source@));
                Some(h)
            },
            None => None,
        }
    }
}

} // verus!
