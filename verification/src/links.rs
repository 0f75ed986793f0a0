//! `~` cross-references: "~peios/identity/sids" names a product, then a
//! suffix of the URL-path segments of one of its pages. Exactly one
//! match resolves; zero or several are errors.
use vstd::prelude::*;
use crate::site::{
    book_walk, derefs, Anthology, AnthologyChild, AnthologyItem, Article, Book, Chapter,
    ProductChild, ProductItem, Site, Topic, TopicChild,
};
use crate::text::{chars_eq, chars_of, join, owned, push_chars, push_joined, push_str, split_chars, split_on};

verus! {

/// Why a reference failed to resolve. Dangling kinds (unknown product,
/// no match) can be downgraded to warnings; ambiguity never is.
pub enum ResolveError {
    UnknownProduct(String),
    NoMatch(String),
    Ambiguous(String),
}

impl ResolveError {
    /// The message the error carries.
    pub fn message(&self) -> (r: String)
        ensures
            r@ == resolve_error_message(*self),
    {
        match self {
            ResolveError::UnknownProduct(m) => owned(m.as_str()),
            ResolveError::NoMatch(m) => owned(m.as_str()),
            ResolveError::Ambiguous(m) => owned(m.as_str()),
        }
    }

    /// Whether the error fails the build: an ambiguous reference always
    /// does, a missing target only when dangling references are not
    /// allowed.
    pub fn breaks_build(&self, allow_dangling: bool) -> (r: bool)
        ensures
            r == (*self is Ambiguous || !allow_dangling),
    {
        match self {
            ResolveError::Ambiguous(_) => true,
            _ => !allow_dangling,
        }
    }
}

/// The message of a resolve error.
pub open spec fn resolve_error_message(e: ResolveError) -> Seq<char> {
    match e {
        ResolveError::UnknownProduct(m) => m@,
        ResolveError::NoMatch(m) => m@,
        ResolveError::Ambiguous(m) => m@,
    }
}

/// One addressable page: its URL-path segments below the product, the
/// page it resolves to, and that page's title.
pub struct Candidate {
    pub segments: Vec<String>,
    pub target: String,
    pub title: String,
}

/// The candidates of one product.
pub struct ProductIndex {
    pub slug: String,
    pub path: String,
    pub title: String,
    pub candidates: Vec<Candidate>,
}

/// Resolves `~` references to page paths.
pub struct LinkIndex {
    pub products: Vec<ProductIndex>,
}

/// A candidate as plain values: (segments, target, title).
pub type CandView = (Seq<Seq<char>>, Seq<char>, Seq<char>);

/// The plain values of a run of strings.
pub open spec fn strs(v: Seq<String>) -> Seq<Seq<char>> {
    v.map_values(|s: String| s@)
}

pub open spec fn cand_view(c: Candidate) -> CandView {
    (strs(c.segments@), c.target@, c.title@)
}

pub open spec fn cand_views(cs: Seq<Candidate>) -> Seq<CandView> {
    cs.map_values(|c: Candidate| cand_view(c))
}

/// The candidates of a run of articles under `base`.
pub open spec fn article_cands(base: Seq<Seq<char>>, articles: Seq<Article>) -> Seq<CandView> {
    articles.map_values(|a: Article| (base.push(a.slug@), a.path@, a.title@))
}

/// The candidates of a topic's children under `base` (which already ends
/// with the topic's slug). With `folders`, subfolders are addresses too.
pub open spec fn topic_children_cands(base: Seq<Seq<char>>, children: Seq<TopicChild>, folders: bool) -> Seq<CandView>
    decreases children.len(),
{
    if children.len() == 0 {
        Seq::empty()
    } else {
        topic_children_cands(base, children.drop_last(), folders) + match children.last() {
            TopicChild::Article { article } => seq![(base.push(article.slug@), article.path@, article.title@)],
            TopicChild::Folder { folder } =>
                (if folders { seq![(base.push(folder.slug@), folder.path@, folder.title@)] } else { Seq::empty() })
                    + article_cands(base.push(folder.slug@), folder.articles@),
        }
    }
}

/// A topic's candidates: [prefix.., topic, [folder,] article].
pub open spec fn topic_cands(prefix: Seq<Seq<char>>, topic: Topic, folders: bool) -> Seq<CandView> {
    topic_children_cands(prefix.push(topic.slug@), topic.children@, folders)
}

/// The segments of a chapter trail.
pub open spec fn trail_slugs(trail: Seq<Chapter>) -> Seq<Seq<char>> {
    trail.map_values(|c: Chapter| c.slug@)
}

/// A book's candidates: its cover, then [prefix.., book, chapters.., article].
pub open spec fn book_cands(prefix: Seq<Seq<char>>, book: Book) -> Seq<CandView> {
    let cover = prefix.push(book.slug@);
    seq![(cover, book.path@, book.title@)] + book_walk(book.children@, Seq::empty()).map_values(
        |e: (Seq<Chapter>, Article)| (cover + trail_slugs(e.0) + seq![e.1.slug@], e.1.path@, e.1.title@),
    )
}

/// The candidates of one anthology item under `base`.
pub open spec fn anthology_item_cands(base: Seq<Seq<char>>, item: AnthologyItem, folders: bool) -> Seq<CandView>
    decreases item,
{
    match item {
        AnthologyItem::Topic { topic } => topic_cands(base, topic, folders),
        AnthologyItem::Book { book } => book_cands(base, book),
        AnthologyItem::Anthology { anthology } => anthology_cands(base, anthology, folders),
    }
}

/// The candidates of a run of anthology items.
pub open spec fn anthology_items_cands(base: Seq<Seq<char>>, items: Seq<AnthologyItem>, folders: bool) -> Seq<CandView>
    decreases items,
{
    if items.len() == 0 {
        Seq::empty()
    } else {
        anthology_items_cands(base, items.drop_last(), folders) + anthology_item_cands(base, items.last(), folders)
    }
}

/// The candidates of a run of anthology children, shelves flattened.
pub open spec fn anthology_children_cands(base: Seq<Seq<char>>, children: Seq<AnthologyChild>, folders: bool) -> Seq<CandView>
    decreases children,
{
    if children.len() == 0 {
        Seq::empty()
    } else {
        anthology_children_cands(base, children.drop_last(), folders) + match children.last() {
            AnthologyChild::Item(item) => anthology_item_cands(base, item, folders),
            AnthologyChild::Shelf(shelf) => anthology_items_cands(base, shelf.items@, folders),
        }
    }
}

/// An anthology's candidates: its own page, then everything beneath it.
pub open spec fn anthology_cands(prefix: Seq<Seq<char>>, anthology: Anthology, folders: bool) -> Seq<CandView>
    decreases anthology,
{
    let base = prefix.push(anthology.slug@);
    seq![(base, anthology.path@, anthology.title@)] + anthology_children_cands(base, anthology.children@, folders)
}

/// The candidates of one product item.
pub open spec fn product_item_cands(item: ProductItem, folders: bool) -> Seq<CandView> {
    match item {
        ProductItem::Anthology { anthology } => anthology_cands(Seq::empty(), anthology, folders),
        ProductItem::Topic { topic } => topic_cands(Seq::empty(), topic, folders),
        ProductItem::Book { book } => book_cands(Seq::empty(), book),
    }
}

/// The candidates of a run of product items.
pub open spec fn product_items_cands(items: Seq<ProductItem>, folders: bool) -> Seq<CandView>
    decreases items.len(),
{
    if items.len() == 0 {
        Seq::empty()
    } else {
        product_items_cands(items.drop_last(), folders) + product_item_cands(items.last(), folders)
    }
}

/// The candidates of a product's children, shelves flattened.
pub open spec fn product_children_cands(children: Seq<ProductChild>, folders: bool) -> Seq<CandView>
    decreases children.len(),
{
    if children.len() == 0 {
        Seq::empty()
    } else {
        product_children_cands(children.drop_last(), folders) + match children.last() {
            ProductChild::Item(item) => product_item_cands(item, folders),
            ProductChild::Shelf(shelf) => product_items_cands(shelf.items@, folders),
        }
    }
}


/// A copy of a run of strings.
pub fn copy_strings(v: &Vec<String>) -> (r: Vec<String>)
    ensures
        strs(r@) == strs(v@),
{
    let mut r: Vec<String> = Vec::new();
    for i in 0..v.len()
        invariant
            strs(r@) == strs(v@).take(i as int),
    {
        let x = owned(v[i].as_str());
        let ghost b = r@;
        r.push(x);
        assert(strs(r@) =~= strs(b).push(x@));
        assert(strs(v@).take(i + 1) =~= strs(v@).take(i as int).push(v@[i as int]@));
    }
    assert(strs(v@).take(v.len() as int) =~= strs(v@));
    r
}

/// `prefix` with one more segment.
pub fn extend_segments(prefix: &Vec<String>, slug: &str) -> (r: Vec<String>)
    ensures
        strs(r@) == strs(prefix@).push(slug@),
{
    let mut r = copy_strings(prefix);
    let x = owned(slug);
    let ghost b = r@;
    r.push(x);
    assert(strs(r@) =~= strs(b).push(x@));
    r
}

/// Appends one candidate.
fn push_cand(cands: &mut Vec<Candidate>, segments: Vec<String>, target: &str, title: &str)
    ensures
        cand_views(final(cands)@) == cand_views(old(cands)@).push((strs(segments@), target@, title@)),
{
    let c = Candidate { segments, target: owned(target), title: owned(title) };
    let ghost b = cands@;
    cands.push(c);
    assert(cand_views(cands@) =~= cand_views(b).push(cand_view(c)));
}

/// Appends the candidates of a run of articles under `base`.
fn push_article_cands(cands: &mut Vec<Candidate>, base: &Vec<String>, articles: &Vec<Article>)
    ensures
        cand_views(final(cands)@) == cand_views(old(cands)@) + article_cands(strs(base@), articles@),
{
    let ghost c0 = cand_views(cands@);
    for i in 0..articles.len()
        invariant
            cand_views(cands@) == c0 + article_cands(strs(base@), articles@.take(i as int)),
    {
        let a = &articles[i];
        push_cand(cands, extend_segments(base, a.slug.as_str()), a.path.as_str(), a.title.as_str());
        assert(article_cands(strs(base@), articles@.take(i + 1)) =~= article_cands(strs(base@), articles@.take(i as int)).push((strs(base@).push(a.slug@), a.path@, a.title@)));
    }
    assert(articles@.take(articles.len() as int) =~= articles@);
}

/// Adds a topic's articles as candidates: [prefix.., topic, [folder,]
/// article]. With `folders`, each subfolder is an address too.
pub fn push_topic_candidates(cands: &mut Vec<Candidate>, prefix: &Vec<String>, topic: &Topic, folders: bool)
    ensures
        cand_views(final(cands)@) == cand_views(old(cands)@) + topic_cands(strs(prefix@), *topic, folders),
{
    let base = extend_segments(prefix, topic.slug.as_str());
    let ghost c0 = cand_views(cands@);
    for i in 0..topic.children.len()
        invariant
            strs(base@) == strs(prefix@).push(topic.slug@),
            cand_views(cands@) == c0 + topic_children_cands(strs(base@), topic.children@.take(i as int), folders),
    {
        assert(topic.children@.take(i + 1).drop_last() =~= topic.children@.take(i as int));
        let ghost mid = cand_views(cands@);
        match &topic.children[i] {
            TopicChild::Article { article } => {
                push_cand(cands, extend_segments(&base, article.slug.as_str()), article.path.as_str(), article.title.as_str());
                assert(cand_views(cands@) =~= mid + seq![(strs(base@).push(article.slug@), article.path@, article.title@)]);
            },
            TopicChild::Folder { folder } => {
                let fbase = extend_segments(&base, folder.slug.as_str());
                if folders {
                    push_cand(cands, extend_segments(&base, folder.slug.as_str()), folder.path.as_str(), folder.title.as_str());
                }
                let ghost mid2 = cand_views(cands@);
                push_article_cands(cands, &fbase, &folder.articles);
                assert(cand_views(cands@) =~= mid
                    + ((if folders { seq![(strs(base@).push(folder.slug@), folder.path@, folder.title@)] } else { Seq::empty() })
                    + article_cands(strs(base@).push(folder.slug@), folder.articles@)));
            },
        }
    }
    assert(topic.children@.take(topic.children.len() as int) =~= topic.children@);
}

/// Adds a book's cover and its articles: [prefix.., book, chapters..,
/// article].
pub fn push_book_candidates(cands: &mut Vec<Candidate>, prefix: &Vec<String>, book: &Book)
    ensures
        cand_views(final(cands)@) == cand_views(old(cands)@) + book_cands(strs(prefix@), *book),
{
    let cover = extend_segments(prefix, book.slug.as_str());
    let ghost c0 = cand_views(cands@);
    push_cand(cands, copy_strings(&cover), book.path.as_str(), book.title.as_str());
    let walked = book.articles();
    let ghost w = book_walk(book.children@, Seq::empty());
    let ghost f = |e: (Seq<Chapter>, Article)| (strs(cover@) + trail_slugs(e.0) + seq![e.1.slug@], e.1.path@, e.1.title@);
    assert(walked@.map_values(|e: (Vec<&Chapter>, &Article)| crate::site::walk_view(e)) == w);
    for i in 0..walked.len()
        invariant
            w == book_walk(book.children@, Seq::empty()),
            walked@.len() == w.len(),
            forall|k: int| 0 <= k < w.len() ==> #[trigger] crate::site::walk_view(walked@[k]) == w[k],
            strs(cover@) == strs(prefix@).push(book.slug@),
            f == (|e: (Seq<Chapter>, Article)| (strs(cover@) + trail_slugs(e.0) + seq![e.1.slug@], e.1.path@, e.1.title@)),
            cand_views(cands@) == c0 + seq![(strs(cover@), book.path@, book.title@)] + w.take(i as int).map_values(f),
    {
        assert(crate::site::walk_view(walked@[i as int]) == w[i as int]);
        let (chapters, article) = &walked[i];
        let mut segs = copy_strings(&cover);
        for j in 0..chapters.len()
            invariant
                strs(segs@) == strs(cover@) + trail_slugs(derefs(chapters@).take(j as int)),
        {
            let x = owned(chapters[j].slug.as_str());
            let ghost b = segs@;
            segs.push(x);
            assert(strs(segs@) =~= strs(b).push(x@));
            assert(trail_slugs(derefs(chapters@).take(j + 1)) =~= trail_slugs(derefs(chapters@).take(j as int)).push(chapters@[j as int].slug@));
        }
        assert(derefs(chapters@).take(chapters.len() as int) =~= derefs(chapters@));
        let x = owned(article.slug.as_str());
        let ghost b = segs@;
        segs.push(x);
        assert(strs(segs@) =~= strs(b).push(x@));
        assert(w[i as int].0 == derefs(chapters@));
        assert(w[i as int].1 == **article);
        assert(strs(segs@) =~= strs(cover@) + trail_slugs(derefs(chapters@)) + seq![article.slug@]);
        assert(f(w[i as int]) == (strs(segs@), article.path@, article.title@));
        let ghost before = cand_views(cands@);
        push_cand(cands, segs, article.path.as_str(), article.title.as_str());
        assert(w.take(i + 1).map_values(f) =~= w.take(i as int).map_values(f).push(f(w[i as int])));
        assert(cand_views(cands@) =~= c0 + seq![(strs(cover@), book.path@, book.title@)] + w.take(i + 1).map_values(f));
    }
    assert(w.take(w.len() as int) =~= w);
}


/// Appends the candidates of one anthology item under `base`.
fn push_anthology_item(cands: &mut Vec<Candidate>, base: &Vec<String>, item: &AnthologyItem, folders: bool)
    ensures
        cand_views(final(cands)@) == cand_views(old(cands)@) + anthology_item_cands(strs(base@), *item, folders),
    decreases item,
{
    match item {
        AnthologyItem::Topic { topic } => push_topic_candidates(cands, base, topic, folders),
        AnthologyItem::Book { book } => push_book_candidates(cands, base, book),
        AnthologyItem::Anthology { anthology } => push_anthology_candidates(cands, base, anthology, folders),
    }
}

/// Adds an anthology's page and everything beneath it — anthologies
/// nest, so this recurses with a growing prefix.
pub fn push_anthology_candidates(cands: &mut Vec<Candidate>, prefix: &Vec<String>, anthology: &Anthology, folders: bool)
    ensures
        cand_views(final(cands)@) == cand_views(old(cands)@) + anthology_cands(strs(prefix@), *anthology, folders),
    decreases anthology,
{
    let base = extend_segments(prefix, anthology.slug.as_str());
    let ghost c0 = cand_views(cands@);
    push_cand(cands, copy_strings(&base), anthology.path.as_str(), anthology.title.as_str());
    let ghost c1 = cand_views(cands@);
    for i in 0..anthology.children.len()
        invariant
            strs(base@) == strs(prefix@).push(anthology.slug@),
            c1 == c0.push((strs(base@), anthology.path@, anthology.title@)),
            cand_views(cands@) == c1 + anthology_children_cands(strs(base@), anthology.children@.take(i as int), folders),
    {
        assert(anthology.children@.take(i + 1).drop_last() =~= anthology.children@.take(i as int));
        let ghost mid = cand_views(cands@);
        assert(decreases_to!(anthology => anthology.children));
        assert(decreases_to!(anthology.children => anthology.children@));
        assert(decreases_to!(anthology.children@ => anthology.children@[i as int]));
        match &anthology.children[i] {
            AnthologyChild::Item(item) => {
                push_anthology_item(cands, &base, item, folders);
            },
            AnthologyChild::Shelf(shelf) => {
                for j in 0..shelf.items.len()
                    invariant
                        i < anthology.children@.len(),
                        anthology.children@[i as int] == AnthologyChild::Shelf(*shelf),
                        cand_views(cands@) == mid + anthology_items_cands(strs(base@), shelf.items@.take(j as int), folders),
                {
                    assert(shelf.items@.take(j + 1).drop_last() =~= shelf.items@.take(j as int));
                    assert(decreases_to!(anthology => anthology.children));
                    assert(decreases_to!(anthology.children => anthology.children@));
                    assert(decreases_to!(anthology.children@ => anthology.children@[i as int]));
                    assert(anthology.children@[i as int]->Shelf_0 == *shelf);
                    assert(decreases_to!(anthology.children@[i as int] => anthology.children@[i as int]->Shelf_0));
                    assert(decreases_to!(*shelf => shelf.items));
                    assert(decreases_to!(shelf.items => shelf.items@));
                    assert(decreases_to!(shelf.items@ => shelf.items@[j as int]));
                    push_anthology_item(cands, &base, &shelf.items[j], folders);
                    assert(cand_views(cands@) =~= mid + anthology_items_cands(strs(base@), shelf.items@.take(j + 1), folders));
                }
                assert(shelf.items@.take(shelf.items.len() as int) =~= shelf.items@);
            },
        }
        assert(cand_views(cands@) =~= c1 + anthology_children_cands(strs(base@), anthology.children@.take(i + 1), folders));
    }
    assert(anthology.children@.take(anthology.children.len() as int) =~= anthology.children@);
    assert(cand_views(cands@) =~= c0 + anthology_cands(strs(prefix@), *anthology, folders));
}

/// Appends the candidates of one product item.
fn push_product_item(cands: &mut Vec<Candidate>, item: &ProductItem, folders: bool)
    ensures
        cand_views(final(cands)@) == cand_views(old(cands)@) + product_item_cands(*item, folders),
{
    let empty: Vec<String> = Vec::new();
    assert(strs(empty@) =~= Seq::<Seq<char>>::empty());
    match item {
        ProductItem::Anthology { anthology } => push_anthology_candidates(cands, &empty, anthology, folders),
        ProductItem::Topic { topic } => push_topic_candidates(cands, &empty, topic, folders),
        ProductItem::Book { book } => push_book_candidates(cands, &empty, book),
    }
}

/// The candidates of a whole product.
fn product_candidates(children: &Vec<ProductChild>, folders: bool) -> (r: Vec<Candidate>)
    ensures
        cand_views(r@) == product_children_cands(children@, folders),
{
    let mut cands: Vec<Candidate> = Vec::new();
    for i in 0..children.len()
        invariant
            cand_views(cands@) == product_children_cands(children@.take(i as int), folders),
    {
        assert(children@.take(i + 1).drop_last() =~= children@.take(i as int));
        let ghost mid = cand_views(cands@);
        match &children[i] {
            ProductChild::Item(item) => push_product_item(&mut cands, item, folders),
            ProductChild::Shelf(shelf) => {
                for j in 0..shelf.items.len()
                    invariant
                        cand_views(cands@) == mid + product_items_cands(shelf.items@.take(j as int), folders),
                {
                    assert(shelf.items@.take(j + 1).drop_last() =~= shelf.items@.take(j as int));
                    push_product_item(&mut cands, &shelf.items[j], folders);
                    assert(cand_views(cands@) =~= mid + product_items_cands(shelf.items@.take(j + 1), folders));
                }
                assert(shelf.items@.take(shelf.items.len() as int) =~= shelf.items@);
            },
        }
        assert(cand_views(cands@) =~= product_children_cands(children@.take(i + 1), folders));
    }
    assert(children@.take(children.len() as int) =~= children@);
    cands
}

/// What an index holds for a product: slug, path, title, candidates.
pub open spec fn product_index_view(p: ProductIndex) -> (Seq<char>, Seq<char>, Seq<char>, Seq<CandView>) {
    (p.slug@, p.path@, p.title@, cand_views(p.candidates@))
}

/// The index entry a product gets.
pub open spec fn product_entry(p: crate::site::Product, folders: bool) -> (Seq<char>, Seq<char>, Seq<char>, Seq<CandView>) {
    (p.slug@, p.path@, p.title@, product_children_cands(p.children@, folders))
}

/// Builds the index over every product, optionally with subfolders as
/// addresses of their own.
fn build(site: &Site, folders: bool) -> (r: LinkIndex)
    ensures
        r.products@.len() == site.products@.len(),
        forall|i: int| 0 <= i < site.products@.len() ==>
            #[trigger] product_index_view(r.products@[i]) == product_entry(site.products@[i], folders),
{
    let mut products: Vec<ProductIndex> = Vec::new();
    for i in 0..site.products.len()
        invariant
            products@.len() == i,
            forall|k: int| 0 <= k < i ==>
                #[trigger] product_index_view(products@[k]) == product_entry(site.products@[k], folders),
    {
        let p = &site.products[i];
        let candidates = product_candidates(&p.children, folders);
        products.push(ProductIndex {
            slug: owned(p.slug.as_str()),
            path: owned(p.path.as_str()),
            title: owned(p.title.as_str()),
            candidates,
        });
    }
    LinkIndex { products }
}

impl LinkIndex {
    /// The index over every product's anthology, book and article pages.
    pub fn new(site: &Site) -> (r: LinkIndex)
        ensures
            r.products@.len() == site.products@.len(),
            forall|i: int| 0 <= i < site.products@.len() ==>
                #[trigger] product_index_view(r.products@[i]) == product_entry(site.products@[i], false),
    {
        build(site, false)
    }

    /// The index `.link` stubs resolve through: like `new`, and every
    /// topic subfolder is an address too, so a stub can alias a folder.
    pub fn with_folders(site: &Site) -> (r: LinkIndex)
        ensures
            r.products@.len() == site.products@.len(),
            forall|i: int| 0 <= i < site.products@.len() ==>
                #[trigger] product_index_view(r.products@[i]) == product_entry(site.products@[i], true),
    {
        build(site, true)
    }
}


/// Whether a candidate's segments end with `suffix`.
pub open spec fn seg_match(segs: Seq<Seq<char>>, suffix: Seq<Seq<char>>) -> bool {
    suffix.len() <= segs.len() && segs.skip(segs.len() - suffix.len()) == suffix
}

/// The candidates whose segments end with `suffix`, in index order.
pub open spec fn matching(cands: Seq<CandView>, suffix: Seq<Seq<char>>) -> Seq<CandView>
    decreases cands.len(),
{
    if cands.len() == 0 {
        Seq::empty()
    } else {
        matching(cands.drop_last(), suffix) + if seg_match(cands.last().0, suffix) { seq![cands.last()] } else { Seq::empty() }
    }
}

/// The first product with the given slug.
pub open spec fn product_position(products: Seq<ProductIndex>, slug: Seq<char>) -> Option<int>
    decreases products.len(),
{
    if products.len() == 0 {
        None
    } else {
        match product_position(products.drop_last(), slug) {
            Some(i) => Some(i),
            None => if products.last().slug@ == slug { Some(products.len() - 1) } else { None },
        }
    }
}

/// How a reference resolves, as plain values.
pub enum Resolution {
    /// The page path and title.
    Page(Seq<char>, Seq<char>),
    UnknownProduct(Seq<char>),
    NoMatch(Seq<char>),
    Ambiguous(Seq<char>, Seq<CandView>),
}

/// One line of an ambiguity report: "  ~<product>/<segments>".
pub open spec fn candidate_line(product: Seq<char>, c: CandView) -> Seq<char> {
    "  ~"@ + product + seq!['/'] + join(c.0, seq!['/'])
}

/// The message of an ambiguous reference.
pub open spec fn ambiguous_message(reference: Seq<char>, product: Seq<char>, several: Seq<CandView>) -> Seq<char> {
    "link '~"@ + reference + "' is ambiguous; candidates:\n"@
        + join(several.map_values(|c: CandView| candidate_line(product, c)), seq!['\n'])
}

/// How `reference` (its leading `~` stripped) resolves: the first segment
/// names a product; the rest must be a suffix of exactly one candidate's
/// segments. No further segments lands on the product page.
pub open spec fn resolution(products: Seq<ProductIndex>, reference: Seq<char>) -> Resolution {
    let parts = split_on(reference, '/');
    let head = parts[0];
    let suffix = parts.drop_first();
    match product_position(products, head) {
        None => Resolution::UnknownProduct(head),
        Some(p) => if suffix.len() == 0 {
            Resolution::Page(products[p].path@, products[p].title@)
        } else {
            let m = matching(cand_views(products[p].candidates@), suffix);
            if m.len() == 1 {
                Resolution::Page(m[0].1, m[0].2)
            } else if m.len() == 0 {
                Resolution::NoMatch(head)
            } else {
                Resolution::Ambiguous(head, m)
            }
        },
    }
}

/// What a resolution answers, as the exec functions return it: the page
/// (path and title), or the error with its message.
pub open spec fn answered(reference: Seq<char>, res: Resolution, r: Result<(String, String), ResolveError>) -> bool {
    match res {
        Resolution::Page(path, title) => r matches Ok(v) && v.0@ == path && v.1@ == title,
        Resolution::UnknownProduct(head) => r matches Err(ResolveError::UnknownProduct(m))
            && m@ == "link '~"@ + reference + "' names unknown product '"@ + head + "'"@,
        Resolution::NoMatch(head) => r matches Err(ResolveError::NoMatch(m))
            && m@ == "link '~"@ + reference + "' matches no page in product '"@ + head + "'"@,
        Resolution::Ambiguous(head, several) => r matches Err(ResolveError::Ambiguous(m))
            && m@ == ambiguous_message(reference, head, several),
    }
}

/// Whether a candidate's segments end with the suffix.
fn candidate_matches(c: &Candidate, suffix: &Vec<Vec<char>>) -> (r: bool)
    ensures
        r == seg_match(strs(c.segments@), suffix@.map_values(|v: Vec<char>| v@)),
{
    let ghost segs = strs(c.segments@);
    let ghost suf = suffix@.map_values(|v: Vec<char>| v@);
    let n = c.segments.len();
    let k = suffix.len();
    if k > n {
        return false;
    }
    let start = n - k;
    for i in 0..k
        invariant
            n == c.segments@.len(),
            k == suffix@.len(),
            start == n - k,
            segs == strs(c.segments@),
            suf == suffix@.map_values(|v: Vec<char>| v@),
            forall|j: int| 0 <= j < i ==> #[trigger] segs.skip(start as int)[j] == suf[j],
    {
        let seg = chars_of(c.segments[start + i].as_str());
        if !chars_eq(seg.as_slice(), suffix[i].as_slice()) {
            assert(segs.skip(start as int)[i as int] != suf[i as int]);
            return false;
        }
    }
    assert(segs.skip(start as int) =~= suf);
    true
}

impl LinkIndex {
    /// Resolves a reference (leading `~` stripped) to its page's path and
    /// title.
    pub fn resolve_page(&self, reference: &str) -> (r: Result<(String, String), ResolveError>)
        ensures
            answered(reference@, resolution(self.products@, reference@), r),
    {
        let chars = chars_of(reference);
        let mut parts = split_chars(chars.as_slice(), '/');
        let ghost views = parts@.map_values(|v: Vec<char>| v@);
        let head = parts.remove(0);
        let suffix = parts;
        assert(suffix@.map_values(|v: Vec<char>| v@) =~= views.drop_first());
        let mut found: Option<usize> = None;
        for i in 0..self.products.len()
            invariant
                found is None ==> product_position(self.products@.take(i as int), head@) is None,
                found matches Some(p) ==> product_position(self.products@.take(i as int), head@) == Some(p as int)
                    && p < self.products@.len(),
        {
            assert(self.products@.take(i + 1).drop_last() =~= self.products@.take(i as int));
            if found.is_none() {
                let slug = chars_of(self.products[i].slug.as_str());
                if chars_eq(slug.as_slice(), head.as_slice()) {
                    found = Some(i);
                }
            }
        }
        assert(self.products@.take(self.products.len() as int) =~= self.products@);
        let p = match found {
            Some(p) => p,
            None => {
                let mut m = owned("link '~");
                push_str(&mut m, reference);
                push_str(&mut m, "' names unknown product '");
                push_chars(&mut m, head.as_slice());
                push_str(&mut m, "'");
                return Err(ResolveError::UnknownProduct(m));
            },
        };
        let product = &self.products[p];
        if suffix.len() == 0 {
            return Ok((owned(product.path.as_str()), owned(product.title.as_str())));
        }
        let ghost suf = suffix@.map_values(|v: Vec<char>| v@);
        let ghost all = cand_views(product.candidates@);
        let mut hits: Vec<usize> = Vec::new();
        let n = product.candidates.len();
        let mut i: usize = 0;
        while i < n
            invariant
                n == product.candidates@.len(),
                i <= n,
                suf == suffix@.map_values(|v: Vec<char>| v@),
                all == cand_views(product.candidates@),
                all.len() == n,
                hits@.len() == matching(all.take(i as int), suf).len(),
                forall|k: int| 0 <= k < hits@.len() ==> #[trigger] hits@[k] < i,
                forall|k: int| 0 <= k < hits@.len() ==> #[trigger] matching(all.take(i as int), suf)[k] == all[hits@[k] as int],
            decreases n - i,
        {
            assert(all.take(i + 1).drop_last() =~= all.take(i as int));
            let ghost before = matching(all.take(i as int), suf);
            let ghost hb = hits@;
            if candidate_matches(&product.candidates[i], &suffix) {
                hits.push(i);
                assert(matching(all.take(i + 1), suf) =~= before.push(all[i as int]));
                assert(forall|k: int| 0 <= k < hb.len() ==> hits@[k] == hb[k]);
            } else {
                assert(matching(all.take(i + 1), suf) =~= before);
            }
            i = i + 1;
        }
        assert(all.take(product.candidates.len() as int) =~= all);
        let ghost m = matching(all, suf);
        if hits.len() == 1 {
            assert(hits@[0] < n);
            let c = &product.candidates[hits[0]];
            assert(m[0] == all[hits@[0] as int]);
            return Ok((owned(c.target.as_str()), owned(c.title.as_str())));
        }
        if hits.len() == 0 {
            let mut msg = owned("link '~");
            push_str(&mut msg, reference);
            push_str(&mut msg, "' matches no page in product '");
            push_chars(&mut msg, head.as_slice());
            push_str(&mut msg, "'");
            return Err(ResolveError::NoMatch(msg));
        }
        let mut lines: Vec<String> = Vec::new();
        for k in 0..hits.len()
            invariant
                n == product.candidates@.len(),
                all.len() == n,
                hits@.len() == m.len(),
                m == matching(all, suf),
                all == cand_views(product.candidates@),
                forall|j: int| 0 <= j < hits@.len() ==> #[trigger] hits@[j] < n,
                forall|j: int| 0 <= j < hits@.len() ==> #[trigger] m[j] == all[hits@[j] as int],
                lines@.map_values(|l: String| l@) == m.take(k as int).map_values(|c: CandView| candidate_line(head@, c)),
        {
            assert(hits@[k as int] < n);
            let c = &product.candidates[hits[k]];
            assert(m[k as int] == all[hits@[k as int] as int]);
            assert(all[hits@[k as int] as int] == cand_view(*c));
            let mut line = owned("  ~");
            push_chars(&mut line, head.as_slice());
            line.push('/');
            push_joined(&mut line, &c.segments, "/");
            proof { crate::text::lemma_str_slash(); }
            assert(c.segments@.map_values(|p: String| p@) =~= strs(c.segments@));
            assert(line@ =~= candidate_line(head@, m[k as int]));
            let ghost b = lines@.map_values(|l: String| l@);
            lines.push(line);
            assert(lines@.map_values(|l: String| l@) =~= b.push(line@));
            assert(m.take(k + 1).map_values(|c: CandView| candidate_line(head@, c))
                =~= m.take(k as int).map_values(|c: CandView| candidate_line(head@, c)).push(candidate_line(head@, m[k as int])));
        }
        assert(m.take(m.len() as int) =~= m);
        let mut msg = owned("link '~");
        push_str(&mut msg, reference);
        push_str(&mut msg, "' is ambiguous; candidates:\n");
        push_joined(&mut msg, &lines, "\n");
        proof { crate::text::lemma_str_newline(); }
        assert(lines@.map_values(|p: String| p@) =~= lines@.map_values(|l: String| l@));
        Err(ResolveError::Ambiguous(msg))
    }

    /// Resolves a reference (leading `~` stripped) to a page path.
    pub fn resolve(&self, reference: &str) -> (r: Result<String, ResolveError>)
        ensures
            match resolution(self.products@, reference@) {
                Resolution::Page(path, _) => r matches Ok(t) && t@ == path,
                res => r matches Err(e) && answered(reference@, res, Err(e)),
            },
    {
        match self.resolve_page(reference) {
            Ok((path, _)) => Ok(path),
            Err(e) => Err(e),
        }
    }
}

/// A longer suffix only ever narrows the matches: whatever matches
/// `longer` also matches any suffix of it.
pub proof fn lemma_match_narrows(segs: Seq<Seq<char>>, suffix: Seq<Seq<char>>, longer: Seq<Seq<char>>)
    requires
        seg_match(longer, suffix),
        seg_match(segs, longer),
    ensures
        seg_match(segs, suffix),
{
    assert(segs.skip(segs.len() - suffix.len()) =~= longer.skip(longer.len() - suffix.len()));
}

/// Disambiguation never changes an answer: when a suffix resolves to a
/// page, every longer suffix of that same page's segments resolves to
/// it too — deeper segments exist only to single out one candidate.
pub proof fn lemma_longer_suffix_same_page(cands: Seq<CandView>, suffix: Seq<Seq<char>>, longer: Seq<Seq<char>>)
    requires
        matching(cands, suffix).len() == 1,
        seg_match(longer, suffix),
        seg_match(matching(cands, suffix)[0].0, longer),
    ensures
        matching(cands, longer) == matching(cands, suffix),
    decreases cands.len(),
{
    if cands.len() > 0 {
        let rest = cands.drop_last();
        let c = cands.last();
        if seg_match(c.0, suffix) {
            assert(matching(cands, suffix) =~= matching(rest, suffix).push(c));
            lemma_no_match_longer(rest, suffix, longer);
            assert(matching(rest, suffix).len() == 0);
            assert(matching(cands, suffix)[0] == c);
            assert(matching(cands, longer) =~= matching(rest, longer).push(c));
        } else {
            assert(matching(cands, suffix) =~= matching(rest, suffix));
            lemma_longer_suffix_same_page(rest, suffix, longer);
            if seg_match(c.0, longer) {
                lemma_match_narrows(c.0, suffix, longer);
            }
            assert(matching(cands, longer) =~= matching(rest, longer));
        }
    }
}

/// Nothing matches a longer suffix where nothing matches the shorter one.
pub proof fn lemma_no_match_longer(cands: Seq<CandView>, suffix: Seq<Seq<char>>, longer: Seq<Seq<char>>)
    requires
        matching(cands, suffix).len() == 0,
        seg_match(longer, suffix),
    ensures
        matching(cands, longer).len() == 0,
    decreases cands.len(),
{
    if cands.len() > 0 {
        let c = cands.last();
        lemma_no_match_longer(cands.drop_last(), suffix, longer);
        if seg_match(c.0, longer) {
            lemma_match_narrows(c.0, suffix, longer);
        }
    }
}


/// Whatever matches a longer suffix matches the shorter one too, so the
/// longer one's matches are never more.
proof fn lemma_matching_narrows(cands: Seq<CandView>, suffix: Seq<Seq<char>>, longer: Seq<Seq<char>>)
    requires
        seg_match(longer, suffix),
    ensures
        matching(cands, longer).len() <= matching(cands, suffix).len(),
        forall|i: int| 0 <= i < matching(cands, longer).len() ==>
            matching(cands, suffix).contains(#[trigger] matching(cands, longer)[i]),
    decreases cands.len(),
{
    if cands.len() > 0 {
        let rest = cands.drop_last();
        let c = cands.last();
        lemma_matching_narrows(rest, suffix, longer);
        let ms = matching(rest, suffix);
        let ml = matching(rest, longer);
        if seg_match(c.0, longer) {
            lemma_match_narrows(c.0, suffix, longer);
            assert(matching(cands, longer) =~= ml.push(c));
            assert(matching(cands, suffix) =~= ms.push(c));
            assert forall|i: int| 0 <= i < matching(cands, longer).len() implies
                matching(cands, suffix).contains(#[trigger] matching(cands, longer)[i]) by {
                if i < ml.len() {
                    assert(ms.contains(ml[i]));
                    let j = choose|j: int| 0 <= j < ms.len() && ms[j] == ml[i];
                    assert(ms.push(c)[j] == ml[i]);
                } else {
                    assert(ms.push(c)[ms.len() as int] == c);
                }
            }
        } else {
            assert(matching(cands, longer) =~= ml);
            if seg_match(c.0, suffix) {
                assert(matching(cands, suffix) =~= ms.push(c));
                assert forall|i: int| 0 <= i < matching(cands, longer).len() implies
                    matching(cands, suffix).contains(#[trigger] matching(cands, longer)[i]) by {
                    assert(ms.contains(ml[i]));
                    let j = choose|j: int| 0 <= j < ms.len() && ms[j] == ml[i];
                    assert(ms.push(c)[j] == ml[i]);
                }
            } else {
                assert(matching(cands, suffix) =~= ms);
            }
        }
    }
}

/// An ambiguous resolution that names the page a resolution lands on among
/// its candidates.
pub open spec fn lists_page(res: Resolution, page: Resolution) -> bool {
    &&& res is Ambiguous
    &&& page is Page
    &&& exists|i: int| 0 <= i < res->Ambiguous_1.len()
        && #[trigger] res->Ambiguous_1[i].1 == page->Page_0 && res->Ambiguous_1[i].2 == page->Page_1
}

/// A longer link suffix only narrows: under the same product, a longer
/// reference that ends with the shorter one's segments matches nothing
/// where the shorter matches nothing; where the shorter lands on a page,
/// the longer lands on that same page or on nothing; and where the longer
/// lands on a page, the shorter lands on it too or names it among its
/// ambiguous candidates.
pub proof fn law_longer_suffix_only_narrows(products: Seq<ProductIndex>, reference: Seq<char>, longer: Seq<char>)
    requires
        split_on(longer, '/')[0] == split_on(reference, '/')[0],
        split_on(reference, '/').len() >= 2,
        seg_match(split_on(longer, '/').drop_first(), split_on(reference, '/').drop_first()),
    ensures
        resolution(products, reference) is NoMatch ==> resolution(products, longer) is NoMatch,
        resolution(products, reference) is Page ==>
            resolution(products, longer) == resolution(products, reference) || resolution(products, longer) is NoMatch,
        resolution(products, longer) is Page ==>
            resolution(products, reference) == resolution(products, longer)
            || lists_page(resolution(products, reference), resolution(products, longer)),
{
    let suffix = split_on(reference, '/').drop_first();
    let lsuf = split_on(longer, '/').drop_first();
    let head = split_on(reference, '/')[0];
    match product_position(products, head) {
        None => {
            assert(resolution(products, longer) is UnknownProduct);
            assert(resolution(products, reference) is UnknownProduct);
        },
        Some(p) => {
            let cands = cand_views(products[p].candidates@);
            lemma_matching_narrows(cands, suffix, lsuf);
            let ms = matching(cands, suffix);
            let ml = matching(cands, lsuf);
            assert(lsuf.len() > 0);
            assert(suffix.len() > 0);
            if ms.len() == 1 {
                assert(resolution(products, reference) == Resolution::Page(ms[0].1, ms[0].2));
                if ml.len() == 1 {
                    assert(ms.contains(ml[0]));
                    assert(ms[0] == ml[0]);
                    assert(resolution(products, longer) == Resolution::Page(ml[0].1, ml[0].2));
                } else {
                    assert(ml.len() == 0);
                    assert(resolution(products, longer) == Resolution::NoMatch(head));
                }
            }
            if ml.len() != 1 {
                assert(!(resolution(products, longer) is Page));
            }
            if ml.len() == 1 {
                assert(ms.contains(ml[0]));
                let j = choose|j: int| 0 <= j < ms.len() && ms[j] == ml[0];
                if ms.len() == 1 {
                    assert(ms[0] == ml[0]);
                } else {
                    assert(ms.len() > 1);
                    assert(resolution(products, reference) == Resolution::Ambiguous(head, ms));
                    assert(resolution(products, longer) == Resolution::Page(ml[0].1, ml[0].2));
                    assert(ms[j].1 == ml[0].1 && ms[j].2 == ml[0].2);
                    assert(exists|i: int| 0 <= i < ms.len() && #[trigger] ms[i].1 == ml[0].1 && ms[i].2 == ml[0].2);
                    let ra = Resolution::Ambiguous(head, ms);
                    let rp = Resolution::Page(ml[0].1, ml[0].2);
                    assert(ra->Ambiguous_1 == ms);
                    assert(rp->Page_0 == ml[0].1 && rp->Page_1 == ml[0].2);
                    assert(ra->Ambiguous_1[j].1 == rp->Page_0 && ra->Ambiguous_1[j].2 == rp->Page_1);
                    assert(lists_page(ra, rp));
                }
            }
        },
    }
}


/// A longer `~` reference only narrows: where "product/suffix" lands on a
/// page, "product/middle/suffix" lands on that same page or on nothing,
/// never on another page and never on an ambiguity.
pub proof fn law_longer_reference_only_narrows(products: Seq<ProductIndex>, product: Seq<char>, middle: Seq<char>, suffix: Seq<char>)
    requires
        !product.contains('/'),
        resolution(products, product + seq!['/'] + suffix) is Page,
    ensures
        resolution(products, product + seq!['/'] + middle + seq!['/'] + suffix) == resolution(products, product + seq!['/'] + suffix)
        || resolution(products, product + seq!['/'] + middle + seq!['/'] + suffix) is NoMatch,
{
    let reference = product + seq!['/'] + suffix;
    let rest = middle + seq!['/'] + suffix;
    let longer = product + seq!['/'] + middle + seq!['/'] + suffix;
    assert(longer =~= product + seq!['/'] + rest);
    crate::text::lemma_split_plain(product, '/');
    crate::text::lemma_split_join(product, suffix, '/');
    crate::text::lemma_split_join(product, rest, '/');
    crate::text::lemma_split_join(middle, suffix, '/');
    crate::text::lemma_split_nonempty(suffix, '/');
    let ps = split_on(product, '/');
    assert(split_on(reference, '/') == seq![product] + split_on(suffix, '/'));
    assert(split_on(longer, '/') == seq![product] + (split_on(middle, '/') + split_on(suffix, '/')));
    assert(split_on(reference, '/').drop_first() =~= split_on(suffix, '/'));
    assert(split_on(longer, '/').drop_first() =~= split_on(middle, '/') + split_on(suffix, '/'));
    let lsegs = split_on(middle, '/') + split_on(suffix, '/');
    assert(lsegs.skip(lsegs.len() - split_on(suffix, '/').len()) =~= split_on(suffix, '/'));
    law_longer_suffix_only_narrows(products, reference, longer);
}

} // verus!
