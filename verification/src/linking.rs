//! Resolving `.link` stubs once the whole tree has loaded: a stub in a
//! topic subfolder becomes an alias article, a topic-level stub an alias
//! article or a whole aliased subfolder, and a stub in a book or chapter a
//! numbered alias article. Every level is then re-sorted and re-checked.
use vstd::prelude::*;
use crate::links::{resolution, LinkIndex, Resolution, ResolveError};
use crate::site::{
    Anthology, AnthologyChild, AnthologyItem, Article, Book, BookChild, Chapter, LinkStub, Product,
    ProductChild, ProductItem, Shelf, Site, Topic, TopicChild, TopicFolder,
};
use crate::text::{chars_of, decimal, owned, push_decimal, push_str, string_of};
use crate::validate::{
    appendix_letters, check_duplicates, distinct, entry_slugs, letters, lex_le, orders_distinct_adjacent,
    text_le, OrderedEntry,
};

verus! {

/// A sort key as plain values: appendix flag, order, slug.
pub type KeyV = (bool, u32, Seq<char>);

/// Whether key `a` sorts strictly after key `b`: appendices after
/// numbered entries, then by order, then by slug.
pub open spec fn key_gt(a: KeyV, b: KeyV) -> bool {
    (a.0 && !b.0) || (a.0 == b.0 && (a.1 > b.1 || (a.1 == b.1 && !lex_le(a.2, b.2))))
}

/// `x` inserted into `s` after every element that does not sort after it.
pub open spec fn insert_by<T>(s: Seq<T>, x: T, key: spec_fn(T) -> KeyV) -> Seq<T>
    decreases s.len(),
{
    if s.len() == 0 || !key_gt(key(s.last()), key(x)) {
        s.push(x)
    } else {
        insert_by(s.drop_last(), x, key).push(s.last())
    }
}

/// The stable sort of `s` by key.
pub open spec fn sort_by_key<T>(s: Seq<T>, key: spec_fn(T) -> KeyV) -> Seq<T>
    decreases s.len(),
{
    if s.len() == 0 {
        Seq::empty()
    } else {
        insert_by(sort_by_key(s.drop_last(), key), s.last(), key)
    }
}

/// Keys with no two neighbours sharing appendix flag and order, and no
/// slug twice.
pub open spec fn keys_ok(ks: Seq<KeyV>) -> bool {
    &&& forall|i: int| 0 <= i < ks.len() - 1 ==> (#[trigger] ks[i].0, ks[i].1) != (ks[i + 1].0, ks[i + 1].1)
    &&& distinct(ks.map_values(|k: KeyV| k.2))
}

pub open spec fn id_key() -> spec_fn(KeyV) -> KeyV {
    |k: KeyV| k
}

/// A folder article's key: order, then slug.
pub open spec fn article_key() -> spec_fn(Article) -> KeyV {
    |a: Article| (false, a.order, a.slug@)
}

/// A topic child's key: order, then slug.
pub open spec fn child_key() -> spec_fn(TopicChild) -> KeyV {
    |c: TopicChild| match c {
        TopicChild::Article { article } => (false, article.order, article.slug@),
        TopicChild::Folder { folder } => (false, folder.order, folder.slug@),
    }
}

/// A book child's key: appendix flag, order, then slug.
pub open spec fn book_key() -> spec_fn(BookChild) -> KeyV {
    |c: BookChild| match c {
        BookChild::Article { article } => (article.appendix, article.order, article.slug@),
        BookChild::Chapter { chapter } => (chapter.appendix, chapter.order, chapter.slug@),
    }
}

/// The key a stub's alias will sort by inside a topic or folder.
pub open spec fn stub_key(s: LinkStub) -> KeyV {
    (false, s.order, s.slug@)
}

/// The key a stub's alias will sort by inside a book.
pub open spec fn book_stub_key(s: LinkStub) -> KeyV {
    (s.appendix, s.order, s.slug@)
}

/// A sort key.
pub struct SortKey {
    pub appendix: bool,
    pub order: u32,
    pub slug: String,
}

pub open spec fn sort_key_view(k: SortKey) -> KeyV {
    (k.appendix, k.order, k.slug@)
}

/// Whether key `a` sorts strictly after key `b`.
fn key_greater(a: &SortKey, b: &SortKey) -> (r: bool)
    ensures
        r == key_gt(sort_key_view(*a), sort_key_view(*b)),
{
    if a.appendix != b.appendix {
        a.appendix
    } else if a.order != b.order {
        a.order > b.order
    } else {
        !text_le(a.slug.as_str(), b.slug.as_str())
    }
}

/// Inserting where the scan from the end stops is `insert_by`.
proof fn lemma_insert_at<T>(s: Seq<T>, x: T, key: spec_fn(T) -> KeyV, p: int)
    requires
        0 <= p <= s.len(),
        forall|j: int| p <= j < s.len() ==> key_gt(key(#[trigger] s[j]), key(x)),
        p == 0 || !key_gt(key(s[p - 1]), key(x)),
    ensures
        insert_by(s, x, key) == s.insert(p, x),
    decreases s.len(),
{
    if p == s.len() {
        assert(s.insert(p, x) =~= s.push(x));
    } else {
        assert(key_gt(key(s[s.len() - 1]), key(x)));
        lemma_insert_at(s.drop_last(), x, key, p);
        assert(s.insert(p, x) =~= s.drop_last().insert(p, x).push(s.last()));
    }
}

/// Sorting commutes with taking keys.
pub proof fn lemma_sort_keys<T>(s: Seq<T>, key: spec_fn(T) -> KeyV)
    ensures
        sort_by_key(s, key).map_values(key) == sort_by_key(s.map_values(key), id_key()),
    decreases s.len(),
{
    if s.len() > 0 {
        lemma_sort_keys(s.drop_last(), key);
        assert(s.map_values(key).drop_last() =~= s.drop_last().map_values(key));
        lemma_insert_keys(sort_by_key(s.drop_last(), key), s.last(), key);
    }
}

proof fn lemma_insert_keys<T>(s: Seq<T>, x: T, key: spec_fn(T) -> KeyV)
    ensures
        insert_by(s, x, key).map_values(key) == insert_by(s.map_values(key), key(x), id_key()),
    decreases s.len(),
{
    if s.len() == 0 || !key_gt(key(s.last()), key(x)) {
        assert(s.push(x).map_values(key) =~= s.map_values(key).push(key(x)));
    } else {
        lemma_insert_keys(s.drop_last(), x, key);
        assert(s.map_values(key).drop_last() =~= s.drop_last().map_values(key));
        assert(insert_by(s.drop_last(), x, key).push(s.last()).map_values(key)
            =~= insert_by(s.drop_last(), x, key).map_values(key).push(key(s.last())));
    }
}

/// Sorting keeps the multiset of elements.
pub proof fn lemma_sort_len<T>(s: Seq<T>, key: spec_fn(T) -> KeyV)
    ensures
        sort_by_key(s, key).len() == s.len(),
    decreases s.len(),
{
    if s.len() > 0 {
        lemma_sort_len(s.drop_last(), key);
        lemma_insert_len(sort_by_key(s.drop_last(), key), s.last(), key);
    }
}

proof fn lemma_insert_len<T>(s: Seq<T>, x: T, key: spec_fn(T) -> KeyV)
    ensures
        insert_by(s, x, key).len() == s.len() + 1,
    decreases s.len(),
{
    if s.len() > 0 && key_gt(key(s.last()), key(x)) {
        lemma_insert_len(s.drop_last(), x, key);
    }
}

/// Sorts items by their keys, stably.
pub(crate) fn sort_keyed<T>(items: Vec<T>, keys: &Vec<SortKey>, Ghost(key): Ghost<spec_fn(T) -> KeyV>) -> (r: Vec<T>)
    requires
        items@.len() == keys@.len(),
        forall|i: int| 0 <= i < keys@.len() ==> sort_key_view(#[trigger] keys@[i]) == key(items@[i]),
    ensures
        r@ == sort_by_key(items@, key),
{
    let ghost orig = items@;
    let n = keys.len();
    let mut rest = items;
    let mut sorted: Vec<T> = Vec::new();
    let mut skeys: Vec<&SortKey> = Vec::new();
    let mut i: usize = 0;
    assert(orig.skip(0) =~= orig);
    while i < n
        invariant
            n == keys@.len(),
            orig.len() == n,
            i <= n,
            rest@ == orig.skip(i as int),
            sorted@ == sort_by_key(orig.take(i as int), key),
            skeys@.len() == sorted@.len(),
            forall|j: int| 0 <= j < sorted@.len() ==> sort_key_view(*(#[trigger] skeys@[j])) == key(sorted@[j]),
            forall|j: int| 0 <= j < keys@.len() ==> sort_key_view(#[trigger] keys@[j]) == key(orig[j]),
        decreases n - i,
    {
        let x = rest.remove(0);
        assert(x == orig[i as int]);
        let k = &keys[i];
        let mut p = sorted.len();
        while p > 0 && key_greater(skeys[p - 1], k)
            invariant
                p <= sorted@.len(),
                skeys@.len() == sorted@.len(),
                sort_key_view(*k) == key(x),
                forall|j: int| 0 <= j < sorted@.len() ==> sort_key_view(*(#[trigger] skeys@[j])) == key(sorted@[j]),
                forall|j: int| p <= j < sorted@.len() ==> key_gt(key(#[trigger] sorted@[j]), key(x)),
            decreases p,
        {
            p = p - 1;
        }
        let ghost before = sorted@;
        proof {
            lemma_insert_at(before, x, key, p as int);
        }
        sorted.insert(p, x);
        skeys.insert(p, k);
        assert(orig.take(i + 1).drop_last() =~= orig.take(i as int));
        assert(orig.take(i + 1).last() == x);
        assert(rest@ =~= orig.skip(i + 1));
        assert forall|j: int| 0 <= j < sorted@.len() implies sort_key_view(*(#[trigger] skeys@[j])) == key(sorted@[j]) by {
            if j < p {
            } else if j == p {
            } else {
                assert(sorted@[j] == before[j - 1]);
            }
        }
        i = i + 1;
    }
    assert(orig.take(n as int) =~= orig);
    sorted
}


/// A copy of an optional string.
pub(crate) fn copy_opt(o: &Option<String>) -> (r: Option<String>)
    ensures
        r == *o,
{
    match o {
        Some(x) => Some(x.clone()),
        None => None,
    }
}

/// A copy of a run of strings.
fn copy_strs(v: &Vec<String>) -> (r: Vec<String>)
    ensures
        r@ == v@,
{
    let mut r: Vec<String> = Vec::new();
    for i in 0..v.len()
        invariant
            r@ == v@.take(i as int),
    {
        r.push(v[i].clone());
        assert(r@ =~= v@.take(i + 1));
    }
    assert(v@.take(v.len() as int) =~= v@);
    r
}

/// A copy of a stub.
fn copy_stub(s: &LinkStub) -> (r: LinkStub)
    ensures
        r == *s,
{
    LinkStub { slug: s.slug.clone(), order: s.order, appendix: s.appendix, title: s.title.clone(), target: s.target.clone() }
}

/// A copy of a run of stubs.
fn copy_stubs(v: &Vec<LinkStub>) -> (r: Vec<LinkStub>)
    ensures
        r@ == v@,
{
    let mut r: Vec<LinkStub> = Vec::new();
    for i in 0..v.len()
        invariant
            r@ == v@.take(i as int),
    {
        r.push(copy_stub(&v[i]));
        assert(r@ =~= v@.take(i + 1));
    }
    assert(v@.take(v.len() as int) =~= v@);
    r
}

/// Two articles holding the same values.
pub open spec fn same_article(a: Article, b: Article) -> bool {
    &&& a.slug == b.slug
    &&& a.path == b.path
    &&& a.order == b.order
    &&& a.title == b.title
    &&& a.number == b.number
    &&& a.appendix == b.appendix
    &&& a.kind == b.kind
    &&& a.description == b.description
    &&& a.related@ == b.related@
    &&& a.inline_refs@ == b.inline_refs@
    &&& a.updated == b.updated
    &&& a.reading_minutes == b.reading_minutes
    &&& a.original == b.original
    &&& a.body == b.body
    &&& a.source_dir == b.source_dir
    &&& a.source_file == b.source_file
}

/// A copy of an article.
fn copy_article(a: &Article) -> (r: Article)
    ensures
        same_article(r, *a),
{
    Article {
        slug: a.slug.clone(),
        path: a.path.clone(),
        order: a.order,
        title: a.title.clone(),
        number: copy_opt(&a.number),
        appendix: a.appendix,
        kind: copy_opt(&a.kind),
        description: copy_opt(&a.description),
        related: copy_strs(&a.related),
        inline_refs: copy_strs(&a.inline_refs),
        updated: copy_opt(&a.updated),
        reading_minutes: a.reading_minutes,
        original: copy_opt(&a.original),
        body: a.body.clone(),
        source_dir: a.source_dir.clone(),
        source_file: a.source_file.clone(),
    }
}

/// Runs of articles holding the same values, position by position.
pub open spec fn same_articles(a: Seq<Article>, b: Seq<Article>) -> bool {
    a.len() == b.len() && forall|i: int| 0 <= i < a.len() ==> same_article(#[trigger] a[i], b[i])
}

/// A copy of a run of articles.
fn copy_articles(v: &Vec<Article>) -> (r: Vec<Article>)
    ensures
        same_articles(r@, v@),
{
    let mut r: Vec<Article> = Vec::new();
    for i in 0..v.len()
        invariant
            same_articles(r@, v@.take(i as int)),
    {
        let c = copy_article(&v[i]);
        r.push(c);
        assert(same_articles(r@, v@.take(i + 1)));
    }
    assert(v@.take(v.len() as int) =~= v@);
    r
}

/// Two folders holding the same values.
pub open spec fn same_folder(a: TopicFolder, b: TopicFolder) -> bool {
    &&& a.slug == b.slug
    &&& a.path == b.path
    &&& a.order == b.order
    &&& a.title == b.title
    &&& a.entry == b.entry
    &&& a.reading_minutes == b.reading_minutes
    &&& a.updated == b.updated
    &&& a.inline_refs@ == b.inline_refs@
    &&& same_articles(a.articles@, b.articles@)
    &&& a.links@ == b.links@
}

/// A copy of a folder.
fn copy_folder(f: &TopicFolder) -> (r: TopicFolder)
    ensures
        same_folder(r, *f),
{
    TopicFolder {
        slug: f.slug.clone(),
        path: f.path.clone(),
        order: f.order,
        title: f.title.clone(),
        entry: copy_opt(&f.entry),
        reading_minutes: f.reading_minutes,
        updated: copy_opt(&f.updated),
        inline_refs: copy_strs(&f.inline_refs),
        articles: copy_articles(&f.articles),
        links: copy_stubs(&f.links),
    }
}

/// `parent/slug`.
pub open spec fn child_path(parent: Seq<char>, slug: Seq<char>) -> Seq<char> {
    parent + seq!['/'] + slug
}

/// The string `parent/slug`.
fn join_path(parent: &str, slug: &str) -> (r: String)
    ensures
        r@ == child_path(parent@, slug@),
{
    let mut r = owned(parent);
    r.push('/');
    push_str(&mut r, slug);
    r
}

/// The target article under the link's own slug, URL and title: no
/// number, no appendix, no inline-ref phrases, pointing at its original.
pub open spec fn is_alias(r: Article, original: Article, stub: LinkStub, parent: Seq<char>, resolved: Seq<char>) -> bool {
    &&& r.slug == stub.slug
    &&& r.path@ == child_path(parent, stub.slug@)
    &&& r.order == stub.order
    &&& r.title == stub.title
    &&& r.number is None
    &&& !r.appendix
    &&& r.kind == original.kind
    &&& r.description == original.description
    &&& r.related@ == original.related@
    &&& r.inline_refs@.len() == 0
    &&& r.updated == original.updated
    &&& r.reading_minutes == original.reading_minutes
    &&& r.original matches Some(o) && o@ == resolved
    &&& r.body == original.body
    &&& r.source_dir == original.source_dir
    &&& r.source_file == original.source_file
}

/// The target article cloned under the link's own slug, URL, and title.
fn alias_article(original: &Article, stub: &LinkStub, parent: &str, resolved: String) -> (r: Article)
    ensures
        is_alias(r, *original, *stub, parent@, resolved@),
{
    Article {
        slug: stub.slug.clone(),
        path: join_path(parent, stub.slug.as_str()),
        order: stub.order,
        title: stub.title.clone(),
        number: None,
        appendix: false,
        kind: copy_opt(&original.kind),
        description: copy_opt(&original.description),
        related: copy_strs(&original.related),
        inline_refs: Vec::new(),
        updated: copy_opt(&original.updated),
        reading_minutes: original.reading_minutes,
        original: Some(resolved),
        body: original.body.clone(),
        source_dir: original.source_dir.clone(),
        source_file: original.source_file.clone(),
    }
}

/// An article of an aliased folder: under the new folder's URL, pointing
/// at its true original, with no inline-ref phrases.
pub open spec fn is_realiased(r: Article, a: Article, folder_path: Seq<char>) -> bool {
    &&& r.slug == a.slug
    &&& r.path@ == child_path(folder_path, a.slug@)
    &&& r.order == a.order
    &&& r.title == a.title
    &&& r.number == a.number
    &&& r.appendix == a.appendix
    &&& r.kind == a.kind
    &&& r.description == a.description
    &&& r.related@ == a.related@
    &&& r.inline_refs@.len() == 0
    &&& r.updated == a.updated
    &&& r.reading_minutes == a.reading_minutes
    &&& r.original == Some(match a.original { Some(o) => o, None => a.path })
    &&& r.body == a.body
    &&& r.source_dir == a.source_dir
    &&& r.source_file == a.source_file
}

/// A folder's entry is its first article's path, if it has any.
pub open spec fn entry_is_first(entry: Option<String>, articles: Seq<Article>) -> bool {
    match entry {
        Some(e) => articles.len() > 0 && e@ == articles[0].path@,
        None => articles.len() == 0,
    }
}

/// The first path of a run of articles.
fn first_path(articles: &Vec<Article>) -> (r: Option<String>)
    ensures
        entry_is_first(r, articles@),
{
    if articles.len() > 0 {
        Some(articles[0].path.clone())
    } else {
        None
    }
}

/// The target folder cloned under the link's own slug and URL, each of
/// its articles realiased.
pub open spec fn is_folder_alias(g: TopicFolder, source: TopicFolder, stub: LinkStub, parent: Seq<char>) -> bool {
    &&& g.slug == stub.slug
    &&& g.order == stub.order
    &&& g.title == stub.title
    &&& g.path@ == child_path(parent, stub.slug@)
    &&& g.inline_refs@.len() == 0
    &&& g.reading_minutes == source.reading_minutes
    &&& g.updated == source.updated
    &&& g.links@ == source.links@
    &&& g.articles@.len() == source.articles@.len()
    &&& forall|i: int| 0 <= i < g.articles@.len() ==> is_realiased(#[trigger] g.articles@[i], source.articles@[i], g.path@)
    &&& entry_is_first(g.entry, g.articles@)
}

/// The target folder cloned under the link's own slug and URL.
fn alias_folder(source: &TopicFolder, stub: &LinkStub, parent: &str) -> (r: TopicFolder)
    ensures
        is_folder_alias(r, *source, *stub, parent@),
{
    let path = join_path(parent, stub.slug.as_str());
    let mut articles: Vec<Article> = Vec::new();
    for i in 0..source.articles.len()
        invariant
            articles@.len() == i,
            i <= source.articles@.len(),
            forall|j: int| 0 <= j < i ==> is_realiased(#[trigger] articles@[j], source.articles@[j], path@),
    {
        let a = &source.articles[i];
        let original = match &a.original {
            Some(o) => o.clone(),
            None => a.path.clone(),
        };
        let r = Article {
            slug: a.slug.clone(),
            path: join_path(path.as_str(), a.slug.as_str()),
            order: a.order,
            title: a.title.clone(),
            number: copy_opt(&a.number),
            appendix: a.appendix,
            kind: copy_opt(&a.kind),
            description: copy_opt(&a.description),
            related: copy_strs(&a.related),
            inline_refs: Vec::new(),
            updated: copy_opt(&a.updated),
            reading_minutes: a.reading_minutes,
            original: Some(original),
            body: a.body.clone(),
            source_dir: a.source_dir.clone(),
            source_file: a.source_file.clone(),
        };
        articles.push(r);
    }
    let entry = first_path(&articles);
    TopicFolder {
        slug: stub.slug.clone(),
        path,
        order: stub.order,
        title: stub.title.clone(),
        entry,
        reading_minutes: source.reading_minutes,
        updated: copy_opt(&source.updated),
        inline_refs: Vec::new(),
        articles,
        links: copy_stubs(&source.links),
    }
}

/// `s` without its leading `~` characters.
pub open spec fn strip_tildes(s: Seq<char>) -> Seq<char>
    decreases s.len(),
{
    if s.len() > 0 && s[0] == '~' { strip_tildes(s.drop_first()) } else { s }
}

/// A stub's target without its leading `~`.
fn stub_reference(target: &str) -> (r: String)
    ensures
        r@ == strip_tildes(target@),
{
    let t = chars_of(target);
    let n = t.len();
    let mut i: usize = 0;
    assert(t@.skip(0) =~= t@);
    while i < n && t[i] == '~'
        invariant
            n == t@.len(),
            i <= n,
            strip_tildes(t@.skip(i as int)) == strip_tildes(target@),
            t@ == target@,
        decreases n - i,
    {
        assert(t@.skip(i as int).drop_first() =~= t@.skip(i + 1));
        i = i + 1;
    }
    string_of(crate::text::slice_vec(t.as_slice(), i, n).as_slice())
}

/// The page a stub's target resolves to, if it resolves.
pub open spec fn stub_page(index: LinkIndex, stub: LinkStub) -> Option<Seq<char>> {
    match resolution(index.products@, strip_tildes(stub.target@)) {
        Resolution::Page(p, _) => Some(p),
        _ => None,
    }
}

/// The message of a stub whose target does not resolve.
pub open spec fn unresolved_message(stub: LinkStub, parent: Seq<char>, inner: Seq<char>) -> Seq<char> {
    "resolving link '"@ + stub.slug@ + "' in '"@ + parent + "': "@ + inner
}

/// Resolves a stub's target to a page path through the index.
fn resolve_stub(index: &LinkIndex, stub: &LinkStub, parent: &str) -> (r: Result<String, String>)
    ensures
        match stub_page(*index, *stub) {
            Some(p) => r matches Ok(t) && t@ == p,
            None => r matches Err(m) && exists|inner: Seq<char>| m@ == unresolved_message(*stub, parent@, inner),
        },
{
    let reference = stub_reference(stub.target.as_str());
    match index.resolve(reference.as_str()) {
        Ok(path) => Ok(path),
        Err(e) => {
            let inner = e.message();
            let mut m = owned("resolving link '");
            push_str(&mut m, stub.slug.as_str());
            push_str(&mut m, "' in '");
            push_str(&mut m, parent);
            push_str(&mut m, "': ");
            push_str(&mut m, inner.as_str());
            assert(m@ =~= unresolved_message(*stub, parent@, inner@));
            Err(m)
        },
    }
}

/// The last article with path `p`.
pub open spec fn last_article(v: Seq<Article>, p: Seq<char>) -> Option<int>
    decreases v.len(),
{
    if v.len() == 0 {
        None
    } else if v.last().path@ == p {
        Some(v.len() - 1)
    } else {
        last_article(v.drop_last(), p)
    }
}

proof fn lemma_last_article(v: Seq<Article>, p: Seq<char>)
    ensures
        last_article(v, p) is Some ==> 0 <= last_article(v, p)->Some_0 < v.len() && v[last_article(v, p)->Some_0].path@ == p,
    decreases v.len(),
{
    if v.len() > 0 {
        lemma_last_article(v.drop_last(), p);
    }
}

/// Finds the last article with path `p`.
fn find_article(v: &Vec<Article>, p: &str) -> (r: Option<usize>)
    ensures
        match last_article(v@, p@) {
            Some(i) => r matches Some(x) && x == i,
            None => r is None,
        },
{
    let mut i = v.len();
    assert(v@.take(i as int) =~= v@);
    while i > 0
        invariant
            i <= v@.len(),
            last_article(v@, p@) == last_article(v@.take(i as int), p@),
        decreases i,
    {
        assert(v@.take(i as int).drop_last() =~= v@.take(i - 1));
        if crate::text::text_eq(v[i - 1].path.as_str(), p) {
            return Some(i - 1);
        }
        i = i - 1;
    }
    None
}

/// The last folder with path `p`.
pub open spec fn last_folder(v: Seq<TopicFolder>, p: Seq<char>) -> Option<int>
    decreases v.len(),
{
    if v.len() == 0 {
        None
    } else if v.last().path@ == p {
        Some(v.len() - 1)
    } else {
        last_folder(v.drop_last(), p)
    }
}

proof fn lemma_last_folder(v: Seq<TopicFolder>, p: Seq<char>)
    ensures
        last_folder(v, p) is Some ==> 0 <= last_folder(v, p)->Some_0 < v.len() && v[last_folder(v, p)->Some_0].path@ == p,
    decreases v.len(),
{
    if v.len() > 0 {
        lemma_last_folder(v.drop_last(), p);
    }
}

/// Finds the last folder with path `p`.
fn find_folder(v: &Vec<TopicFolder>, p: &str) -> (r: Option<usize>)
    ensures
        match last_folder(v@, p@) {
            Some(i) => r matches Some(x) && x == i,
            None => r is None,
        },
{
    let mut i = v.len();
    assert(v@.take(i as int) =~= v@);
    while i > 0
        invariant
            i <= v@.len(),
            last_folder(v@, p@) == last_folder(v@.take(i as int), p@),
        decreases i,
    {
        assert(v@.take(i as int).drop_last() =~= v@.take(i - 1));
        if crate::text::text_eq(v[i - 1].path.as_str(), p) {
            return Some(i - 1);
        }
        i = i - 1;
    }
    None
}

/// What stubs resolve against: the folder-aware index, a snapshot of
/// every article taken before any stub resolved, and a snapshot of every
/// topic subfolder taken once subfolder stubs have resolved.
pub struct LinkContext {
    pub index: LinkIndex,
    pub originals: Vec<Article>,
    pub folders: Vec<TopicFolder>,
}


/// The keys a run of stubs' aliases sort by in a topic or folder.
pub open spec fn stub_keys(stubs: Seq<LinkStub>) -> Seq<KeyV> {
    stubs.map_values(|s: LinkStub| stub_key(s))
}

/// The key of an order entry.
pub open spec fn entry_key(e: OrderedEntry) -> KeyV {
    (e.appendix, e.order, e.slug@)
}

/// The order entries of a run of keys, for the duplicate check.
fn entries_of(keys: &Vec<SortKey>) -> (r: Vec<OrderedEntry>)
    ensures
        r@.map_values(|e: OrderedEntry| entry_key(e)) == keys@.map_values(|k: SortKey| sort_key_view(k)),
{
    let mut r: Vec<OrderedEntry> = Vec::new();
    for i in 0..keys.len()
        invariant
            r@.map_values(|e: OrderedEntry| entry_key(e)) == keys@.take(i as int).map_values(|k: SortKey| sort_key_view(k)),
    {
        let k = &keys[i];
        let e = OrderedEntry { appendix: k.appendix, order: k.order, slug: k.slug.clone() };
        let ghost b = r@;
        r.push(e);
        assert(r@.map_values(|e: OrderedEntry| entry_key(e)) =~= b.map_values(|e: OrderedEntry| entry_key(e)).push(entry_key(e)));
        assert(keys@.take(i + 1).map_values(|k: SortKey| sort_key_view(k))
            =~= keys@.take(i as int).map_values(|k: SortKey| sort_key_view(k)).push(sort_key_view(*k)));
    }
    assert(keys@.take(keys.len() as int) =~= keys@);
    r
}

/// The duplicate check over order entries is `keys_ok` over their keys.
proof fn lemma_entries_ok(entries: Seq<OrderedEntry>, ks: Seq<KeyV>)
    requires
        entries.map_values(|e: OrderedEntry| entry_key(e)) == ks,
    ensures
        (orders_distinct_adjacent(entries) && distinct(entry_slugs(entries))) == keys_ok(ks),
{
    assert(entries.len() == ks.len());
    assert forall|i: int| 0 <= i < entries.len() implies entry_key(#[trigger] entries[i]) == ks[i] by {
        assert(entries.map_values(|e: OrderedEntry| entry_key(e))[i] == entry_key(entries[i]));
    }
    assert(entry_slugs(entries) =~= ks.map_values(|k: KeyV| k.2));
    if orders_distinct_adjacent(entries) {
        assert forall|i: int| 0 <= i < ks.len() - 1 implies (#[trigger] ks[i].0, ks[i].1) != (ks[i + 1].0, ks[i + 1].1) by {
            assert(entry_key(entries[i]) == ks[i]);
            assert(entry_key(entries[i + 1]) == ks[i + 1]);
        }
    }
    if keys_ok(ks) {
        assert forall|i: int| 0 <= i < entries.len() - 1 implies
            (#[trigger] entries[i].appendix, entries[i].order) != (entries[i + 1].appendix, entries[i + 1].order) by {
            assert(entry_key(entries[i]) == ks[i]);
            assert(entry_key(entries[i + 1]) == ks[i + 1]);
            assert((ks[i].0, ks[i].1) != (ks[i + 1].0, ks[i + 1].1));
        }
    }
}

/// Checks the sorted keys; the error names the duplicate, after the
/// context.
fn check_keys(what: &str, keys: &Vec<SortKey>, context: &str) -> (r: Result<(), String>)
    ensures
        r is Ok <==> keys_ok(keys@.map_values(|k: SortKey| sort_key_view(k))),
        r matches Err(m) ==> exists|e: Seq<char>| m@ == context@ + e,
        r matches Err(m) ==> m@ == context@ + crate::validate::duplicates_message(what@, keys@.map_values(|k: SortKey| sort_key_view(k))),
{
    let entries = entries_of(keys);
    assert(entries@.map_values(|e: OrderedEntry| crate::validate::entry_view(e))
        =~= entries@.map_values(|e: OrderedEntry| entry_key(e)));
    proof {
        lemma_entries_ok(entries@, keys@.map_values(|k: SortKey| sort_key_view(k)));
    }
    match check_duplicates(what, &entries) {
        Ok(()) => Ok(()),
        Err(e) => {
            let mut m = owned(context);
            push_str(&mut m, e.as_str());
            assert(m@ == context@ + e@);
            Err(m)
        },
    }
}

/// The sort keys of a run of folder articles.
pub(crate) fn article_sort_keys(v: &Vec<Article>) -> (r: Vec<SortKey>)
    ensures
        r@.len() == v@.len(),
        forall|i: int| 0 <= i < v@.len() ==> sort_key_view(#[trigger] r@[i]) == (article_key())(v@[i]),
{
    let mut r: Vec<SortKey> = Vec::new();
    for i in 0..v.len()
        invariant
            r@.len() == i,
            i <= v@.len(),
            forall|j: int| 0 <= j < i ==> sort_key_view(#[trigger] r@[j]) == (article_key())(v@[j]),
    {
        r.push(SortKey { appendix: false, order: v[i].order, slug: v[i].slug.clone() });
    }
    r
}

/// The sort keys of a run of topic children.
pub(crate) fn child_sort_keys(v: &Vec<TopicChild>) -> (r: Vec<SortKey>)
    ensures
        r@.len() == v@.len(),
        forall|i: int| 0 <= i < v@.len() ==> sort_key_view(#[trigger] r@[i]) == (child_key())(v@[i]),
{
    let mut r: Vec<SortKey> = Vec::new();
    for i in 0..v.len()
        invariant
            r@.len() == i,
            i <= v@.len(),
            forall|j: int| 0 <= j < i ==> sort_key_view(#[trigger] r@[j]) == (child_key())(v@[j]),
    {
        let k = match &v[i] {
            TopicChild::Article { article } => SortKey { appendix: false, order: article.order, slug: article.slug.clone() },
            TopicChild::Folder { folder } => SortKey { appendix: false, order: folder.order, slug: folder.slug.clone() },
        };
        r.push(k);
    }
    r
}

/// The sort keys of a run of book children.
pub(crate) fn book_sort_keys(v: &Vec<BookChild>) -> (r: Vec<SortKey>)
    ensures
        r@.len() == v@.len(),
        forall|i: int| 0 <= i < v@.len() ==> sort_key_view(#[trigger] r@[i]) == (book_key())(v@[i]),
{
    let mut r: Vec<SortKey> = Vec::new();
    for i in 0..v.len()
        invariant
            r@.len() == i,
            i <= v@.len(),
            forall|j: int| 0 <= j < i ==> sort_key_view(#[trigger] r@[j]) == (book_key())(v@[j]),
    {
        let k = match &v[i] {
            BookChild::Article { article } => SortKey { appendix: article.appendix, order: article.order, slug: article.slug.clone() },
            BookChild::Chapter { chapter } => SortKey { appendix: chapter.appendix, order: chapter.order, slug: chapter.slug.clone() },
        };
        r.push(k);
    }
    r
}

/// Keys given position by position are the mapped keys.
proof fn lemma_keys_map<T>(ks: Seq<SortKey>, v: Seq<T>, key: spec_fn(T) -> KeyV)
    requires
        ks.len() == v.len(),
        forall|i: int| 0 <= i < v.len() ==> sort_key_view(#[trigger] ks[i]) == key(v[i]),
    ensures
        ks.map_values(|k: SortKey| sort_key_view(k)) == v.map_values(key),
{
    assert(ks.map_values(|k: SortKey| sort_key_view(k)) =~= v.map_values(key));
}

/// The article a stub's target resolves to in the snapshot.
pub open spec fn original_of(ctx: LinkContext, stub: LinkStub) -> Article {
    ctx.originals@[last_article(ctx.originals@, stub_page(ctx.index, stub)->Some_0)->Some_0]
}

/// Every stub resolves to an article of the snapshot.
pub open spec fn stubs_find_articles(ctx: LinkContext, stubs: Seq<LinkStub>) -> bool {
    forall|k: int| 0 <= k < stubs.len() ==>
        (#[trigger] stub_page(ctx.index, stubs[k]) matches Some(p) && last_article(ctx.originals@, p) is Some)
}

/// A stub whose target resolves to an article of the snapshot.
pub open spec fn stub_finds_article(ctx: LinkContext, s: LinkStub) -> bool {
    stub_page(ctx.index, s) matches Some(p) && last_article(ctx.originals@, p) is Some
}

/// Stub `k` is the first of `stubs` that finds no article.
pub open spec fn first_unfound(ctx: LinkContext, stubs: Seq<LinkStub>, k: int) -> bool {
    &&& 0 <= k < stubs.len()
    &&& forall|j: int| 0 <= j < k ==> stub_finds_article(ctx, #[trigger] stubs[j])
    &&& !stub_finds_article(ctx, stubs[k])
}

/// Stub `k` is the first of a topic's stubs that lands on neither an
/// article nor a subfolder.
pub open spec fn first_untargetable(ctx: LinkContext, stubs: Seq<LinkStub>, k: int) -> bool {
    &&& 0 <= k < stubs.len()
    &&& forall|j: int| 0 <= j < k ==> topic_stub_ok(ctx, #[trigger] stubs[j])
    &&& !topic_stub_ok(ctx, stubs[k])
}

/// The message of a stub whose target is a page of the wrong kind.
pub open spec fn wrong_target_message(stub: LinkStub, parent: Seq<char>, why: Seq<char>) -> Seq<char> {
    "link '"@ + stub.slug@ + "' in '"@ + parent + "' targets '"@ + stub.target@ + "', which is not "@ + why
}

pub open spec fn topic_why() -> Seq<char> {
    "an article or a topic subfolder (a link cannot target another link)"@
}

pub open spec fn folder_why() -> Seq<char> {
    "an article (a subfolder can only link articles, and a link cannot target another link)"@
}

pub open spec fn book_why() -> Seq<char> {
    "an article (only articles can be linked into a book, and a link cannot target another link)"@
}

/// How a stub that cannot take its place is answered: the resolver's
/// complaint when its target does not resolve, else the complaint that
/// the page it lands on is of the wrong kind.
pub open spec fn stub_failure(ctx: LinkContext, s: LinkStub, parent: Seq<char>, why: Seq<char>, m: Seq<char>) -> bool {
    match stub_page(ctx.index, s) {
        None => exists|inner: Seq<char>| m == unresolved_message(s, parent, inner),
        Some(_) => m == wrong_target_message(s, parent, why),
    }
}

/// Every message a failed linking run can answer with.
pub open spec fn linking_message(m: Seq<char>) -> bool {
    ||| exists|s: LinkStub, parent: Seq<char>, inner: Seq<char>| m == unresolved_message(s, parent, inner)
    ||| exists|s: LinkStub, parent: Seq<char>| m == wrong_target_message(s, parent, topic_why())
        || m == wrong_target_message(s, parent, folder_why()) || m == wrong_target_message(s, parent, book_why())
    ||| exists|place: Seq<char>, e: Seq<char>| m == "in topic '"@ + place + "': "@ + e
        || m == "in subfolder '"@ + place + "': "@ + e || m == "in '"@ + place + "': "@ + e
    ||| exists|slug: Seq<char>| m == "chapter '"@ + slug + "' contains no articles"@
}

proof fn lemma_first_unfound_at(ctx: LinkContext, stubs: Seq<LinkStub>, k: int)
    requires
        0 <= k < stubs.len(),
        stubs_find_articles(ctx, stubs.take(k)),
        !stub_finds_article(ctx, stubs[k]),
    ensures
        forall|k2: int| #[trigger] first_unfound(ctx, stubs, k2) ==> k2 == k,
        first_unfound(ctx, stubs, k),
{
    assert forall|j: int| 0 <= j < k implies stub_finds_article(ctx, #[trigger] stubs[j]) by {
        assert(stubs.take(k)[j] == stubs[j]);
        assert(stub_page(ctx.index, stubs.take(k)[j]) matches Some(p) && last_article(ctx.originals@, p) is Some);
    }
}

proof fn lemma_no_first_unfound(ctx: LinkContext, stubs: Seq<LinkStub>)
    requires
        stubs_find_articles(ctx, stubs),
    ensures
        forall|k: int| !(#[trigger] first_unfound(ctx, stubs, k)),
{
    assert forall|k: int| !(#[trigger] first_unfound(ctx, stubs, k)) by {
        if 0 <= k < stubs.len() {
            assert(stub_page(ctx.index, stubs[k]) matches Some(p) && last_article(ctx.originals@, p) is Some);
        }
    }
}

/// `extra` holds the aliases of `stubs` under `parent`, in order.
pub open spec fn aliases_of(extra: Seq<Article>, ctx: LinkContext, stubs: Seq<LinkStub>, parent: Seq<char>) -> bool {
    &&& extra.len() == stubs.len()
    &&& forall|k: int| 0 <= k < stubs.len() ==>
        is_alias(#[trigger] extra[k], original_of(ctx, stubs[k]), stubs[k], parent, stub_page(ctx.index, stubs[k])->Some_0)
}

/// A subfolder's stubs all resolve to articles, and its articles with the
/// aliases sorted in have distinct orders and slugs.
pub open spec fn folder_ok(f: TopicFolder, ctx: LinkContext) -> bool {
    &&& stubs_find_articles(ctx, f.links@)
    &&& keys_ok(sort_by_key(f.articles@.map_values(article_key()) + stub_keys(f.links@), id_key()))
}

/// A subfolder with its stubs resolved: the aliases sorted in among its
/// articles, the entry its first article, no stubs left.
pub open spec fn folder_resolved(f: TopicFolder, g: TopicFolder, ctx: LinkContext) -> bool {
    &&& g == TopicFolder { articles: g.articles, entry: g.entry, links: g.links, ..f }
    &&& g.links@.len() == 0
    &&& exists|extra: Seq<Article>|
        aliases_of(extra, ctx, f.links@, f.path@) && #[trigger] sort_by_key(f.articles@ + extra, article_key()) == g.articles@
    &&& entry_is_first(g.entry, g.articles@)
}

/// Resolves a subfolder's stubs into alias articles.
fn resolve_folder(folder: TopicFolder, ctx: &LinkContext) -> (r: Result<TopicFolder, String>)
    ensures
        r is Ok <==> folder_ok(folder, *ctx),
        r matches Ok(g) ==> folder_resolved(folder, g, *ctx),
        forall|k: int| #[trigger] first_unfound(*ctx, folder.links@, k) ==>
            (r matches Err(m) && stub_failure(*ctx, folder.links@[k], folder.path@, folder_why(), m@)),
        r matches Err(m) ==> linking_message(m@),
{
    let ghost f0 = folder;
    let TopicFolder { slug, path, order, title, entry, reading_minutes, updated, inline_refs, articles, links } = folder;
    let ghost a0 = articles@;
    let mut all = articles;
    let ghost mut extra: Seq<Article> = Seq::empty();
    for k in 0..links.len()
        invariant
            f0 == folder,
            links@ == f0.links@,
            path == f0.path,
            all@ == a0 + extra,
            aliases_of(extra, *ctx, links@.take(k as int), path@),
            stubs_find_articles(*ctx, links@.take(k as int)),
    {
        let stub = &links[k];
        let resolved = match resolve_stub(&ctx.index, stub, path.as_str()) {
            Ok(p) => p,
            Err(m) => {
                assert(!stubs_find_articles(*ctx, links@)) by {
                    assert(links@[k as int] == *stub);
                    assert(stub_page(ctx.index, links@[k as int]) is None);
                }
                proof {
                    lemma_first_unfound_at(*ctx, links@, k as int);
                    let inner = choose|inner: Seq<char>| m@ == unresolved_message(*stub, path@, inner);
                    assert(m@ == unresolved_message(*stub, path@, inner));
                }
                return Err(m);
            },
        };
        match find_article(&ctx.originals, resolved.as_str()) {
            None => {
                assert(!stubs_find_articles(*ctx, links@)) by {
                    assert(links@[k as int] == *stub);
                    assert(stub_page(ctx.index, links@[k as int]) == Some(resolved@));
                    assert(last_article(ctx.originals@, resolved@) is None);
                }
                let mut m = owned("link '");
                push_str(&mut m, stub.slug.as_str());
                push_str(&mut m, "' in '");
                push_str(&mut m, path.as_str());
                push_str(&mut m, "' targets '");
                push_str(&mut m, stub.target.as_str());
                push_str(&mut m, "', which is not an article (a subfolder can only link articles, and a link cannot target another link)");
                proof {
                    reveal_strlit("an article (a subfolder can only link articles, and a link cannot target another link)");
                    reveal_strlit("', which is not an article (a subfolder can only link articles, and a link cannot target another link)");
                    reveal_strlit("', which is not ");
                    lemma_first_unfound_at(*ctx, links@, k as int);
                    assert(m@ =~= wrong_target_message(*stub, path@, folder_why()));
                }
                return Err(m);
            },
            Some(i) => {
                let ghost rv = resolved@;
                proof {
                    lemma_last_article(ctx.originals@, rv);
                    assert(last_article(ctx.originals@, rv) == Some(i as int));
                }
                let a = alias_article(&ctx.originals[i], stub, path.as_str(), resolved);
                all.push(a);
                proof {
                    extra = extra.push(a);
                    assert(links@.take(k + 1).drop_last() =~= links@.take(k as int));
                    assert(all@ =~= a0 + extra);
                    assert forall|j: int| 0 <= j < k + 1 implies
                        is_alias(#[trigger] extra[j], original_of(*ctx, links@.take(k + 1)[j]), links@.take(k + 1)[j], path@,
                            stub_page(ctx.index, links@.take(k + 1)[j])->Some_0) by {
                        if j < k {
                            assert(links@.take(k + 1)[j] == links@.take(k as int)[j]);
                        } else {
                            assert(links@.take(k + 1)[j] == *stub);
                            assert(stub_page(ctx.index, *stub) == Some(rv));
                            assert(last_article(ctx.originals@, rv) == Some(i as int));
                        }
                    }
                    assert forall|j: int| 0 <= j < k + 1 implies
                        (#[trigger] stub_page(ctx.index, links@.take(k + 1)[j]) matches Some(p) && last_article(ctx.originals@, p) is Some) by {
                        if j < k {
                            assert(links@.take(k + 1)[j] == links@.take(k as int)[j]);
                        }
                    }
                }
            },
        }
    }
    assert(links@.take(links@.len() as int) =~= links@);
    let keys = article_sort_keys(&all);
    let sorted = sort_keyed(all, &keys, Ghost(article_key()));
    let sorted_keys = article_sort_keys(&sorted);
    proof {
        lemma_keys_map(sorted_keys@, sorted@, article_key());
        lemma_sort_keys(a0 + extra, article_key());
        assert((a0 + extra).map_values(article_key()) =~= a0.map_values(article_key()) + stub_keys(links@)) by {
            assert forall|j: int| 0 <= j < extra.len() implies (article_key())(#[trigger] extra[j]) == stub_key(links@[j]) by {
                assert(is_alias(extra[j], original_of(*ctx, links@[j]), links@[j], path@, stub_page(ctx.index, links@[j])->Some_0));
            }
        }
    }
    let mut context = owned("in subfolder '");
    push_str(&mut context, path.as_str());
    push_str(&mut context, "': ");
    proof {
        lemma_no_first_unfound(*ctx, links@);
    }
    match check_keys("article", &sorted_keys, context.as_str()) {
        Err(m) => {
            proof {
                let e = choose|e: Seq<char>| m@ == context@ + e;
                assert(m@ =~= "in subfolder '"@ + path@ + "': "@ + e);
            }
            return Err(m);
        },
        Ok(()) => {},
    }
    let first = first_path(&sorted);
    let g = TopicFolder { slug, path, order, title, entry: first, reading_minutes, updated, inline_refs, articles: sorted, links: Vec::new() };
    assert(sort_by_key(f0.articles@ + extra, article_key()) == g.articles@);
    Ok(g)
}


/// A topic child's subfolder stubs resolve.
pub open spec fn child_folder_ok(c: TopicChild, ctx: LinkContext) -> bool {
    match c {
        TopicChild::Folder { folder } => folder_ok(folder, ctx),
        TopicChild::Article { .. } => true,
    }
}

/// A topic child with its subfolder stubs resolved.
pub open spec fn child_folder_resolved(c: TopicChild, d: TopicChild, ctx: LinkContext) -> bool {
    match c {
        TopicChild::Folder { folder } => (d matches TopicChild::Folder { folder: g } && folder_resolved(folder, g, ctx)),
        TopicChild::Article { .. } => d == c,
    }
}

/// Every subfolder of a topic resolves its stubs.
pub open spec fn topic_folders_ok(t: Topic, ctx: LinkContext) -> bool {
    forall|i: int| 0 <= i < t.children@.len() ==> child_folder_ok(#[trigger] t.children@[i], ctx)
}

/// A topic with the stubs of its subfolders resolved, nothing else moved.
pub open spec fn topic_folders_resolved(t: Topic, u: Topic, ctx: LinkContext) -> bool {
    &&& u == Topic { children: u.children, ..t }
    &&& u.children@.len() == t.children@.len()
    &&& forall|i: int| 0 <= i < t.children@.len() ==> child_folder_resolved(#[trigger] t.children@[i], u.children@[i], ctx)
}

/// Resolves the stubs in a topic's subfolders.
fn resolve_topic_folders(topic: Topic, ctx: &LinkContext) -> (r: Result<Topic, String>)
    ensures
        r is Ok <==> topic_folders_ok(topic, *ctx),
        r matches Ok(u) ==> topic_folders_resolved(topic, u, *ctx),
        r matches Err(m) ==> linking_message(m@),
{
    let ghost t0 = topic;
    let Topic { slug, path, order, title, reading_minutes, updated, inline_refs, children, links } = topic;
    let ghost c0 = children@;
    let n = children.len();
    let mut rest = children;
    let mut done: Vec<TopicChild> = Vec::new();
    assert(c0.skip(0) =~= c0);
    for i in 0..n
        invariant
            t0 == topic,
            c0 == t0.children@,
            n == c0.len(),
            rest@ == c0.skip(i as int),
            done@.len() == i,
            forall|j: int| 0 <= j < i ==> child_folder_ok(#[trigger] c0[j], *ctx),
            forall|j: int| 0 <= j < i ==> child_folder_resolved(#[trigger] c0[j], done@[j], *ctx),
    {
        let c = rest.remove(0);
        assert(c == c0[i as int]);
        assert(rest@ =~= c0.skip(i + 1));
        match c {
            TopicChild::Folder { folder } => {
                match resolve_folder(folder, ctx) {
                    Err(m) => {
                        assert(!child_folder_ok(c0[i as int], *ctx));
                        return Err(m);
                    },
                    Ok(g) => {
                        done.push(TopicChild::Folder { folder: g });
                    },
                }
            },
            TopicChild::Article { article } => {
                done.push(TopicChild::Article { article });
            },
        }
    }
    Ok(Topic { slug, path, order, title, reading_minutes, updated, inline_refs, children: done, links })
}

/// A topic-level stub resolves to an article, or else to a subfolder.
pub open spec fn topic_stub_ok(ctx: LinkContext, s: LinkStub) -> bool {
    stub_page(ctx.index, s) matches Some(p)
        && (last_article(ctx.originals@, p) is Some || last_folder(ctx.folders@, p) is Some)
}

/// The child a topic-level stub becomes: an alias of the article it
/// names, else an aliased copy of the subfolder it names.
pub open spec fn is_topic_alias(c: TopicChild, ctx: LinkContext, s: LinkStub, parent: Seq<char>) -> bool {
    let p = stub_page(ctx.index, s)->Some_0;
    match last_article(ctx.originals@, p) {
        Some(i) => (c matches TopicChild::Article { article } && is_alias(article, ctx.originals@[i], s, parent, p)),
        None => (c matches TopicChild::Folder { folder }
            && is_folder_alias(folder, ctx.folders@[last_folder(ctx.folders@, p)->Some_0], s, parent)),
    }
}

/// A topic's stubs all resolve, and its children with the aliases sorted
/// in have distinct orders and slugs.
pub open spec fn topic_ok(t: Topic, ctx: LinkContext) -> bool {
    &&& forall|k: int| 0 <= k < t.links@.len() ==> topic_stub_ok(ctx, #[trigger] t.links@[k])
    &&& keys_ok(sort_by_key(t.children@.map_values(child_key()) + stub_keys(t.links@), id_key()))
}

/// A topic with its own stubs resolved: the aliases sorted in among its
/// children, no stubs left.
pub open spec fn topic_resolved(t: Topic, u: Topic, ctx: LinkContext) -> bool {
    &&& u == Topic { children: u.children, links: u.links, ..t }
    &&& u.links@.len() == 0
    &&& exists|extra: Seq<TopicChild>|
        extra.len() == t.links@.len()
        && (forall|k: int| 0 <= k < extra.len() ==> is_topic_alias(#[trigger] extra[k], *&ctx, t.links@[k], t.path@))
        && #[trigger] sort_by_key(t.children@ + extra, child_key()) == u.children@
}

/// Resolves a topic's own stubs into alias articles or aliased subfolders.
fn resolve_topic(topic: Topic, ctx: &LinkContext) -> (r: Result<Topic, String>)
    ensures
        r is Ok <==> topic_ok(topic, *ctx),
        r matches Ok(u) ==> topic_resolved(topic, u, *ctx),
        forall|k: int| #[trigger] first_untargetable(*ctx, topic.links@, k) ==>
            (r matches Err(m) && stub_failure(*ctx, topic.links@[k], topic.path@, topic_why(), m@)),
        r matches Err(m) ==> linking_message(m@),
{
    let ghost t0 = topic;
    let Topic { slug, path, order, title, reading_minutes, updated, inline_refs, children, links } = topic;
    let ghost c0 = children@;
    let mut all = children;
    let ghost mut extra: Seq<TopicChild> = Seq::empty();
    for k in 0..links.len()
        invariant
            t0 == topic,
            links@ == t0.links@,
            path == t0.path,
            c0 == t0.children@,
            all@ == c0 + extra,
            extra.len() == k,
            forall|j: int| 0 <= j < k ==> is_topic_alias(#[trigger] extra[j], *ctx, links@[j], path@),
            forall|j: int| 0 <= j < k ==> topic_stub_ok(*ctx, #[trigger] links@[j]),
    {
        let stub = &links[k];
        let resolved = match resolve_stub(&ctx.index, stub, path.as_str()) {
            Ok(p) => p,
            Err(m) => {
                assert(!topic_stub_ok(*ctx, links@[k as int]));
                proof {
                    assert(first_untargetable(*ctx, links@, k as int));
                    let inner = choose|inner: Seq<char>| m@ == unresolved_message(*stub, path@, inner);
                    assert(m@ == unresolved_message(*stub, path@, inner));
                }
                return Err(m);
            },
        };
        let ghost rv = resolved@;
        assert(stub_page(ctx.index, links@[k as int]) == Some(rv));
        proof {
            lemma_last_article(ctx.originals@, rv);
            lemma_last_folder(ctx.folders@, rv);
        }
        let child = match find_article(&ctx.originals, resolved.as_str()) {
            Some(i) => TopicChild::Article { article: alias_article(&ctx.originals[i], stub, path.as_str(), resolved) },
            None => match find_folder(&ctx.folders, resolved.as_str()) {
                Some(i) => TopicChild::Folder { folder: alias_folder(&ctx.folders[i], stub, path.as_str()) },
                None => {
                    assert(!topic_stub_ok(*ctx, links@[k as int]));
                    let mut m = owned("link '");
                    push_str(&mut m, stub.slug.as_str());
                    push_str(&mut m, "' in '");
                    push_str(&mut m, path.as_str());
                    push_str(&mut m, "' targets '");
                    push_str(&mut m, stub.target.as_str());
                    push_str(&mut m, "', which is not an article or a topic subfolder (a link cannot target another link)");
                    proof {
                        reveal_strlit("an article or a topic subfolder (a link cannot target another link)");
                        reveal_strlit("', which is not an article or a topic subfolder (a link cannot target another link)");
                        reveal_strlit("', which is not ");
                        assert(first_untargetable(*ctx, links@, k as int));
                        assert(m@ =~= wrong_target_message(*stub, path@, topic_why()));
                    }
                    return Err(m);
                },
            },
        };
        assert(is_topic_alias(child, *ctx, links@[k as int], path@));
        all.push(child);
        proof {
            extra = extra.push(child);
            assert(all@ =~= c0 + extra);
        }
    }
    let keys = child_sort_keys(&all);
    let sorted = sort_keyed(all, &keys, Ghost(child_key()));
    let sorted_keys = child_sort_keys(&sorted);
    proof {
        lemma_keys_map(sorted_keys@, sorted@, child_key());
        lemma_sort_keys(c0 + extra, child_key());
        assert((c0 + extra).map_values(child_key()) =~= c0.map_values(child_key()) + stub_keys(links@)) by {
            assert forall|j: int| 0 <= j < extra.len() implies (child_key())(#[trigger] extra[j]) == stub_key(links@[j]) by {
                assert(is_topic_alias(extra[j], *ctx, links@[j], path@));
            }
        }
    }
    let mut context = owned("in topic '");
    push_str(&mut context, path.as_str());
    push_str(&mut context, "': ");
    match check_keys("item", &sorted_keys, context.as_str()) {
        Err(m) => {
            proof {
                let e = choose|e: Seq<char>| m@ == context@ + e;
                assert(m@ =~= "in topic '"@ + path@ + "': "@ + e);
            }
            return Err(m);
        },
        Ok(()) => {},
    }
    let u = Topic { slug, path, order, title, reading_minutes, updated, inline_refs, children: sorted, links: Vec::new() };
    assert(sort_by_key(t0.children@ + extra, child_key()) == u.children@);
    Ok(u)
}


/// The number segment of a book stub: letters for an appendix, digits
/// otherwise.
pub open spec fn segment_of(s: LinkStub) -> Seq<char> {
    if s.appendix { letters(s.order as nat) } else { decimal(s.order as nat) }
}

/// The numbered alias a book-level stub becomes: like a topic alias, but
/// numbered under the level's prefix, appendix as the stub says, and with
/// no learn taxonomy.
pub open spec fn is_book_alias(r: Article, original: Article, stub: LinkStub, parent: Seq<char>, resolved: Seq<char>, prefix: Seq<char>) -> bool {
    &&& r.slug == stub.slug
    &&& r.path@ == child_path(parent, stub.slug@)
    &&& r.order == stub.order
    &&& r.title == stub.title
    &&& r.number matches Some(n) && n@ == prefix + segment_of(stub)
    &&& r.appendix == stub.appendix
    &&& r.kind is None
    &&& r.description is None
    &&& r.related@ == original.related@
    &&& r.inline_refs@.len() == 0
    &&& r.updated == original.updated
    &&& r.reading_minutes == original.reading_minutes
    &&& r.original matches Some(o) && o@ == resolved
    &&& r.body == original.body
    &&& r.source_dir == original.source_dir
    &&& r.source_file == original.source_file
}

/// `extra` holds the numbered aliases of `stubs`, in order.
pub open spec fn book_aliases_of(extra: Seq<BookChild>, ctx: LinkContext, stubs: Seq<LinkStub>, parent: Seq<char>, prefix: Seq<char>) -> bool {
    &&& extra.len() == stubs.len()
    &&& forall|k: int| 0 <= k < stubs.len() ==>
        (#[trigger] extra[k] matches BookChild::Article { article }
            && is_book_alias(article, original_of(ctx, stubs[k]), stubs[k], parent, stub_page(ctx.index, stubs[k])->Some_0, prefix))
}

/// The keys a run of stubs' aliases sort by in a book.
pub open spec fn book_stub_keys(stubs: Seq<LinkStub>) -> Seq<KeyV> {
    stubs.map_values(|s: LinkStub| book_stub_key(s))
}

/// A book level resolves: its stubs name articles, its chapters resolve
/// and stay non-empty, and the level's entries with the aliases sorted in
/// have distinct order labels and slugs.
pub open spec fn level_ok(children: Seq<BookChild>, links: Seq<LinkStub>, ctx: LinkContext) -> bool
    decreases children, 2nat,
{
    &&& stubs_find_articles(ctx, links)
    &&& chapters_ok(children, ctx)
    &&& keys_ok(sort_by_key(children.map_values(book_key()) + book_stub_keys(links), id_key()))
}

/// Every chapter of a run resolves.
pub open spec fn chapters_ok(children: Seq<BookChild>, ctx: LinkContext) -> bool
    decreases children, 1nat,
{
    if children.len() == 0 {
        true
    } else {
        chapters_ok(children.drop_last(), ctx) && chapter_ok(children.last(), ctx)
    }
}

/// A chapter resolves and holds at least one entry.
pub open spec fn chapter_ok(c: BookChild, ctx: LinkContext) -> bool
    decreases c, 0nat,
{
    match c {
        BookChild::Chapter { chapter } =>
            level_ok(chapter.children@, chapter.links@, ctx) && chapter.children@.len() + chapter.links@.len() > 0,
        BookChild::Article { .. } => true,
    }
}

/// Where a link to a book child lands: an article's page, a chapter's
/// entry.
pub open spec fn first_entry(c: BookChild) -> Seq<char> {
    match c {
        BookChild::Article { article } => article.path@,
        BookChild::Chapter { chapter } => chapter.entry@,
    }
}

/// A book level with its stubs resolved: the children processed, the
/// aliases added, and the whole level sorted.
pub open spec fn level_resolved(children: Seq<BookChild>, links: Seq<LinkStub>, level: Seq<char>, prefix: Seq<char>, new: Seq<BookChild>, ctx: LinkContext) -> bool
    decreases children, 2nat,
{
    exists|mid: Seq<BookChild>, extra: Seq<BookChild>|
        children_processed(children, mid, ctx)
        && book_aliases_of(extra, ctx, links, level, prefix)
        && #[trigger] sort_by_key(mid + extra, book_key()) == new
}

/// Each child processed, position by position.
pub open spec fn children_processed(old: Seq<BookChild>, mid: Seq<BookChild>, ctx: LinkContext) -> bool
    decreases old, 1nat,
{
    if old.len() == 0 {
        mid.len() == 0
    } else {
        mid.len() == old.len()
            && children_processed(old.drop_last(), mid.drop_last(), ctx)
            && child_processed(old.last(), mid.last(), ctx)
    }
}

/// An article stays as it is; a chapter has its own stubs resolved, its
/// children re-sorted and its entry recomputed.
pub open spec fn child_processed(c: BookChild, d: BookChild, ctx: LinkContext) -> bool
    decreases c, 0nat,
{
    match c {
        BookChild::Article { .. } => d == c,
        BookChild::Chapter { chapter } => match d {
            BookChild::Chapter { chapter: e } =>
                e == Chapter { children: e.children, links: e.links, entry: e.entry, ..chapter }
                && e.links@.len() == 0
                && level_resolved(chapter.children@, chapter.links@, chapter.path@, chapter.number@ + seq!['.'], e.children@, ctx)
                && e.children@.len() > 0
                && e.entry@ == first_entry(e.children@[0]),
            BookChild::Article { .. } => false,
        },
    }
}

/// The chapter condition holds at every position of a run that resolves.
proof fn lemma_chapters_ok_at(s: Seq<BookChild>, ctx: LinkContext, j: int)
    requires
        chapters_ok(s, ctx),
        0 <= j < s.len(),
    ensures
        chapter_ok(s[j], ctx),
    decreases s.len(),
{
    if j < s.len() - 1 {
        lemma_chapters_ok_at(s.drop_last(), ctx, j);
    }
}

/// Processing keeps every child's key.
proof fn lemma_processed_keys(old: Seq<BookChild>, mid: Seq<BookChild>, ctx: LinkContext)
    requires
        children_processed(old, mid, ctx),
    ensures
        mid.map_values(book_key()) == old.map_values(book_key()),
    decreases old.len(),
{
    if old.len() > 0 {
        lemma_processed_keys(old.drop_last(), mid.drop_last(), ctx);
        let c = old.last();
        let d = mid.last();
        assert(child_processed(c, d, ctx));
        match c {
            BookChild::Chapter { chapter } => {
                assert(d matches BookChild::Chapter { .. });
            },
            BookChild::Article { .. } => {},
        }
        assert((book_key())(d) == (book_key())(c));
        assert(mid.map_values(book_key()) =~= mid.drop_last().map_values(book_key()).push((book_key())(mid.last())));
        assert(old.map_values(book_key()) =~= old.drop_last().map_values(book_key()).push((book_key())(old.last())));
    } else {
        assert(mid.map_values(book_key()) =~= old.map_values(book_key()));
    }
}

/// The numbered alias of a book-level stub.
fn book_alias(original: &Article, stub: &LinkStub, parent: &str, resolved: String, prefix: &str) -> (r: Article)
    ensures
        is_book_alias(r, *original, *stub, parent@, resolved@, prefix@),
{
    let mut a = alias_article(original, stub, parent, resolved);
    let mut number = owned(prefix);
    if stub.appendix {
        let seg = appendix_letters(stub.order);
        push_str(&mut number, seg.as_str());
    } else {
        push_decimal(&mut number, stub.order);
    }
    a.number = Some(number);
    a.appendix = stub.appendix;
    a.kind = None;
    a.description = None;
    a
}

/// Resolves one book level's stubs into numbered aliases, then every
/// chapter beneath it, re-sorting and re-checking the level and
/// recomputing chapter entries.
fn resolve_level(children: Vec<BookChild>, links: Vec<LinkStub>, level: &str, prefix: &str, ctx: &LinkContext) -> (r: Result<Vec<BookChild>, String>)
    ensures
        r is Ok <==> level_ok(children@, links@, *ctx),
        r matches Ok(v) ==> v@.len() == children@.len() + links@.len(),
        r matches Ok(v) ==> level_resolved(children@, links@, level@, prefix@, v@, *ctx),
        forall|k: int| #[trigger] first_unfound(*ctx, links@, k) ==>
            (r matches Err(m) && stub_failure(*ctx, links@[k], level@, book_why(), m@)),
        r matches Err(m) ==> linking_message(m@),
    decreases children@,
{
    let ghost c0 = children@;
    let ghost l0 = links@;
    let mut extra: Vec<BookChild> = Vec::new();
    for k in 0..links.len()
        invariant
            links@ == l0,
            extra@.len() == k,
            forall|j: int| 0 <= j < k ==>
                (#[trigger] extra@[j] matches BookChild::Article { article }
                    && is_book_alias(article, original_of(*ctx, links@[j]), links@[j], level@, stub_page(ctx.index, links@[j])->Some_0, prefix@)),
            forall|j: int| 0 <= j < k ==>
                (#[trigger] stub_page(ctx.index, links@[j]) matches Some(p) && last_article(ctx.originals@, p) is Some),
    {
        let stub = &links[k];
        let resolved = match resolve_stub(&ctx.index, stub, level) {
            Ok(p) => p,
            Err(m) => {
                assert(!stubs_find_articles(*ctx, links@)) by {
                    assert(stub_page(ctx.index, links@[k as int]) is None);
                }
                proof {
                    assert(first_unfound(*ctx, links@, k as int));
                    let inner = choose|inner: Seq<char>| m@ == unresolved_message(*stub, level@, inner);
                    assert(m@ == unresolved_message(*stub, level@, inner));
                }
                return Err(m);
            },
        };
        let ghost rv = resolved@;
        assert(stub_page(ctx.index, links@[k as int]) == Some(rv));
        match find_article(&ctx.originals, resolved.as_str()) {
            None => {
                assert(!stubs_find_articles(*ctx, links@)) by {
                    assert(last_article(ctx.originals@, rv) is None);
                }
                let mut m = owned("link '");
                push_str(&mut m, stub.slug.as_str());
                push_str(&mut m, "' in '");
                push_str(&mut m, level);
                push_str(&mut m, "' targets '");
                push_str(&mut m, stub.target.as_str());
                push_str(&mut m, "', which is not an article (only articles can be linked into a book, and a link cannot target another link)");
                proof {
                    reveal_strlit("an article (only articles can be linked into a book, and a link cannot target another link)");
                    reveal_strlit("', which is not an article (only articles can be linked into a book, and a link cannot target another link)");
                    reveal_strlit("', which is not ");
                    assert(first_unfound(*ctx, links@, k as int));
                    assert(m@ =~= wrong_target_message(*stub, level@, book_why()));
                }
                return Err(m);
            },
            Some(i) => {
                proof {
                    lemma_last_article(ctx.originals@, rv);
                }
                let a = book_alias(&ctx.originals[i], stub, level, resolved, prefix);
                extra.push(BookChild::Article { article: a });
            },
        }
    }
    assert(book_aliases_of(extra@, *ctx, l0, level@, prefix@));
    assert(stubs_find_articles(*ctx, l0));
    proof {
        lemma_no_first_unfound(*ctx, l0);
    }
    let n = children.len();
    let mut rest = children;
    let mut mid: Vec<BookChild> = Vec::new();
    assert(c0.skip(0) =~= c0);
    assert(c0.take(0) =~= Seq::<BookChild>::empty());
    for i in 0..n
        invariant
            forall|k: int| !(#[trigger] first_unfound(*ctx, l0, k)),
            l0 == links@,
            c0 == children@,
            n == c0.len(),
            rest@ == c0.skip(i as int),
            mid@.len() == i,
            children_processed(c0.take(i as int), mid@, *ctx),
            chapters_ok(c0.take(i as int), *ctx),
    {
        let c = rest.remove(0);
        assert(c == c0[i as int]);
        assert(rest@ =~= c0.skip(i + 1));
        assert(c0.take(i + 1).drop_last() =~= c0.take(i as int));
        assert(c0.take(i + 1).last() == c);
        let ghost before = mid@;
        let ghost cg = c;
        match c {
            BookChild::Article { article } => {
                mid.push(BookChild::Article { article });
                assert(mid@.drop_last() =~= before);
            },
            BookChild::Chapter { chapter } => {
                let ghost ch = chapter;
                let Chapter { slug, path, order, number, appendix, title, entry, reading_minutes, updated, inline_refs, children: cc, links: cl } = chapter;
                let mut p2 = number.clone();
                p2.push('.');
                assert(p2@ =~= ch.number@ + seq!['.']);
                assert(decreases_to!(children@ => children@[i as int]));
                assert(decreases_to!(children@[i as int] => ch));
                assert(decreases_to!(ch => ch.children));
                assert(decreases_to!(ch.children => ch.children@));
                let sub = match resolve_level(cc, cl, path.as_str(), p2.as_str(), ctx) {
                    Ok(v) => v,
                    Err(m) => {
                        assert(!chapter_ok(c0[i as int], *ctx));
                        proof {
                            if chapters_ok(c0, *ctx) {
                                lemma_chapters_ok_at(c0, *ctx, i as int);
                            }
                        }
                        return Err(m);
                    },
                };
                if sub.len() == 0 {
                    assert(!chapter_ok(c0[i as int], *ctx));
                    proof {
                        if chapters_ok(c0, *ctx) {
                            lemma_chapters_ok_at(c0, *ctx, i as int);
                        }
                    }
                    let mut m = owned("chapter '");
                    push_str(&mut m, slug.as_str());
                    push_str(&mut m, "' contains no articles");
                    assert(m@ =~= "chapter '"@ + slug@ + "' contains no articles"@);
                    return Err(m);
                }
                let first = match &sub[0] {
                    BookChild::Article { article } => article.path.clone(),
                    BookChild::Chapter { chapter } => chapter.entry.clone(),
                };
                let e = Chapter {
                    slug, path, order, number, appendix, title, entry: first, reading_minutes, updated, inline_refs,
                    children: sub, links: Vec::new(),
                };
                mid.push(BookChild::Chapter { chapter: e });
                assert(mid@.drop_last() =~= before);
                assert(child_processed(cg, BookChild::Chapter { chapter: e }, *ctx));
                assert(chapter_ok(cg, *ctx));
            },
        }
        assert(child_processed(cg, mid@.last(), *ctx));
        assert(chapter_ok(cg, *ctx));
        assert(children_processed(c0.take(i as int), before, *ctx));
        assert(children_processed(c0.take(i + 1), mid@, *ctx));
        assert(chapters_ok(c0.take(i + 1), *ctx));
    }
    assert(c0.take(n as int) =~= c0);
    let ghost mv = mid@;
    let ghost ev = extra@;
    let mut all = mid;
    all.append(&mut extra);
    assert(all@ =~= mv + ev);
    let keys = book_sort_keys(&all);
    let sorted = sort_keyed(all, &keys, Ghost(book_key()));
    let sorted_keys = book_sort_keys(&sorted);
    proof {
        lemma_keys_map(sorted_keys@, sorted@, book_key());
        lemma_sort_keys(mv + ev, book_key());
        lemma_sort_len(mv + ev, book_key());
        lemma_processed_keys(c0, mv, *ctx);
        assert((mv + ev).map_values(book_key()) =~= c0.map_values(book_key()) + book_stub_keys(l0)) by {
            assert forall|j: int| 0 <= j < ev.len() implies (book_key())(#[trigger] ev[j]) == book_stub_key(l0[j]) by {
                assert(book_aliases_of(ev, *ctx, l0, level@, prefix@));
            }
            assert forall|j: int| 0 <= j < mv.len() implies (book_key())(#[trigger] mv[j]) == (book_key())(c0[j]) by {
                assert(mv.map_values(book_key())[j] == c0.map_values(book_key())[j]);
            }
        }
    }
    let mut context = owned("in '");
    push_str(&mut context, level);
    push_str(&mut context, "': ");
    match check_keys("item", &sorted_keys, context.as_str()) {
        Err(m) => {
            proof {
                let e = choose|e: Seq<char>| m@ == context@ + e;
                assert(m@ =~= "in '"@ + level@ + "': "@ + e);
            }
            return Err(m);
        },
        Ok(()) => {},
    }
    assert(children_processed(c0, mv, *ctx) && book_aliases_of(ev, *ctx, l0, level@, prefix@)
        && sort_by_key(mv + ev, book_key()) == sorted@);
    assert(mv.len() == c0.len());
    assert(ev.len() == l0.len());
    assert(sorted@.len() == mv.len() + ev.len());
    assert(level_resolved(c0, l0, level@, prefix@, sorted@, *ctx));
    Ok(sorted)
}

/// A book resolves when its top level does.
pub open spec fn book_ok(b: Book, ctx: LinkContext) -> bool {
    level_ok(b.children@, b.links@, ctx)
}

/// A book with its stubs resolved, at every level.
pub open spec fn book_resolved(b: Book, c: Book, ctx: LinkContext) -> bool {
    &&& c == Book { children: c.children, links: c.links, ..b }
    &&& c.links@.len() == 0
    &&& level_resolved(b.children@, b.links@, b.path@, Seq::empty(), c.children@, ctx)
}

/// Resolves every stub of a book into numbered alias articles.
fn resolve_book(book: Book, ctx: &LinkContext) -> (r: Result<Book, String>)
    ensures
        r is Ok <==> book_ok(book, *ctx),
        r matches Ok(c) ==> book_resolved(book, c, *ctx),
        forall|k: int| #[trigger] first_unfound(*ctx, book.links@, k) ==>
            (r matches Err(m) && stub_failure(*ctx, book.links@[k], book.path@, book_why(), m@)),
        r matches Err(m) ==> linking_message(m@),
{
    let Book { slug, path, order, title, short, description, reading_minutes, updated, inline_refs, children, links } = book;
    let empty = String::new();
    let resolved = resolve_level(children, links, path.as_str(), empty.as_str(), ctx);
    match resolved {
        Err(m) => Err(m),
        Ok(v) => Ok(Book { slug, path, order, title, short, description, reading_minutes, updated, inline_refs, children: v, links: Vec::new() }),
    }
}


/// What a pass works on: a topic or a book, wherever it sits.
pub enum Leaf {
    Topic(Topic),
    Book(Book),
}

/// Whether a pass succeeds on a topic: the first resolves subfolder
/// stubs, the second topic-level stubs; the third leaves topics alone.
pub open spec fn topic_step_ok(pass: u8, t: Topic, ctx: LinkContext) -> bool {
    if pass == 1 { topic_folders_ok(t, ctx) } else if pass == 2 { topic_ok(t, ctx) } else { true }
}

/// What a pass makes of a topic.
pub open spec fn topic_step(pass: u8, t: Topic, u: Topic, ctx: LinkContext) -> bool {
    if pass == 1 {
        topic_folders_resolved(t, u, ctx)
    } else if pass == 2 {
        topic_resolved(t, u, ctx)
    } else {
        u == t
    }
}

/// Whether a pass succeeds on a book: only the third touches books.
pub open spec fn book_step_ok(pass: u8, b: Book, ctx: LinkContext) -> bool {
    if pass == 3 { book_ok(b, ctx) } else { true }
}

/// What a pass makes of a book.
pub open spec fn book_step(pass: u8, b: Book, c: Book, ctx: LinkContext) -> bool {
    if pass == 3 { book_resolved(b, c, ctx) } else { c == b }
}

pub open spec fn leaf_ok(pass: u8, l: Leaf, ctx: LinkContext) -> bool {
    match l {
        Leaf::Topic(t) => topic_step_ok(pass, t, ctx),
        Leaf::Book(b) => book_step_ok(pass, b, ctx),
    }
}

/// A pass succeeds on every topic and book of a run.
pub open spec fn all_ok(pass: u8, ls: Seq<Leaf>, ctx: LinkContext) -> bool {
    forall|k: int| 0 <= k < ls.len() ==> leaf_ok(pass, #[trigger] ls[k], ctx)
}

proof fn lemma_all_ok_concat(pass: u8, a: Seq<Leaf>, b: Seq<Leaf>, ctx: LinkContext)
    ensures
        all_ok(pass, a + b, ctx) == (all_ok(pass, a, ctx) && all_ok(pass, b, ctx)),
{
    if all_ok(pass, a + b, ctx) {
        assert forall|k: int| 0 <= k < a.len() implies leaf_ok(pass, #[trigger] a[k], ctx) by {
            assert((a + b)[k] == a[k]);
        }
        assert forall|k: int| 0 <= k < b.len() implies leaf_ok(pass, #[trigger] b[k], ctx) by {
            assert((a + b)[a.len() + k] == b[k]);
        }
    }
    if all_ok(pass, a, ctx) && all_ok(pass, b, ctx) {
        assert forall|k: int| 0 <= k < (a + b).len() implies leaf_ok(pass, #[trigger] (a + b)[k], ctx) by {
            if k < a.len() {
                assert((a + b)[k] == a[k]);
            } else {
                assert((a + b)[k] == b[k - a.len()]);
            }
        }
    }
}

/// Leaf `k` is the first of a run that a pass cannot take.
pub open spec fn first_failing(pass: u8, ls: Seq<Leaf>, ctx: LinkContext, k: int) -> bool {
    &&& 0 <= k < ls.len()
    &&& forall|j: int| 0 <= j < k ==> leaf_ok(pass, #[trigger] ls[j], ctx)
    &&& !leaf_ok(pass, ls[k], ctx)
}

/// How a pass answers for a topic or book it cannot take: a topic's
/// first stub that lands on neither an article nor a subfolder, and a
/// book's first stub that finds no article, are answered as such.
pub open spec fn leaf_answer(pass: u8, l: Leaf, ctx: LinkContext, m: Seq<char>) -> bool {
    match l {
        Leaf::Topic(t) => pass == 2 ==> forall|k: int| #[trigger] first_untargetable(ctx, t.links@, k) ==>
            stub_failure(ctx, t.links@[k], t.path@, topic_why(), m),
        Leaf::Book(b) => pass == 3 ==> forall|k: int| #[trigger] first_unfound(ctx, b.links@, k) ==>
            stub_failure(ctx, b.links@[k], b.path@, book_why(), m),
    }
}

/// A failed pass over a run answers for its first failing topic or book.
pub open spec fn answered(pass: u8, ls: Seq<Leaf>, ctx: LinkContext, m: Seq<char>) -> bool {
    forall|k: int| #[trigger] first_failing(pass, ls, ctx, k) ==> leaf_answer(pass, ls[k], ctx, m)
}

proof fn lemma_answered_concat(pass: u8, a: Seq<Leaf>, b: Seq<Leaf>, ctx: LinkContext, m: Seq<char>)
    ensures
        all_ok(pass, a, ctx) && answered(pass, b, ctx, m) ==> answered(pass, a + b, ctx, m),
        !all_ok(pass, a, ctx) && answered(pass, a, ctx, m) ==> answered(pass, a + b, ctx, m),
{
    if all_ok(pass, a, ctx) && answered(pass, b, ctx, m) {
        assert forall|k: int| #[trigger] first_failing(pass, a + b, ctx, k) implies leaf_answer(pass, (a + b)[k], ctx, m) by {
            if k < a.len() {
                assert((a + b)[k] == a[k]);
            } else {
                assert((a + b)[k] == b[k - a.len()]);
                assert forall|j: int| 0 <= j < k - a.len() implies leaf_ok(pass, #[trigger] b[j], ctx) by {
                    assert((a + b)[j + a.len()] == b[j]);
                }
                assert(first_failing(pass, b, ctx, k - a.len()));
            }
        }
    }
    if !all_ok(pass, a, ctx) && answered(pass, a, ctx, m) {
        assert forall|k: int| #[trigger] first_failing(pass, a + b, ctx, k) implies leaf_answer(pass, (a + b)[k], ctx, m) by {
            if k >= a.len() {
                assert forall|j: int| 0 <= j < a.len() implies leaf_ok(pass, #[trigger] a[j], ctx) by {
                    assert((a + b)[j] == a[j]);
                }
            }
            assert((a + b)[k] == a[k]);
            assert forall|j: int| 0 <= j < k implies leaf_ok(pass, #[trigger] a[j], ctx) by {
                assert((a + b)[j] == a[j]);
            }
            assert(first_failing(pass, a, ctx, k));
        }
    }
}

proof fn lemma_answered_single(pass: u8, l: Leaf, ctx: LinkContext, m: Seq<char>)
    requires
        leaf_answer(pass, l, ctx, m),
    ensures
        answered(pass, seq![l], ctx, m),
{
    assert(seq![l][0] == l);
}

/// The topics and books beneath an anthology item, in order.
pub open spec fn aitem_leaves(i: AnthologyItem) -> Seq<Leaf>
    decreases i,
{
    match i {
        AnthologyItem::Topic { topic } => seq![Leaf::Topic(topic)],
        AnthologyItem::Book { book } => seq![Leaf::Book(book)],
        AnthologyItem::Anthology { anthology } => achildren_leaves(anthology.children@),
    }
}

pub open spec fn aitems_leaves(s: Seq<AnthologyItem>) -> Seq<Leaf>
    decreases s,
{
    if s.len() == 0 { Seq::empty() } else { aitems_leaves(s.drop_last()) + aitem_leaves(s.last()) }
}

pub open spec fn achildren_leaves(s: Seq<AnthologyChild>) -> Seq<Leaf>
    decreases s,
{
    if s.len() == 0 {
        Seq::empty()
    } else {
        achildren_leaves(s.drop_last()) + match s.last() {
            AnthologyChild::Item(i) => aitem_leaves(i),
            AnthologyChild::Shelf(sh) => aitems_leaves(sh.items@),
        }
    }
}

/// The topics and books beneath a product item, in order.
pub open spec fn pitem_leaves(i: ProductItem) -> Seq<Leaf> {
    match i {
        ProductItem::Topic { topic } => seq![Leaf::Topic(topic)],
        ProductItem::Book { book } => seq![Leaf::Book(book)],
        ProductItem::Anthology { anthology } => achildren_leaves(anthology.children@),
    }
}

pub open spec fn pitems_leaves(s: Seq<ProductItem>) -> Seq<Leaf>
    decreases s.len(),
{
    if s.len() == 0 { Seq::empty() } else { pitems_leaves(s.drop_last()) + pitem_leaves(s.last()) }
}

pub open spec fn pchildren_leaves(s: Seq<ProductChild>) -> Seq<Leaf>
    decreases s.len(),
{
    if s.len() == 0 {
        Seq::empty()
    } else {
        pchildren_leaves(s.drop_last()) + match s.last() {
            ProductChild::Item(i) => pitem_leaves(i),
            ProductChild::Shelf(sh) => pitems_leaves(sh.items@),
        }
    }
}

/// Every topic and book of a site, in traversal order.
pub open spec fn products_leaves(s: Seq<Product>) -> Seq<Leaf>
    decreases s.len(),
{
    if s.len() == 0 { Seq::empty() } else { products_leaves(s.drop_last()) + pchildren_leaves(s.last().children@) }
}

/// An anthology item after a pass: topics and books stepped, anthologies
/// recursed into, everything else as it was.
pub open spec fn aitem_stepped(pass: u8, a: AnthologyItem, b: AnthologyItem, ctx: LinkContext) -> bool
    decreases a,
{
    match a {
        AnthologyItem::Topic { topic } => (b matches AnthologyItem::Topic { topic: u } && topic_step(pass, topic, u, ctx)),
        AnthologyItem::Book { book } => (b matches AnthologyItem::Book { book: c } && book_step(pass, book, c, ctx)),
        AnthologyItem::Anthology { anthology } => match b {
            AnthologyItem::Anthology { anthology: n } =>
                n == Anthology { children: n.children, ..anthology }
                && achildren_stepped(pass, anthology.children@, n.children@, ctx),
            _ => false,
        },
    }
}

pub open spec fn aitems_stepped(pass: u8, s: Seq<AnthologyItem>, t: Seq<AnthologyItem>, ctx: LinkContext) -> bool
    decreases s,
{
    s.len() == t.len() && (s.len() == 0 || (aitems_stepped(pass, s.drop_last(), t.drop_last(), ctx)
        && aitem_stepped(pass, s.last(), t.last(), ctx)))
}

pub open spec fn achildren_stepped(pass: u8, s: Seq<AnthologyChild>, t: Seq<AnthologyChild>, ctx: LinkContext) -> bool
    decreases s,
{
    s.len() == t.len() && (s.len() == 0 || (achildren_stepped(pass, s.drop_last(), t.drop_last(), ctx)
        && match s.last() {
            AnthologyChild::Item(i) => match t.last() {
                AnthologyChild::Item(j) => aitem_stepped(pass, i, j, ctx),
                _ => false,
            },
            AnthologyChild::Shelf(sh) => match t.last() {
                AnthologyChild::Shelf(sh2) => sh2 == Shelf { items: sh2.items, ..sh } && aitems_stepped(pass, sh.items@, sh2.items@, ctx),
                _ => false,
            },
        }))
}

pub open spec fn pitem_stepped(pass: u8, a: ProductItem, b: ProductItem, ctx: LinkContext) -> bool {
    match a {
        ProductItem::Topic { topic } => (b matches ProductItem::Topic { topic: u } && topic_step(pass, topic, u, ctx)),
        ProductItem::Book { book } => (b matches ProductItem::Book { book: c } && book_step(pass, book, c, ctx)),
        ProductItem::Anthology { anthology } => match b {
            ProductItem::Anthology { anthology: n } =>
                n == Anthology { children: n.children, ..anthology }
                && achildren_stepped(pass, anthology.children@, n.children@, ctx),
            _ => false,
        },
    }
}

pub open spec fn pitems_stepped(pass: u8, s: Seq<ProductItem>, t: Seq<ProductItem>, ctx: LinkContext) -> bool
    decreases s.len(),
{
    s.len() == t.len() && (s.len() == 0 || (pitems_stepped(pass, s.drop_last(), t.drop_last(), ctx)
        && pitem_stepped(pass, s.last(), t.last(), ctx)))
}

pub open spec fn pchildren_stepped(pass: u8, s: Seq<ProductChild>, t: Seq<ProductChild>, ctx: LinkContext) -> bool
    decreases s.len(),
{
    s.len() == t.len() && (s.len() == 0 || (pchildren_stepped(pass, s.drop_last(), t.drop_last(), ctx)
        && match s.last() {
            ProductChild::Item(i) => match t.last() {
                ProductChild::Item(j) => pitem_stepped(pass, i, j, ctx),
                _ => false,
            },
            ProductChild::Shelf(sh) => match t.last() {
                ProductChild::Shelf(sh2) => sh2 == Shelf { items: sh2.items, ..sh } && pitems_stepped(pass, sh.items@, sh2.items@, ctx),
                _ => false,
            },
        }))
}

/// A site's products after a pass: every topic and book stepped in
/// place, nothing else moved.
pub open spec fn products_stepped(pass: u8, s: Seq<Product>, t: Seq<Product>, ctx: LinkContext) -> bool
    decreases s.len(),
{
    s.len() == t.len() && (s.len() == 0 || (products_stepped(pass, s.drop_last(), t.drop_last(), ctx)
        && t.last() == Product { children: t.last().children, ..s.last() }
        && pchildren_stepped(pass, s.last().children@, t.last().children@, ctx)))
}

/// One pass over a topic.
fn step_topic(pass: u8, t: Topic, ctx: &LinkContext) -> (r: Result<Topic, String>)
    ensures
        r matches Err(m) ==> linking_message(m@),
        r matches Err(m) ==> leaf_answer(pass, Leaf::Topic(t), *ctx, m@),
        r is Ok <==> topic_step_ok(pass, t, *ctx),
        r matches Ok(u) ==> topic_step(pass, t, u, *ctx),
{
    if pass == 1 {
        resolve_topic_folders(t, ctx)
    } else if pass == 2 {
        resolve_topic(t, ctx)
    } else {
        Ok(t)
    }
}

/// One pass over a book.
fn step_book(pass: u8, b: Book, ctx: &LinkContext) -> (r: Result<Book, String>)
    ensures
        r matches Err(m) ==> linking_message(m@),
        r matches Err(m) ==> leaf_answer(pass, Leaf::Book(b), *ctx, m@),
        r is Ok <==> book_step_ok(pass, b, *ctx),
        r matches Ok(c) ==> book_step(pass, b, c, *ctx),
{
    if pass == 3 {
        resolve_book(b, ctx)
    } else {
        Ok(b)
    }
}

/// A failing element fails the whole run of anthology items.
proof fn lemma_aitems_prefix(pass: u8, s: Seq<AnthologyItem>, j: int, ctx: LinkContext)
    requires
        0 <= j <= s.len(),
        all_ok(pass, aitems_leaves(s), ctx),
    ensures
        all_ok(pass, aitems_leaves(s.take(j)), ctx),
    decreases s.len(),
{
    if j < s.len() {
        lemma_all_ok_concat(pass, aitems_leaves(s.drop_last()), aitem_leaves(s.last()), ctx);
        assert(s.drop_last().take(j) =~= s.take(j));
        lemma_aitems_prefix(pass, s.drop_last(), j, ctx);
    } else {
        assert(s.take(j) =~= s);
    }
}

proof fn lemma_achildren_prefix(pass: u8, s: Seq<AnthologyChild>, j: int, ctx: LinkContext)
    requires
        0 <= j <= s.len(),
        all_ok(pass, achildren_leaves(s), ctx),
    ensures
        all_ok(pass, achildren_leaves(s.take(j)), ctx),
    decreases s.len(),
{
    if j < s.len() {
        lemma_all_ok_concat(pass, achildren_leaves(s.drop_last()), match s.last() {
            AnthologyChild::Item(i) => aitem_leaves(i),
            AnthologyChild::Shelf(sh) => aitems_leaves(sh.items@),
        }, ctx);
        assert(s.drop_last().take(j) =~= s.take(j));
        lemma_achildren_prefix(pass, s.drop_last(), j, ctx);
    } else {
        assert(s.take(j) =~= s);
    }
}

proof fn lemma_pitems_prefix(pass: u8, s: Seq<ProductItem>, j: int, ctx: LinkContext)
    requires
        0 <= j <= s.len(),
        all_ok(pass, pitems_leaves(s), ctx),
    ensures
        all_ok(pass, pitems_leaves(s.take(j)), ctx),
    decreases s.len(),
{
    if j < s.len() {
        lemma_all_ok_concat(pass, pitems_leaves(s.drop_last()), pitem_leaves(s.last()), ctx);
        assert(s.drop_last().take(j) =~= s.take(j));
        lemma_pitems_prefix(pass, s.drop_last(), j, ctx);
    } else {
        assert(s.take(j) =~= s);
    }
}

proof fn lemma_pchildren_prefix(pass: u8, s: Seq<ProductChild>, j: int, ctx: LinkContext)
    requires
        0 <= j <= s.len(),
        all_ok(pass, pchildren_leaves(s), ctx),
    ensures
        all_ok(pass, pchildren_leaves(s.take(j)), ctx),
    decreases s.len(),
{
    if j < s.len() {
        lemma_all_ok_concat(pass, pchildren_leaves(s.drop_last()), match s.last() {
            ProductChild::Item(i) => pitem_leaves(i),
            ProductChild::Shelf(sh) => pitems_leaves(sh.items@),
        }, ctx);
        assert(s.drop_last().take(j) =~= s.take(j));
        lemma_pchildren_prefix(pass, s.drop_last(), j, ctx);
    } else {
        assert(s.take(j) =~= s);
    }
}

proof fn lemma_products_prefix(pass: u8, s: Seq<Product>, j: int, ctx: LinkContext)
    requires
        0 <= j <= s.len(),
        all_ok(pass, products_leaves(s), ctx),
    ensures
        all_ok(pass, products_leaves(s.take(j)), ctx),
    decreases s.len(),
{
    if j < s.len() {
        lemma_all_ok_concat(pass, products_leaves(s.drop_last()), pchildren_leaves(s.last().children@), ctx);
        assert(s.drop_last().take(j) =~= s.take(j));
        lemma_products_prefix(pass, s.drop_last(), j, ctx);
    } else {
        assert(s.take(j) =~= s);
    }
}

/// A run that fails within its first `j` elements answers as that prefix does.
proof fn lemma_aitems_answered(pass: u8, s: Seq<AnthologyItem>, j: int, ctx: LinkContext, m: Seq<char>)
    requires
        0 <= j <= s.len(),
        !all_ok(pass, aitems_leaves(s.take(j)), ctx),
        answered(pass, aitems_leaves(s.take(j)), ctx, m),
    ensures
        answered(pass, aitems_leaves(s), ctx, m),
    decreases s.len(),
{
    if j < s.len() {
        assert(s.drop_last().take(j) =~= s.take(j));
        lemma_aitems_answered(pass, s.drop_last(), j, ctx, m);
        if all_ok(pass, aitems_leaves(s.drop_last()), ctx) {
            lemma_aitems_prefix(pass, s.drop_last(), j, ctx);
        }
        lemma_answered_concat(pass, aitems_leaves(s.drop_last()), aitem_leaves(s.last()), ctx, m);
    } else {
        assert(s.take(j) =~= s);
    }
}

/// A run that fails within its first `j` elements answers as that prefix does.
proof fn lemma_achildren_answered(pass: u8, s: Seq<AnthologyChild>, j: int, ctx: LinkContext, m: Seq<char>)
    requires
        0 <= j <= s.len(),
        !all_ok(pass, achildren_leaves(s.take(j)), ctx),
        answered(pass, achildren_leaves(s.take(j)), ctx, m),
    ensures
        answered(pass, achildren_leaves(s), ctx, m),
    decreases s.len(),
{
    if j < s.len() {
        assert(s.drop_last().take(j) =~= s.take(j));
        lemma_achildren_answered(pass, s.drop_last(), j, ctx, m);
        if all_ok(pass, achildren_leaves(s.drop_last()), ctx) {
            lemma_achildren_prefix(pass, s.drop_last(), j, ctx);
        }
        lemma_answered_concat(pass, achildren_leaves(s.drop_last()), match s.last() {
            AnthologyChild::Item(i) => aitem_leaves(i),
            AnthologyChild::Shelf(sh) => aitems_leaves(sh.items@),
        }, ctx, m);
    } else {
        assert(s.take(j) =~= s);
    }
}

/// A run that fails within its first `j` elements answers as that prefix does.
proof fn lemma_pitems_answered(pass: u8, s: Seq<ProductItem>, j: int, ctx: LinkContext, m: Seq<char>)
    requires
        0 <= j <= s.len(),
        !all_ok(pass, pitems_leaves(s.take(j)), ctx),
        answered(pass, pitems_leaves(s.take(j)), ctx, m),
    ensures
        answered(pass, pitems_leaves(s), ctx, m),
    decreases s.len(),
{
    if j < s.len() {
        assert(s.drop_last().take(j) =~= s.take(j));
        lemma_pitems_answered(pass, s.drop_last(), j, ctx, m);
        if all_ok(pass, pitems_leaves(s.drop_last()), ctx) {
            lemma_pitems_prefix(pass, s.drop_last(), j, ctx);
        }
        lemma_answered_concat(pass, pitems_leaves(s.drop_last()), pitem_leaves(s.last()), ctx, m);
    } else {
        assert(s.take(j) =~= s);
    }
}

/// A run that fails within its first `j` elements answers as that prefix does.
proof fn lemma_pchildren_answered(pass: u8, s: Seq<ProductChild>, j: int, ctx: LinkContext, m: Seq<char>)
    requires
        0 <= j <= s.len(),
        !all_ok(pass, pchildren_leaves(s.take(j)), ctx),
        answered(pass, pchildren_leaves(s.take(j)), ctx, m),
    ensures
        answered(pass, pchildren_leaves(s), ctx, m),
    decreases s.len(),
{
    if j < s.len() {
        assert(s.drop_last().take(j) =~= s.take(j));
        lemma_pchildren_answered(pass, s.drop_last(), j, ctx, m);
        if all_ok(pass, pchildren_leaves(s.drop_last()), ctx) {
            lemma_pchildren_prefix(pass, s.drop_last(), j, ctx);
        }
        lemma_answered_concat(pass, pchildren_leaves(s.drop_last()), match s.last() {
            ProductChild::Item(i) => pitem_leaves(i),
            ProductChild::Shelf(sh) => pitems_leaves(sh.items@),
        }, ctx, m);
    } else {
        assert(s.take(j) =~= s);
    }
}

/// A run that fails within its first `j` elements answers as that prefix does.
proof fn lemma_products_answered(pass: u8, s: Seq<Product>, j: int, ctx: LinkContext, m: Seq<char>)
    requires
        0 <= j <= s.len(),
        !all_ok(pass, products_leaves(s.take(j)), ctx),
        answered(pass, products_leaves(s.take(j)), ctx, m),
    ensures
        answered(pass, products_leaves(s), ctx, m),
    decreases s.len(),
{
    if j < s.len() {
        assert(s.drop_last().take(j) =~= s.take(j));
        lemma_products_answered(pass, s.drop_last(), j, ctx, m);
        if all_ok(pass, products_leaves(s.drop_last()), ctx) {
            lemma_products_prefix(pass, s.drop_last(), j, ctx);
        }
        lemma_answered_concat(pass, products_leaves(s.drop_last()), pchildren_leaves(s.last().children@), ctx, m);
    } else {
        assert(s.take(j) =~= s);
    }
}


/// One pass over an anthology item and everything beneath it.
fn step_aitem(pass: u8, i: AnthologyItem, ctx: &LinkContext) -> (r: Result<AnthologyItem, String>)
    ensures
        r matches Err(m) ==> linking_message(m@),
        r matches Err(m) ==> answered(pass, aitem_leaves(i), *ctx, m@),
        r is Ok <==> all_ok(pass, aitem_leaves(i), *ctx),
        r matches Ok(j) ==> aitem_stepped(pass, i, j, *ctx),
    decreases i,
{
    let ghost i0 = i;
    match i {
        AnthologyItem::Topic { topic } => {
            assert(seq![Leaf::Topic(topic)][0] == Leaf::Topic(topic));
            let ghost tg = topic;
            match step_topic(pass, topic, ctx) {
                Ok(u) => Ok(AnthologyItem::Topic { topic: u }),
                Err(m) => {
                    proof { lemma_answered_single(pass, Leaf::Topic(tg), *ctx, m@); }
                    Err(m)
                },
            }
        },
        AnthologyItem::Book { book } => {
            assert(seq![Leaf::Book(book)][0] == Leaf::Book(book));
            let ghost bg = book;
            match step_book(pass, book, ctx) {
                Ok(c) => Ok(AnthologyItem::Book { book: c }),
                Err(m) => {
                    proof { lemma_answered_single(pass, Leaf::Book(bg), *ctx, m@); }
                    Err(m)
                },
            }
        },
        AnthologyItem::Anthology { anthology } => {
            let ghost a0 = anthology;
            let Anthology { slug, path, order, title, description, reading_minutes, updated, inline_refs, children } = anthology;
            assert(decreases_to!(i0 => a0));
            assert(decreases_to!(a0 => a0.children));
            assert(decreases_to!(a0.children => a0.children@));
            match step_achildren(pass, children, ctx) {
                Ok(v) => Ok(AnthologyItem::Anthology {
                    anthology: Anthology { slug, path, order, title, description, reading_minutes, updated, inline_refs, children: v },
                }),
                Err(m) => Err(m),
            }
        },
    }
}

/// One pass over a run of anthology items.
fn step_aitems(pass: u8, items: Vec<AnthologyItem>, ctx: &LinkContext) -> (r: Result<Vec<AnthologyItem>, String>)
    ensures
        r matches Err(m) ==> linking_message(m@),
        r matches Err(m) ==> answered(pass, aitems_leaves(items@), *ctx, m@),
        r is Ok <==> all_ok(pass, aitems_leaves(items@), *ctx),
        r matches Ok(v) ==> aitems_stepped(pass, items@, v@, *ctx),
    decreases items@,
{
    let ghost s0 = items@;
    let n = items.len();
    let mut rest = items;
    let mut done: Vec<AnthologyItem> = Vec::new();
    assert(s0.skip(0) =~= s0);
    assert(s0.take(0) =~= Seq::<AnthologyItem>::empty());
    for k in 0..n
        invariant
            s0 == items@,
            n == s0.len(),
            rest@ == s0.skip(k as int),
            aitems_stepped(pass, s0.take(k as int), done@, *ctx),
            all_ok(pass, aitems_leaves(s0.take(k as int)), *ctx),
    {
        let x = rest.remove(0);
        assert(x == s0[k as int]);
        assert(rest@ =~= s0.skip(k + 1));
        assert(s0.take(k + 1).drop_last() =~= s0.take(k as int));
        assert(decreases_to!(items@ => items@[k as int]));
        let ghost before = done@;
        proof {
            lemma_all_ok_concat(pass, aitems_leaves(s0.take(k as int)), aitem_leaves(x), *ctx);
        }
        let ghost xg = x;
        match step_aitem(pass, x, ctx) {
            Ok(y) => {
                done.push(y);
                assert(done@.drop_last() =~= before);
            },
            Err(m) => {
                proof {
                    if all_ok(pass, aitems_leaves(s0), *ctx) {
                        lemma_aitems_prefix(pass, s0, k + 1, *ctx);
                    }
                    lemma_answered_concat(pass, aitems_leaves(s0.take(k as int)), aitem_leaves(xg), *ctx, m@);
                    lemma_aitems_answered(pass, s0, k + 1, *ctx, m@);
                }
                return Err(m);
            },
        }
    }
    assert(s0.take(n as int) =~= s0);
    Ok(done)
}

/// One pass over a run of anthology children.
fn step_achildren(pass: u8, children: Vec<AnthologyChild>, ctx: &LinkContext) -> (r: Result<Vec<AnthologyChild>, String>)
    ensures
        r matches Err(m) ==> linking_message(m@),
        r matches Err(m) ==> answered(pass, achildren_leaves(children@), *ctx, m@),
        r is Ok <==> all_ok(pass, achildren_leaves(children@), *ctx),
        r matches Ok(v) ==> achildren_stepped(pass, children@, v@, *ctx),
    decreases children@,
{
    let ghost s0 = children@;
    let n = children.len();
    let mut rest = children;
    let mut done: Vec<AnthologyChild> = Vec::new();
    assert(s0.skip(0) =~= s0);
    assert(s0.take(0) =~= Seq::<AnthologyChild>::empty());
    for k in 0..n
        invariant
            s0 == children@,
            n == s0.len(),
            rest@ == s0.skip(k as int),
            achildren_stepped(pass, s0.take(k as int), done@, *ctx),
            all_ok(pass, achildren_leaves(s0.take(k as int)), *ctx),
    {
        let x = rest.remove(0);
        assert(x == s0[k as int]);
        assert(rest@ =~= s0.skip(k + 1));
        assert(s0.take(k + 1).drop_last() =~= s0.take(k as int));
        assert(decreases_to!(children@ => children@[k as int]));
        let ghost before = done@;
        let ghost xg = x;
        proof {
            lemma_all_ok_concat(pass, achildren_leaves(s0.take(k as int)), match xg {
                AnthologyChild::Item(i) => aitem_leaves(i),
                AnthologyChild::Shelf(sh) => aitems_leaves(sh.items@),
            }, *ctx);
            if all_ok(pass, achildren_leaves(s0), *ctx) {
                lemma_achildren_prefix(pass, s0, k + 1, *ctx);
            }
        }
        match x {
            AnthologyChild::Item(i) => {
                assert(decreases_to!(xg => i));
                match step_aitem(pass, i, ctx) {
                    Ok(j) => {
                        done.push(AnthologyChild::Item(j));
                        assert(done@.drop_last() =~= before);
                    },
                    Err(m) => {
                        proof {
                            lemma_answered_concat(pass, achildren_leaves(s0.take(k as int)), aitem_leaves(i), *ctx, m@);
                            lemma_achildren_answered(pass, s0, k + 1, *ctx, m@);
                        }
                        return Err(m);
                    },
                }
            },
            AnthologyChild::Shelf(sh) => {
                let ghost shg = sh;
                let Shelf { slug, order, title, items } = sh;
                assert(decreases_to!(xg => shg));
                assert(decreases_to!(shg => shg.items));
                assert(decreases_to!(shg.items => shg.items@));
                match step_aitems(pass, items, ctx) {
                    Ok(v) => {
                        done.push(AnthologyChild::Shelf(Shelf { slug, order, title, items: v }));
                        assert(done@.drop_last() =~= before);
                    },
                    Err(m) => {
                        proof {
                            lemma_answered_concat(pass, achildren_leaves(s0.take(k as int)), aitems_leaves(shg.items@), *ctx, m@);
                            lemma_achildren_answered(pass, s0, k + 1, *ctx, m@);
                        }
                        return Err(m);
                    },
                }
            },
        }
    }
    assert(s0.take(n as int) =~= s0);
    Ok(done)
}

/// One pass over a product item.
fn step_pitem(pass: u8, i: ProductItem, ctx: &LinkContext) -> (r: Result<ProductItem, String>)
    ensures
        r matches Err(m) ==> linking_message(m@),
        r matches Err(m) ==> answered(pass, pitem_leaves(i), *ctx, m@),
        r is Ok <==> all_ok(pass, pitem_leaves(i), *ctx),
        r matches Ok(j) ==> pitem_stepped(pass, i, j, *ctx),
{
    match i {
        ProductItem::Topic { topic } => {
            assert(seq![Leaf::Topic(topic)][0] == Leaf::Topic(topic));
            let ghost tg = topic;
            match step_topic(pass, topic, ctx) {
                Ok(u) => Ok(ProductItem::Topic { topic: u }),
                Err(m) => {
                    proof { lemma_answered_single(pass, Leaf::Topic(tg), *ctx, m@); }
                    Err(m)
                },
            }
        },
        ProductItem::Book { book } => {
            assert(seq![Leaf::Book(book)][0] == Leaf::Book(book));
            let ghost bg = book;
            match step_book(pass, book, ctx) {
                Ok(c) => Ok(ProductItem::Book { book: c }),
                Err(m) => {
                    proof { lemma_answered_single(pass, Leaf::Book(bg), *ctx, m@); }
                    Err(m)
                },
            }
        },
        ProductItem::Anthology { anthology } => {
            let Anthology { slug, path, order, title, description, reading_minutes, updated, inline_refs, children } = anthology;
            match step_achildren(pass, children, ctx) {
                Ok(v) => Ok(ProductItem::Anthology {
                    anthology: Anthology { slug, path, order, title, description, reading_minutes, updated, inline_refs, children: v },
                }),
                Err(m) => Err(m),
            }
        },
    }
}

/// One pass over a run of product items.
fn step_pitems(pass: u8, items: Vec<ProductItem>, ctx: &LinkContext) -> (r: Result<Vec<ProductItem>, String>)
    ensures
        r matches Err(m) ==> linking_message(m@),
        r matches Err(m) ==> answered(pass, pitems_leaves(items@), *ctx, m@),
        r is Ok <==> all_ok(pass, pitems_leaves(items@), *ctx),
        r matches Ok(v) ==> pitems_stepped(pass, items@, v@, *ctx),
{
    let ghost s0 = items@;
    let n = items.len();
    let mut rest = items;
    let mut done: Vec<ProductItem> = Vec::new();
    assert(s0.skip(0) =~= s0);
    assert(s0.take(0) =~= Seq::<ProductItem>::empty());
    for k in 0..n
        invariant
            s0 == items@,
            n == s0.len(),
            rest@ == s0.skip(k as int),
            pitems_stepped(pass, s0.take(k as int), done@, *ctx),
            all_ok(pass, pitems_leaves(s0.take(k as int)), *ctx),
    {
        let x = rest.remove(0);
        assert(x == s0[k as int]);
        assert(rest@ =~= s0.skip(k + 1));
        assert(s0.take(k + 1).drop_last() =~= s0.take(k as int));
        let ghost before = done@;
        proof {
            lemma_all_ok_concat(pass, pitems_leaves(s0.take(k as int)), pitem_leaves(x), *ctx);
        }
        let ghost xg = x;
        match step_pitem(pass, x, ctx) {
            Ok(y) => {
                done.push(y);
                assert(done@.drop_last() =~= before);
            },
            Err(m) => {
                proof {
                    if all_ok(pass, pitems_leaves(s0), *ctx) {
                        lemma_pitems_prefix(pass, s0, k + 1, *ctx);
                    }
                    lemma_answered_concat(pass, pitems_leaves(s0.take(k as int)), pitem_leaves(xg), *ctx, m@);
                    lemma_pitems_answered(pass, s0, k + 1, *ctx, m@);
                }
                return Err(m);
            },
        }
    }
    assert(s0.take(n as int) =~= s0);
    Ok(done)
}

/// One pass over a product's children.
fn step_pchildren(pass: u8, children: Vec<ProductChild>, ctx: &LinkContext) -> (r: Result<Vec<ProductChild>, String>)
    ensures
        r matches Err(m) ==> linking_message(m@),
        r matches Err(m) ==> answered(pass, pchildren_leaves(children@), *ctx, m@),
        r is Ok <==> all_ok(pass, pchildren_leaves(children@), *ctx),
        r matches Ok(v) ==> pchildren_stepped(pass, children@, v@, *ctx),
{
    let ghost s0 = children@;
    let n = children.len();
    let mut rest = children;
    let mut done: Vec<ProductChild> = Vec::new();
    assert(s0.skip(0) =~= s0);
    assert(s0.take(0) =~= Seq::<ProductChild>::empty());
    for k in 0..n
        invariant
            s0 == children@,
            n == s0.len(),
            rest@ == s0.skip(k as int),
            pchildren_stepped(pass, s0.take(k as int), done@, *ctx),
            all_ok(pass, pchildren_leaves(s0.take(k as int)), *ctx),
    {
        let x = rest.remove(0);
        assert(x == s0[k as int]);
        assert(rest@ =~= s0.skip(k + 1));
        assert(s0.take(k + 1).drop_last() =~= s0.take(k as int));
        let ghost before = done@;
        let ghost xg = x;
        proof {
            lemma_all_ok_concat(pass, pchildren_leaves(s0.take(k as int)), match xg {
                ProductChild::Item(i) => pitem_leaves(i),
                ProductChild::Shelf(sh) => pitems_leaves(sh.items@),
            }, *ctx);
            if all_ok(pass, pchildren_leaves(s0), *ctx) {
                lemma_pchildren_prefix(pass, s0, k + 1, *ctx);
            }
        }
        match x {
            ProductChild::Item(i) => {
                let ghost ig = i;
                match step_pitem(pass, i, ctx) {
                    Ok(j) => {
                        done.push(ProductChild::Item(j));
                        assert(done@.drop_last() =~= before);
                    },
                    Err(m) => {
                        proof {
                            lemma_answered_concat(pass, pchildren_leaves(s0.take(k as int)), pitem_leaves(ig), *ctx, m@);
                            lemma_pchildren_answered(pass, s0, k + 1, *ctx, m@);
                        }
                        return Err(m);
                    },
                }
            },
            ProductChild::Shelf(sh) => {
                let ghost shg = sh;
                let Shelf { slug, order, title, items } = sh;
                match step_pitems(pass, items, ctx) {
                    Ok(v) => {
                        done.push(ProductChild::Shelf(Shelf { slug, order, title, items: v }));
                        assert(done@.drop_last() =~= before);
                    },
                    Err(m) => {
                        proof {
                            lemma_answered_concat(pass, pchildren_leaves(s0.take(k as int)), pitems_leaves(shg.items@), *ctx, m@);
                            lemma_pchildren_answered(pass, s0, k + 1, *ctx, m@);
                        }
                        return Err(m);
                    },
                }
            },
        }
    }
    assert(s0.take(n as int) =~= s0);
    Ok(done)
}

/// One pass over every product of a site.
fn step_products(pass: u8, products: Vec<Product>, ctx: &LinkContext) -> (r: Result<Vec<Product>, String>)
    ensures
        r matches Err(m) ==> linking_message(m@),
        r matches Err(m) ==> answered(pass, products_leaves(products@), *ctx, m@),
        r is Ok <==> all_ok(pass, products_leaves(products@), *ctx),
        r matches Ok(v) ==> products_stepped(pass, products@, v@, *ctx),
{
    let ghost s0 = products@;
    let n = products.len();
    let mut rest = products;
    let mut done: Vec<Product> = Vec::new();
    assert(s0.skip(0) =~= s0);
    assert(s0.take(0) =~= Seq::<Product>::empty());
    for k in 0..n
        invariant
            s0 == products@,
            n == s0.len(),
            rest@ == s0.skip(k as int),
            products_stepped(pass, s0.take(k as int), done@, *ctx),
            all_ok(pass, products_leaves(s0.take(k as int)), *ctx),
    {
        let x = rest.remove(0);
        assert(x == s0[k as int]);
        assert(rest@ =~= s0.skip(k + 1));
        assert(s0.take(k + 1).drop_last() =~= s0.take(k as int));
        let ghost before = done@;
        proof {
            lemma_all_ok_concat(pass, products_leaves(s0.take(k as int)), pchildren_leaves(x.children@), *ctx);
        }
        let Product { slug, path, title, monogram, color, description, reading_minutes, updated, inline_refs, children } = x;
        let ghost cg = children@;
        match step_pchildren(pass, children, ctx) {
            Ok(v) => {
                done.push(Product { slug, path, title, monogram, color, description, reading_minutes, updated, inline_refs, children: v });
                assert(done@.drop_last() =~= before);
            },
            Err(m) => {
                proof {
                    if all_ok(pass, products_leaves(s0), *ctx) {
                        lemma_products_prefix(pass, s0, k + 1, *ctx);
                    }
                    lemma_answered_concat(pass, products_leaves(s0.take(k as int)), pchildren_leaves(cg), *ctx, m@);
                    lemma_products_answered(pass, s0, k + 1, *ctx, m@);
                }
                return Err(m);
            },
        }
    }
    assert(s0.take(n as int) =~= s0);
    Ok(done)
}


/// The articles of a topic or book, in reading order.
pub open spec fn leaf_articles(l: Leaf) -> Seq<Article> {
    match l {
        Leaf::Topic(t) => crate::site::topic_pages(t.children@),
        Leaf::Book(b) => crate::site::book_walk(b.children@, Seq::empty()).map_values(|e: (Seq<Chapter>, Article)| e.1),
    }
}

/// The articles of a run of topics and books.
pub open spec fn leaves_articles(ls: Seq<Leaf>) -> Seq<Article>
    decreases ls.len(),
{
    if ls.len() == 0 { Seq::empty() } else { leaves_articles(ls.drop_last()) + leaf_articles(ls.last()) }
}

/// The subfolders of a run of topic children.
pub open spec fn child_folders(c: Seq<TopicChild>) -> Seq<TopicFolder>
    decreases c.len(),
{
    if c.len() == 0 {
        Seq::empty()
    } else {
        child_folders(c.drop_last()) + match c.last() {
            TopicChild::Folder { folder } => seq![folder],
            TopicChild::Article { .. } => Seq::empty(),
        }
    }
}

/// The subfolders of a run of topics and books.
pub open spec fn leaves_folders(ls: Seq<Leaf>) -> Seq<TopicFolder>
    decreases ls.len(),
{
    if ls.len() == 0 {
        Seq::empty()
    } else {
        leaves_folders(ls.drop_last()) + match ls.last() {
            Leaf::Topic(t) => child_folders(t.children@),
            Leaf::Book(_) => Seq::empty(),
        }
    }
}

/// Runs of folders holding the same values, position by position.
pub open spec fn same_folders(a: Seq<TopicFolder>, b: Seq<TopicFolder>) -> bool {
    a.len() == b.len() && forall|i: int| 0 <= i < a.len() ==> same_folder(#[trigger] a[i], b[i])
}

/// A topic or book, by reference.
pub enum LeafRef<'a> {
    Topic(&'a Topic),
    Book(&'a Book),
}

pub open spec fn leaf_of<'a>(l: LeafRef<'a>) -> Leaf {
    match l {
        LeafRef::Topic(t) => Leaf::Topic(*t),
        LeafRef::Book(b) => Leaf::Book(*b),
    }
}

pub open spec fn leaves_of<'a>(v: Seq<LeafRef<'a>>) -> Seq<Leaf> {
    v.map_values(|l: LeafRef<'a>| leaf_of(l))
}

fn push_leaf<'a>(out: &mut Vec<LeafRef<'a>>, l: LeafRef<'a>)
    ensures
        leaves_of(final(out)@) == leaves_of(old(out)@).push(leaf_of(l)),
{
    let ghost b = out@;
    out.push(l);
    assert(leaves_of(out@) =~= leaves_of(b).push(leaf_of(l)));
}

/// Appends the topics and books beneath an anthology item.
fn push_aitem_leaves<'a>(i: &'a AnthologyItem, out: &mut Vec<LeafRef<'a>>)
    ensures
        leaves_of(final(out)@) == leaves_of(old(out)@) + aitem_leaves(*i),
    decreases i,
{
    match i {
        AnthologyItem::Topic { topic } => {
            push_leaf(out, LeafRef::Topic(topic));
            assert(seq![Leaf::Topic(*topic)] =~= seq![leaf_of(LeafRef::Topic(topic))]);
        },
        AnthologyItem::Book { book } => {
            push_leaf(out, LeafRef::Book(book));
            assert(seq![Leaf::Book(*book)] =~= seq![leaf_of(LeafRef::Book(book))]);
        },
        AnthologyItem::Anthology { anthology } => {
            assert(decreases_to!(*i => *anthology));
            assert(decreases_to!(*anthology => anthology.children));
            push_achildren_leaves(&anthology.children, out);
        },
    }
}

fn push_aitems_leaves<'a>(s: &'a Vec<AnthologyItem>, out: &mut Vec<LeafRef<'a>>)
    ensures
        leaves_of(final(out)@) == leaves_of(old(out)@) + aitems_leaves(s@),
    decreases s,
{
    let ghost o0 = leaves_of(out@);
    for k in 0..s.len()
        invariant
            leaves_of(out@) == o0 + aitems_leaves(s@.take(k as int)),
    {
        assert(s@.take(k + 1).drop_last() =~= s@.take(k as int));
        let ghost mid = leaves_of(out@);
        assert(decreases_to!(*s => s@));
        assert(decreases_to!(s@ => s@[k as int]));
        push_aitem_leaves(&s[k], out);
        assert(leaves_of(out@) =~= o0 + aitems_leaves(s@.take(k + 1)));
    }
    assert(s@.take(s.len() as int) =~= s@);
}

fn push_achildren_leaves<'a>(s: &'a Vec<AnthologyChild>, out: &mut Vec<LeafRef<'a>>)
    ensures
        leaves_of(final(out)@) == leaves_of(old(out)@) + achildren_leaves(s@),
    decreases s,
{
    let ghost o0 = leaves_of(out@);
    for k in 0..s.len()
        invariant
            leaves_of(out@) == o0 + achildren_leaves(s@.take(k as int)),
    {
        assert(s@.take(k + 1).drop_last() =~= s@.take(k as int));
        assert(decreases_to!(*s => s@));
        assert(decreases_to!(s@ => s@[k as int]));
        match &s[k] {
            AnthologyChild::Item(i) => {
                assert(decreases_to!(s@[k as int] => *i));
                push_aitem_leaves(i, out);
            },
            AnthologyChild::Shelf(sh) => {
                assert(decreases_to!(s@[k as int] => *sh));
                assert(decreases_to!(*sh => sh.items));
                push_aitems_leaves(&sh.items, out);
            },
        }
        assert(leaves_of(out@) =~= o0 + achildren_leaves(s@.take(k + 1)));
    }
    assert(s@.take(s.len() as int) =~= s@);
}

fn push_pitem_leaves<'a>(i: &'a ProductItem, out: &mut Vec<LeafRef<'a>>)
    ensures
        leaves_of(final(out)@) == leaves_of(old(out)@) + pitem_leaves(*i),
{
    match i {
        ProductItem::Topic { topic } => {
            push_leaf(out, LeafRef::Topic(topic));
            assert(seq![Leaf::Topic(*topic)] =~= seq![leaf_of(LeafRef::Topic(topic))]);
        },
        ProductItem::Book { book } => {
            push_leaf(out, LeafRef::Book(book));
            assert(seq![Leaf::Book(*book)] =~= seq![leaf_of(LeafRef::Book(book))]);
        },
        ProductItem::Anthology { anthology } => push_achildren_leaves(&anthology.children, out),
    }
}

fn push_pitems_leaves<'a>(s: &'a Vec<ProductItem>, out: &mut Vec<LeafRef<'a>>)
    ensures
        leaves_of(final(out)@) == leaves_of(old(out)@) + pitems_leaves(s@),
{
    let ghost o0 = leaves_of(out@);
    for k in 0..s.len()
        invariant
            leaves_of(out@) == o0 + pitems_leaves(s@.take(k as int)),
    {
        assert(s@.take(k + 1).drop_last() =~= s@.take(k as int));
        push_pitem_leaves(&s[k], out);
        assert(leaves_of(out@) =~= o0 + pitems_leaves(s@.take(k + 1)));
    }
    assert(s@.take(s.len() as int) =~= s@);
}

fn push_pchildren_leaves<'a>(s: &'a Vec<ProductChild>, out: &mut Vec<LeafRef<'a>>)
    ensures
        leaves_of(final(out)@) == leaves_of(old(out)@) + pchildren_leaves(s@),
{
    let ghost o0 = leaves_of(out@);
    for k in 0..s.len()
        invariant
            leaves_of(out@) == o0 + pchildren_leaves(s@.take(k as int)),
    {
        assert(s@.take(k + 1).drop_last() =~= s@.take(k as int));
        match &s[k] {
            ProductChild::Item(i) => push_pitem_leaves(i, out),
            ProductChild::Shelf(sh) => push_pitems_leaves(&sh.items, out),
        }
        assert(leaves_of(out@) =~= o0 + pchildren_leaves(s@.take(k + 1)));
    }
    assert(s@.take(s.len() as int) =~= s@);
}

/// Every topic and book of a site, by reference, in traversal order.
fn collect_leaves<'a>(products: &'a Vec<Product>) -> (r: Vec<LeafRef<'a>>)
    ensures
        leaves_of(r@) == products_leaves(products@),
{
    let mut out: Vec<LeafRef<'a>> = Vec::new();
    assert(leaves_of(out@) =~= Seq::<Leaf>::empty());
    for k in 0..products.len()
        invariant
            leaves_of(out@) == products_leaves(products@.take(k as int)),
    {
        assert(products@.take(k + 1).drop_last() =~= products@.take(k as int));
        push_pchildren_leaves(&products[k].children, &mut out);
    }
    assert(products@.take(products.len() as int) =~= products@);
    out
}

/// A copy of every article of the given topics and books.
fn snapshot_articles(leaves: &Vec<LeafRef>) -> (r: Vec<Article>)
    ensures
        same_articles(r@, leaves_articles(leaves_of(leaves@))),
{
    let mut out: Vec<Article> = Vec::new();
    let ghost lv = leaves_of(leaves@);
    for k in 0..leaves.len()
        invariant
            lv == leaves_of(leaves@),
            same_articles(out@, leaves_articles(lv.take(k as int))),
    {
        assert(lv.take(k + 1).drop_last() =~= lv.take(k as int));
        assert(lv[k as int] == leaf_of(leaves@[k as int]));
        let ghost before = out@;
        let ghost want = leaf_articles(lv[k as int]);
        match leaves[k] {
            LeafRef::Topic(t) => {
                let pages = t.pages();
                assert(out@.take(before.len() as int) =~= before);
                for j in 0..pages.len()
                    invariant
                        want == crate::site::topic_pages(t.children@),
                        crate::site::derefs(pages@) == want,
                        out@.len() == before.len() + j,
                        out@.take(before.len() as int) == before,
                        forall|q: int| 0 <= q < j ==> same_article(#[trigger] out@[before.len() + q], want[q]),
                {
                    let c = copy_article(pages[j]);
                    assert(want[j as int] == *pages@[j as int]);
                    out.push(c);
                    assert(out@.take(before.len() as int) =~= out@.drop_last().take(before.len() as int));
                }
                assert(out@.take(before.len() as int) =~= before);
            },
            LeafRef::Book(b) => {
                let walked = b.articles();
                assert(out@.take(before.len() as int) =~= before);
                for j in 0..walked.len()
                    invariant
                        want == crate::site::book_walk(b.children@, Seq::empty()).map_values(|e: (Seq<Chapter>, Article)| e.1),
                        walked@.map_values(|e: (Vec<&Chapter>, &Article)| crate::site::walk_view(e)) == crate::site::book_walk(b.children@, Seq::empty()),
                        out@.len() == before.len() + j,
                        out@.take(before.len() as int) == before,
                        forall|q: int| 0 <= q < j ==> same_article(#[trigger] out@[before.len() + q], want[q]),
                {
                    let c = copy_article(walked[j].1);
                    assert(crate::site::walk_view(walked@[j as int]).1 == want[j as int]);
                    out.push(c);
                    assert(out@.take(before.len() as int) =~= out@.drop_last().take(before.len() as int));
                }
                assert(out@.take(before.len() as int) =~= before);
            },
        }
        assert(same_articles(out@, leaves_articles(lv.take(k + 1)))) by {
            assert(leaves_articles(lv.take(k + 1)) == leaves_articles(lv.take(k as int)) + want);
            assert forall|q: int| 0 <= q < out@.len() implies same_article(#[trigger] out@[q], leaves_articles(lv.take(k + 1))[q]) by {
                if q < before.len() {
                    assert(out@[q] == out@.take(before.len() as int)[q]);
                    assert(leaves_articles(lv.take(k + 1))[q] == leaves_articles(lv.take(k as int))[q]);
                } else {
                    assert(leaves_articles(lv.take(k + 1))[q] == want[q - before.len()]);
                    assert(same_article(out@[before.len() + (q - before.len())], want[q - before.len()]));
                }
            }
        }
    }
    assert(lv.take(leaves.len() as int) =~= lv);
    out
}

/// A copy of every subfolder of the given topics.
fn snapshot_folders(leaves: &Vec<LeafRef>) -> (r: Vec<TopicFolder>)
    ensures
        same_folders(r@, leaves_folders(leaves_of(leaves@))),
{
    let mut out: Vec<TopicFolder> = Vec::new();
    let ghost lv = leaves_of(leaves@);
    for k in 0..leaves.len()
        invariant
            lv == leaves_of(leaves@),
            same_folders(out@, leaves_folders(lv.take(k as int))),
    {
        assert(lv.take(k + 1).drop_last() =~= lv.take(k as int));
        assert(lv[k as int] == leaf_of(leaves@[k as int]));
        let ghost before = out@;
        match leaves[k] {
            LeafRef::Topic(t) => {
                let ghost want = child_folders(t.children@);
                assert(out@.take(before.len() as int) =~= before);
                assert(t.children@.take(0) =~= Seq::<TopicChild>::empty());
                for j in 0..t.children.len()
                    invariant
                        out@.take(before.len() as int) == before,
                        out@.len() == before.len() + child_folders(t.children@.take(j as int)).len(),
                        forall|q: int| 0 <= q < child_folders(t.children@.take(j as int)).len() ==>
                            same_folder(#[trigger] out@[before.len() + q], child_folders(t.children@.take(j as int))[q]),
                {
                    assert(t.children@.take(j + 1).drop_last() =~= t.children@.take(j as int));
                    match &t.children[j] {
                        TopicChild::Folder { folder } => {
                            let c = copy_folder(folder);
                            out.push(c);
                            assert(out@.take(before.len() as int) =~= out@.drop_last().take(before.len() as int));
                        },
                        TopicChild::Article { .. } => {},
                    }
                }
                assert(t.children@.take(t.children@.len() as int) =~= t.children@);
                assert(out@.take(before.len() as int) =~= before);
                assert(same_folders(out@, leaves_folders(lv.take(k + 1)))) by {
                    assert(leaves_folders(lv.take(k + 1)) == leaves_folders(lv.take(k as int)) + want);
                    assert forall|q: int| 0 <= q < out@.len() implies same_folder(#[trigger] out@[q], leaves_folders(lv.take(k + 1))[q]) by {
                        if q < before.len() {
                            assert(out@[q] == out@.take(before.len() as int)[q]);
                            assert(leaves_folders(lv.take(k + 1))[q] == leaves_folders(lv.take(k as int))[q]);
                        } else {
                            assert(leaves_folders(lv.take(k + 1))[q] == want[q - before.len()]);
                            assert(same_folder(out@[before.len() + (q - before.len())], want[q - before.len()]));
                        }
                    }
                }
            },
            LeafRef::Book(_) => {
                assert(leaves_folders(lv.take(k + 1)) =~= leaves_folders(lv.take(k as int)));
            },
        }
    }
    assert(lv.take(leaves.len() as int) =~= lv);
    out
}


/// An index over the given products, subfolders included.
pub open spec fn index_for(index: LinkIndex, products: Seq<Product>) -> bool {
    &&& index.products@.len() == products.len()
    &&& forall|i: int| 0 <= i < products.len() ==>
        #[trigger] crate::links::product_index_view(index.products@[i]) == crate::links::product_entry(products[i], true)
}

/// The context of the first pass: the index and a copy of every article,
/// taken from the site as loaded.
pub open spec fn first_context(ctx: LinkContext, products: Seq<Product>) -> bool {
    &&& index_for(ctx.index, products)
    &&& same_articles(ctx.originals@, leaves_articles(products_leaves(products)))
}

/// The context of the later passes: the same index and articles, and a
/// copy of every subfolder once subfolder stubs have resolved.
pub open spec fn later_context(later: LinkContext, first: LinkContext, resolved: Seq<Product>) -> bool {
    &&& later.index == first.index
    &&& later.originals == first.originals
    &&& same_folders(later.folders@, leaves_folders(products_leaves(resolved)))
}

/// The three passes over a site's products, in order, with the contexts
/// they resolve against.
pub open spec fn linked(products: Seq<Product>, result: Seq<Product>) -> bool {
    exists|first: LinkContext, later: LinkContext, m1: Seq<Product>, m2: Seq<Product>|
        first_context(first, products)
        && #[trigger] products_stepped(1, products, m1, first)
        && later_context(later, first, m1)
        && #[trigger] products_stepped(2, m1, m2, later)
        && #[trigger] products_stepped(3, m2, result, later)
}

/// Some pass fails: the first on the site as loaded, the second after the
/// first, or the third after both.
pub open spec fn linking_fails(products: Seq<Product>) -> bool {
    exists|first: LinkContext|
        #[trigger] first_context(first, products) && (!all_ok(1, products_leaves(products), first)
            || exists|later: LinkContext, m1: Seq<Product>|
                #[trigger] products_stepped(1, products, m1, first) && #[trigger] later_context(later, first, m1)
                && (!all_ok(2, products_leaves(m1), later)
                    || exists|m2: Seq<Product>| #[trigger] products_stepped(2, m1, m2, later) && !all_ok(3, products_leaves(m2), later)))
}

/// How a failed run is answered: the failing pass answers for the first
/// topic or book, in traversal order, that it cannot take.
pub open spec fn linking_answered(products: Seq<Product>, m: Seq<char>) -> bool {
    exists|first: LinkContext|
        #[trigger] first_context(first, products) && ((!all_ok(1, products_leaves(products), first)
            && answered(1, products_leaves(products), first, m))
            || exists|later: LinkContext, m1: Seq<Product>|
                #[trigger] products_stepped(1, products, m1, first) && #[trigger] later_context(later, first, m1)
                && ((!all_ok(2, products_leaves(m1), later) && answered(2, products_leaves(m1), later, m))
                    || exists|m2: Seq<Product>| #[trigger] products_stepped(2, m1, m2, later)
                        && !all_ok(3, products_leaves(m2), later) && answered(3, products_leaves(m2), later, m)))
}

/// Resolves every `.link` stub of a site: subfolder stubs first, so the
/// folder snapshot is complete; then topic-level stubs, which may alias a
/// whole subfolder; then the stubs of books and chapters. Targets resolve
/// through the folder-aware index and must be articles that exist on
/// disk (or, at topic level, subfolders).
pub fn resolve_linked_articles(site: Site) -> (r: Result<Site, String>)
    ensures
        r matches Ok(s) ==> s == (Site { products: s.products, ..site }) && linked(site.products@, s.products@),
        r is Err ==> linking_fails(site.products@),
        r matches Err(m) ==> linking_message(m@) && linking_answered(site.products@, m@),
{
    let index = LinkIndex::with_folders(&site);
    let leaves = collect_leaves(&site.products);
    let originals = snapshot_articles(&leaves);
    let first = LinkContext { index, originals, folders: Vec::new() };
    assert(first_context(first, site.products@));
    let ghost s0 = site;
    let Site { config, products, images, custom_css, favicon, head_html, root } = site;
    let ghost p0 = products@;
    let p1 = match step_products(1, products, &first) {
        Ok(v) => v,
        Err(m) => return Err(m),
    };
    let ghost m1 = p1@;
    let leaves1 = collect_leaves(&p1);
    let folders = snapshot_folders(&leaves1);
    let LinkContext { index, originals, folders: _ } = first;
    let later = LinkContext { index, originals, folders };
    assert(later_context(later, first, m1));
    let p2 = match step_products(2, p1, &later) {
        Ok(v) => v,
        Err(m) => {
            assert(products_stepped(1, p0, m1, first));
            return Err(m);
        },
    };
    let ghost m2 = p2@;
    let p3 = match step_products(3, p2, &later) {
        Ok(v) => v,
        Err(m) => {
            assert(products_stepped(1, p0, m1, first));
            assert(products_stepped(2, m1, m2, later));
            return Err(m);
        },
    };
    let s = Site { config, products: p3, images, custom_css, favicon, head_html, root };
    assert(products_stepped(1, p0, m1, first) && products_stepped(2, m1, m2, later) && products_stepped(3, m2, s.products@, later));
    Ok(s)
}


pub open spec fn key_view() -> spec_fn(SortKey) -> KeyV {
    |k: SortKey| sort_key_view(k)
}

/// A copy of a run of sort keys.
fn copy_keys(keys: &Vec<SortKey>) -> (r: Vec<SortKey>)
    ensures
        r@.len() == keys@.len(),
        forall|i: int| 0 <= i < keys@.len() ==> sort_key_view(#[trigger] r@[i]) == sort_key_view(keys@[i]),
{
    let mut r: Vec<SortKey> = Vec::new();
    for i in 0..keys.len()
        invariant
            r@.len() == i,
            i <= keys@.len(),
            forall|j: int| 0 <= j < i ==> sort_key_view(#[trigger] r@[j]) == sort_key_view(keys@[j]),
    {
        let k = &keys[i];
        r.push(SortKey { appendix: k.appendix, order: k.order, slug: k.slug.clone() });
    }
    r
}

/// Sorts items by their keys and checks the sorted keys: no neighbours
/// sharing appendix flag and order, no slug twice. The error names the
/// duplicate after `context`.
pub(crate) fn sort_checked<T>(items: Vec<T>, keys: &Vec<SortKey>, Ghost(key): Ghost<spec_fn(T) -> KeyV>, what: &str, context: &str)
    -> (r: Result<Vec<T>, String>)
    requires
        items@.len() == keys@.len(),
        forall|i: int| 0 <= i < keys@.len() ==> sort_key_view(#[trigger] keys@[i]) == key(items@[i]),
    ensures
        r is Ok <==> keys_ok(sort_by_key(items@.map_values(key), id_key())),
        r matches Ok(v) ==> v@ == sort_by_key(items@, key),
        r matches Err(m) ==> m@ == context@ + crate::validate::duplicates_message(what@, sort_by_key(items@.map_values(key), id_key())),
        context@.len() == 0 ==> (r matches Err(m) ==> m@ == crate::validate::duplicates_message(what@, sort_by_key(items@.map_values(key), id_key()))),
{
    let ghost iv = items@;
    let sorted = sort_keyed(items, keys, Ghost(key));
    let copies = copy_keys(keys);
    let sorted_keys = sort_keyed(copies, keys, Ghost(key_view()));
    proof {
        lemma_keys_map(copies@, keys@, key_view());
        assert(keys@.map_values(key_view()) =~= iv.map_values(key));
        lemma_sort_keys(copies@, key_view());
        assert(copies@.map_values(key_view()) =~= keys@.map_values(key_view()));
        assert(sorted_keys@.map_values(|k: SortKey| sort_key_view(k)) =~= sorted_keys@.map_values(key_view()));
    }
    match check_keys(what, &sorted_keys, context) {
        Ok(()) => Ok(sorted),
        Err(m) => {
            assert(context@.len() == 0 ==> context@ + crate::validate::duplicates_message(what@, sort_by_key(iv.map_values(key), id_key()))
                =~= crate::validate::duplicates_message(what@, sort_by_key(iv.map_values(key), id_key())));
            Err(m)
        },
    }
}


impl Site {
    /// Every article of the site in tree order: topic articles (subfolders
    /// inlined), book articles, aliases and all.
    pub fn articles(&self) -> (r: Vec<&Article>)
        ensures
            crate::site::derefs(r@) == leaves_articles(products_leaves(self.products@)),
    {
        let leaves = collect_leaves(&self.products);
        let ghost lv = leaves_of(leaves@);
        let mut out: Vec<&Article> = Vec::new();
        for k in 0..leaves.len()
            invariant
                lv == leaves_of(leaves@),
                lv == products_leaves(self.products@),
                crate::site::derefs(out@) == leaves_articles(lv.take(k as int)),
        {
            assert(lv.take(k + 1).drop_last() =~= lv.take(k as int));
            assert(lv[k as int] == leaf_of(leaves@[k as int]));
            let ghost before = crate::site::derefs(out@);
            let ghost want = leaf_articles(lv[k as int]);
            match leaves[k] {
                LeafRef::Topic(t) => {
                    let pages = t.pages();
                    for j in 0..pages.len()
                        invariant
                            want == crate::site::topic_pages(t.children@),
                            crate::site::derefs(pages@) == want,
                            crate::site::derefs(out@) == before + want.take(j as int),
                    {
                        let ghost b = crate::site::derefs(out@);
                        out.push(pages[j]);
                        assert(crate::site::derefs(out@) =~= b.push(want[j as int]));
                        assert(want.take(j + 1) =~= want.take(j as int).push(want[j as int]));
                    }
                    assert(want.take(pages@.len() as int) =~= want);
                },
                LeafRef::Book(b) => {
                    let walked = b.articles();
                    for j in 0..walked.len()
                        invariant
                            want == crate::site::book_walk(b.children@, Seq::empty()).map_values(|e: (Seq<Chapter>, Article)| e.1),
                            walked@.map_values(|e: (Vec<&Chapter>, &Article)| crate::site::walk_view(e)) == crate::site::book_walk(b.children@, Seq::empty()),
                            crate::site::derefs(out@) == before + want.take(j as int),
                    {
                        let ghost bb = crate::site::derefs(out@);
                        assert(crate::site::walk_view(walked@[j as int]).1 == want[j as int]);
                        out.push(walked[j].1);
                        assert(crate::site::derefs(out@) =~= bb.push(want[j as int]));
                        assert(want.take(j + 1) =~= want.take(j as int).push(want[j as int]));
                    }
                    assert(want.take(walked@.len() as int) =~= want);
                },
            }
            assert(leaves_articles(lv.take(k + 1)) == leaves_articles(lv.take(k as int)) + want);
        }
        assert(lv.take(leaves@.len() as int) =~= lv);
        out
    }
}



/// Where `insert_by` puts `x`: after the last element that does not sort
/// after it.
pub open spec fn insert_pos(s: Seq<KeyV>, x: KeyV) -> int
    decreases s.len(),
{
    if s.len() == 0 || !key_gt(s.last(), x) { s.len() as int } else { insert_pos(s.drop_last(), x) }
}

proof fn lemma_insert_pos(s: Seq<KeyV>, x: KeyV)
    ensures
        0 <= insert_pos(s, x) <= s.len(),
        forall|j: int| insert_pos(s, x) <= j < s.len() ==> key_gt(#[trigger] s[j], x),
        insert_pos(s, x) == 0 || !key_gt(s[insert_pos(s, x) - 1], x),
    decreases s.len(),
{
    if s.len() > 0 && key_gt(s.last(), x) {
        lemma_insert_pos(s.drop_last(), x);
        let p = insert_pos(s, x);
        assert forall|j: int| p <= j < s.len() implies key_gt(#[trigger] s[j], x) by {
            if j < s.len() - 1 {
                assert(s.drop_last()[j] == s[j]);
            }
        }
        if p > 0 {
            assert(s.drop_last()[p - 1] == s[p - 1]);
        }
    }
}




/// Keys in sort order: none sorts after a later one.
pub open spec fn keys_sorted(ks: Seq<KeyV>) -> bool {
    forall|i: int, j: int| 0 <= i < j < ks.len() ==> !key_gt(#[trigger] ks[i], #[trigger] ks[j])
}

proof fn lemma_key_total(a: KeyV, b: KeyV)
    ensures
        !key_gt(a, b) || !key_gt(b, a),
{
    crate::validate::lemma_lex_total(a.2, b.2);
}

proof fn lemma_key_trans(a: KeyV, b: KeyV, c: KeyV)
    requires
        !key_gt(a, b),
        !key_gt(b, c),
    ensures
        !key_gt(a, c),
{
    if a.0 == b.0 && b.0 == c.0 && a.1 == b.1 && b.1 == c.1 {
        crate::validate::lemma_lex_trans(a.2, b.2, c.2);
    }
}

proof fn lemma_insert_sorted(s: Seq<KeyV>, x: KeyV)
    requires
        keys_sorted(s),
    ensures
        keys_sorted(insert_by(s, x, id_key())),
{
    lemma_insert_pos(s, x);
    let p = insert_pos(s, x);
    assert forall|j: int| p <= j < s.len() implies key_gt((id_key())(#[trigger] s[j]), (id_key())(x)) by {
        assert(key_gt(s[j], x));
    }
    lemma_insert_at(s, x, id_key(), p);
    let r = s.insert(p, x);
    assert forall|i: int, j: int| 0 <= i < j < r.len() implies !key_gt(#[trigger] r[i], #[trigger] r[j]) by {
        if j < p {
            assert(r[i] == s[i] && r[j] == s[j]);
        } else if j == p {
            assert(r[j] == x && r[i] == s[i]);
            assert(!key_gt(s[p - 1], x));
            if i < p - 1 {
                assert(!key_gt(s[i], s[p - 1]));
                lemma_key_trans(s[i], s[p - 1], x);
            }
        } else if i > p {
            assert(r[i] == s[i - 1] && r[j] == s[j - 1]);
        } else if i == p {
            assert(r[i] == x && r[j] == s[j - 1]);
            assert(key_gt(s[j - 1], x));
            lemma_key_total(s[j - 1], x);
        } else {
            assert(r[i] == s[i] && r[j] == s[j - 1]);
            assert(!key_gt(s[i], s[j - 1]));
        }
    }
}

proof fn lemma_sort_sorted(ks: Seq<KeyV>)
    ensures
        keys_sorted(sort_by_key(ks, id_key())),
    decreases ks.len(),
{
    if ks.len() > 0 {
        lemma_sort_sorted(ks.drop_last());
        lemma_insert_sorted(sort_by_key(ks.drop_last(), id_key()), ks.last());
    }
}

/// A stable sort by key leaves its keys in order: unflagged before
/// flagged, then by order, then by the text key.
pub proof fn law_sorted_keys_in_order<T>(s: Seq<T>, key: spec_fn(T) -> KeyV)
    ensures
        keys_sorted(sort_by_key(s, key).map_values(key)),
{
    lemma_sort_keys(s, key);
    lemma_sort_sorted(s.map_values(key));
}

} // verus!
