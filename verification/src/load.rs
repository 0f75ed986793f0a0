//! Loading a site from its directory tree: what each entry name means,
//! how each article, link, topic, book and grouping is assembled from
//! what its files hold, and how the whole site is finished. The caller
//! reads the directories and parses the configuration files; everything
//! decided about them is decided here.
use vstd::prelude::*;
use crate::links::{resolution, LinkIndex, Resolution};
use crate::linking::{linked, linking_fails, resolve_linked_articles,
    article_key, article_sort_keys, book_key, book_sort_keys, child_key, child_path, child_sort_keys, id_key,
    keys_ok, sort_by_key, sort_checked, sort_key_view, sort_keyed, KeyV, SortKey,
};
use crate::site::{
    anthology_items, derefs, product_items, Anthology, AnthologyChild, AnthologyItem, Article, Book, BookChild,
    Chapter, ImageAsset, LinkStub, NavItem, Product, ProductChild, ProductItem, Shelf, Site, SiteConfig, Topic,
    TopicChild, TopicFolder,
};
use crate::rollup::{products_rolled, rollup_products};
use crate::text::{
    chars_of, decimal, find_from, find_pair, find_sub, first_pair, has_prefix, has_suffix, lemma_find_from_bounds, owned,
    parses_u32, push_decimal, push_str, string_of, trim_start,
};
use crate::validate::{
    appendix_letters, book_order, check_flat_slugs, distinct, image_asset, image_name, letters, minutes_for,
    parse_book_order, reading_minutes, slug_title, title_from_slug, valid_color, valid_date, valid_slug,
    opt_view, validate_color, validate_date, validate_slug, GroupingName, lex_le,
};

verus! {

/// An article's frontmatter: topic articles carry a `type:` label, book
/// articles none.
pub struct ArticleFront {
    pub title: String,
    pub kind: Option<String>,
    pub description: Option<String>,
    pub related: Vec<String>,
    pub inline_ref: Vec<String>,
    pub updated: Option<String>,
    pub reading_minutes: Option<u32>,
}

/// What a `.link` file holds.
pub struct LinkConfig {
    pub target: String,
    pub title: Option<String>,
}

/// `s` split at its first `--`.
pub open spec fn split_stem(s: Seq<char>) -> Option<(Seq<char>, Seq<char>)> {
    match first_pair(s, '-', '-') {
        Some(i) => Some((s.take(i), s.skip(i + 2))),
        None => None,
    }
}

proof fn lemma_first_pair_in(s: Seq<char>)
    ensures
        first_pair(s, '-', '-') is Some ==> 0 <= first_pair(s, '-', '-')->Some_0 && first_pair(s, '-', '-')->Some_0 + 2 <= s.len(),
    decreases s.len(),
{
    if s.len() >= 2 {
        lemma_first_pair_in(s.drop_last());
    }
}

/// Splits a name at its first `--`.
fn split_order(s: &[char]) -> (r: Option<(Vec<char>, Vec<char>)>)
    ensures
        match split_stem(s@) {
            Some((a, b)) => r matches Some((x, y)) && x@ == a && y@ == b,
            None => r is None,
        },
{
    let n = s.len();
    proof {
        lemma_first_pair_in(s@);
    }
    match find_pair(s, '-', '-') {
        Some(i) => Some((crate::text::slice_vec(s, 0, i), crate::text::slice_vec(s, i + 2, n))),
        None => None,
    }
}

/// The order of an entry: plain digits, or inside a book `a<N>` for an
/// appendix.
pub open spec fn entry_order(token: Seq<char>, in_book: bool) -> Option<(bool, u32)> {
    if in_book {
        book_order(token)
    } else {
        match parses_u32(token) {
            Some(n) => Some((false, n)),
            None => None,
        }
    }
}

/// The number segment of an order: letters for an appendix, digits
/// otherwise.
pub open spec fn order_segment(appendix: bool, order: u32) -> Seq<char> {
    if appendix { letters(order as nat) } else { decimal(order as nat) }
}

/// Parses an entry's order token.
fn order_of(token: &[char], in_book: bool, what: &str, entry_name: &str) -> (r: Result<(bool, u32), String>)
    ensures
        match entry_order(token@, in_book) {
            Some(v) => r == Ok::<(bool, u32), String>(v),
            None => r is Err,
        },
{
    let t = string_of(token);
    if in_book {
        match parse_book_order(t.as_str(), what, entry_name) {
            Ok(v) => Ok(v),
            Err(e) => Err(e),
        }
    } else {
        match crate::text::parse_u32(token) {
            Some(n) => Ok((false, n)),
            None => {
                let mut m = owned(what);
                push_str(&mut m, " '");
                push_str(&mut m, entry_name);
                push_str(&mut m, "' has a non-numeric order prefix");
                Err(m)
            },
        }
    }
}

/// The text of a number segment.
fn segment_text(appendix: bool, order: u32) -> (r: String)
    ensures
        r@ == order_segment(appendix, order),
{
    if appendix {
        appendix_letters(order)
    } else {
        let mut s = String::new();
        push_decimal(&mut s, order);
        s
    }
}

/// Whether an article loads: its stem is `<order>--<slug>` with a valid
/// order and slug, its frontmatter parsed, and any `updated:` date is ISO.
pub open spec fn article_ok(stem: Seq<char>, in_book: bool, front: Result<ArticleFront, String>) -> bool {
    match split_stem(stem) {
        Some((token, slug)) => {
            &&& entry_order(token, in_book) is Some
            &&& valid_slug(slug)
            &&& front matches Ok(f) && (f.updated matches Some(d) ==> valid_date(d@))
                && (f.kind is None <==> in_book)
        },
        None => false,
    }
}

/// The article an entry loads as: its URL under the parent, its number
/// inside a book, its frontmatter, and its reading time (the
/// frontmatter's, else from the body's word count).
pub open spec fn article_loaded(
    a: Article,
    stem: Seq<char>,
    parent: Seq<char>,
    prefix: Option<Seq<char>>,
    f: ArticleFront,
    body: Seq<char>,
    source_dir: Seq<char>,
    source_file: Seq<char>,
) -> bool {
    let (token, slug) = split_stem(stem)->Some_0;
    let (appendix, order) = entry_order(token, prefix is Some)->Some_0;
    &&& a.slug@ == slug
    &&& a.path@ == child_path(parent, slug)
    &&& a.order == order
    &&& a.appendix == appendix
    &&& match prefix {
        Some(p) => a.number matches Some(n) && n@ == p + order_segment(appendix, order),
        None => a.number is None,
    }
    &&& a.title == f.title
    &&& a.kind == f.kind
    &&& a.description == f.description
    &&& a.related == f.related
    &&& a.inline_refs == f.inline_ref
    &&& a.updated == f.updated
    &&& a.reading_minutes == match f.reading_minutes { Some(m) => m, None => minutes_for(body) }
    &&& a.original is None
    &&& a.body@ == body
    &&& a.source_dir@ == source_dir
    &&& a.source_file@ == source_file
}

/// Loads an `<order>--<slug>.md` article from its stem, parent URL,
/// frontmatter and body. `number_prefix` is the dotted section prefix
/// inside a book (its presence marks a book article); topic articles
/// pass None.
pub fn article_from(
    stem: &str,
    parent_path: &str,
    number_prefix: Option<&str>,
    front: Result<ArticleFront, String>,
    body: String,
    source_dir: String,
    source_file: String,
) -> (r: Result<Article, String>)
    ensures
        r is Ok <==> article_ok(stem@, number_prefix is Some, front),
        r matches Ok(a) ==> (front matches Ok(f) && article_loaded(a, stem@, parent_path@,
            match number_prefix { Some(p) => Some(p@), None => None }, f, body@, source_dir@, source_file@)),
        r matches Ok(a) ==> (a.kind is Some <==> number_prefix is None),
{
    let s = chars_of(stem);
    let mut entry_name = owned(stem);
    push_str(&mut entry_name, ".md");
    let (token, slug_chars) = match split_order(s.as_slice()) {
        Some(parts) => parts,
        None => {
            let mut m = owned("article '");
            push_str(&mut m, entry_name.as_str());
            push_str(&mut m, "' is missing its '<order>--' prefix");
            return Err(m);
        },
    };
    let (appendix, order) = match order_of(token.as_slice(), number_prefix.is_some(), "article", entry_name.as_str()) {
        Ok(v) => v,
        Err(e) => return Err(e),
    };
    let slug = string_of(slug_chars.as_slice());
    match validate_slug(slug.as_str()) {
        Ok(()) => {},
        Err(e) => {
            let mut m = owned("in article '");
            push_str(&mut m, entry_name.as_str());
            push_str(&mut m, "': ");
            push_str(&mut m, e.as_str());
            return Err(m);
        },
    }
    let f = match front {
        Ok(f) => f,
        Err(e) => {
            let mut m = owned("loading article '");
            push_str(&mut m, slug.as_str());
            push_str(&mut m, "': ");
            push_str(&mut m, e.as_str());
            return Err(m);
        },
    };
    if f.kind.is_none() != number_prefix.is_some() {
        let mut m = owned("loading article '");
        push_str(&mut m, slug.as_str());
        if number_prefix.is_some() {
            push_str(&mut m, "': a book article takes no 'type'");
        } else {
            push_str(&mut m, "': missing field 'type'");
        }
        return Err(m);
    }
    let ArticleFront { title, kind, description, related, inline_ref, updated, reading_minutes: minutes } = f;
    match &updated {
        Some(d) => match validate_date(d.as_str()) {
            Ok(()) => {},
            Err(e) => {
                let mut m = owned("in article '");
                push_str(&mut m, entry_name.as_str());
                push_str(&mut m, "': ");
                push_str(&mut m, e.as_str());
                return Err(m);
            },
        },
        None => {},
    }
    let minutes = match minutes {
        Some(m) => m,
        None => reading_minutes(body.as_str()),
    };
    let number = match number_prefix {
        Some(p) => {
            let mut n = owned(p);
            let seg = segment_text(appendix, order);
            push_str(&mut n, seg.as_str());
            Some(n)
        },
        None => None,
    };
    let path = {
        let mut p = owned(parent_path);
        p.push('/');
        push_str(&mut p, slug.as_str());
        assert(p@ =~= child_path(parent_path@, slug@));
        p
    };
    Ok(Article {
        slug,
        path,
        order,
        title,
        number,
        appendix,
        kind,
        description,
        related,
        inline_refs: inline_ref,
        updated,
        reading_minutes: minutes,
        original: None,
        body,
        source_dir,
        source_file,
    })
}

/// Whether a link loads: `<order>--<slug>` with a valid order and slug,
/// its file parsed, and its target a `~` reference.
pub open spec fn link_ok(stem: Seq<char>, in_book: bool, config: Result<LinkConfig, String>) -> bool {
    match split_stem(stem) {
        Some((token, slug)) => {
            &&& entry_order(token, in_book) is Some
            &&& valid_slug(slug)
            &&& config matches Ok(c) && c.target@.len() > 0 && c.target@[0] == '~'
        },
        None => false,
    }
}

/// The stub a `.link` file loads as; its title defaults to the slug's.
pub open spec fn link_loaded(l: LinkStub, stem: Seq<char>, in_book: bool, c: LinkConfig) -> bool {
    let (token, slug) = split_stem(stem)->Some_0;
    let (appendix, order) = entry_order(token, in_book)->Some_0;
    &&& l.slug@ == slug
    &&& l.order == order
    &&& l.appendix == appendix
    &&& l.title@ == match c.title { Some(t) => t@, None => slug_title(slug) }
    &&& l.target == c.target
}

/// Loads an `<order>--<slug>.link` reference; inside a book the order
/// may be an appendix marker.
pub fn link_stub_from(stem: &str, in_book: bool, config: Result<LinkConfig, String>) -> (r: Result<LinkStub, String>)
    ensures
        r is Ok <==> link_ok(stem@, in_book, config),
        r matches Ok(l) ==> (config matches Ok(c) && link_loaded(l, stem@, in_book, c)),
{
    let s = chars_of(stem);
    let mut entry_name = owned(stem);
    push_str(&mut entry_name, ".link");
    let (token, slug_chars) = match split_order(s.as_slice()) {
        Some(parts) => parts,
        None => {
            let mut m = owned("link '");
            push_str(&mut m, entry_name.as_str());
            push_str(&mut m, "' is missing its '<order>--' prefix");
            return Err(m);
        },
    };
    let (appendix, order) = match order_of(token.as_slice(), in_book, "link", entry_name.as_str()) {
        Ok(v) => v,
        Err(e) => return Err(e),
    };
    let slug = string_of(slug_chars.as_slice());
    match validate_slug(slug.as_str()) {
        Ok(()) => {},
        Err(e) => {
            let mut m = owned("in link '");
            push_str(&mut m, entry_name.as_str());
            push_str(&mut m, "': ");
            push_str(&mut m, e.as_str());
            return Err(m);
        },
    }
    let c = match config {
        Ok(c) => c,
        Err(e) => return Err(e),
    };
    let LinkConfig { target, title } = c;
    let t = chars_of(target.as_str());
    if !(t.len() > 0 && t[0] == '~') {
        let mut m = owned("link '");
        push_str(&mut m, entry_name.as_str());
        push_str(&mut m, "' target '");
        push_str(&mut m, target.as_str());
        push_str(&mut m, "' is not a ~reference");
        return Err(m);
    }
    let title = match title {
        Some(t) => t,
        None => title_from_slug(slug.as_str()),
    };
    Ok(LinkStub { slug, order, appendix, title, target })
}


/// What an entry of a topic, subfolder, book or chapter directory is.
pub enum DirEntry {
    /// A dot-entry or the directory's own `trail.toml`.
    Skip,
    /// A topic subfolder, `<order>--<slug>`.
    Folder { order: u32, slug: String },
    /// A book chapter, `<order>--<slug>` with its section number.
    Chapter { order: u32, appendix: bool, slug: String, number: String },
    /// A co-located image.
    Image(ImageAsset),
    /// A `.link` reference, by stem.
    Link { stem: String },
    /// A `.md` article, by stem.
    Article { stem: String },
}

/// Entries every directory passes over: dot-entries and `trail.toml`.
pub open spec fn skipped(name: Seq<char>) -> bool {
    (name.len() > 0 && name[0] == '.') || name == "trail.toml"@
}

/// What a file entry is: an image, a link, an article, or an error.
pub open spec fn file_classified(name: Seq<char>, r: Result<DirEntry, String>, parent: Seq<char>, source: Seq<char>) -> bool {
    match image_name(name) {
        None => r is Err,
        Some(true) => (r matches Ok(DirEntry::Image(a)) && a.url@ == child_path(parent, name) && a.source@ == source),
        Some(false) => if has_suffix(name, ".link"@) {
            (r matches Ok(DirEntry::Link { stem }) && stem@ == name.take(name.len() - 5))
        } else if has_suffix(name, ".md"@) {
            (r matches Ok(DirEntry::Article { stem }) && stem@ == name.take(name.len() - 3))
        } else {
            r is Err
        },
    }
}

/// Classifies a file entry.
fn file_entry(name: &str, source: String, parent_path: &str, place: &str) -> (r: Result<DirEntry, String>)
    ensures
        file_classified(name@, r, parent_path@, source@),
{
    proof {
        reveal_strlit(".link");
        reveal_strlit(".md");
    }
    match image_asset(name, source, parent_path) {
        Err(e) => return Err(e),
        Ok(Some(a)) => {
            assert(a.url@ =~= child_path(parent_path@, name@));
            return Ok(DirEntry::Image(a));
        },
        Ok(None) => {},
    }
    let c = chars_of(name);
    let n = c.len();
    if crate::text::chars_end_with(c.as_slice(), ".link") {
        return Ok(DirEntry::Link { stem: string_of(crate::text::slice_vec(c.as_slice(), 0, n - 5).as_slice()) });
    }
    if crate::text::chars_end_with(c.as_slice(), ".md") {
        return Ok(DirEntry::Article { stem: string_of(crate::text::slice_vec(c.as_slice(), 0, n - 3).as_slice()) });
    }
    let mut m = owned("unexpected file '");
    push_str(&mut m, name);
    push_str(&mut m, "' in ");
    push_str(&mut m, place);
    push_str(&mut m, ": articles are *.md files (or *.link references)");
    Err(m)
}

/// Whether a name is the dot-entry or `trail.toml` a directory skips.
fn is_skipped(name: &str) -> (r: bool)
    ensures
        r == skipped(name@),
{
    let c = chars_of(name);
    (c.len() > 0 && c[0] == '.') || crate::text::chars_are(c.as_slice(), "trail.toml")
}

/// The error for a directory name with a grouping type suffix where only
/// plain `<order>--<slug>` directories belong.
fn typed_dir_message(name: &str, c: &[char], dot: usize, place: &str, expected: &str) -> (r: String)
    requires
        dot < c@.len(),
    ensures
        r@ == "unexpected grouping type '."@ + c@.skip(dot + 1) + "' on '"@ + name@ + "' in "@ + place@ + ": "@
            + expected@,
{
    let n = c.len();
    let mut m = owned("unexpected grouping type '.");
    let suffix = crate::text::slice_vec(c, dot + 1, n);
    assert(suffix@ =~= c@.skip(dot + 1));
    push_str(&mut m, string_of(suffix.as_slice()).as_str());
    push_str(&mut m, "' on '");
    push_str(&mut m, name);
    push_str(&mut m, "' in ");
    push_str(&mut m, place);
    push_str(&mut m, ": ");
    push_str(&mut m, expected);
    m
}

/// Whether a topic subfolder's name is a valid `<order>--<slug>`.
pub open spec fn subfolder_name_ok(name: Seq<char>) -> bool {
    &&& crate::text::last_index(name, '.') is None
    &&& split_stem(name) matches Some((t, s)) && parses_u32(t) is Some && valid_slug(s)
}

/// Classifies an entry of a topic directory.
pub fn topic_entry(name: &str, is_dir: bool, source: String, parent_path: &str) -> (r: Result<DirEntry, String>)
    ensures
        skipped(name@) ==> r matches Ok(DirEntry::Skip),
        !skipped(name@) && is_dir ==> (r is Ok <==> subfolder_name_ok(name@)),
        !skipped(name@) && is_dir && r is Ok ==> (r matches Ok(DirEntry::Folder { order, slug })
            && split_stem(name@) matches Some((t, s)) && parses_u32(t) == Some(order) && slug@ == s),
        !skipped(name@) && is_dir && crate::text::last_index(name@, '.') is Some ==> (r matches Err(m)
            && m@ == "unexpected grouping type '."@ + name@.skip(crate::text::last_index(name@, '.')->Some_0 + 1)
                + "' on '"@ + name@ + "' in a topic: subfolders are plain '<order>--<slug>' directories"@),
        !skipped(name@) && !is_dir ==> file_classified(name@, r, parent_path@, source@),
{
    if is_skipped(name) {
        return Ok(DirEntry::Skip);
    }
    if !is_dir {
        return file_entry(name, source, parent_path, "a topic");
    }
    let c = chars_of(name);
    proof {
        crate::text::lemma_last_index_bounds(c@, '.');
    }
    match crate::text::find_last(c.as_slice(), '.') {
        Some(dot) => {
            let m = typed_dir_message(name, c.as_slice(), dot, "a topic", "subfolders are plain '<order>--<slug>' directories");
            proof {
                reveal_strlit("a topic");
                reveal_strlit("subfolders are plain '<order>--<slug>' directories");
                reveal_strlit("' in ");
                reveal_strlit(": ");
                reveal_strlit("' in a topic: subfolders are plain '<order>--<slug>' directories");
                assert(m@ =~= "unexpected grouping type '."@ + name@.skip(crate::text::last_index(name@, '.')->Some_0 + 1)
                    + "' on '"@ + name@ + "' in a topic: subfolders are plain '<order>--<slug>' directories"@);
            }
            return Err(m);
        },
        None => {},
    }
    let (token, slug_chars) = match split_order(c.as_slice()) {
        Some(parts) => parts,
        None => {
            let mut m = owned("subfolder '");
            push_str(&mut m, name);
            push_str(&mut m, "' is missing its '<order>--' prefix");
            return Err(m);
        },
    };
    let order = match crate::text::parse_u32(token.as_slice()) {
        Some(n) => n,
        None => {
            let mut m = owned("subfolder '");
            push_str(&mut m, name);
            push_str(&mut m, "' has a non-numeric order prefix");
            return Err(m);
        },
    };
    let slug = string_of(slug_chars.as_slice());
    match validate_slug(slug.as_str()) {
        Ok(()) => Ok(DirEntry::Folder { order, slug }),
        Err(e) => {
            let mut m = owned("in subfolder '");
            push_str(&mut m, name);
            push_str(&mut m, "': ");
            push_str(&mut m, e.as_str());
            Err(m)
        },
    }
}

/// Classifies an entry of a topic subfolder: only files belong there.
pub fn folder_entry(name: &str, is_dir: bool, source: String, parent_path: &str) -> (r: Result<DirEntry, String>)
    ensures
        skipped(name@) ==> r matches Ok(DirEntry::Skip),
        !skipped(name@) && is_dir ==> r is Err,
        !skipped(name@) && !is_dir ==> file_classified(name@, r, parent_path@, source@),
{
    if is_skipped(name) {
        return Ok(DirEntry::Skip);
    }
    if is_dir {
        let mut m = owned("unexpected directory '");
        push_str(&mut m, name);
        push_str(&mut m, "' in a topic subfolder: subfolders hold only articles");
        return Err(m);
    }
    file_entry(name, source, parent_path, "a topic subfolder")
}

/// Whether a chapter directory's name is a valid book `<order>--<slug>`.
pub open spec fn chapter_name_ok(name: Seq<char>) -> bool {
    &&& crate::text::last_index(name, '.') is None
    &&& split_stem(name) matches Some((t, s)) && book_order(t) is Some && valid_slug(s)
}

/// Classifies an entry of a book or chapter directory; `number_prefix`
/// is the level's dotted section prefix, `place` names the level.
pub fn book_entry(name: &str, is_dir: bool, source: String, parent_path: &str, number_prefix: &str, place: &str)
    -> (r: Result<DirEntry, String>)
    ensures
        skipped(name@) ==> r matches Ok(DirEntry::Skip),
        !skipped(name@) && is_dir ==> (r is Ok <==> chapter_name_ok(name@)),
        !skipped(name@) && is_dir && r is Ok ==> (r matches Ok(DirEntry::Chapter { order, appendix, slug, number })
            && split_stem(name@) matches Some((t, s)) && book_order(t) == Some((appendix, order)) && slug@ == s
            && number@ == number_prefix@ + order_segment(appendix, order)),
        !skipped(name@) && !is_dir ==> file_classified(name@, r, parent_path@, source@),
{
    if is_skipped(name) {
        return Ok(DirEntry::Skip);
    }
    if !is_dir {
        return file_entry(name, source, parent_path, place);
    }
    let c = chars_of(name);
    proof {
        crate::text::lemma_last_index_bounds(c@, '.');
    }
    match crate::text::find_last(c.as_slice(), '.') {
        Some(dot) => {
            return Err(typed_dir_message(name, c.as_slice(), dot, place, "chapters are plain '<order>--<slug>' directories"));
        },
        None => {},
    }
    let (token, slug_chars) = match split_order(c.as_slice()) {
        Some(parts) => parts,
        None => {
            let mut m = owned("chapter '");
            push_str(&mut m, name);
            push_str(&mut m, "' is missing its '<order>--' prefix");
            return Err(m);
        },
    };
    let (appendix, order) = match order_of(token.as_slice(), true, "chapter", name) {
        Ok(v) => v,
        Err(e) => return Err(e),
    };
    let slug = string_of(slug_chars.as_slice());
    match validate_slug(slug.as_str()) {
        Ok(()) => {},
        Err(e) => {
            let mut m = owned("in chapter '");
            push_str(&mut m, name);
            push_str(&mut m, "': ");
            push_str(&mut m, e.as_str());
            return Err(m);
        },
    }
    let mut number = owned(number_prefix);
    let seg = segment_text(appendix, order);
    push_str(&mut number, seg.as_str());
    Ok(DirEntry::Chapter { order, appendix, slug, number })
}

/// Classifies an entry of a product, anthology or shelf directory: a
/// grouping directory (true), an entry passed over (false), or an error
/// for any file but `trail.toml`.
pub fn grouping_entry(name: &str, is_dir: bool, place: &str) -> (r: Result<bool, String>)
    ensures
        name@.len() > 0 && name@[0] == '.' ==> r == Ok::<bool, String>(false),
        !(name@.len() > 0 && name@[0] == '.') && is_dir ==> r == Ok::<bool, String>(true),
        !(name@.len() > 0 && name@[0] == '.') && !is_dir ==> (r is Ok <==> name@ == "trail.toml"@),
        r matches Ok(b) ==> (b == (is_dir && !(name@.len() > 0 && name@[0] == '.'))),
{
    let c = chars_of(name);
    if c.len() > 0 && c[0] == '.' {
        return Ok(false);
    }
    if is_dir {
        return Ok(true);
    }
    if crate::text::chars_are(c.as_slice(), "trail.toml") {
        return Ok(false);
    }
    let mut m = owned("unexpected file '");
    push_str(&mut m, name);
    push_str(&mut m, "': only trail.toml is allowed in ");
    push_str(&mut m, place);
    Err(m)
}

/// The kinds of grouping directory.
pub enum Grouping {
    Anthology,
    Topic,
    Book,
    Shelf,
}

/// What a grouping directory's type suffix makes it; shelves cannot sit
/// inside shelves.
pub open spec fn grouping_of(kind: Seq<char>, in_shelf: bool) -> Option<Grouping> {
    if kind == "antho"@ {
        Some(Grouping::Anthology)
    } else if kind == "topic"@ {
        Some(Grouping::Topic)
    } else if kind == "book"@ {
        Some(Grouping::Book)
    } else if kind == "shelf"@ && !in_shelf {
        Some(Grouping::Shelf)
    } else {
        None
    }
}

/// Reads a grouping directory's type suffix; `place` names where it sits
/// for the error, `expected` the suffixes allowed there.
pub fn grouping_kind(kind: &str, entry_name: &str, in_shelf: bool, place: &str, expected: &str) -> (r: Result<Grouping, String>)
    ensures
        match grouping_of(kind@, in_shelf) {
            Some(g) => r == Ok::<Grouping, String>(g),
            None => r is Err,
        },
{
    let k = chars_of(kind);
    if crate::text::chars_are(k.as_slice(), "antho") {
        Ok(Grouping::Anthology)
    } else if crate::text::chars_are(k.as_slice(), "topic") {
        Ok(Grouping::Topic)
    } else if crate::text::chars_are(k.as_slice(), "book") {
        Ok(Grouping::Book)
    } else if crate::text::chars_are(k.as_slice(), "shelf") {
        if in_shelf {
            let mut m = owned("a shelf cannot contain another shelf ('");
            push_str(&mut m, entry_name);
            push_str(&mut m, "')");
            Err(m)
        } else {
            Ok(Grouping::Shelf)
        }
    } else {
        let mut m = owned("unexpected grouping type '.");
        push_str(&mut m, kind);
        push_str(&mut m, "' on '");
        push_str(&mut m, entry_name);
        push_str(&mut m, "' in ");
        push_str(&mut m, place);
        push_str(&mut m, " (expected ");
        push_str(&mut m, expected);
        push_str(&mut m, ")");
        Err(m)
    }
}


/// What a product's `trail.toml` holds.
pub struct ProductConfig {
    pub title: String,
    pub monogram: String,
    pub color: String,
    pub description: String,
    pub inline_ref: Vec<String>,
}

/// What an anthology's `trail.toml` holds.
pub struct AnthologyConfig {
    pub title: String,
    pub description: String,
    pub inline_ref: Vec<String>,
}

/// What a book's `trail.toml` holds.
pub struct BookConfig {
    pub title: String,
    pub short: Option<String>,
    pub description: String,
    pub inline_ref: Vec<String>,
}

/// What the optional `trail.toml` of a topic, shelf, subfolder or
/// chapter holds.
pub struct TitleConfig {
    pub title: Option<String>,
    pub inline_ref: Vec<String>,
}

/// The URL of a child: `parent/slug`.
pub fn child_url(parent: &str, slug: &str) -> (r: String)
    ensures
        r@ == child_path(parent@, slug@),
{
    let mut p = owned(parent);
    p.push('/');
    push_str(&mut p, slug);
    assert(p@ =~= child_path(parent@, slug@));
    p
}

/// A grouping's title and inline-ref claims: the config's title, else
/// the slug's; no config means no claims.
pub fn grouping_title(config: Option<TitleConfig>, slug: &str) -> (r: (String, Vec<String>))
    ensures
        r.0@ == match config { Some(c) => match c.title { Some(t) => t@, None => slug_title(slug@) }, None => slug_title(slug@) },
        match config { Some(c) => r.1 == c.inline_ref, None => r.1@.len() == 0 },
{
    match config {
        Some(c) => {
            let TitleConfig { title, inline_ref } = c;
            let t = match title {
                Some(t) => t,
                None => title_from_slug(slug),
            };
            (t, inline_ref)
        },
        None => (title_from_slug(slug), Vec::new()),
    }
}

pub open spec fn pitem_key() -> spec_fn(ProductItem) -> KeyV {
    |i: ProductItem| match i {
        ProductItem::Anthology { anthology } => (false, anthology.order, anthology.slug@),
        ProductItem::Topic { topic } => (false, topic.order, topic.slug@),
        ProductItem::Book { book } => (false, book.order, book.slug@),
    }
}

pub open spec fn pchild_key() -> spec_fn(ProductChild) -> KeyV {
    |c: ProductChild| match c {
        ProductChild::Item(i) => (pitem_key())(i),
        ProductChild::Shelf(s) => (false, s.order, s.slug@),
    }
}

pub open spec fn aitem_key() -> spec_fn(AnthologyItem) -> KeyV {
    |i: AnthologyItem| match i {
        AnthologyItem::Anthology { anthology } => (false, anthology.order, anthology.slug@),
        AnthologyItem::Topic { topic } => (false, topic.order, topic.slug@),
        AnthologyItem::Book { book } => (false, book.order, book.slug@),
    }
}

pub open spec fn achild_key() -> spec_fn(AnthologyChild) -> KeyV {
    |c: AnthologyChild| match c {
        AnthologyChild::Item(i) => (aitem_key())(i),
        AnthologyChild::Shelf(s) => (false, s.order, s.slug@),
    }
}

fn pitem_sort_key(i: &ProductItem) -> (k: SortKey)
    ensures
        sort_key_view(k) == (pitem_key())(*i),
{
    match i {
        ProductItem::Anthology { anthology } => SortKey { appendix: false, order: anthology.order, slug: anthology.slug.clone() },
        ProductItem::Topic { topic } => SortKey { appendix: false, order: topic.order, slug: topic.slug.clone() },
        ProductItem::Book { book } => SortKey { appendix: false, order: book.order, slug: book.slug.clone() },
    }
}

fn aitem_sort_key(i: &AnthologyItem) -> (k: SortKey)
    ensures
        sort_key_view(k) == (aitem_key())(*i),
{
    match i {
        AnthologyItem::Anthology { anthology } => SortKey { appendix: false, order: anthology.order, slug: anthology.slug.clone() },
        AnthologyItem::Topic { topic } => SortKey { appendix: false, order: topic.order, slug: topic.slug.clone() },
        AnthologyItem::Book { book } => SortKey { appendix: false, order: book.order, slug: book.slug.clone() },
    }
}

fn pitems_sort_keys(v: &Vec<ProductItem>) -> (r: Vec<SortKey>)
    ensures
        r@.len() == v@.len(),
        forall|i: int| 0 <= i < v@.len() ==> sort_key_view(#[trigger] r@[i]) == (pitem_key())(v@[i]),
{
    let mut r: Vec<SortKey> = Vec::new();
    for i in 0..v.len()
        invariant
            r@.len() == i,
            i <= v@.len(),
            forall|j: int| 0 <= j < i ==> sort_key_view(#[trigger] r@[j]) == (pitem_key())(v@[j]),
    {
        r.push(pitem_sort_key(&v[i]));
    }
    r
}

fn aitems_sort_keys(v: &Vec<AnthologyItem>) -> (r: Vec<SortKey>)
    ensures
        r@.len() == v@.len(),
        forall|i: int| 0 <= i < v@.len() ==> sort_key_view(#[trigger] r@[i]) == (aitem_key())(v@[i]),
{
    let mut r: Vec<SortKey> = Vec::new();
    for i in 0..v.len()
        invariant
            r@.len() == i,
            i <= v@.len(),
            forall|j: int| 0 <= j < i ==> sort_key_view(#[trigger] r@[j]) == (aitem_key())(v@[j]),
    {
        r.push(aitem_sort_key(&v[i]));
    }
    r
}

fn pchildren_sort_keys(v: &Vec<ProductChild>) -> (r: Vec<SortKey>)
    ensures
        r@.len() == v@.len(),
        forall|i: int| 0 <= i < v@.len() ==> sort_key_view(#[trigger] r@[i]) == (pchild_key())(v@[i]),
{
    let mut r: Vec<SortKey> = Vec::new();
    for i in 0..v.len()
        invariant
            r@.len() == i,
            i <= v@.len(),
            forall|j: int| 0 <= j < i ==> sort_key_view(#[trigger] r@[j]) == (pchild_key())(v@[j]),
    {
        let k = match &v[i] {
            ProductChild::Item(item) => pitem_sort_key(item),
            ProductChild::Shelf(s) => SortKey { appendix: false, order: s.order, slug: s.slug.clone() },
        };
        r.push(k);
    }
    r
}

fn achildren_sort_keys(v: &Vec<AnthologyChild>) -> (r: Vec<SortKey>)
    ensures
        r@.len() == v@.len(),
        forall|i: int| 0 <= i < v@.len() ==> sort_key_view(#[trigger] r@[i]) == (achild_key())(v@[i]),
{
    let mut r: Vec<SortKey> = Vec::new();
    for i in 0..v.len()
        invariant
            r@.len() == i,
            i <= v@.len(),
            forall|j: int| 0 <= j < i ==> sort_key_view(#[trigger] r@[j]) == (achild_key())(v@[j]),
    {
        let k = match &v[i] {
            AnthologyChild::Item(item) => aitem_sort_key(item),
            AnthologyChild::Shelf(s) => SortKey { appendix: false, order: s.order, slug: s.slug.clone() },
        };
        r.push(k);
    }
    r
}

/// The slugs of a run of product items.
pub open spec fn pitem_slugs(items: Seq<ProductItem>) -> Seq<Seq<char>> {
    items.map_values(|i: ProductItem| (pitem_key())(i).2)
}

/// The slugs of a run of anthology items.
pub open spec fn aitem_slugs(items: Seq<AnthologyItem>) -> Seq<Seq<char>> {
    items.map_values(|i: AnthologyItem| (aitem_key())(i).2)
}

/// The slugs of product items, as strings.
fn pitem_slug_strings(items: &Vec<&ProductItem>) -> (r: Vec<String>)
    ensures
        r@.map_values(|s: String| s@) == pitem_slugs(derefs(items@)),
{
    let mut r: Vec<String> = Vec::new();
    for i in 0..items.len()
        invariant
            r@.map_values(|s: String| s@) == pitem_slugs(derefs(items@).take(i as int)),
    {
        let k = pitem_sort_key(items[i]);
        let ghost b = r@;
        let ghost ks = k.slug@;
        r.push(k.slug);
        assert(r@.map_values(|s: String| s@) =~= b.map_values(|s: String| s@).push(ks));
        assert(derefs(items@).take(i + 1) =~= derefs(items@).take(i as int).push(*items@[i as int]));
        assert(pitem_slugs(derefs(items@).take(i + 1)) =~= pitem_slugs(derefs(items@).take(i as int)).push(ks));
    }
    assert(derefs(items@).take(items.len() as int) =~= derefs(items@));
    r
}

/// The slugs of anthology items, as strings.
fn aitem_slug_strings(items: &Vec<&AnthologyItem>) -> (r: Vec<String>)
    ensures
        r@.map_values(|s: String| s@) == aitem_slugs(derefs(items@)),
{
    let mut r: Vec<String> = Vec::new();
    for i in 0..items.len()
        invariant
            r@.map_values(|s: String| s@) == aitem_slugs(derefs(items@).take(i as int)),
    {
        let k = aitem_sort_key(items[i]);
        let ghost b = r@;
        let ghost ks = k.slug@;
        r.push(k.slug);
        assert(r@.map_values(|s: String| s@) =~= b.map_values(|s: String| s@).push(ks));
        assert(derefs(items@).take(i + 1) =~= derefs(items@).take(i as int).push(*items@[i as int]));
        assert(aitem_slugs(derefs(items@).take(i + 1)) =~= aitem_slugs(derefs(items@).take(i as int)).push(ks));
    }
    assert(derefs(items@).take(items.len() as int) =~= derefs(items@));
    r
}

/// A product's color must be `#rrggbb`.
pub fn check_product_config(config: &ProductConfig) -> (r: Result<(), String>)
    ensures
        r is Ok <==> valid_color(config.color@),
{
    validate_color(config.color.as_str())
}

/// A product's groupings load: after sorting by order and slug, no two
/// share an order or slug, and no two items (shelf contents inlined)
/// share a slug.
pub open spec fn product_ok(children: Seq<ProductChild>) -> bool {
    &&& keys_ok(sort_by_key(children.map_values(pchild_key()), id_key()))
    &&& distinct(pitem_slugs(product_items(sort_by_key(children, pchild_key()))))
}

/// Assembles a product from its slug, config and loaded groupings: its
/// URL is `/slug`, its groupings sorted, its totals not yet rolled up.
pub fn product_from(slug: &str, config: ProductConfig, children: Vec<ProductChild>) -> (r: Result<Product, String>)
    ensures
        r matches Err(m) ==> if !keys_ok(sort_by_key(children@.map_values(pchild_key()), id_key())) {
            m@ == crate::validate::duplicates_message("grouping"@, sort_by_key(children@.map_values(pchild_key()), id_key()))
        } else {
            exists|j: int| #[trigger] crate::validate::first_repeat_at(pitem_slugs(product_items(sort_by_key(children@, pchild_key()))), j)
                && m@ == crate::validate::flat_duplicate_message("grouping"@, pitem_slugs(product_items(sort_by_key(children@, pchild_key())))[j])
        },
        r is Ok <==> product_ok(children@),
        r matches Ok(p) ==> {
            &&& p.slug@ == slug@
            &&& p.path@ == seq!['/'] + slug@
            &&& p.title == config.title
            &&& p.monogram == config.monogram
            &&& p.color == config.color
            &&& p.description == config.description
            &&& p.reading_minutes == 0
            &&& p.updated is None
            &&& p.inline_refs == config.inline_ref
            &&& p.children@ == sort_by_key(children@, pchild_key())
        },
{
    proof {
        reveal_strlit("");
    }
    let keys = pchildren_sort_keys(&children);
    let sorted = match sort_checked(children, &keys, Ghost(pchild_key()), "grouping", "") {
        Ok(v) => v,
        Err(m) => return Err(m),
    };
    let mut path = String::new();
    path.push('/');
    push_str(&mut path, slug);
    assert(path@ =~= seq!['/'] + slug@);
    let ProductConfig { title, monogram, color, description, inline_ref } = config;
    let p = Product {
        slug: owned(slug),
        path,
        title,
        monogram,
        color,
        description,
        reading_minutes: 0,
        updated: None,
        inline_refs: inline_ref,
        children: sorted,
    };
    let items = p.items();
    let slugs = pitem_slug_strings(&items);
    match check_flat_slugs("grouping", &slugs) {
        Ok(()) => Ok(p),
        Err(m) => Err(m),
    }
}

/// A shelf has no page, so it cannot claim inline-ref phrases.
pub fn check_shelf_config(slug: &str, inline_refs: &Vec<String>) -> (r: Result<(), String>)
    ensures
        r is Ok <==> inline_refs@.len() == 0,
{
    if inline_refs.len() == 0 {
        Ok(())
    } else {
        let mut m = owned("inline_ref on shelf '");
        push_str(&mut m, slug);
        push_str(&mut m, "': a shelf has no page — declare it on the shelf's items instead");
        Err(m)
    }
}

/// Assembles a product shelf: its items sorted by order and slug, none
/// sharing either.
pub fn product_shelf_from(name: GroupingName, title: String, items: Vec<ProductItem>) -> (r: Result<Shelf<ProductItem>, String>)
    ensures
        r is Ok <==> keys_ok(sort_by_key(items@.map_values(pitem_key()), id_key())),
        r matches Ok(s) ==> s.slug == name.slug && s.order == name.order && s.title == title
            && s.items@ == sort_by_key(items@, pitem_key()),
{
    let keys = pitems_sort_keys(&items);
    match sort_checked(items, &keys, Ghost(pitem_key()), "item", "") {
        Ok(v) => Ok(Shelf { slug: name.slug, order: name.order, title, items: v }),
        Err(m) => Err(m),
    }
}

/// Assembles an anthology shelf: its items sorted by order and slug,
/// none sharing either.
pub fn anthology_shelf_from(name: GroupingName, title: String, items: Vec<AnthologyItem>) -> (r: Result<Shelf<AnthologyItem>, String>)
    ensures
        r is Ok <==> keys_ok(sort_by_key(items@.map_values(aitem_key()), id_key())),
        r matches Ok(s) ==> s.slug == name.slug && s.order == name.order && s.title == title
            && s.items@ == sort_by_key(items@, aitem_key()),
{
    let keys = aitems_sort_keys(&items);
    match sort_checked(items, &keys, Ghost(aitem_key()), "item", "") {
        Ok(v) => Ok(Shelf { slug: name.slug, order: name.order, title, items: v }),
        Err(m) => Err(m),
    }
}

/// An anthology's groupings load: sorted, no two share an order or
/// slug, and no two items (shelf contents inlined) share a slug.
pub open spec fn anthology_ok(children: Seq<AnthologyChild>) -> bool {
    &&& keys_ok(sort_by_key(children.map_values(achild_key()), id_key()))
    &&& distinct(aitem_slugs(anthology_items(sort_by_key(children, achild_key()))))
}

/// Assembles an anthology under its parent's URL.
pub fn anthology_from(name: GroupingName, config: AnthologyConfig, parent_path: &str, children: Vec<AnthologyChild>)
    -> (r: Result<Anthology, String>)
    ensures
        r is Ok <==> anthology_ok(children@),
        r matches Ok(a) ==> {
            &&& a.slug == name.slug
            &&& a.path@ == child_path(parent_path@, name.slug@)
            &&& a.order == name.order
            &&& a.title == config.title
            &&& a.description == config.description
            &&& a.reading_minutes == 0
            &&& a.updated is None
            &&& a.inline_refs == config.inline_ref
            &&& a.children@ == sort_by_key(children@, achild_key())
        },
{
    let keys = achildren_sort_keys(&children);
    let sorted = match sort_checked(children, &keys, Ghost(achild_key()), "grouping", "") {
        Ok(v) => v,
        Err(m) => return Err(m),
    };
    let path = child_url(parent_path, name.slug.as_str());
    let AnthologyConfig { title, description, inline_ref } = config;
    let a = Anthology {
        slug: name.slug,
        path,
        order: name.order,
        title,
        description,
        reading_minutes: 0,
        updated: None,
        inline_refs: inline_ref,
        children: sorted,
    };
    let items = a.items();
    let slugs = aitem_slug_strings(&items);
    match check_flat_slugs("item", &slugs) {
        Ok(()) => Ok(a),
        Err(m) => Err(m),
    }
}

/// Assembles a topic under its parent's URL: its articles and subfolders
/// sorted by order and slug, none sharing either; its stubs held for
/// resolution.
pub fn topic_from(name: GroupingName, title: String, inline_refs: Vec<String>, parent_path: &str, children: Vec<TopicChild>, links: Vec<LinkStub>)
    -> (r: Result<Topic, String>)
    ensures
        r matches Err(m) ==> m@ == crate::validate::duplicates_message("item"@, sort_by_key(children@.map_values(child_key()), id_key())),
        r is Ok <==> keys_ok(sort_by_key(children@.map_values(child_key()), id_key())),
        r matches Ok(t) ==> {
            &&& t.slug == name.slug
            &&& t.path@ == child_path(parent_path@, name.slug@)
            &&& t.order == name.order
            &&& t.title == title
            &&& t.reading_minutes == 0
            &&& t.updated is None
            &&& t.inline_refs == inline_refs
            &&& t.children@ == sort_by_key(children@, child_key())
            &&& t.links == links
        },
{
    proof {
        reveal_strlit("");
    }
    let keys = child_sort_keys(&children);
    let sorted = match sort_checked(children, &keys, Ghost(child_key()), "item", "") {
        Ok(v) => v,
        Err(m) => return Err(m),
    };
    let path = child_url(parent_path, name.slug.as_str());
    Ok(Topic {
        slug: name.slug,
        path,
        order: name.order,
        title,
        reading_minutes: 0,
        updated: None,
        inline_refs,
        children: sorted,
        links,
    })
}

/// Assembles a topic subfolder: its articles sorted by order and slug,
/// none sharing either; its entry the first article.
pub fn folder_from(order: u32, slug: String, title: String, inline_refs: Vec<String>, parent_path: &str, articles: Vec<Article>, links: Vec<LinkStub>)
    -> (r: Result<TopicFolder, String>)
    ensures
        r matches Err(m) ==> m@ == crate::validate::duplicates_message("article"@, sort_by_key(articles@.map_values(article_key()), id_key())),
        r is Ok <==> keys_ok(sort_by_key(articles@.map_values(article_key()), id_key())),
        r matches Ok(f) ==> {
            &&& f.slug == slug
            &&& f.path@ == child_path(parent_path@, slug@)
            &&& f.order == order
            &&& f.title == title
            &&& f.reading_minutes == 0
            &&& f.updated is None
            &&& f.inline_refs == inline_refs
            &&& f.articles@ == sort_by_key(articles@, article_key())
            &&& crate::linking::entry_is_first(f.entry, f.articles@)
            &&& f.links == links
        },
{
    proof {
        reveal_strlit("");
    }
    let keys = article_sort_keys(&articles);
    let sorted = match sort_checked(articles, &keys, Ghost(article_key()), "article", "") {
        Ok(v) => v,
        Err(m) => return Err(m),
    };
    let path = child_url(parent_path, slug.as_str());
    let entry = if sorted.len() > 0 { Some(sorted[0].path.clone()) } else { None };
    Ok(TopicFolder {
        slug,
        path,
        order,
        title,
        entry,
        reading_minutes: 0,
        updated: None,
        inline_refs,
        articles: sorted,
        links,
    })
}

/// Sorts a book level's children (appendices after numbered entries)
/// and checks their order labels and slugs.
pub fn book_children_from(children: Vec<BookChild>) -> (r: Result<Vec<BookChild>, String>)
    ensures
        r matches Err(m) ==> m@ == crate::validate::duplicates_message("item"@, sort_by_key(children@.map_values(book_key()), id_key())),
        r is Ok <==> keys_ok(sort_by_key(children@.map_values(book_key()), id_key())),
        r matches Ok(v) ==> v@ == sort_by_key(children@, book_key()),
{
    proof {
        reveal_strlit("");
    }
    let keys = book_sort_keys(&children);
    sort_checked(children, &keys, Ghost(book_key()), "item", "")
}

/// Assembles a chapter from its sorted children: its entry is its first
/// child's (empty while only stubs fill it); with neither children nor
/// stubs it is an error.
pub fn chapter_from(
    order: u32,
    appendix: bool,
    slug: String,
    parent_path: &str,
    number: String,
    title: String,
    inline_refs: Vec<String>,
    children: Vec<BookChild>,
    links: Vec<LinkStub>,
) -> (r: Result<Chapter, String>)
    ensures
        r is Ok <==> children@.len() > 0 || links@.len() > 0,
        r matches Ok(c) ==> {
            &&& c.slug == slug
            &&& c.path@ == child_path(parent_path@, slug@)
            &&& c.order == order
            &&& c.number == number
            &&& c.appendix == appendix
            &&& c.title == title
            &&& c.entry@ == if children@.len() > 0 { crate::linking::first_entry(children@[0]) } else { Seq::empty() }
            &&& c.reading_minutes == 0
            &&& c.updated is None
            &&& c.inline_refs == inline_refs
            &&& c.children == children
            &&& c.links == links
        },
{
    let entry = if children.len() > 0 {
        match &children[0] {
            BookChild::Article { article } => article.path.clone(),
            BookChild::Chapter { chapter } => chapter.entry.clone(),
        }
    } else if links.len() > 0 {
        String::new()
    } else {
        let mut m = owned("chapter '");
        push_str(&mut m, slug.as_str());
        push_str(&mut m, "' contains no articles");
        return Err(m);
    };
    let path = child_url(parent_path, slug.as_str());
    Ok(Chapter {
        slug,
        path,
        order,
        number,
        appendix,
        title,
        entry,
        reading_minutes: 0,
        updated: None,
        inline_refs,
        children,
        links,
    })
}

/// Assembles a book under its parent's URL from its sorted children.
pub fn book_from(name: GroupingName, config: BookConfig, parent_path: &str, children: Vec<BookChild>, links: Vec<LinkStub>) -> (r: Book)
    ensures
        r.slug == name.slug,
        r.path@ == child_path(parent_path@, name.slug@),
        r.order == name.order,
        r.title == config.title,
        r.short == config.short,
        r.description == config.description,
        r.reading_minutes == 0,
        r.updated is None,
        r.inline_refs == config.inline_ref,
        r.children == children,
        r.links == links,
{
    let path = child_url(parent_path, name.slug.as_str());
    let BookConfig { title, short, description, inline_ref } = config;
    Book {
        slug: name.slug,
        path,
        order: name.order,
        title,
        short,
        description,
        reading_minutes: 0,
        updated: None,
        inline_refs: inline_ref,
        children,
        links,
    }
}


/// Splits an article file into its YAML frontmatter (between `---`
/// lines) and its body, leading whitespace trimmed; `file` names the
/// file in the errors.
pub fn split_frontmatter(text: &str, file: &str) -> (r: Result<(String, String), String>)
    ensures
        !has_prefix(text@, "---\n"@) ==> r is Err,
        has_prefix(text@, "---\n"@) ==> match find_from(text@.skip(4), "\n---\n"@, 0) {
            Some(i) => (r matches Ok((f, b)) && f@ == text@.skip(4).take(i)
                && b@ == trim_start(text@.skip(4).skip(i + 5))),
            None => r is Err,
        },
{
    proof {
        reveal_strlit("---\n");
        reveal_strlit("\n---\n");
    }
    let t = chars_of(text);
    if !crate::text::chars_start_with(t.as_slice(), "---\n") {
        let mut m = owned(file);
        push_str(&mut m, " has no frontmatter (must start with '---')");
        return Err(m);
    }
    let n = t.len();
    let rest = crate::text::slice_vec(t.as_slice(), 4, n);
    assert(rest@ =~= text@.skip(4));
    let sep = chars_of("\n---\n");
    proof {
        lemma_find_from_bounds(rest@, sep@, 0);
    }
    match find_sub(rest.as_slice(), sep.as_slice()) {
        None => {
            let mut m = owned(file);
            push_str(&mut m, " has unterminated frontmatter");
            Err(m)
        },
        Some(i) => {
            let rn = rest.len();
            let front = string_of(crate::text::slice_vec(rest.as_slice(), 0, i).as_slice());
            let mut a = i + 5;
            assert(rest@.skip(a as int) =~= rest@.subrange(a as int, rn as int));
            while a < rn && crate::text::char_is_space(rest[a])
                invariant
                    i + 5 <= a <= rn,
                    rn == rest@.len(),
                    trim_start(rest@.skip(i + 5)) == trim_start(rest@.skip(a as int)),
                decreases rn - a,
            {
                assert(rest@.skip(a as int).drop_first() =~= rest@.skip(a + 1));
                a = a + 1;
            }
            let body = string_of(crate::text::slice_vec(rest.as_slice(), a, rn).as_slice());
            assert(rest@.subrange(a as int, rn as int) =~= rest@.skip(a as int));
            Ok((front, body))
        },
    }
}

/// `s` without its trailing slashes.
pub open spec fn strip_slashes(s: Seq<char>) -> Seq<char>
    decreases s.len(),
{
    if s.len() > 0 && s.last() == '/' { strip_slashes(s.drop_last()) } else { s }
}

/// Whether `pat` occurs in `s`.
pub open spec fn contains(s: Seq<char>, pat: Seq<char>) -> bool {
    find_from(s, pat, 0) is Some
}

/// A site configuration loads: its accents are `#rrggbb` (a dark accent
/// only beside a base one), and an edit-URL template has a `{path}`
/// placeholder.
pub open spec fn site_config_ok(c: SiteConfig) -> bool {
    &&& c.accent matches Some(a) ==> valid_color(a@)
    &&& c.accent_dark matches Some(d) ==> c.accent is Some && valid_color(d@)
    &&& c.edit_url matches Some(t) ==> contains(t@, "{path}"@)
}

/// What refusing a root configuration answers: the first check it fails,
/// the accent, then the dark accent, then the edit URL.
pub open spec fn site_config_error(c: SiteConfig, m: Seq<char>) -> bool {
    if c.accent is Some && !valid_color(c.accent->Some_0@) {
        exists|e: Seq<char>| m == "in the site accent: "@ + e
    } else if c.accent_dark is Some && c.accent is None {
        m == "accent_dark without accent: set the base accent color too"@
    } else if c.accent_dark is Some && !valid_color(c.accent_dark->Some_0@) {
        exists|e: Seq<char>| m == "in the site accent_dark: "@ + e
    } else {
        m == "edit_url must contain a {path} placeholder for the article's source path"@
    }
}

/// Checks the root configuration; the base URL loses its trailing
/// slashes.
pub fn check_site_config(config: SiteConfig) -> (r: Result<SiteConfig, String>)
    ensures
        r is Ok <==> site_config_ok(config),
        r matches Err(m) ==> site_config_error(config, m@),
        r matches Ok(c) ==> c == (SiteConfig { url: c.url, ..config })
            && opt_view(c.url) == match config.url { Some(u) => Some(strip_slashes(u@)), None => None },
{
    match &config.accent {
        Some(a) => match validate_color(a.as_str()) {
            Ok(()) => {},
            Err(e) => {
                let mut m = owned("in the site accent: ");
                push_str(&mut m, e.as_str());
                assert(m@ =~= "in the site accent: "@ + e@);
                return Err(m);
            },
        },
        None => {},
    }
    match &config.accent_dark {
        Some(d) => {
            if config.accent.is_none() {
                return Err(owned("accent_dark without accent: set the base accent color too"));
            }
            match validate_color(d.as_str()) {
                Ok(()) => {},
                Err(e) => {
                    let mut m = owned("in the site accent_dark: ");
                    push_str(&mut m, e.as_str());
                    assert(m@ =~= "in the site accent_dark: "@ + e@);
                    return Err(m);
                },
            }
        },
        None => {},
    }
    match &config.edit_url {
        Some(t) => {
            let tc = chars_of(t.as_str());
            let p = chars_of("{path}");
            if find_sub(tc.as_slice(), p.as_slice()).is_none() {
                return Err(owned("edit_url must contain a {path} placeholder for the article's source path"));
            }
        },
        None => {},
    }
    let SiteConfig {
        sitename, title, description, url, featured, footer, accent, accent_dark, custom_css, favicon, head_html,
        edit_url, nav, passthrough, product_theming, built_by_trail,
    } = config;
    let url = match url {
        Some(u) => {
            let c = chars_of(u.as_str());
            let mut n = c.len();
            assert(c@.take(n as int) =~= c@);
            while n > 0 && c[n - 1] == '/'
                invariant
                    n <= c@.len(),
                    strip_slashes(u@) == strip_slashes(c@.take(n as int)),
                    c@ == u@,
                decreases n,
            {
                assert(c@.take(n as int).drop_last() =~= c@.take(n - 1));
                n = n - 1;
            }
            Some(string_of(crate::text::slice_vec(c.as_slice(), 0, n).as_slice()))
        },
        None => None,
    };
    Ok(SiteConfig {
        sitename, title, description, url, featured, footer, accent, accent_dark, custom_css, favicon, head_html,
        edit_url, nav, passthrough, product_theming, built_by_trail,
    })
}

/// The first component of a path, as `Path::components` reads it: `/`
/// for an absolute path, else the text before the first `/`; none for
/// an empty path.
pub open spec fn first_component(p: Seq<char>) -> Option<Seq<char>> {
    if p.len() == 0 {
        None
    } else if p[0] == '/' {
        Some(seq!['/'])
    } else {
        match crate::text::first_index(p, '/') {
            Some(k) => Some(p.take(k)),
            None => Some(p),
        }
    }
}

/// The first component of a path.
fn first_component_of(p: &str) -> (r: Option<String>)
    ensures
        match first_component(p@) {
            Some(c) => r matches Some(s) && s@ == c,
            None => r is None,
        },
{
    let c = chars_of(p);
    if c.len() == 0 {
        return None;
    }
    if c[0] == '/' {
        let mut s = String::new();
        s.push('/');
        assert(s@ =~= seq!['/']);
        return Some(s);
    }
    proof {
        crate::text::lemma_first_index_bounds(c@, '/');
    }
    match crate::text::find_first(c.as_slice(), '/') {
        Some(k) => Some(string_of(crate::text::slice_vec(c.as_slice(), 0, k).as_slice())),
        None => Some(owned(p)),
    }
}

/// The first components of a run of paths, pathless ones dropped.
pub open spec fn components_of(paths: Seq<Seq<char>>) -> Seq<Seq<char>>
    decreases paths.len(),
{
    if paths.len() == 0 {
        Seq::empty()
    } else {
        components_of(paths.drop_last()) + match first_component(paths.last()) {
            Some(c) => seq![c],
            None => Seq::empty(),
        }
    }
}

/// An optional string as a run of at most one text.
pub open spec fn opt_seq(o: Option<String>) -> Seq<Seq<char>> {
    match o {
        Some(s) => seq![s@],
        None => Seq::empty(),
    }
}

/// The paths a configuration names in the site root.
pub open spec fn configured_paths(c: SiteConfig) -> Seq<Seq<char>> {
    opt_seq(c.custom_css) + opt_seq(c.favicon) + opt_seq(c.head_html) + c.passthrough@.map_values(|s: String| s@)
}

fn push_opt(out: &mut Vec<String>, o: &Option<String>)
    ensures
        final(out)@.map_values(|s: String| s@) == old(out)@.map_values(|s: String| s@) + opt_seq(*o),
{
    let ghost b = out@.map_values(|s: String| s@);
    match o {
        Some(x) => {
            out.push(x.clone());
            assert(out@.map_values(|s: String| s@) =~= b + opt_seq(*o));
        },
        None => {
            assert(out@.map_values(|s: String| s@) =~= b + opt_seq(*o));
        },
    }
}

/// The entries of the site root the product scan passes over: the first
/// components of the configured custom CSS, favicon, head snippet and
/// passthrough paths.
pub fn keep_entries(config: &SiteConfig) -> (r: Vec<String>)
    ensures
        r@.map_values(|s: String| s@) == components_of(configured_paths(*config)),
{
    let mut paths: Vec<String> = Vec::new();
    push_opt(&mut paths, &config.custom_css);
    push_opt(&mut paths, &config.favicon);
    push_opt(&mut paths, &config.head_html);
    let ghost lead = paths@.map_values(|s: String| s@);
    for i in 0..config.passthrough.len()
        invariant
            paths@.map_values(|s: String| s@) == lead + config.passthrough@.take(i as int).map_values(|s: String| s@),
    {
        let ghost b = paths@.map_values(|s: String| s@);
        let x = config.passthrough[i].clone();
        assert(x == config.passthrough@[i as int]);
        paths.push(x);
        assert(paths@.map_values(|s: String| s@) =~= b.push(x@));
        assert(config.passthrough@.take(i + 1).map_values(|s: String| s@)
            =~= config.passthrough@.take(i as int).map_values(|s: String| s@).push(x@));
        assert(paths@.map_values(|s: String| s@) =~= lead + config.passthrough@.take(i + 1).map_values(|s: String| s@));
    }
    assert(config.passthrough@.take(config.passthrough@.len() as int) =~= config.passthrough@);
    let ghost pv = paths@.map_values(|s: String| s@);
    assert(pv =~= configured_paths(*config));
    let mut out: Vec<String> = Vec::new();
    for i in 0..paths.len()
        invariant
            pv == paths@.map_values(|s: String| s@),
            out@.map_values(|s: String| s@) == components_of(pv.take(i as int)),
    {
        assert(pv.take(i + 1).drop_last() =~= pv.take(i as int));
        assert(pv[i as int] == paths@[i as int]@);
        let ghost b = out@.map_values(|s: String| s@);
        match first_component_of(paths[i].as_str()) {
            Some(c) => {
                out.push(c);
                assert(out@.map_values(|s: String| s@) =~= components_of(pv.take(i + 1)));
            },
            None => {
                assert(out@.map_values(|s: String| s@) =~= components_of(pv.take(i + 1)));
            },
        }
    }
    assert(pv.take(pv.len() as int) =~= pv);
    out
}


/// What an entry of the site root is: passed over, a `<slug>.product`
/// directory, or an error.
pub open spec fn root_entry_of(name: Seq<char>, is_dir: bool, is_output: bool, keep: Seq<Seq<char>>) -> Option<Option<Seq<char>>> {
    if (name.len() > 0 && name[0] == '.') || is_output || keep.contains(name) {
        Some(None)
    } else if is_dir {
        if has_suffix(name, ".product"@) {
            let slug = name.take(name.len() - 8);
            if valid_slug(slug) && slug != "assets"@ && slug != "pagefind"@ { Some(Some(slug)) } else { None }
        } else {
            None
        }
    } else if name == "trail.toml"@ {
        Some(None)
    } else {
        None
    }
}

/// What refusing an entry of the site root answers.
pub open spec fn root_entry_error(name: Seq<char>, is_dir: bool, m: Seq<char>) -> bool {
    if is_dir {
        if !has_suffix(name, ".product"@) {
            m == "unexpected directory '"@ + name + "' in site root: only *.product directories are allowed"@
        } else if !valid_slug(name.take(name.len() - 8)) {
            exists|e: Seq<char>| m == "in directory '"@ + name + "': "@ + e
        } else {
            let slug = name.take(name.len() - 8);
            m == "'"@ + slug + "' is a reserved product slug (it collides with the '/"@ + slug + "' output directory)"@
        }
    } else {
        m == "unexpected file '"@ + name + "' in site root: only trail.toml is allowed"@
    }
}

/// Classifies an entry of the site root; `is_output` marks the build
/// output directory, `keep` the configured entries.
pub fn root_entry(name: &str, is_dir: bool, is_output: bool, keep: &Vec<String>) -> (r: Result<Option<String>, String>)
    ensures
        match root_entry_of(name@, is_dir, is_output, keep@.map_values(|s: String| s@)) {
            Some(Some(slug)) => r matches Ok(Some(s)) && s@ == slug,
            Some(None) => r matches Ok(None),
            None => r matches Err(m) && root_entry_error(name@, is_dir, m@),
        },
{
    proof {
        reveal_strlit(".product");
    }
    let c = chars_of(name);
    let ghost kv = keep@.map_values(|s: String| s@);
    let mut kept = false;
    for i in 0..keep.len()
        invariant
            kv == keep@.map_values(|s: String| s@),
            kept == exists|j: int| 0 <= j < i && kv[j] == name@,
    {
        assert(kv[i as int] == keep@[i as int]@);
        if crate::text::text_eq(keep[i].as_str(), name) {
            kept = true;
        }
    }
    assert(kept == kv.contains(name@));
    if (c.len() > 0 && c[0] == '.') || is_output || kept {
        return Ok(None);
    }
    if is_dir {
        if !crate::text::chars_end_with(c.as_slice(), ".product") {
            let mut m = owned("unexpected directory '");
            push_str(&mut m, name);
            push_str(&mut m, "' in site root: only *.product directories are allowed");
            assert(m@ =~= "unexpected directory '"@ + name@ + "' in site root: only *.product directories are allowed"@);
            return Err(m);
        }
        let slug = string_of(crate::text::slice_vec(c.as_slice(), 0, c.len() - 8).as_slice());
        match validate_slug(slug.as_str()) {
            Ok(()) => {},
            Err(e) => {
                let mut m = owned("in directory '");
                push_str(&mut m, name);
                push_str(&mut m, "': ");
                push_str(&mut m, e.as_str());
                assert(m@ =~= "in directory '"@ + name@ + "': "@ + e@);
                return Err(m);
            },
        }
        if crate::text::text_eq(slug.as_str(), "assets") || crate::text::text_eq(slug.as_str(), "pagefind") {
            let mut m = owned("'");
            push_str(&mut m, slug.as_str());
            push_str(&mut m, "' is a reserved product slug (it collides with the '/");
            push_str(&mut m, slug.as_str());
            push_str(&mut m, "' output directory)");
            assert(m@ =~= "'"@ + slug@ + "' is a reserved product slug (it collides with the '/"@ + slug@ + "' output directory)"@);
            return Err(m);
        }
        return Ok(Some(slug));
    }
    if crate::text::chars_are(c.as_slice(), "trail.toml") {
        return Ok(None);
    }
    let mut m = owned("unexpected file '");
    push_str(&mut m, name);
    push_str(&mut m, "' in site root: only trail.toml is allowed");
    assert(m@ =~= "unexpected file '"@ + name@ + "' in site root: only trail.toml is allowed"@);
    Err(m)
}

/// Some product has the slug.
pub open spec fn names_product(products: Seq<Product>, slug: Seq<char>) -> bool {
    exists|j: int| 0 <= j < products.len() && #[trigger] products[j].slug@ == slug
}

/// Every featured slug names a product.
pub open spec fn featured_ok(featured: Seq<String>, products: Seq<Product>) -> bool {
    forall|i: int| 0 <= i < featured.len() ==> names_product(products, #[trigger] featured[i]@)
}

/// Featured slug `i` is the first that names no product.
pub open spec fn first_unknown_featured(featured: Seq<String>, products: Seq<Product>, i: int) -> bool {
    &&& 0 <= i < featured.len()
    &&& forall|k: int| 0 <= k < i ==> names_product(products, #[trigger] featured[k]@)
    &&& !names_product(products, featured[i]@)
}

/// The complaint about a featured slug that names no product.
pub open spec fn unknown_featured_message(slug: Seq<char>) -> Seq<char> {
    "featured product '"@ + slug + "' does not exist (no "@ + slug + ".product directory)"@
}

/// Checks that every featured slug names a product; the error names the
/// first that does not.
pub fn check_featured(featured: &Vec<String>, products: &Vec<Product>) -> (r: Result<(), String>)
    ensures
        r is Ok <==> featured_ok(featured@, products@),
        forall|i: int| #[trigger] first_unknown_featured(featured@, products@, i) ==>
            (r matches Err(m) && m@ == unknown_featured_message(featured@[i]@)),
{
    let n = products.len();
    let f = featured.len();
    let mut i: usize = 0;
    while i < f
        invariant
            n == products@.len(),
            f == featured@.len(),
            i <= f,
            forall|k: int| 0 <= k < i ==> names_product(products@, #[trigger] featured@[k]@),
        decreases f - i,
    {
        let mut found = false;
        for j in 0..n
            invariant
                n == products@.len(),
                f == featured@.len(),
                i < f,
                found == exists|q: int| 0 <= q < j && #[trigger] products@[q].slug@ == featured@[i as int]@,
        {
            if crate::text::text_eq(products[j].slug.as_str(), featured[i].as_str()) {
                found = true;
            }
        }
        if !found {
            assert(!names_product(products@, featured@[i as int]@));
            let mut m = owned("featured product '");
            push_str(&mut m, featured[i].as_str());
            push_str(&mut m, "' does not exist (no ");
            push_str(&mut m, featured[i].as_str());
            push_str(&mut m, ".product directory)");
            assert(first_unknown_featured(featured@, products@, i as int));
            assert(m@ =~= unknown_featured_message(featured@[i as int]@));
            return Err(m);
        }
        assert(names_product(products@, featured@[i as int]@));
        i = i + 1;
    }
    Ok(())
}

/// What `str::to_lowercase` makes of a text.
pub uninterp spec fn lowercased(s: Seq<char>) -> Seq<char>;

/// A character with ASCII capitals lowered.
pub open spec fn ascii_lower(c: char) -> char {
    if 'A' <= c && c <= 'Z' { ((c as u32) + 32) as char } else { c }
}

/// `str::to_lowercase`: the text in lowercase (Unicode rules). Claimed:
/// the result is a function of the text alone, and of an all-ASCII text
/// it is the text with its capitals lowered, character for character.
/// What it does to other characters is not stated.
#[verifier::external_body]
fn to_lowercase(s: &str) -> (r: String)
    ensures
        r@ == lowercased(s@),
        (forall|i: int| 0 <= i < s@.len() ==> (#[trigger] s@[i] as u32) < 128) ==>
            r@ == s@.map_values(|c: char| ascii_lower(c)),
{
    s.to_lowercase()
}

/// The first position of a slug in the featured list.
pub open spec fn rank_of(featured: Seq<String>, slug: Seq<char>) -> Option<int>
    decreases featured.len(),
{
    if featured.len() == 0 {
        None
    } else {
        match rank_of(featured.drop_last(), slug) {
            Some(i) => Some(i),
            None => if featured.last()@ == slug { Some(featured.len() - 1) } else { None },
        }
    }
}

proof fn lemma_rank_bounds(featured: Seq<String>, slug: Seq<char>)
    ensures
        rank_of(featured, slug) is Some ==> 0 <= rank_of(featured, slug)->Some_0 < featured.len(),
    decreases featured.len(),
{
    if featured.len() > 0 {
        lemma_rank_bounds(featured.drop_last(), slug);
    }
}

/// How products sort on the site: featured ones first, in `featured`
/// order, then the rest by lowercased title.
pub open spec fn product_key(featured: Seq<String>) -> spec_fn(Product) -> KeyV {
    |p: Product| match rank_of(featured, p.slug@) {
        Some(i) => (false, i as u32, Seq::<char>::empty()),
        None => (true, 0u32, lowercased(p.title@)),
    }
}

/// The sort key of a product.
fn product_sort_key(p: &Product, featured: &Vec<String>) -> (k: SortKey)
    requires
        featured@.len() <= u32::MAX,
    ensures
        sort_key_view(k) == (product_key(featured@))(*p),
{
    let mut i: usize = 0;
    while i < featured.len()
        invariant
            i <= featured@.len(),
            rank_of(featured@.take(i as int), p.slug@) is None,
        decreases featured@.len() - i,
    {
        assert(featured@.take(i + 1).drop_last() =~= featured@.take(i as int));
        if crate::text::text_eq(featured[i].as_str(), p.slug.as_str()) {
            proof {
                lemma_rank_bounds(featured@, p.slug@);
            }
            assert(rank_of(featured@.take(i + 1), p.slug@) == Some(i as int));
            let ghost r = rank_of(featured@, p.slug@);
            assert(r == rank_of(featured@.take(i + 1), p.slug@)) by {
                lemma_rank_prefix(featured@, p.slug@, i + 1);
            }
            let k = SortKey { appendix: false, order: i as u32, slug: String::new() };
            assert(sort_key_view(k).2 =~= Seq::<char>::empty());
            return k;
        }
        i = i + 1;
    }
    assert(featured@.take(i as int) =~= featured@);
    proof {
        lemma_rank_bounds(featured@, p.slug@);
    }
    SortKey { appendix: true, order: 0, slug: to_lowercase(p.title.as_str()) }
}

/// A rank found in a prefix is the rank.
proof fn lemma_rank_prefix(featured: Seq<String>, slug: Seq<char>, n: int)
    requires
        0 <= n <= featured.len(),
        rank_of(featured.take(n), slug) is Some,
    ensures
        rank_of(featured, slug) == rank_of(featured.take(n), slug),
    decreases featured.len(),
{
    if n < featured.len() {
        assert(featured.drop_last().take(n) =~= featured.take(n));
        lemma_rank_prefix(featured.drop_last(), slug, n);
    } else {
        assert(featured.take(n) =~= featured);
    }
}

/// Sorts a site's products: featured first, in `featured` order, then
/// the rest by lowercased title.
pub fn sort_products(products: Vec<Product>, featured: &Vec<String>) -> (r: Vec<Product>)
    requires
        featured@.len() <= u32::MAX,
    ensures
        r@ == sort_by_key(products@, product_key(featured@)),
{
    let mut keys: Vec<SortKey> = Vec::new();
    for i in 0..products.len()
        invariant
            featured@.len() <= u32::MAX,
            keys@.len() == i,
            i <= products@.len(),
            forall|j: int| 0 <= j < i ==> sort_key_view(#[trigger] keys@[j]) == (product_key(featured@))(products@[j]),
    {
        keys.push(product_sort_key(&products[i], featured));
    }
    sort_keyed(products, &keys, Ghost(product_key(featured@)))
}


/// Whether a nav URL is a `~` reference.
pub open spec fn is_reference(url: Seq<char>) -> bool {
    url.len() > 0 && url[0] == '~'
}

/// The page a resolution lands on.
pub open spec fn page_of(res: Resolution) -> Seq<char> {
    match res {
        Resolution::Page(p, _) => p,
        _ => Seq::empty(),
    }
}

/// Every `~` nav link resolves.
pub open spec fn nav_ok(nav: Seq<NavItem>, index: LinkIndex) -> bool {
    forall|i: int| 0 <= i < nav.len() && is_reference(#[trigger] nav[i].url@) ==>
        resolution(index.products@, nav[i].url@.drop_first()) is Page
}

/// The nav links with every `~` reference replaced by the page it names.
pub open spec fn nav_resolved(old: Seq<NavItem>, new: Seq<NavItem>, index: LinkIndex) -> bool {
    &&& old.len() == new.len()
    &&& forall|i: int| 0 <= i < old.len() ==> {
        &&& (#[trigger] new[i]).label == old[i].label
        &&& new[i].url@ == if is_reference(old[i].url@) {
            page_of(resolution(index.products@, old[i].url@.drop_first()))
        } else {
            old[i].url@
        }
    }
}

/// Resolves the header's `~` nav links through the page index; external
/// URLs pass through.
pub fn resolve_nav(config: SiteConfig, index: &LinkIndex) -> (r: Result<SiteConfig, String>)
    ensures
        r is Ok <==> nav_ok(config.nav@, *index),
        r matches Ok(c) ==> c == (SiteConfig { nav: c.nav, ..config }) && nav_resolved(config.nav@, c.nav@, *index),
{
    let ghost c0 = config;
    let SiteConfig {
        sitename, title, description, url, featured, footer, accent, accent_dark, custom_css, favicon, head_html,
        edit_url, nav, passthrough, product_theming, built_by_trail,
    } = config;
    let ghost n0 = nav@;
    let n = nav.len();
    let mut rest = nav;
    let mut done: Vec<NavItem> = Vec::new();
    assert(n0.skip(0) =~= n0);
    for i in 0..n
        invariant
            c0 == config,
            n0 == c0.nav@,
            n == n0.len(),
            rest@ == n0.skip(i as int),
            done@.len() == i,
            forall|k: int| 0 <= k < i && is_reference(#[trigger] n0[k].url@) ==>
                resolution(index.products@, n0[k].url@.drop_first()) is Page,
            forall|k: int| 0 <= k < i ==> {
                &&& (#[trigger] done@[k]).label == n0[k].label
                &&& done@[k].url@ == if is_reference(n0[k].url@) {
                    page_of(resolution(index.products@, n0[k].url@.drop_first()))
                } else {
                    n0[k].url@
                }
            },
    {
        let item = rest.remove(0);
        assert(item == n0[i as int]);
        assert(rest@ =~= n0.skip(i + 1));
        let NavItem { label, url } = item;
        let u = chars_of(url.as_str());
        if u.len() > 0 && u[0] == '~' {
            let reference = string_of(crate::text::slice_vec(u.as_slice(), 1, u.len()).as_slice());
            assert(reference@ =~= url@.drop_first());
            match index.resolve(reference.as_str()) {
                Ok(path) => {
                    done.push(NavItem { label, url: path });
                },
                Err(e) => {
                    assert(!nav_ok(c0.nav@, *index)) by {
                        assert(is_reference(n0[i as int].url@));
                    }
                    let inner = e.message();
                    let mut m = owned("resolving nav link '");
                    push_str(&mut m, label.as_str());
                    push_str(&mut m, "' (");
                    push_str(&mut m, url.as_str());
                    push_str(&mut m, "): ");
                    push_str(&mut m, inner.as_str());
                    return Err(m);
                },
            }
        } else {
            done.push(NavItem { label, url });
        }
    }
    Ok(SiteConfig {
        sitename, title, description, url, featured, footer, accent, accent_dark, custom_css, favicon, head_html,
        edit_url, nav: done, passthrough, product_theming, built_by_trail,
    })
}

/// An index over the given products' pages.
pub open spec fn page_index_for(index: LinkIndex, products: Seq<Product>) -> bool {
    &&& index.products@.len() == products.len()
    &&& forall|i: int| 0 <= i < products.len() ==>
        #[trigger] crate::links::product_index_view(index.products@[i]) == crate::links::product_entry(products[i], false)
}

/// Finishes loading a site from its checked configuration and loaded
/// products: the featured products must exist; products sort featured
/// first; `.link` stubs resolve; reading times and dates roll up; and the
/// header's `~` nav links resolve to their pages.
pub fn finish_site(
    config: SiteConfig,
    products: Vec<Product>,
    images: Vec<ImageAsset>,
    custom_css: Option<String>,
    favicon: Option<String>,
    head_html: Option<String>,
    root: String,
) -> (r: Result<Site, String>)
    requires
        config.featured@.len() <= u32::MAX,
    ensures
        !featured_ok(config.featured@, products@) ==> r is Err,
        r matches Ok(s) ==> {
            &&& featured_ok(config.featured@, products@)
            &&& s.images == images
            &&& s.custom_css == custom_css
            &&& s.favicon == favicon
            &&& s.head_html == head_html
            &&& s.root == root
            &&& s.config == (SiteConfig { nav: s.config.nav, ..config })
            &&& exists|linked_products: Seq<Product>, index: LinkIndex|
                linked(sort_by_key(products@, product_key(config.featured@)), linked_products)
                && #[trigger] products_rolled(linked_products, s.products@)
                && page_index_for(index, s.products@)
                && #[trigger] nav_resolved(config.nav@, s.config.nav@, index)
        },
        r is Err ==> {
            ||| !featured_ok(config.featured@, products@)
            ||| linking_fails(sort_by_key(products@, product_key(config.featured@)))
            ||| exists|linked_products: Seq<Product>, rolled: Seq<Product>, index: LinkIndex|
                linked(sort_by_key(products@, product_key(config.featured@)), linked_products)
                && #[trigger] products_rolled(linked_products, rolled)
                && #[trigger] page_index_for(index, rolled)
                && !nav_ok(config.nav@, index)
        },
{
    match check_featured(&config.featured, &products) {
        Ok(()) => {},
        Err(m) => return Err(m),
    }
    let sorted = sort_products(products, &config.featured);
    let site = Site { config, products: sorted, images, custom_css, favicon, head_html, root };
    let linked_site = match resolve_linked_articles(site) {
        Ok(s) => s,
        Err(m) => return Err(m),
    };
    let ghost lp = linked_site.products@;
    let Site { config, products, images, custom_css, favicon, head_html, root } = linked_site;
    let rolled = rollup_products(products);
    let site = Site { config, products: rolled, images, custom_css, favicon, head_html, root };
    let index = LinkIndex::new(&site);
    let Site { config, products, images, custom_css, favicon, head_html, root } = site;
    let config = match resolve_nav(config, &index) {
        Ok(c) => c,
        Err(m) => {
            assert(products_rolled(lp, products@) && page_index_for(index, products@));
            return Err(m);
        },
    };
    let s = Site { config, products, images, custom_css, favicon, head_html, root };
    assert(products_rolled(lp, s.products@) && page_index_for(index, s.products@));
    Ok(s)
}


/// The front page's order: featured products come before the rest, and
/// among themselves in the order `featured` lists them; the rest follow
/// by lowercased title.
pub proof fn law_featured_products_first(products: Seq<Product>, featured: Seq<String>)
    requires
        featured.len() <= u32::MAX,
    ensures
        forall|i: int, j: int| #![trigger sort_by_key(products, product_key(featured))[i], sort_by_key(products, product_key(featured))[j]]
            0 <= i < j < sort_by_key(products, product_key(featured)).len() ==> {
            let r = sort_by_key(products, product_key(featured));
            &&& (rank_of(featured, r[j].slug@) is Some ==> rank_of(featured, r[i].slug@) is Some)
            &&& (rank_of(featured, r[i].slug@) is Some && rank_of(featured, r[j].slug@) is Some
                ==> rank_of(featured, r[i].slug@)->Some_0 <= rank_of(featured, r[j].slug@)->Some_0)
            &&& (rank_of(featured, r[i].slug@) is None && rank_of(featured, r[j].slug@) is None
                ==> lex_le(lowercased(r[i].title@), lowercased(r[j].title@)))
        },
{
    let key = product_key(featured);
    let r = sort_by_key(products, key);
    crate::linking::law_sorted_keys_in_order(products, key);
    let ks = r.map_values(key);
    assert forall|i: int, j: int| #![trigger r[i], r[j]] 0 <= i < j < r.len() implies {
        &&& (rank_of(featured, r[j].slug@) is Some ==> rank_of(featured, r[i].slug@) is Some)
        &&& (rank_of(featured, r[i].slug@) is Some && rank_of(featured, r[j].slug@) is Some
            ==> rank_of(featured, r[i].slug@)->Some_0 <= rank_of(featured, r[j].slug@)->Some_0)
        &&& (rank_of(featured, r[i].slug@) is None && rank_of(featured, r[j].slug@) is None
            ==> lex_le(lowercased(r[i].title@), lowercased(r[j].title@)))
    } by {
        assert(ks[i] == key(r[i]) && ks[j] == key(r[j]));
        assert(crate::linking::keys_sorted(ks));
        assert(!crate::linking::key_gt(ks[i], ks[j]));
        lemma_rank_bounds(featured, r[i].slug@);
        lemma_rank_bounds(featured, r[j].slug@);
        match (rank_of(featured, r[i].slug@), rank_of(featured, r[j].slug@)) {
            (Some(a), Some(b)) => {
                assert(ks[i] == (false, a as u32, Seq::<char>::empty()));
                assert(ks[j] == (false, b as u32, Seq::<char>::empty()));
                assert((a as u32) as int == a);
                assert((b as u32) as int == b);
                assert(a <= b);
            },
            (None, Some(b)) => {
                assert(ks[i].0);
                assert(!ks[j].0);
                assert(false);
            },
            (None, None) => {
                assert(ks[i] == (true, 0u32, lowercased(r[i].title@)));
                assert(ks[j] == (true, 0u32, lowercased(r[j].title@)));
            },
            _ => {},
        }
    }
}

} // verus!
