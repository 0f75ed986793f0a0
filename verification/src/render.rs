//! What page templates are handed beyond the model itself: the wordmark
//! split, head metadata, edit links, the pager, print sections and the
//! words a reading time is said in.
use vstd::prelude::*;
use vstd::string::StrSliceExecFns;
use crate::site::{Article, Site};
use crate::text::{
    chars_of, decimal, find_last, has_prefix, last_index, lemma_last_index_bounds, owned, push_chars, push_decimal,
    push_str, split_on, string_of,
};

verus! {

/// A link to another page, with its title: related entries and the
/// previous/next pager both need exactly this.
pub struct PageLink {
    pub path: String,
    pub title: String,
}

/// One article's slot on a `/print` single-page view.
pub struct PrintSection {
    /// Anchor id, unique across the whole print page.
    pub id: String,
    /// The article's section number inside a book, if any.
    pub number: Option<String>,
    /// Appendix entries show the full "Appendix A" label.
    pub appendix: bool,
    pub title: String,
    /// Display crumb segments orienting the article within the unit.
    pub crumbs: Vec<String>,
    /// The rendered article body.
    pub html: String,
}

/// Where an article page can send the reader next: its neighbours in
/// reading order, and its slot in the enclosing unit's single-page view.
pub struct Pager {
    pub previous: Option<PageLink>,
    pub next: Option<PageLink>,
    /// "{unit}/print#{anchor}": the whole topic or book on one page,
    /// opened at this article.
    pub print_url: Option<String>,
}

impl Default for Pager {
    fn default() -> (r: Pager)
        ensures
            r.previous is None,
            r.next is None,
            r.print_url is None,
    {
        Pager { previous: None, next: None, print_url: None }
    }
}

/// The wordmark's parts: everything before the last space, and the last
/// word accented; a single word gets no accent.
pub open spec fn sitename_parts(name: Seq<char>) -> (Seq<char>, Option<Seq<char>>) {
    match last_index(name, ' ') {
        Some(k) => (name.take(k), Some(name.skip(k + 1))),
        None => (name, None),
    }
}

/// Splits the sitename for the wordmark, which accents its last word
/// ("Peios <Learn>").
pub fn split_sitename(name: &str) -> (r: (&str, Option<&str>))
    ensures
        (r.0@, match r.1 { Some(t) => Some(t@), None => None }) == sitename_parts(name@),
{
    let c = chars_of(name);
    let n = c.len();
    proof {
        lemma_last_index_bounds(c@, ' ');
    }
    match find_last(c.as_slice(), ' ') {
        Some(k) => (name.substring_char(0, k), Some(name.substring_char(k + 1, n))),
        None => (name, None),
    }
}

/// A reading time in words: "N min" under an hour (at least one
/// minute), "H hr" on the hour, "H hr M min" otherwise.
pub open spec fn duration_text(minutes: u32) -> Seq<char> {
    let hours = minutes / 60;
    let rest = minutes % 60;
    if hours == 0 {
        decimal(if rest < 1 { 1nat } else { rest as nat }) + " min"@
    } else if rest == 0 {
        decimal(hours as nat) + " hr"@
    } else {
        decimal(hours as nat) + " hr "@ + decimal(rest as nat) + " min"@
    }
}

/// Says a reading time, stored in minutes, in words.
pub fn duration_words(minutes: u32) -> (r: String)
    ensures
        r@ == duration_text(minutes),
{
    let hours = minutes / 60;
    let rest = minutes % 60;
    let mut out = String::new();
    if hours == 0 {
        push_decimal(&mut out, if rest < 1 { 1 } else { rest });
        push_str(&mut out, " min");
    } else if rest == 0 {
        push_decimal(&mut out, hours);
        push_str(&mut out, " hr");
    } else {
        push_decimal(&mut out, hours);
        push_str(&mut out, " hr ");
        push_decimal(&mut out, rest);
        push_str(&mut out, " min");
    }
    out
}

/// Head metadata for one page: description and Open Graph tags and the
/// canonical URL, absolute when the site has a base URL.
pub struct PageMeta {
    /// og:title: the page's own name, no site suffix.
    pub title: String,
    pub description: Option<String>,
    /// og:type: "article" for content, "website" for landings.
    pub kind: &'static str,
    pub canonical: String,
    /// og:url: only emitted when the canonical is absolute.
    pub og_url: Option<String>,
}

/// `s` without its trailing slashes.
pub open spec fn trailing_trimmed(s: Seq<char>) -> Seq<char>
    decreases s.len(),
{
    if s.len() > 0 && s.last() == '/' { trailing_trimmed(s.drop_last()) } else { s }
}

/// A page's canonical URL: its path in the trailing-slash form the server
/// redirects to, behind the base URL when there is one.
pub open spec fn canonical_of(base: Option<Seq<char>>, path: Seq<char>) -> Seq<char> {
    let p = trailing_trimmed(path).push('/');
    match base {
        Some(b) => b + p,
        None => p,
    }
}

/// The head metadata of a page: every page names a canonical (an alias
/// page its original's), and og:url only where the canonical is absolute.
pub fn page_meta(site: &Site, title: &str, description: Option<&str>, canonical_path: &str, kind: &'static str) -> (r: PageMeta)
    ensures
        r.title@ == title@,
        match description {
            Some(d) => if d@.len() > 0 { r.description matches Some(x) && x@ == d@ } else { r.description is None },
            None => r.description is None,
        },
        r.kind == kind,
        r.canonical@ == canonical_of(match site.config.url { Some(u) => Some(u@), None => None }, canonical_path@),
        match r.og_url {
            Some(o) => has_prefix(r.canonical@, "http"@) && o@ == r.canonical@,
            None => !has_prefix(r.canonical@, "http"@),
        },
{
    let c = chars_of(canonical_path);
    let mut n = c.len();
    assert(c@.take(n as int) =~= c@);
    while n > 0 && c[n - 1] == '/'
        invariant
            n <= c@.len(),
            c@ == canonical_path@,
            trailing_trimmed(canonical_path@) == trailing_trimmed(c@.take(n as int)),
        decreases n,
    {
        assert(c@.take(n as int).drop_last() =~= c@.take(n - 1));
        n = n - 1;
    }
    let mut path = string_of(crate::text::slice_vec(c.as_slice(), 0, n).as_slice());
    path.push('/');
    let canonical = match &site.config.url {
        Some(base) => {
            let mut s = owned(base.as_str());
            push_str(&mut s, path.as_str());
            s
        },
        None => path,
    };
    let cc = chars_of(canonical.as_str());
    let og_url = if crate::text::chars_start_with(cc.as_slice(), "http") { Some(canonical.clone()) } else { None };
    let description = match description {
        Some(d) => if chars_of(d).len() > 0 { Some(owned(d)) } else { None },
        None => None,
    };
    PageMeta { title: owned(title), description, kind, canonical, og_url }
}

/// The normal parts of a path: `/`-separated, empty and `.` parts
/// dropped.
pub open spec fn path_parts(p: Seq<char>) -> Seq<Seq<char>> {
    kept_parts(split_on(p, '/'))
}

/// The parts that are neither empty nor `.`.
pub open spec fn kept_parts(s: Seq<Seq<char>>) -> Seq<Seq<char>>
    decreases s.len(),
{
    if s.len() == 0 {
        Seq::empty()
    } else {
        kept_parts(s.drop_last()) + if s.last().len() > 0 && s.last() != seq!['.'] { seq![s.last()] } else { Seq::empty() }
    }
}

/// `path` below `root`, compared part by part, as `Path::strip_prefix`
/// does: both absolute or both relative, and the root's parts leading
/// the path's. The rest's parts are joined with `/`.
pub open spec fn relative_to(path: Seq<char>, root: Seq<char>) -> Option<Seq<char>> {
    let abs_p = path.len() > 0 && path[0] == '/';
    let abs_r = root.len() > 0 && root[0] == '/';
    let pp = path_parts(path);
    let rp = path_parts(root);
    if abs_p == abs_r && rp.len() <= pp.len() && pp.take(rp.len() as int) == rp {
        Some(crate::text::join(pp.skip(rp.len() as int), seq!['/']))
    } else {
        None
    }
}

/// `s` with every occurrence of `pat` (non-empty), scanned left to
/// right, replaced by `with`.
pub open spec fn replaced(s: Seq<char>, pat: Seq<char>, with: Seq<char>) -> Seq<char>
    decreases s.len(),
{
    if s.len() == 0 || pat.len() == 0 {
        s
    } else if has_prefix(s, pat) {
        with + replaced(s.skip(pat.len() as int), pat, with)
    } else {
        seq![s[0]] + replaced(s.drop_first(), pat, with)
    }
}

/// The "Edit this page" URL of an article: the site's `edit_url`
/// template with `{path}` replaced by the article's source file relative
/// to the site root (backslashes as slashes). An alias keeps its
/// original's file, so editing the alias edits the real source.
pub open spec fn edit_url_of(template: Option<Seq<char>>, source_file: Seq<char>, root: Seq<char>) -> Option<Seq<char>> {
    match template {
        None => None,
        Some(t) => match relative_to(source_file, root) {
            None => None,
            Some(rel) => Some(replaced(t, "{path}"@, rel.map_values(|c: char| if c == '\\' { '/' } else { c }))),
        },
    }
}

/// Whether a part is kept: not empty, not `.`.
fn keep_part(p: &Vec<char>) -> (r: bool)
    ensures
        r == (p@.len() > 0 && p@ != seq!['.']),
{
    if p.len() == 0 {
        return false;
    }
    if p.len() == 1 && p[0] == '.' {
        assert(p@ =~= seq!['.']);
        return false;
    }
    assert(p@.len() == 1 ==> p@ != seq!['.']);
    true
}

/// The normal parts of a path.
fn parts_of(p: &str) -> (r: Vec<Vec<char>>)
    ensures
        r@.map_values(|v: Vec<char>| v@) == path_parts(p@),
{
    let c = chars_of(p);
    let raw = crate::text::split_chars(c.as_slice(), '/');
    let ghost rv = raw@.map_values(|v: Vec<char>| v@);
    let mut out: Vec<Vec<char>> = Vec::new();
    for i in 0..raw.len()
        invariant
            rv == raw@.map_values(|v: Vec<char>| v@),
            rv == split_on(p@, '/'),
            out@.map_values(|v: Vec<char>| v@) == kept_parts(rv.take(i as int)),
    {
        let ghost b = out@.map_values(|v: Vec<char>| v@);
        assert(rv.take(i + 1).drop_last() =~= rv.take(i as int));
        assert(rv[i as int] == raw@[i as int]@);
        if keep_part(&raw[i]) {
            let copy = crate::text::slice_vec(raw[i].as_slice(), 0, raw[i].len());
            assert(copy@ =~= raw@[i as int]@);
            out.push(copy);
            assert(out@.map_values(|v: Vec<char>| v@) =~= b.push(copy@));
        }
        assert(kept_parts(rv.take(i + 1)) =~= out@.map_values(|v: Vec<char>| v@));
    }
    assert(rv.take(raw@.len() as int) =~= rv);
    out
}

/// The "Edit this page" URL of an article, when the site has an edit-URL
/// template and the article's source lies under the site root.
pub fn edit_link(site: &Site, article: &Article) -> (r: Option<String>)
    ensures
        match edit_url_of(match site.config.edit_url { Some(t) => Some(t@), None => None }, article.source_file@, site.root@) {
            Some(u) => r matches Some(x) && x@ == u,
            None => r is None,
        },
{
    let template = match &site.config.edit_url {
        Some(t) => t,
        None => return None,
    };
    let file = chars_of(article.source_file.as_str());
    let root = chars_of(site.root.as_str());
    let abs_p = file.len() > 0 && file[0] == '/';
    let abs_r = root.len() > 0 && root[0] == '/';
    let pp = parts_of(article.source_file.as_str());
    let rp = parts_of(site.root.as_str());
    let ghost ppv = pp@.map_values(|v: Vec<char>| v@);
    let ghost rpv = rp@.map_values(|v: Vec<char>| v@);
    if abs_p != abs_r || rp.len() > pp.len() {
        return None;
    }
    for i in 0..rp.len()
        invariant
            rp@.len() <= pp@.len(),
            ppv == pp@.map_values(|v: Vec<char>| v@),
            rpv == rp@.map_values(|v: Vec<char>| v@),
            ppv == path_parts(article.source_file@),
            rpv == path_parts(site.root@),
            site.config.edit_url is Some,
            forall|j: int| 0 <= j < i ==> ppv[j] == rpv[j],
    {
        if !crate::text::chars_eq(pp[i].as_slice(), rp[i].as_slice()) {
            assert(ppv.take(rpv.len() as int)[i as int] != rpv[i as int]);
            return None;
        }
    }
    assert(ppv.take(rpv.len() as int) =~= rpv);
    let mut rel = String::new();
    let k = rp.len();
    let ghost rest = ppv.skip(rpv.len() as int);
    for i in k..pp.len()
        invariant
            k == rpv.len(),
            k <= ppv.len(),
            ppv == pp@.map_values(|v: Vec<char>| v@),
            rest == ppv.skip(k as int),
            rel@ == crate::text::join(rest.take(i - k), seq!['/']),
    {
        assert(rest.take(i - k + 1).drop_last() =~= rest.take(i - k));
        assert(rest[i - k] == pp@[i as int]@);
        if i > k {
            rel.push('/');
        }
        push_chars(&mut rel, pp[i].as_slice());
        assert(rel@ =~= crate::text::join(rest.take(i - k + 1), seq!['/']));
    }
    assert(rest.take(pp@.len() - k) =~= rest);
    let relc = chars_of(rel.as_str());
    let mut fixed: Vec<char> = Vec::new();
    for i in 0..relc.len()
        invariant
            fixed@ == relc@.take(i as int).map_values(|c: char| if c == '\\' { '/' } else { c }),
    {
        fixed.push(if relc[i] == '\\' { '/' } else { relc[i] });
        assert(fixed@ =~= relc@.take(i + 1).map_values(|c: char| if c == '\\' { '/' } else { c }));
    }
    assert(relc@.take(relc@.len() as int) =~= relc@);
    Some(replace_all(template.as_str(), "{path}", fixed.as_slice()))
}

/// Replaces every occurrence of `pat` in `s`, left to right.
fn replace_all(s: &str, pat: &str, with: &[char]) -> (r: String)
    ensures
        r@ == replaced(s@, pat@, with@),
{
    let c = chars_of(s);
    let p = chars_of(pat);
    let n = c.len();
    let mut out = String::new();
    if p.len() == 0 {
        push_str(&mut out, s);
        return out;
    }
    let mut i: usize = 0;
    assert(c@.skip(0) =~= c@);
    while i < n
        invariant
            n == c@.len(),
            c@ == s@,
            p@ == pat@,
            p@.len() > 0,
            i <= n,
            out@ + replaced(c@.skip(i as int), p@, with@) == replaced(s@, pat@, with@),
        decreases n - i,
    {
        let ghost b = out@;
        let ghost rest = c@.skip(i as int);
        if crate::text::starts_at(c.as_slice(), i, p.as_slice()) {
            push_chars(&mut out, with);
            assert(rest.skip(p@.len() as int) =~= c@.skip(i + p@.len()));
            assert(replaced(rest, p@, with@) == with@ + replaced(rest.skip(p@.len() as int), p@, with@));
            assert(out@ + replaced(c@.skip(i + p@.len()), p@, with@) =~= b + replaced(rest, p@, with@));
            i = i + p.len();
        } else {
            out.push(c[i]);
            assert(rest.drop_first() =~= c@.skip(i + 1));
            assert(replaced(rest, p@, with@) == seq![rest[0]] + replaced(rest.drop_first(), p@, with@));
            assert(out@ + replaced(c@.skip(i + 1), p@, with@) =~= b + replaced(rest, p@, with@));
            i = i + 1;
        }
    }
    assert(c@.skip(n as int) =~= Seq::<char>::empty());
    assert(out@ =~= out@ + replaced(c@.skip(n as int), p@, with@));
    out
}


/// The wordmark split loses nothing: a sitename with a space is its
/// first part, a space and its accented last word, and that word holds
/// no space; one without a space stays whole.
pub proof fn law_sitename_parts_reassemble(name: Seq<char>)
    ensures
        sitename_parts(name) matches (first, Some(last)) ==> name == first + seq![' '] + last
            && forall|k: int| 0 <= k < last.len() ==> last[k] != ' ',
        sitename_parts(name) matches (first, None) ==> first == name
            && forall|k: int| 0 <= k < name.len() ==> name[k] != ' ',
{
    crate::text::lemma_last_index_bounds(name, ' ');
    if let Some(k) = last_index(name, ' ') {
        assert(name =~= name.take(k) + seq![' '] + name.skip(k + 1));
        let last = name.skip(k + 1);
        assert forall|j: int| 0 <= j < last.len() implies last[j] != ' ' by {
            assert(last[j] == name[k + 1 + j]);
        }
    }
}

} // verus!
