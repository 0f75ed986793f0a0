//! The markup an article render puts around the parser's events: heading
//! anchors and numbers, code fences and diagrams, resolved link targets,
//! admonition frames, figures, and prose runs with their inline spans.
use vstd::prelude::*;
use crate::markdown::{
    escaped_attr, escaped_text, image_tag_html, push_escaped_text, slugified, unique_id, fresh_id, taken_of, IdCounter,
    ImageInfo, PrintScope, TocEntry,
};
use crate::prose::{spans_view, ImageFate, SpanV};
use crate::text::{chars_of, has_prefix, is_space, owned, push_chars, push_str};

verus! {

/// The id base of a heading: its explicit id, else the slug of its text;
/// under a prefix (a page inside a bundle), prefix and base joined by
/// `--`.
pub open spec fn heading_base(explicit: Option<Seq<char>>, title: Seq<char>, prefix: Option<Seq<char>>) -> Seq<char> {
    let base = match explicit {
        Some(e) => e,
        None => slugified(title),
    };
    match prefix {
        Some(p) => p + "--"@ + base,
        None => base,
    }
}

/// A heading's anchor id, deduplicated within the page: none only when
/// the page already holds more than `usize::MAX - 2` ids.
pub fn heading_anchor(used: &mut IdCounter, explicit: Option<&str>, title: &str, prefix: Option<&str>) -> (r: Option<String>)
    ensures
        ({
            let base = heading_base(match explicit { Some(e) => Some(e@), None => None }, title@,
                match prefix { Some(p) => Some(p@), None => None });
            if old(used).ids@.len() + 2 <= usize::MAX {
                &&& r matches Some(id) && id@ == fresh_id(taken_of(old(used).ids@), base)
                &&& taken_of(final(used).ids@) == taken_of(old(used).ids@).push(fresh_id(taken_of(old(used).ids@), base))
                &&& final(used).ids@.len() == old(used).ids@.len() + 1
            } else {
                r is None && final(used).ids == old(used).ids
            }
        }),
{
    let base = match explicit {
        Some(e) => owned(e),
        None => crate::markdown::slugify(title),
    };
    let base = match prefix {
        Some(p) => {
            let mut b = owned(p);
            push_str(&mut b, "--");
            push_str(&mut b, base.as_str());
            b
        },
        None => base,
    };
    if used.ids.len() > usize::MAX - 2 {
        return None;
    }
    Some(unique_id(used, base))
}

/// The section number shown at the start of a numbered heading.
pub open spec fn heading_number_html(number: Seq<char>) -> Seq<char> {
    "<span class=\"heading-number\">"@ + number + "</span> "@
}

pub fn heading_number(number: &str) -> (r: String)
    ensures
        r@ == heading_number_html(number@),
{
    let mut out = owned("<span class=\"heading-number\">");
    push_str(&mut out, number);
    push_str(&mut out, "</span> ");
    out
}

/// The permalink closing a heading.
pub open spec fn permalink_html(id: Seq<char>) -> Seq<char> {
    " <a class=\"heading-anchor\" href=\"#"@ + id + "\" aria-label=\"Link to this section\">#</a>"@
}

pub fn heading_permalink(id: &str) -> (r: String)
    ensures
        r@ == permalink_html(id@),
{
    let mut out = owned(" <a class=\"heading-anchor\" href=\"#");
    push_str(&mut out, id);
    push_str(&mut out, "\" aria-label=\"Link to this section\">#</a>");
    out
}

/// Where a fence's language token ends: at whitespace or a comma.
pub open spec fn token_end(info: Seq<char>, i: int) -> int
    decreases info.len() - i,
{
    if i < 0 || i >= info.len() {
        info.len() as int
    } else if is_space(info[i]) || info[i] == ',' {
        i
    } else {
        token_end(info, i + 1)
    }
}

/// The language a fence's info string names: its first piece, when not
/// empty.
pub open spec fn fence_token_of(info: Seq<char>) -> Option<Seq<char>> {
    let e = token_end(info, 0);
    if e <= 0 { None } else { Some(info.take(e)) }
}

proof fn lemma_token_end(info: Seq<char>, i: int)
    requires
        0 <= i <= info.len(),
    ensures
        i <= token_end(info, i) <= info.len(),
    decreases info.len() - i,
{
    if i < info.len() && !(is_space(info[i]) || info[i] == ',') {
        lemma_token_end(info, i + 1);
    }
}

pub fn fence_token(info: &str) -> (r: Option<String>)
    ensures
        match fence_token_of(info@) {
            Some(t) => r matches Some(x) && x@ == t,
            None => r is None,
        },
{
    let c = chars_of(info);
    let mut e: usize = 0;
    while e < c.len() && !(crate::text::char_is_space(c[e]) || c[e] == ',')
        invariant
            e <= c@.len(),
            c@ == info@,
            token_end(info@, 0) == token_end(info@, e as int),
        decreases c@.len() - e,
    {
        e = e + 1;
    }
    proof {
        lemma_token_end(info@, e as int);
    }
    if e == 0 {
        return None;
    }
    Some(crate::text::slice_string(c.as_slice(), 0, e))
}

/// A mermaid fence: the diagram source escaped inside the element the
/// client-side renderer picks up.
pub open spec fn mermaid_html(source: Seq<char>) -> Seq<char> {
    "<pre class=\"mermaid\">"@ + escaped_text(source) + "</pre>\n"@
}

pub fn mermaid_block(source: &str) -> (r: String)
    ensures
        r@ == mermaid_html(source@),
{
    let mut out = owned("<pre class=\"mermaid\">");
    let s = chars_of(source);
    push_escaped_text(&mut out, s.as_slice());
    push_str(&mut out, "</pre>\n");
    out
}

/// The anchor a page has in a print bundle, if it is one of its pages.
pub open spec fn bundle_anchor(anchors: Seq<(Seq<char>, Seq<char>)>, page: Seq<char>) -> Option<Seq<char>>
    decreases anchors.len(),
{
    if anchors.len() == 0 {
        None
    } else if anchors[0].0 == page {
        Some(anchors[0].1)
    } else {
        bundle_anchor(anchors.drop_first(), page)
    }
}

/// Where a resolved `~` link points from this render: inside a print
/// bundle, a page of the bundle becomes its anchor (a fragment keeps the
/// page's id prefix) and any other page goes absolute; elsewhere the
/// page's path under `base`.
pub open spec fn link_target_of(resolved: Seq<char>, fragment: Option<Seq<char>>,
    print: Option<(Seq<(Seq<char>, Seq<char>)>, Option<Seq<char>>)>, base: Seq<char>) -> Seq<char> {
    match print {
        Some((anchors, site)) => match bundle_anchor(anchors, resolved) {
            Some(anchor) => match fragment {
                Some(f) => "#"@ + anchor + "--"@ + f,
                None => "#"@ + anchor,
            },
            None => {
                let s = match site { Some(u) => u, None => Seq::empty() };
                match fragment {
                    Some(f) => s + base + resolved + "#"@ + f,
                    None => s + base + resolved,
                }
            },
        },
        None => match fragment {
            Some(f) => base + resolved + "#"@ + f,
            None => base + resolved,
        },
    }
}

/// A page's first entry among the anchors is the one found for it.
pub proof fn lemma_bundle_anchor_first(anchors: Seq<(Seq<char>, Seq<char>)>, page: Seq<char>, k: int)
    requires
        0 <= k < anchors.len(),
        anchors[k].0 == page,
        forall|j: int| 0 <= j < k ==> #[trigger] anchors[j].0 != page,
    ensures
        bundle_anchor(anchors, page) == Some(anchors[k].1),
    decreases k,
{
    if k > 0 {
        let rest = anchors.drop_first();
        assert(anchors[0].0 != page);
        assert forall|j: int| 0 <= j < k - 1 implies #[trigger] rest[j].0 != page by {
            assert(rest[j] == anchors[j + 1]);
        }
        lemma_bundle_anchor_first(rest, page, k - 1);
    }
}

fn find_anchor<'a>(anchors: &'a Vec<(String, String)>, page: &str) -> (r: Option<&'a String>)
    ensures
        match bundle_anchor(anchors@.map_values(|e: (String, String)| (e.0@, e.1@)), page@) {
            Some(a) => r matches Some(x) && x@ == a,
            None => r is None,
        },
{
    let ghost av = anchors@.map_values(|e: (String, String)| (e.0@, e.1@));
    let mut k: usize = 0;
    assert(av.skip(0) =~= av);
    while k < anchors.len()
        invariant
            k <= anchors@.len(),
            av == anchors@.map_values(|e: (String, String)| (e.0@, e.1@)),
            bundle_anchor(av, page@) == bundle_anchor(av.skip(k as int), page@),
        decreases anchors@.len() - k,
    {
        assert(av.skip(k as int)[0] == av[k as int]);
        assert(av.skip(k as int).drop_first() =~= av.skip(k + 1));
        if crate::text::text_eq(anchors[k].0.as_str(), page) {
            return Some(&anchors[k].1);
        }
        k = k + 1;
    }
    assert(av.skip(k as int).len() == 0);
    None
}

/// The plain values of a print scope.
pub open spec fn print_view(p: Option<&PrintScope>) -> Option<(Seq<(Seq<char>, Seq<char>)>, Option<Seq<char>>)> {
    match p {
        Some(s) => Some((s.anchors@.map_values(|e: (String, String)| (e.0@, e.1@)),
            match s.base { Some(b) => Some(b@), None => None })),
        None => None,
    }
}

pub fn link_target(resolved: &str, fragment: Option<&str>, print: Option<&PrintScope>, base: &str) -> (r: String)
    ensures
        r@ == link_target_of(resolved@, match fragment { Some(f) => Some(f@), None => None }, print_view(print), base@),
{
    match print {
        Some(scope) => match find_anchor(scope.anchors, resolved) {
            Some(anchor) => {
                let mut out = owned("#");
                push_str(&mut out, anchor.as_str());
                match fragment {
                    Some(f) => {
                        push_str(&mut out, "--");
                        push_str(&mut out, f);
                    },
                    None => {},
                }
                out
            },
            None => {
                let mut out = match scope.base {
                    Some(b) => owned(b),
                    None => String::new(),
                };
                push_str(&mut out, base);
                push_str(&mut out, resolved);
                match fragment {
                    Some(f) => {
                        push_str(&mut out, "#");
                        push_str(&mut out, f);
                    },
                    None => {},
                }
                out
            },
        },
        None => {
            let mut out = owned(base);
            push_str(&mut out, resolved);
            match fragment {
                Some(f) => {
                    push_str(&mut out, "#");
                    push_str(&mut out, f);
                },
                None => {},
            }
            out
        },
    }
}

/// ASCII letters lowercased, everything else kept.
pub open spec fn ascii_lowered(s: Seq<char>) -> Seq<char> {
    s.map_values(|c: char| crate::text::lower(c))
}

/// The frame an admonition opens with: its kind as a class and a title.
pub open spec fn admonition_open_html(name: Seq<char>) -> Seq<char> {
    "<aside class=\"admonition admonition-"@ + ascii_lowered(name) + "\">\n<p class=\"admonition-title\">"@ + name
        + "</p>\n"@
}

pub fn admonition_open(name: &str) -> (r: String)
    ensures
        r@ == admonition_open_html(name@),
{
    let c = chars_of(name);
    let mut low: Vec<char> = Vec::new();
    for i in 0..c.len()
        invariant
            c@ == name@,
            low@ == c@.take(i as int).map_values(|x: char| crate::text::lower(x)),
    {
        low.push(crate::text::char_lower(c[i]));
        assert(low@ =~= c@.take(i + 1).map_values(|x: char| crate::text::lower(x)));
    }
    assert(c@.take(c@.len() as int) =~= c@);
    let mut out = owned("<aside class=\"admonition admonition-");
    push_chars(&mut out, low.as_slice());
    push_str(&mut out, "\">\n<p class=\"admonition-title\">");
    push_str(&mut out, name);
    push_str(&mut out, "</p>\n");
    out
}

/// Whether `c` is an ASCII letter.
pub open spec fn is_ascii_letter(c: char) -> bool {
    crate::text::is_lower(c) || crate::text::is_upper(c)
}

/// Where a run of ASCII letters from `i` ends.
pub open spec fn letters_end(s: Seq<char>, i: int) -> int
    decreases s.len() - i,
{
    if i < 0 || i >= s.len() {
        s.len() as int
    } else if is_ascii_letter(s[i]) {
        letters_end(s, i + 1)
    } else {
        i
    }
}

proof fn lemma_letters_end(s: Seq<char>, i: int)
    requires
        0 <= i <= s.len(),
    ensures
        i <= letters_end(s, i) <= s.len(),
    decreases s.len() - i,
{
    if i < s.len() && is_ascii_letter(s[i]) {
        lemma_letters_end(s, i + 1);
    }
}

/// The name in a `[!NAME]` marker that opens a plain quote's first line:
/// a typo'd admonition, since the parser knows only the five kinds.
pub open spec fn admonition_marker(first_line: Seq<char>) -> Option<Seq<char>> {
    if has_prefix(first_line, "[!"@) {
        let e = letters_end(first_line, 2);
        if e > 2 && e < first_line.len() && first_line[e] == ']' { Some(first_line.subrange(2, e)) } else { None }
    } else {
        None
    }
}

pub fn admonition_typo_name(first_line: &str) -> (r: Option<String>)
    ensures
        match admonition_marker(first_line@) {
            Some(n) => r matches Some(x) && x@ == n,
            None => r is None,
        },
{
    let c = chars_of(first_line);
    if !crate::text::chars_start_with(c.as_slice(), "[!") {
        return None;
    }
    proof {
        reveal_strlit("[!");
    }
    let mut e: usize = 2;
    while e < c.len() && (crate::text::char_is_lower(c[e]) || crate::text::char_is_upper(c[e]))
        invariant
            2 <= e <= c@.len(),
            c@ == first_line@,
            letters_end(first_line@, 2) == letters_end(first_line@, e as int),
        decreases c@.len() - e,
    {
        e = e + 1;
    }
    proof {
        lemma_letters_end(first_line@, e as int);
    }
    if e > 2 && e < c.len() && c[e] == ']' {
        Some(crate::text::slice_string(c.as_slice(), 2, e))
    } else {
        None
    }
}

/// A captioned standalone image as a figure.
pub open spec fn figure_html_of(info: ImageInfo, alt: Seq<char>, caption: Seq<char>) -> Seq<char> {
    "<figure>"@ + image_tag_html(info.url@, info.width, info.height, alt, None) + "<figcaption>"@
        + escaped_text(caption) + "</figcaption></figure>\n"@
}

pub fn figure_html(info: &ImageInfo, alt: &str, caption: &str) -> (r: String)
    ensures
        r@ == figure_html_of(*info, alt@, caption@),
{
    let mut out = owned("<figure>");
    push_str(&mut out, crate::markdown::image_tag(info, alt, None).as_str());
    push_str(&mut out, "<figcaption>");
    let c = chars_of(caption);
    push_escaped_text(&mut out, c.as_slice());
    push_str(&mut out, "</figcaption></figure>\n");
    out
}

/// A `~` link destination split into the reference it names and its
/// fragment, at the first `#`; None for any other destination.
pub open spec fn tilde_reference_of(dest: Seq<char>) -> Option<(Seq<char>, Option<Seq<char>>)> {
    if dest.len() > 0 && dest[0] == '~' {
        let r = dest.skip(1);
        match crate::text::first_index(r, '#') {
            Some(i) => Some((r.take(i), Some(r.skip(i + 1)))),
            None => Some((r, None)),
        }
    } else {
        None
    }
}

pub fn tilde_reference(dest: &str) -> (r: Option<(String, Option<String>)>)
    ensures
        match tilde_reference_of(dest@) {
            Some((t, f)) => r matches Some((x, y)) && x@ == t && (match y { Some(z) => Some(z@), None => None }) == f,
            None => r is None,
        },
{
    let d = chars_of(dest);
    if d.len() == 0 || d[0] != '~' {
        return None;
    }
    let rest = crate::text::slice_vec(d.as_slice(), 1, d.len());
    assert(rest@ =~= dest@.skip(1));
    match crate::text::find_first(rest.as_slice(), '#') {
        Some(i) => {
            proof {
                crate::text::lemma_first_index_bounds(rest@, '#');
            }
            let target = crate::text::slice_string(rest.as_slice(), 0, i);
            let fragment = crate::text::slice_string(rest.as_slice(), i + 1, rest.len());
            Some((target, Some(fragment)))
        },
        None => {
            let target = crate::text::slice_string(rest.as_slice(), 0, rest.len());
            assert(rest@.subrange(0, rest@.len() as int) =~= rest@);
            Some((target, None))
        },
    }
}

/// Where a resolved `~` link points from a markdown mirror: the target
/// page's own mirror.
pub open spec fn mirror_dest_of(base: Seq<char>, resolved: Seq<char>, fragment: Option<Seq<char>>) -> Seq<char> {
    match fragment {
        Some(f) => base + resolved + ".md#"@ + f,
        None => base + resolved + ".md"@,
    }
}

pub fn mirror_dest(base: &str, resolved: &str, fragment: Option<&str>) -> (r: String)
    ensures
        r@ == mirror_dest_of(base@, resolved@, match fragment { Some(f) => Some(f@), None => None }),
{
    let mut out = owned(base);
    push_str(&mut out, resolved);
    match fragment {
        Some(f) => {
            push_str(&mut out, ".md#");
            push_str(&mut out, f);
        },
        None => push_str(&mut out, ".md"),
    }
    out
}

/// The destination of an inline link or image inside the text of its
/// element, "[text](dest)" or "![alt](dest \"title\")": what lies between
/// the last `](` and the closing `)`, or just its start when a title
/// follows. None for a reference-style element, whose destination is
/// written elsewhere.
pub open spec fn inline_dest_of(source: Seq<char>, dest: Seq<char>) -> Option<(int, int)> {
    match crate::text::last_pair(source, ']', '(') {
        None => None,
        Some(open) => if source.last() != ')' {
            None
        } else {
            let inner = source.subrange(open + 2, source.len() - 1);
            if inner == dest {
                Some((open + 2, source.len() - 1))
            } else if has_prefix(inner, dest) && inner.len() > dest.len() && (inner[dest.len() as int] == ' '
                || inner[dest.len() as int] == '\t') {
                Some((open + 2, open + 2 + dest.len()))
            } else {
                None
            }
        },
    }
}

proof fn lemma_last_pair_chars(s: Seq<char>, a: char, b: char)
    ensures
        match crate::text::last_pair(s, a, b) {
            Some(p) => 0 <= p && p + 2 <= s.len() && s[p] == a && s[p + 1] == b,
            None => true,
        },
    decreases s.len(),
{
    if s.len() >= 2 && !(s[s.len() - 2] == a && s.last() == b) {
        lemma_last_pair_chars(s.drop_last(), a, b);
    }
}

pub fn inline_dest(source: &[char], dest: &str) -> (r: Option<(usize, usize)>)
    ensures
        match inline_dest_of(source@, dest@) {
            Some((a, b)) => r matches Some((x, y)) && x == a && y == b,
            None => r is None,
        },
        r matches Some((x, y)) ==> x <= y <= source@.len(),
{
    let n = source.len();
    assert(source@.take(n as int) =~= source@);
    proof {
        lemma_last_pair_chars(source@, ']', '(');
    }
    let open = match crate::text::find_last_pair(source, n, ']', '(') {
        Some(o) => o,
        None => {
            return None;
        },
    };
    if source[n - 1] != ')' {
        return None;
    }
    let inner = crate::text::slice_vec(source, open + 2, n - 1);
    let d = chars_of(dest);
    if crate::text::chars_eq(inner.as_slice(), d.as_slice()) {
        return Some((open + 2, n - 1));
    }
    if crate::text::chars_start_with(inner.as_slice(), dest) && inner.len() > d.len()
        && (inner[d.len()] == ' ' || inner[d.len()] == '\t') {
        return Some((open + 2, open + 2 + d.len()));
    }
    None
}

/// How many `#` a line starts with, from `i` on.
pub open spec fn hash_run(s: Seq<char>, i: int) -> int
    decreases s.len() - i,
{
    if i < 0 || i >= s.len() || s[i] != '#' { i } else { hash_run(s, i + 1) }
}

proof fn lemma_hash_run(s: Seq<char>, i: int)
    requires
        0 <= i <= s.len(),
    ensures
        i <= hash_run(s, i) <= s.len(),
    decreases s.len() - i,
{
    if i < s.len() && s[i] == '#' {
        lemma_hash_run(s, i + 1);
    }
}

/// Where a heading's section number goes in its source: after the `#`
/// run and its space. None for a heading not written that way (an
/// underlined one).
pub open spec fn heading_insert_of(source: Seq<char>) -> Option<int> {
    let h = hash_run(source, 0);
    if h == 0 || h >= source.len() || source[h] != ' ' { None } else { Some(h + 1) }
}

/// The text a numbered heading gains in a mirror: its number and a space.
pub fn mirror_number(number: &str) -> (r: String)
    ensures
        r@ == number@ + " "@,
{
    let mut out = owned(number);
    push_str(&mut out, " ");
    out
}

pub fn heading_insert(source: &[char]) -> (r: Option<usize>)
    ensures
        match heading_insert_of(source@) {
            Some(a) => r matches Some(x) && x == a,
            None => r is None,
        },
        r matches Some(x) ==> x <= source@.len(),
{
    let mut h: usize = 0;
    while h < source.len() && source[h] == '#'
        invariant
            h <= source@.len(),
            hash_run(source@, 0) == hash_run(source@, h as int),
        decreases source@.len() - h,
    {
        h = h + 1;
    }
    proof {
        lemma_hash_run(source@, h as int);
    }
    if h == 0 || h >= source.len() || source[h] != ' ' {
        None
    } else {
        Some(h + 1)
    }
}

/// `sorted` with `x` placed before the first edit that starts no later
/// than it.
pub open spec fn insert_desc(sorted: Seq<SpanV>, x: SpanV) -> Seq<SpanV>
    decreases sorted.len(),
{
    if sorted.len() == 0 {
        seq![x]
    } else if sorted[0].0 <= x.0 {
        seq![x] + sorted
    } else {
        seq![sorted[0]] + insert_desc(sorted.drop_first(), x)
    }
}

/// Edits from the last start to the first; of edits with one start, the
/// one added first comes first.
pub open spec fn sorted_desc(s: Seq<SpanV>) -> Seq<SpanV>
    decreases s.len(),
{
    if s.len() == 0 { Seq::empty() } else { insert_desc(sorted_desc(s.drop_first()), s[0]) }
}

/// `text` with each edit's range replaced by its text, one after the
/// other; None when an edit's range is reversed or runs past the text as
/// the edits before it left it.
pub open spec fn replaced(text: Seq<char>, edits: Seq<SpanV>) -> Option<Seq<char>>
    decreases edits.len(),
{
    if edits.len() == 0 {
        Some(text)
    } else {
        let e = edits[0];
        if 0 <= e.0 <= e.1 && e.1 <= text.len() {
            replaced(text.take(e.0) + e.2 + text.skip(e.1), edits.drop_first())
        } else {
            None
        }
    }
}

proof fn lemma_insert_desc(s: Seq<SpanV>, x: SpanV, p: int)
    requires
        0 <= p <= s.len(),
        forall|i: int| 0 <= i < p ==> #[trigger] s[i].0 > x.0,
        p < s.len() ==> s[p].0 <= x.0,
    ensures
        insert_desc(s, x) == s.insert(p, x),
    decreases p,
{
    if p == 0 {
        assert(insert_desc(s, x) =~= s.insert(p, x));
    } else {
        assert(s[0].0 > x.0);
        let t = s.drop_first();
        assert forall|i: int| 0 <= i < p - 1 implies #[trigger] t[i].0 > x.0 by {
            assert(t[i] == s[i + 1]);
        }
        lemma_insert_desc(t, x, p - 1);
        assert(insert_desc(s, x) =~= s.insert(p, x));
    }
}

fn sort_desc(edits: Vec<(usize, usize, String)>) -> (r: Vec<(usize, usize, String)>)
    ensures
        spans_view(r@) == sorted_desc(spans_view(edits@)),
{
    let ghost all = spans_view(edits@);
    let mut rest = edits;
    let mut out: Vec<(usize, usize, String)> = Vec::new();
    assert(all.skip(all.len() as int) =~= Seq::<SpanV>::empty());
    while rest.len() > 0
        invariant
            rest@.len() <= all.len(),
            spans_view(rest@) == all.take(rest@.len() as int),
            spans_view(out@) == sorted_desc(all.skip(rest@.len() as int)),
        decreases rest@.len(),
    {
        let ghost k = (rest@.len() - 1) as int;
        let x = match rest.pop() {
            Some(x) => x,
            None => { return out; },
        };
        assert(spans_view(rest@) =~= all.take(k));
        assert(all.take(k + 1)[k] == all[k]);
        let ghost xv = (x.0 as int, x.1 as int, x.2@);
        assert(xv == all[k]);
        let ghost ov = spans_view(out@);
        let mut p: usize = 0;
        while p < out.len() && out[p].0 > x.0
            invariant
                p <= out@.len(),
                ov == spans_view(out@),
                xv.0 == x.0,
                forall|i: int| 0 <= i < p ==> #[trigger] ov[i].0 > xv.0,
            decreases out@.len() - p,
        {
            assert(ov[p as int].0 == out@[p as int].0);
            p = p + 1;
        }
        proof {
            lemma_insert_desc(ov, xv, p as int);
            assert(all.skip(k).drop_first() =~= all.skip(k + 1));
            assert(all.skip(k)[0] == all[k]);
        }
        out.insert(p, x);
        assert(spans_view(out@) =~= ov.insert(p as int, xv));
    }
    assert(all.skip(0) =~= all);
    out
}

/// Applies source edits (start, end, replacement, by character) from the
/// last start to the first, so no edit shifts one still to come; None
/// when one does not fit the text.
pub fn apply_edits(text: &[char], edits: Vec<(usize, usize, String)>) -> (r: Option<String>)
    ensures
        match replaced(text@, sorted_desc(spans_view(edits@))) {
            Some(t) => r matches Some(x) && x@ == t,
            None => r is None,
        },
{
    let ordered = sort_desc(edits);
    let ghost ev = spans_view(ordered@);
    let mut cur: Vec<char> = crate::text::slice_vec(text, 0, text.len());
    assert(cur@ =~= text@);
    assert(ev.skip(0) =~= ev);
    for k in 0..ordered.len()
        invariant
            ev == spans_view(ordered@),
            ev == sorted_desc(spans_view(edits@)),
            replaced(text@, ev) == replaced(cur@, ev.skip(k as int)),
    {
        assert(ev.skip(k as int)[0] == ev[k as int]);
        assert(ev.skip(k as int).drop_first() =~= ev.skip(k + 1));
        let (a, b) = (ordered[k].0, ordered[k].1);
        assert(ev[k as int].0 == a && ev[k as int].1 == b);
        if !(a <= b && b <= cur.len()) {
            assert(ev.skip(k as int).len() > 0);
            assert(replaced(cur@, ev.skip(k as int)) is None);
            return None;
        }
        let mut next = crate::text::slice_vec(cur.as_slice(), 0, a);
        let rep = chars_of(ordered[k].2.as_str());
        let ghost head = next@;
        for j in 0..rep.len()
            invariant
                next@ == head + rep@.take(j as int),
        {
            next.push(rep[j]);
            assert(next@ =~= head + rep@.take(j + 1));
        }
        assert(rep@.take(rep@.len() as int) =~= rep@);
        let tail = crate::text::slice_vec(cur.as_slice(), b, cur.len());
        let ghost mid = next@;
        for j in 0..tail.len()
            invariant
                next@ == mid + tail@.take(j as int),
        {
            next.push(tail[j]);
            assert(next@ =~= mid + tail@.take(j + 1));
        }
        assert(tail@.take(tail@.len() as int) =~= tail@);
        assert(next@ =~= cur@.take(a as int) + ev[k as int].2 + cur@.skip(b as int));
        cur = next;
    }
    assert(ev.skip(ordered@.len() as int) =~= Seq::<SpanV>::empty());
    let mut out = String::new();
    push_chars(&mut out, cur.as_slice());
    Some(out)
}

/// The report for a plain quote whose first line opens like an
/// admonition of a kind the parser does not know.
pub open spec fn admonition_typo_report(first_line: Seq<char>) -> Option<Seq<char>> {
    match admonition_marker(first_line) {
        Some(n) => Some("unknown admonition type '[!"@ + n
            + "]' (expected NOTE, TIP, IMPORTANT, WARNING or CAUTION)"@),
        None => None,
    }
}

pub fn admonition_typo_error(first_line: &str) -> (r: Option<String>)
    ensures
        match admonition_typo_report(first_line@) {
            Some(e) => r matches Some(m) && m@ == e,
            None => r is None,
        },
{
    match admonition_typo_name(first_line) {
        Some(n) => {
            let mut m = owned("unknown admonition type '[!");
            push_str(&mut m, n.as_str());
            push_str(&mut m, "]' (expected NOTE, TIP, IMPORTANT, WARNING or CAUTION)");
            Some(m)
        },
        None => None,
    }
}

/// What closes an admonition's frame.
pub fn admonition_close() -> (r: String)
    ensures
        r@ == "</aside>\n"@,
{
    owned("</aside>\n")
}

/// What opens the scroll container around a table.
pub fn table_open() -> (r: String)
    ensures
        r@ == "<div class=\"table-scroll\">\n"@,
{
    owned("<div class=\"table-scroll\">\n")
}

/// What closes the scroll container around a table.
pub fn table_close() -> (r: String)
    ensures
        r@ == "</div>\n"@,
{
    owned("</div>\n")
}

/// The outline entry a heading makes: h2 and h3 only.
pub fn toc_entry(level: u8, id: String, title: String, number: Option<String>) -> (r: Option<TocEntry>)
    ensures
        2 <= level <= 3 ==> (r matches Some(e) && e.level == level && e.id == id && e.title == title && e.number == number),
        !(2 <= level <= 3) ==> r is None,
{
    if 2 <= level && level <= 3 {
        Some(TocEntry { level, id, title, number })
    } else {
        None
    }
}

/// The figure a paragraph of one captioned image makes: an image of the
/// tree with its published URL and size, an outside one as written;
/// none without a caption or for an image that does not resolve.
pub open spec fn figure_of(fate: ImageFate, dest: Seq<char>, alt: Seq<char>, caption: Seq<char>) -> Option<Seq<char>> {
    if caption.len() == 0 {
        None
    } else {
        match fate {
            ImageFate::Local(info) => Some(figure_html_of(info, alt, caption)),
            ImageFate::PassThrough => Some("<figure>"@ + image_tag_html(dest, None, None, alt, None) + "<figcaption>"@
                + escaped_text(caption) + "</figcaption></figure>\n"@),
            _ => None,
        }
    }
}

pub fn figure_for(fate: ImageFate, dest: &str, alt: &str, caption: &str) -> (r: Option<String>)
    ensures
        match figure_of(fate, dest@, alt@, caption@) {
            Some(h) => r matches Some(x) && x@ == h,
            None => r is None,
        },
{
    if chars_of(caption).len() == 0 {
        return None;
    }
    match fate {
        ImageFate::Local(info) => Some(figure_html(&info, alt, caption)),
        ImageFate::PassThrough => {
            let info = ImageInfo { url: owned(dest), width: None, height: None };
            Some(figure_html(&info, alt, caption))
        },
        _ => None,
    }
}

} // verus!
