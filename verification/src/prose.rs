//! The prose-level rules of rendering: where a word starts and ends,
//! `§` section labels and the links they make, RFC 2119 keywords, and
//! what an image destination turns into.
use vstd::prelude::*;
use crate::images::ImageIndex;
use crate::markdown::{escaped_text, ref_link, ref_link_html, ImageInfo};
use crate::refs::{section_lookup, InlineRefIndex, SectionTarget};
use crate::text::{chars_of, has_prefix, is_digit, is_upper, owned, push_chars, push_str, starts_at};

verus! {

/// Whether `char::is_alphanumeric` holds of `c`.
pub uninterp spec fn alphanumeric(c: char) -> bool;

/// An ASCII letter or digit.
pub open spec fn ascii_alphanumeric(c: char) -> bool {
    ('a' <= c && c <= 'z') || ('A' <= c && c <= 'Z') || ('0' <= c && c <= '9')
}

/// `char::is_alphanumeric`: Unicode alphabetic or numeric. The contract
/// names the result; of an ASCII character it says, as the documentation
/// does, that exactly the letters and digits qualify. Which other
/// characters qualify is not stated.
#[verifier::external_body]
fn char_is_alphanumeric(c: char) -> (r: bool)
    ensures
        r == alphanumeric(c),
        (c as u32) < 128 ==> (r <==> ascii_alphanumeric(c)),
{
    c.is_alphanumeric()
}

/// Whether `c` continues a word.
pub open spec fn word_char(c: char) -> bool {
    alphanumeric(c) || c == '_'
}

/// A word boundary before position `at`.
pub open spec fn boundary_before_at(text: Seq<char>, at: int) -> bool {
    at == 0 || !word_char(text[at - 1])
}

/// A word boundary after position `at`.
pub open spec fn boundary_after_at(text: Seq<char>, at: int) -> bool {
    at >= text.len() || !word_char(text[at])
}

/// Whether a word begins at `at`: nothing word-like right before it.
pub fn boundary_before(text: &[char], at: usize) -> (r: bool)
    requires
        at <= text@.len(),
    ensures
        r == boundary_before_at(text@, at as int),
{
    at == 0 || !(char_is_alphanumeric(text[at - 1]) || text[at - 1] == '_')
}

/// Whether a word ends at `at`: nothing word-like right after it.
pub fn boundary_after(text: &[char], at: usize) -> (r: bool)
    requires
        at <= text@.len(),
    ensures
        r == boundary_after_at(text@, at as int),
{
    at >= text.len() || !(char_is_alphanumeric(text[at]) || text[at] == '_')
}

/// A span of text replaced by markup: its start, its end, the markup.
pub type SpanV = (int, int, Seq<char>);

pub open spec fn spans_view(v: Seq<(usize, usize, String)>) -> Seq<SpanV> {
    v.map_values(|e: (usize, usize, String)| (e.0 as int, e.1 as int, e.2@))
}

/// Whether a span already covers position `at`.
pub open spec fn covered_at(spans: Seq<SpanV>, at: int) -> bool {
    exists|k: int| 0 <= k < spans.len() && #[trigger] spans[k].0 <= at && at < spans[k].1
}

pub fn covered(spans: &Vec<(usize, usize, String)>, at: usize) -> (r: bool)
    ensures
        r == covered_at(spans_view(spans@), at as int),
{
    let ghost sv = spans_view(spans@);
    for k in 0..spans.len()
        invariant
            sv == spans_view(spans@),
            forall|j: int| 0 <= j < k ==> !(#[trigger] sv[j].0 <= at && at < sv[j].1),
    {
        if spans[k].0 <= at && at < spans[k].1 {
            assert(sv[k as int].0 <= at && at < sv[k as int].1);
            return true;
        }
    }
    false
}

/// Where a section label's run ends: the first character that is not a
/// digit, an uppercase ASCII letter or a dot.
pub open spec fn label_run(text: Seq<char>, i: int) -> int
    decreases text.len() - i,
{
    if i < 0 || i >= text.len() {
        text.len() as int
    } else if is_digit(text[i]) || is_upper(text[i]) || text[i] == '.' {
        label_run(text, i + 1)
    } else {
        i
    }
}

/// The run without its trailing dots (a sentence's full stop).
pub open spec fn undotted_len(text: Seq<char>, n: int) -> int
    decreases n,
{
    if n > 0 && text[n - 1] == '.' { undotted_len(text, n - 1) } else { n }
}

/// The length of the section label ("2.1", "A.3", "2.A") that `text`
/// starts with, if it starts with one ending at a word boundary.
pub open spec fn section_label_len(text: Seq<char>) -> Option<int> {
    let end = label_run(text, 0);
    let n = if 0 <= end { undotted_len(text, end) } else { 0 };
    if n <= 0 || !boundary_after_at(text, end) { None } else { Some(n) }
}

proof fn lemma_label_run_bounds(text: Seq<char>, i: int)
    requires
        0 <= i <= text.len(),
    ensures
        i <= label_run(text, i) <= text.len(),
    decreases text.len() - i,
{
    if i < text.len() && (is_digit(text[i]) || is_upper(text[i]) || text[i] == '.') {
        lemma_label_run_bounds(text, i + 1);
    }
}

proof fn lemma_undotted_bounds(text: Seq<char>, n: int)
    requires
        0 <= n <= text.len(),
    ensures
        0 <= undotted_len(text, n) <= n,
    decreases n,
{
    if n > 0 && text[n - 1] == '.' {
        lemma_undotted_bounds(text, n - 1);
    }
}

/// The length of the section label `text` starts with, if any.
pub fn section_label(text: &[char]) -> (r: Option<usize>)
    ensures
        match section_label_len(text@) {
            Some(n) => r matches Some(x) && x == n,
            None => r is None,
        },
        r matches Some(n) ==> 0 < n <= text@.len(),
{
    let mut end: usize = 0;
    while end < text.len() && (crate::text::char_is_digit(text[end]) || crate::text::char_is_upper(text[end]) || text[end] == '.')
        invariant
            end <= text@.len(),
            label_run(text@, 0) == label_run(text@, end as int),
        decreases text@.len() - end,
    {
        end = end + 1;
    }
    let mut n = end;
    while n > 0 && text[n - 1] == '.'
        invariant
            n <= end,
            end <= text@.len(),
            undotted_len(text@, end as int) == undotted_len(text@, n as int),
        decreases n,
    {
        n = n - 1;
    }
    proof {
        lemma_undotted_bounds(text@, n as int);
    }
    if n == 0 || !boundary_after(text, end) {
        return None;
    }
    Some(n)
}

/// A ` §<label>` suffix right after a book phrase: one space (or
/// no-break space), the sign, a label. The length it takes up and the
/// label's length.
pub open spec fn section_suffix_of(rest: Seq<char>) -> Option<(int, int)> {
    if rest.len() >= 2 && (rest[0] == ' ' || rest[0] == '\u{a0}') && rest[1] == '\u{a7}' {
        match section_label_len(rest.skip(2)) {
            Some(n) => Some((2 + n, n)),
            None => None,
        }
    } else {
        None
    }
}

proof fn lemma_section_suffix_bounds(rest: Seq<char>)
    ensures
        match section_suffix_of(rest) {
            Some((c, n)) => 0 < n && c == n + 2 && c <= rest.len(),
            None => true,
        },
{
    if rest.len() >= 2 {
        let t = rest.skip(2);
        lemma_label_run_bounds(t, 0);
        lemma_undotted_bounds(t, label_run(t, 0));
    }
}

pub fn section_suffix(rest: &[char]) -> (r: Option<(usize, usize)>)
    ensures
        match section_suffix_of(rest@) {
            Some((c, n)) => r matches Some((x, y)) && x == c && y == n,
            None => r is None,
        },
{
    if rest.len() >= 2 && (rest[0] == ' ' || rest[0] == '\u{a0}') && rest[1] == '\u{a7}' {
        let after = crate::text::slice_vec(rest, 2, rest.len());
        assert(after@ =~= rest@.skip(2));
        match section_label(after.as_slice()) {
            Some(n) => {
                Some((2 + n, n))
            },
            None => None,
        }
    } else {
        None
    }
}

/// The link a section target makes from `page`: by fragment alone on
/// the same page, nowhere for the same page without a fragment, else
/// under `base`.
pub open spec fn section_href_of(path: Seq<char>, fragment: Option<Seq<char>>, page: Seq<char>, base: Seq<char>) -> Option<Seq<char>> {
    match (fragment, path == page) {
        (Some(f), true) => Some("#"@ + f),
        (None, true) => None,
        (Some(f), false) => Some(base + path + "#"@ + f),
        (None, false) => Some(base + path),
    }
}

pub fn section_href(target: &SectionTarget, page: &str, base: &str) -> (r: Option<String>)
    ensures
        match section_href_of(target.path@, match target.fragment { Some(f) => Some(f@), None => None }, page@, base@) {
            Some(h) => r matches Some(x) && x@ == h,
            None => r is None,
        },
{
    let same = crate::text::text_eq(target.path.as_str(), page);
    match &target.fragment {
        Some(f) => {
            if same {
                let mut h = owned("#");
                push_str(&mut h, f.as_str());
                Some(h)
            } else {
                let mut h = owned(base);
                push_str(&mut h, target.path.as_str());
                push_str(&mut h, "#");
                push_str(&mut h, f.as_str());
                Some(h)
            }
        },
        None => {
            if same {
                None
            } else {
                let mut h = owned(base);
                push_str(&mut h, target.path.as_str());
                Some(h)
            }
        },
    }
}

/// The RFC 2119 keywords, longest first so "MUST NOT" wins over "MUST".
pub open spec fn rfc_keywords() -> Seq<Seq<char>> {
    seq!["MUST NOT"@, "SHALL NOT"@, "SHOULD NOT"@, "NOT RECOMMENDED"@, "RECOMMENDED"@, "REQUIRED"@,
        "OPTIONAL"@, "SHOULD"@, "SHALL"@, "MUST"@, "MAY"@]
}

fn keyword_list() -> (r: Vec<&'static str>)
    ensures
        r@.map_values(|k: &str| k@) == rfc_keywords(),
{
    let r = vec!["MUST NOT", "SHALL NOT", "SHOULD NOT", "NOT RECOMMENDED", "RECOMMENDED", "REQUIRED",
        "OPTIONAL", "SHOULD", "SHALL", "MUST", "MAY"];
    assert(r@.map_values(|k: &str| k@) =~= rfc_keywords());
    r
}

/// Whether keyword `k` may be highlighted at `at`: it is there, ends at
/// a word boundary, and its last character is not inside a span.
pub open spec fn keyword_fits(text: Seq<char>, spans: Seq<SpanV>, at: int, k: Seq<char>) -> bool {
    &&& has_prefix(text.skip(at), k)
    &&& boundary_after_at(text, at + k.len())
    &&& !covered_at(spans, at + k.len() - 1)
}

/// The first keyword, in list order, that fits at `at`.
pub open spec fn first_fit(text: Seq<char>, spans: Seq<SpanV>, at: int, ks: Seq<Seq<char>>) -> Option<Seq<char>>
    decreases ks.len(),
{
    if ks.len() == 0 {
        None
    } else if keyword_fits(text, spans, at, ks[0]) {
        Some(ks[0])
    } else {
        first_fit(text, spans, at, ks.drop_first())
    }
}

/// The keyword highlight.
pub open spec fn keyword_html(k: Seq<char>) -> Seq<char> {
    "<span class=\"rfc-keyword\">"@ + k + "</span>"@
}

/// Scanning `text` from `at` for keywords that start a word and sit
/// outside every span so far; each found keyword becomes a span and the
/// scan resumes after it.
pub open spec fn rfc_scan(text: Seq<char>, spans: Seq<SpanV>, at: int) -> Seq<SpanV>
    decreases text.len() - at,
{
    if at < 0 || at >= text.len() {
        spans
    } else if !boundary_before_at(text, at) || covered_at(spans, at) {
        rfc_scan(text, spans, at + 1)
    } else {
        match first_fit(text, spans, at, rfc_keywords()) {
            None => rfc_scan(text, spans, at + 1),
            Some(k) => if 0 < k.len() && at + k.len() <= text.len() {
                rfc_scan(text, spans.push((at, at + k.len(), keyword_html(k))), at + k.len())
            } else {
                rfc_scan(text, spans, at + 1)
            },
        }
    }
}

proof fn lemma_keywords_nonempty()
    ensures
        forall|i: int| 0 <= i < rfc_keywords().len() ==> #[trigger] rfc_keywords()[i].len() > 0,
{
    reveal_strlit("MUST NOT");
    reveal_strlit("SHALL NOT");
    reveal_strlit("SHOULD NOT");
    reveal_strlit("NOT RECOMMENDED");
    reveal_strlit("RECOMMENDED");
    reveal_strlit("REQUIRED");
    reveal_strlit("OPTIONAL");
    reveal_strlit("SHOULD");
    reveal_strlit("SHALL");
    reveal_strlit("MUST");
    reveal_strlit("MAY");
}

/// The first keyword that fits at `at`, by its position in the list.
fn find_keyword(text: &[char], spans: &Vec<(usize, usize, String)>, at: usize, ks: &Vec<&'static str>) -> (r: Option<usize>)
    requires
        at < text@.len(),
        ks@.map_values(|k: &str| k@) == rfc_keywords(),
    ensures
        match first_fit(text@, spans_view(spans@), at as int, rfc_keywords()) {
            Some(k) => r matches Some(i) && i < ks@.len() && ks@[i as int]@ == k,
            None => r is None,
        },
{
    let ghost kv = rfc_keywords();
    let mut i: usize = 0;
    assert(kv.skip(0) =~= kv);
    while i < ks.len()
        invariant
            i <= ks@.len(),
            at < text@.len(),
            kv == rfc_keywords(),
            ks@.map_values(|k: &str| k@) == kv,
            first_fit(text@, spans_view(spans@), at as int, kv) == first_fit(text@, spans_view(spans@), at as int, kv.skip(i as int)),
        decreases ks@.len() - i,
    {
        let k = chars_of(ks[i]);
        assert(kv.skip(i as int)[0] == ks@[i as int]@);
        assert(kv.skip(i as int).drop_first() =~= kv.skip(i + 1));
        let n = k.len();
        if n <= text.len() - at && starts_at(text, at, k.as_slice()) {
            if boundary_after(text, at + n) {
                proof {
                    lemma_keywords_nonempty();
                    assert(kv[i as int].len() > 0);
                }
                if !covered(spans, at + n - 1) {
                    return Some(i);
                }
            }
        }
        i = i + 1;
    }
    None
}

proof fn lemma_first_fit(text: Seq<char>, spans: Seq<SpanV>, at: int, ks: Seq<Seq<char>>)
    ensures
        first_fit(text, spans, at, ks) matches Some(k) ==> keyword_fits(text, spans, at, k),
    decreases ks.len(),
{
    if ks.len() > 0 && !keyword_fits(text, spans, at, ks[0]) {
        lemma_first_fit(text, spans, at, ks.drop_first());
    }
}

/// Adds a span for every RFC 2119 keyword of `text` that starts and ends
/// at word boundaries and sits outside the spans already there.
pub fn rfc_keyword_spans(text: &[char], spans: &mut Vec<(usize, usize, String)>)
    ensures
        spans_view(final(spans)@) == rfc_scan(text@, spans_view(old(spans)@), 0),
{
    let ks = keyword_list();
    let mut at: usize = 0;
    while at < text.len()
        invariant
            at <= text@.len(),
            ks@.map_values(|k: &str| k@) == rfc_keywords(),
            rfc_scan(text@, spans_view(old(spans)@), 0) == rfc_scan(text@, spans_view(spans@), at as int),
        decreases text@.len() - at,
    {
        if !boundary_before(text, at) || covered(spans, at) {
            at = at + 1;
            continue;
        }
        match find_keyword(text, spans, at, &ks) {
            None => {
                at = at + 1;
            },
            Some(i) => {
                let k = chars_of(ks[i]);
                proof {
                    lemma_keywords_nonempty();
                    lemma_first_fit(text@, spans_view(spans@), at as int, rfc_keywords());
                    assert(ks@.map_values(|k: &str| k@)[i as int] == ks@[i as int]@);
                }
                let mut html = owned("<span class=\"rfc-keyword\">");
                push_str(&mut html, ks[i]);
                push_str(&mut html, "</span>");
                let ghost before = spans_view(spans@);
                assert(has_prefix(text@.skip(at as int), k@));
                let end = at + k.len();
                spans.push((at, end, html));
                assert(spans_view(spans@) =~= before.push((at as int, end as int, keyword_html(k@))));
                at = end;
            },
        }
    }
}


/// Scanning `text` from `at` for bare `§<label>` references: each that
/// starts a word, sits outside every span so far and names a section of
/// `book` that links somewhere from `page` becomes a link; the rest stay
/// prose.
pub open spec fn bare_scan(text: Seq<char>, index: Seq<(Seq<char>, Seq<crate::refs::SectionV>)>, book: Seq<char>,
    page: Seq<char>, base: Seq<char>, spans: Seq<SpanV>, at: int) -> Seq<SpanV>
    decreases text.len() - at,
{
    if at < 0 || at >= text.len() {
        spans
    } else if text[at] != '\u{a7}' || covered_at(spans, at) || !boundary_before_at(text, at) {
        bare_scan(text, index, book, page, base, spans, at + 1)
    } else {
        match section_label_len(text.skip(at + 1)) {
            None => bare_scan(text, index, book, page, base, spans, at + 1),
            Some(n) => {
                let end = at + 1 + n;
                match section_lookup(index, book, text.subrange(at + 1, end)) {
                    Some((path, fragment)) => match section_href_of(path, fragment, page, base) {
                        Some(h) => bare_scan(text, index, book, page, base,
                            spans.push((at, end, ref_link_html(h, text.subrange(at, end)))), at + 1),
                        None => bare_scan(text, index, book, page, base, spans, at + 1),
                    },
                    None => bare_scan(text, index, book, page, base, spans, at + 1),
                }
            },
        }
    }
}

/// Adds a link for every bare `§<label>` reference of `text` that names
/// a section of `book`; a number that names none stays plain, since
/// prose cites outside documents' sections too.
pub fn bare_section_spans(text: &[char], index: &InlineRefIndex, book: &str, page: &str, base: &str,
    spans: &mut Vec<(usize, usize, String)>)
    ensures
        spans_view(final(spans)@) == bare_scan(text@, index.sections_spec(), book@, page@, base@, spans_view(old(spans)@), 0),
{
    let mut at: usize = 0;
    while at < text.len()
        invariant
            at <= text@.len(),
            bare_scan(text@, index.sections_spec(), book@, page@, base@, spans_view(old(spans)@), 0)
                == bare_scan(text@, index.sections_spec(), book@, page@, base@, spans_view(spans@), at as int),
        decreases text@.len() - at,
    {
        if text[at] != '\u{a7}' || covered(spans, at) || !boundary_before(text, at) {
            at = at + 1;
            continue;
        }
        let rest = crate::text::slice_vec(text, at + 1, text.len());
        assert(rest@ =~= text@.skip(at + 1));
        match section_label(rest.as_slice()) {
            None => {},
            Some(n) => {
                let end = at + 1 + n;
                let label = crate::text::slice_string(text, at + 1, end);
                match index.section(book, label.as_str()) {
                    None => {},
                    Some(target) => {
                        match section_href(target, page, base) {
                            None => {},
                            Some(href) => {
                                let shown = crate::text::slice_string(text, at, end);
                                let html = ref_link(href.as_str(), shown.as_str());
                                let ghost before = spans_view(spans@);
                                spans.push((at, end, html));
                                assert(spans_view(spans@) =~= before.push((at as int, end as int,
                                    ref_link_html(href@, text@.subrange(at as int, end as int)))));
                            },
                        }
                    },
                }
            },
        }
        at = at + 1;
    }
}

/// The report for a book phrase whose ` §<label>` names no section.
pub open spec fn unknown_section_message(shown: Seq<char>, label: Seq<char>, book: Seq<char>) -> Seq<char> {
    "'"@ + shown + " \u{a7}"@ + label + "' does not match any section of '"@ + book + "'"@
}

/// What a phrase match over `start..end` makes on `page`: the link span
/// it becomes, if any, and the report of a ` §<label>` after a book
/// phrase that names no section of the book. A match inside a word, or
/// one that would link the page to itself, makes nothing; a book phrase
/// followed by a label that names a section links that section and
/// takes the label in.
pub open spec fn phrase_outcome(text: Seq<char>, start: int, end: int, target: (bool, Seq<char>),
    index: Seq<(Seq<char>, Seq<crate::refs::SectionV>)>, page: Seq<char>, base: Seq<char>) -> (Option<SpanV>, Option<Seq<char>>) {
    let shown = text.subrange(start, end);
    let plain = if target.1 == page { None } else { Some((start, end, ref_link_html(base + target.1, shown))) };
    if !boundary_before_at(text, start) || !boundary_after_at(text, end) {
        (None, None)
    } else if !target.0 {
        (plain, None)
    } else {
        match section_suffix_of(text.skip(end)) {
            Some((consumed, n)) => {
                let label = text.subrange(end + consumed - n, end + consumed);
                match section_lookup(index, target.1, label) {
                    Some((path, fragment)) => match section_href_of(path, fragment, page, base) {
                        Some(h) => (Some((start, end + consumed, ref_link_html(h, text.subrange(start, end + consumed)))), None),
                        None => (None, None),
                    },
                    None => (plain, Some(unknown_section_message(shown, label, target.1))),
                }
            },
            None => (plain, None),
        }
    }
}

/// Phrase links cover whole words and never point a page at itself: a
/// link starts where the match does and ends no earlier, at word
/// boundaries, and a page phrase on its own declaring page links
/// nowhere.
pub proof fn law_phrase_links_are_whole_words_and_never_self(text: Seq<char>, start: int, end: int,
    target: (bool, Seq<char>), index: Seq<(Seq<char>, Seq<crate::refs::SectionV>)>, page: Seq<char>, base: Seq<char>)
    requires
        0 <= start <= end <= text.len(),
    ensures
        phrase_outcome(text, start, end, target, index, page, base).0 is Some ==> {
            let sp = phrase_outcome(text, start, end, target, index, page, base).0->Some_0;
            &&& boundary_before_at(text, start)
            &&& boundary_after_at(text, end)
            &&& sp.0 == start
            &&& sp.1 >= end
        },
        !target.0 && target.1 == page ==> phrase_outcome(text, start, end, target, index, page, base).0 is None,
{
    if target.0 && boundary_before_at(text, start) && boundary_after_at(text, end) {
        lemma_section_suffix_bounds(text.skip(end));
    }
}

/// A sequence with the value of an option, if any, appended.
pub open spec fn pushed<T>(s: Seq<T>, o: Option<T>) -> Seq<T> {
    match o {
        Some(x) => s.push(x),
        None => s,
    }
}

/// Applies one match of phrase `pattern` over `start..end`: its link, if
/// any, joins `spans`, and a report of an unknown section goes to
/// `dangling` when dangling references are allowed, else to `broken`.
pub fn phrase_span(text: &[char], start: usize, end: usize, pattern: usize, index: &InlineRefIndex, page: &str,
    base: &str, allow_dangling: bool, spans: &mut Vec<(usize, usize, String)>, dangling: &mut Vec<String>,
    broken: &mut Vec<String>)
    requires
        start <= end <= text@.len(),
        pattern < index.phrases_spec().len(),
    ensures
        ({
            let o = phrase_outcome(text@, start as int, end as int, index.phrases_spec()[pattern as int].1,
                index.sections_spec(), page@, base@);
            &&& spans_view(final(spans)@) == pushed(spans_view(old(spans)@), o.0)
            &&& crate::links::strs(final(dangling)@) == if allow_dangling {
                pushed(crate::links::strs(old(dangling)@), o.1)
            } else {
                crate::links::strs(old(dangling)@)
            }
            &&& crate::links::strs(final(broken)@) == if allow_dangling {
                crate::links::strs(old(broken)@)
            } else {
                pushed(crate::links::strs(old(broken)@), o.1)
            }
        }),
{
    let ghost sv = spans_view(spans@);
    let ghost dv = crate::links::strs(dangling@);
    let ghost bv = crate::links::strs(broken@);
    if !boundary_before(text, start) || !boundary_after(text, end) {
        return;
    }
    let phrase = index.phrase(pattern);
    let shown = crate::text::slice_string(text, start, end);
    let (is_book, path) = match &phrase.target {
        crate::refs::PhraseTarget::Page(p) => (false, p),
        crate::refs::PhraseTarget::Book(p) => (true, p),
    };
    let same = crate::text::text_eq(path.as_str(), page);
    if is_book {
        let rest = crate::text::slice_vec(text, end, text.len());
        assert(rest@ =~= text@.skip(end as int));
        match section_suffix(rest.as_slice()) {
            Some((consumed, n)) => {
                proof {
                    lemma_section_suffix_bounds(text@.skip(end as int));
                }
                let label = crate::text::slice_string(text, end + consumed - n, end + consumed);
                match index.section(path.as_str(), label.as_str()) {
                    Some(target) => {
                        match section_href(target, page, base) {
                            Some(href) => {
                                let wide = crate::text::slice_string(text, start, end + consumed);
                                let html = ref_link(href.as_str(), wide.as_str());
                                spans.push((start, end + consumed, html));
                                assert(spans_view(spans@) =~= sv.push((start as int, (end + consumed) as int,
                                    ref_link_html(href@, wide@))));
                            },
                            None => {},
                        }
                        return;
                    },
                    None => {
                        let mut message = owned("'");
                        push_str(&mut message, shown.as_str());
                        push_str(&mut message, " \u{a7}");
                        push_str(&mut message, label.as_str());
                        push_str(&mut message, "' does not match any section of '");
                        push_str(&mut message, path.as_str());
                        push_str(&mut message, "'");
                        if allow_dangling {
                            dangling.push(message);
                            assert(crate::links::strs(dangling@) =~= dv.push(
                                unknown_section_message(shown@, label@, path@)));
                        } else {
                            broken.push(message);
                            assert(crate::links::strs(broken@) =~= bv.push(
                                unknown_section_message(shown@, label@, path@)));
                        }
                    },
                }
            },
            None => {},
        }
    }
    if same {
        return;
    }
    let mut href = owned(base);
    push_str(&mut href, path.as_str());
    let html = ref_link(href.as_str(), shown.as_str());
    spans.push((start, end, html));
    assert(spans_view(spans@) =~= sv.push((start as int, end as int, ref_link_html(href@, shown@))));
}

/// `sorted` with `x` placed before the first span that starts no
/// earlier than it.
pub open spec fn insert_front(sorted: Seq<SpanV>, x: SpanV) -> Seq<SpanV>
    decreases sorted.len(),
{
    if sorted.len() == 0 {
        seq![x]
    } else if x.0 <= sorted[0].0 {
        seq![x] + sorted
    } else {
        seq![sorted[0]] + insert_front(sorted.drop_first(), x)
    }
}

/// Spans ordered by start; of spans with one start, the one added first
/// comes first.
pub open spec fn sorted_spans(s: Seq<SpanV>) -> Seq<SpanV>
    decreases s.len(),
{
    if s.len() == 0 { Seq::empty() } else { insert_front(sorted_spans(s.drop_first()), s[0]) }
}

/// Prose from `at` on with each span's range replaced by its markup and
/// the text between escaped; None when a span starts before the end of
/// the one before it or past the text, or the last ends past it.
pub open spec fn splice(text: Seq<char>, spans: Seq<SpanV>, at: int) -> Option<Seq<char>>
    decreases spans.len(),
{
    if spans.len() == 0 {
        if at <= text.len() { Some(escaped_text(text.skip(at))) } else { None }
    } else if spans[0].0 < at || spans[0].0 > text.len() {
        None
    } else {
        match splice(text, spans.drop_first(), spans[0].1) {
            Some(rest) => Some(escaped_text(text.subrange(at, spans[0].0)) + spans[0].2 + rest),
            None => None,
        }
    }
}

proof fn lemma_insert_front(s: Seq<SpanV>, x: SpanV, p: int)
    requires
        0 <= p <= s.len(),
        forall|i: int| 0 <= i < p ==> #[trigger] s[i].0 < x.0,
        p < s.len() ==> x.0 <= s[p].0,
    ensures
        insert_front(s, x) == s.insert(p, x),
    decreases p,
{
    if p == 0 {
        assert(insert_front(s, x) =~= s.insert(p, x));
    } else {
        assert(s[0].0 < x.0);
        let t = s.drop_first();
        assert forall|i: int| 0 <= i < p - 1 implies #[trigger] t[i].0 < x.0 by {
            assert(t[i] == s[i + 1]);
        }
        lemma_insert_front(t, x, p - 1);
        assert(insert_front(s, x) =~= s.insert(p, x));
    }
}

fn sort_spans(spans: Vec<(usize, usize, String)>) -> (r: Vec<(usize, usize, String)>)
    ensures
        spans_view(r@) == sorted_spans(spans_view(spans@)),
{
    let ghost all = spans_view(spans@);
    let mut rest = spans;
    let mut out: Vec<(usize, usize, String)> = Vec::new();
    assert(all.skip(all.len() as int) =~= Seq::<SpanV>::empty());
    while rest.len() > 0
        invariant
            rest@.len() <= all.len(),
            spans_view(rest@) == all.take(rest@.len() as int),
            spans_view(out@) == sorted_spans(all.skip(rest@.len() as int)),
        decreases rest@.len(),
    {
        let ghost k = (rest@.len() - 1) as int;
        let x = match rest.pop() {
            Some(x) => x,
            None => { return out; },
        };
        assert(spans_view(rest@) =~= all.take(k));
        assert(all.take(k + 1)[k] == all[k]);
        let ghost xv = (x.0 as int, x.1 as int, x.2@);
        assert(xv == all[k]);
        let ghost ov = spans_view(out@);
        let mut p: usize = 0;
        while p < out.len() && out[p].0 < x.0
            invariant
                p <= out@.len(),
                ov == spans_view(out@),
                xv.0 == x.0,
                forall|i: int| 0 <= i < p ==> #[trigger] ov[i].0 < xv.0,
            decreases out@.len() - p,
        {
            assert(ov[p as int].0 == out@[p as int].0);
            p = p + 1;
        }
        proof {
            lemma_insert_front(ov, xv, p as int);
            assert(all.skip(k).drop_first() =~= all.skip(k + 1));
            assert(all.skip(k)[0] == all[k]);
        }
        out.insert(p, x);
        assert(spans_view(out@) =~= ov.insert(p as int, xv));
    }
    assert(all.skip(0) =~= all);
    out
}

/// Lays the sorted spans over `text`.
fn splice_spans(text: &[char], spans: &Vec<(usize, usize, String)>) -> (r: Option<String>)
    ensures
        match splice(text@, spans_view(spans@), 0) {
            Some(h) => r matches Some(x) && x@ == h,
            None => r is None,
        },
{
    let ghost sv = spans_view(spans@);
    let mut out = String::new();
    let mut at: usize = 0;
    assert(sv.skip(0) =~= sv);
    for k in 0..spans.len()
        invariant
            sv == spans_view(spans@),
            splice(text@, sv, 0) == match splice(text@, sv.skip(k as int), at as int) {
                Some(t) => Some(out@ + t),
                None => None,
            },
    {
        assert(sv.skip(k as int)[0] == sv[k as int]);
        assert(sv.skip(k as int).drop_first() =~= sv.skip(k + 1));
        let start = spans[k].0;
        if start < at || start > text.len() {
            return None;
        }
        let ghost at0 = at as int;
        let gap = crate::text::slice_vec(text, at, start);
        let ghost before = out@;
        crate::markdown::push_escaped_text(&mut out, gap.as_slice());
        push_str(&mut out, spans[k].2.as_str());
        at = spans[k].1;
        assert(sv[k as int] == (start as int, at as int, spans@[k as int].2@));
        proof {
            match splice(text@, sv.skip(k + 1), at as int) {
                Some(t) => {
                    assert(before + (escaped_text(text@.subrange(at0, start as int)) + sv[k as int].2 + t) =~= out@ + t);
                },
                None => {},
            }
        }
    }
    assert(sv.skip(spans@.len() as int).len() == 0);
    if at > text.len() {
        return None;
    }
    let tail = crate::text::slice_vec(text, at, text.len());
    assert(tail@ =~= text@.skip(at as int));
    crate::markdown::push_escaped_text(&mut out, tail.as_slice());
    Some(out)
}

/// The inline-reference context of one page's prose.
pub struct ProseRefs<'a> {
    pub index: &'a InlineRefIndex,
    /// The page being rendered: a page never links a phrase to itself.
    pub page: &'a str,
    /// The book the page belongs to, for bare `§` references.
    pub book: Option<&'a str>,
}

/// A prose run after enrichment.
pub enum Prose {
    /// Nothing applies: the run stays as the parser gave it.
    Plain,
    /// The run as markup, links and keywords in place.
    Marked(String),
    /// Two spans overlap, which no markup can express.
    Overlapping,
}

/// A phrase match as plain values: start, end, pattern.
pub type HitV = (int, int, int);

pub open spec fn hits_view(v: Seq<(usize, usize, usize)>) -> Seq<HitV> {
    v.map_values(|h: (usize, usize, usize)| (h.0 as int, h.1 as int, h.2 as int))
}

/// The reference context as plain values: phrases, section index, page,
/// book.
pub open spec fn prose_refs_view(r: Option<ProseRefs>) -> Option<(Seq<(Seq<char>, (bool, Seq<char>))>,
    Seq<(Seq<char>, Seq<crate::refs::SectionV>)>, Seq<char>, Option<Seq<char>>)> {
    match r {
        Some(x) => Some((x.index.phrases_spec(), x.index.sections_spec(), x.page@,
            match x.book { Some(b) => Some(b@), None => None })),
        None => None,
    }
}

/// The spans and reports of a run's phrase matches, in match order.
pub open spec fn phrase_fold(text: Seq<char>, hits: Seq<HitV>, phrases: Seq<(Seq<char>, (bool, Seq<char>))>,
    index: Seq<(Seq<char>, Seq<crate::refs::SectionV>)>, page: Seq<char>, base: Seq<char>) -> (Seq<SpanV>, Seq<Seq<char>>)
    decreases hits.len(),
{
    if hits.len() == 0 {
        (Seq::empty(), Seq::empty())
    } else {
        let prev = phrase_fold(text, hits.drop_last(), phrases, index, page, base);
        let h = hits.last();
        let o = phrase_outcome(text, h.0, h.1, phrases[h.2].1, index, page, base);
        (pushed(prev.0, o.0), pushed(prev.1, o.1))
    }
}

/// A run's spans and reports: phrase links first, then bare `§`
/// references of the page's book outside them, then RFC 2119 keywords
/// outside both.
pub open spec fn prose_spans(text: Seq<char>, hits: Seq<HitV>, refs: Option<(Seq<(Seq<char>, (bool, Seq<char>))>,
    Seq<(Seq<char>, Seq<crate::refs::SectionV>)>, Seq<char>, Option<Seq<char>>)>, base: Seq<char>) -> (Seq<SpanV>, Seq<Seq<char>>) {
    match refs {
        Some((phrases, index, page, book)) => {
            let f = phrase_fold(text, hits, phrases, index, page, base);
            let s = match book {
                Some(b) => bare_scan(text, index, b, page, base, f.0, 0),
                None => f.0,
            };
            (rfc_scan(text, s, 0), f.1)
        },
        None => (rfc_scan(text, Seq::empty(), 0), Seq::empty()),
    }
}

/// Enriches one plain-prose run: phrase links from its matches `hits`
/// (start, end, pattern, by character), `§` links and RFC 2119 keywords,
/// laid over the run in order of start. Reports of unknown sections go
/// to `dangling` when dangling references are allowed, else to `broken`.
pub fn enrich_prose(text: &[char], hits: &Vec<(usize, usize, usize)>, refs: Option<ProseRefs>, base: &str,
    allow_dangling: bool, dangling: &mut Vec<String>, broken: &mut Vec<String>) -> (r: Prose)
    requires
        forall|i: int| 0 <= i < hits@.len() ==> #[trigger] hits@[i].0 <= hits@[i].1 && hits@[i].1 <= text@.len(),
        refs matches Some(x) ==> forall|i: int| 0 <= i < hits@.len() ==> #[trigger] hits@[i].2
            < x.index.phrases_spec().len(),
    ensures
        ({
            let (spans, issues) = prose_spans(text@, hits_view(hits@), prose_refs_view(refs), base@);
            &&& match r {
                Prose::Plain => spans.len() == 0,
                Prose::Marked(h) => spans.len() > 0 && splice(text@, sorted_spans(spans), 0) == Some(h@),
                Prose::Overlapping => spans.len() > 0 && splice(text@, sorted_spans(spans), 0) is None,
            }
            &&& crate::links::strs(final(dangling)@) == crate::links::strs(old(dangling)@)
                + if allow_dangling { issues } else { Seq::empty() }
            &&& crate::links::strs(final(broken)@) == crate::links::strs(old(broken)@)
                + if allow_dangling { Seq::empty() } else { issues }
        }),
{
    let mut spans: Vec<(usize, usize, String)> = Vec::new();
    let ghost hv = hits_view(hits@);
    let ghost d0 = crate::links::strs(dangling@);
    let ghost b0 = crate::links::strs(broken@);
    assert(spans_view(spans@) =~= Seq::<SpanV>::empty());
    assert(hv.take(0) =~= Seq::<HitV>::empty());
    assert(d0 + Seq::<Seq<char>>::empty() =~= d0);
    assert(b0 + Seq::<Seq<char>>::empty() =~= b0);
    match refs {
        Some(scope) => {
            for k in 0..hits.len()
                invariant
                    hv == hits_view(hits@),
                    forall|i: int| 0 <= i < hits@.len() ==> #[trigger] hits@[i].0 <= hits@[i].1 && hits@[i].1
                        <= text@.len(),
                    forall|i: int| 0 <= i < hits@.len() ==> #[trigger] hits@[i].2 < scope.index.phrases_spec().len(),
                    ({
                        let f = phrase_fold(text@, hv.take(k as int), scope.index.phrases_spec(),
                            scope.index.sections_spec(), scope.page@, base@);
                        &&& spans_view(spans@) == f.0
                        &&& crate::links::strs(dangling@) == d0 + if allow_dangling { f.1 } else { Seq::empty() }
                        &&& crate::links::strs(broken@) == b0 + if allow_dangling { Seq::empty() } else { f.1 }
                    }),
            {
                let h = hits[k];
                let ghost before = phrase_fold(text@, hv.take(k as int), scope.index.phrases_spec(),
                    scope.index.sections_spec(), scope.page@, base@);
                assert(hv.take(k + 1).drop_last() =~= hv.take(k as int));
                assert(hv.take(k + 1).last() == hv[k as int]);
                phrase_span(text, h.0, h.1, h.2, scope.index, scope.page, base, allow_dangling, &mut spans,
                    dangling, broken);
                proof {
                    let o = phrase_outcome(text@, h.0 as int, h.1 as int, scope.index.phrases_spec()[h.2 as int].1,
                        scope.index.sections_spec(), scope.page@, base@);
                    match o.1 {
                        Some(m) => {
                            assert(d0 + before.1.push(m) =~= (d0 + before.1).push(m));
                            assert(b0 + before.1.push(m) =~= (b0 + before.1).push(m));
                        },
                        None => {},
                    }
                }
            }
            assert(hv.take(hits@.len() as int) =~= hv);
            let ghost f = phrase_fold(text@, hv, scope.index.phrases_spec(), scope.index.sections_spec(),
                scope.page@, base@);
            match scope.book {
                Some(book) => {
                    bare_section_spans(text, scope.index, book, scope.page, base, &mut spans);
                    assert(spans_view(spans@) == bare_scan(text@, scope.index.sections_spec(), book@, scope.page@,
                        base@, f.0, 0));
                },
                None => {},
            }
            let ghost pre = spans_view(spans@);
            rfc_keyword_spans(text, &mut spans);
            assert(spans_view(spans@) == rfc_scan(text@, pre, 0));
            assert(prose_spans(text@, hv, prose_refs_view(refs), base@).0 == spans_view(spans@));
            assert(prose_spans(text@, hv, prose_refs_view(refs), base@).1 == f.1);
        },
        None => {
            assert(crate::links::strs(dangling@) =~= d0 + Seq::<Seq<char>>::empty());
            assert(crate::links::strs(broken@) =~= b0 + Seq::<Seq<char>>::empty());
            rfc_keyword_spans(text, &mut spans);
            assert(prose_spans(text@, hv, prose_refs_view(refs), base@).0 == spans_view(spans@));
        },
    }
    if spans.len() == 0 {
        return Prose::Plain;
    }
    let ordered = sort_spans(spans);
    match splice_spans(text, &ordered) {
        Some(html) => Prose::Marked(html),
        None => Prose::Overlapping,
    }
}

/// How an image destination renders.
pub enum ImageFate {
    /// An image of the tree: our own tag with its published URL and size.
    Local(ImageInfo),
    /// External, explicitly absolute, or nothing to resolve against: the
    /// markdown renderer's own tag stands.
    PassThrough,
    Broken(String),
    Dangling(String),
}

/// A destination that names no file of the tree: an external URL, an
/// inline image, or a site-absolute path.
pub open spec fn passes_through(dest: Seq<char>) -> bool {
    has_prefix(dest, "http://"@) || has_prefix(dest, "https://"@) || has_prefix(dest, "data:"@) || has_prefix(dest, "/"@)
}

/// The report for a destination that is a page reference.
pub open spec fn tilde_image_message(dest: Seq<char>) -> Seq<char> {
    "image '"@ + dest + "': ~references name pages, not files \u{2014} use a path relative to the article"@
}

/// The report for a relative destination that resolves to no image.
pub open spec fn missing_image_message(dest: Seq<char>) -> Seq<char> {
    "image '"@ + dest + "' not found (resolved relative to the article's folder)"@
}

/// Classifies an image destination: `~` names pages, never images;
/// external and absolute ones pass through, as do all where there is no
/// article folder to resolve against; a relative one resolves through
/// the index (recording the image as used) to its URL under `base`, or
/// is missing, which `allow_dangling` downgrades.
pub fn classify_image(dest: &str, base: &str, allow_dangling: bool, index: &mut ImageIndex, dir: Option<&str>) -> (r: ImageFate)
    ensures
        has_prefix(dest@, "~"@) ==> (r matches ImageFate::Broken(m) && m@ == tilde_image_message(dest@)),
        !has_prefix(dest@, "~"@) && (passes_through(dest@) || dir is None) ==> r is PassThrough,
        !has_prefix(dest@, "~"@) && !passes_through(dest@) && dir is Some ==> {
            let path = crate::images::normalized(crate::images::joined(dir->0@, dest@));
            match crate::images::entry_for(old(index).by_source@, path) {
                Some(i) => (r matches ImageFate::Local(info) && info.url@ == base@ + old(index).by_source@[i].1.url@
                    && info.width == old(index).by_source@[i].1.width && info.height == old(index).by_source@[i].1.height),
                None => if allow_dangling {
                    (r matches ImageFate::Dangling(m) && m@ == missing_image_message(dest@))
                } else {
                    (r matches ImageFate::Broken(m) && m@ == missing_image_message(dest@))
                },
            }
        },
        !has_prefix(dest@, "~"@) && !passes_through(dest@) && dir is Some
            && crate::images::entry_for(old(index).by_source@, crate::images::normalized(crate::images::joined(dir->0@, dest@))) is Some
            ==> final(index).used@.last()@ == crate::images::normalized(crate::images::joined(dir->0@, dest@)),
        final(index).by_source == old(index).by_source,
{
    let d = chars_of(dest);
    if crate::text::chars_start_with(d.as_slice(), "~") {
        let mut m = owned("image '");
        push_str(&mut m, dest);
        push_str(&mut m, "': ~references name pages, not files \u{2014} use a path relative to the article");
        return ImageFate::Broken(m);
    }
    if crate::text::chars_start_with(d.as_slice(), "http://") || crate::text::chars_start_with(d.as_slice(), "https://")
        || crate::text::chars_start_with(d.as_slice(), "data:") || crate::text::chars_start_with(d.as_slice(), "/") {
        return ImageFate::PassThrough;
    }
    let dir = match dir {
        Some(x) => x,
        None => return ImageFate::PassThrough,
    };
    match index.resolve(dir, dest) {
        Some(info) => {
            let mut url = owned(base);
            push_str(&mut url, info.url.as_str());
            ImageFate::Local(ImageInfo { url, width: info.width, height: info.height })
        },
        None => {
            let mut m = owned("image '");
            push_str(&mut m, dest);
            push_str(&mut m, "' not found (resolved relative to the article's folder)");
            if allow_dangling {
                ImageFate::Dangling(m)
            } else {
                ImageFate::Broken(m)
            }
        },
    }
}

} // verus!
