//! The markdown-level rules of article bodies: escaping, heading ids and
//! numbers, inline-reference spans, `:::tabs` groups and `[*name]`
//! citation anchors.
use vstd::prelude::*;
use crate::text::{
    collapse, collapse_whitespace, has_prefix, trim, trim_bounds, starts_at, first_index, find_first,
    lemma_first_index_bounds, lemma_first_index_extends, char_from_ascii, char_is_ascii_alnum, char_is_digit, char_is_lower, char_is_upper, char_lower,
    chars_of, decimal, is_ascii_alnum, is_digit, is_lower, is_upper, lower, owned, push_chars,
    push_decimal, push_str,
};

verus! {

/// The entity spelling of one character in element text.
pub open spec fn text_entity(c: char) -> Seq<char> {
    if c == '&' { "&amp;"@ } else if c == '<' { "&lt;"@ } else if c == '>' { "&gt;"@ } else { seq![c] }
}

/// The entity spelling of one character in a double-quoted attribute.
pub open spec fn attr_entity(c: char) -> Seq<char> {
    if c == '"' { "&quot;"@ } else { text_entity(c) }
}

/// Element text with `&`, `<` and `>` escaped.
pub open spec fn escaped_text(s: Seq<char>) -> Seq<char>
    decreases s.len(),
{
    if s.len() == 0 { Seq::empty() } else { escaped_text(s.drop_last()) + text_entity(s.last()) }
}

/// Attribute text with `&`, `<`, `>` and `"` escaped.
pub open spec fn escaped_attr(s: Seq<char>) -> Seq<char>
    decreases s.len(),
{
    if s.len() == 0 { Seq::empty() } else { escaped_attr(s.drop_last()) + attr_entity(s.last()) }
}

/// Appends element text, escaped.
pub fn push_escaped_text(out: &mut String, s: &[char])
    ensures
        final(out)@ == old(out)@ + escaped_text(s@),
{
    for i in 0..s.len()
        invariant
            out@ == old(out)@ + escaped_text(s@.take(i as int)),
    {
        assert(s@.take(i + 1).drop_last() =~= s@.take(i as int));
        let c = s[i];
        if c == '&' {
            push_str(out, "&amp;");
        } else if c == '<' {
            push_str(out, "&lt;");
        } else if c == '>' {
            push_str(out, "&gt;");
        } else {
            out.push(c);
        }
        assert(out@ =~= old(out)@ + escaped_text(s@.take(i + 1)));
    }
    assert(s@.take(s.len() as int) =~= s@);
}

/// Appends attribute text, escaped.
pub fn push_escaped_attr(out: &mut String, s: &[char])
    ensures
        final(out)@ == old(out)@ + escaped_attr(s@),
{
    for i in 0..s.len()
        invariant
            out@ == old(out)@ + escaped_attr(s@.take(i as int)),
    {
        assert(s@.take(i + 1).drop_last() =~= s@.take(i as int));
        let c = s[i];
        if c == '"' {
            push_str(out, "&quot;");
        } else if c == '&' {
            push_str(out, "&amp;");
        } else if c == '<' {
            push_str(out, "&lt;");
        } else if c == '>' {
            push_str(out, "&gt;");
        } else {
            out.push(c);
        }
        assert(out@ =~= old(out)@ + escaped_attr(s@.take(i + 1)));
    }
    assert(s@.take(s.len() as int) =~= s@);
}

/// Escapes text for embedding as element text.
pub fn escape_text(text: &str) -> (r: String)
    ensures
        r@ == escaped_text(text@),
{
    let s = chars_of(text);
    let mut out = String::new();
    push_escaped_text(&mut out, s.as_slice());
    out
}

/// Escapes text for a double-quoted HTML attribute value.
pub fn escape_attribute(text: &str) -> (r: String)
    ensures
        r@ == escaped_attr(text@),
{
    let s = chars_of(text);
    let mut out = String::new();
    push_escaped_attr(&mut out, s.as_slice());
    out
}

/// Escapes a citation name or string for an attribute; the same rules
/// as `escape_attribute`.
pub fn escape_attr(text: &str) -> (r: String)
    ensures
        r@ == escaped_attr(text@),
{
    escape_attribute(text)
}

/// The slug of heading text so far, and whether its last character is a
/// separator (true at the start, so leading separators never show).
pub open spec fn slug_fold(s: Seq<char>) -> (Seq<char>, bool)
    decreases s.len(),
{
    if s.len() == 0 {
        (Seq::empty(), true)
    } else {
        let (out, dash) = slug_fold(s.drop_last());
        let c = lower(s.last());
        if is_ascii_alnum(c) {
            (out.push(c), false)
        } else if !dash {
            (out.push('-'), true)
        } else {
            (out, dash)
        }
    }
}

/// `s` with trailing hyphens removed.
pub open spec fn trim_dashes(s: Seq<char>) -> Seq<char>
    decreases s.len(),
{
    if s.len() > 0 && s.last() == '-' { trim_dashes(s.drop_last()) } else { s }
}

/// A heading's anchor id: lowercase ASCII alphanumerics, every other run
/// of characters one hyphen, no hyphen at either end; "section" when
/// nothing is left.
pub open spec fn slugified(s: Seq<char>) -> Seq<char> {
    let t = trim_dashes(slug_fold(s).0);
    if t.len() == 0 { "section"@ } else { t }
}

/// The anchor id for heading text.
#[verifier::rlimit(50)]
pub fn slugify(text: &str) -> (r: String)
    ensures
        r@ == slugified(text@),
{
    let s = chars_of(text);
    let mut out: Vec<char> = Vec::new();
    let mut dash = true;
    for i in 0..s.len()
        invariant
            s@ == text@,
            (out@, dash) == slug_fold(s@.take(i as int)),
    {
        assert(s@.take(i + 1).drop_last() =~= s@.take(i as int));
        let c = char_lower(s[i]);
        if char_is_ascii_alnum(c) {
            out.push(c);
            dash = false;
        } else if !dash {
            out.push('-');
            dash = true;
        }
    }
    assert(s@.take(s.len() as int) =~= s@);
    let mut end = out.len();
    assert(out@.take(end as int) =~= out@);
    while end > 0 && out[end - 1] == '-'
        invariant
            end <= out@.len(),
            trim_dashes(out@.take(end as int)) == trim_dashes(slug_fold(text@).0),
        decreases end,
    {
        assert(out@.take(end as int).drop_last() =~= out@.take(end - 1));
        end = end - 1;
    }
    if end == 0 {
        owned("section")
    } else {
        crate::text::slice_string(out.as_slice(), 0, end)
    }
}

/// The heading ids handed out so far on one page, in order.
pub struct IdCounter {
    pub ids: Vec<String>,
}

/// The ids of a counter, as text.
pub open spec fn taken_of(ids: Seq<String>) -> Seq<Seq<char>> {
    ids.map_values(|s: String| s@)
}

/// The id spelled with suffix `n`: the base itself for one, else
/// "base-n".
pub open spec fn nth_id(base: Seq<char>, n: nat) -> Seq<char> {
    if n == 1 { base } else { base + seq!['-'] + decimal(n) }
}

/// The first suffix from `n` on whose id is not yet taken, looking no
/// further than two past the number of ids taken.
pub open spec fn free_from(taken: Seq<Seq<char>>, base: Seq<char>, n: nat) -> nat
    decreases taken.len() + 2 - n,
{
    if n >= taken.len() + 2 || !taken.contains(nth_id(base, n)) { n } else { free_from(taken, base, n + 1) }
}

/// The id a heading with id base `base` gets on a page where `taken`
/// are in use: the base itself while it is free, else the first of
/// "base-2", "base-3", ... not yet in use.
pub open spec fn fresh_id(taken: Seq<Seq<char>>, base: Seq<char>) -> Seq<char> {
    if !taken.contains(base) { base } else { nth_id(base, free_from(taken, base, 2)) }
}

impl IdCounter {
    pub fn new() -> (r: IdCounter)
        ensures
            r.ids@.len() == 0,
    {
        IdCounter { ids: Vec::new() }
    }
}

/// Whether `id` has been handed out.
fn id_taken(ids: &Vec<String>, id: &str) -> (r: bool)
    ensures
        r == taken_of(ids@).contains(id@),
{
    let mut k: usize = 0;
    while k < ids.len()
        invariant
            k <= ids@.len(),
            forall|j: int| 0 <= j < k ==> ids@[j]@ != id@,
        decreases ids@.len() - k,
    {
        if crate::text::text_eq(ids[k].as_str(), id) {
            assert(taken_of(ids@)[k as int] == id@);
            return true;
        }
        k = k + 1;
    }
    proof {
        if taken_of(ids@).contains(id@) {
            let j = choose|j: int| 0 <= j < taken_of(ids@).len() && taken_of(ids@)[j] == id@;
            assert(ids@[j]@ == id@);
        }
    }
    false
}

/// "base-n", for a suffix of at least two.
fn suffixed(base: &str, n: usize) -> (r: String)
    requires
        n >= 2,
    ensures
        r@ == nth_id(base@, n as nat),
{
    let mut id = owned(base);
    id.push('-');
    crate::text::push_decimal_usize(&mut id, n);
    id
}

/// Deduplicates an anchor id within one page: a base that is still free
/// is kept, else the first "-2", "-3", ... that makes it free is
/// appended; the id handed out is recorded.
pub fn unique_id(used: &mut IdCounter, base: String) -> (r: String)
    requires
        old(used).ids@.len() + 2 <= usize::MAX,
    ensures
        r@ == fresh_id(taken_of(old(used).ids@), base@),
        taken_of(final(used).ids@) == taken_of(old(used).ids@).push(r@),
        final(used).ids@.len() == old(used).ids@.len() + 1,
{
    let ghost taken = taken_of(used.ids@);
    let ghost b = base@;
    let id = if !id_taken(&used.ids, base.as_str()) {
        base
    } else {
        let mut n: usize = 2;
        let mut cand = suffixed(base.as_str(), n);
        while n < used.ids.len() + 2 && id_taken(&used.ids, cand.as_str())
            invariant
                2 <= n <= used.ids@.len() + 2,
                used.ids@.len() + 2 <= usize::MAX,
                taken == taken_of(used.ids@),
                b == base@,
                cand@ == nth_id(b, n as nat),
                free_from(taken, b, n as nat) == free_from(taken, b, 2),
            decreases used.ids@.len() + 2 - n,
        {
            n = n + 1;
            cand = suffixed(base.as_str(), n);
        }
        cand
    };
    used.ids.push(owned(id.as_str()));
    assert(taken_of(used.ids@) =~= taken.push(id@));
    id
}

proof fn lemma_free_from(taken: Seq<Seq<char>>, base: Seq<char>, n: nat)
    requires
        n <= taken.len() + 2,
    ensures
        n <= free_from(taken, base, n) <= taken.len() + 2,
        forall|k: nat| n <= k < free_from(taken, base, n) ==> taken.contains(#[trigger] nth_id(base, k)),
        free_from(taken, base, n) < taken.len() + 2 ==> !taken.contains(nth_id(base, free_from(taken, base, n))),
    decreases taken.len() + 2 - n,
{
    if n < taken.len() + 2 && taken.contains(nth_id(base, n)) {
        lemma_free_from(taken, base, n + 1);
    }
}


/// A character a citation name may use.
pub open spec fn name_char(c: char) -> bool {
    is_lower(c) || is_digit(c) || c == '.' || c == '-'
}

/// A name separator.
pub open spec fn separator(c: char) -> bool {
    c == '.' || c == '-'
}

/// The length of the run of name characters at the start of `s`.
pub open spec fn name_run(s: Seq<char>) -> nat
    decreases s.len(),
{
    if s.len() == 0 || !name_char(s[0]) { 0 } else { 1 + name_run(s.drop_first()) }
}

/// Two separators side by side somewhere in `n`.
pub open spec fn doubled_separator(n: Seq<char>) -> bool {
    exists|i: int| 0 <= i < n.len() - 1 && #[trigger] separator(n[i]) && separator(n[i + 1])
}

/// The citation name at the start of `text`: lowercase alphanumerics in
/// dot- or hyphen-separated segments, starting and ending alphanumeric,
/// with no two separators side by side.
pub open spec fn citation_name_of(text: Seq<char>) -> Option<Seq<char>> {
    let name = text.take(name_run(text) as int);
    if name.len() == 0 {
        None
    } else if !is_ascii_alnum(name[0]) || !is_ascii_alnum(name.last()) {
        None
    } else if doubled_separator(name) {
        None
    } else {
        Some(name)
    }
}

proof fn lemma_name_run(s: Seq<char>)
    ensures
        name_run(s) <= s.len(),
        forall|i: int| 0 <= i < name_run(s) ==> name_char(s[i]),
        name_run(s) < s.len() ==> !name_char(s[name_run(s) as int]),
    decreases s.len(),
{
    if s.len() > 0 && name_char(s[0]) {
        lemma_name_run(s.drop_first());
        assert forall|i: int| 0 <= i < name_run(s) implies name_char(s[i]) by {
            if i > 0 {
                assert(s[i] == s.drop_first()[i - 1]);
            }
        }
    }
}

/// The length of the name-character run of `s[from..]`.
fn name_run_at(s: &[char], from: usize) -> (r: usize)
    requires
        from <= s@.len(),
    ensures
        r == name_run(s@.skip(from as int)),
        from + r <= s@.len(),
{
    let n = s.len();
    let mut i = from;
    while i < n && (char_is_lower(s[i]) || char_is_digit(s[i]) || s[i] == '.' || s[i] == '-')
        invariant
            from <= i <= n,
            n == s@.len(),
            name_run(s@.skip(from as int)) == (i - from) + name_run(s@.skip(i as int)),
        decreases n - i,
    {
        assert(s@.skip(i as int).drop_first() =~= s@.skip(i + 1));
        i = i + 1;
    }
    i - from
}

/// Reads a citation name at `s[from..]`, as `citation_name_of` does.
fn citation_name_at(s: &[char], from: usize) -> (r: Option<usize>)
    requires
        from <= s@.len(),
    ensures
        match citation_name_of(s@.skip(from as int)) {
            Some(name) => r matches Some(l) && l as nat == name.len() && from + name.len() <= s@.len(),
            None => r is None,
        },
{
    let len = name_run_at(s, from);
    let ghost t = s@.skip(from as int);
    let ghost name = t.take(len as int);
    proof { lemma_name_run(t); }
    if len == 0 {
        return None;
    }
    let first = s[from];
    let last = s[from + len - 1];
    assert(first == name[0]);
    assert(last == name.last());
    if !(char_is_lower(first) || char_is_digit(first)) || !(char_is_lower(last) || char_is_digit(last)) {
        assert(!is_ascii_alnum(name[0]) || !is_ascii_alnum(name.last())) by {
            assert(name_char(name[0]) && name_char(name.last()));
        }
        return None;
    }
    assert(is_ascii_alnum(name[0]) && is_ascii_alnum(name.last()));
    let n = s.len();
    for k in 0..len - 1
        invariant
            n == s@.len(),
            len >= 1,
            len == name_run(t),
            from + len <= s@.len(),
            t == s@.skip(from as int),
            name == t.take(len as int),
            forall|j: int| 0 <= j < k ==> !(#[trigger] separator(name[j]) && separator(name[j + 1])),
    {
        let a = s[from + k];
        let b = s[from + k + 1];
        assert(a == name[k as int] && b == name[k + 1]);
        if (a == '.' || a == '-') && (b == '.' || b == '-') {
            assert(separator(name[k as int]) && separator(name[k + 1]));
            assert(doubled_separator(name));
            return None;
        }
    }
    assert(!doubled_separator(name));
    Some(len)
}

/// The citation name at the start of `text`, if it has one.
pub fn citation_name(text: &str) -> (r: Option<String>)
    ensures
        match citation_name_of(text@) {
            Some(name) => r matches Some(n) && n@ == name,
            None => r is None,
        },
{
    let s = chars_of(text);
    assert(s@.skip(0) =~= s@);
    let ghost name = citation_name_of(text@);
    assert(s@.skip(0) == text@);
    match citation_name_at(s.as_slice(), 0) {
        Some(len) => {
            assert(name is Some);
            let n = crate::text::slice_string(s.as_slice(), 0, len);
            assert(n@ =~= s@.take(len as int));
            assert(name->0 == text@.take(name_run(text@) as int));
            proof { lemma_name_run(text@); }
            assert(n@ =~= name->0);
            Some(n)
        },
        None => None,
    }
}


/// The length of the run of backticks starting at `at`.
pub open spec fn tick_run(s: Seq<char>, at: int) -> nat
    decreases s.len() - at,
{
    if 0 <= at < s.len() && s[at] == '`' { 1 + tick_run(s, at + 1) } else { 0 }
}

/// The next backtick run of exactly `len` at or after `at`; runs of
/// another length are skipped whole.
pub open spec fn find_run(s: Seq<char>, at: int, len: nat) -> Option<int>
    decreases s.len() - at,
{
    if at < 0 || at >= s.len() {
        None
    } else if s[at] == '`' {
        let r = tick_run(s, at);
        proof { lemma_tick_run(s, at); }
        if r == len { Some(at) } else { find_run(s, at + r, len) }
    } else {
        find_run(s, at + 1, len)
    }
}

/// A citation anchor found in source: its character range and name.
pub type SpanView = (int, int, Seq<char>);

/// The anchors of one line from `at` on, skipping inline-code spans: a
/// backtick run opens a span that the next run of the same length
/// closes; an unclosed run is not a span.
pub open spec fn scan(line: Seq<char>, at: int) -> Seq<SpanView>
    decreases line.len() - at,
{
    if at < 0 || at >= line.len() {
        Seq::empty()
    } else if line[at] == '`' {
        let r = tick_run(line, at);
        proof { lemma_tick_run(line, at); }
        let after = at + r;
        match find_run(line, after, r) {
            Some(p) => if at < p + r <= line.len() { scan(line, p + r) } else { Seq::empty() },
            None => scan(line, after),
        }
    } else if line[at] == '[' && at + 1 < line.len() && line[at + 1] == '*'
        && citation_name_of(line.skip(at + 2)) is Some
        && at + 2 + citation_name_of(line.skip(at + 2))->0.len() < line.len()
        && line[at + 2 + citation_name_of(line.skip(at + 2))->0.len()] == ']' {
        let name = citation_name_of(line.skip(at + 2))->0;
        let end = at + 2 + name.len() + 1;
        seq![(at, end, name)] + scan(line, end)
    } else {
        scan(line, at + 1)
    }
}

pub proof fn lemma_tick_run(s: Seq<char>, at: int)
    requires
        0 <= at,
    ensures
        at + tick_run(s, at) <= s.len() || tick_run(s, at) == 0,
        at < s.len() && s[at] == '`' ==> tick_run(s, at) >= 1,
    decreases s.len() - at,
{
    if 0 <= at < s.len() && s[at] == '`' {
        lemma_tick_run(s, at + 1);
    }
}

pub proof fn lemma_find_run(s: Seq<char>, at: int, len: nat)
    ensures
        find_run(s, at, len) matches Some(p) ==> at <= p < s.len() && tick_run(s, p) == len,
    decreases s.len() - at,
{
    if 0 <= at < s.len() {
        lemma_tick_run(s, at);
        if s[at] == '`' {
            let r = tick_run(s, at);
            if r != len {
                lemma_find_run(s, at + r, len);
            }
        } else {
            lemma_find_run(s, at + 1, len);
        }
    }
}

/// Counts the backticks starting at `at`.
fn count_ticks(s: &[char], at: usize) -> (r: usize)
    requires
        at <= s@.len(),
    ensures
        r == tick_run(s@, at as int),
        at + r <= s@.len(),
{
    let n = s.len();
    let mut i = at;
    while i < n && s[i] == '`'
        invariant
            at <= i <= n,
            n == s@.len(),
            tick_run(s@, at as int) == (i - at) + tick_run(s@, i as int),
        decreases n - i,
    {
        i = i + 1;
    }
    i - at
}

/// Finds the next backtick run of exactly `len` from `at`.
fn find_backtick_run(s: &[char], at: usize, len: usize) -> (r: Option<usize>)
    requires
        at <= s@.len(),
    ensures
        r matches Some(p) ==> find_run(s@, at as int, len as nat) == Some(p as int) && p < s@.len(),
        r is None ==> find_run(s@, at as int, len as nat) is None,
{
    let n = s.len();
    let mut i = at;
    while i < n
        invariant
            at <= i <= n,
            n == s@.len(),
            find_run(s@, at as int, len as nat) == find_run(s@, i as int, len as nat),
        decreases n - i,
    {
        if s[i] == '`' {
            let r = count_ticks(s, i);
            proof { lemma_tick_run(s@, i as int); }
            if r == len {
                return Some(i);
            }
            i = i + r;
        } else {
            i = i + 1;
        }
    }
    None
}

/// Anchors in one line, skipping inline-code spans.
fn scan_line(line: &[char], found: &mut Vec<(usize, usize, String)>, offset: usize)
    requires
        offset + line@.len() <= usize::MAX,
    ensures
        span_views(final(found)@) == span_views(old(found)@) + shift(scan(line@, 0), offset as int),
{
    let n = line.len();
    let mut at: usize = 0;
    let ghost start = span_views(found@);
    while at < n
        invariant
            n == line@.len(),
            at <= n,
            offset + n <= usize::MAX,
            span_views(found@) + shift(scan(line@, at as int), offset as int)
                == start + shift(scan(line@, 0), offset as int),
        decreases n - at,
    {
        if line[at] == '`' {
            let run = count_ticks(line, at);
            proof { lemma_tick_run(line@, at as int); }
            let after = at + run;
            match find_backtick_run(line, after, run) {
                Some(p) => {
                    proof {
                        lemma_find_run(line@, after as int, run as nat);
                        lemma_tick_run(line@, p as int);
                    }
                    at = p + run;
                },
                None => {
                    at = after;
                },
            }
            continue;
        }
        if line[at] == '[' && at + 1 < n && line[at + 1] == '*' {
            match citation_name_at(line, at + 2) {
                Some(len) => {
                    if at + 2 + len < n && line[at + 2 + len] == ']' {
                        let end = at + 2 + len + 1;
                        let name = crate::text::slice_string(line, at + 2, at + 2 + len);
                        proof { lemma_name_run(line@.skip(at + 2)); }
                        assert(name@ =~= citation_name_of(line@.skip(at + 2))->0);
                        let ghost b = span_views(found@);
                        found.push((offset + at, offset + end, name));
                        assert(span_views(found@) =~= b.push(((offset + at) as int, (offset + end) as int, name@)));
                        assert(shift(scan(line@, at as int), offset as int)
                            =~= seq![((offset + at) as int, (offset + end) as int, name@)] + shift(scan(line@, end as int), offset as int));
                        at = end;
                        continue;
                    }
                },
                None => {},
            }
        }
        at = at + 1;
    }
}

/// Spans as plain values.
pub open spec fn span_views(v: Seq<(usize, usize, String)>) -> Seq<SpanView> {
    v.map_values(|x: (usize, usize, String)| (x.0 as int, x.1 as int, x.2@))
}

/// Spans moved right by `offset`.
pub open spec fn shift(v: Seq<SpanView>, offset: int) -> Seq<SpanView> {
    v.map_values(|x: SpanView| (x.0 + offset, x.1 + offset, x.2))
}


/// Where the line starting at `i` ends: just past its newline, or at
/// the end of the text.
pub open spec fn line_end(s: Seq<char>, i: int) -> int {
    match first_index(s.skip(i), '\n') {
        Some(k) => i + k + 1,
        None => s.len() as int,
    }
}

pub open spec fn ticks3() -> Seq<char> {
    seq!['`', '`', '`']
}

pub open spec fn tildes3() -> Seq<char> {
    seq!['~', '~', '~']
}

/// The citation anchors of the text from line start `i` on: fenced code
/// blocks (``` or ~~~, opened and closed by a trimmed line starting with
/// the marker) are skipped, every other line is scanned.
pub open spec fn spans_from(s: Seq<char>, i: int, fence: Option<Seq<char>>) -> Seq<SpanView>
    decreases s.len() - i,
{
    if i < 0 || i >= s.len() {
        Seq::empty()
    } else {
        let j = line_end(s, i);
        proof { lemma_first_index_bounds(s.skip(i), '\n'); }
        let line = s.subrange(i, j);
        let t = trim(line);
        match fence {
            Some(open) => spans_from(s, j, if has_prefix(t, open) { None } else { fence }),
            None => if has_prefix(t, ticks3()) {
                spans_from(s, j, Some(ticks3()))
            } else if has_prefix(t, tildes3()) {
                spans_from(s, j, Some(tildes3()))
            } else {
                shift(scan(line, 0), i) + spans_from(s, j, None)
            },
        }
    }
}

/// Every `[*name]` anchor in the text with its character range; fenced
/// code blocks and inline code spans are skipped.
pub fn citation_spans(markdown: &[char]) -> (r: Vec<(usize, usize, String)>)
    ensures
        span_views(r@) == spans_from(markdown@, 0, None),
{
    let n = markdown.len();
    let ticks = ['`', '`', '`'];
    let tildes = ['~', '~', '~'];
    assert(ticks@ =~= ticks3());
    assert(tildes@ =~= tildes3());
    let mut found: Vec<(usize, usize, String)> = Vec::new();
    let mut fence: Option<bool> = None;
    let mut i: usize = 0;
    while i < n
        invariant
            n == markdown@.len(),
            i <= n,
            ticks@ == ticks3(),
            tildes@ == tildes3(),
            span_views(found@) + spans_from(markdown@, i as int, match fence { Some(t) => Some(if t { ticks3() } else { tildes3() }), None => None })
                == spans_from(markdown@, 0, None),
        decreases n - i,
    {
        let ghost f = match fence { Some(t) => Some(if t { ticks3() } else { tildes3() }), None => None };
        let rest = crate::text::slice_vec(markdown, i, n);
        assert(rest@ =~= markdown@.skip(i as int));
        let j = match find_first(rest.as_slice(), '\n') {
            Some(k) => {
                proof { lemma_first_index_bounds(rest@, '\n'); }
                i + k + 1
            },
            None => n,
        };
        assert(j == line_end(markdown@, i as int));
        let (a, b) = trim_bounds(markdown, i, j);
        let t = crate::text::slice_vec(markdown, a, b);
        assert(t@ == trim(markdown@.subrange(i as int, j as int)));
        match fence {
            Some(is_ticks) => {
                let closes = if is_ticks { starts_at(t.as_slice(), 0, &ticks) } else { starts_at(t.as_slice(), 0, &tildes) };
                assert(t@.skip(0) =~= t@);
                if closes {
                    fence = None;
                }
            },
            None => {
                assert(t@.skip(0) =~= t@);
                if starts_at(t.as_slice(), 0, &ticks) {
                    fence = Some(true);
                } else if starts_at(t.as_slice(), 0, &tildes) {
                    fence = Some(false);
                } else {
                    let line = crate::text::slice_vec(markdown, i, j);
                    assert(line@ =~= markdown@.subrange(i as int, j as int));
                    let ghost b4 = span_views(found@);
                    scan_line(line.as_slice(), &mut found, i);
                    assert(span_views(found@) + spans_from(markdown@, j as int, None)
                        =~= b4 + (shift(scan(line@, 0), i as int) + spans_from(markdown@, j as int, None)));
                }
            },
        }
        i = j;
    }
    found
}

/// Every anchor a line scan finds starts inside the line.
pub proof fn lemma_scan_bounds(line: Seq<char>, at: int)
    ensures
        forall|k: int| 0 <= k < scan(line, at).len() ==> 0 <= #[trigger] scan(line, at)[k].0 < line.len(),
    decreases line.len() - at,
{
    if 0 <= at < line.len() {
        if line[at] == '`' {
            let r = tick_run(line, at);
            lemma_tick_run(line, at);
            let after = at + r;
            match find_run(line, after, r) {
                Some(p) => if at < p + r <= line.len() {
                    lemma_scan_bounds(line, p + r);
                    assert(scan(line, at) == scan(line, p + r));
                } else {
                    assert(scan(line, at) == Seq::<SpanView>::empty());
                },
                None => {
                    lemma_scan_bounds(line, after);
                    assert(scan(line, at) == scan(line, after));
                },
            }
        } else if line[at] == '[' && at + 1 < line.len() && line[at + 1] == '*'
            && citation_name_of(line.skip(at + 2)) is Some
            && at + 2 + citation_name_of(line.skip(at + 2))->0.len() < line.len()
            && line[at + 2 + citation_name_of(line.skip(at + 2))->0.len()] == ']' {
            let name = citation_name_of(line.skip(at + 2))->0;
            let end = at + 2 + name.len() + 1;
            lemma_scan_bounds(line, end);
            let rest = scan(line, end);
            assert forall|k: int| 0 <= k < scan(line, at).len() implies 0 <= #[trigger] scan(line, at)[k].0 < line.len() by {
                if k > 0 {
                    assert(scan(line, at)[k] == rest[k - 1]);
                }
            }
        } else {
            lemma_scan_bounds(line, at + 1);
            assert(scan(line, at) == scan(line, at + 1));
        }
    }
}

/// Every anchor found starts inside the text.
pub proof fn lemma_spans_in_bounds(s: Seq<char>)
    ensures
        forall|k: int| 0 <= k < spans_from(s, 0, None).len() ==> 0 <= #[trigger] spans_from(s, 0, None)[k].0 < s.len(),
{
    lemma_spans_from_bounds(s, 0, None);
}

pub proof fn lemma_spans_from_bounds(s: Seq<char>, i: int, fence: Option<Seq<char>>)
    ensures
        forall|k: int| 0 <= k < spans_from(s, i, fence).len() ==> 0 <= #[trigger] spans_from(s, i, fence)[k].0 < s.len(),
    decreases s.len() - i,
{
    if 0 <= i < s.len() {
        let j = line_end(s, i);
        lemma_first_index_bounds(s.skip(i), '\n');
        let line = s.subrange(i, j);
        let t = trim(line);
        match fence {
            Some(open) => {
                lemma_spans_from_bounds(s, j, if has_prefix(t, open) { None } else { fence });
                assert(spans_from(s, i, fence) == spans_from(s, j, if has_prefix(t, open) { None } else { fence }));
            },
            None => if has_prefix(t, ticks3()) {
                lemma_spans_from_bounds(s, j, Some(ticks3()));
                assert(spans_from(s, i, fence) == spans_from(s, j, Some(ticks3())));
            } else if has_prefix(t, tildes3()) {
                lemma_spans_from_bounds(s, j, Some(tildes3()));
                assert(spans_from(s, i, fence) == spans_from(s, j, Some(tildes3())));
            } else {
                lemma_spans_from_bounds(s, j, None);
                lemma_scan_bounds(line, 0);
                let head = shift(scan(line, 0), i);
                let tail = spans_from(s, j, None);
                assert forall|k: int| 0 <= k < spans_from(s, i, fence).len() implies 0 <= #[trigger] spans_from(s, i, fence)[k].0 < s.len() by {
                    if k < head.len() {
                        assert(spans_from(s, i, fence)[k] == head[k]);
                        assert(scan(line, 0)[k].0 < line.len());
                        assert(head[k].0 == scan(line, 0)[k].0 + i);
                        assert(j <= s.len());
                    } else {
                        assert(spans_from(s, i, fence)[k] == tail[k - head.len()]);
                    }
                }
            },
        }
    }
}

/// The start of the blank-line-delimited block around `at`.
pub open spec fn block_start(s: Seq<char>, at: int) -> int {
    match crate::text::last_pair(s.take(at), '\n', '\n') {
        Some(p) => p + 2,
        None => 0,
    }
}

/// The end of the blank-line-delimited block around `at`.
pub open spec fn block_end(s: Seq<char>, at: int) -> int {
    match crate::text::first_pair(s.skip(at), '\n', '\n') {
        Some(k) => at + k,
        None => s.len() as int,
    }
}

/// `s[cursor..end]` with every span lying inside `[start, end]` cut out.
pub open spec fn strip_spans(s: Seq<char>, spans: Seq<SpanView>, start: int, end: int, cursor: int) -> Seq<char>
    decreases spans.len(),
{
    if spans.len() == 0 {
        s.subrange(cursor, end)
    } else {
        let sp = spans[0];
        if sp.0 < start || sp.1 > end || sp.0 < cursor || sp.1 < sp.0 {
            strip_spans(s, spans.drop_first(), start, end, cursor)
        } else {
            s.subrange(cursor, sp.0) + strip_spans(s, spans.drop_first(), start, end, sp.1)
        }
    }
}

/// The block containing `at`, anchors removed and whitespace collapsed.
pub open spec fn block_context_of(s: Seq<char>, at: int, spans: Seq<SpanView>) -> Seq<char> {
    let start = block_start(s, at);
    let end = block_end(s, at);
    collapse(strip_spans(s, spans, start, end, start))
}

/// The blank-line-delimited block containing `at`, with every anchor
/// removed and whitespace collapsed.
pub fn block_context(markdown: &[char], at: usize, spans: &Vec<(usize, usize, String)>) -> (r: String)
    requires
        at <= markdown@.len(),
    ensures
        r@ == block_context_of(markdown@, at as int, span_views(spans@)),
{
    let n = markdown.len();
    let start = match crate::text::find_last_pair(markdown, at, '\n', '\n') {
        Some(p) => {
            proof { crate::text::lemma_last_pair_bounds(markdown@.take(at as int), '\n', '\n'); }
            p + 2
        },
        None => 0,
    };
    let rest = crate::text::slice_vec(markdown, at, n);
    assert(rest@ =~= markdown@.skip(at as int));
    let end = match crate::text::find_pair(rest.as_slice(), '\n', '\n') {
        Some(k) => {
            proof { crate::text::lemma_first_pair_bounds(rest@, '\n', '\n'); }
            at + k
        },
        None => n,
    };
    assert(start <= at <= end <= n);
    let ghost sv = span_views(spans@);
    let mut text: Vec<char> = Vec::new();
    let mut cursor = start;
    assert(sv.skip(0) =~= sv);
    assert(text@ + strip_spans(markdown@, sv.skip(0), start as int, end as int, start as int) =~= strip_spans(markdown@, sv, start as int, end as int, start as int));
    for k in 0..spans.len()
        invariant
            n == markdown@.len(),
            start <= cursor <= end <= n,
            sv == span_views(spans@),
            text@ + strip_spans(markdown@, sv.skip(k as int), start as int, end as int, cursor as int)
                == strip_spans(markdown@, sv, start as int, end as int, start as int),
    {
        assert(sv.skip(k as int).drop_first() =~= sv.skip(k + 1));
        let (a, b) = (spans[k].0, spans[k].1);
        if !(a < start || b > end || a < cursor || b < a) {
            let piece = crate::text::slice_vec(markdown, cursor, a);
            let ghost tb = text@;
            let mut p2 = piece;
            text.append(&mut p2);
            assert(text@ =~= tb + markdown@.subrange(cursor as int, a as int));
            cursor = b;
        }
    }
    assert(sv.skip(spans.len() as int) =~= Seq::<SpanView>::empty());
    let tail = crate::text::slice_vec(markdown, cursor, end);
    let ghost tb = text@;
    let mut t2 = tail;
    text.append(&mut t2);
    assert(text@ =~= tb + markdown@.subrange(cursor as int, end as int));
    collapse_whitespace(text.as_slice())
}

/// One `[*name]` anchor found in an article's source: its name and the
/// source block it sits in, anchors removed.
pub struct CitationAnchor {
    pub name: String,
    pub context: String,
}

/// Every anchor in the text, each with its block context.
pub open spec fn citation_anchors_of(s: Seq<char>) -> Seq<(Seq<char>, Seq<char>)> {
    let spans = spans_from(s, 0, None);
    spans.map_values(|sp: SpanView| (sp.2, block_context_of(s, sp.0, spans)))
}

/// Every `[*name]` anchor in `markdown`, each with the source block it
/// sits in.
pub fn citation_anchors(markdown: &str) -> (r: Vec<CitationAnchor>)
    ensures
        r@.map_values(|a: CitationAnchor| (a.name@, a.context@)) == citation_anchors_of(markdown@),
{
    let s = chars_of(markdown);
    let spans = citation_spans(s.as_slice());
    let ghost sv = span_views(spans@);
    let ghost want = citation_anchors_of(markdown@);
    let mut out: Vec<CitationAnchor> = Vec::new();
    for k in 0..spans.len()
        invariant
            s@ == markdown@,
            sv == span_views(spans@),
            sv == spans_from(markdown@, 0, None),
            want == citation_anchors_of(markdown@),
            out@.map_values(|a: CitationAnchor| (a.name@, a.context@)) == want.take(k as int),
    {
        let start = spans[k].0;
        let at = if start <= s.len() { start } else { s.len() };
        proof { lemma_spans_in_bounds(markdown@); }
        assert(sv[k as int].0 <= markdown@.len());
        let context = block_context(s.as_slice(), at, &spans);
        let a = CitationAnchor { name: owned(spans[k].2.as_str()), context };
        let ghost b = out@.map_values(|a: CitationAnchor| (a.name@, a.context@));
        out.push(a);
        assert(out@.map_values(|a: CitationAnchor| (a.name@, a.context@)) =~= b.push((a.name@, a.context@)));
        assert(want.take(k + 1) =~= want.take(k as int).push(want[k as int]));
    }
    assert(want.take(spans.len() as int) =~= want);
    out
}


/// The full citation string an anchor displays: "<short> *<name>", or
/// "*<name>" outside a named book.
pub open spec fn full_citation(short: Option<Seq<char>>, name: Seq<char>) -> Seq<char> {
    match short {
        Some(sh) => sh + seq![' ', '*'] + name,
        None => seq!['*'] + name,
    }
}

/// The rendered marker of one anchor: a superscript link to itself.
pub open spec fn anchor_html(name: Seq<char>, full: Seq<char>) -> Seq<char> {
    "<a class=\"citation-anchor\" id=\"cite-"@ + escaped_attr(name) + "\" href=\"#cite-"@ + escaped_attr(name)
        + "\" data-citation=\""@ + escaped_attr(full) + "\" title=\""@ + escaped_attr(full)
        + "\" aria-label=\"Citation "@ + escaped_attr(full) + "\"><sup>\u{00a7}</sup></a>"@
}

/// `s` from `cursor` on, each span replaced by its rendered marker.
pub open spec fn expand_from(s: Seq<char>, spans: Seq<SpanView>, cursor: int, short: Option<Seq<char>>) -> Seq<char>
    decreases spans.len(),
{
    if spans.len() == 0 {
        s.subrange(cursor, s.len() as int)
    } else {
        let sp = spans[0];
        if sp.0 < cursor || sp.1 < sp.0 || sp.1 > s.len() {
            expand_from(s, spans.drop_first(), cursor, short)
        } else {
            s.subrange(cursor, sp.0) + anchor_html(sp.2, full_citation(short, sp.2))
                + expand_from(s, spans.drop_first(), sp.1, short)
        }
    }
}

/// Appends the rendered marker of one anchor.
fn push_anchor(out: &mut String, name: &[char], book_short: Option<&str>)
    ensures
        final(out)@ == old(out)@ + anchor_html(name@, full_citation(
            match book_short { Some(sh) => Some(sh@), None => None }, name@)),
{
    let mut full = String::new();
    match book_short {
        Some(sh) => {
            push_str(&mut full, sh);
            full.push(' ');
            full.push('*');
        },
        None => {
            full.push('*');
        },
    }
    push_chars(&mut full, name);
    let fc = chars_of(full.as_str());
    assert(fc@ =~= full_citation(match book_short { Some(sh) => Some(sh@), None => None }, name@));
    push_str(out, "<a class=\"citation-anchor\" id=\"cite-");
    push_escaped_attr(out, name);
    push_str(out, "\" href=\"#cite-");
    push_escaped_attr(out, name);
    push_str(out, "\" data-citation=\"");
    push_escaped_attr(out, fc.as_slice());
    push_str(out, "\" title=\"");
    push_escaped_attr(out, fc.as_slice());
    push_str(out, "\" aria-label=\"Citation ");
    push_escaped_attr(out, fc.as_slice());
    push_str(out, "\"><sup>\u{00a7}</sup></a>");
    assert(out@ =~= old(out)@ + anchor_html(name@, full_citation(
            match book_short { Some(sh) => Some(sh@), None => None }, name@)));
}

/// Rewrites every `[*name]` anchor into its rendered marker before the
/// markdown is parsed, so its `*` can never pair with emphasis.
pub fn expand_citation_anchors(markdown: &str, book_short: Option<&str>) -> (r: String)
    ensures
        r@ == expand_from(markdown@, spans_from(markdown@, 0, None), 0,
            match book_short { Some(sh) => Some(sh@), None => None }),
{
    let s = chars_of(markdown);
    let n = s.len();
    let spans = citation_spans(s.as_slice());
    let ghost sv = span_views(spans@);
    let ghost short = match book_short { Some(sh) => Some(sh@), None => None };
    let mut out = String::new();
    let mut cursor: usize = 0;
    assert(sv.skip(0) =~= sv);
    for k in 0..spans.len()
        invariant
            n == s@.len(),
            s@ == markdown@,
            cursor <= n,
            sv == span_views(spans@),
            sv == spans_from(markdown@, 0, None),
            short == match book_short { Some(sh) => Some(sh@), None => None },
            out@ + expand_from(s@, sv.skip(k as int), cursor as int, short) == expand_from(s@, sv, 0, short),
    {
        assert(sv.skip(k as int).drop_first() =~= sv.skip(k + 1));
        let (a, b) = (spans[k].0, spans[k].1);
        if !(a < cursor || b < a || b > n) {
            let piece = crate::text::slice_vec(s.as_slice(), cursor, a);
            push_chars(&mut out, piece.as_slice());
            let name = chars_of(spans[k].2.as_str());
            push_anchor(&mut out, name.as_slice(), book_short);
            let ghost mid = out@;
            assert(mid == out@);
            cursor = b;
        }
    }
    assert(sv.skip(spans.len() as int) =~= Seq::<SpanView>::empty());
    let tail = crate::text::slice_vec(s.as_slice(), cursor, n);
    push_chars(&mut out, tail.as_slice());
    out
}

/// h2/h3 section-number counters ("2.1" → "2.1.1", "2.1.1.1").
pub struct SectionCounter {
    pub h2: u32,
    pub h3: u32,
}

impl SectionCounter {
    pub fn new() -> (r: SectionCounter)
        ensures
            r.h2 == 0 && r.h3 == 0,
    {
        SectionCounter { h2: 0, h3: 0 }
    }

    /// The number of the next heading at `level` on a page numbered
    /// `numbering`: an h2 starts a new "<prefix>.<n>" and resets the h3
    /// count; an h3 is "<prefix>.<h2>.<n>". Unnumbered pages and other
    /// levels get none and leave the counters alone.
    pub fn advance(&mut self, numbering: Option<&str>, level: u8) -> (r: Option<String>)
        requires
            old(self).h2 < u32::MAX,
            old(self).h3 < u32::MAX,
        ensures
            match (numbering, level) {
                (Some(prefix), 2) => final(self).h2 == old(self).h2 + 1 && final(self).h3 == 0
                    && (r matches Some(n) && n@ == prefix@ + seq!['.'] + decimal(final(self).h2 as nat)),
                (Some(prefix), 3) => final(self).h2 == old(self).h2 && final(self).h3 == old(self).h3 + 1
                    && (r matches Some(n) && n@ == prefix@ + seq!['.'] + decimal(final(self).h2 as nat)
                        + seq!['.'] + decimal(final(self).h3 as nat)),
                _ => r is None && final(self).h2 == old(self).h2 && final(self).h3 == old(self).h3,
            },
    {
        match numbering {
            Some(prefix) => {
                if level == 2 {
                    self.h2 = self.h2 + 1;
                    self.h3 = 0;
                    let mut n = owned(prefix);
                    n.push('.');
                    push_decimal(&mut n, self.h2);
                    Some(n)
                } else if level == 3 {
                    self.h3 = self.h3 + 1;
                    let mut n = owned(prefix);
                    n.push('.');
                    push_decimal(&mut n, self.h2);
                    n.push('.');
                    push_decimal(&mut n, self.h3);
                    Some(n)
                } else {
                    None
                }
            },
            None => None,
        }
    }
}

/// An inline-reference link: `<a class="inline-ref" href="…">…</a>`.
pub open spec fn ref_link_html(href: Seq<char>, text: Seq<char>) -> Seq<char> {
    "<a class=\"inline-ref\" href=\""@ + escaped_attr(href) + "\">"@ + escaped_text(text) + "</a>"@
}

/// The markup of an inline-reference link.
pub fn ref_link(href: &str, text: &str) -> (r: String)
    ensures
        r@ == ref_link_html(href@, text@),
{
    let mut out = owned("<a class=\"inline-ref\" href=\"");
    let h = chars_of(href);
    push_escaped_attr(&mut out, h.as_slice());
    push_str(&mut out, "\">");
    let t = chars_of(text);
    push_escaped_text(&mut out, t.as_slice());
    push_str(&mut out, "</a>");
    out
}

/// A published image: its URL, and pixel dimensions where the file
/// header gives them.
pub struct ImageInfo {
    pub url: String,
    pub width: Option<u32>,
    pub height: Option<u32>,
}

/// The `<img>` tag of an image: src and alt always, width and height
/// when both are known, a title when a non-empty one is given.
pub open spec fn image_tag_html(url: Seq<char>, width: Option<u32>, height: Option<u32>, alt: Seq<char>, title: Option<Seq<char>>) -> Seq<char> {
    "<img src=\""@ + escaped_attr(url) + "\" alt=\""@ + escaped_attr(alt) + "\""@
        + (match (width, height) {
            (Some(w), Some(h)) => " width=\""@ + decimal(w as nat) + "\" height=\""@ + decimal(h as nat) + "\""@,
            _ => Seq::empty(),
        })
        + (match title {
            Some(t) => if t.len() > 0 { " title=\""@ + escaped_attr(t) + "\""@ } else { Seq::empty() },
            None => Seq::empty(),
        })
        + seq!['>']
}

/// The `<img>` tag for a resolved image.
pub fn image_tag(info: &ImageInfo, alt: &str, title: Option<&str>) -> (r: String)
    ensures
        r@ == image_tag_html(info.url@, info.width, info.height, alt@,
            match title { Some(t) => Some(t@), None => None }),
{
    let mut tag = owned("<img src=\"");
    let u = chars_of(info.url.as_str());
    push_escaped_attr(&mut tag, u.as_slice());
    push_str(&mut tag, "\" alt=\"");
    let a = chars_of(alt);
    push_escaped_attr(&mut tag, a.as_slice());
    push_str(&mut tag, "\"");
    match (info.width, info.height) {
        (Some(w), Some(h)) => {
            push_str(&mut tag, " width=\"");
            push_decimal(&mut tag, w);
            push_str(&mut tag, "\" height=\"");
            push_decimal(&mut tag, h);
            push_str(&mut tag, "\"");
        },
        _ => {},
    }
    match title {
        Some(t) => {
            let tc = chars_of(t);
            if tc.len() > 0 {
                push_str(&mut tag, " title=\"");
                push_escaped_attr(&mut tag, tc.as_slice());
                push_str(&mut tag, "\"");
            }
        },
        None => {},
    }
    tag.push('>');
    tag
}


/// One "On this page" entry: an h2 or h3 with its generated anchor id.
pub struct TocEntry {
    pub level: u8,
    pub id: String,
    pub title: String,
    /// The heading's section number ("2.1.3") when the page is numbered.
    pub number: Option<String>,
}

/// An article rendered to HTML, with what the page around it needs.
pub struct Rendered {
    pub html: String,
    pub toc: Vec<TocEntry>,
    /// Whether the article holds a mermaid diagram, so its page pulls in
    /// the otherwise omitted mermaid script.
    pub has_mermaid: bool,
    /// Missing link targets, downgraded to warnings.
    pub dangling: Vec<String>,
    /// Fatal link problems, collected so one build reports them all.
    pub broken: Vec<String>,
}

/// Rendering inside a `/print` bundle: links to pages of the same bundle
/// become in-page anchors, the rest absolute URLs.
pub struct PrintScope<'a> {
    /// Every page of the bundle (an alias by its original) and its anchor.
    pub anchors: &'a Vec<(String, String)>,
    /// The site's base URL, when it has one.
    pub base: Option<&'a str>,
}


/// A character an anchor id may hold: a lowercase ASCII letter, a digit
/// or a hyphen.
pub open spec fn id_char(c: char) -> bool {
    (is_ascii_alnum(c) && !is_upper(c)) || c == '-'
}

/// What the slug fold keeps throughout: id characters only, no leading
/// or doubled hyphen, and the flag tracks a trailing hyphen.
pub open spec fn slug_shape(out: Seq<char>, dash: bool) -> bool {
    &&& forall|k: int| 0 <= k < out.len() ==> id_char(#[trigger] out[k])
    &&& out.len() > 0 ==> out[0] != '-'
    &&& forall|k: int| 0 <= k < out.len() - 1 ==> !(#[trigger] out[k] == '-' && out[k + 1] == '-')
    &&& dash == (out.len() == 0 || out.last() == '-')
}

proof fn lemma_slug_fold_shape(s: Seq<char>)
    ensures
        slug_shape(slug_fold(s).0, slug_fold(s).1),
    decreases s.len(),
{
    if s.len() > 0 {
        lemma_slug_fold_shape(s.drop_last());
        let (out, dash) = slug_fold(s.drop_last());
        let c = lower(s.last());
        if is_ascii_alnum(c) {
            let o = out.push(c);
            assert forall|k: int| 0 <= k < o.len() implies id_char(#[trigger] o[k]) by {
                if k < out.len() {
                    assert(o[k] == out[k]);
                }
            }
            assert forall|k: int| 0 <= k < o.len() - 1 implies !(#[trigger] o[k] == '-' && o[k + 1] == '-') by {
                if k < out.len() - 1 {
                    assert(o[k] == out[k] && o[k + 1] == out[k + 1]);
                }
            }
        } else if !dash {
            let o = out.push('-');
            assert forall|k: int| 0 <= k < o.len() implies id_char(#[trigger] o[k]) by {
                if k < out.len() {
                    assert(o[k] == out[k]);
                }
            }
            assert forall|k: int| 0 <= k < o.len() - 1 implies !(#[trigger] o[k] == '-' && o[k + 1] == '-') by {
                if k < out.len() - 1 {
                    assert(o[k] == out[k] && o[k + 1] == out[k + 1]);
                }
            }
        }
    }
}

proof fn lemma_trim_dashes_shape(s: Seq<char>)
    requires
        forall|k: int| 0 <= k < s.len() ==> id_char(#[trigger] s[k]),
        s.len() > 0 ==> s[0] != '-',
        forall|k: int| 0 <= k < s.len() - 1 ==> !(#[trigger] s[k] == '-' && s[k + 1] == '-'),
    ensures
        trim_dashes(s).len() <= s.len(),
        trim_dashes(s) == s.take(trim_dashes(s).len() as int),
        trim_dashes(s).len() > 0 ==> trim_dashes(s).last() != '-',
    decreases s.len(),
{
    if s.len() > 0 && s.last() == '-' {
        let t = s.drop_last();
        assert forall|k: int| 0 <= k < t.len() implies id_char(#[trigger] t[k]) by {
            assert(t[k] == s[k]);
        }
        assert forall|k: int| 0 <= k < t.len() - 1 implies !(#[trigger] t[k] == '-' && t[k + 1] == '-') by {
            assert(t[k] == s[k] && t[k + 1] == s[k + 1]);
        }
        lemma_trim_dashes_shape(t);
        assert(trim_dashes(t) == t.take(trim_dashes(t).len() as int));
        assert(t.take(trim_dashes(t).len() as int) =~= s.take(trim_dashes(t).len() as int));
    } else {
        assert(s.take(s.len() as int) =~= s);
    }
}

/// An anchor id is never empty, holds only lowercase ASCII letters,
/// digits and hyphens, and neither starts nor ends with a hyphen nor
/// holds two in a row.
pub proof fn law_slugs_are_clean(text: Seq<char>)
    ensures
        slugified(text).len() > 0,
        forall|k: int| 0 <= k < slugified(text).len() ==> id_char(#[trigger] slugified(text)[k]),
        slugified(text)[0] != '-',
        slugified(text).last() != '-',
        forall|k: int| 0 <= k < slugified(text).len() - 1 ==> !(#[trigger] slugified(text)[k] == '-' && slugified(text)[k + 1] == '-'),
{
    lemma_slug_fold_shape(text);
    let out = slug_fold(text).0;
    lemma_trim_dashes_shape(out);
    let t = trim_dashes(out);
    if t.len() == 0 {
        reveal_strlit("section");
        let w = "section"@;
        assert(w =~= seq!['s', 'e', 'c', 't', 'i', 'o', 'n']);
        assert forall|k: int| 0 <= k < w.len() implies id_char(#[trigger] w[k]) by {}
    } else {
        assert forall|k: int| 0 <= k < t.len() implies id_char(#[trigger] t[k]) by {
            assert(t[k] == out[k]);
        }
        assert(t[0] == out[0]);
        assert forall|k: int| 0 <= k < t.len() - 1 implies !(#[trigger] t[k] == '-' && t[k + 1] == '-') by {
            assert(t[k] == out[k] && t[k + 1] == out[k + 1]);
        }
    }
}

/// Escaped element text holds no raw `<` or `>`, so it can never open
/// or close markup.
pub proof fn law_escaped_text_is_inert(s: Seq<char>)
    ensures
        forall|k: int| 0 <= k < escaped_text(s).len() ==> #[trigger] escaped_text(s)[k] != '<' && escaped_text(s)[k] != '>',
    decreases s.len(),
{
    if s.len() > 0 {
        law_escaped_text_is_inert(s.drop_last());
        let a = escaped_text(s.drop_last());
        let e = text_entity(s.last());
        reveal_strlit("&amp;");
        reveal_strlit("&lt;");
        reveal_strlit("&gt;");
        assert(forall|k: int| 0 <= k < e.len() ==> #[trigger] e[k] != '<' && e[k] != '>');
        assert forall|k: int| 0 <= k < (a + e).len() implies #[trigger] (a + e)[k] != '<' && (a + e)[k] != '>' by {
            if k < a.len() {
                assert((a + e)[k] == a[k]);
            } else {
                assert((a + e)[k] == e[k - a.len()]);
            }
        }
    }
}

/// Different suffixes spell different ids.
pub proof fn lemma_nth_id_injective(base: Seq<char>, m: nat, n: nat)
    requires
        1 <= m,
        1 <= n,
        m != n,
    ensures
        nth_id(base, m) != nth_id(base, n),
{
    if m != 1 && n != 1 {
        let l: int = base.len() as int + 1;
        if nth_id(base, m) == nth_id(base, n) {
            assert(nth_id(base, m).skip(l) =~= decimal(m));
            assert(nth_id(base, n).skip(l) =~= decimal(n));
            crate::text::lemma_decimal_injective(m, n);
        }
    } else if m == 1 {
        assert(nth_id(base, n).len() > base.len());
    } else {
        assert(nth_id(base, m).len() > base.len());
    }
}

/// A heading id is never handed out twice on a page: whatever ids are
/// already in use, the one the next heading gets is not among them.
pub proof fn law_repeated_headings_get_distinct_ids(taken: Seq<Seq<char>>, base: Seq<char>)
    ensures
        !taken.contains(fresh_id(taken, base)),
{
    if taken.contains(base) {
        lemma_free_from(taken, base, 2);
        let r = free_from(taken, base, 2);
        if r == taken.len() + 2 {
            let d = Seq::new((taken.len() + 1) as nat, |i: int| nth_id(base, (i + 1) as nat));
            assert forall|i: int, j: int| 0 <= i < d.len() && 0 <= j < d.len() && i != j implies d[i] != d[j] by {
                lemma_nth_id_injective(base, (i + 1) as nat, (j + 1) as nat);
            }
            assert(d.no_duplicates());
            d.unique_seq_to_set();
            taken.lemma_cardinality_of_set();
            vstd::seq_lib::seq_to_set_is_finite(taken);
            assert forall|x: Seq<char>| d.to_set().contains(x) implies taken.to_set().contains(x) by {
                let i = choose|i: int| 0 <= i < d.len() && d[i] == x;
                if i > 0 {
                    assert(taken.contains(nth_id(base, (i + 1) as nat)));
                }
            }
            vstd::set_lib::lemma_len_subset(d.to_set(), taken.to_set());
        }
    }
}

} // verus!
