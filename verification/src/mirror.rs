//! Article markdown rewritten for the markdown mirrors: `~` links point
//! at the targets' own mirrors, relative images at their published URLs,
//! and on numbered pages the h2 and h3 headings carry their numbers.
//! What does not resolve stays as written.
use vstd::prelude::*;
use pulldown_cmark::{Event, Options, Parser, Tag};
use crate::images::{entry_for, joined, normalized, ImageIndex};
use crate::links::{resolution, LinkIndex, Resolution};
use crate::markdown::SectionCounter;
use crate::markup::{
    apply_edits, heading_insert, heading_insert_of, inline_dest, inline_dest_of, mirror_dest, mirror_dest_of,
    mirror_number, replaced, sorted_desc, tilde_reference, tilde_reference_of,
};
use crate::outline::section_step;
use crate::prose::{classify_image, passes_through, spans_view, ImageFate, SpanV};
use crate::refs::byte_offset;
use crate::text::{chars_of, has_prefix};

verus! {

/// A markdown event as the mirror rewrite reads it.
pub enum SpanEvent {
    /// The start of a link, with its destination.
    LinkStart(String),
    /// The start of an image, with its destination.
    ImageStart(String),
    /// The start of a heading, with its level.
    HeadingStart(u8),
    Other,
}

/// A markdown event as plain values.
pub enum SpanEventV {
    LinkStart(Seq<char>),
    ImageStart(Seq<char>),
    HeadingStart(u8),
    Other,
}

pub open spec fn span_event_view(e: SpanEvent) -> SpanEventV {
    match e {
        SpanEvent::LinkStart(d) => SpanEventV::LinkStart(d@),
        SpanEvent::ImageStart(d) => SpanEventV::ImageStart(d@),
        SpanEvent::HeadingStart(l) => SpanEventV::HeadingStart(l),
        SpanEvent::Other => SpanEventV::Other,
    }
}

pub open spec fn spans_of(v: Seq<(SpanEvent, usize, usize)>) -> Seq<(SpanEventV, usize, usize)> {
    v.map_values(|e: (SpanEvent, usize, usize)| (span_event_view(e.0), e.1, e.2))
}

/// The events pulldown-cmark yields for `markdown` with tables,
/// strikethrough, footnotes and GFM extensions on, each with the byte
/// range of source it spans: link and image starts with their
/// destinations, heading starts with their levels, every other event as
/// `Other`.
pub uninterp spec fn md_spans(markdown: Seq<char>) -> Seq<(SpanEventV, usize, usize)>;

/// `pulldown_cmark::Parser::new_ext(..).into_offset_iter()` with the
/// extensions articles use; its events converted one by one with their
/// byte ranges. The result is claimed to be `md_spans` of the text.
#[verifier::external_body]
fn parse_spans(markdown: &str) -> (r: Vec<(SpanEvent, usize, usize)>)
    ensures
        spans_of(r@) == md_spans(markdown@),
{
    let options = Options::ENABLE_TABLES | Options::ENABLE_STRIKETHROUGH | Options::ENABLE_FOOTNOTES | Options::ENABLE_GFM;
    Parser::new_ext(markdown, options).into_offset_iter().map(|(e, range)| (match e {
        Event::Start(Tag::Link { dest_url, .. }) => SpanEvent::LinkStart(dest_url.to_string()),
        Event::Start(Tag::Image { dest_url, .. }) => SpanEvent::ImageStart(dest_url.to_string()),
        Event::Start(Tag::Heading { level, .. }) => SpanEvent::HeadingStart(level as u8),
        _ => SpanEvent::Other,
    }, range.start, range.end)).collect()
}

/// The first character boundary of `s`, from `k` on, at or after byte
/// offset `b`.
pub open spec fn char_at_byte(s: Seq<char>, b: int, k: int) -> Option<int>
    decreases s.len() + 1 - k,
{
    if k < 0 || k > s.len() {
        None
    } else if byte_offset(s, k) >= b {
        Some(k)
    } else {
        char_at_byte(s, b, k + 1)
    }
}

/// The published URL a relative image destination resolves to, when
/// it names an image of the tree.
pub open spec fn local_image(by_source: Seq<(String, crate::markdown::ImageInfo)>, dir: Seq<char>, base: Seq<char>, dest: Seq<char>) -> Option<Seq<char>> {
    if has_prefix(dest, "~"@) || passes_through(dest) {
        None
    } else {
        match entry_for(by_source, normalized(joined(dir, dest))) {
            Some(i) => Some(base + by_source[i].1.url@),
            None => None,
        }
    }
}

/// The edit one event asks for, given the source it spans and where
/// that starts, and the section counters so far; with the counters after
/// it.
pub open spec fn span_edit(
    ev: SpanEventV,
    source: Seq<char>,
    start: int,
    products: Seq<crate::links::ProductIndex>,
    numbering: Option<Seq<char>>,
    images: Option<(Seq<(String, crate::markdown::ImageInfo)>, Seq<char>)>,
    base: Seq<char>,
    h2: nat,
    h3: nat,
) -> (Option<SpanV>, nat, nat) {
    match ev {
        SpanEventV::LinkStart(dest) => (match tilde_reference_of(dest) {
            Some((target, fragment)) => match resolution(products, target) {
                Resolution::Page(resolved, _) => match inline_dest_of(source, dest) {
                    Some((a, b)) => Some((start + a, start + b, mirror_dest_of(base, resolved, fragment))),
                    None => None,
                },
                _ => None,
            },
            None => None,
        }, h2, h3),
        SpanEventV::ImageStart(dest) => (match images {
            Some((by_source, dir)) => match local_image(by_source, dir, base, dest) {
                Some(url) => match inline_dest_of(source, dest) {
                    Some((a, b)) => Some((start + a, start + b, url)),
                    None => None,
                },
                None => None,
            },
            None => None,
        }, h2, h3),
        SpanEventV::HeadingStart(level) => if numbering is Some {
            let (number, h2b, h3b) = section_step(numbering, level, h2, h3);
            (match number {
                Some(n) => match heading_insert_of(source) {
                    Some(at) => Some((start + at, start + at, n + " "@)),
                    None => None,
                },
                None => None,
            }, h2b, h3b)
        } else {
            (None, h2, h3)
        },
        SpanEventV::Other => (None, h2, h3),
    }
}

/// The edits the events from `i` on ask for; an event whose range does
/// not fall within the text asks for none.
pub open spec fn mirror_edits(
    text: Seq<char>,
    spans: Seq<(SpanEventV, usize, usize)>,
    i: int,
    products: Seq<crate::links::ProductIndex>,
    numbering: Option<Seq<char>>,
    images: Option<(Seq<(String, crate::markdown::ImageInfo)>, Seq<char>)>,
    base: Seq<char>,
    h2: nat,
    h3: nat,
) -> Seq<SpanV>
    decreases spans.len() - i,
{
    if i < 0 || i >= spans.len() {
        Seq::empty()
    } else {
        let (ev, bs, be) = spans[i];
        match (char_at_byte(text, bs as int, 0), char_at_byte(text, be as int, 0)) {
            (Some(start), Some(end)) => if start <= end {
                let (edit, h2b, h3b) = span_edit(ev, text.subrange(start, end), start, products, numbering, images, base, h2, h3);
                let rest = mirror_edits(text, spans, i + 1, products, numbering, images, base, h2b, h3b);
                match edit {
                    Some(e) => seq![e] + rest,
                    None => rest,
                }
            } else {
                mirror_edits(text, spans, i + 1, products, numbering, images, base, h2, h3)
            },
            _ => mirror_edits(text, spans, i + 1, products, numbering, images, base, h2, h3),
        }
    }
}

/// The markdown mirror of a text, given its events: the edits applied,
/// from the end backwards; None when an edit falls outside the text.
pub open spec fn mirrored(
    text: Seq<char>,
    spans: Seq<(SpanEventV, usize, usize)>,
    products: Seq<crate::links::ProductIndex>,
    numbering: Option<Seq<char>>,
    images: Option<(Seq<(String, crate::markdown::ImageInfo)>, Seq<char>)>,
    base: Seq<char>,
) -> Option<Seq<char>> {
    if byte_offset(text, text.len() as int) > usize::MAX {
        None
    } else {
        replaced(text, sorted_desc(mirror_edits(text, spans, 0, products, numbering, images, base, 0, 0)))
    }
}

/// The first boundary at or after byte offset `b`, if any.
fn char_index(offsets: &Vec<usize>, chars: &Vec<char>, b: usize) -> (r: Option<usize>)
    requires
        offsets@.len() == chars@.len() + 1,
        forall|k: int| 0 <= k <= chars@.len() ==> #[trigger] offsets@[k] == byte_offset(chars@, k),
    ensures
        match char_at_byte(chars@, b as int, 0) {
            Some(a) => r matches Some(x) && x == a && x <= chars@.len(),
            None => r is None,
        },
{
    for k in 0..offsets.len()
        invariant
            offsets@.len() == chars@.len() + 1,
            forall|k: int| 0 <= k <= chars@.len() ==> #[trigger] offsets@[k] == byte_offset(chars@, k),
            char_at_byte(chars@, b as int, 0) == char_at_byte(chars@, b as int, k as int),
    {
        if offsets[k] >= b {
            return Some(k);
        }
    }
    None
}

/// Rewrites a text for its markdown mirror, given its events. `index`
/// and `dir` resolve relative images (none are rewritten without `dir`);
/// `base` prefixes the rewritten URLs. None when the text's byte length
/// does not fit in a `usize` or an edit falls outside the text.
pub fn mirror_source(
    markdown: &str,
    spans: &Vec<(SpanEvent, usize, usize)>,
    links: &LinkIndex,
    numbering: Option<&str>,
    index: &mut ImageIndex,
    dir: Option<&str>,
    base: &str,
) -> (r: Option<String>)
    requires
        spans@.len() < u32::MAX,
    ensures
        crate::validate::opt_view(r) == mirrored(markdown@, spans_of(spans@), links.products@,
            match numbering { Some(p) => Some(p@), None => None },
            match dir { Some(d) => Some((old(index).by_source@, d@)), None => None }, base@),
        final(index).by_source == old(index).by_source,
{
    let chars = chars_of(markdown);
    let offsets = match crate::refs::boundaries(&chars) {
        Some(v) => v,
        None => return None,
    };
    let ghost sv = spans_of(spans@);
    let ghost num = match numbering { Some(p) => Some(p@), None => None };
    let ghost imgs = match dir { Some(d) => Some((index.by_source@, d@)), None => None };
    let ghost by0 = index.by_source;
    let mut edits: Vec<(usize, usize, String)> = Vec::new();
    let mut counter = SectionCounter::new();
    let mut i: usize = 0;
    while i < spans.len()
        invariant
            chars@ == markdown@,
            offsets@.len() == chars@.len() + 1,
            forall|k: int| 0 <= k <= chars@.len() ==> #[trigger] offsets@[k] == byte_offset(chars@, k),
            sv == spans_of(spans@),
            num == match numbering { Some(p) => Some(p@), None => None },
            imgs == match dir { Some(d) => Some((by0@, d@)), None => None },
            index.by_source == by0,
            spans@.len() < u32::MAX,
            i <= spans@.len(),
            counter.h2 <= i,
            counter.h3 <= i,
            spans_view(edits@) + mirror_edits(chars@, sv, i as int, links.products@, num, imgs, base@, counter.h2 as nat, counter.h3 as nat)
                == mirror_edits(chars@, sv, 0, links.products@, num, imgs, base@, 0, 0),
        decreases spans@.len() - i,
    {
        let ghost before = spans_view(edits@);
        let ghost (h2, h3) = (counter.h2 as nat, counter.h3 as nat);
        let (ev, bs, be) = (&spans[i].0, spans[i].1, spans[i].2);
        assert(sv[i as int] == (span_event_view(*ev), bs, be));
        let s = char_index(&offsets, &chars, bs);
        let e = char_index(&offsets, &chars, be);
        match (s, e) {
            (Some(start), Some(end)) => {
                if start <= end {
                    let source = crate::text::slice_vec(chars.as_slice(), start, end);
                    let ghost src = source@;
                    let mut edit: Option<(usize, usize, String)> = None;
                    match ev {
                        SpanEvent::LinkStart(dest) => {
                            match tilde_reference(dest.as_str()) {
                                Some((target, fragment)) => {
                                    match links.resolve(target.as_str()) {
                                        Ok(resolved) => {
                                            match inline_dest(source.as_slice(), dest.as_str()) {
                                                Some((a, b)) => {
                                                    let f: Option<&str> = match &fragment { Some(x) => Some(x.as_str()), None => None };
                                                    let d = mirror_dest(base, resolved.as_str(), f);
                                                    edit = Some((start + a, start + b, d));
                                                },
                                                None => {},
                                            }
                                        },
                                        Err(_) => {},
                                    }
                                },
                                None => {},
                            }
                        },
                        SpanEvent::ImageStart(dest) => {
                            match dir {
                                Some(d) => {
                                    match classify_image(dest.as_str(), base, true, index, Some(d)) {
                                        ImageFate::Local(info) => {
                                            match inline_dest(source.as_slice(), dest.as_str()) {
                                                Some((a, b)) => {
                                                    edit = Some((start + a, start + b, info.url));
                                                },
                                                None => {},
                                            }
                                        },
                                        _ => {},
                                    }
                                },
                                None => {},
                            }
                        },
                        SpanEvent::HeadingStart(level) => {
                            if numbering.is_some() {
                                let number = counter.advance(numbering, *level);
                                match number {
                                    Some(n) => {
                                        match heading_insert(source.as_slice()) {
                                            Some(at) => {
                                                edit = Some((start + at, start + at, mirror_number(n.as_str())));
                                            },
                                            None => {},
                                        }
                                    },
                                    None => {},
                                }
                            }
                        },
                        SpanEvent::Other => {},
                    }
                    match edit {
                        Some(x) => {
                            edits.push(x);
                            assert(spans_view(edits@) =~= before.push((x.0 as int, x.1 as int, x.2@)));
                        },
                        None => {},
                    }
                }
            },
            _ => {},
        }
        i = i + 1;
    }
    assert(mirror_edits(chars@, sv, i as int, links.products@, num, imgs, base@, counter.h2 as nat, counter.h3 as nat)
        =~= Seq::<SpanV>::empty());
    assert(spans_view(edits@) + Seq::<SpanV>::empty() =~= spans_view(edits@));
    apply_edits(chars.as_slice(), edits)
}

/// Article markdown rewritten for its markdown mirror: `~` links to the
/// targets' own mirrors, relative images (with `dir`) to their published
/// URLs, and with `numbering` the h2 and h3 headings numbered as
/// rendering numbers them. What does not resolve stays as written. None
/// only where the text parses into more events than a `u32` counts, its
/// byte length does not fit in a `usize`, or an edit falls outside it.
pub fn rewrite_source(markdown: &str, links: &LinkIndex, numbering: Option<&str>, index: &mut ImageIndex, dir: Option<&str>, base: &str)
    -> (r: Option<String>)
    ensures
        md_spans(markdown@).len() >= u32::MAX ==> r is None,
        md_spans(markdown@).len() < u32::MAX ==> crate::validate::opt_view(r) == mirrored(markdown@, md_spans(markdown@),
            links.products@, match numbering { Some(p) => Some(p@), None => None },
            match dir { Some(d) => Some((old(index).by_source@, d@)), None => None }, base@),
        final(index).by_source == old(index).by_source,
{
    let spans = parse_spans(markdown);
    if spans.len() >= 0xffff_ffff {
        return None;
    }
    mirror_source(markdown, &spans, links, numbering, index, dir, base)
}


/// What does not resolve stays as written: a text none of whose events
/// asks for an edit (no `~` link that resolves, no image of the tree, no
/// numbered heading) is its own mirror.
pub proof fn law_nothing_resolved_leaves_the_text(
    text: Seq<char>,
    spans: Seq<(SpanEventV, usize, usize)>,
    products: Seq<crate::links::ProductIndex>,
    numbering: Option<Seq<char>>,
    images: Option<(Seq<(String, crate::markdown::ImageInfo)>, Seq<char>)>,
    base: Seq<char>,
)
    requires
        mirror_edits(text, spans, 0, products, numbering, images, base, 0, 0).len() == 0,
        byte_offset(text, text.len() as int) <= usize::MAX,
    ensures
        mirrored(text, spans, products, numbering, images, base) == Some(text),
{
    let e = mirror_edits(text, spans, 0, products, numbering, images, base, 0, 0);
    assert(sorted_desc(e) =~= Seq::<SpanV>::empty());
}

} // verus!
