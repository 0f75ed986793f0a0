//! Rendering article markdown to HTML over pulldown-cmark's event
//! stream: tab groups and citation anchors expanded first, then every
//! heading given a deduplicated anchor id (h2/h3 collected for the table
//! of contents), code highlighted, `~` links resolved, images resolved,
//! admonitions framed, tables wrapped for scrolling, prose enriched.
use vstd::prelude::*;
use pulldown_cmark::{html, BlockQuoteKind, CodeBlockKind, Event as E, Options, Parser, Tag as T, TagEnd as TE};
use crate::highlight::{code_block_html, Highlighter};
use crate::images::ImageIndex;
use crate::links::{resolution, LinkIndex, Resolution, ResolveError};
use crate::markdown::{
    expand_citation_anchors, expand_from, fresh_id, image_tag, image_tag_html, spans_from, taken_of, IdCounter, ImageInfo,
    PrintScope, Rendered, SectionCounter, TocEntry,
};
use crate::markup::{
    admonition_close, admonition_open, admonition_open_html, admonition_typo_error, admonition_typo_report, fence_token,
    fence_token_of, figure_for, figure_of, heading_anchor, heading_base, heading_number, heading_number_html,
    heading_permalink, link_target, link_target_of, mermaid_block, mermaid_html, permalink_html, print_view, table_close,
    table_open, tilde_reference, tilde_reference_of, toc_entry,
};
use crate::outline::{section_step, toc_view, TocV};
use crate::prose::{
    classify_image, enrich_prose, hits_view, missing_image_message, passes_through, prose_refs_view, prose_spans,
    sorted_spans, splice, tilde_image_message, ImageFate, Prose, ProseRefs, SpanV,
};
use crate::refs::{phrase_hits_in, phrase_keys, InlineRefIndex};
use crate::tabs::{expand_tab_groups, tab_expansion};
use crate::text::{chars_of, has_prefix, owned, push_str};

verus! {

/// A markdown event as the renderer reads it.
pub enum RenderEvent {
    ParaStart,
    ParaEnd,
    /// A heading's start: its level and explicit `{#id}`.
    HeadingStart { level: u8, id: Option<String> },
    HeadingEnd,
    /// A code block's start: its fence's info string, none when indented.
    CodeStart { info: Option<String> },
    CodeEnd,
    LinkStart { dest: String },
    LinkEnd,
    ImageStart { dest: String, title: String },
    ImageEnd,
    /// A block quote's start: its admonition kind (note, tip, important,
    /// warning, caution, in that order), none for a plain quote.
    QuoteStart { kind: Option<u8> },
    QuoteEnd,
    TableStart,
    TableEnd,
    Text(String),
    /// Inline code.
    Code(String),
    /// A soft or hard line break.
    Break,
    Other,
}

/// A markdown event as plain values.
pub enum RenderEventV {
    ParaStart,
    ParaEnd,
    HeadingStart(u8, Option<Seq<char>>),
    HeadingEnd,
    CodeStart(Option<Seq<char>>),
    CodeEnd,
    LinkStart(Seq<char>),
    LinkEnd,
    ImageStart(Seq<char>, Seq<char>),
    ImageEnd,
    QuoteStart(Option<u8>),
    QuoteEnd,
    TableStart,
    TableEnd,
    Text(Seq<char>),
    Code(Seq<char>),
    Break,
    Other,
}

pub open spec fn ostr(o: Option<String>) -> Option<Seq<char>> {
    match o {
        Some(s) => Some(s@),
        None => None,
    }
}

pub open spec fn render_event_view(e: RenderEvent) -> RenderEventV {
    match e {
        RenderEvent::ParaStart => RenderEventV::ParaStart,
        RenderEvent::ParaEnd => RenderEventV::ParaEnd,
        RenderEvent::HeadingStart { level, id } => RenderEventV::HeadingStart(level, ostr(id)),
        RenderEvent::HeadingEnd => RenderEventV::HeadingEnd,
        RenderEvent::CodeStart { info } => RenderEventV::CodeStart(ostr(info)),
        RenderEvent::CodeEnd => RenderEventV::CodeEnd,
        RenderEvent::LinkStart { dest } => RenderEventV::LinkStart(dest@),
        RenderEvent::LinkEnd => RenderEventV::LinkEnd,
        RenderEvent::ImageStart { dest, title } => RenderEventV::ImageStart(dest@, title@),
        RenderEvent::ImageEnd => RenderEventV::ImageEnd,
        RenderEvent::QuoteStart { kind } => RenderEventV::QuoteStart(kind),
        RenderEvent::QuoteEnd => RenderEventV::QuoteEnd,
        RenderEvent::TableStart => RenderEventV::TableStart,
        RenderEvent::TableEnd => RenderEventV::TableEnd,
        RenderEvent::Text(t) => RenderEventV::Text(t@),
        RenderEvent::Code(t) => RenderEventV::Code(t@),
        RenderEvent::Break => RenderEventV::Break,
        RenderEvent::Other => RenderEventV::Other,
    }
}

pub open spec fn render_events_view(v: Seq<RenderEvent>) -> Seq<RenderEventV> {
    v.map_values(|e: RenderEvent| render_event_view(e))
}

/// The starts of headings, links and images among a parse's events.
pub enum StartA {
    Heading { level: u8, id: Option<String> },
    Link { dest: String },
    Image { dest: String, title: String },
    Neither,
}

/// The starts of code blocks and quotes, and the text and inline code,
/// among a parse's events.
pub enum StartB {
    Code { info: Option<String> },
    Quote { kind: Option<u8> },
    Text(String),
    InlineCode(String),
    Neither,
}

/// The events without a payload that the renderer tells apart.
pub enum Mark {
    ParaStart,
    ParaEnd,
    HeadingEnd,
    CodeEnd,
    LinkEnd,
    ImageEnd,
    QuoteEnd,
    TableStart,
    TableEnd,
    Break,
    Other,
}

pub enum StartAV {
    Heading(u8, Option<Seq<char>>),
    Link(Seq<char>),
    Image(Seq<char>, Seq<char>),
    Neither,
}

pub enum StartBV {
    Code(Option<Seq<char>>),
    Quote(Option<u8>),
    Text(Seq<char>),
    InlineCode(Seq<char>),
    Neither,
}

pub open spec fn start_a_view(e: StartA) -> StartAV {
    match e {
        StartA::Heading { level, id } => StartAV::Heading(level, ostr(id)),
        StartA::Link { dest } => StartAV::Link(dest@),
        StartA::Image { dest, title } => StartAV::Image(dest@, title@),
        StartA::Neither => StartAV::Neither,
    }
}

pub open spec fn start_b_view(e: StartB) -> StartBV {
    match e {
        StartB::Code { info } => StartBV::Code(ostr(info)),
        StartB::Quote { kind } => StartBV::Quote(kind),
        StartB::Text(t) => StartBV::Text(t@),
        StartB::InlineCode(t) => StartBV::InlineCode(t@),
        StartB::Neither => StartBV::Neither,
    }
}

/// Of the events pulldown-cmark yields for `markdown` (tables,
/// strikethrough, footnotes and GFM extensions on), each heading start
/// with its level and explicit id, link start with its destination and
/// image start with its destination and title; every other event as
/// `Neither`.
pub uninterp spec fn md_starts_a(markdown: Seq<char>) -> Seq<StartAV>;

/// Of the same events, each code block start with its fence's info
/// string (none when indented), block quote start with its admonition
/// kind, text and inline code with their text; every other as `Neither`.
pub uninterp spec fn md_starts_b(markdown: Seq<char>) -> Seq<StartBV>;

/// Of the same events, the paragraph starts and ends, the ends of
/// headings, code blocks, links, images and quotes, table starts and
/// ends and line breaks; every other as `Other`.
pub uninterp spec fn md_marks(markdown: Seq<char>) -> Seq<Mark>;

/// `pulldown_cmark::Parser::new_ext` with the extensions articles use:
/// of each event, what `md_starts_a` keeps.
#[verifier::external_body]
fn parse_starts_a(markdown: &str) -> (r: Vec<StartA>)
    ensures
        r@.map_values(|e: StartA| start_a_view(e)) == md_starts_a(markdown@),
{
    let o = Options::ENABLE_TABLES | Options::ENABLE_STRIKETHROUGH | Options::ENABLE_FOOTNOTES | Options::ENABLE_GFM;
    Parser::new_ext(markdown, o).map(|e| match e {
        E::Start(T::Heading { level, id, .. }) => StartA::Heading { level: level as u8, id: id.map(|s| s.to_string()) },
        E::Start(T::Link { dest_url, .. }) => StartA::Link { dest: dest_url.to_string() },
        E::Start(T::Image { dest_url, title, .. }) => StartA::Image { dest: dest_url.to_string(), title: title.to_string() },
        _ => StartA::Neither,
    }).collect()
}

/// `pulldown_cmark::Parser::new_ext` as `parse_starts_a` calls it: of
/// each event, what `md_starts_b` keeps. The same text parses into as
/// many events for both.
#[verifier::external_body]
fn parse_starts_b(markdown: &str) -> (r: Vec<StartB>)
    ensures
        r@.map_values(|e: StartB| start_b_view(e)) == md_starts_b(markdown@),
        r@.len() == md_starts_a(markdown@).len(),
{
    let o = Options::ENABLE_TABLES | Options::ENABLE_STRIKETHROUGH | Options::ENABLE_FOOTNOTES | Options::ENABLE_GFM;
    Parser::new_ext(markdown, o).map(|e| match e {
        E::Start(T::CodeBlock(CodeBlockKind::Fenced(i))) => StartB::Code { info: Some(i.to_string()) },
        E::Start(T::CodeBlock(_)) => StartB::Code { info: None },
        E::Start(T::BlockQuote(k)) => StartB::Quote { kind: k.map(|k| k as u8) },
        E::Text(t) => StartB::Text(t.to_string()),
        E::Code(t) => StartB::InlineCode(t.to_string()),
        _ => StartB::Neither,
    }).collect()
}

/// `pulldown_cmark::Parser::new_ext` as `parse_starts_a` calls it: of
/// each event, what `md_marks` keeps. The same text parses into as many
/// events for both.
#[verifier::external_body]
fn parse_marks(markdown: &str) -> (r: Vec<Mark>)
    ensures
        r@ == md_marks(markdown@),
        r@.len() == md_starts_a(markdown@).len(),
{
    let o = Options::ENABLE_TABLES | Options::ENABLE_STRIKETHROUGH | Options::ENABLE_FOOTNOTES | Options::ENABLE_GFM;
    Parser::new_ext(markdown, o).map(|e| match e {
        E::Start(T::Paragraph) => Mark::ParaStart,
        E::End(TE::Paragraph) => Mark::ParaEnd,
        E::End(TE::Heading(_)) => Mark::HeadingEnd,
        E::End(TE::CodeBlock) => Mark::CodeEnd,
        E::End(TE::Link) => Mark::LinkEnd,
        E::End(TE::Image) => Mark::ImageEnd,
        E::End(TE::BlockQuote(_)) => Mark::QuoteEnd,
        E::Start(T::Table(_)) => Mark::TableStart,
        E::End(TE::Table) => Mark::TableEnd,
        E::SoftBreak | E::HardBreak => Mark::Break,
        _ => Mark::Other,
    }).collect()
}

/// One event as the renderer reads it, from what the three readings
/// keep of it.
pub open spec fn event_of(a: StartAV, b: StartBV, m: Mark) -> RenderEventV {
    match a {
        StartAV::Heading(level, id) => RenderEventV::HeadingStart(level, id),
        StartAV::Link(dest) => RenderEventV::LinkStart(dest),
        StartAV::Image(dest, title) => RenderEventV::ImageStart(dest, title),
        StartAV::Neither => match b {
            StartBV::Code(info) => RenderEventV::CodeStart(info),
            StartBV::Quote(kind) => RenderEventV::QuoteStart(kind),
            StartBV::Text(t) => RenderEventV::Text(t),
            StartBV::InlineCode(t) => RenderEventV::Code(t),
            StartBV::Neither => match m {
                Mark::ParaStart => RenderEventV::ParaStart,
                Mark::ParaEnd => RenderEventV::ParaEnd,
                Mark::HeadingEnd => RenderEventV::HeadingEnd,
                Mark::CodeEnd => RenderEventV::CodeEnd,
                Mark::LinkEnd => RenderEventV::LinkEnd,
                Mark::ImageEnd => RenderEventV::ImageEnd,
                Mark::QuoteEnd => RenderEventV::QuoteEnd,
                Mark::TableStart => RenderEventV::TableStart,
                Mark::TableEnd => RenderEventV::TableEnd,
                Mark::Break => RenderEventV::Break,
                Mark::Other => RenderEventV::Other,
            },
        },
    }
}

/// The events of `markdown` as the renderer reads them.
pub open spec fn md_render_events(markdown: Seq<char>) -> Seq<RenderEventV> {
    Seq::new(md_starts_a(markdown).len(), |i: int| event_of(md_starts_a(markdown)[i], md_starts_b(markdown)[i], md_marks(markdown)[i]))
}

fn mark_copy(m: &Mark) -> (r: Mark)
    ensures
        r == *m,
{
    match m {
        Mark::ParaStart => Mark::ParaStart,
        Mark::ParaEnd => Mark::ParaEnd,
        Mark::HeadingEnd => Mark::HeadingEnd,
        Mark::CodeEnd => Mark::CodeEnd,
        Mark::LinkEnd => Mark::LinkEnd,
        Mark::ImageEnd => Mark::ImageEnd,
        Mark::QuoteEnd => Mark::QuoteEnd,
        Mark::TableStart => Mark::TableStart,
        Mark::TableEnd => Mark::TableEnd,
        Mark::Break => Mark::Break,
        Mark::Other => Mark::Other,
    }
}

/// The events of `markdown` as the renderer reads them.
fn parse_render_events(markdown: &str) -> (r: Vec<RenderEvent>)
    ensures
        render_events_view(r@) == md_render_events(markdown@),
{
    let a = parse_starts_a(markdown);
    let b = parse_starts_b(markdown);
    let m = parse_marks(markdown);
    let ghost ev = md_render_events(markdown@);
    let mut out: Vec<RenderEvent> = Vec::new();
    for i in 0..a.len()
        invariant
            a@.len() == b@.len() && b@.len() == m@.len(),
            ev == md_render_events(markdown@),
            a@.map_values(|e: StartA| start_a_view(e)) == md_starts_a(markdown@),
            b@.map_values(|e: StartB| start_b_view(e)) == md_starts_b(markdown@),
            m@ == md_marks(markdown@),
            out@.len() == i,
            forall|k: int| 0 <= k < i ==> render_event_view(#[trigger] out@[k]) == ev[k],
    {
        assert(start_a_view(a@[i as int]) == md_starts_a(markdown@)[i as int]);
        assert(start_b_view(b@[i as int]) == md_starts_b(markdown@)[i as int]);
        let e = match &a[i] {
            StartA::Heading { level, id } => RenderEvent::HeadingStart { level: *level, id: match id { Some(x) => Some(owned(x.as_str())), None => None } },
            StartA::Link { dest } => RenderEvent::LinkStart { dest: owned(dest.as_str()) },
            StartA::Image { dest, title } => RenderEvent::ImageStart { dest: owned(dest.as_str()), title: owned(title.as_str()) },
            StartA::Neither => match &b[i] {
                StartB::Code { info } => RenderEvent::CodeStart { info: match info { Some(x) => Some(owned(x.as_str())), None => None } },
                StartB::Quote { kind } => RenderEvent::QuoteStart { kind: *kind },
                StartB::Text(t) => RenderEvent::Text(owned(t.as_str())),
                StartB::InlineCode(t) => RenderEvent::Code(owned(t.as_str())),
                StartB::Neither => match mark_copy(&m[i]) {
                    Mark::ParaStart => RenderEvent::ParaStart,
                    Mark::ParaEnd => RenderEvent::ParaEnd,
                    Mark::HeadingEnd => RenderEvent::HeadingEnd,
                    Mark::CodeEnd => RenderEvent::CodeEnd,
                    Mark::LinkEnd => RenderEvent::LinkEnd,
                    Mark::ImageEnd => RenderEvent::ImageEnd,
                    Mark::QuoteEnd => RenderEvent::QuoteEnd,
                    Mark::TableStart => RenderEvent::TableStart,
                    Mark::TableEnd => RenderEvent::TableEnd,
                    Mark::Break => RenderEvent::Break,
                    Mark::Other => RenderEvent::Other,
                },
            },
        };
        out.push(e);
    }
    assert(render_events_view(out@) =~= ev);
    out
}

/// One event of the rendered stream: an event of the parse kept as it
/// is, raw HTML, or an event relabelled: a heading start with the given
/// id, a link start with the given destination (events named by their
/// position).
pub enum OutEvent {
    Keep(usize),
    Html(String),
    Relabel(usize, String),
}

pub enum OutV {
    Keep(int),
    Html(Seq<char>),
    Relabel(int, Seq<char>),
}

pub open spec fn out_view(o: OutEvent) -> OutV {
    match o {
        OutEvent::Keep(i) => OutV::Keep(i as int),
        OutEvent::Html(h) => OutV::Html(h@),
        OutEvent::Relabel(i, x) => OutV::Relabel(i as int, x@),
    }
}

pub open spec fn outs_view(v: Seq<OutEvent>) -> Seq<OutV> {
    v.map_values(|o: OutEvent| out_view(o))
}

/// The position an output event names, if any.
pub open spec fn out_index(o: OutV) -> Option<int> {
    match o {
        OutV::Keep(i) => Some(i),
        OutV::Html(_) => None,
        OutV::Relabel(i, _) => Some(i),
    }
}

/// What pulldown-cmark's HTML writer makes of the events of `markdown`
/// as `out` rearranges them.
pub uninterp spec fn events_html(markdown: Seq<char>, out: Seq<OutV>) -> Seq<char>;

/// `pulldown_cmark::html::push_html` over the events of `markdown` (parsed
/// with the extensions articles use) as `out` rearranges them: kept
/// events as parsed, raw HTML, heading starts with a new id, link starts
/// with a new destination (any other event relabelled stays as parsed).
/// Claimed: the result is `events_html`.
#[verifier::external_body]
fn push_html(markdown: &str, out: Vec<OutEvent>) -> (r: String)
    requires
        forall|k: int| 0 <= k < out@.len() ==> (out_index(#[trigger] out_view(out@[k])) matches Some(i)
            ==> 0 <= i < md_render_events(markdown@).len()),
    ensures
        r@ == events_html(markdown@, outs_view(out@)),
{
    let raw: Vec<E> = Parser::new_ext(markdown, Options::ENABLE_TABLES | Options::ENABLE_STRIKETHROUGH
        | Options::ENABLE_FOOTNOTES | Options::ENABLE_GFM).collect();
    let mut s = String::new();
    html::push_html(&mut s, out.into_iter().map(|x| match x {
        OutEvent::Keep(i) => raw[i].clone(), OutEvent::Html(h) => E::Html(h.into()),
        OutEvent::Relabel(i, d) => {
            let mut e = raw[i].clone();
            match &mut e {
                E::Start(T::Heading { id, .. }) => *id = Some(d.into()),
                E::Start(T::Link { dest_url, .. }) => *dest_url = d.into(),
                _ => {},
            }; e
        },
    }));
    s
}

/// Inline-reference context for one page render.
pub struct RefScope<'a> {
    pub index: &'a InlineRefIndex,
    /// The page being rendered: a page never links a phrase to itself.
    pub page: &'a str,
    /// The book this page belongs to, for bare `§` references.
    pub book: Option<&'a str>,
    /// The book's short name, for citation anchors.
    pub book_short: Option<&'a str>,
}

/// How one article renders.
pub struct RenderOptions<'a> {
    pub allow_dangling: bool,
    pub numbering: Option<&'a str>,
    pub id_prefix: Option<&'a str>,
    /// The folder relative image destinations resolve against; none
    /// leaves every image as written.
    pub image_dir: Option<&'a str>,
    pub refs: Option<RefScope<'a>>,
    pub print: Option<&'a PrintScope<'a>>,
    pub base: &'a str,
}

/// Why a render fails.
pub enum RenderError {
    /// Tab groups do not expand, or a plain quote opens like an unknown
    /// admonition: the message.
    Invalid(String),
    /// Two inline spans of a text run overlap: the run.
    Overlapping(String),
    /// The text parses into more events than a `u32` counts.
    TooManyEvents,
}

/// Everything a render reads besides the events, as plain values.
pub struct Ctx {
    pub products: Seq<crate::links::ProductIndex>,
    pub allow_dangling: bool,
    pub numbering: Option<Seq<char>>,
    pub id_prefix: Option<Seq<char>>,
    pub by_source: Seq<(String, crate::markdown::ImageInfo)>,
    pub dir: Option<Seq<char>>,
    pub phrases: Option<Seq<Seq<char>>>,
    pub prose: Option<(Seq<(Seq<char>, (bool, Seq<char>))>, Seq<(Seq<char>, Seq<crate::refs::SectionV>)>, Seq<char>, Option<Seq<char>>)>,
    pub print: Option<(Seq<(Seq<char>, Seq<char>)>, Option<Seq<char>>)>,
    pub base: Seq<char>,
}

pub open spec fn prose_refs_of<'a>(refs: Option<RefScope<'a>>) -> Option<ProseRefs<'a>> {
    match refs {
        Some(s) => Some(ProseRefs { index: s.index, page: s.page, book: s.book }),
        None => None,
    }
}

pub open spec fn ctx_of(links: &LinkIndex, options: &RenderOptions, index: &ImageIndex) -> Ctx {
    Ctx {
        products: links.products@,
        allow_dangling: options.allow_dangling,
        numbering: match options.numbering { Some(p) => Some(p@), None => None },
        id_prefix: match options.id_prefix { Some(p) => Some(p@), None => None },
        by_source: index.by_source@,
        dir: match options.image_dir { Some(d) => Some(d@), None => None },
        phrases: match options.refs { Some(s) => Some(phrase_keys(s.index.phrases_spec())), None => None },
        prose: prose_refs_view(prose_refs_of(options.refs)),
        print: print_view(options.print),
        base: options.base@,
    }
}

/// What became of an image, as plain values.
pub enum FateV {
    Local(Seq<char>, Option<u32>, Option<u32>),
    PassThrough,
    Broken(Seq<char>),
    Dangling(Seq<char>),
}

pub open spec fn fate_view(f: ImageFate) -> FateV {
    match f {
        ImageFate::Local(info) => FateV::Local(info.url@, info.width, info.height),
        ImageFate::PassThrough => FateV::PassThrough,
        ImageFate::Broken(m) => FateV::Broken(m@),
        ImageFate::Dangling(m) => FateV::Dangling(m@),
    }
}

/// What an image destination comes to: `~` names pages, never images;
/// external and absolute ones, and all where there is no folder to
/// resolve against, pass through; a relative one is an image of the tree
/// or missing.
pub open spec fn image_fate(ctx: Ctx, dest: Seq<char>) -> FateV {
    if has_prefix(dest, "~"@) {
        FateV::Broken(tilde_image_message(dest))
    } else if passes_through(dest) || ctx.dir is None {
        FateV::PassThrough
    } else {
        let path = crate::images::normalized(crate::images::joined(ctx.dir->Some_0, dest));
        match crate::images::entry_for(ctx.by_source, path) {
            Some(i) => FateV::Local(ctx.base + ctx.by_source[i].1.url@, ctx.by_source[i].1.width, ctx.by_source[i].1.height),
            None => if ctx.allow_dangling { FateV::Dangling(missing_image_message(dest)) } else { FateV::Broken(missing_image_message(dest)) },
        }
    }
}

/// The figure of a captioned image, by its fate.
pub open spec fn figure_v(fate: FateV, dest: Seq<char>, alt: Seq<char>, caption: Seq<char>) -> Option<Seq<char>> {
    if caption.len() == 0 {
        None
    } else {
        match fate {
            FateV::Local(url, w, h) => Some("<figure>"@ + image_tag_html(url, w, h, alt, None) + "<figcaption>"@
                + crate::markdown::escaped_text(caption) + "</figcaption></figure>\n"@),
            FateV::PassThrough => Some("<figure>"@ + image_tag_html(dest, None, None, alt, None) + "<figcaption>"@
                + crate::markdown::escaped_text(caption) + "</figcaption></figure>\n"@),
            _ => None,
        }
    }
}

/// An image's alt text from `i` up to its end, and the end's position.
pub open spec fn alt_of(ev: Seq<RenderEventV>, i: int) -> (Seq<char>, int)
    decreases ev.len() - i,
{
    if i < 0 || i >= ev.len() {
        (Seq::empty(), ev.len() as int)
    } else {
        match ev[i] {
            RenderEventV::ImageEnd => (Seq::empty(), i),
            RenderEventV::Text(t) => { let (a, e) = alt_of(ev, i + 1); (t + a, e) },
            RenderEventV::Code(t) => { let (a, e) = alt_of(ev, i + 1); (t + a, e) },
            RenderEventV::Break => { let (a, e) = alt_of(ev, i + 1); (seq![' '] + a, e) },
            _ => alt_of(ev, i + 1),
        }
    }
}

/// A heading's title: its text and inline code from `i` to its end.
pub open spec fn title_of(ev: Seq<RenderEventV>, i: int) -> Seq<char>
    decreases ev.len() - i,
{
    if i < 0 || i >= ev.len() || ev[i] is HeadingEnd {
        Seq::empty()
    } else {
        (match ev[i] {
            RenderEventV::Text(t) => t,
            RenderEventV::Code(t) => t,
            _ => Seq::empty(),
        }) + title_of(ev, i + 1)
    }
}

/// A code block's source from `i` to its end, and the end's position.
pub open spec fn code_of(ev: Seq<RenderEventV>, i: int) -> (Seq<char>, int)
    decreases ev.len() - i,
{
    if i < 0 || i >= ev.len() {
        (Seq::empty(), ev.len() as int)
    } else {
        match ev[i] {
            RenderEventV::CodeEnd => (Seq::empty(), i),
            RenderEventV::Text(t) => { let (a, e) = code_of(ev, i + 1); (t + a, e) },
            _ => code_of(ev, i + 1),
        }
    }
}

/// The first line of a quote's text from `i`: paragraph starts skipped,
/// text taken, up to anything else.
pub open spec fn first_line_of(ev: Seq<RenderEventV>, i: int) -> Seq<char>
    decreases ev.len() - i,
{
    if i < 0 || i >= ev.len() {
        Seq::empty()
    } else {
        match ev[i] {
            RenderEventV::ParaStart => first_line_of(ev, i + 1),
            RenderEventV::Text(t) => t + first_line_of(ev, i + 1),
            _ => Seq::empty(),
        }
    }
}

/// The figure that the paragraph opening at `i` makes, with the position
/// of its end: a paragraph of nothing but one captioned image.
pub open spec fn figure_at(ev: Seq<RenderEventV>, ctx: Ctx, i: int) -> Option<(Seq<char>, int)> {
    if 0 <= i && i + 1 < ev.len() && ev[i] is ParaStart && ev[i + 1] is ImageStart {
        let dest = ev[i + 1]->ImageStart_0;
        let title = ev[i + 1]->ImageStart_1;
        let (alt, e) = alt_of(ev, i + 2);
        if title.len() > 0 && e + 1 < ev.len() && ev[e + 1] is ParaEnd {
            match figure_v(image_fate(ctx, dest), dest, alt, title) {
                Some(h) => Some((h, e + 1)),
                None => None,
            }
        } else {
            None
        }
    } else {
        None
    }
}

pub open spec fn admonition_name(kind: u8) -> Seq<char> {
    if kind == 0 { "Note"@ } else if kind == 1 { "Tip"@ } else if kind == 2 { "Important"@ } else if kind == 3 { "Warning"@ } else { "Caution"@ }
}

/// The state of a render between events, as plain values.
pub struct WalkV {
    pub out: Seq<OutV>,
    pub toc: Seq<TocV>,
    pub taken: Seq<Seq<char>>,
    pub h2: nat,
    pub h3: nat,
    pub mermaid: bool,
    pub dangling: Seq<Seq<char>>,
    pub broken: Seq<Seq<char>>,
    pub quotes: Seq<bool>,
    pub links: nat,
    pub images: nat,
    pub heading: Option<Seq<char>>,
}

pub open spec fn walk_start() -> WalkV {
    WalkV {
        out: Seq::empty(),
        toc: Seq::empty(),
        taken: Seq::empty(),
        h2: 0,
        h3: 0,
        mermaid: false,
        dangling: Seq::empty(),
        broken: Seq::empty(),
        quotes: Seq::empty(),
        links: 0,
        images: 0,
        heading: None,
    }
}

/// Why a walk fails, as plain values.
pub enum WalkErr {
    Invalid(Seq<char>),
    Overlapping(Seq<char>),
    /// Not a failure of the walk: too many events to walk.
    TooLong,
}

/// The message of a `~` reference that does not resolve.
pub open spec fn link_failure(reference: Seq<char>, res: Resolution) -> Seq<char> {
    match res {
        Resolution::UnknownProduct(head) => "link '~"@ + reference + "' names unknown product '"@ + head + "'"@,
        Resolution::NoMatch(head) => "link '~"@ + reference + "' matches no page in product '"@ + head + "'"@,
        Resolution::Ambiguous(head, several) => crate::links::ambiguous_message(reference, head, several),
        Resolution::Page(_, _) => Seq::empty(),
    }
}

/// What a plain text run at `i` makes: its phrase links, `§` links and
/// keywords, or the run as parsed; its reports go to dangling or broken.
pub open spec fn text_step(ctx: Ctx, st: WalkV, i: int, t: Seq<char>) -> Result<WalkV, WalkErr> {
    let hits = match ctx.phrases { Some(p) => phrase_hits_in(p, t), None => Seq::empty() };
    let (spans, issues) = prose_spans(t, hits_view(hits), ctx.prose, ctx.base);
    let st2 = WalkV {
        dangling: if ctx.allow_dangling { st.dangling + issues } else { st.dangling },
        broken: if ctx.allow_dangling { st.broken } else { st.broken + issues },
        ..st
    };
    if spans.len() == 0 {
        Ok(WalkV { out: st.out.push(OutV::Keep(i)), ..st2 })
    } else {
        match splice(t, sorted_spans(spans), 0) {
            Some(h) => Ok(WalkV { out: st.out.push(OutV::Html(h)), ..st2 }),
            None => Err(WalkErr::Overlapping(t)),
        }
    }
}

/// One step of the walk at event `i`: the state after it and where the
/// walk goes on.
pub open spec fn walk_step(ev: Seq<RenderEventV>, ctx: Ctx, st: WalkV, i: int) -> Result<(WalkV, int), WalkErr> {
    let keep = st.out.push(OutV::Keep(i));
    match figure_at(ev, ctx, i) {
        Some((h, end)) => Ok((WalkV { out: st.out.push(OutV::Html(h)), ..st }, end + 1)),
        None => match ev[i] {
            RenderEventV::HeadingStart(level, id) => {
                let title = title_of(ev, i + 1);
                let base = heading_base(id, title, ctx.id_prefix);
                let uid = fresh_id(st.taken, base);
                let (number, h2b, h3b) = section_step(ctx.numbering, level, st.h2, st.h3);
                let out1 = st.out.push(OutV::Relabel(i, uid));
                Ok((WalkV {
                    out: match number { Some(k) => out1.push(OutV::Html(heading_number_html(k))), None => out1 },
                    toc: if 2 <= level <= 3 { st.toc.push((level, uid, title, number)) } else { st.toc },
                    taken: st.taken.push(uid),
                    h2: h2b,
                    h3: h3b,
                    heading: Some(uid),
                    ..st
                }, i + 1))
            },
            RenderEventV::CodeStart(info) => {
                let (source, e) = code_of(ev, i + 1);
                let language = match info { Some(x) => fence_token_of(x), None => None };
                if language == Some("mermaid"@) {
                    Ok((WalkV { out: st.out.push(OutV::Html(mermaid_html(source))), mermaid: true, ..st }, e + 1))
                } else {
                    Ok((WalkV { out: st.out.push(OutV::Html(code_block_html(language, source))), ..st }, e + 1))
                }
            },
            RenderEventV::LinkStart(dest) => match tilde_reference_of(dest) {
                Some((target, fragment)) => match resolution(ctx.products, target) {
                    Resolution::Page(path, _) => Ok((WalkV {
                        out: st.out.push(OutV::Relabel(i, link_target_of(path, fragment, ctx.print, ctx.base))),
                        links: st.links + 1,
                        ..st
                    }, i + 1)),
                    res => {
                        let m = link_failure(target, res);
                        if res is Ambiguous || !ctx.allow_dangling {
                            Ok((WalkV { out: keep, broken: st.broken.push(m), links: st.links + 1, ..st }, i + 1))
                        } else {
                            Ok((WalkV { out: keep, dangling: st.dangling.push(m), links: st.links + 1, ..st }, i + 1))
                        }
                    },
                },
                None => Ok((WalkV { out: keep, links: st.links + 1, ..st }, i + 1)),
            },
            RenderEventV::ImageStart(dest, title) => match image_fate(ctx, dest) {
                FateV::Local(url, w, h) => {
                    let (alt, e) = alt_of(ev, i + 1);
                    Ok((WalkV { out: st.out.push(OutV::Html(image_tag_html(url, w, h, alt, Some(title)))), ..st }, e + 1))
                },
                FateV::PassThrough => Ok((WalkV { out: keep, images: st.images + 1, ..st }, i + 1)),
                FateV::Broken(m) => Ok((WalkV { out: keep, images: st.images + 1, broken: st.broken.push(m), ..st }, i + 1)),
                FateV::Dangling(m) => Ok((WalkV { out: keep, images: st.images + 1, dangling: st.dangling.push(m), ..st }, i + 1)),
            },
            RenderEventV::QuoteStart(kind) => match kind {
                Some(k) => Ok((WalkV {
                    out: st.out.push(OutV::Html(admonition_open_html(admonition_name(k)))),
                    quotes: st.quotes.push(true),
                    ..st
                }, i + 1)),
                None => match admonition_typo_report(first_line_of(ev, i + 1)) {
                    Some(report) => Err(WalkErr::Invalid(report)),
                    None => Ok((WalkV { out: keep, quotes: st.quotes.push(false), ..st }, i + 1)),
                },
            },
            RenderEventV::QuoteEnd => {
                let framed = st.quotes.len() > 0 && st.quotes.last();
                let quotes = if st.quotes.len() > 0 { st.quotes.drop_last() } else { st.quotes };
                Ok((WalkV {
                    out: if framed { st.out.push(OutV::Html("</aside>\n"@)) } else { keep },
                    quotes: quotes,
                    ..st
                }, i + 1))
            },
            RenderEventV::TableStart => Ok((WalkV {
                out: st.out.push(OutV::Html("<div class=\"table-scroll\">\n"@)).push(OutV::Keep(i)),
                ..st
            }, i + 1)),
            RenderEventV::TableEnd => Ok((WalkV { out: keep.push(OutV::Html("</div>\n"@)), ..st }, i + 1)),
            RenderEventV::HeadingEnd => match st.heading {
                Some(id) => Ok((WalkV { out: st.out.push(OutV::Html(permalink_html(id))).push(OutV::Keep(i)), heading: None, ..st }, i + 1)),
                None => Ok((WalkV { out: keep, ..st }, i + 1)),
            },
            RenderEventV::LinkEnd => Ok((WalkV { out: keep, links: if st.links > 0 { (st.links - 1) as nat } else { 0 }, ..st }, i + 1)),
            RenderEventV::ImageEnd => Ok((WalkV { out: keep, images: if st.images > 0 { (st.images - 1) as nat } else { 0 }, ..st }, i + 1)),
            RenderEventV::Text(t) => if st.links == 0 && st.images == 0 && st.heading is None {
                match text_step(ctx, st, i, t) {
                    Ok(s) => Ok((s, i + 1)),
                    Err(e) => Err(e),
                }
            } else {
                Ok((WalkV { out: keep, ..st }, i + 1))
            },
            _ => Ok((WalkV { out: keep, ..st }, i + 1)),
        },
    }
}

/// The walk over the events from `i` on.
pub open spec fn walk(ev: Seq<RenderEventV>, ctx: Ctx, st: WalkV, i: int) -> Result<WalkV, WalkErr>
    decreases ev.len() - i,
{
    if i < 0 || i >= ev.len() {
        Ok(st)
    } else {
        match walk_step(ev, ctx, st, i) {
            Ok((s, j)) => if i < j && j <= ev.len() { walk(ev, ctx, s, j) } else { Ok(s) },
            Err(e) => Err(e),
        }
    }
}


/// The state of a render between events.
struct Walk {
    out: Vec<OutEvent>,
    toc: Vec<TocEntry>,
    used: IdCounter,
    counter: SectionCounter,
    mermaid: bool,
    dangling: Vec<String>,
    broken: Vec<String>,
    quotes: Vec<bool>,
    links: usize,
    images: usize,
    heading: Option<String>,
}

spec fn walk_view(w: Walk) -> WalkV {
    WalkV {
        out: outs_view(w.out@),
        toc: w.toc@.map_values(|e: TocEntry| toc_view(e)),
        taken: taken_of(w.used.ids@),
        h2: w.counter.h2 as nat,
        h3: w.counter.h3 as nat,
        mermaid: w.mermaid,
        dangling: crate::links::strs(w.dangling@),
        broken: crate::links::strs(w.broken@),
        quotes: w.quotes@,
        links: w.links as nat,
        images: w.images as nat,
        heading: ostr(w.heading),
    }
}

/// The counters stay below the events walked, and the kept events name
/// events of the parse.
spec fn walk_ok(w: Walk, i: int, n: int) -> bool {
    &&& w.used.ids@.len() <= i
    &&& w.counter.h2 <= i
    &&& w.counter.h3 <= i
    &&& w.links <= i
    &&& w.images <= i
    &&& forall|k: int| 0 <= k < w.out@.len() ==> (out_index(#[trigger] out_view(w.out@[k])) matches Some(x) ==> 0 <= x < n)
}

pub open spec fn err_view(e: RenderError) -> WalkErr {
    match e {
        RenderError::Invalid(m) => WalkErr::Invalid(m@),
        RenderError::Overlapping(t) => WalkErr::Overlapping(t@),
        RenderError::TooManyEvents => WalkErr::TooLong,
    }
}

/// An image's alt text from `from` up to its end, and the end's position.
fn alt_text(events: &Vec<RenderEvent>, from: usize) -> (r: (String, usize))
    requires
        from <= events@.len(),
    ensures
        (r.0@, r.1 as int) == alt_of(render_events_view(events@), from as int),
        from <= r.1 <= events@.len(),
{
    let ghost ev = render_events_view(events@);
    let mut alt = String::new();
    let mut j = from;
    while j < events.len()
        invariant
            ev == render_events_view(events@),
            from <= j <= events@.len(),
            alt_of(ev, from as int) == (alt@ + alt_of(ev, j as int).0, alt_of(ev, j as int).1),
        decreases events@.len() - j,
    {
        assert(ev[j as int] == render_event_view(events@[j as int]));
        match &events[j] {
            RenderEvent::ImageEnd => {
                assert(alt@ + Seq::<char>::empty() =~= alt@);
                return (alt, j);
            },
            RenderEvent::Text(t) => push_str(&mut alt, t.as_str()),
            RenderEvent::Code(t) => push_str(&mut alt, t.as_str()),
            RenderEvent::Break => alt.push(' '),
            _ => {},
        }
        assert(alt_of(ev, from as int) == (alt@ + alt_of(ev, j + 1).0, alt_of(ev, j + 1).1));
        j = j + 1;
    }
    assert(alt@ + Seq::<char>::empty() =~= alt@);
    (alt, j)
}

/// A heading's title from `from` up to its end.
fn title_text(events: &Vec<RenderEvent>, from: usize) -> (r: String)
    requires
        from <= events@.len(),
    ensures
        r@ == title_of(render_events_view(events@), from as int),
{
    let ghost ev = render_events_view(events@);
    let mut title = String::new();
    let mut j = from;
    while j < events.len()
        invariant
            ev == render_events_view(events@),
            from <= j <= events@.len(),
            title_of(ev, from as int) == title@ + title_of(ev, j as int),
        decreases events@.len() - j,
    {
        assert(ev[j as int] == render_event_view(events@[j as int]));
        match &events[j] {
            RenderEvent::HeadingEnd => {
                assert(title@ + Seq::<char>::empty() =~= title@);
                return title;
            },
            RenderEvent::Text(t) => push_str(&mut title, t.as_str()),
            RenderEvent::Code(t) => push_str(&mut title, t.as_str()),
            _ => {},
        }
        assert(title_of(ev, from as int) == title@ + title_of(ev, j + 1));
        j = j + 1;
    }
    assert(title@ + Seq::<char>::empty() =~= title@);
    title
}

/// A code block's source from `from` up to its end, and the end's position.
fn code_text(events: &Vec<RenderEvent>, from: usize) -> (r: (String, usize))
    requires
        from <= events@.len(),
    ensures
        (r.0@, r.1 as int) == code_of(render_events_view(events@), from as int),
        from <= r.1 <= events@.len(),
{
    let ghost ev = render_events_view(events@);
    let mut code = String::new();
    let mut j = from;
    while j < events.len()
        invariant
            ev == render_events_view(events@),
            from <= j <= events@.len(),
            code_of(ev, from as int) == (code@ + code_of(ev, j as int).0, code_of(ev, j as int).1),
        decreases events@.len() - j,
    {
        assert(ev[j as int] == render_event_view(events@[j as int]));
        match &events[j] {
            RenderEvent::CodeEnd => {
                assert(code@ + Seq::<char>::empty() =~= code@);
                return (code, j);
            },
            RenderEvent::Text(t) => push_str(&mut code, t.as_str()),
            _ => {},
        }
        assert(code_of(ev, from as int) == (code@ + code_of(ev, j + 1).0, code_of(ev, j + 1).1));
        j = j + 1;
    }
    assert(code@ + Seq::<char>::empty() =~= code@);
    (code, j)
}

/// A quote's first line from `from`.
fn first_line(events: &Vec<RenderEvent>, from: usize) -> (r: String)
    requires
        from <= events@.len(),
    ensures
        r@ == first_line_of(render_events_view(events@), from as int),
{
    let ghost ev = render_events_view(events@);
    let mut line = String::new();
    let mut j = from;
    while j < events.len()
        invariant
            ev == render_events_view(events@),
            from <= j <= events@.len(),
            first_line_of(ev, from as int) == line@ + first_line_of(ev, j as int),
        decreases events@.len() - j,
    {
        assert(ev[j as int] == render_event_view(events@[j as int]));
        match &events[j] {
            RenderEvent::ParaStart => {},
            RenderEvent::Text(t) => push_str(&mut line, t.as_str()),
            _ => {
                assert(line@ + Seq::<char>::empty() =~= line@);
                return line;
            },
        }
        assert(first_line_of(ev, from as int) == line@ + first_line_of(ev, j + 1));
        j = j + 1;
    }
    assert(line@ + Seq::<char>::empty() =~= line@);
    line
}

/// What an image destination comes to.
fn fate(dest: &str, options: &RenderOptions, index: &mut ImageIndex, Ghost(ctx): Ghost<Ctx>) -> (r: ImageFate)
    requires
        ctx.allow_dangling == options.allow_dangling,
        ctx.base == options.base@,
        ctx.dir == match options.image_dir { Some(d) => Some(d@), None => None },
        ctx.by_source == old(index).by_source@,
    ensures
        fate_view(r) == image_fate(ctx, dest@),
        final(index).by_source == old(index).by_source,
{
    classify_image(dest, options.base, options.allow_dangling, index, options.image_dir)
}


/// The paragraph opening at `i` as a figure, with the position of its end.
fn figure(events: &Vec<RenderEvent>, i: usize, options: &RenderOptions, index: &mut ImageIndex, Ghost(ctx): Ghost<Ctx>)
    -> (r: Option<(String, usize)>)
    requires
        i < events@.len(),
        ctx.allow_dangling == options.allow_dangling,
        ctx.base == options.base@,
        ctx.dir == match options.image_dir { Some(d) => Some(d@), None => None },
        ctx.by_source == old(index).by_source@,
    ensures
        match figure_at(render_events_view(events@), ctx, i as int) {
            Some((h, e)) => r matches Some((x, y)) && x@ == h && y == e && i < y < events@.len(),
            None => r is None,
        },
        final(index).by_source == old(index).by_source,
{
    let ghost ev = render_events_view(events@);
    if events.len() - i < 2 {
        return None;
    }
    assert(ev[i as int] == render_event_view(events@[i as int]));
    assert(ev[i + 1] == render_event_view(events@[i + 1]));
    match &events[i] {
        RenderEvent::ParaStart => {},
        _ => return None,
    }
    match &events[i + 1] {
        RenderEvent::ImageStart { dest, title } => {
            let (alt, e) = alt_text(events, i + 2);
            if chars_of(title.as_str()).len() == 0 || events.len() - e < 2 {
                return None;
            }
            assert(ev[e + 1] == render_event_view(events@[e + 1]));
            match &events[e + 1] {
                RenderEvent::ParaEnd => {},
                _ => return None,
            }
            let f = fate(dest.as_str(), options, index, Ghost(ctx));
            assert(figure_of(f, dest@, alt@, title@) == figure_v(fate_view(f), dest@, alt@, title@));
            match figure_for(f, dest.as_str(), alt.as_str(), title.as_str()) {
                Some(h) => Some((h, e + 1)),
                None => None,
            }
        },
        _ => None,
    }
}

/// One step of the walk, as plain values: the state after it and the
/// position it goes on from, or the failure.
spec fn stepped(ev: Seq<RenderEventV>, ctx: Ctx, w0: Walk, w1: Walk, i: int, r: Result<usize, RenderError>) -> bool {
    match walk_step(ev, ctx, walk_view(w0), i) {
        Ok((s, j)) => r matches Ok(jj) && jj == j && walk_view(w1) == s && walk_ok(w1, j, ev.len() as int) && i < j <= ev.len() + 1,
        Err(e) => r matches Err(x) && err_view(x) == e,
    }
}

spec fn ctx_fits(ctx: Ctx, links: &LinkIndex, options: &RenderOptions, index: &ImageIndex) -> bool {
    ctx == ctx_of(links, options, index)
}

/// A heading's start: its deduplicated id, its number, its outline entry.
fn heading_step(events: &Vec<RenderEvent>, i: usize, w: &mut Walk, options: &RenderOptions, Ghost(ctx): Ghost<Ctx>)
    -> (r: Result<usize, RenderError>)
    requires
        i < events@.len() < u32::MAX,
        render_events_view(events@)[i as int] is HeadingStart,
        figure_at(render_events_view(events@), ctx, i as int) is None,
        walk_ok(*old(w), i as int, events@.len() as int),
        ctx.numbering == match options.numbering { Some(p) => Some(p@), None => None },
        ctx.id_prefix == match options.id_prefix { Some(p) => Some(p@), None => None },
    ensures
        stepped(render_events_view(events@), ctx, *old(w), *final(w), i as int, r),
{
    let ghost ev = render_events_view(events@);
    let ghost st = walk_view(*w);
    assert(ev[i as int] == render_event_view(events@[i as int]));
    let (level, id) = match &events[i] {
        RenderEvent::HeadingStart { level, id } => (*level, id),
        _ => return Ok(i + 1),
    };
    let title = title_text(events, i + 1);
    let explicit: Option<&str> = match id { Some(s) => Some(s.as_str()), None => None };
    let ghost base = heading_base(match explicit { Some(e) => Some(e@), None => None }, title@,
        match options.id_prefix { Some(p) => Some(p@), None => None });
    let unique = match heading_anchor(&mut w.used, explicit, title.as_str(), options.id_prefix) {
        Some(u) => u,
        None => return Err(RenderError::TooManyEvents),
    };
    let number = w.counter.advance(options.numbering, level);
    let ghost sec = section_step(ctx.numbering, level, st.h2, st.h3);
    assert(sec == (ostr(number), w.counter.h2 as nat, w.counter.h3 as nat));
    let ghost out0 = outs_view(w.out@);
    w.out.push(OutEvent::Relabel(i, owned(unique.as_str())));
    let ghost out1 = out0.push(OutV::Relabel(i as int, unique@));
    assert(outs_view(w.out@) =~= out1);
    match &number {
        Some(k) => {
            w.out.push(OutEvent::Html(heading_number(k.as_str())));
            assert(outs_view(w.out@) =~= out1.push(OutV::Html(heading_number_html(k@))));
        },
        None => {},
    }
    let ghost toc0 = w.toc@.map_values(|e: TocEntry| toc_view(e));
    let t2 = owned(title.as_str());
    match toc_entry(level, owned(unique.as_str()), t2, number) {
        Some(e) => {
            w.toc.push(e);
            assert(w.toc@.map_values(|e: TocEntry| toc_view(e)) =~= toc0.push(toc_view(e)));
        },
        None => {
            assert(w.toc@.map_values(|e: TocEntry| toc_view(e)) =~= toc0);
        },
    }
    w.heading = Some(unique);
    assert forall|k: int| 0 <= k < w.out@.len() implies (out_index(#[trigger] out_view(w.out@[k])) matches Some(x)
        ==> 0 <= x < events@.len()) by {
        if k < out0.len() {
            assert(out_view(w.out@[k]) == out0[k]);
        }
    }
    Ok(i + 1)
}


/// Keeps the out indices within the events after one push.
proof fn lemma_out_push(out: Seq<OutEvent>, x: OutEvent, n: int)
    requires
        forall|k: int| 0 <= k < out.len() ==> (out_index(#[trigger] out_view(out[k])) matches Some(y) ==> 0 <= y < n),
        out_index(out_view(x)) matches Some(y) ==> 0 <= y < n,
    ensures
        forall|k: int| 0 <= k < out.push(x).len() ==> (out_index(#[trigger] out_view(out.push(x)[k])) matches Some(y) ==> 0 <= y < n),
{
    assert forall|k: int| 0 <= k < out.push(x).len() implies (out_index(#[trigger] out_view(out.push(x)[k])) matches Some(y) ==> 0 <= y < n) by {
        if k < out.len() {
            assert(out.push(x)[k] == out[k]);
        }
    }
}

/// A code block: mermaid diagrams as they are, the rest highlighted.
fn code_step(events: &Vec<RenderEvent>, i: usize, w: &mut Walk, highlighter: &Highlighter, Ghost(ctx): Ghost<Ctx>)
    -> (r: Result<usize, RenderError>)
    requires
        i < events@.len() < u32::MAX,
        render_events_view(events@)[i as int] is CodeStart,
        figure_at(render_events_view(events@), ctx, i as int) is None,
        walk_ok(*old(w), i as int, events@.len() as int),
    ensures
        stepped(render_events_view(events@), ctx, *old(w), *final(w), i as int, r),
{
    let ghost ev = render_events_view(events@);
    let ghost st = walk_view(*w);
    assert(ev[i as int] == render_event_view(events@[i as int]));
    let info = match &events[i] {
        RenderEvent::CodeStart { info } => info,
        _ => return Ok(i + 1),
    };
    let (source, e) = code_text(events, i + 1);
    let language: Option<String> = match info {
        Some(x) => fence_token(x.as_str()),
        None => None,
    };
    let ghost out0 = w.out@;
    let is_mermaid = match &language {
        Some(l) => crate::text::text_eq(l.as_str(), "mermaid"),
        None => false,
    };
    proof {
        reveal_strlit("mermaid");
    }
    if is_mermaid {
        w.mermaid = true;
        w.out.push(OutEvent::Html(mermaid_block(source.as_str())));
    } else {
        let lang: Option<&str> = match &language { Some(l) => Some(l.as_str()), None => None };
        w.out.push(OutEvent::Html(highlighter.code_block(lang, source.as_str())));
    }
    proof {
        lemma_out_push(out0, w.out@.last(), events@.len() as int);
        assert(w.out@ == out0.push(w.out@.last()));
        assert(outs_view(w.out@) =~= outs_view(out0).push(out_view(w.out@.last())));
    }
    Ok(e + 1)
}

/// A link's start: a `~` reference resolved, or reported.
fn link_step(events: &Vec<RenderEvent>, i: usize, w: &mut Walk, links: &LinkIndex, options: &RenderOptions, Ghost(ctx): Ghost<Ctx>)
    -> (r: Result<usize, RenderError>)
    requires
        i < events@.len() < u32::MAX,
        render_events_view(events@)[i as int] is LinkStart,
        figure_at(render_events_view(events@), ctx, i as int) is None,
        walk_ok(*old(w), i as int, events@.len() as int),
        ctx.products == links.products@,
        ctx.allow_dangling == options.allow_dangling,
        ctx.print == print_view(options.print),
        ctx.base == options.base@,
    ensures
        stepped(render_events_view(events@), ctx, *old(w), *final(w), i as int, r),
{
    let ghost ev = render_events_view(events@);
    let ghost st = walk_view(*w);
    assert(ev[i as int] == render_event_view(events@[i as int]));
    let dest = match &events[i] {
        RenderEvent::LinkStart { dest } => dest,
        _ => return Ok(i + 1),
    };
    let ghost out0 = w.out@;
    let ghost d0 = w.dangling@;
    let ghost b0 = w.broken@;
    w.links = w.links + 1;
    match tilde_reference(dest.as_str()) {
        Some((target, fragment)) => {
            match links.resolve(target.as_str()) {
                Ok(resolved) => {
                    let f: Option<&str> = match &fragment { Some(x) => Some(x.as_str()), None => None };
                    let to = link_target(resolved.as_str(), f, options.print, options.base);
                    w.out.push(OutEvent::Relabel(i, to));
                },
                Err(e) => {
                    let m = e.message();
                    if e.breaks_build(options.allow_dangling) {
                        w.broken.push(m);
                        assert(crate::links::strs(w.broken@) =~= crate::links::strs(b0).push(m@));
                    } else {
                        w.dangling.push(m);
                        assert(crate::links::strs(w.dangling@) =~= crate::links::strs(d0).push(m@));
                    }
                    w.out.push(OutEvent::Keep(i));
                },
            }
        },
        None => {
            w.out.push(OutEvent::Keep(i));
        },
    }
    proof {
        lemma_out_push(out0, w.out@.last(), events@.len() as int);
        assert(w.out@ == out0.push(w.out@.last()));
        assert(outs_view(w.out@) =~= outs_view(out0).push(out_view(w.out@.last())));
    }
    Ok(i + 1)
}

/// An image's start outside a figure: an image of the tree as our own
/// tag, any other kept, a missing one reported.
fn image_step(events: &Vec<RenderEvent>, i: usize, w: &mut Walk, options: &RenderOptions, index: &mut ImageIndex, Ghost(ctx): Ghost<Ctx>)
    -> (r: Result<usize, RenderError>)
    requires
        i < events@.len() < u32::MAX,
        render_events_view(events@)[i as int] is ImageStart,
        figure_at(render_events_view(events@), ctx, i as int) is None,
        walk_ok(*old(w), i as int, events@.len() as int),
        ctx.allow_dangling == options.allow_dangling,
        ctx.base == options.base@,
        ctx.dir == match options.image_dir { Some(d) => Some(d@), None => None },
        ctx.by_source == old(index).by_source@,
    ensures
        stepped(render_events_view(events@), ctx, *old(w), *final(w), i as int, r),
        final(index).by_source == old(index).by_source,
{
    let ghost ev = render_events_view(events@);
    let ghost st = walk_view(*w);
    assert(ev[i as int] == render_event_view(events@[i as int]));
    let (dest, title) = match &events[i] {
        RenderEvent::ImageStart { dest, title } => (dest, title),
        _ => return Ok(i + 1),
    };
    let ghost out0 = w.out@;
    let ghost d0 = w.dangling@;
    let ghost b0 = w.broken@;
    let f = fate(dest.as_str(), options, index, Ghost(ctx));
    let next = match f {
        ImageFate::Local(info) => {
            let (alt, e) = alt_text(events, i + 1);
            w.out.push(OutEvent::Html(image_tag(&info, alt.as_str(), Some(title.as_str()))));
            e + 1
        },
        ImageFate::PassThrough => {
            w.images = w.images + 1;
            w.out.push(OutEvent::Keep(i));
            i + 1
        },
        ImageFate::Broken(m) => {
            w.images = w.images + 1;
            let ghost mv = m@;
            w.broken.push(m);
            assert(crate::links::strs(w.broken@) =~= crate::links::strs(b0).push(mv));
            w.out.push(OutEvent::Keep(i));
            i + 1
        },
        ImageFate::Dangling(m) => {
            w.images = w.images + 1;
            let ghost mv = m@;
            w.dangling.push(m);
            assert(crate::links::strs(w.dangling@) =~= crate::links::strs(d0).push(mv));
            w.out.push(OutEvent::Keep(i));
            i + 1
        },
    };
    proof {
        lemma_out_push(out0, w.out@.last(), events@.len() as int);
        assert(w.out@ == out0.push(w.out@.last()));
        assert(outs_view(w.out@) =~= outs_view(out0).push(out_view(w.out@.last())));
    }
    Ok(next)
}


/// A quote's start: an admonition's frame, or a plain quote (unless its
/// first line opens like an unknown admonition).
fn quote_step(events: &Vec<RenderEvent>, i: usize, w: &mut Walk, Ghost(ctx): Ghost<Ctx>) -> (r: Result<usize, RenderError>)
    requires
        i < events@.len() < u32::MAX,
        render_events_view(events@)[i as int] is QuoteStart,
        figure_at(render_events_view(events@), ctx, i as int) is None,
        walk_ok(*old(w), i as int, events@.len() as int),
    ensures
        stepped(render_events_view(events@), ctx, *old(w), *final(w), i as int, r),
{
    let ghost ev = render_events_view(events@);
    assert(ev[i as int] == render_event_view(events@[i as int]));
    let kind = match &events[i] {
        RenderEvent::QuoteStart { kind } => *kind,
        _ => return Ok(i + 1),
    };
    let ghost out0 = w.out@;
    match kind {
        Some(k) => {
            let name = if k == 0 { "Note" } else if k == 1 { "Tip" } else if k == 2 { "Important" } else if k == 3 { "Warning" } else { "Caution" };
            proof {
                reveal_strlit("Note");
                reveal_strlit("Tip");
                reveal_strlit("Important");
                reveal_strlit("Warning");
                reveal_strlit("Caution");
            }
            assert(name@ == admonition_name(k));
            w.quotes.push(true);
            w.out.push(OutEvent::Html(admonition_open(name)));
        },
        None => {
            let line = first_line(events, i + 1);
            match admonition_typo_error(line.as_str()) {
                Some(report) => return Err(RenderError::Invalid(report)),
                None => {},
            }
            w.quotes.push(false);
            w.out.push(OutEvent::Keep(i));
        },
    }
    proof {
        lemma_out_push(out0, w.out@.last(), events@.len() as int);
        assert(w.out@ == out0.push(w.out@.last()));
        assert(outs_view(w.out@) =~= outs_view(out0).push(out_view(w.out@.last())));
    }
    Ok(i + 1)
}

/// A plain text run: enriched, or kept.
#[verifier::spinoff_prover]
#[verifier::rlimit(40)]
fn enrich_step(events: &Vec<RenderEvent>, i: usize, w: &mut Walk, options: &RenderOptions, Ghost(ctx): Ghost<Ctx>)
    -> (r: Result<usize, RenderError>)
    requires
        i < events@.len() < u32::MAX,
        render_events_view(events@)[i as int] is Text,
        figure_at(render_events_view(events@), ctx, i as int) is None,
        walk_ok(*old(w), i as int, events@.len() as int),
        ctx.allow_dangling == options.allow_dangling,
        ctx.base == options.base@,
        ctx.phrases == match options.refs { Some(s) => Some(phrase_keys(s.index.phrases_spec())), None => None },
        ctx.prose == prose_refs_view(prose_refs_of(options.refs)),
    ensures
        stepped(render_events_view(events@), ctx, *old(w), *final(w), i as int, r),
{
    let ghost ev = render_events_view(events@);
    let ghost st = walk_view(*w);
    assert(ev[i as int] == render_event_view(events@[i as int]));
    let t = match &events[i] {
        RenderEvent::Text(t) => t,
        _ => return Ok(i + 1),
    };
    let ghost out0 = w.out@;
    if w.links != 0 || w.images != 0 || w.heading.is_some() {
        w.out.push(OutEvent::Keep(i));
        proof {
            lemma_out_push(out0, w.out@.last(), events@.len() as int);
            assert(outs_view(w.out@) =~= outs_view(out0).push(out_view(w.out@.last())));
        }
        return Ok(i + 1);
    }
    let chars = chars_of(t.as_str());
    let hits: Vec<(usize, usize, usize)> = match &options.refs {
        Some(s) => s.index.phrase_hits(t.as_str()),
        None => Vec::new(),
    };
    let refs: Option<ProseRefs> = match &options.refs {
        Some(s) => Some(ProseRefs { index: s.index, page: s.page, book: s.book }),
        None => None,
    };
    assert(refs == prose_refs_of(options.refs));
    match enrich_prose(chars.as_slice(), &hits, refs, options.base, options.allow_dangling, &mut w.dangling, &mut w.broken) {
        Prose::Plain => w.out.push(OutEvent::Keep(i)),
        Prose::Marked(h) => w.out.push(OutEvent::Html(h)),
        Prose::Overlapping => return Err(RenderError::Overlapping(owned(t.as_str()))),
    }
    proof {
        lemma_out_push(out0, w.out@.last(), events@.len() as int);
        assert(outs_view(w.out@) =~= outs_view(out0).push(out_view(w.out@.last())));
    }
    Ok(i + 1)
}

/// Every other event: quote and table frames, heading permalinks, link
/// and image depth, or the event kept.
fn plain_step(events: &Vec<RenderEvent>, i: usize, w: &mut Walk, Ghost(ctx): Ghost<Ctx>) -> (r: Result<usize, RenderError>)
    requires
        i < events@.len() < u32::MAX,
        !(render_events_view(events@)[i as int] is HeadingStart),
        !(render_events_view(events@)[i as int] is CodeStart),
        !(render_events_view(events@)[i as int] is LinkStart),
        !(render_events_view(events@)[i as int] is ImageStart),
        !(render_events_view(events@)[i as int] is QuoteStart),
        !(render_events_view(events@)[i as int] is Text),
        figure_at(render_events_view(events@), ctx, i as int) is None,
        walk_ok(*old(w), i as int, events@.len() as int),
    ensures
        stepped(render_events_view(events@), ctx, *old(w), *final(w), i as int, r),
{
    let ghost ev = render_events_view(events@);
    assert(ev[i as int] == render_event_view(events@[i as int]));
    let ghost out0 = w.out@;
    match &events[i] {
        RenderEvent::QuoteEnd => {
            let framed = match w.quotes.pop() {
                Some(b) => b,
                None => false,
            };
            if framed {
                w.out.push(OutEvent::Html(admonition_close()));
                assert(outs_view(w.out@) =~= outs_view(out0).push(OutV::Html("</aside>\n"@)));
            } else {
                w.out.push(OutEvent::Keep(i));
                assert(outs_view(w.out@) =~= outs_view(out0).push(OutV::Keep(i as int)));
            }
        },
        RenderEvent::TableStart => {
            w.out.push(OutEvent::Html(table_open()));
            w.out.push(OutEvent::Keep(i));
            assert(outs_view(w.out@) =~= outs_view(out0).push(OutV::Html("<div class=\"table-scroll\">\n"@)).push(OutV::Keep(i as int)));
        },
        RenderEvent::TableEnd => {
            w.out.push(OutEvent::Keep(i));
            w.out.push(OutEvent::Html(table_close()));
            assert(outs_view(w.out@) =~= outs_view(out0).push(OutV::Keep(i as int)).push(OutV::Html("</div>\n"@)));
        },
        RenderEvent::HeadingEnd => {
            match &w.heading {
                Some(id) => {
                    let p = heading_permalink(id.as_str());
                    w.out.push(OutEvent::Html(p));
                    w.out.push(OutEvent::Keep(i));
                    assert(outs_view(w.out@) =~= outs_view(out0).push(OutV::Html(permalink_html(id@))).push(OutV::Keep(i as int)));
                },
                None => {
                    w.out.push(OutEvent::Keep(i));
                    assert(outs_view(w.out@) =~= outs_view(out0).push(OutV::Keep(i as int)));
                },
            }
            w.heading = None;
        },
        RenderEvent::LinkEnd => {
            w.links = if w.links > 0 { w.links - 1 } else { 0 };
            w.out.push(OutEvent::Keep(i));
            assert(outs_view(w.out@) =~= outs_view(out0).push(OutV::Keep(i as int)));
        },
        RenderEvent::ImageEnd => {
            w.images = if w.images > 0 { w.images - 1 } else { 0 };
            w.out.push(OutEvent::Keep(i));
            assert(outs_view(w.out@) =~= outs_view(out0).push(OutV::Keep(i as int)));
        },
        _ => {
            w.out.push(OutEvent::Keep(i));
            assert(outs_view(w.out@) =~= outs_view(out0).push(OutV::Keep(i as int)));
        },
    }
    proof {
        assert forall|k: int| 0 <= k < w.out@.len() implies (out_index(#[trigger] out_view(w.out@[k])) matches Some(x)
            ==> 0 <= x < events@.len()) by {
            if k < out0.len() {
                assert(w.out@[k] == out0[k]);
            }
        }
    }
    Ok(i + 1)
}


/// One step of the walk at event `i`.
fn render_step(
    events: &Vec<RenderEvent>,
    i: usize,
    w: &mut Walk,
    links: &LinkIndex,
    highlighter: &Highlighter,
    options: &RenderOptions,
    index: &mut ImageIndex,
    Ghost(ctx): Ghost<Ctx>,
) -> (r: Result<usize, RenderError>)
    requires
        i < events@.len() < u32::MAX,
        walk_ok(*old(w), i as int, events@.len() as int),
        ctx == ctx_of(links, options, old(index)),
    ensures
        stepped(render_events_view(events@), ctx, *old(w), *final(w), i as int, r),
        final(index).by_source == old(index).by_source,
{
    let ghost ev = render_events_view(events@);
    match figure(events, i, options, index, Ghost(ctx)) {
        Some((h, e)) => {
            let ghost out0 = w.out@;
            w.out.push(OutEvent::Html(h));
            proof {
                lemma_out_push(out0, w.out@.last(), events@.len() as int);
                assert(outs_view(w.out@) =~= outs_view(out0).push(out_view(w.out@.last())));
            }
            return Ok(e + 1);
        },
        None => {},
    }
    assert(ev[i as int] == render_event_view(events@[i as int]));
    match &events[i] {
        RenderEvent::HeadingStart { .. } => heading_step(events, i, w, options, Ghost(ctx)),
        RenderEvent::CodeStart { .. } => code_step(events, i, w, highlighter, Ghost(ctx)),
        RenderEvent::LinkStart { .. } => link_step(events, i, w, links, options, Ghost(ctx)),
        RenderEvent::ImageStart { .. } => image_step(events, i, w, options, index, Ghost(ctx)),
        RenderEvent::QuoteStart { .. } => quote_step(events, i, w, Ghost(ctx)),
        RenderEvent::Text(_) => enrich_step(events, i, w, options, Ghost(ctx)),
        _ => plain_step(events, i, w, Ghost(ctx)),
    }
}

/// What a render answers, as plain values, for the events of `md`.
pub open spec fn rendered_as(md: Seq<char>, ev: Seq<RenderEventV>, ctx: Ctx, r: Result<Rendered, RenderError>) -> bool {
    match walk(ev, ctx, walk_start(), 0) {
        Ok(s) => r matches Ok(rd) && rd.html@ == events_html(md, s.out)
            && rd.toc@.map_values(|e: TocEntry| toc_view(e)) == s.toc
            && rd.has_mermaid == s.mermaid
            && crate::links::strs(rd.dangling@) == s.dangling
            && crate::links::strs(rd.broken@) == s.broken,
        Err(e) => r matches Err(x) && err_view(x) == e,
    }
}

proof fn lemma_walk_unfold(ev: Seq<RenderEventV>, ctx: Ctx, s0: WalkV, s1: WalkV, i: int, j: int)
    requires
        0 <= i < ev.len(),
        walk_step(ev, ctx, s0, i) == Ok::<(WalkV, int), WalkErr>((s1, j)),
        i < j <= ev.len() + 1,
    ensures
        walk(ev, ctx, s0, i) == walk(ev, ctx, s1, if j >= ev.len() { ev.len() as int } else { j }),
{
    if j >= ev.len() {
        assert(walk(ev, ctx, s1, ev.len() as int) == Ok::<WalkV, WalkErr>(s1));
    }
}

/// The walk over a parsed text's events, then the HTML of what it made.
fn walk_events(
    markdown: &str,
    events: &Vec<RenderEvent>,
    links: &LinkIndex,
    highlighter: &Highlighter,
    options: &RenderOptions,
    index: &mut ImageIndex,
) -> (r: Result<Rendered, RenderError>)
    requires
        events@.len() < u32::MAX,
        render_events_view(events@) == md_render_events(markdown@),
    ensures
        rendered_as(markdown@, md_render_events(markdown@), ctx_of(links, options, old(index)), r),
        final(index).by_source == old(index).by_source,
{
    let ghost ev = render_events_view(events@);
    let ghost ctx = ctx_of(links, options, index);
    let ghost by0 = index.by_source;
    let mut w = Walk {
        out: Vec::new(),
        toc: Vec::new(),
        used: IdCounter::new(),
        counter: SectionCounter::new(),
        mermaid: false,
        dangling: Vec::new(),
        broken: Vec::new(),
        quotes: Vec::new(),
        links: 0,
        images: 0,
        heading: None,
    };
    proof {
        let v = walk_view(w);
        assert(v.taken =~= walk_start().taken);
        assert(v.out =~= walk_start().out);
        assert(v.toc =~= walk_start().toc);
        assert(v.dangling =~= walk_start().dangling);
        assert(v.broken =~= walk_start().broken);
        assert(v.quotes =~= walk_start().quotes);
        assert(v == walk_start());
    }
    let mut i: usize = 0;
    while i < events.len()
        invariant
            ev == render_events_view(events@),
            ev == md_render_events(markdown@),
            events@.len() < u32::MAX,
            ctx == ctx_of(links, options, index),
            index.by_source == by0,
            by0 == old(index).by_source,
            i <= events@.len(),
            i < events@.len() ==> walk_ok(w, i as int, events@.len() as int),
            forall|k: int| 0 <= k < w.out@.len() ==> (out_index(#[trigger] out_view(w.out@[k])) matches Some(x)
                ==> 0 <= x < events@.len()),
            walk(ev, ctx, walk_view(w), i as int) == walk(ev, ctx, walk_start(), 0),
        decreases events@.len() - i,
    {
        let ghost w0 = w;
        let step = render_step(events, i, &mut w, links, highlighter, options, index, Ghost(ctx));
        match step {
            Ok(j) => {
                proof {
                    lemma_walk_unfold(ev, ctx, walk_view(w0), walk_view(w), i as int, j as int);
                }
                if j >= events.len() {
                    i = events.len();
                } else {
                    i = j;
                }
            },
            Err(e) => {
                assert(walk(ev, ctx, walk_view(w0), i as int) == Err::<WalkV, WalkErr>(err_view(e)));
                return Err(e);
            },
        }
    }
    let Walk { out, toc, used: _, counter: _, mermaid, dangling, broken, quotes: _, links: _, images: _, heading: _ } = w;
    let html = push_html(markdown, out);
    Ok(Rendered { html, toc, has_mermaid: mermaid, dangling, broken })
}


/// The text a render parses: tab groups expanded, then citation anchors.
pub open spec fn render_source(markdown: Seq<char>, book_short: Option<Seq<char>>) -> Result<Seq<char>, Seq<char>> {
    match tab_expansion(markdown) {
        Ok(x) => Ok(expand_from(x, spans_from(x, 0, None), 0, book_short)),
        Err(e) => Err(e),
    }
}

pub open spec fn book_short_of(options: &RenderOptions) -> Option<Seq<char>> {
    match options.refs {
        Some(s) => match s.book_short { Some(b) => Some(b@), None => None },
        None => None,
    }
}

/// Renders article markdown to HTML: tab groups and citation anchors
/// expanded first, then every heading given an id (h2/h3 collected for
/// the table of contents), code highlighted, `~` links resolved, images
/// resolved against `index`, admonitions framed, tables wrapped, prose
/// enriched. The result is the walk over the parse of the expanded text.
pub fn render(markdown: &str, links: &LinkIndex, highlighter: &Highlighter, options: &RenderOptions, index: &mut ImageIndex)
    -> (r: Result<Rendered, RenderError>)
    ensures
        match render_source(markdown@, book_short_of(options)) {
            Err(e) => r matches Err(RenderError::Invalid(m)) && m@ == e,
            Ok(md) => if md_render_events(md).len() >= u32::MAX {
                r matches Err(RenderError::TooManyEvents)
            } else {
                rendered_as(md, md_render_events(md), ctx_of(links, options, old(index)), r)
            },
        },
        final(index).by_source == old(index).by_source,
{
    let expanded = match expand_tab_groups(markdown) {
        Ok(x) => x,
        Err(e) => return Err(RenderError::Invalid(e)),
    };
    let short: Option<&str> = match &options.refs {
        Some(s) => s.book_short,
        None => None,
    };
    let md = expand_citation_anchors(expanded.as_str(), short);
    let events = parse_render_events(md.as_str());
    if events.len() >= 0xffff_ffff {
        return Err(RenderError::TooManyEvents);
    }
    walk_events(md.as_str(), &events, links, highlighter, options, index)
}
} // verus!
