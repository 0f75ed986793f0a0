//! An article's "On this page" outline, read off pulldown-cmark's event
//! stream: every heading gets the id and number that rendering gives it,
//! and the h2 and h3 headings are listed.
use vstd::prelude::*;
use pulldown_cmark::{Event, Options, Parser, Tag, TagEnd};
use crate::markdown::{fresh_id, taken_of, IdCounter, SectionCounter, TocEntry};
use crate::markup::{heading_anchor, heading_base, toc_entry};
use crate::text::{decimal, push_str};

verus! {

/// A markdown event as the heading walk reads it.
pub enum MdEvent {
    /// The start of a heading: its level and its explicit `{#id}`.
    HeadingStart { level: u8, id: Option<String> },
    HeadingEnd,
    Text(String),
    /// Inline code.
    Code(String),
    /// Any other event.
    Other,
}

/// A markdown event as plain values.
pub enum MdEventV {
    HeadingStart(u8, Option<Seq<char>>),
    HeadingEnd,
    Text(Seq<char>),
    Code(Seq<char>),
    Other,
}

pub open spec fn event_view(e: MdEvent) -> MdEventV {
    match e {
        MdEvent::HeadingStart { level, id } => MdEventV::HeadingStart(level, match id { Some(s) => Some(s@), None => None }),
        MdEvent::HeadingEnd => MdEventV::HeadingEnd,
        MdEvent::Text(t) => MdEventV::Text(t@),
        MdEvent::Code(t) => MdEventV::Code(t@),
        MdEvent::Other => MdEventV::Other,
    }
}

pub open spec fn events_view(v: Seq<MdEvent>) -> Seq<MdEventV> {
    v.map_values(|e: MdEvent| event_view(e))
}

/// The events pulldown-cmark yields for `markdown` with tables,
/// strikethrough, footnotes and GFM extensions on, each heading start
/// with its level and explicit id, each heading end, text and inline
/// code with their text, and every other event as `Other`.
pub uninterp spec fn md_events(markdown: Seq<char>) -> Seq<MdEventV>;

/// `pulldown_cmark::Parser::new_ext` with the extensions articles use;
/// its events converted one by one (heading levels to their numbers).
/// The events are claimed to be `md_events` of the text.
#[verifier::external_body]
fn parse_events(markdown: &str) -> (r: Vec<MdEvent>)
    ensures
        events_view(r@) == md_events(markdown@),
{
    let options = Options::ENABLE_TABLES | Options::ENABLE_STRIKETHROUGH | Options::ENABLE_FOOTNOTES | Options::ENABLE_GFM;
    Parser::new_ext(markdown, options).map(|e| match e {
        Event::Start(Tag::Heading { level, id, .. }) => MdEvent::HeadingStart { level: level as u8, id: id.map(|s| s.to_string()) },
        Event::End(TagEnd::Heading(_)) => MdEvent::HeadingEnd,
        Event::Text(t) => MdEvent::Text(t.to_string()),
        Event::Code(t) => MdEvent::Code(t.to_string()),
        _ => MdEvent::Other,
    }).collect()
}

/// A heading's title: the text and inline code from `i` up to the
/// heading's end.
pub open spec fn heading_title(ev: Seq<MdEventV>, i: int) -> Seq<char>
    decreases ev.len() - i,
{
    if i < 0 || i >= ev.len() || ev[i] is HeadingEnd {
        Seq::empty()
    } else {
        (match ev[i] {
            MdEventV::Text(t) => t,
            MdEventV::Code(t) => t,
            _ => Seq::empty(),
        }) + heading_title(ev, i + 1)
    }
}

/// A heading's number and the section counters after it, on a page
/// numbered `numbering`: an h2 starts the next section, an h3 the next
/// subsection; other levels and unnumbered pages get none.
pub open spec fn section_step(numbering: Option<Seq<char>>, level: u8, h2: nat, h3: nat) -> (Option<Seq<char>>, nat, nat) {
    match numbering {
        Some(p) => if level == 2 {
            (Some(p + seq!['.'] + decimal(h2 + 1)), h2 + 1, 0)
        } else if level == 3 {
            (Some(p + seq!['.'] + decimal(h2) + seq!['.'] + decimal(h3 + 1)), h2, h3 + 1)
        } else {
            (None, h2, h3)
        },
        None => (None, h2, h3),
    }
}

/// An outline entry as plain values: level, id, title, number.
pub type TocV = (u8, Seq<char>, Seq<char>, Option<Seq<char>>);

pub open spec fn toc_view(e: TocEntry) -> TocV {
    (e.level, e.id@, e.title@, match e.number { Some(n) => Some(n@), None => None })
}

/// The outline of the events from `i` on, given the ids already in use
/// and the section counters so far: each heading takes the first free id
/// of its base (its explicit id, else its slugified title) and the next
/// number; the h2 and h3 headings are listed.
pub open spec fn outline_walk(
    ev: Seq<MdEventV>,
    numbering: Option<Seq<char>>,
    i: int,
    taken: Seq<Seq<char>>,
    h2: nat,
    h3: nat,
) -> Seq<TocV>
    decreases ev.len() - i,
{
    if i < 0 || i >= ev.len() {
        Seq::empty()
    } else {
        match ev[i] {
            MdEventV::HeadingStart(level, id) => {
                let title = heading_title(ev, i + 1);
                let base = heading_base(id, title, None);
                let id = fresh_id(taken, base);
                let (number, h2b, h3b) = section_step(numbering, level, h2, h3);
                let rest = outline_walk(ev, numbering, i + 1, taken.push(id), h2b, h3b);
                if 2 <= level <= 3 {
                    seq![(level, id, title, number)] + rest
                } else {
                    rest
                }
            },
            _ => outline_walk(ev, numbering, i + 1, taken, h2, h3),
        }
    }
}

/// The outline of a run of events, from no ids and fresh counters.
pub open spec fn outline_of(ev: Seq<MdEventV>, numbering: Option<Seq<char>>) -> Seq<TocV> {
    outline_walk(ev, numbering, 0, Seq::empty(), 0, 0)
}

/// The title of the heading whose text starts at `from`.
fn gather_title(events: &Vec<MdEvent>, from: usize) -> (r: String)
    requires
        from <= events@.len(),
    ensures
        r@ == heading_title(events_view(events@), from as int),
{
    let ghost ev = events_view(events@);
    let mut title = String::new();
    let mut j = from;
    while j < events.len()
        invariant
            ev == events_view(events@),
            from <= j <= events@.len(),
            heading_title(ev, from as int) == title@ + heading_title(ev, j as int),
        decreases events@.len() - j,
    {
        assert(ev[j as int] == event_view(events@[j as int]));
        match &events[j] {
            MdEvent::HeadingEnd => {
                return title;
            },
            MdEvent::Text(t) => push_str(&mut title, t.as_str()),
            MdEvent::Code(t) => push_str(&mut title, t.as_str()),
            _ => {},
        }
        assert(heading_title(ev, from as int) == title@ + heading_title(ev, j + 1));
        j = j + 1;
    }
    assert(heading_title(ev, j as int) =~= Seq::<char>::empty());
    assert(title@ + Seq::<char>::empty() =~= title@);
    title
}

fn copy_opt(o: &Option<String>) -> (r: Option<String>)
    ensures
        crate::validate::opt_view(r) == crate::validate::opt_view(*o),
{
    match o {
        Some(s) => Some(crate::text::owned(s.as_str())),
        None => None,
    }
}

/// The outline of a run of events: every heading gets its id and number
/// as rendering gives them; the h2 and h3 headings are listed.
pub fn outline_of_events(events: &Vec<MdEvent>, numbering: Option<&str>) -> (r: Vec<TocEntry>)
    requires
        events@.len() < u32::MAX,
    ensures
        r@.map_values(|e: TocEntry| toc_view(e)) == outline_of(events_view(events@), match numbering { Some(p) => Some(p@), None => None }),
{
    let ghost ev = events_view(events@);
    let ghost num = match numbering { Some(p) => Some(p@), None => None };
    let mut out: Vec<TocEntry> = Vec::new();
    let mut used = IdCounter::new();
    let mut counter = SectionCounter::new();
    assert(taken_of(used.ids@) =~= Seq::<Seq<char>>::empty());
    let mut i: usize = 0;
    while i < events.len()
        invariant
            ev == events_view(events@),
            num == match numbering { Some(p) => Some(p@), None => None },
            events@.len() < u32::MAX,
            i <= events@.len(),
            counter.h2 <= i,
            counter.h3 <= i,
            used.ids@.len() <= i,
            out@.map_values(|e: TocEntry| toc_view(e))
                + outline_walk(ev, num, i as int, taken_of(used.ids@), counter.h2 as nat, counter.h3 as nat)
                == outline_of(ev, num),
        decreases events@.len() - i,
    {
        assert(ev[i as int] == event_view(events@[i as int]));
        let ghost before = out@.map_values(|e: TocEntry| toc_view(e));
        let ghost taken = taken_of(used.ids@);
        let ghost (h2, h3) = (counter.h2 as nat, counter.h3 as nat);
        match &events[i] {
            MdEvent::HeadingStart { level, id } => {
                let title = gather_title(events, i + 1);
                let explicit: Option<&str> = match id { Some(s) => Some(s.as_str()), None => None };
                let ghost base = heading_base(match explicit { Some(e) => Some(e@), None => None }, title@, None);
                let unique = match heading_anchor(&mut used, explicit, title.as_str(), None) {
                    Some(u) => u,
                    None => {
                        assert(false);
                        String::new()
                    },
                };
                let number = counter.advance(numbering, *level);
                assert(section_step(num, *level, h2, h3) == (crate::validate::opt_view(number), counter.h2 as nat, counter.h3 as nat));
                let lv = *level;
                let t2 = crate::text::owned(title.as_str());
                match toc_entry(lv, unique, t2, number) {
                    Some(e) => {
                        out.push(e);
                        assert(out@.map_values(|e: TocEntry| toc_view(e)) =~= before.push(toc_view(out@.last())));
                    },
                    None => {},
                }
                assert(match id { Some(s) => Some(s@), None => None } == match explicit { Some(e) => Some(e@), None => None });
            },
            _ => {},
        }
        i = i + 1;
    }
    assert(outline_walk(ev, num, i as int, taken_of(used.ids@), counter.h2 as nat, counter.h3 as nat)
        =~= Seq::<TocV>::empty());
    assert(out@.map_values(|e: TocEntry| toc_view(e)) + Seq::<TocV>::empty() =~= out@.map_values(|e: TocEntry| toc_view(e)));
    out
}

/// The "On this page" outline of an article's markdown: its h2 and h3
/// headings with the ids and numbers rendering gives them. None only
/// when the text parses into more events than a `u32` counts.
pub fn heading_outline(markdown: &str, numbering: Option<&str>) -> (r: Option<Vec<TocEntry>>)
    ensures
        md_events(markdown@).len() < u32::MAX <==> r is Some,
        r matches Some(v) ==> v@.map_values(|e: TocEntry| toc_view(e))
            == outline_of(md_events(markdown@), match numbering { Some(p) => Some(p@), None => None }),
{
    let events = parse_events(markdown);
    if events.len() >= 0xffff_ffff {
        return None;
    }
    Some(outline_of_events(&events, numbering))
}

} // verus!
