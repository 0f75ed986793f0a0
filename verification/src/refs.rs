//! Inline references: phrases that link to their declaring page wherever
//! prose states them, the `§` section-number index of each book, and the
//! `[*name]` citation anchors books carry.
use vstd::prelude::*;
use crate::markdown::{citation_anchors, CitationAnchor, TocEntry};
use crate::site::{
    book_walk, product_items, walk_view, Anthology, AnthologyChild, AnthologyItem, Article, Book, BookChild, Chapter, Product,
    ProductItem, Site, Topic, TopicChild, topic_pages,
};
use crate::text::{chars_of, owned, push_str, trim, trim_bounds};

verus! {

/// Where a phrase points.
pub enum PhraseTarget {
    /// A page path: the declaring article, or a directory's landing.
    Page(String),
    /// A book's cover path; prose may extend the phrase with `§<number>`.
    Book(String),
}

/// One declared phrase and its target.
pub struct Phrase {
    pub text: String,
    pub target: PhraseTarget,
}

/// A `§` target inside a book: an article page, optionally one heading.
pub struct SectionTarget {
    pub path: String,
    pub fragment: Option<String>,
}

/// One `[*name]` citation anchor, resolved against the tree.
pub struct Citation {
    /// The declared name, unique within its book.
    pub name: String,
    /// The full citation string a test or code comment writes: the
    /// book's short name (else its title), a space, `*` and the name.
    pub qualified: String,
    /// Site-absolute path of the book's cover.
    pub book: String,
    /// Site-absolute path of the article the anchor sits in.
    pub article: String,
    /// The article's section number where it has one.
    pub number: Option<String>,
    /// The source block the anchor sits in.
    pub context: String,
    /// Whether the anchor names a whole section rather than a statement
    /// inside one; anchors in article text name statements.
    pub section: bool,
}

/// A phrase target as plain values: whether it is a book, and its path.
pub open spec fn target_view(t: PhraseTarget) -> (bool, Seq<char>) {
    match t {
        PhraseTarget::Page(p) => (false, p@),
        PhraseTarget::Book(p) => (true, p@),
    }
}

/// A section entry as plain values: number, path, fragment.
pub type SectionV = (Seq<char>, Seq<char>, Option<Seq<char>>);

pub open spec fn section_view(e: (String, SectionTarget)) -> SectionV {
    (e.0@, e.1.path@, match e.1.fragment { Some(f) => Some(f@), None => None })
}

pub open spec fn sections_view(v: Seq<(String, SectionTarget)>) -> Seq<SectionV> {
    v.map_values(|e: (String, SectionTarget)| section_view(e))
}

/// Whether `c` is the section sign.
pub open spec fn is_section_sign(c: char) -> bool {
    c == '\u{a7}'
}

/// The complaint about one declared phrase, if any: phrases are
/// non-empty, carry no surrounding whitespace and no section sign, and
/// belong to one declarer only.
pub open spec fn phrase_problem(claimed: Seq<(Seq<char>, Seq<char>)>, phrase: Seq<char>, declarer: Seq<char>) -> Option<Seq<char>> {
    if trim(phrase).len() == 0 {
        Some(declarer + " declares an empty inline_ref phrase"@)
    } else if trim(phrase) != phrase {
        Some(declarer + " declares inline_ref phrase '"@ + phrase + "' with leading or trailing whitespace"@)
    } else if exists|k: int| 0 <= k < phrase.len() && is_section_sign(#[trigger] phrase[k]) {
        Some(declarer + " declares inline_ref phrase '"@ + phrase + "' containing '\u{a7}'"@)
    } else {
        match claimant(claimed, phrase) {
            Some(other) => Some("inline_ref phrase '"@ + phrase + "' is claimed by both "@ + other + " and "@ + declarer),
            None => None,
        }
    }
}

/// Who claimed `phrase` first, if anyone.
pub open spec fn claimant(claimed: Seq<(Seq<char>, Seq<char>)>, phrase: Seq<char>) -> Option<Seq<char>>
    decreases claimed.len(),
{
    if claimed.len() == 0 {
        None
    } else {
        match claimant(claimed.drop_last(), phrase) {
            Some(o) => Some(o),
            None => if claimed.last().0 == phrase { Some(claimed.last().1) } else { None },
        }
    }
}

/// Claiming a run of phrases in order: the claims grow one phrase at a
/// time until a phrase has a problem.
pub open spec fn claim_fold(claimed: Seq<(Seq<char>, Seq<char>)>, phrases: Seq<Seq<char>>, declarer: Seq<char>) -> Result<Seq<(Seq<char>, Seq<char>)>, Seq<char>>
    decreases phrases.len(),
{
    if phrases.len() == 0 {
        Ok(claimed)
    } else {
        match claim_fold(claimed, phrases.drop_last(), declarer) {
            Err(e) => Err(e),
            Ok(c) => match phrase_problem(c, phrases.last(), declarer) {
                Some(e) => Err(e),
                None => Ok(c.push((phrases.last(), declarer))),
            },
        }
    }
}

/// The claims so far, as plain values.
pub open spec fn claims_view(v: Seq<(String, String)>) -> Seq<(Seq<char>, Seq<char>)> {
    v.map_values(|e: (String, String)| (e.0@, e.1@))
}

/// The phrases so far, as plain values.
pub open spec fn phrases_view(v: Seq<Phrase>) -> Seq<(Seq<char>, (bool, Seq<char>))> {
    v.map_values(|p: Phrase| (p.text@, target_view(p.target)))
}

fn copy_target(t: &PhraseTarget) -> (r: PhraseTarget)
    ensures
        target_view(r) == target_view(*t),
{
    match t {
        PhraseTarget::Page(p) => PhraseTarget::Page(p.clone()),
        PhraseTarget::Book(p) => PhraseTarget::Book(p.clone()),
    }
}

fn find_claimant(claimed: &Vec<(String, String)>, phrase: &str) -> (r: Option<String>)
    ensures
        match claimant(claims_view(claimed@), phrase@) {
            Some(o) => r matches Some(x) && x@ == o,
            None => r is None,
        },
{
    let ghost cv = claims_view(claimed@);
    let mut k: usize = 0;
    while k < claimed.len()
        invariant
            k <= claimed@.len(),
            cv == claims_view(claimed@),
            claimant(cv.take(k as int), phrase@) is None,
        decreases claimed@.len() - k,
    {
        assert(cv.take(k + 1).drop_last() =~= cv.take(k as int));
        if crate::text::text_eq(claimed[k].0.as_str(), phrase) {
            let ghost t = cv.take(k + 1);
            assert(claimant(t, phrase@) == Some(claimed@[k as int].1@));
            proof {
                lemma_claimant_prefix(cv, k + 1, phrase@);
            }
            return Some(claimed[k].1.clone());
        }
        assert(claimant(cv.take(k + 1), phrase@) is None);
        k = k + 1;
    }
    assert(cv.take(claimed@.len() as int) =~= cv);
    None
}

/// A claimant found in a prefix is the claimant of the whole.
proof fn lemma_claimant_prefix(c: Seq<(Seq<char>, Seq<char>)>, n: int, phrase: Seq<char>)
    requires
        0 <= n <= c.len(),
        claimant(c.take(n), phrase) is Some,
    ensures
        claimant(c, phrase) == claimant(c.take(n), phrase),
    decreases c.len() - n,
{
    if n < c.len() {
        assert(c.take(n + 1).drop_last() =~= c.take(n));
        lemma_claimant_prefix(c, n + 1, phrase);
    } else {
        assert(c.take(n) =~= c);
    }
}

/// The problem with one phrase, checked in the order the rules list.
fn check_phrase(claimed: &Vec<(String, String)>, phrase: &str, declarer: &str) -> (r: Option<String>)
    ensures
        match phrase_problem(claims_view(claimed@), phrase@, declarer@) {
            Some(e) => r matches Some(m) && m@ == e,
            None => r is None,
        },
{
    let c = chars_of(phrase);
    let (a, b) = trim_bounds(c.as_slice(), 0, c.len());
    assert(c@.subrange(0, c@.len() as int) =~= phrase@);
    if a == b {
        let mut m = owned(declarer);
        push_str(&mut m, " declares an empty inline_ref phrase");
        return Some(m);
    }
    if a != 0 || b != c.len() {
        assert(trim(phrase@).len() != phrase@.len());
        let mut m = owned(declarer);
        push_str(&mut m, " declares inline_ref phrase '");
        push_str(&mut m, phrase);
        push_str(&mut m, "' with leading or trailing whitespace");
        return Some(m);
    }
    assert(trim(phrase@) =~= phrase@);
    let mut k: usize = 0;
    while k < c.len()
        invariant
            k <= c@.len(),
            c@ == phrase@,
            trim(phrase@) == phrase@,
            phrase@.len() > 0,
            forall|j: int| 0 <= j < k ==> !is_section_sign(#[trigger] c@[j]),
        decreases c@.len() - k,
    {
        if c[k] == '\u{a7}' {
            assert(is_section_sign(phrase@[k as int]));
            let mut m = owned(declarer);
            push_str(&mut m, " declares inline_ref phrase '");
            push_str(&mut m, phrase);
            push_str(&mut m, "' containing '\u{a7}'");
            assert(exists|j: int| 0 <= j < phrase@.len() && is_section_sign(#[trigger] phrase@[j]));
            assert(m@ =~= declarer@ + " declares inline_ref phrase '"@ + phrase@ + "' containing '\u{a7}'"@);
            return Some(m);
        }
        k = k + 1;
    }
    match find_claimant(claimed, phrase) {
        Some(other) => {
            let mut m = owned("inline_ref phrase '");
            push_str(&mut m, phrase);
            push_str(&mut m, "' is claimed by both ");
            push_str(&mut m, other.as_str());
            push_str(&mut m, " and ");
            push_str(&mut m, declarer);
            Some(m)
        },
        None => None,
    }
}


/// A phrase's own rules: non-empty, no surrounding whitespace, no
/// section sign.
pub open spec fn phrase_ok(p: Seq<char>) -> bool {
    &&& trim(p).len() > 0
    &&& trim(p) == p
    &&& forall|k: int| 0 <= k < p.len() ==> !is_section_sign(#[trigger] p[k])
}

/// Every claimed phrase keeps the rules and has one claimant.
pub open spec fn claims_ok(c: Seq<(Seq<char>, Seq<char>)>) -> bool {
    &&& forall|i: int| 0 <= i < c.len() ==> phrase_ok(#[trigger] c[i].0)
    &&& forall|i: int, j: int| 0 <= i < j < c.len() ==> #[trigger] c[i].0 != #[trigger] c[j].0
}

proof fn lemma_no_claimant(c: Seq<(Seq<char>, Seq<char>)>, phrase: Seq<char>)
    requires
        claimant(c, phrase) is None,
    ensures
        forall|k: int| 0 <= k < c.len() ==> #[trigger] c[k].0 != phrase,
    decreases c.len(),
{
    if c.len() > 0 {
        lemma_no_claimant(c.drop_last(), phrase);
        assert forall|k: int| 0 <= k < c.len() implies #[trigger] c[k].0 != phrase by {
            if k < c.len() - 1 {
                assert(c.drop_last()[k] == c[k]);
            }
        }
    }
}

/// A phrase without a problem keeps the claims in order.
proof fn lemma_claim_keeps(c: Seq<(Seq<char>, Seq<char>)>, phrase: Seq<char>, declarer: Seq<char>)
    requires
        claims_ok(c),
        phrase_problem(c, phrase, declarer) is None,
    ensures
        claims_ok(c.push((phrase, declarer))),
{
    lemma_no_claimant(c, phrase);
    let d = c.push((phrase, declarer));
    assert forall|i: int| 0 <= i < d.len() implies phrase_ok(#[trigger] d[i].0) by {
        if i < c.len() {
            assert(d[i] == c[i]);
        }
    }
    assert forall|i: int, j: int| 0 <= i < j < d.len() implies #[trigger] d[i].0 != #[trigger] d[j].0 by {
        if j < c.len() {
            assert(d[i] == c[i] && d[j] == c[j]);
        } else {
            assert(d[i] == c[i]);
        }
    }
}

/// A chapter's or article's lines in a book's section index, as plain
/// values, in the order they are entered; a later entry for the same
/// number wins.
pub open spec fn outline_sections(path: Seq<char>, entries: Seq<TocEntry>) -> Seq<SectionV>
    decreases entries.len(),
{
    if entries.len() == 0 {
        Seq::empty()
    } else {
        outline_sections(path, entries.drop_last()) + match entries.last().number {
            Some(n) => seq![(n@, path, Some(entries.last().id@))],
            None => Seq::empty(),
        }
    }
}

/// The heading outline given for an article: the first one listed under
/// its path, none where none is.
pub open spec fn outline_for(outlines: Seq<(String, Vec<TocEntry>)>, path: Seq<char>) -> Seq<TocEntry>
    decreases outlines.len(),
{
    if outlines.len() == 0 {
        Seq::empty()
    } else if outlines[0].0@ == path {
        outlines[0].1@
    } else {
        outline_for(outlines.drop_first(), path)
    }
}

/// The section entries of a book's numbered articles: the article by its
/// number, then each numbered heading with its fragment.
pub open spec fn article_sections(arts: Seq<Article>, outlines: Seq<(String, Vec<TocEntry>)>) -> Seq<SectionV>
    decreases arts.len(),
{
    if arts.len() == 0 {
        Seq::empty()
    } else {
        let a = arts.last();
        article_sections(arts.drop_last(), outlines) + match a.number {
            Some(n) => seq![(n@, a.path@, None)] + outline_sections(a.path@, outline_for(outlines, a.path@)),
            None => Seq::empty(),
        }
    }
}

/// Every chapter by its number, landing on its first article, in
/// pre-order.
pub open spec fn chapter_sections(children: Seq<BookChild>) -> Seq<SectionV>
    decreases children,
{
    if children.len() == 0 {
        Seq::empty()
    } else {
        chapter_sections(children.drop_last()) + match children[children.len() - 1] {
            BookChild::Article { .. } => Seq::empty(),
            BookChild::Chapter { chapter } => seq![(chapter.number@, chapter.entry@, None)]
                + chapter_sections(chapter.children@),
        }
    }
}

/// The walked articles of a book, trails dropped.
pub open spec fn walked_articles(b: Book) -> Seq<Article> {
    book_walk(b.children@, Seq::empty()).map_values(|e: (Seq<Chapter>, Article)| e.1)
}

/// A book's section index, in entry order.
pub open spec fn book_sections(b: Book, outlines: Seq<(String, Vec<TocEntry>)>) -> Seq<SectionV> {
    article_sections(walked_articles(b), outlines) + chapter_sections(b.children@)
}

fn find_outline<'a>(outlines: &'a Vec<(String, Vec<TocEntry>)>, path: &str) -> (r: Option<&'a Vec<TocEntry>>)
    ensures
        match r {
            Some(v) => v@ == outline_for(outlines@, path@),
            None => outline_for(outlines@, path@) == Seq::<TocEntry>::empty(),
        },
{
    let mut k: usize = 0;
    assert(outlines@.skip(0) =~= outlines@);
    while k < outlines.len()
        invariant
            k <= outlines@.len(),
            outline_for(outlines@, path@) == outline_for(outlines@.skip(k as int), path@),
        decreases outlines@.len() - k,
    {
        assert(outlines@.skip(k as int)[0] == outlines@[k as int]);
        assert(outlines@.skip(k as int).drop_first() =~= outlines@.skip(k + 1));
        if crate::text::text_eq(outlines[k].0.as_str(), path) {
            return Some(&outlines[k].1);
        }
        k = k + 1;
    }
    assert(outlines@.skip(k as int).len() == 0);
    None
}

fn copy_fragment(o: &Option<String>) -> (r: Option<String>)
    ensures
        r == *o,
{
    match o {
        Some(x) => Some(x.clone()),
        None => None,
    }
}

fn push_section(out: &mut Vec<(String, SectionTarget)>, number: &str, path: &str, fragment: Option<String>)
    ensures
        sections_view(final(out)@) == sections_view(old(out)@).push((number@, path@,
            match fragment { Some(f) => Some(f@), None => None })),
{
    out.push((owned(number), SectionTarget { path: owned(path), fragment }));
    assert(sections_view(out@) =~= sections_view(old(out)@).push((number@, path@,
        match fragment { Some(f) => Some(f@), None => None })));
}

fn push_chapter_sections(out: &mut Vec<(String, SectionTarget)>, children: &Vec<BookChild>)
    ensures
        sections_view(final(out)@) == sections_view(old(out)@) + chapter_sections(children@),
    decreases children@,
{
    let ghost start = sections_view(out@);
    for i in 0..children.len()
        invariant
            sections_view(out@) == start + chapter_sections(children@.take(i as int)),
    {
        assert(children@.take(i + 1).drop_last() =~= children@.take(i as int));
        assert(children@.take(i + 1)[i as int] == children@[i as int]);
        match &children[i] {
            BookChild::Article { .. } => {},
            BookChild::Chapter { chapter } => {
                push_section(out, chapter.number.as_str(), chapter.entry.as_str(), None);
                assert(decreases_to!(children@ => children@[i as int]));
                assert(decreases_to!(children@[i as int] => *chapter));
                assert(decreases_to!(*chapter => chapter.children));
                assert(decreases_to!(chapter.children => chapter.children@));
                push_chapter_sections(out, &chapter.children);
            },
        }
        assert(sections_view(out@) =~= start + chapter_sections(children@.take(i + 1)));
    }
    assert(children@.take(children@.len() as int) =~= children@);
}

/// A book's section index: numbered articles (and their numbered
/// headings, from the outlines given per article path), then chapters.
pub fn section_index(book: &Book, outlines: &Vec<(String, Vec<TocEntry>)>) -> (r: Vec<(String, SectionTarget)>)
    ensures
        sections_view(r@) == book_sections(*book, outlines@),
{
    let walk = book.articles();
    let ghost wv = walk@.map_values(|e: (Vec<&Chapter>, &Article)| walk_view(e));
    let ghost av = wv.map_values(|e: (Seq<Chapter>, Article)| e.1);
    let mut out: Vec<(String, SectionTarget)> = Vec::new();
    assert(sections_view(out@) =~= Seq::<SectionV>::empty());
    for k in 0..walk.len()
        invariant
            wv == walk@.map_values(|e: (Vec<&Chapter>, &Article)| walk_view(e)),
            av == wv.map_values(|e: (Seq<Chapter>, Article)| e.1),
            sections_view(out@) == article_sections(av.take(k as int), outlines@),
    {
        assert(av.take(k + 1).drop_last() =~= av.take(k as int));
        let article = walk[k].1;
        assert(av[k as int] == *article);
        let ghost before = sections_view(out@);
        match &article.number {
            Some(n) => {
                push_section(&mut out, n.as_str(), article.path.as_str(), None);
                let ghost mid = sections_view(out@);
                match find_outline(outlines, article.path.as_str()) {
                    Some(entries) => {
                        for j in 0..entries.len()
                            invariant
                                sections_view(out@) == mid + outline_sections(article.path@, entries@.take(j as int)),
                        {
                            assert(entries@.take(j + 1).drop_last() =~= entries@.take(j as int));
                            match &entries[j].number {
                                Some(m) => push_section(&mut out, m.as_str(), article.path.as_str(),
                                    Some(entries[j].id.clone())),
                                None => {},
                            }
                            assert(sections_view(out@) =~= mid + outline_sections(article.path@, entries@.take(j + 1)));
                        }
                        assert(entries@.take(entries@.len() as int) =~= entries@);
                    },
                    None => {
                        assert(outline_sections(article.path@, Seq::<TocEntry>::empty()) =~= Seq::<SectionV>::empty());
                    },
                }
            },
            None => {},
        }
        assert(sections_view(out@) =~= article_sections(av.take(k + 1), outlines@));
    }
    assert(av.take(walk@.len() as int) =~= av);
    push_chapter_sections(&mut out, &book.children);
    out
}


/// A citation as plain values: name, qualified name, book, article,
/// number, context, whether it names a section.
pub type CitationV = (Seq<char>, Seq<char>, Seq<char>, Seq<char>, Option<Seq<char>>, Seq<char>, bool);

pub open spec fn citation_view(c: Citation) -> CitationV {
    (c.name@, c.qualified@, c.book@, c.article@, match c.number { Some(n) => Some(n@), None => None }, c.context@, c.section)
}

pub open spec fn citations_view(v: Seq<Citation>) -> Seq<CitationV> {
    v.map_values(|c: Citation| citation_view(c))
}

/// The name a book's citations are qualified with: its short name, else
/// its title.
pub open spec fn book_short(b: Book) -> Seq<char> {
    match b.short {
        Some(s) => s@,
        None => b.title@,
    }
}

/// The citations collected so far and who declared each name.
pub type CiteAcc = Result<(Seq<CitationV>, Seq<(Seq<char>, Seq<char>)>), Seq<char>>;

/// One anchor of article `a` in book `b`: recorded, unless its name is
/// already declared in the book.
pub open spec fn cite_step(acc: CiteAcc, b: Book, a: Article, anchor: (Seq<char>, Seq<char>)) -> CiteAcc {
    match acc {
        Err(e) => Err(e),
        Ok((cs, seen)) => match claimant(seen, anchor.0) {
            Some(other) => Err("citation '*"@ + anchor.0 + "' is declared twice in book '"@ + b.path@ + "': '"@ + other
                + "' and '"@ + a.path@ + "'"@),
            None => Ok((
                cs.push((anchor.0, book_short(b) + " *"@ + anchor.0, b.path@, a.path@,
                    match a.number { Some(n) => Some(n@), None => None }, anchor.1, false)),
                seen.push((anchor.0, a.path@)),
            )),
        },
    }
}

pub open spec fn cite_anchors(acc: CiteAcc, b: Book, a: Article, anchors: Seq<(Seq<char>, Seq<char>)>) -> CiteAcc
    decreases anchors.len(),
{
    if anchors.len() == 0 {
        acc
    } else {
        cite_step(cite_anchors(acc, b, a, anchors.drop_last()), b, a, anchors.last())
    }
}

/// The anchors of a book's articles in reading order; aliases add none,
/// their original already did.
pub open spec fn cite_articles(b: Book, arts: Seq<Article>) -> CiteAcc
    decreases arts.len(),
{
    if arts.len() == 0 {
        Ok((Seq::empty(), Seq::empty()))
    } else {
        let acc = cite_articles(b, arts.drop_last());
        let a = arts.last();
        if a.original is Some {
            acc
        } else {
            cite_anchors(acc, b, a, crate::markdown::citation_anchors_of(a.body@))
        }
    }
}

/// A book's citations, or the report of a name declared twice.
pub open spec fn book_citations_of(b: Book) -> Result<Seq<CitationV>, Seq<char>> {
    match cite_articles(b, walked_articles(b)) {
        Ok((cs, _)) => Ok(cs),
        Err(e) => Err(e),
    }
}

/// The collected citations line up with the declared names, and no name
/// is declared twice.
pub open spec fn acc_ok(acc: CiteAcc) -> bool {
    match acc {
        Err(_) => true,
        Ok((cs, seen)) => {
            &&& cs.len() == seen.len()
            &&& forall|k: int| 0 <= k < cs.len() ==> #[trigger] cs[k].0 == seen[k].0
            &&& forall|i: int, j: int| 0 <= i < j < seen.len() ==> #[trigger] seen[i].0 != #[trigger] seen[j].0
        },
    }
}

proof fn lemma_claimant_none(seen: Seq<(Seq<char>, Seq<char>)>, x: Seq<char>)
    requires
        claimant(seen, x) is None,
    ensures
        forall|k: int| 0 <= k < seen.len() ==> #[trigger] seen[k].0 != x,
    decreases seen.len(),
{
    if seen.len() > 0 {
        lemma_claimant_none(seen.drop_last(), x);
        assert forall|k: int| 0 <= k < seen.len() implies #[trigger] seen[k].0 != x by {
            if k < seen.len() - 1 {
                assert(seen.drop_last()[k] == seen[k]);
            }
        }
    }
}

proof fn lemma_cite_step_ok(acc: CiteAcc, b: Book, a: Article, anchor: (Seq<char>, Seq<char>))
    requires
        acc_ok(acc),
    ensures
        acc_ok(cite_step(acc, b, a, anchor)),
{
    match acc {
        Err(_) => {},
        Ok((cs, seen)) => {
            if claimant(seen, anchor.0) is None {
                lemma_claimant_none(seen, anchor.0);
                let cs2 = cs.push((anchor.0, book_short(b) + " *"@ + anchor.0, b.path@, a.path@,
                    match a.number { Some(n) => Some(n@), None => None }, anchor.1, false));
                let seen2 = seen.push((anchor.0, a.path@));
                assert forall|k: int| 0 <= k < cs2.len() implies #[trigger] cs2[k].0 == seen2[k].0 by {
                    if k < cs.len() {
                        assert(cs2[k] == cs[k] && seen2[k] == seen[k]);
                    }
                }
                assert forall|i: int, j: int| 0 <= i < j < seen2.len() implies #[trigger] seen2[i].0 != #[trigger] seen2[j].0 by {
                    assert(seen2[i] == seen[i]);
                    if j < seen.len() {
                        assert(seen2[j] == seen[j]);
                    }
                }
            }
        },
    }
}

proof fn lemma_cite_anchors_ok(acc: CiteAcc, b: Book, a: Article, anchors: Seq<(Seq<char>, Seq<char>)>)
    requires
        acc_ok(acc),
    ensures
        acc_ok(cite_anchors(acc, b, a, anchors)),
    decreases anchors.len(),
{
    if anchors.len() > 0 {
        lemma_cite_anchors_ok(acc, b, a, anchors.drop_last());
        lemma_cite_step_ok(cite_anchors(acc, b, a, anchors.drop_last()), b, a, anchors.last());
    }
}

proof fn lemma_cite_articles_ok(b: Book, arts: Seq<Article>)
    ensures
        acc_ok(cite_articles(b, arts)),
    decreases arts.len(),
{
    if arts.len() > 0 {
        lemma_cite_articles_ok(b, arts.drop_last());
        let a = arts.last();
        if a.original is None {
            lemma_cite_anchors_ok(cite_articles(b, arts.drop_last()), b, a, crate::markdown::citation_anchors_of(a.body@));
        }
    }
}

/// Within one book no citation name is declared twice: the citations a
/// book yields carry distinct names.
pub proof fn law_citation_names_are_unique(b: Book)
    ensures
        book_citations_of(b) matches Ok(cs) ==> forall|i: int, j: int| 0 <= i < j < cs.len() ==> #[trigger] cs[i].0
            != #[trigger] cs[j].0,
{
    lemma_cite_articles_ok(b, walked_articles(b));
    match cite_articles(b, walked_articles(b)) {
        Ok((cs, seen)) => {
            assert forall|i: int, j: int| 0 <= i < j < cs.len() implies #[trigger] cs[i].0 != #[trigger] cs[j].0 by {
                assert(cs[i].0 == seen[i].0);
                assert(cs[j].0 == seen[j].0);
            }
        },
        Err(_) => {},
    }
}

fn acc_view(cs: &Vec<Citation>, seen: &Vec<(String, String)>) -> (r: Ghost<CiteAcc>)
    ensures
        r@ == Ok::<(Seq<CitationV>, Seq<(Seq<char>, Seq<char>)>), Seq<char>>((citations_view(cs@), claims_view(seen@))),
{
    Ghost(Ok((citations_view(cs@), claims_view(seen@))))
}

/// A book's citation anchors in reading order, each name declared once.
pub fn book_citations(book: &Book) -> (r: Result<Vec<Citation>, String>)
    ensures
        match book_citations_of(*book) {
            Ok(cs) => r matches Ok(v) && citations_view(v@) == cs,
            Err(e) => r matches Err(m) && m@ == e,
        },
{
    let short: &str = match &book.short {
        Some(x) => x.as_str(),
        None => book.title.as_str(),
    };
    let walk = book.articles();
    let ghost wv = walk@.map_values(|e: (Vec<&Chapter>, &Article)| walk_view(e));
    let ghost av = wv.map_values(|e: (Seq<Chapter>, Article)| e.1);
    let mut cs: Vec<Citation> = Vec::new();
    let mut seen: Vec<(String, String)> = Vec::new();
    assert(citations_view(cs@) =~= Seq::<CitationV>::empty());
    assert(claims_view(seen@) =~= Seq::<(Seq<char>, Seq<char>)>::empty());
    for k in 0..walk.len()
        invariant
            short@ == book_short(*book),
            wv == walk@.map_values(|e: (Vec<&Chapter>, &Article)| walk_view(e)),
            av == wv.map_values(|e: (Seq<Chapter>, Article)| e.1),
            wv == book_walk(book.children@, Seq::empty()),
            cite_articles(*book, av.take(k as int)) == Ok::<(Seq<CitationV>, Seq<(Seq<char>, Seq<char>)>), Seq<char>>((citations_view(cs@), claims_view(seen@))),
    {
        assert(av.take(k + 1).drop_last() =~= av.take(k as int));
        let article = walk[k].1;
        assert(av[k as int] == *article);
        if article.original.is_none() {
            let anchors = citation_anchors(article.body.as_str());
            let ghost nv = anchors@.map_values(|a: CitationAnchor| (a.name@, a.context@));
            let ghost acc0 = cite_articles(*book, av.take(k as int));
            for j in 0..anchors.len()
                invariant
                    short@ == book_short(*book),
                    k < walk@.len(),
                    wv == walk@.map_values(|e: (Vec<&Chapter>, &Article)| walk_view(e)),
                    av == wv.map_values(|e: (Seq<Chapter>, Article)| e.1),
                    wv == book_walk(book.children@, Seq::empty()),
                    av[k as int] == *article,
                    article.original is None,
                    acc0 == cite_articles(*book, av.take(k as int)),
                    av.take(k + 1).drop_last() == av.take(k as int),
                    nv == crate::markdown::citation_anchors_of(article.body@),
                    nv == anchors@.map_values(|a: CitationAnchor| (a.name@, a.context@)),
                    cite_anchors(acc0, *book, *article, nv.take(j as int)) == Ok::<(Seq<CitationV>, Seq<(Seq<char>, Seq<char>)>), Seq<char>>((citations_view(cs@), claims_view(seen@))),
            {
                assert(nv.take(j + 1).drop_last() =~= nv.take(j as int));
                let anchor = &anchors[j];
                match find_claimant(&seen, anchor.name.as_str()) {
                    Some(other) => {
                        let mut m = owned("citation '*");
                        push_str(&mut m, anchor.name.as_str());
                        push_str(&mut m, "' is declared twice in book '");
                        push_str(&mut m, book.path.as_str());
                        push_str(&mut m, "': '");
                        push_str(&mut m, other.as_str());
                        push_str(&mut m, "' and '");
                        push_str(&mut m, article.path.as_str());
                        push_str(&mut m, "'");
                        proof {
                            assert(nv.take(j + 1) =~= nv.take(j as int).push(nv[j as int]));
                            lemma_cite_err_anchors(acc0, *book, *article, nv, j + 1);
                            assert(av.take(k + 1).last() == *article);
                            assert(nv[j as int] == (anchor.name@, anchor.context@));
                            assert(m@ =~= "citation '*"@ + anchor.name@ + "' is declared twice in book '"@ + book.path@ + "': '"@ + other@
                                + "' and '"@ + article.path@ + "'"@);
                            assert(cite_anchors(acc0, *book, *article, nv.take(j + 1)) == Err::<(Seq<CitationV>, Seq<(Seq<char>, Seq<char>)>), Seq<char>>(m@));
                            assert(cite_articles(*book, av.take(k + 1)) == cite_anchors(acc0, *book, *article, nv));
                            assert(walked_articles(*book) =~= av);
                            lemma_cite_err_articles(*book, av, k + 1);
                            assert(av.take(walk@.len() as int) =~= av);
                        }
                        return Err(m);
                    },
                    None => {},
                }
                let mut q = owned(short);
                push_str(&mut q, " *");
                push_str(&mut q, anchor.name.as_str());
                let ghost cb = citations_view(cs@);
                let ghost sb = claims_view(seen@);
                cs.push(Citation {
                    name: anchor.name.clone(),
                    qualified: q,
                    book: book.path.clone(),
                    article: article.path.clone(),
                    number: copy_fragment(&article.number),
                    context: anchor.context.clone(),
                    section: false,
                });
                seen.push((anchor.name.clone(), article.path.clone()));
                assert(citations_view(cs@) =~= cb.push(citation_view(cs@.last())));
                assert(claims_view(seen@) =~= sb.push((anchor.name@, article.path@)));
            }
            assert(nv.take(nv.len() as int) =~= nv);
        }
    }
    assert(av.take(walk@.len() as int) =~= av);
    Ok(cs)
}

proof fn lemma_cite_err_anchors(acc: CiteAcc, b: Book, a: Article, anchors: Seq<(Seq<char>, Seq<char>)>, n: int)
    requires
        0 <= n <= anchors.len(),
        cite_anchors(acc, b, a, anchors.take(n)) is Err,
    ensures
        cite_anchors(acc, b, a, anchors) == cite_anchors(acc, b, a, anchors.take(n)),
    decreases anchors.len() - n,
{
    if n < anchors.len() {
        assert(anchors.take(n + 1).drop_last() =~= anchors.take(n));
        lemma_cite_err_anchors(acc, b, a, anchors, n + 1);
    } else {
        assert(anchors.take(n) =~= anchors);
    }
}

proof fn lemma_cite_anchors_err(b: Book, a: Article, e: Seq<char>, anchors: Seq<(Seq<char>, Seq<char>)>)
    ensures
        cite_anchors(Err(e), b, a, anchors) == Err::<(Seq<CitationV>, Seq<(Seq<char>, Seq<char>)>), Seq<char>>(e),
    decreases anchors.len(),
{
    if anchors.len() > 0 {
        lemma_cite_anchors_err(b, a, e, anchors.drop_last());
    }
}

proof fn lemma_cite_err_articles(b: Book, arts: Seq<Article>, n: int)
    requires
        0 <= n <= arts.len(),
        cite_articles(b, arts.take(n)) is Err,
    ensures
        cite_articles(b, arts) == cite_articles(b, arts.take(n)),
    decreases arts.len() - n,
{
    if n < arts.len() {
        assert(arts.take(n + 1).drop_last() =~= arts.take(n));
        let e = cite_articles(b, arts.take(n))->Err_0;
        lemma_cite_anchors_err(b, arts.take(n + 1).last(), e, crate::markdown::citation_anchors_of(arts.take(n + 1).last().body@));
        lemma_cite_err_articles(b, arts, n + 1);
    } else {
        assert(arts.take(n) =~= arts);
    }
}


#[verifier::external_type_specification]
#[verifier::external_body]
pub struct ExAhoCorasick(aho_corasick::AhoCorasick);

/// The byte ranges and pattern ids that a leftmost-longest Aho-Corasick
/// search reports over `text` for `patterns` (ids are positions in
/// `patterns`), in the order `find_iter` yields them.
pub uninterp spec fn leftmost_longest(patterns: Seq<Seq<char>>, text: Seq<char>) -> Seq<(usize, usize, usize)>;

/// A leftmost-longest automaton, kept with the patterns it was built
/// from, in order.
pub struct PhraseMatcher {
    automaton: aho_corasick::AhoCorasick,
    patterns: Ghost<Seq<Seq<char>>>,
}

impl View for PhraseMatcher {
    type V = Seq<Seq<char>>;

    closed spec fn view(&self) -> Seq<Seq<char>> {
        self.patterns@
    }
}

/// Whether a leftmost-longest Aho-Corasick automaton builds over
/// `patterns` (it fails only when the patterns exceed the builder's
/// size limits).
pub uninterp spec fn ac_builds(patterns: Seq<Seq<char>>) -> bool;

/// `AhoCorasickBuilder::build` with `MatchKind::LeftmostLongest` over the
/// phrase texts in order, so pattern ids are phrase positions: the
/// automaton, or the builder's error as text. Whether it builds is
/// claimed to depend on the patterns alone (`ac_builds`); the error's
/// text is not stated.
#[verifier::external_body]
fn build_automaton(phrases: &Vec<Phrase>) -> (r: Result<aho_corasick::AhoCorasick, String>)
    ensures
        r is Ok <==> ac_builds(phrase_texts(phrases@)),
{
    aho_corasick::AhoCorasickBuilder::new()
        .match_kind(aho_corasick::MatchKind::LeftmostLongest)
        .build(phrases.iter().map(|p| p.text.as_str()))
        .map_err(|e| e.to_string())
}

/// The matcher over the phrase texts, in declaration order.
fn build_matcher(phrases: &Vec<Phrase>) -> (r: Result<PhraseMatcher, String>)
    ensures
        r is Ok <==> ac_builds(phrase_texts(phrases@)),
        r matches Ok(m) ==> m@ == phrase_texts(phrases@),
{
    match build_automaton(phrases) {
        Ok(a) => Ok(PhraseMatcher { automaton: a, patterns: Ghost(phrase_texts(phrases@)) }),
        Err(e) => Err(e),
    }
}

/// `AhoCorasick::find_iter` over `text`: each match's byte range and
/// pattern id, in order. A `PhraseMatcher`'s automaton is only ever made
/// by `build_matcher`, leftmost-longest over exactly its patterns and
/// unanchored (so the search does not panic); the matches are claimed to
/// be `leftmost_longest` of those patterns and the text.
#[verifier::external_body]
fn byte_matches(m: &PhraseMatcher, text: &str) -> (r: Vec<(usize, usize, usize)>)
    ensures
        r@ == leftmost_longest(m@, text@),
{
    m.automaton.find_iter(text).map(|h| (h.start(), h.end(), h.pattern().as_usize())).collect()
}

/// How many bytes `c` takes in UTF-8.
pub open spec fn utf8_len(c: char) -> nat {
    if (c as u32) < 0x80 {
        1
    } else if (c as u32) < 0x800 {
        2
    } else if (c as u32) < 0x10000 {
        3
    } else {
        4
    }
}

/// The byte offset of the `k`-th character boundary of `s`.
pub open spec fn byte_offset(s: Seq<char>, k: int) -> nat
    decreases k,
{
    if k <= 0 || s.len() == 0 { 0 } else { byte_offset(s, k - 1) + utf8_len(s[k - 1]) }
}

/// The character boundary at byte offset `b`, if one is there.
pub open spec fn boundary_at(s: Seq<char>, b: int, k: int) -> Option<int>
    decreases s.len() + 1 - k,
{
    if k < 0 || k > s.len() {
        None
    } else if byte_offset(s, k) == b {
        Some(k)
    } else {
        boundary_at(s, b, k + 1)
    }
}

/// Byte-range matches as character ranges: those that start and end on
/// character boundaries and name a phrase.
pub open spec fn char_hits(s: Seq<char>, raw: Seq<(usize, usize, usize)>, count: nat) -> Seq<(usize, usize, usize)>
    decreases raw.len(),
{
    if raw.len() == 0 {
        Seq::empty()
    } else {
        let prev = char_hits(s, raw.drop_last(), count);
        let h = raw.last();
        match (boundary_at(s, h.0 as int, 0), boundary_at(s, h.1 as int, 0)) {
            (Some(a), Some(b)) => if a <= b && h.2 < count { prev.push((a as usize, b as usize, h.2)) } else { prev },
            _ => prev,
        }
    }
}

proof fn lemma_boundary_bounds(s: Seq<char>, b: int, k: int)
    requires
        0 <= k,
    ensures
        match boundary_at(s, b, k) {
            Some(a) => k <= a <= s.len() && byte_offset(s, a) == b,
            None => true,
        },
    decreases s.len() + 1 - k,
{
    if k <= s.len() && byte_offset(s, k) != b {
        lemma_boundary_bounds(s, b, k + 1);
    }
}

/// Byte offsets never go down.
proof fn lemma_byte_offset_mono(s: Seq<char>, j: int, k: int)
    requires
        0 <= j <= k <= s.len(),
    ensures
        byte_offset(s, j) <= byte_offset(s, k),
    decreases k - j,
{
    if j < k {
        lemma_byte_offset_mono(s, j, k - 1);
    }
}

/// The byte offset of every character boundary of `chars`; None exactly
/// when the text's byte length would not fit in a `usize`.
pub(crate) fn boundaries(chars: &Vec<char>) -> (r: Option<Vec<usize>>)
    ensures
        r is None <==> byte_offset(chars@, chars@.len() as int) > usize::MAX,
        r matches Some(v) ==> v@.len() == chars@.len() + 1
            && forall|k: int| 0 <= k <= chars@.len() ==> #[trigger] v@[k] == byte_offset(chars@, k),
{
    let mut v: Vec<usize> = Vec::new();
    v.push(0);
    let mut at: usize = 0;
    for i in 0..chars.len()
        invariant
            v@.len() == i + 1,
            at == byte_offset(chars@, i as int),
            forall|k: int| 0 <= k <= i ==> #[trigger] v@[k] == byte_offset(chars@, k),
    {
        let c = chars[i] as u32;
        let w: usize = if c < 0x80 { 1 } else if c < 0x800 { 2 } else if c < 0x10000 { 3 } else { 4 };
        assert(w == utf8_len(chars@[i as int]));
        if at > usize::MAX - w {
            proof {
                lemma_byte_offset_mono(chars@, i + 1, chars@.len() as int);
            }
            return None;
        }
        at = at + w;
        v.push(at);
    }
    Some(v)
}

/// Where byte offset `b` falls among the boundaries, if on one.
fn find_boundary(offsets: &Vec<usize>, chars: &Vec<char>, b: usize) -> (r: Option<usize>)
    requires
        offsets@.len() == chars@.len() + 1,
        forall|k: int| 0 <= k <= chars@.len() ==> #[trigger] offsets@[k] == byte_offset(chars@, k),
    ensures
        match boundary_at(chars@, b as int, 0) {
            Some(a) => r matches Some(x) && x == a,
            None => r is None,
        },
{
    for k in 0..offsets.len()
        invariant
            offsets@.len() == chars@.len() + 1,
            forall|k: int| 0 <= k <= chars@.len() ==> #[trigger] offsets@[k] == byte_offset(chars@, k),
            boundary_at(chars@, b as int, 0) == boundary_at(chars@, b as int, k as int),
    {
        if offsets[k] == b {
            return Some(k);
        }
    }
    None
}

/// The phrase texts of a phrase listing.
pub open spec fn phrase_keys(p: Seq<(Seq<char>, (bool, Seq<char>))>) -> Seq<Seq<char>> {
    p.map_values(|e: (Seq<char>, (bool, Seq<char>))| e.0)
}

/// The phrase hits in a text by character range: the leftmost-longest
/// matches of the phrases that fall on character boundaries; none when no
/// phrase is declared, or when the text's byte length does not fit in a
/// `usize`.
pub open spec fn phrase_hits_in(phrases: Seq<Seq<char>>, text: Seq<char>) -> Seq<(usize, usize, usize)> {
    if phrases.len() == 0 || byte_offset(text, text.len() as int) > usize::MAX {
        Seq::empty()
    } else {
        char_hits(text, leftmost_longest(phrases, text), phrases.len())
    }
}

/// Every declared phrase with its target, each book's section index,
/// every citation anchor of the site, and the phrase matcher.
pub struct InlineRefIndex {
    /// Leftmost-longest matcher over every phrase, pattern ids being
    /// phrase positions; None when no phrase is declared.
    matcher: Option<PhraseMatcher>,
    phrases: Vec<Phrase>,
    /// Per book path, its section entries; a later entry for the same
    /// number wins.
    sections: Vec<(String, Vec<(String, SectionTarget)>)>,
    citations: Vec<Citation>,
}

impl InlineRefIndex {
    /// The matcher exists exactly when some phrase is declared, and is
    /// built over the phrase texts in declaration order.
    #[verifier::type_invariant]
    spec fn matcher_exists(self) -> bool {
        &&& self.matcher is Some <==> self.phrases@.len() > 0
        &&& self.matcher matches Some(m) ==> m@ == phrase_texts(self.phrases@)
    }
}

/// The section indexes as plain values.
pub open spec fn book_sections_view(v: Seq<(String, Vec<(String, SectionTarget)>)>) -> Seq<(Seq<char>, Seq<SectionV>)> {
    v.map_values(|e: (String, Vec<(String, SectionTarget)>)| (e.0@, sections_view(e.1@)))
}

/// The phrase texts in declaration order.
pub open spec fn phrase_texts(v: Seq<Phrase>) -> Seq<Seq<char>> {
    v.map_values(|p: Phrase| p.text@)
}

pub open spec fn claim_keys(c: Seq<(Seq<char>, Seq<char>)>) -> Seq<Seq<char>> {
    c.map_values(|e: (Seq<char>, Seq<char>)| e.0)
}

/// The last entry under `key`, as a later insert replaces an earlier one.
pub open spec fn last_entry<V>(v: Seq<(Seq<char>, V)>, key: Seq<char>) -> Option<V>
    decreases v.len(),
{
    if v.len() == 0 {
        None
    } else if v.last().0 == key {
        Some(v.last().1)
    } else {
        last_entry(v.drop_last(), key)
    }
}

/// Where `§number` leads within the book at `book`.
pub open spec fn section_lookup(index: Seq<(Seq<char>, Seq<SectionV>)>, book: Seq<char>, number: Seq<char>) -> Option<(Seq<char>, Option<Seq<char>>)> {
    match last_entry(index, book) {
        Some(entries) => match last_entry(entries.map_values(|e: SectionV| (e.0, (e.1, e.2))), number) {
            Some(t) => Some(t),
            None => None,
        },
        None => None,
    }
}

impl InlineRefIndex {
    /// The phrases in declaration order, each with its target.
    pub closed spec fn phrases_spec(&self) -> Seq<(Seq<char>, (bool, Seq<char>))> {
        phrases_view(self.phrases@)
    }

    pub closed spec fn sections_spec(&self) -> Seq<(Seq<char>, Seq<SectionV>)> {
        book_sections_view(self.sections@)
    }

    pub closed spec fn citations_spec(&self) -> Seq<CitationV> {
        citations_view(self.citations@)
    }

    /// The phrase matcher; None when no phrase is declared.
    pub fn matcher(&self) -> (r: Option<&aho_corasick::AhoCorasick>)
        ensures
            r is None <==> self.phrases_spec().len() == 0,
    {
        proof {
            use_type_invariant(self);
        }
        match &self.matcher {
            Some(m) => Some(&m.automaton),
            None => None,
        }
    }

    /// The phrase matches in `text` by character position: start, end
    /// and the phrase's position, from the leftmost-longest search over
    /// the phrase texts; each lies within the text and names a declared
    /// phrase.
    #[verifier::spinoff_prover]
    #[verifier::rlimit(30)]
    pub fn phrase_hits(&self, text: &str) -> (r: Vec<(usize, usize, usize)>)
        ensures
            r@ == phrase_hits_in(phrase_keys(self.phrases_spec()), text@),
            forall|i: int| #![trigger r@[i]] 0 <= i < r@.len() ==> r@[i].0 <= r@[i].1 && r@[i].1 <= text@.len()
                && r@[i].2 < self.phrases_spec().len(),
    {
        proof {
            use_type_invariant(self);
            assert(phrase_keys(self.phrases_spec()) =~= phrase_texts(self.phrases@));
        }
        let chars = chars_of(text);
        let count = self.phrases.len();
        let raw = match &self.matcher {
            Some(m) => byte_matches(m, text),
            None => Vec::new(),
        };
        assert(self.phrases@.len() > 0 ==> raw@ == leftmost_longest(phrase_texts(self.phrases@), text@));
        let mut out: Vec<(usize, usize, usize)> = Vec::new();
        let offsets = match boundaries(&chars) {
            Some(v) => v,
            None => {
                assert(out@ =~= phrase_hits_in(phrase_keys(self.phrases_spec()), text@));
                assert(out@.len() == 0);
                return out;
            },
        };
        for i in 0..raw.len()
            invariant
                chars@ == text@,
                count == self.phrases_spec().len(),
                offsets@.len() == chars@.len() + 1,
                forall|k: int| 0 <= k <= chars@.len() ==> #[trigger] offsets@[k] == byte_offset(chars@, k),
                out@ == char_hits(text@, raw@.take(i as int), count as nat),
                forall|j: int| #![trigger out@[j]] 0 <= j < out@.len() ==> out@[j].0 <= out@[j].1 && out@[j].1 <= text@.len()
                    && out@[j].2 < count,
        {
            assert(raw@.take(i + 1).drop_last() =~= raw@.take(i as int));
            assert(raw@.take(i + 1).last() == raw@[i as int]);
            let (bs, be, p) = raw[i];
            let a = find_boundary(&offsets, &chars, bs);
            let b = find_boundary(&offsets, &chars, be);
            proof {
                lemma_boundary_bounds(chars@, bs as int, 0);
                lemma_boundary_bounds(chars@, be as int, 0);
            }
            match (a, b) {
                (Some(x), Some(y)) => {
                    if x <= y && p < count {
                        assert(boundary_at(chars@, be as int, 0) == Some(y as int));
                        assert(y <= chars@.len());
                        assert(y <= text@.len());
                        let ghost before = out@;
                        out.push((x, y, p));
                        assert forall|j: int| #![trigger out@[j]] 0 <= j < out@.len() implies out@[j].0 <= out@[j].1
                            && out@[j].1 <= text@.len() && out@[j].2 < count by {
                            if j < before.len() {
                                assert(out@[j] == before[j]);
                            }
                        }
                    }
                },
                _ => {},
            }
        }
        assert(raw@.take(raw@.len() as int) =~= raw@);
        if count == 0 {
            assert(raw@ =~= Seq::<(usize, usize, usize)>::empty());
        }
        assert(count == self.phrases_spec().len());
        out
    }

    /// The number of declared phrases.
    pub fn phrase_count(&self) -> (r: usize)
        ensures
            r == self.phrases_spec().len(),
    {
        self.phrases.len()
    }

    /// The phrase behind one pattern id: its position in declaration order.
    pub fn phrase(&self, pattern: usize) -> (r: &Phrase)
        requires
            pattern < self.phrases_spec().len(),
        ensures
            (r.text@, target_view(r.target)) == self.phrases_spec()[pattern as int],
    {
        &self.phrases[pattern]
    }

    /// Looks up a section number ("2.1", "A.3") within a book.
    pub fn section(&self, book: &str, number: &str) -> (r: Option<&SectionTarget>)
        ensures
            match section_lookup(self.sections_spec(), book@, number@) {
                Some(t) => r matches Some(x) && x.path@ == t.0 && (match x.fragment { Some(f) => Some(f@), None => None }) == t.1,
                None => r is None,
            },
    {
        let ghost idx = self.sections_spec();
        let mut k = self.sections.len();
        assert(idx.take(k as int) =~= idx);
        while k > 0
            invariant
                k <= self.sections@.len(),
                idx == self.sections_spec(),
                last_entry(idx, book@) == last_entry(idx.take(k as int), book@),
            decreases k,
        {
            assert(idx.take(k as int).drop_last() =~= idx.take(k - 1));
            if crate::text::text_eq(self.sections[k - 1].0.as_str(), book) {
                let entries = &self.sections[k - 1].1;
                let ghost ev = sections_view(entries@).map_values(|e: SectionV| (e.0, (e.1, e.2)));
                let mut j = entries.len();
                assert(ev.take(j as int) =~= ev);
                assert(idx[k - 1] == (book@, sections_view(entries@)));
                assert(last_entry(idx, book@) == Some(sections_view(entries@)));
                while j > 0
                    invariant
                        j <= entries@.len(),
                        idx == self.sections_spec(),
                        last_entry(idx, book@) == Some(sections_view(entries@)),
                        ev == sections_view(entries@).map_values(|e: SectionV| (e.0, (e.1, e.2))),
                        last_entry(ev, number@) == last_entry(ev.take(j as int), number@),
                    decreases j,
                {
                    assert(ev.take(j as int).drop_last() =~= ev.take(j - 1));
                    if crate::text::text_eq(entries[j - 1].0.as_str(), number) {
                        assert(ev[j - 1] == (number@, (entries@[j - 1].1.path@,
                            match entries@[j - 1].1.fragment { Some(f) => Some(f@), None => None })));
                        return Some(&entries[j - 1].1);
                    }
                    j = j - 1;
                }
                return None;
            }
            k = k - 1;
        }
        None
    }

    /// Every citation anchor in the site, in tree order.
    pub fn citations(&self) -> (r: &Vec<Citation>)
        ensures
            citations_view(r@) == self.citations_spec(),
    {
        &self.citations
    }
}

/// One thing the index walk does, as plain values.
pub enum Step {
    /// A declarer claims phrases for a target.
    Claim(Seq<Seq<char>>, (bool, Seq<char>), Seq<char>),
    /// A check, failing with its report when it has one.
    Check(Option<Seq<char>>),
}

pub type PhraseV = (Seq<char>, (bool, Seq<char>));

/// The claims and phrases after a run of steps, or the first report.
pub open spec fn run_steps(claims: Seq<(Seq<char>, Seq<char>)>, phrases: Seq<PhraseV>, steps: Seq<Step>)
    -> Result<(Seq<(Seq<char>, Seq<char>)>, Seq<PhraseV>), Seq<char>>
    decreases steps.len(),
{
    if steps.len() == 0 {
        Ok((claims, phrases))
    } else {
        match run_steps(claims, phrases, steps.drop_last()) {
            Err(e) => Err(e),
            Ok((c, p)) => match steps.last() {
                Step::Claim(ps, t, d) => match claim_fold(c, ps, d) {
                    Ok(c2) => Ok((c2, p + ps.map_values(|x: Seq<char>| (x, t)))),
                    Err(e) => Err(e),
                },
                Step::Check(Some(e)) => Err(e),
                Step::Check(None) => Ok((c, p)),
            },
        }
    }
}

/// What a walk over `steps` from claims `c0` and phrases `p0` leaves:
/// on success the claims `c1` and phrases `p1`, else its report.
pub open spec fn stepped(c0: Seq<(Seq<char>, Seq<char>)>, p0: Seq<PhraseV>, steps: Seq<Step>, r: Result<(), String>,
    c1: Seq<(Seq<char>, Seq<char>)>, p1: Seq<PhraseV>) -> bool {
    match run_steps(c0, p0, steps) {
        Ok((c, p)) => r is Ok && c1 == c && p1 == p,
        Err(e) => r matches Err(m) && m@ == e,
    }
}

proof fn lemma_run_concat(c: Seq<(Seq<char>, Seq<char>)>, p: Seq<PhraseV>, a: Seq<Step>, b: Seq<Step>)
    ensures
        run_steps(c, p, a + b) == match run_steps(c, p, a) {
            Ok((c2, p2)) => run_steps(c2, p2, b),
            Err(e) => Err(e),
        },
    decreases b.len(),
{
    if b.len() == 0 {
        assert(a + b =~= a);
    } else {
        lemma_run_concat(c, p, a, b.drop_last());
        assert((a + b).drop_last() =~= a + b.drop_last());
        assert((a + b).last() == b.last());
    }
}

/// Two walks one after the other are one walk.
proof fn lemma_stepped_then(c0: Seq<(Seq<char>, Seq<char>)>, p0: Seq<PhraseV>, s1: Seq<Step>,
    c1: Seq<(Seq<char>, Seq<char>)>, p1: Seq<PhraseV>, s2: Seq<Step>, r: Result<(), String>,
    c2: Seq<(Seq<char>, Seq<char>)>, p2: Seq<PhraseV>)
    requires
        stepped(c0, p0, s1, Ok(()), c1, p1),
        stepped(c1, p1, s2, r, c2, p2),
    ensures
        stepped(c0, p0, s1 + s2, r, c2, p2),
{
    lemma_run_concat(c0, p0, s1, s2);
}

/// A walk that fails stays failed, whatever follows.
proof fn lemma_stepped_fails(c0: Seq<(Seq<char>, Seq<char>)>, p0: Seq<PhraseV>, s1: Seq<Step>, r: Result<(), String>,
    c1: Seq<(Seq<char>, Seq<char>)>, p1: Seq<PhraseV>, s2: Seq<Step>, c2: Seq<(Seq<char>, Seq<char>)>,
    p2: Seq<PhraseV>)
    requires
        stepped(c0, p0, s1, r, c1, p1),
        r is Err,
    ensures
        stepped(c0, p0, s1 + s2, r, c2, p2),
{
    lemma_run_concat(c0, p0, s1, s2);
}

proof fn lemma_one_claim(c: Seq<(Seq<char>, Seq<char>)>, p: Seq<PhraseV>, ps: Seq<Seq<char>>, t: (bool, Seq<char>),
    d: Seq<char>)
    ensures
        run_steps(c, p, seq![Step::Claim(ps, t, d)]) == match claim_fold(c, ps, d) {
            Ok(c2) => Ok((c2, p + ps.map_values(|x: Seq<char>| (x, t)))),
            Err(e) => Err(e),
        },
{
    let s = seq![Step::Claim(ps, t, d)];
    assert(s.drop_last() =~= Seq::<Step>::empty());
    assert(s.last() == Step::Claim(ps, t, d));
    assert(run_steps(c, p, s.drop_last()) == Ok::<(Seq<(Seq<char>, Seq<char>)>, Seq<PhraseV>), Seq<char>>((c, p)));
    match claim_fold(c, ps, d) {
        Ok(c2) => {
            let ghost m = ps.map_values(|x: Seq<char>| (x, t));
            assert(run_steps(c, p, s) == Ok::<(Seq<(Seq<char>, Seq<char>)>, Seq<PhraseV>), Seq<char>>((c2, p + m)));
        },
        Err(e) => {},
    }
}

proof fn lemma_one_check(c: Seq<(Seq<char>, Seq<char>)>, p: Seq<PhraseV>, o: Option<Seq<char>>)
    ensures
        run_steps(c, p, seq![Step::Check(o)]) == match o {
            Some(e) => Err::<(Seq<(Seq<char>, Seq<char>)>, Seq<PhraseV>), Seq<char>>(e),
            None => Ok((c, p)),
        },
{
    let s = seq![Step::Check(o)];
    assert(s.drop_last() =~= Seq::<Step>::empty());
    assert(s.last() == Step::Check(o));
    assert(run_steps(c, p, s.drop_last()) == Ok::<(Seq<(Seq<char>, Seq<char>)>, Seq<PhraseV>), Seq<char>>((c, p)));
    match o {
        Some(e) => {
            assert(run_steps(c, p, s) == Err::<(Seq<(Seq<char>, Seq<char>)>, Seq<PhraseV>), Seq<char>>(e));
        },
        None => {},
    }
}

/// The steps of a run of things, one after another.
pub open spec fn concat_steps<T>(xs: Seq<T>, f: spec_fn(T) -> Seq<Step>) -> Seq<Step>
    decreases xs.len(),
{
    if xs.len() == 0 { Seq::empty() } else { concat_steps(xs.drop_last(), f) + f(xs.last()) }
}

proof fn lemma_concat_fails<T>(c0: Seq<(Seq<char>, Seq<char>)>, p0: Seq<PhraseV>, xs: Seq<T>,
    f: spec_fn(T) -> Seq<Step>, n: int, r: Result<(), String>)
    requires
        0 <= n <= xs.len(),
        r is Err,
        stepped(c0, p0, concat_steps(xs.take(n), f), r, c0, p0),
    ensures
        stepped(c0, p0, concat_steps(xs, f), r, c0, p0),
    decreases xs.len() - n,
{
    if n < xs.len() {
        assert(xs.take(n + 1).drop_last() =~= xs.take(n));
        assert(xs.take(n + 1).last() == xs[n]);
        lemma_stepped_fails(c0, p0, concat_steps(xs.take(n), f), r, c0, p0, f(xs[n]), c0, p0);
        lemma_concat_fails(c0, p0, xs, f, n + 1, r);
    } else {
        assert(xs.take(n) =~= xs);
    }
}

proof fn lemma_book_children_fails(c0: Seq<(Seq<char>, Seq<char>)>, p0: Seq<PhraseV>, xs: Seq<BookChild>, n: int,
    r: Result<(), String>)
    requires
        0 <= n <= xs.len(),
        r is Err,
        stepped(c0, p0, book_children_steps(xs.take(n)), r, c0, p0),
    ensures
        stepped(c0, p0, book_children_steps(xs), r, c0, p0),
    decreases xs.len() - n,
{
    if n < xs.len() {
        let t = xs.take(n + 1);
        assert(t.drop_last() =~= xs.take(n));
        let rest = book_children_steps(t).skip(book_children_steps(xs.take(n)).len() as int);
        assert(book_children_steps(t) =~= book_children_steps(xs.take(n)) + rest);
        lemma_stepped_fails(c0, p0, book_children_steps(xs.take(n)), r, c0, p0, rest, c0, p0);
        lemma_book_children_fails(c0, p0, xs, n + 1, r);
    } else {
        assert(xs.take(n) =~= xs);
    }
}

proof fn lemma_aitems_fails(c0: Seq<(Seq<char>, Seq<char>)>, p0: Seq<PhraseV>, xs: Seq<AnthologyItem>, n: int,
    r: Result<(), String>)
    requires
        0 <= n <= xs.len(),
        r is Err,
        stepped(c0, p0, aitems_steps(xs.take(n)), r, c0, p0),
    ensures
        stepped(c0, p0, aitems_steps(xs), r, c0, p0),
    decreases xs.len() - n,
{
    if n < xs.len() {
        let t = xs.take(n + 1);
        assert(t.drop_last() =~= xs.take(n));
        assert(aitems_steps(t) =~= aitems_steps(xs.take(n)) + aitem_steps(t[t.len() - 1]));
        lemma_stepped_fails(c0, p0, aitems_steps(xs.take(n)), r, c0, p0, aitem_steps(t[t.len() - 1]), c0, p0);
        lemma_aitems_fails(c0, p0, xs, n + 1, r);
    } else {
        assert(xs.take(n) =~= xs);
    }
}

proof fn lemma_achildren_fails(c0: Seq<(Seq<char>, Seq<char>)>, p0: Seq<PhraseV>, xs: Seq<AnthologyChild>, n: int,
    r: Result<(), String>)
    requires
        0 <= n <= xs.len(),
        r is Err,
        stepped(c0, p0, achildren_steps(xs.take(n)), r, c0, p0),
    ensures
        stepped(c0, p0, achildren_steps(xs), r, c0, p0),
    decreases xs.len() - n,
{
    if n < xs.len() {
        let t = xs.take(n + 1);
        assert(t.drop_last() =~= xs.take(n));
        let rest = achildren_steps(t).skip(achildren_steps(xs.take(n)).len() as int);
        assert(achildren_steps(t) =~= achildren_steps(xs.take(n)) + rest);
        lemma_stepped_fails(c0, p0, achildren_steps(xs.take(n)), r, c0, p0, rest, c0, p0);
        lemma_achildren_fails(c0, p0, xs, n + 1, r);
    } else {
        assert(xs.take(n) =~= xs);
    }
}

/// How a declarer is named in reports.
pub open spec fn declarer_of(kind: Seq<char>, path: Seq<char>) -> Seq<char> {
    kind + " '"@ + path + "'"@
}

/// An article claims its phrases for itself; an alias claims none.
pub open spec fn article_steps(a: Article) -> Seq<Step> {
    if a.original is Some {
        Seq::empty()
    } else {
        seq![Step::Claim(crate::links::strs(a.inline_refs@), (false, a.path@), declarer_of("article"@, a.path@))]
    }
}

/// A topic article: no citation anchors, then its phrases.
pub open spec fn topic_article_steps(a: Article) -> Seq<Step> {
    seq![Step::Check(stray_citation(a))] + article_steps(a)
}

/// A container's phrases land on its entry page; declaring any with
/// nowhere to land is an error.
pub open spec fn landing_steps(refs: Seq<String>, entry: Option<Seq<char>>, kind: Seq<char>, path: Seq<char>) -> Seq<Step> {
    if refs.len() == 0 {
        Seq::empty()
    } else {
        match entry {
            Some(e) => seq![Step::Claim(crate::links::strs(refs), (false, e), declarer_of(kind, path))],
            None => seq![Step::Check(Some(kind + " '"@ + path + "' declares inline_ref but holds no articles to land on"@))],
        }
    }
}

pub open spec fn topic_child_steps(c: TopicChild) -> Seq<Step> {
    match c {
        TopicChild::Article { article } => topic_article_steps(article),
        TopicChild::Folder { folder } => landing_steps(folder.inline_refs@,
            match folder.entry { Some(e) => Some(e@), None => None }, "subfolder"@, folder.path@)
            + concat_steps(folder.articles@, |a: Article| topic_article_steps(a)),
    }
}

pub open spec fn topic_steps(t: Topic) -> Seq<Step> {
    landing_steps(t.inline_refs@,
        if topic_pages(t.children@).len() > 0 { Some(topic_pages(t.children@)[0].path@) } else { None },
        "topic"@, t.path@)
        + concat_steps(t.children@, |c: TopicChild| topic_child_steps(c))
}

/// A book's chapters claim their phrases for their entry pages; their
/// articles for themselves.
pub open spec fn book_children_steps(children: Seq<BookChild>) -> Seq<Step>
    decreases children,
{
    if children.len() == 0 {
        Seq::empty()
    } else {
        book_children_steps(children.drop_last()) + match children[children.len() - 1] {
            BookChild::Article { article } => article_steps(article),
            BookChild::Chapter { chapter } => (if chapter.inline_refs@.len() > 0 {
                seq![Step::Claim(crate::links::strs(chapter.inline_refs@), (false, chapter.entry@),
                    declarer_of("chapter"@, chapter.path@))]
            } else {
                Seq::empty()
            }) + book_children_steps(chapter.children@),
        }
    }
}

/// A book claims its phrases for itself, as a book; its citation
/// anchors must be sound.
pub open spec fn book_steps(b: Book) -> Seq<Step> {
    seq![Step::Claim(crate::links::strs(b.inline_refs@), (true, b.path@), declarer_of("book"@, b.path@))]
        + book_children_steps(b.children@)
        + seq![Step::Check(match book_citations_of(b) { Ok(_) => None, Err(e) => Some(e) })]
}

pub open spec fn aitem_steps(i: AnthologyItem) -> Seq<Step>
    decreases i,
{
    match i {
        AnthologyItem::Topic { topic } => topic_steps(topic),
        AnthologyItem::Book { book } => book_steps(book),
        AnthologyItem::Anthology { anthology } => seq![Step::Claim(crate::links::strs(anthology.inline_refs@),
            (false, anthology.path@), declarer_of("anthology"@, anthology.path@))]
            + achildren_steps(anthology.children@),
    }
}

pub open spec fn aitems_steps(items: Seq<AnthologyItem>) -> Seq<Step>
    decreases items,
{
    if items.len() == 0 { Seq::empty() } else { aitems_steps(items.drop_last()) + aitem_steps(items[items.len() - 1]) }
}

pub open spec fn achildren_steps(children: Seq<AnthologyChild>) -> Seq<Step>
    decreases children,
{
    if children.len() == 0 {
        Seq::empty()
    } else {
        achildren_steps(children.drop_last()) + match children[children.len() - 1] {
            AnthologyChild::Item(item) => aitem_steps(item),
            AnthologyChild::Shelf(shelf) => aitems_steps(shelf.items@),
        }
    }
}

pub open spec fn pitem_steps(i: ProductItem) -> Seq<Step> {
    match i {
        ProductItem::Anthology { anthology } => seq![Step::Claim(crate::links::strs(anthology.inline_refs@),
            (false, anthology.path@), declarer_of("anthology"@, anthology.path@))]
            + achildren_steps(anthology.children@),
        ProductItem::Topic { topic } => topic_steps(topic),
        ProductItem::Book { book } => book_steps(book),
    }
}

pub open spec fn product_steps(p: Product) -> Seq<Step> {
    seq![Step::Claim(crate::links::strs(p.inline_refs@), (false, p.path@), declarer_of("product"@, p.path@))]
        + concat_steps(product_items(p.children@), |i: ProductItem| pitem_steps(i))
}

/// The whole walk of a site, product by product.
pub open spec fn site_steps(products: Seq<Product>) -> Seq<Step> {
    concat_steps(products, |p: Product| product_steps(p))
}

struct Builder {
    phrases: Vec<Phrase>,
    /// Each claimed phrase and its declarer, for duplicate reports.
    claimed: Vec<(String, String)>,
    sections: Vec<(String, Vec<(String, SectionTarget)>)>,
    citations: Vec<Citation>,
}

impl Builder {
    /// The claims keep the rules, and the phrase list follows them.
    spec fn ok(&self) -> bool {
        &&& claims_ok(claims_view(self.claimed@))
        &&& phrase_texts(self.phrases@) == claim_keys(claims_view(self.claimed@))
    }

    /// The claims so far, as plain values.
    spec fn cv(&self) -> Seq<(Seq<char>, Seq<char>)> {
        claims_view(self.claimed@)
    }

    /// The phrases so far, as plain values.
    spec fn pv(&self) -> Seq<PhraseV> {
        phrases_view(self.phrases@)
    }

    fn claim(&mut self, phrases: &Vec<String>, target: &PhraseTarget, declarer: &str) -> (r: Result<(), String>)
        requires
            old(self).ok(),
        ensures
            final(self).ok(),
            final(self).sections == old(self).sections,
            final(self).citations == old(self).citations,
            stepped(old(self).cv(), old(self).pv(), seq![Step::Claim(crate::links::strs(phrases@), target_view(*target),
                declarer@)], r, final(self).cv(), final(self).pv()),
    {
        let ghost ps = crate::links::strs(phrases@);
        let ghost c0 = claims_view(self.claimed@);
        let ghost p0 = phrases_view(self.phrases@);
        let ghost t = target_view(*target);
        proof {
            lemma_one_claim(c0, p0, ps, t, declarer@);
        }
        assert(ps.take(0).map_values(|x: Seq<char>| (x, t)) =~= Seq::<PhraseV>::empty());
        assert(p0 + Seq::<PhraseV>::empty() =~= p0);
        for i in 0..phrases.len()
            invariant
                ps == crate::links::strs(phrases@),
                t == target_view(*target),
                self.ok(),
                self.sections == old(self).sections,
                self.citations == old(self).citations,
                c0 == claims_view(old(self).claimed@),
                p0 == phrases_view(old(self).phrases@),
                claim_fold(c0, ps.take(i as int), declarer@) == Ok::<Seq<(Seq<char>, Seq<char>)>, Seq<char>>(claims_view(self.claimed@)),
                phrases_view(self.phrases@) == p0 + ps.take(i as int).map_values(|x: Seq<char>| (x, t)),
        {
            assert(ps.take(i + 1).drop_last() =~= ps.take(i as int));
            assert(ps.take(i + 1).last() == phrases@[i as int]@);
            match check_phrase(&self.claimed, phrases[i].as_str(), declarer) {
                Some(m) => {
                    proof {
                        lemma_claim_err(c0, ps, declarer@, i + 1);
                        assert(ps.take(phrases@.len() as int) =~= ps);
                        lemma_one_claim(c0, p0, ps, t, declarer@);
                    }
                    return Err(m);
                },
                None => {},
            }
            let ghost cb = claims_view(self.claimed@);
            proof {
                lemma_claim_keeps(cb, phrases@[i as int]@, declarer@);
            }
            let ghost pb = phrase_texts(self.phrases@);
            let ghost pvb = phrases_view(self.phrases@);
            self.claimed.push((phrases[i].clone(), owned(declarer)));
            self.phrases.push(Phrase { text: phrases[i].clone(), target: copy_target(target) });
            assert(claims_view(self.claimed@) =~= cb.push((phrases@[i as int]@, declarer@)));
            assert(phrase_texts(self.phrases@) =~= pb.push(phrases@[i as int]@));
            assert(claim_keys(claims_view(self.claimed@)) =~= claim_keys(cb).push(phrases@[i as int]@));
            assert(phrases_view(self.phrases@) =~= pvb.push((phrases@[i as int]@, t)));
            assert(ps.take(i + 1).map_values(|x: Seq<char>| (x, t))
                =~= ps.take(i as int).map_values(|x: Seq<char>| (x, t)).push((phrases@[i as int]@, t)));
        }
        assert(ps.take(phrases@.len() as int) =~= ps);
        proof {
            lemma_one_claim(c0, p0, ps, t, declarer@);
        }
        Ok(())
    }
}

proof fn lemma_claim_err(c: Seq<(Seq<char>, Seq<char>)>, ps: Seq<Seq<char>>, declarer: Seq<char>, n: int)
    requires
        0 <= n <= ps.len(),
        claim_fold(c, ps.take(n), declarer) is Err,
    ensures
        claim_fold(c, ps, declarer) == claim_fold(c, ps.take(n), declarer),
    decreases ps.len() - n,
{
    if n < ps.len() {
        assert(ps.take(n + 1).drop_last() =~= ps.take(n));
        lemma_claim_err(c, ps, declarer, n + 1);
    } else {
        assert(ps.take(n) =~= ps);
    }
}


/// The books under an anthology item, in tree order.
pub open spec fn aitem_books(i: AnthologyItem) -> Seq<Book>
    decreases i,
{
    match i {
        AnthologyItem::Topic { .. } => Seq::empty(),
        AnthologyItem::Book { book } => seq![book],
        AnthologyItem::Anthology { anthology } => achildren_books(anthology.children@),
    }
}

pub open spec fn aitems_books(items: Seq<AnthologyItem>) -> Seq<Book>
    decreases items,
{
    if items.len() == 0 { Seq::empty() } else { aitems_books(items.drop_last()) + aitem_books(items[items.len() - 1]) }
}

pub open spec fn achildren_books(children: Seq<AnthologyChild>) -> Seq<Book>
    decreases children,
{
    if children.len() == 0 {
        Seq::empty()
    } else {
        achildren_books(children.drop_last()) + match children[children.len() - 1] {
            AnthologyChild::Item(item) => aitem_books(item),
            AnthologyChild::Shelf(shelf) => aitems_books(shelf.items@),
        }
    }
}

pub open spec fn pitem_books(i: ProductItem) -> Seq<Book> {
    match i {
        ProductItem::Anthology { anthology } => achildren_books(anthology.children@),
        ProductItem::Topic { .. } => Seq::empty(),
        ProductItem::Book { book } => seq![book],
    }
}

pub open spec fn pitems_books(items: Seq<ProductItem>) -> Seq<Book>
    decreases items.len(),
{
    if items.len() == 0 { Seq::empty() } else { pitems_books(items.drop_last()) + pitem_books(items.last()) }
}

pub open spec fn products_books(ps: Seq<Product>) -> Seq<Book>
    decreases ps.len(),
{
    if ps.len() == 0 {
        Seq::empty()
    } else {
        products_books(ps.drop_last()) + pitems_books(product_items(ps.last().children@))
    }
}

/// Each book's section index, under its path.
pub open spec fn books_sections(bs: Seq<Book>, outlines: Seq<(String, Vec<TocEntry>)>) -> Seq<(Seq<char>, Seq<SectionV>)> {
    bs.map_values(|b: Book| (b.path@, book_sections(b, outlines)))
}

/// The citations of a run of books, in order.
pub open spec fn books_citations(bs: Seq<Book>) -> Seq<CitationV>
    decreases bs.len(),
{
    if bs.len() == 0 {
        Seq::empty()
    } else {
        books_citations(bs.drop_last()) + match book_citations_of(bs.last()) {
            Ok(c) => c,
            Err(_) => Seq::empty(),
        }
    }
}

proof fn lemma_books_split(a: Seq<Book>, b: Seq<Book>, outlines: Seq<(String, Vec<TocEntry>)>)
    ensures
        books_sections(a + b, outlines) == books_sections(a, outlines) + books_sections(b, outlines),
        books_citations(a + b) == books_citations(a) + books_citations(b),
    decreases b.len(),
{
    assert(books_sections(a + b, outlines) =~= books_sections(a, outlines) + books_sections(b, outlines));
    if b.len() == 0 {
        assert(a + b =~= a);
    } else {
        lemma_books_split(a, b.drop_last(), outlines);
        assert((a + b).drop_last() =~= a + b.drop_last());
    }
}

/// `kind 'path'`, how a declarer is named in reports.
fn declarer(kind: &str, path: &str) -> (r: String)
    ensures
        r@ == kind@ + " '"@ + path@ + "'"@,
{
    let mut d = owned(kind);
    push_str(&mut d, " '");
    push_str(&mut d, path);
    push_str(&mut d, "'");
    d
}

/// The report for a citation anchor outside a book: a citation is
/// addressed through its book, so none elsewhere could ever be cited.
pub open spec fn stray_citation(a: Article) -> Option<Seq<char>> {
    let anchors = crate::markdown::citation_anchors_of(a.body@);
    if anchors.len() > 0 {
        Some("article '"@ + a.path@ + "' declares citation '*"@ + anchors[0].0
            + "', but citation anchors are only valid inside a book"@)
    } else {
        None
    }
}

fn reject_citations(article: &Article) -> (r: Result<(), String>)
    ensures
        match stray_citation(*article) {
            Some(e) => r matches Err(m) && m@ == e,
            None => r is Ok,
        },
{
    let anchors = citation_anchors(article.body.as_str());
    if anchors.len() > 0 {
        let mut m = owned("article '");
        push_str(&mut m, article.path.as_str());
        push_str(&mut m, "' declares citation '*");
        push_str(&mut m, anchors[0].name.as_str());
        push_str(&mut m, "', but citation anchors are only valid inside a book");
        return Err(m);
    }
    Ok(())
}

impl Builder {
    fn article(&mut self, article: &Article) -> (r: Result<(), String>)
        requires
            old(self).ok(),
        ensures
            final(self).ok(),
            final(self).sections == old(self).sections,
            final(self).citations == old(self).citations,
            stepped(old(self).cv(), old(self).pv(), article_steps(*article), r, final(self).cv(), final(self).pv()),
    {
        if article.original.is_some() {
            return Ok(());
        }
        let d = declarer("article", article.path.as_str());
        self.claim(&article.inline_refs, &PhraseTarget::Page(article.path.clone()), d.as_str())
    }

    /// A topic article: its citation anchors are refused, then it claims.
    fn topic_article(&mut self, article: &Article) -> (r: Result<(), String>)
        requires
            old(self).ok(),
        ensures
            final(self).ok(),
            final(self).sections == old(self).sections,
            final(self).citations == old(self).citations,
            stepped(old(self).cv(), old(self).pv(), topic_article_steps(*article), r, final(self).cv(), final(self).pv()),
    {
        let ghost c0 = self.cv();
        let ghost p0 = self.pv();
        let ghost check = seq![Step::Check(stray_citation(*article))];
        proof {
            lemma_one_check(c0, p0, stray_citation(*article));
        }
        match reject_citations(article) {
            Ok(()) => {},
            Err(m) => {
                proof {
                    lemma_stepped_fails(c0, p0, check, Err(m), c0, p0, article_steps(*article), c0, p0);
                }
                return Err(m);
            },
        }
        let r = self.article(article);
        proof {
            lemma_stepped_then(c0, p0, check, c0, p0, article_steps(*article), r, self.cv(), self.pv());
        }
        r
    }

    /// Phrases a container declares, claimed for its entry page; with
    /// no entry page to land on, a report.
    fn landing(&mut self, refs: &Vec<String>, entry: Option<&str>, kind: &str, path: &str) -> (r: Result<(), String>)
        requires
            old(self).ok(),
        ensures
            final(self).ok(),
            final(self).sections == old(self).sections,
            final(self).citations == old(self).citations,
            stepped(old(self).cv(), old(self).pv(), landing_steps(refs@, match entry { Some(e) => Some(e@), None => None },
                kind@, path@), r, final(self).cv(), final(self).pv()),
    {
        if refs.len() == 0 {
            return Ok(());
        }
        match entry {
            Some(e) => {
                let d = declarer(kind, path);
                self.claim(refs, &PhraseTarget::Page(owned(e)), d.as_str())
            },
            None => {
                let mut m = owned(kind);
                push_str(&mut m, " '");
                push_str(&mut m, path);
                push_str(&mut m, "' declares inline_ref but holds no articles to land on");
                proof {
                    lemma_one_check(self.cv(), self.pv(), Some(m@));
                }
                Err(m)
            },
        }
    }

    fn topic_child(&mut self, child: &TopicChild) -> (r: Result<(), String>)
        requires
            old(self).ok(),
        ensures
            final(self).ok(),
            final(self).sections == old(self).sections,
            final(self).citations == old(self).citations,
            stepped(old(self).cv(), old(self).pv(), topic_child_steps(*child), r, final(self).cv(), final(self).pv()),
    {
        match child {
            TopicChild::Article { article } => self.topic_article(article),
            TopicChild::Folder { folder } => {
                let ghost c0 = self.cv();
                let ghost p0 = self.pv();
                let ghost land = landing_steps(folder.inline_refs@, crate::validate::opt_view(folder.entry),
                    "subfolder"@, folder.path@);
                let ghost f = |a: Article| topic_article_steps(a);
                let ghost rest = concat_steps(folder.articles@, f);
                let entry: Option<&str> = match &folder.entry {
                    Some(e) => Some(e.as_str()),
                    None => None,
                };
                match self.landing(&folder.inline_refs, entry, "subfolder", folder.path.as_str()) {
                    Ok(()) => {},
                    Err(m) => {
                        proof {
                            lemma_stepped_fails(c0, p0, land, Err(m), c0, p0, rest, c0, p0);
                        }
                        return Err(m);
                    },
                }
                let ghost c1 = self.cv();
                let ghost p1 = self.pv();
                assert(topic_child_steps(*child) == land + rest);
                assert(folder.articles@.take(0) =~= Seq::<Article>::empty());
                for j in 0..folder.articles.len()
                    invariant
                        self.ok(),
                        self.sections == old(self).sections,
                        self.citations == old(self).citations,
                        f == (|a: Article| topic_article_steps(a)),
                        c0 == old(self).cv(),
                        p0 == old(self).pv(),
                        rest == concat_steps(folder.articles@, f),
                        land == landing_steps(folder.inline_refs@, crate::validate::opt_view(folder.entry), "subfolder"@,
                            folder.path@),
                        stepped(c0, p0, land, Ok(()), c1, p1),
                        topic_child_steps(*child) == land + rest,
                        stepped(c1, p1, concat_steps(folder.articles@.take(j as int), f), Ok(()), self.cv(), self.pv()),
                {
                    let ghost cj = self.cv();
                    let ghost pj = self.pv();
                    assert(folder.articles@.take(j + 1).drop_last() =~= folder.articles@.take(j as int));
                    assert(folder.articles@.take(j + 1).last() == folder.articles@[j as int]);
                    let rj = self.topic_article(&folder.articles[j]);
                    proof {
                        lemma_stepped_then(c1, p1, concat_steps(folder.articles@.take(j as int), f), cj, pj,
                            f(folder.articles@[j as int]), rj, self.cv(), self.pv());
                    }
                    match rj {
                        Ok(()) => {},
                        Err(m) => {
                            proof {
                                lemma_concat_fails(c1, p1, folder.articles@, f, j + 1, Err(m));
                                lemma_stepped_then(c0, p0, land, c1, p1, rest, Err(m), c0, p0);
                            }
                            return Err(m);
                        },
                    }
                }
                assert(folder.articles@.take(folder.articles@.len() as int) =~= folder.articles@);
                proof {
                    lemma_stepped_then(c0, p0, land, c1, p1, rest, Ok(()), self.cv(), self.pv());
                }
                Ok(())
            },
        }
    }

    fn topic(&mut self, topic: &Topic) -> (r: Result<(), String>)
        requires
            old(self).ok(),
        ensures
            final(self).ok(),
            final(self).sections == old(self).sections,
            final(self).citations == old(self).citations,
            stepped(old(self).cv(), old(self).pv(), topic_steps(*topic), r, final(self).cv(), final(self).pv()),
    {
        let ghost c0 = self.cv();
        let ghost p0 = self.pv();
        let ghost land = landing_steps(topic.inline_refs@,
            if topic_pages(topic.children@).len() > 0 { Some(topic_pages(topic.children@)[0].path@) } else { None },
            "topic"@, topic.path@);
        let ghost f = |c: TopicChild| topic_child_steps(c);
        let ghost rest = concat_steps(topic.children@, f);
        let entry = topic.entry();
        assert(match entry { Some(e) => Some(e@), None => None }
            == if topic_pages(topic.children@).len() > 0 { Some(topic_pages(topic.children@)[0].path@) } else { None });
        match self.landing(&topic.inline_refs, entry, "topic", topic.path.as_str()) {
            Ok(()) => {},
            Err(m) => {
                proof {
                    lemma_stepped_fails(c0, p0, land, Err(m), c0, p0, rest, c0, p0);
                }
                return Err(m);
            },
        }
        let ghost c1 = self.cv();
        let ghost p1 = self.pv();
        assert(topic.children@.take(0) =~= Seq::<TopicChild>::empty());
        for i in 0..topic.children.len()
            invariant
                self.ok(),
                self.sections == old(self).sections,
                self.citations == old(self).citations,
                f == (|c: TopicChild| topic_child_steps(c)),
                c0 == old(self).cv(),
                p0 == old(self).pv(),
                rest == concat_steps(topic.children@, f),
                land == landing_steps(topic.inline_refs@,
                    if topic_pages(topic.children@).len() > 0 { Some(topic_pages(topic.children@)[0].path@) } else { None },
                    "topic"@, topic.path@),
                stepped(c0, p0, land, Ok(()), c1, p1),
                stepped(c1, p1, concat_steps(topic.children@.take(i as int), f), Ok(()), self.cv(), self.pv()),
        {
            let ghost ci = self.cv();
            let ghost pi = self.pv();
            assert(topic.children@.take(i + 1).drop_last() =~= topic.children@.take(i as int));
            assert(topic.children@.take(i + 1).last() == topic.children@[i as int]);
            let ri = self.topic_child(&topic.children[i]);
            proof {
                lemma_stepped_then(c1, p1, concat_steps(topic.children@.take(i as int), f), ci, pi,
                    f(topic.children@[i as int]), ri, self.cv(), self.pv());
            }
            match ri {
                Ok(()) => {},
                Err(m) => {
                    proof {
                        lemma_concat_fails(c1, p1, topic.children@, f, i + 1, Err(m));
                        lemma_stepped_then(c0, p0, land, c1, p1, rest, Err(m), c0, p0);
                    }
                    return Err(m);
                },
            }
        }
        assert(topic.children@.take(topic.children@.len() as int) =~= topic.children@);
        proof {
            lemma_stepped_then(c0, p0, land, c1, p1, rest, Ok(()), self.cv(), self.pv());
        }
        Ok(())
    }

    fn book_children(&mut self, children: &Vec<BookChild>) -> (r: Result<(), String>)
        requires
            old(self).ok(),
        ensures
            final(self).ok(),
            final(self).sections == old(self).sections,
            final(self).citations == old(self).citations,
            stepped(old(self).cv(), old(self).pv(), book_children_steps(children@), r, final(self).cv(), final(self).pv()),
        decreases children@,
    {
        let ghost c0 = self.cv();
        let ghost p0 = self.pv();
        assert(children@.take(0) =~= Seq::<BookChild>::empty());
        for i in 0..children.len()
            invariant
                self.ok(),
                self.sections == old(self).sections,
                self.citations == old(self).citations,
                c0 == old(self).cv(),
                p0 == old(self).pv(),
                stepped(c0, p0, book_children_steps(children@.take(i as int)), Ok(()), self.cv(), self.pv()),
        {
            let ghost ci = self.cv();
            let ghost pi = self.pv();
            let ghost t = children@.take(i + 1);
            assert(t.drop_last() =~= children@.take(i as int));
            assert(t[t.len() - 1] == children@[i as int]);
            let ghost cs = book_children_steps(t).skip(book_children_steps(children@.take(i as int)).len() as int);
            assert(book_children_steps(t) =~= book_children_steps(children@.take(i as int)) + cs);
            let ri = match &children[i] {
                BookChild::Article { article } => {
                    assert(cs =~= article_steps(*article));
                    self.article(article)
                },
                BookChild::Chapter { chapter } => {
                    let ghost head: Seq<Step> = if chapter.inline_refs@.len() > 0 {
                        seq![Step::Claim(crate::links::strs(chapter.inline_refs@), (false, chapter.entry@),
                            declarer_of("chapter"@, chapter.path@))]
                    } else {
                        Seq::empty()
                    };
                    let ghost tail = book_children_steps(chapter.children@);
                    assert(cs =~= head + tail);
                    let r1 = if chapter.inline_refs.len() > 0 {
                        let d = declarer("chapter", chapter.path.as_str());
                        self.claim(&chapter.inline_refs, &PhraseTarget::Page(chapter.entry.clone()), d.as_str())
                    } else {
                        Ok(())
                    };
                    match r1 {
                        Err(m) => {
                            proof {
                                lemma_stepped_fails(ci, pi, head, Err(m), ci, pi, tail, ci, pi);
                            }
                            Err(m)
                        },
                        Ok(()) => {
                            let ghost ch = self.cv();
                            let ghost ph = self.pv();
                            assert(decreases_to!(children@ => children@[i as int]));
                            assert(decreases_to!(children@[i as int] => *chapter));
                            assert(decreases_to!(*chapter => chapter.children));
                            assert(decreases_to!(chapter.children => chapter.children@));
                            let rc = self.book_children(&chapter.children);
                            proof {
                                lemma_stepped_then(ci, pi, head, ch, ph, tail, rc, self.cv(), self.pv());
                            }
                            rc
                        },
                    }
                },
            };
            proof {
                lemma_stepped_then(c0, p0, book_children_steps(children@.take(i as int)), ci, pi, cs, ri, self.cv(),
                    self.pv());
            }
            match ri {
                Ok(()) => {},
                Err(m) => {
                    proof {
                        lemma_book_children_fails(c0, p0, children@, i + 1, Err(m));
                    }
                    return Err(m);
                },
            }
        }
        assert(children@.take(children@.len() as int) =~= children@);
        Ok(())
    }

    fn book(&mut self, book: &Book, outlines: &Vec<(String, Vec<TocEntry>)>) -> (r: Result<(), String>)
        requires
            old(self).ok(),
        ensures
            final(self).ok(),
            stepped(old(self).cv(), old(self).pv(), book_steps(*book), r, final(self).cv(), final(self).pv()),
            r is Ok ==> book_sections_view(final(self).sections@)
                == book_sections_view(old(self).sections@) + books_sections(seq![*book], outlines@),
            r is Ok ==> citations_view(final(self).citations@)
                == citations_view(old(self).citations@) + books_citations(seq![*book]),
    {
        let ghost c0 = self.cv();
        let ghost p0 = self.pv();
        let ghost claim = seq![Step::Claim(crate::links::strs(book.inline_refs@), (true, book.path@),
            declarer_of("book"@, book.path@))];
        let ghost kids = book_children_steps(book.children@);
        let ghost check = seq![Step::Check(match book_citations_of(*book) { Ok(_) => None, Err(e) => Some(e) })];
        assert(book_steps(*book) == claim + kids + check);
        let d = declarer("book", book.path.as_str());
        match self.claim(&book.inline_refs, &PhraseTarget::Book(book.path.clone()), d.as_str()) {
            Ok(()) => {},
            Err(m) => {
                proof {
                    lemma_stepped_fails(c0, p0, claim, Err(m), c0, p0, kids + check, c0, p0);
                    assert(claim + (kids + check) =~= claim + kids + check);
                }
                return Err(m);
            },
        }
        let ghost c1 = self.cv();
        let ghost p1 = self.pv();
        let rk = self.book_children(&book.children);
        proof {
            lemma_stepped_then(c0, p0, claim, c1, p1, kids, rk, self.cv(), self.pv());
        }
        match rk {
            Ok(()) => {},
            Err(m) => {
                proof {
                    lemma_stepped_fails(c0, p0, claim + kids, Err(m), c0, p0, check, c0, p0);
                }
                return Err(m);
            },
        }
        let ghost c2 = self.cv();
        let ghost p2 = self.pv();
        let entries = section_index(book, outlines);
        let ghost sb = book_sections_view(self.sections@);
        self.sections.push((book.path.clone(), entries));
        assert(book_sections_view(self.sections@) =~= sb + books_sections(seq![*book], outlines@));
        assert(self.cv() == c2 && self.pv() == p2);
        proof {
            lemma_one_check(c2, p2, match book_citations_of(*book) { Ok(_) => None, Err(e) => Some(e) });
        }
        let found = match book_citations(book) {
            Ok(v) => v,
            Err(m) => {
                proof {
                    lemma_stepped_then(c0, p0, claim + kids, c2, p2, check, Err(m), c2, p2);
                }
                return Err(m);
            },
        };
        proof {
            lemma_stepped_then(c0, p0, claim + kids, c2, p2, check, Ok(()), c2, p2);
        }
        let ghost cb = citations_view(self.citations@);
        let ghost fv = citations_view(found@);
        let mut found = found;
        self.citations.append(&mut found);
        assert(seq![*book].drop_last() =~= Seq::<Book>::empty());
        assert(citations_view(self.citations@) =~= cb + fv);
        assert(books_citations(Seq::<Book>::empty()) =~= Seq::<CitationV>::empty());
        assert(books_citations(seq![*book]) =~= fv);
        Ok(())
    }
}


impl Builder {
    /// What a traversal of the books `bs` adds, when it succeeds.
    spec fn grew(&self, before: Builder, bs: Seq<Book>, outlines: Seq<(String, Vec<TocEntry>)>) -> bool {
        &&& book_sections_view(self.sections@) == book_sections_view(before.sections@) + books_sections(bs, outlines)
        &&& citations_view(self.citations@) == citations_view(before.citations@) + books_citations(bs)
    }

    fn aitem(&mut self, item: &AnthologyItem, outlines: &Vec<(String, Vec<TocEntry>)>) -> (r: Result<(), String>)
        requires
            old(self).ok(),
        ensures
            final(self).ok(),
            stepped(old(self).cv(), old(self).pv(), aitem_steps(*item), r, final(self).cv(), final(self).pv()),
            r is Ok ==> final(self).grew(*old(self), aitem_books(*item), outlines@),
        decreases item,
    {
        match item {
            AnthologyItem::Topic { topic } => {
                let r = self.topic(topic);
                assert(book_sections_view(self.sections@) =~= book_sections_view(old(self).sections@) + books_sections(aitem_books(*item), outlines@));
                assert(citations_view(self.citations@) =~= citations_view(old(self).citations@) + books_citations(aitem_books(*item)));
                r
            },
            AnthologyItem::Book { book } => self.book(book, outlines),
            AnthologyItem::Anthology { anthology } => {
                assert(decreases_to!(item => anthology));
                self.anthology(anthology, outlines)
            },
        }
    }

    #[verifier::spinoff_prover]
    #[verifier::rlimit(40)]
    fn anthology(&mut self, anthology: &Anthology, outlines: &Vec<(String, Vec<TocEntry>)>) -> (r: Result<(), String>)
        requires
            old(self).ok(),
        ensures
            final(self).ok(),
            stepped(old(self).cv(), old(self).pv(), seq![Step::Claim(crate::links::strs(anthology.inline_refs@),
                (false, anthology.path@), declarer_of("anthology"@, anthology.path@))]
                + achildren_steps(anthology.children@), r, final(self).cv(), final(self).pv()),
            r is Ok ==> final(self).grew(*old(self), achildren_books(anthology.children@), outlines@),
        decreases anthology,
    {
        let ghost cl0 = self.cv();
        let ghost pl0 = self.pv();
        let ghost claim = seq![Step::Claim(crate::links::strs(anthology.inline_refs@), (false, anthology.path@),
            declarer_of("anthology"@, anthology.path@))];
        let ghost rest = achildren_steps(anthology.children@);
        let d = declarer("anthology", anthology.path.as_str());
        match self.claim(&anthology.inline_refs, &PhraseTarget::Page(anthology.path.clone()), d.as_str()) {
            Ok(()) => {},
            Err(m) => {
                proof {
                    lemma_stepped_fails(cl0, pl0, claim, Err(m), cl0, pl0, rest, cl0, pl0);
                }
                return Err(m);
            },
        }
        let ghost cl1 = self.cv();
        let ghost pl1 = self.pv();
        let ghost s0 = book_sections_view(old(self).sections@);
        let ghost c0 = citations_view(old(self).citations@);
        assert(anthology.children@.take(0) =~= Seq::<AnthologyChild>::empty());
        assert(books_sections(Seq::<Book>::empty(), outlines@) =~= Seq::<(Seq<char>, Seq<SectionV>)>::empty());
        for i in 0..anthology.children.len()
            invariant
                self.ok(),
                s0 == book_sections_view(old(self).sections@),
                c0 == citations_view(old(self).citations@),
                cl0 == old(self).cv(),
                pl0 == old(self).pv(),
                claim == seq![Step::Claim(crate::links::strs(anthology.inline_refs@), (false, anthology.path@),
                    declarer_of("anthology"@, anthology.path@))],
                rest == achildren_steps(anthology.children@),
                stepped(cl0, pl0, claim, Ok(()), cl1, pl1),
                stepped(cl1, pl1, achildren_steps(anthology.children@.take(i as int)), Ok(()), self.cv(), self.pv()),
                book_sections_view(self.sections@) == s0 + books_sections(achildren_books(anthology.children@.take(i as int)), outlines@),
                citations_view(self.citations@) == c0 + books_citations(achildren_books(anthology.children@.take(i as int))),
        {
            let ghost t = anthology.children@.take(i + 1);
            assert(t.drop_last() =~= anthology.children@.take(i as int));
            assert(t[t.len() - 1] == anthology.children@[i as int]);
            let ghost cs = achildren_steps(t).skip(achildren_steps(anthology.children@.take(i as int)).len() as int);
            assert(achildren_steps(t) =~= achildren_steps(anthology.children@.take(i as int)) + cs);
            let ghost ci = self.cv();
            let ghost pi = self.pv();
            let ghost before = achildren_books(anthology.children@.take(i as int));
            let ghost sm = book_sections_view(self.sections@);
            let ghost cm = citations_view(self.citations@);
            assert(decreases_to!(anthology => anthology.children));
            assert(decreases_to!(anthology.children => anthology.children@));
            assert(decreases_to!(anthology.children@ => anthology.children@[i as int]));
            let ri = match &anthology.children[i] {
                AnthologyChild::Item(item) => {
                    assert(cs =~= aitem_steps(*item));
                    let r = self.aitem(item, outlines);
                    proof {
                        if r is Ok {
                            lemma_books_split(before, aitem_books(*item), outlines@);
                        }
                    }
                    r
                },
                AnthologyChild::Shelf(shelf) => {
                    assert(cs =~= aitems_steps(shelf.items@));
                    assert(shelf.items@.take(0) =~= Seq::<AnthologyItem>::empty());
                    let mut rs: Result<(), String> = Ok(());
                    let mut j: usize = 0;
                    while j < shelf.items.len() && rs.is_ok()
                        invariant
                            self.ok(),
                            i < anthology.children@.len(),
                            j <= shelf.items@.len(),
                            anthology.children@[i as int] == AnthologyChild::Shelf(*shelf),
                            cs == aitems_steps(shelf.items@),
                            rs is Ok ==> stepped(ci, pi, aitems_steps(shelf.items@.take(j as int)), Ok(()), self.cv(), self.pv()),
                            rs is Err ==> stepped(ci, pi, cs, rs, ci, pi),
                            rs is Ok ==> book_sections_view(self.sections@) == sm + books_sections(aitems_books(shelf.items@.take(j as int)), outlines@),
                            rs is Ok ==> citations_view(self.citations@) == cm + books_citations(aitems_books(shelf.items@.take(j as int))),
                        decreases shelf.items@.len() - j,
                    {
                        let ghost tj = shelf.items@.take(j + 1);
                        assert(tj.drop_last() =~= shelf.items@.take(j as int));
                        assert(tj[tj.len() - 1] == shelf.items@[j as int]);
                        assert(aitems_steps(tj) =~= aitems_steps(shelf.items@.take(j as int)) + aitem_steps(shelf.items@[j as int]));
                        assert(decreases_to!(anthology => anthology.children));
                        assert(decreases_to!(anthology.children => anthology.children@));
                        assert(decreases_to!(anthology.children@ => anthology.children@[i as int]));
                        assert(anthology.children@[i as int]->Shelf_0 == *shelf);
                        assert(decreases_to!(anthology.children@[i as int] => anthology.children@[i as int]->Shelf_0));
                        assert(decreases_to!(*shelf => shelf.items));
                        assert(decreases_to!(shelf.items => shelf.items@));
                        assert(decreases_to!(shelf.items@ => shelf.items@[j as int]));
                        let ghost inner = aitems_books(shelf.items@.take(j as int));
                        let ghost cj = self.cv();
                        let ghost pj = self.pv();
                        let rj = self.aitem(&shelf.items[j], outlines);
                        proof {
                            lemma_stepped_then(ci, pi, aitems_steps(shelf.items@.take(j as int)), cj, pj,
                                aitem_steps(shelf.items@[j as int]), rj, self.cv(), self.pv());
                        }
                        match rj {
                            Ok(()) => {
                                proof {
                                    lemma_books_split(inner, aitem_books(shelf.items@[j as int]), outlines@);
                                }
                            },
                            Err(m) => {
                                proof {
                                    lemma_aitems_fails(ci, pi, shelf.items@, j + 1, Err(m));
                                }
                                rs = Err(m);
                            },
                        }
                        j = j + 1;
                    }
                    if rs.is_ok() {
                        assert(j == shelf.items@.len());
                        assert(shelf.items@.take(shelf.items.len() as int) =~= shelf.items@);
                        assert(stepped(ci, pi, cs, rs, self.cv(), self.pv()));
                        proof {
                            lemma_books_split(before, aitems_books(shelf.items@), outlines@);
                        }
                    }
                    rs
                },
            };
            proof {
                lemma_stepped_then(cl1, pl1, achildren_steps(anthology.children@.take(i as int)), ci, pi, cs, ri, self.cv(),
                    self.pv());
            }
            match ri {
                Ok(()) => {},
                Err(m) => {
                    proof {
                        lemma_achildren_fails(cl1, pl1, anthology.children@, i + 1, Err(m));
                        lemma_stepped_then(cl0, pl0, claim, cl1, pl1, rest, Err(m), cl0, pl0);
                    }
                    return Err(m);
                },
            }
        }
        assert(anthology.children@.take(anthology.children.len() as int) =~= anthology.children@);
        proof {
            lemma_stepped_then(cl0, pl0, claim, cl1, pl1, rest, Ok(()), self.cv(), self.pv());
        }
        Ok(())
    }

    #[verifier::rlimit(50)]
    fn product(&mut self, product: &Product, outlines: &Vec<(String, Vec<TocEntry>)>) -> (r: Result<(), String>)
        requires
            old(self).ok(),
        ensures
            final(self).ok(),
            stepped(old(self).cv(), old(self).pv(), product_steps(*product), r, final(self).cv(), final(self).pv()),
            r is Ok ==> final(self).grew(*old(self), pitems_books(product_items(product.children@)), outlines@),
    {
        let ghost cl0 = self.cv();
        let ghost pl0 = self.pv();
        let ghost claim = seq![Step::Claim(crate::links::strs(product.inline_refs@), (false, product.path@),
            declarer_of("product"@, product.path@))];
        let ghost f = |i: ProductItem| pitem_steps(i);
        let ghost rest = concat_steps(product_items(product.children@), f);
        let d = declarer("product", product.path.as_str());
        match self.claim(&product.inline_refs, &PhraseTarget::Page(product.path.clone()), d.as_str()) {
            Ok(()) => {},
            Err(m) => {
                proof {
                    lemma_stepped_fails(cl0, pl0, claim, Err(m), cl0, pl0, rest, cl0, pl0);
                }
                return Err(m);
            },
        }
        let ghost cl1 = self.cv();
        let ghost pl1 = self.pv();
        let items = product.items();
        let ghost iv = crate::site::derefs(items@);
        let ghost s0 = book_sections_view(old(self).sections@);
        let ghost c0 = citations_view(old(self).citations@);
        assert(iv.take(0) =~= Seq::<ProductItem>::empty());
        assert(books_sections(Seq::<Book>::empty(), outlines@) =~= Seq::<(Seq<char>, Seq<SectionV>)>::empty());
        for k in 0..items.len()
            invariant
                self.ok(),
                iv == crate::site::derefs(items@),
                iv == product_items(product.children@),
                s0 == book_sections_view(old(self).sections@),
                c0 == citations_view(old(self).citations@),
                cl0 == old(self).cv(),
                pl0 == old(self).pv(),
                f == (|i: ProductItem| pitem_steps(i)),
                claim == seq![Step::Claim(crate::links::strs(product.inline_refs@), (false, product.path@),
                    declarer_of("product"@, product.path@))],
                rest == concat_steps(product_items(product.children@), f),
                stepped(cl0, pl0, claim, Ok(()), cl1, pl1),
                stepped(cl1, pl1, concat_steps(iv.take(k as int), f), Ok(()), self.cv(), self.pv()),
                book_sections_view(self.sections@) == s0 + books_sections(pitems_books(iv.take(k as int)), outlines@),
                citations_view(self.citations@) == c0 + books_citations(pitems_books(iv.take(k as int))),
        {
            assert(iv.take(k + 1).drop_last() =~= iv.take(k as int));
            assert(iv.take(k + 1).last() == iv[k as int]);
            let ghost before = pitems_books(iv.take(k as int));
            let ghost sm = book_sections_view(self.sections@);
            let ghost cm = citations_view(self.citations@);
            let ghost ck = self.cv();
            let ghost pk = self.pv();
            let r = match items[k] {
                ProductItem::Anthology { anthology } => self.anthology(anthology, outlines),
                ProductItem::Topic { topic } => {
                    let r = self.topic(topic);
                    assert(book_sections_view(self.sections@) =~= sm + books_sections(Seq::<Book>::empty(), outlines@));
                    assert(citations_view(self.citations@) =~= cm + books_citations(Seq::<Book>::empty()));
                    r
                },
                ProductItem::Book { book } => self.book(book, outlines),
            };
            proof {
                lemma_stepped_then(cl1, pl1, concat_steps(iv.take(k as int), f), ck, pk, f(iv[k as int]), r, self.cv(),
                    self.pv());
            }
            match r {
                Ok(()) => {},
                Err(m) => {
                    proof {
                        lemma_concat_fails(cl1, pl1, iv, f, k + 1, Err(m));
                        lemma_stepped_then(cl0, pl0, claim, cl1, pl1, rest, Err(m), cl0, pl0);
                    }
                    return Err(m);
                },
            }
            proof {
                lemma_books_split(before, pitem_books(iv[k as int]), outlines@);
            }
        }
        assert(iv.take(items@.len() as int) =~= iv);
        proof {
            lemma_stepped_then(cl0, pl0, claim, cl1, pl1, rest, Ok(()), self.cv(), self.pv());
        }
        Ok(())
    }
}

impl InlineRefIndex {
    /// Collects every phrase, section index and citation of the site.
    /// `outlines` gives the heading outline of each numbered book article
    /// under its path; the numbered headings join the section index.
    pub fn new(site: &Site, outlines: &Vec<(String, Vec<TocEntry>)>) -> (r: Result<InlineRefIndex, String>)
        ensures
            match run_steps(Seq::empty(), Seq::empty(), site_steps(site.products@)) {
                Ok((_, phrases)) => if phrases.len() == 0 || ac_builds(phrase_keys(phrases)) {
                    r matches Ok(idx) && idx.phrases_spec() == phrases
                } else {
                    r is Err
                },
                Err(e) => r matches Err(m) && m@ == e,
            },
            r matches Ok(idx) ==> {
                &&& claims_ok(idx.phrases_spec().map_values(|p: (Seq<char>, (bool, Seq<char>))| (p.0, Seq::<char>::empty())))
                &&& idx.sections_spec() == books_sections(products_books(site.products@), outlines@)
                &&& idx.citations_spec() == books_citations(products_books(site.products@))
            },
    {
        let mut b = Builder { phrases: Vec::new(), claimed: Vec::new(), sections: Vec::new(), citations: Vec::new() };
        let ghost e0 = Seq::<(Seq<char>, Seq<char>)>::empty();
        let ghost q0 = Seq::<PhraseV>::empty();
        let ghost f = |p: Product| product_steps(p);
        assert(b.cv() =~= e0);
        assert(b.pv() =~= q0);
        assert(site.products@.take(0) =~= Seq::<Product>::empty());
        assert(claims_view(b.claimed@) =~= Seq::<(Seq<char>, Seq<char>)>::empty());
        assert(phrase_texts(b.phrases@) =~= Seq::<Seq<char>>::empty());
        assert(claim_keys(claims_view(b.claimed@)) =~= Seq::<Seq<char>>::empty());
        assert(book_sections_view(b.sections@) =~= Seq::<(Seq<char>, Seq<SectionV>)>::empty());
        assert(citations_view(b.citations@) =~= Seq::<CitationV>::empty());
        assert(books_sections(Seq::<Book>::empty(), outlines@) =~= Seq::<(Seq<char>, Seq<SectionV>)>::empty());
        for k in 0..site.products.len()
            invariant
                b.ok(),
                e0 == Seq::<(Seq<char>, Seq<char>)>::empty(),
                q0 == Seq::<PhraseV>::empty(),
                f == (|p: Product| product_steps(p)),
                stepped(e0, q0, concat_steps(site.products@.take(k as int), f), Ok(()), b.cv(), b.pv()),
                book_sections_view(b.sections@) == books_sections(products_books(site.products@.take(k as int)), outlines@),
                citations_view(b.citations@) == books_citations(products_books(site.products@.take(k as int))),
        {
            assert(site.products@.take(k + 1).drop_last() =~= site.products@.take(k as int));
            assert(site.products@.take(k + 1).last() == site.products@[k as int]);
            let ghost before = products_books(site.products@.take(k as int));
            let ghost ck = b.cv();
            let ghost pk = b.pv();
            let rk = b.product(&site.products[k], outlines);
            proof {
                lemma_stepped_then(e0, q0, concat_steps(site.products@.take(k as int), f), ck, pk,
                    f(site.products@[k as int]), rk, b.cv(), b.pv());
            }
            match rk {
                Ok(()) => {},
                Err(m) => {
                    proof {
                        lemma_concat_fails(e0, q0, site.products@, f, k + 1, Err(m));
                        assert(site_steps(site.products@) == concat_steps(site.products@, f));
                        assert(stepped(e0, q0, site_steps(site.products@), Err(m), e0, q0));
                    }
                    return Err(m);
                },
            }
            proof {
                lemma_books_split(before, pitems_books(product_items(site.products@[k as int].children@)), outlines@);
            }
        }
        assert(site.products@.take(site.products@.len() as int) =~= site.products@);
        assert(stepped(e0, q0, site_steps(site.products@), Ok(()), b.cv(), b.pv()));
        assert(phrase_keys(phrases_view(b.phrases@)) =~= phrase_texts(b.phrases@));
        let matcher = if b.phrases.len() == 0 {
            None
        } else {
            match build_matcher(&b.phrases) {
                Ok(m) => Some(m),
                Err(e) => return Err(e),
            }
        };
        let idx = InlineRefIndex { matcher, phrases: b.phrases, sections: b.sections, citations: b.citations };
        proof {
            let c = claims_view(b.claimed@);
            let q = idx.phrases_spec().map_values(|p: (Seq<char>, (bool, Seq<char>))| (p.0, Seq::<char>::empty()));
            assert(phrase_texts(b.phrases@).len() == claim_keys(c).len());
            assert(q.len() == c.len());
            assert forall|i: int| 0 <= i < q.len() implies #[trigger] q[i].0 == c[i].0 by {
                assert(phrase_texts(b.phrases@)[i] == claim_keys(c)[i]);
            }
            assert forall|i: int| 0 <= i < q.len() implies phrase_ok(#[trigger] q[i].0) by {
                assert(q[i].0 == c[i].0);
            }
            assert forall|i: int, j: int| 0 <= i < j < q.len() implies #[trigger] q[i].0 != #[trigger] q[j].0 by {
                assert(q[i].0 == c[i].0);
                assert(q[j].0 == c[j].0);
            }
        }
        Ok(idx)
    }
}

} // verus!
