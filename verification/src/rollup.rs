//! Reading times and dates rolled up the tree: every container holds
//! the sum of its entries' reading minutes and the latest `updated:`
//! date beneath it. Shelves are presentation only and hold no totals.
//! Sums wrap at `u32`'s limit, as the sums of a release build do.
use vstd::prelude::*;
use crate::site::{
    Anthology, AnthologyChild, AnthologyItem, Article, Book, BookChild, Chapter, Product, ProductChild,
    ProductItem, Shelf, Topic, TopicChild, TopicFolder,
};
use crate::validate::{later, later_of, opt_view};
use crate::linking::{
    achildren_leaves, aitem_leaves, aitems_leaves, leaf_articles, leaves_articles, pchildren_leaves, pitem_leaves,
    pitems_leaves, Leaf,
};

verus! {

/// Minutes added as a release build adds them.
pub open spec fn wadd(a: u32, b: u32) -> u32 {
    vstd::wrapping::u32_specs::wrapping_add(a, b)
}

/// The summed minutes of a run of articles.
pub open spec fn articles_minutes(s: Seq<Article>) -> u32
    decreases s.len(),
{
    if s.len() == 0 { 0 } else { wadd(articles_minutes(s.drop_last()), s.last().reading_minutes) }
}

/// The latest date of a run of articles.
pub open spec fn articles_updated(s: Seq<Article>) -> Option<Seq<char>>
    decreases s.len(),
{
    if s.len() == 0 { None } else { later_of(articles_updated(s.drop_last()), opt_view(s.last().updated)) }
}

/// A subfolder with its totals.
pub open spec fn folder_rolled(f: TopicFolder, g: TopicFolder) -> bool {
    &&& g == TopicFolder { reading_minutes: g.reading_minutes, updated: g.updated, ..f }
    &&& g.reading_minutes == articles_minutes(f.articles@)
    &&& opt_view(g.updated) == articles_updated(f.articles@)
}

pub open spec fn tchildren_minutes(s: Seq<TopicChild>) -> u32
    decreases s.len(),
{
    if s.len() == 0 {
        0
    } else {
        wadd(tchildren_minutes(s.drop_last()), match s.last() {
            TopicChild::Article { article } => article.reading_minutes,
            TopicChild::Folder { folder } => articles_minutes(folder.articles@),
        })
    }
}

pub open spec fn tchildren_updated(s: Seq<TopicChild>) -> Option<Seq<char>>
    decreases s.len(),
{
    if s.len() == 0 {
        None
    } else {
        later_of(tchildren_updated(s.drop_last()), match s.last() {
            TopicChild::Article { article } => opt_view(article.updated),
            TopicChild::Folder { folder } => articles_updated(folder.articles@),
        })
    }
}

/// A topic with its totals and its subfolders'.
pub open spec fn topic_rolled(t: Topic, u: Topic) -> bool {
    &&& u == Topic { children: u.children, reading_minutes: u.reading_minutes, updated: u.updated, ..t }
    &&& u.children@.len() == t.children@.len()
    &&& forall|i: int| 0 <= i < t.children@.len() ==> match #[trigger] t.children@[i] {
        TopicChild::Article { .. } => u.children@[i] == t.children@[i],
        TopicChild::Folder { folder } => (u.children@[i] matches TopicChild::Folder { folder: g } && folder_rolled(folder, g)),
    }
    &&& u.reading_minutes == tchildren_minutes(t.children@)
    &&& opt_view(u.updated) == tchildren_updated(t.children@)
}

/// Totals a subfolder.
fn rollup_folder(f: TopicFolder) -> (r: TopicFolder)
    ensures
        folder_rolled(f, r),
{
    let mut minutes: u32 = 0;
    let mut updated: Option<String> = None;
    for i in 0..f.articles.len()
        invariant
            minutes == articles_minutes(f.articles@.take(i as int)),
            opt_view(updated) == articles_updated(f.articles@.take(i as int)),
    {
        assert(f.articles@.take(i + 1).drop_last() =~= f.articles@.take(i as int));
        let a = &f.articles[i];
        minutes = minutes.wrapping_add(a.reading_minutes);
        updated = later(updated, a.updated.clone());
    }
    assert(f.articles@.take(f.articles@.len() as int) =~= f.articles@);
    let TopicFolder { slug, path, order, title, entry, reading_minutes: _, updated: _, inline_refs, articles, links } = f;
    TopicFolder { slug, path, order, title, entry, reading_minutes: minutes, updated, inline_refs, articles, links }
}

/// Totals a topic and its subfolders.
pub fn rollup_topic(t: Topic) -> (r: Topic)
    ensures
        topic_rolled(t, r),
{
    let ghost t0 = t;
    let Topic { slug, path, order, title, reading_minutes: _, updated: _, inline_refs, children, links } = t;
    let ghost c0 = children@;
    let n = children.len();
    let mut rest = children;
    let mut done: Vec<TopicChild> = Vec::new();
    let mut minutes: u32 = 0;
    let mut updated: Option<String> = None;
    assert(c0.skip(0) =~= c0);
    for i in 0..n
        invariant
            n == c0.len(),
            rest@ == c0.skip(i as int),
            done@.len() == i,
            forall|j: int| 0 <= j < i ==> match #[trigger] c0[j] {
                TopicChild::Article { .. } => done@[j] == c0[j],
                TopicChild::Folder { folder } => (done@[j] matches TopicChild::Folder { folder: g } && folder_rolled(folder, g)),
            },
            minutes == tchildren_minutes(c0.take(i as int)),
            opt_view(updated) == tchildren_updated(c0.take(i as int)),
    {
        let c = rest.remove(0);
        assert(c == c0[i as int]);
        assert(rest@ =~= c0.skip(i + 1));
        assert(c0.take(i + 1).drop_last() =~= c0.take(i as int));
        match c {
            TopicChild::Article { article } => {
                minutes = minutes.wrapping_add(article.reading_minutes);
                updated = later(updated, article.updated.clone());
                done.push(TopicChild::Article { article });
            },
            TopicChild::Folder { folder } => {
                let g = rollup_folder(folder);
                minutes = minutes.wrapping_add(g.reading_minutes);
                updated = later(updated, g.updated.clone());
                done.push(TopicChild::Folder { folder: g });
            },
        }
    }
    assert(c0.take(n as int) =~= c0);
    Topic { slug, path, order, title, reading_minutes: minutes, updated, inline_refs, children: done, links }
}

/// The summed minutes of a book level, chapters included.
pub open spec fn bc_minutes(s: Seq<BookChild>) -> u32
    decreases s,
{
    if s.len() == 0 {
        0
    } else {
        wadd(bc_minutes(s.drop_last()), match s.last() {
            BookChild::Article { article } => article.reading_minutes,
            BookChild::Chapter { chapter } => bc_minutes(chapter.children@),
        })
    }
}

/// The latest date of a book level, chapters included.
pub open spec fn bc_updated(s: Seq<BookChild>) -> Option<Seq<char>>
    decreases s,
{
    if s.len() == 0 {
        None
    } else {
        later_of(bc_updated(s.drop_last()), match s.last() {
            BookChild::Article { article } => opt_view(article.updated),
            BookChild::Chapter { chapter } => bc_updated(chapter.children@),
        })
    }
}

/// A book level with every chapter totalled.
pub open spec fn bc_rolled(s: Seq<BookChild>, t: Seq<BookChild>) -> bool
    decreases s,
{
    s.len() == t.len() && (s.len() == 0 || (bc_rolled(s.drop_last(), t.drop_last()) && match s.last() {
        BookChild::Article { .. } => t.last() == s.last(),
        BookChild::Chapter { chapter } => match t.last() {
            BookChild::Chapter { chapter: d } =>
                d == Chapter { children: d.children, reading_minutes: d.reading_minutes, updated: d.updated, ..chapter }
                && bc_rolled(chapter.children@, d.children@)
                && d.reading_minutes == bc_minutes(chapter.children@)
                && opt_view(d.updated) == bc_updated(chapter.children@),
            BookChild::Article { .. } => false,
        },
    }))
}

/// Totals a book level and every chapter beneath it.
fn rollup_book_children(children: Vec<BookChild>) -> (r: (Vec<BookChild>, u32, Option<String>))
    ensures
        bc_rolled(children@, r.0@),
        r.1 == bc_minutes(children@),
        opt_view(r.2) == bc_updated(children@),
    decreases children@,
{
    let ghost c0 = children@;
    let n = children.len();
    let mut rest = children;
    let mut done: Vec<BookChild> = Vec::new();
    let mut minutes: u32 = 0;
    let mut updated: Option<String> = None;
    assert(c0.skip(0) =~= c0);
    assert(c0.take(0) =~= Seq::<BookChild>::empty());
    for i in 0..n
        invariant
            c0 == children@,
            n == c0.len(),
            rest@ == c0.skip(i as int),
            bc_rolled(c0.take(i as int), done@),
            minutes == bc_minutes(c0.take(i as int)),
            opt_view(updated) == bc_updated(c0.take(i as int)),
    {
        let c = rest.remove(0);
        assert(c == c0[i as int]);
        assert(rest@ =~= c0.skip(i + 1));
        assert(c0.take(i + 1).drop_last() =~= c0.take(i as int));
        let ghost before = done@;
        match c {
            BookChild::Article { article } => {
                minutes = minutes.wrapping_add(article.reading_minutes);
                updated = later(updated, article.updated.clone());
                done.push(BookChild::Article { article });
                assert(done@.drop_last() =~= before);
            },
            BookChild::Chapter { chapter } => {
                let ghost ch = chapter;
                let Chapter { slug, path, order, number, appendix, title, entry, reading_minutes: _, updated: _, inline_refs, children: cc, links } = chapter;
                assert(decreases_to!(children@ => children@[i as int]));
                assert(decreases_to!(children@[i as int] => ch));
                assert(decreases_to!(ch => ch.children));
                assert(decreases_to!(ch.children => ch.children@));
                let (rolled, m, u) = rollup_book_children(cc);
                minutes = minutes.wrapping_add(m);
                updated = later(updated, match &u {
                    Some(x) => Some(x.clone()),
                    None => None,
                });
                let d = Chapter { slug, path, order, number, appendix, title, entry, reading_minutes: m, updated: u, inline_refs, children: rolled, links };
                done.push(BookChild::Chapter { chapter: d });
                assert(done@.drop_last() =~= before);
            },
        }
    }
    assert(c0.take(n as int) =~= c0);
    (done, minutes, updated)
}

/// A book with its totals and every chapter's.
pub open spec fn book_rolled(b: Book, c: Book) -> bool {
    &&& c == Book { children: c.children, reading_minutes: c.reading_minutes, updated: c.updated, ..b }
    &&& bc_rolled(b.children@, c.children@)
    &&& c.reading_minutes == bc_minutes(b.children@)
    &&& opt_view(c.updated) == bc_updated(b.children@)
}

/// Totals a book and its chapters.
pub fn rollup_book(b: Book) -> (r: Book)
    ensures
        book_rolled(b, r),
{
    let Book { slug, path, order, title, short, description, reading_minutes: _, updated: _, inline_refs, children, links } = b;
    let (rolled, minutes, updated) = rollup_book_children(children);
    Book { slug, path, order, title, short, description, reading_minutes: minutes, updated, inline_refs, children: rolled, links }
}

/// An anthology item's total minutes.
pub open spec fn ai_minutes(i: AnthologyItem) -> u32
    decreases i,
{
    match i {
        AnthologyItem::Topic { topic } => tchildren_minutes(topic.children@),
        AnthologyItem::Book { book } => bc_minutes(book.children@),
        AnthologyItem::Anthology { anthology } => ac_minutes(anthology.children@),
    }
}

/// `acc` with the minutes of a run of anthology items added one by one.
pub open spec fn ais_minutes(acc: u32, s: Seq<AnthologyItem>) -> u32
    decreases s,
{
    if s.len() == 0 { acc } else { wadd(ais_minutes(acc, s.drop_last()), ai_minutes(s.last())) }
}

/// The summed minutes of an anthology's children, shelf items one by one.
pub open spec fn ac_minutes(s: Seq<AnthologyChild>) -> u32
    decreases s,
{
    if s.len() == 0 {
        0
    } else {
        match s.last() {
            AnthologyChild::Item(i) => wadd(ac_minutes(s.drop_last()), ai_minutes(i)),
            AnthologyChild::Shelf(sh) => ais_minutes(ac_minutes(s.drop_last()), sh.items@),
        }
    }
}

/// An anthology item's latest date.
pub open spec fn ai_updated(i: AnthologyItem) -> Option<Seq<char>>
    decreases i,
{
    match i {
        AnthologyItem::Topic { topic } => tchildren_updated(topic.children@),
        AnthologyItem::Book { book } => bc_updated(book.children@),
        AnthologyItem::Anthology { anthology } => ac_updated(anthology.children@),
    }
}

pub open spec fn ais_updated(acc: Option<Seq<char>>, s: Seq<AnthologyItem>) -> Option<Seq<char>>
    decreases s,
{
    if s.len() == 0 { acc } else { later_of(ais_updated(acc, s.drop_last()), ai_updated(s.last())) }
}

pub open spec fn ac_updated(s: Seq<AnthologyChild>) -> Option<Seq<char>>
    decreases s,
{
    if s.len() == 0 {
        None
    } else {
        match s.last() {
            AnthologyChild::Item(i) => later_of(ac_updated(s.drop_last()), ai_updated(i)),
            AnthologyChild::Shelf(sh) => ais_updated(ac_updated(s.drop_last()), sh.items@),
        }
    }
}

/// An anthology item with everything beneath it totalled.
pub open spec fn ai_rolled(i: AnthologyItem, j: AnthologyItem) -> bool
    decreases i,
{
    match i {
        AnthologyItem::Topic { topic } => (j matches AnthologyItem::Topic { topic: u } && topic_rolled(topic, u)),
        AnthologyItem::Book { book } => (j matches AnthologyItem::Book { book: c } && book_rolled(book, c)),
        AnthologyItem::Anthology { anthology } => match j {
            AnthologyItem::Anthology { anthology: n } =>
                n == Anthology { children: n.children, reading_minutes: n.reading_minutes, updated: n.updated, ..anthology }
                && ac_rolled(anthology.children@, n.children@)
                && n.reading_minutes == ac_minutes(anthology.children@)
                && opt_view(n.updated) == ac_updated(anthology.children@),
            _ => false,
        },
    }
}

pub open spec fn ais_rolled(s: Seq<AnthologyItem>, t: Seq<AnthologyItem>) -> bool
    decreases s,
{
    s.len() == t.len() && (s.len() == 0 || (ais_rolled(s.drop_last(), t.drop_last()) && ai_rolled(s.last(), t.last())))
}

pub open spec fn ac_rolled(s: Seq<AnthologyChild>, t: Seq<AnthologyChild>) -> bool
    decreases s,
{
    s.len() == t.len() && (s.len() == 0 || (ac_rolled(s.drop_last(), t.drop_last()) && match s.last() {
        AnthologyChild::Item(i) => match t.last() {
            AnthologyChild::Item(j) => ai_rolled(i, j),
            _ => false,
        },
        AnthologyChild::Shelf(sh) => match t.last() {
            AnthologyChild::Shelf(sh2) => sh2 == Shelf { items: sh2.items, ..sh } && ais_rolled(sh.items@, sh2.items@),
            _ => false,
        },
    }))
}

/// The totals an item carries once rolled up.
pub open spec fn ai_totals(j: AnthologyItem) -> (u32, Option<Seq<char>>) {
    match j {
        AnthologyItem::Topic { topic } => (topic.reading_minutes, opt_view(topic.updated)),
        AnthologyItem::Book { book } => (book.reading_minutes, opt_view(book.updated)),
        AnthologyItem::Anthology { anthology } => (anthology.reading_minutes, opt_view(anthology.updated)),
    }
}

/// A copy of an optional date.
fn copy_date(o: &Option<String>) -> (r: Option<String>)
    ensures
        r == *o,
{
    match o {
        Some(x) => Some(x.clone()),
        None => None,
    }
}

/// The totals of a rolled-up item.
fn item_totals(j: &AnthologyItem) -> (r: (u32, Option<String>))
    ensures
        (r.0, opt_view(r.1)) == ai_totals(*j),
{
    match j {
        AnthologyItem::Topic { topic } => (topic.reading_minutes, copy_date(&topic.updated)),
        AnthologyItem::Book { book } => (book.reading_minutes, copy_date(&book.updated)),
        AnthologyItem::Anthology { anthology } => (anthology.reading_minutes, copy_date(&anthology.updated)),
    }
}

/// Totals an anthology item and everything beneath it.
fn rollup_ai(i: AnthologyItem) -> (r: AnthologyItem)
    ensures
        ai_rolled(i, r),
        ai_totals(r) == (ai_minutes(i), ai_updated(i)),
    decreases i,
{
    let ghost i0 = i;
    match i {
        AnthologyItem::Topic { topic } => AnthologyItem::Topic { topic: rollup_topic(topic) },
        AnthologyItem::Book { book } => AnthologyItem::Book { book: rollup_book(book) },
        AnthologyItem::Anthology { anthology } => {
            let ghost a0 = anthology;
            let Anthology { slug, path, order, title, description, reading_minutes: _, updated: _, inline_refs, children } = anthology;
            assert(decreases_to!(i0 => a0));
            assert(decreases_to!(a0 => a0.children));
            assert(decreases_to!(a0.children => a0.children@));
            let (rolled, minutes, updated) = rollup_ac(children);
            AnthologyItem::Anthology {
                anthology: Anthology { slug, path, order, title, description, reading_minutes: minutes, updated, inline_refs, children: rolled },
            }
        },
    }
}

/// Totals a run of anthology items, adding each to the running totals.
fn rollup_ais(items: Vec<AnthologyItem>, minutes: u32, updated: Option<String>) -> (r: (Vec<AnthologyItem>, u32, Option<String>))
    ensures
        ais_rolled(items@, r.0@),
        r.1 == ais_minutes(minutes, items@),
        opt_view(r.2) == ais_updated(opt_view(updated), items@),
    decreases items@,
{
    let ghost s0 = items@;
    let ghost m0 = minutes;
    let ghost u0 = opt_view(updated);
    let n = items.len();
    let mut rest = items;
    let mut done: Vec<AnthologyItem> = Vec::new();
    let mut minutes = minutes;
    let mut updated = updated;
    assert(s0.skip(0) =~= s0);
    assert(s0.take(0) =~= Seq::<AnthologyItem>::empty());
    for k in 0..n
        invariant
            s0 == items@,
            n == s0.len(),
            rest@ == s0.skip(k as int),
            ais_rolled(s0.take(k as int), done@),
            minutes == ais_minutes(m0, s0.take(k as int)),
            opt_view(updated) == ais_updated(u0, s0.take(k as int)),
    {
        let x = rest.remove(0);
        assert(x == s0[k as int]);
        assert(rest@ =~= s0.skip(k + 1));
        assert(s0.take(k + 1).drop_last() =~= s0.take(k as int));
        assert(decreases_to!(items@ => items@[k as int]));
        let ghost before = done@;
        let y = rollup_ai(x);
        let (m, u) = item_totals(&y);
        minutes = minutes.wrapping_add(m);
        updated = later(updated, u);
        done.push(y);
        assert(done@.drop_last() =~= before);
    }
    assert(s0.take(n as int) =~= s0);
    (done, minutes, updated)
}

/// Totals an anthology's children.
fn rollup_ac(children: Vec<AnthologyChild>) -> (r: (Vec<AnthologyChild>, u32, Option<String>))
    ensures
        ac_rolled(children@, r.0@),
        r.1 == ac_minutes(children@),
        opt_view(r.2) == ac_updated(children@),
    decreases children@,
{
    let ghost s0 = children@;
    let n = children.len();
    let mut rest = children;
    let mut done: Vec<AnthologyChild> = Vec::new();
    let mut minutes: u32 = 0;
    let mut updated: Option<String> = None;
    assert(s0.skip(0) =~= s0);
    assert(s0.take(0) =~= Seq::<AnthologyChild>::empty());
    for k in 0..n
        invariant
            s0 == children@,
            n == s0.len(),
            rest@ == s0.skip(k as int),
            ac_rolled(s0.take(k as int), done@),
            minutes == ac_minutes(s0.take(k as int)),
            opt_view(updated) == ac_updated(s0.take(k as int)),
    {
        let x = rest.remove(0);
        assert(x == s0[k as int]);
        assert(rest@ =~= s0.skip(k + 1));
        assert(s0.take(k + 1).drop_last() =~= s0.take(k as int));
        assert(decreases_to!(children@ => children@[k as int]));
        let ghost before = done@;
        let ghost xg = x;
        match x {
            AnthologyChild::Item(i) => {
                assert(decreases_to!(xg => i));
                let y = rollup_ai(i);
                let (m, u) = item_totals(&y);
                minutes = minutes.wrapping_add(m);
                updated = later(updated, u);
                done.push(AnthologyChild::Item(y));
                assert(done@.drop_last() =~= before);
            },
            AnthologyChild::Shelf(sh) => {
                let ghost shg = sh;
                let Shelf { slug, order, title, items } = sh;
                assert(decreases_to!(xg => shg));
                assert(decreases_to!(shg => shg.items));
                assert(decreases_to!(shg.items => shg.items@));
                let (rolled, m, u) = rollup_ais(items, minutes, updated);
                minutes = m;
                updated = u;
                done.push(AnthologyChild::Shelf(Shelf { slug, order, title, items: rolled }));
                assert(done@.drop_last() =~= before);
            },
        }
    }
    assert(s0.take(n as int) =~= s0);
    (done, minutes, updated)
}


/// A product item's total minutes and latest date.
pub open spec fn pi_totals(i: ProductItem) -> (u32, Option<Seq<char>>) {
    match i {
        ProductItem::Topic { topic } => (tchildren_minutes(topic.children@), tchildren_updated(topic.children@)),
        ProductItem::Book { book } => (bc_minutes(book.children@), bc_updated(book.children@)),
        ProductItem::Anthology { anthology } => (ac_minutes(anthology.children@), ac_updated(anthology.children@)),
    }
}

/// `acc` with the totals of a run of product items added one by one.
pub open spec fn pis_totals(acc: (u32, Option<Seq<char>>), s: Seq<ProductItem>) -> (u32, Option<Seq<char>>)
    decreases s.len(),
{
    if s.len() == 0 {
        acc
    } else {
        let before = pis_totals(acc, s.drop_last());
        (wadd(before.0, pi_totals(s.last()).0), later_of(before.1, pi_totals(s.last()).1))
    }
}

/// The totals of a product's children, shelf items one by one.
pub open spec fn pc_totals(s: Seq<ProductChild>) -> (u32, Option<Seq<char>>)
    decreases s.len(),
{
    if s.len() == 0 {
        (0, None)
    } else {
        let before = pc_totals(s.drop_last());
        match s.last() {
            ProductChild::Item(i) => (wadd(before.0, pi_totals(i).0), later_of(before.1, pi_totals(i).1)),
            ProductChild::Shelf(sh) => pis_totals(before, sh.items@),
        }
    }
}

/// A product item with everything beneath it totalled.
pub open spec fn pi_rolled(i: ProductItem, j: ProductItem) -> bool {
    match i {
        ProductItem::Topic { topic } => (j matches ProductItem::Topic { topic: u } && topic_rolled(topic, u)),
        ProductItem::Book { book } => (j matches ProductItem::Book { book: c } && book_rolled(book, c)),
        ProductItem::Anthology { anthology } => match j {
            ProductItem::Anthology { anthology: n } =>
                n == Anthology { children: n.children, reading_minutes: n.reading_minutes, updated: n.updated, ..anthology }
                && ac_rolled(anthology.children@, n.children@)
                && n.reading_minutes == ac_minutes(anthology.children@)
                && opt_view(n.updated) == ac_updated(anthology.children@),
            _ => false,
        },
    }
}

pub open spec fn pis_rolled(s: Seq<ProductItem>, t: Seq<ProductItem>) -> bool
    decreases s.len(),
{
    s.len() == t.len() && (s.len() == 0 || (pis_rolled(s.drop_last(), t.drop_last()) && pi_rolled(s.last(), t.last())))
}

pub open spec fn pc_rolled(s: Seq<ProductChild>, t: Seq<ProductChild>) -> bool
    decreases s.len(),
{
    s.len() == t.len() && (s.len() == 0 || (pc_rolled(s.drop_last(), t.drop_last()) && match s.last() {
        ProductChild::Item(i) => match t.last() {
            ProductChild::Item(j) => pi_rolled(i, j),
            _ => false,
        },
        ProductChild::Shelf(sh) => match t.last() {
            ProductChild::Shelf(sh2) => sh2 == Shelf { items: sh2.items, ..sh } && pis_rolled(sh.items@, sh2.items@),
            _ => false,
        },
    }))
}

/// A product with its totals and everything beneath it totalled.
pub open spec fn product_rolled(p: Product, q: Product) -> bool {
    &&& q == Product { children: q.children, reading_minutes: q.reading_minutes, updated: q.updated, ..p }
    &&& pc_rolled(p.children@, q.children@)
    &&& q.reading_minutes == pc_totals(p.children@).0
    &&& opt_view(q.updated) == pc_totals(p.children@).1
}

/// Totals a product item.
fn rollup_pi(i: ProductItem) -> (r: (ProductItem, u32, Option<String>))
    ensures
        pi_rolled(i, r.0),
        (r.1, opt_view(r.2)) == pi_totals(i),
{
    match i {
        ProductItem::Topic { topic } => {
            let t = rollup_topic(topic);
            let m = t.reading_minutes;
            let u = copy_date(&t.updated);
            (ProductItem::Topic { topic: t }, m, u)
        },
        ProductItem::Book { book } => {
            let b = rollup_book(book);
            let m = b.reading_minutes;
            let u = copy_date(&b.updated);
            (ProductItem::Book { book: b }, m, u)
        },
        ProductItem::Anthology { anthology } => {
            let Anthology { slug, path, order, title, description, reading_minutes: _, updated: _, inline_refs, children } = anthology;
            let (rolled, minutes, updated) = rollup_ac(children);
            let u = copy_date(&updated);
            (ProductItem::Anthology {
                anthology: Anthology { slug, path, order, title, description, reading_minutes: minutes, updated, inline_refs, children: rolled },
            }, minutes, u)
        },
    }
}

/// Totals a product and everything beneath it.
pub fn rollup_product(p: Product) -> (r: Product)
    ensures
        product_rolled(p, r),
{
    let Product { slug, path, title, monogram, color, description, reading_minutes: _, updated: _, inline_refs, children } = p;
    let ghost s0 = children@;
    let n = children.len();
    let mut rest = children;
    let mut done: Vec<ProductChild> = Vec::new();
    let mut minutes: u32 = 0;
    let mut updated: Option<String> = None;
    assert(s0.skip(0) =~= s0);
    assert(s0.take(0) =~= Seq::<ProductChild>::empty());
    for k in 0..n
        invariant
            n == s0.len(),
            rest@ == s0.skip(k as int),
            pc_rolled(s0.take(k as int), done@),
            (minutes, opt_view(updated)) == pc_totals(s0.take(k as int)),
    {
        let x = rest.remove(0);
        assert(x == s0[k as int]);
        assert(rest@ =~= s0.skip(k + 1));
        assert(s0.take(k + 1).drop_last() =~= s0.take(k as int));
        let ghost before = done@;
        match x {
            ProductChild::Item(i) => {
                let (y, m, u) = rollup_pi(i);
                minutes = minutes.wrapping_add(m);
                updated = later(updated, u);
                done.push(ProductChild::Item(y));
                assert(done@.drop_last() =~= before);
            },
            ProductChild::Shelf(sh) => {
                let Shelf { slug: sslug, order, title: stitle, items } = sh;
                let ghost i0 = items@;
                let ghost acc0 = (minutes, opt_view(updated));
                let m_items = items.len();
                let mut irest = items;
                let mut idone: Vec<ProductItem> = Vec::new();
                assert(i0.skip(0) =~= i0);
                assert(i0.take(0) =~= Seq::<ProductItem>::empty());
                for j in 0..m_items
                    invariant
                        m_items == i0.len(),
                        irest@ == i0.skip(j as int),
                        pis_rolled(i0.take(j as int), idone@),
                        (minutes, opt_view(updated)) == pis_totals(acc0, i0.take(j as int)),
                {
                    let y0 = irest.remove(0);
                    assert(y0 == i0[j as int]);
                    assert(irest@ =~= i0.skip(j + 1));
                    assert(i0.take(j + 1).drop_last() =~= i0.take(j as int));
                    let ghost ib = idone@;
                    let (y, m, u) = rollup_pi(y0);
                    minutes = minutes.wrapping_add(m);
                    updated = later(updated, u);
                    idone.push(y);
                    assert(idone@.drop_last() =~= ib);
                }
                assert(i0.take(m_items as int) =~= i0);
                done.push(ProductChild::Shelf(Shelf { slug: sslug, order, title: stitle, items: idone }));
                assert(done@.drop_last() =~= before);
            },
        }
    }
    assert(s0.take(n as int) =~= s0);
    Product { slug, path, title, monogram, color, description, reading_minutes: minutes, updated, inline_refs, children: done }
}


/// Every product totalled, position by position.
pub open spec fn products_rolled(s: Seq<Product>, t: Seq<Product>) -> bool {
    s.len() == t.len() && forall|i: int| 0 <= i < s.len() ==> product_rolled(#[trigger] s[i], t[i])
}

/// Totals every product of a site.
pub fn rollup_products(products: Vec<Product>) -> (r: Vec<Product>)
    ensures
        products_rolled(products@, r@),
{
    let ghost s0 = products@;
    let n = products.len();
    let mut rest = products;
    let mut done: Vec<Product> = Vec::new();
    assert(s0.skip(0) =~= s0);
    for k in 0..n
        invariant
            n == s0.len(),
            rest@ == s0.skip(k as int),
            done@.len() == k,
            forall|i: int| 0 <= i < k ==> product_rolled(#[trigger] s0[i], done@[i]),
    {
        let x = rest.remove(0);
        assert(x == s0[k as int]);
        assert(rest@ =~= s0.skip(k + 1));
        done.push(rollup_product(x));
    }
    done
}


proof fn lemma_wadd_facts(a: u32, b: u32, c: u32)
    ensures
        wadd(wadd(a, b), c) == wadd(a, wadd(b, c)),
        wadd(0, a) == a,
        wadd(a, 0) == a,
{
}

proof fn lemma_lex_antisym(a: Seq<char>, b: Seq<char>)
    requires
        crate::validate::lex_le(a, b),
        crate::validate::lex_le(b, a),
    ensures
        a == b,
    decreases a.len(),
{
    if a.len() > 0 && b.len() > 0 {
        lemma_lex_antisym(a.drop_first(), b.drop_first());
        assert(a =~= seq![a[0]] + a.drop_first());
        assert(b =~= seq![b[0]] + b.drop_first());
    } else {
        assert(a =~= b);
    }
}

proof fn lemma_later_facts(a: Option<Seq<char>>, b: Option<Seq<char>>, c: Option<Seq<char>>)
    ensures
        later_of(later_of(a, b), c) == later_of(a, later_of(b, c)),
        later_of(None, a) == a,
        later_of(a, None) == a,
{
    if a is Some && b is Some && c is Some {
        let (x, y, z) = (a->Some_0, b->Some_0, c->Some_0);
        crate::validate::lemma_lex_total(x, y);
        crate::validate::lemma_lex_total(y, z);
        crate::validate::lemma_lex_total(x, z);
        if crate::validate::lex_le(x, y) && crate::validate::lex_le(y, z) {
            crate::validate::lemma_lex_trans(x, y, z);
        }
        if crate::validate::lex_le(z, y) && crate::validate::lex_le(y, x) {
            crate::validate::lemma_lex_trans(z, y, x);
        }
        if crate::validate::lex_le(x, y) && crate::validate::lex_le(y, x) {
            lemma_lex_antisym(x, y);
        }
        if crate::validate::lex_le(y, z) && crate::validate::lex_le(z, y) {
            lemma_lex_antisym(y, z);
        }
        if crate::validate::lex_le(x, z) && crate::validate::lex_le(z, x) {
            lemma_lex_antisym(x, z);
        }
    }
}

/// The totals of two runs of articles put together.
proof fn lemma_articles_concat(x: Seq<Article>, y: Seq<Article>)
    ensures
        articles_minutes(x + y) == wadd(articles_minutes(x), articles_minutes(y)),
        articles_updated(x + y) == later_of(articles_updated(x), articles_updated(y)),
    decreases y.len(),
{
    if y.len() == 0 {
        assert(x + y =~= x);
        lemma_wadd_facts(articles_minutes(x), 0, 0);
        lemma_later_facts(articles_updated(x), None, None);
    } else {
        lemma_articles_concat(x, y.drop_last());
        assert((x + y).drop_last() =~= x + y.drop_last());
        assert((x + y).last() == y.last());
        lemma_wadd_facts(articles_minutes(x), articles_minutes(y.drop_last()), y.last().reading_minutes);
        lemma_later_facts(articles_updated(x), articles_updated(y.drop_last()), opt_view(y.last().updated));
    }
}

proof fn lemma_one_article(a: Article)
    ensures
        articles_minutes(seq![a]) == a.reading_minutes,
        articles_updated(seq![a]) == opt_view(a.updated),
{
    assert(seq![a].drop_last() =~= Seq::<Article>::empty());
    assert(seq![a].last() == a);
    assert(articles_minutes(seq![a].drop_last()) == 0);
    assert(articles_updated(seq![a].drop_last()) is None);
    lemma_wadd_facts(a.reading_minutes, 0, 0);
    lemma_later_facts(opt_view(a.updated), None, None);
}

/// A topic level's totals are those of its pages in reading order.
proof fn lemma_topic_children_pages(s: Seq<TopicChild>)
    ensures
        tchildren_minutes(s) == articles_minutes(crate::site::topic_pages(s)),
        tchildren_updated(s) == articles_updated(crate::site::topic_pages(s)),
    decreases s.len(),
{
    if s.len() > 0 {
        lemma_topic_children_pages(s.drop_last());
        let before = crate::site::topic_pages(s.drop_last());
        let last = crate::site::topic_child_pages(s.last());
        lemma_articles_concat(before, last);
        match s.last() {
            TopicChild::Article { article } => lemma_one_article(article),
            TopicChild::Folder { folder } => {},
        }
    }
}

/// The articles of a book walk.
pub open spec fn walk_articles(w: Seq<(Seq<Chapter>, Article)>) -> Seq<Article> {
    w.map_values(|e: (Seq<Chapter>, Article)| e.1)
}

/// A book level's totals are those of its articles in reading order.
proof fn lemma_book_children_walk(s: Seq<BookChild>, trail: Seq<Chapter>)
    ensures
        bc_minutes(s) == articles_minutes(walk_articles(crate::site::book_walk(s, trail))),
        bc_updated(s) == articles_updated(walk_articles(crate::site::book_walk(s, trail))),
    decreases s,
{
    if s.len() > 0 {
        lemma_book_children_walk(s.drop_last(), trail);
        let before = crate::site::book_walk(s.drop_last(), trail);
        match s.last() {
            BookChild::Article { article } => {
                assert(walk_articles(crate::site::book_walk(s, trail)) =~= walk_articles(before) + seq![article]);
                lemma_articles_concat(walk_articles(before), seq![article]);
                lemma_one_article(article);
            },
            BookChild::Chapter { chapter } => {
                lemma_book_children_walk(chapter.children@, trail.push(chapter));
                let inner = crate::site::book_walk(chapter.children@, trail.push(chapter));
                assert(walk_articles(crate::site::book_walk(s, trail)) =~= walk_articles(before) + walk_articles(inner));
                lemma_articles_concat(walk_articles(before), walk_articles(inner));
            },
        }
    }
}

/// A rolled-up topic's reading minutes are the (wrapping) sum of its
/// pages' minutes, and its date the latest of theirs, subfolders included.
pub proof fn law_topic_totals_are_sums_over_pages(t: Topic, u: Topic)
    requires
        topic_rolled(t, u),
    ensures
        u.reading_minutes == articles_minutes(crate::site::topic_pages(t.children@)),
        opt_view(u.updated) == articles_updated(crate::site::topic_pages(t.children@)),
{
    lemma_topic_children_pages(t.children@);
}

/// A rolled-up book's reading minutes are the (wrapping) sum of its
/// articles' minutes in reading order, chapters included, and its date the
/// latest of theirs.
pub proof fn law_book_totals_are_sums_over_articles(b: Book, c: Book)
    requires
        book_rolled(b, c),
    ensures
        c.reading_minutes == articles_minutes(walk_articles(crate::site::book_walk(b.children@, Seq::empty()))),
        opt_view(c.updated) == articles_updated(walk_articles(crate::site::book_walk(b.children@, Seq::empty()))),
{
    lemma_book_children_walk(b.children@, Seq::empty());
}

/// The articles of two runs of topics and books put together.
proof fn lemma_leaves_concat(x: Seq<Leaf>, y: Seq<Leaf>)
    ensures
        leaves_articles(x + y) == leaves_articles(x) + leaves_articles(y),
    decreases y.len(),
{
    if y.len() == 0 {
        assert(x + y =~= x);
        assert(leaves_articles(x) + leaves_articles(y) =~= leaves_articles(x));
    } else {
        lemma_leaves_concat(x, y.drop_last());
        assert((x + y).drop_last() =~= x + y.drop_last());
        assert((x + y).last() == y.last());
        assert(leaves_articles(x) + leaves_articles(y.drop_last()) + leaf_articles(y.last())
            =~= leaves_articles(x) + leaves_articles(y));
    }
}

proof fn lemma_one_leaf(l: Leaf)
    ensures
        leaves_articles(seq![l]) == leaf_articles(l),
{
    assert(seq![l].drop_last() =~= Seq::<Leaf>::empty());
    assert(seq![l].last() == l);
    assert(leaves_articles(Seq::<Leaf>::empty()) == Seq::<Article>::empty());
    assert(leaves_articles(seq![l]) == leaves_articles(seq![l].drop_last()) + leaf_articles(seq![l].last()));
    assert(Seq::<Article>::empty() + leaf_articles(l) =~= leaf_articles(l));
}

/// An anthology item's totals are those of the articles beneath it.
proof fn lemma_ai_articles(i: AnthologyItem)
    ensures
        ai_minutes(i) == articles_minutes(leaves_articles(aitem_leaves(i))),
        ai_updated(i) == articles_updated(leaves_articles(aitem_leaves(i))),
    decreases i,
{
    match i {
        AnthologyItem::Topic { topic } => {
            lemma_one_leaf(Leaf::Topic(topic));
            lemma_topic_children_pages(topic.children@);
        },
        AnthologyItem::Book { book } => {
            lemma_one_leaf(Leaf::Book(book));
            lemma_book_children_walk(book.children@, Seq::empty());
        },
        AnthologyItem::Anthology { anthology } => {
            assert(decreases_to!(i => anthology));
            assert(decreases_to!(anthology => anthology.children));
            assert(decreases_to!(anthology.children => anthology.children@));
            lemma_ac_articles(anthology.children@);
        },
    }
}

proof fn lemma_ais_articles(acc_m: u32, acc_u: Option<Seq<char>>, s: Seq<AnthologyItem>)
    ensures
        ais_minutes(acc_m, s) == wadd(acc_m, articles_minutes(leaves_articles(aitems_leaves(s)))),
        ais_updated(acc_u, s) == later_of(acc_u, articles_updated(leaves_articles(aitems_leaves(s)))),
    decreases s,
{
    if s.len() == 0 {
        lemma_wadd_facts(acc_m, 0, 0);
        lemma_later_facts(acc_u, None, None);
    } else {
        lemma_ais_articles(acc_m, acc_u, s.drop_last());
        assert(decreases_to!(s => s[s.len() - 1]));
        lemma_ai_articles(s[s.len() - 1]);
        let a = leaves_articles(aitems_leaves(s.drop_last()));
        let b = leaves_articles(aitem_leaves(s.last()));
        lemma_leaves_concat(aitems_leaves(s.drop_last()), aitem_leaves(s.last()));
        lemma_articles_concat(a, b);
        lemma_wadd_facts(acc_m, articles_minutes(a), articles_minutes(b));
        lemma_later_facts(acc_u, articles_updated(a), articles_updated(b));
    }
}

proof fn lemma_ac_articles(s: Seq<AnthologyChild>)
    ensures
        ac_minutes(s) == articles_minutes(leaves_articles(achildren_leaves(s))),
        ac_updated(s) == articles_updated(leaves_articles(achildren_leaves(s))),
    decreases s,
{
    if s.len() > 0 {
        lemma_ac_articles(s.drop_last());
        let before = achildren_leaves(s.drop_last());
        assert(decreases_to!(s => s[s.len() - 1]));
        match s[s.len() - 1] {
            AnthologyChild::Item(i) => {
                lemma_ai_articles(i);
                lemma_leaves_concat(before, aitem_leaves(i));
                lemma_articles_concat(leaves_articles(before), leaves_articles(aitem_leaves(i)));
            },
            AnthologyChild::Shelf(sh) => {
                assert(decreases_to!(s[s.len() - 1] => sh));
                assert(decreases_to!(sh => sh.items));
                assert(decreases_to!(sh.items => sh.items@));
                lemma_ais_articles(ac_minutes(s.drop_last()), ac_updated(s.drop_last()), sh.items@);
                lemma_leaves_concat(before, aitems_leaves(sh.items@));
                lemma_articles_concat(leaves_articles(before), leaves_articles(aitems_leaves(sh.items@)));
            },
        }
    }
}

/// A product item's totals are those of the articles beneath it.
proof fn lemma_pi_articles(i: ProductItem)
    ensures
        pi_totals(i) == (articles_minutes(leaves_articles(pitem_leaves(i))), articles_updated(leaves_articles(pitem_leaves(i)))),
{
    match i {
        ProductItem::Topic { topic } => {
            lemma_one_leaf(Leaf::Topic(topic));
            lemma_topic_children_pages(topic.children@);
        },
        ProductItem::Book { book } => {
            lemma_one_leaf(Leaf::Book(book));
            lemma_book_children_walk(book.children@, Seq::empty());
        },
        ProductItem::Anthology { anthology } => lemma_ac_articles(anthology.children@),
    }
}

proof fn lemma_pis_articles(acc: (u32, Option<Seq<char>>), s: Seq<ProductItem>)
    ensures
        pis_totals(acc, s) == (wadd(acc.0, articles_minutes(leaves_articles(pitems_leaves(s)))),
            later_of(acc.1, articles_updated(leaves_articles(pitems_leaves(s))))),
    decreases s.len(),
{
    if s.len() == 0 {
        lemma_wadd_facts(acc.0, 0, 0);
        lemma_later_facts(acc.1, None, None);
    } else {
        lemma_pis_articles(acc, s.drop_last());
        lemma_pi_articles(s.last());
        let a = leaves_articles(pitems_leaves(s.drop_last()));
        let b = leaves_articles(pitem_leaves(s.last()));
        lemma_leaves_concat(pitems_leaves(s.drop_last()), pitem_leaves(s.last()));
        lemma_articles_concat(a, b);
        lemma_wadd_facts(acc.0, articles_minutes(a), articles_minutes(b));
        lemma_later_facts(acc.1, articles_updated(a), articles_updated(b));
    }
}

proof fn lemma_pc_articles(s: Seq<ProductChild>)
    ensures
        pc_totals(s) == (articles_minutes(leaves_articles(pchildren_leaves(s))),
            articles_updated(leaves_articles(pchildren_leaves(s)))),
    decreases s.len(),
{
    if s.len() > 0 {
        lemma_pc_articles(s.drop_last());
        let before = pchildren_leaves(s.drop_last());
        match s.last() {
            ProductChild::Item(i) => {
                lemma_pi_articles(i);
                lemma_leaves_concat(before, pitem_leaves(i));
                lemma_articles_concat(leaves_articles(before), leaves_articles(pitem_leaves(i)));
            },
            ProductChild::Shelf(sh) => {
                lemma_pis_articles(pc_totals(s.drop_last()), sh.items@);
                lemma_leaves_concat(before, pitems_leaves(sh.items@));
                lemma_articles_concat(leaves_articles(before), leaves_articles(pitems_leaves(sh.items@)));
            },
        }
    }
}

/// A rolled-up anthology's reading minutes are the (wrapping) sum of the
/// minutes of every article beneath it, in order: its topics' pages, its
/// books' articles and its nested anthologies', shelves looked through;
/// its date is the latest of theirs.
pub proof fn law_anthology_totals_are_sums_over_articles(a: Anthology, n: Anthology)
    requires
        ai_rolled(AnthologyItem::Anthology { anthology: a }, AnthologyItem::Anthology { anthology: n }),
    ensures
        n.reading_minutes == articles_minutes(leaves_articles(achildren_leaves(a.children@))),
        opt_view(n.updated) == articles_updated(leaves_articles(achildren_leaves(a.children@))),
{
    lemma_ac_articles(a.children@);
}

/// A rolled-up product's reading minutes are the (wrapping) sum of the
/// minutes of every article beneath it, in order, shelves looked
/// through; its date is the latest of theirs.
pub proof fn law_product_totals_are_sums_over_articles(p: Product, q: Product)
    requires
        product_rolled(p, q),
    ensures
        q.reading_minutes == articles_minutes(leaves_articles(pchildren_leaves(p.children@))),
        opt_view(q.updated) == articles_updated(leaves_articles(pchildren_leaves(p.children@))),
{
    lemma_pc_articles(p.children@);
}


/// A rolled-up chapter, at any depth of a book level, holds the (wrapping)
/// sum of the minutes of the articles beneath it in reading order, nested
/// chapters included, and the latest of their dates.
pub proof fn law_chapter_totals_are_sums_over_articles(s: Seq<BookChild>, t: Seq<BookChild>, k: int)
    requires
        bc_rolled(s, t),
        0 <= k < s.len(),
        s[k] is Chapter,
    ensures
        t[k] matches BookChild::Chapter { chapter: d }
            && d.reading_minutes == articles_minutes(walk_articles(crate::site::book_walk(s[k]->chapter.children@, Seq::empty())))
            && opt_view(d.updated) == articles_updated(walk_articles(crate::site::book_walk(s[k]->chapter.children@, Seq::empty()))),
    decreases s.len(),
{
    if k < s.len() - 1 {
        assert(s.drop_last()[k] == s[k]);
        assert(t.drop_last()[k] == t[k]);
        law_chapter_totals_are_sums_over_articles(s.drop_last(), t.drop_last(), k);
    } else {
        assert(s.last() == s[k]);
        assert(t.last() == t[k]);
        lemma_book_children_walk(s[k]->chapter.children@, Seq::empty());
    }
}


/// The latest date of a run of articles is present exactly when some
/// article carries a date, is one of their dates, and no article's date
/// sorts after it.
pub proof fn law_latest_date_bounds_every_article(s: Seq<Article>)
    ensures
        articles_updated(s) is None <==> forall|k: int| 0 <= k < s.len() ==> (#[trigger] s[k]).updated is None,
        articles_updated(s) matches Some(r) ==> exists|k: int| 0 <= k < s.len() && opt_view((#[trigger] s[k]).updated) == Some(r),
        forall|k: int| 0 <= k < s.len() ==> ((#[trigger] s[k]).updated matches Some(d) ==>
            (articles_updated(s) matches Some(r) && crate::validate::lex_le(d@, r))),
    decreases s.len(),
{
    if s.len() > 0 {
        let rest = s.drop_last();
        law_latest_date_bounds_every_article(rest);
        let before = articles_updated(rest);
        let last = opt_view(s.last().updated);
        crate::validate::law_later_is_the_latest(before, last);
        assert(s.last() == s[s.len() - 1]);
        assert forall|k: int| 0 <= k < rest.len() implies #[trigger] rest[k] == s[k] by {}
        if articles_updated(s) is None {
            assert forall|k: int| 0 <= k < s.len() implies (#[trigger] s[k]).updated is None by {
                if k < rest.len() {
                    assert(rest[k] == s[k]);
                }
            }
        }
        if articles_updated(s) is Some {
            let r = articles_updated(s)->Some_0;
            if last == Some(r) {
                assert(opt_view(s[s.len() - 1].updated) == Some(r));
            } else {
                let k = choose|k: int| 0 <= k < rest.len() && opt_view((#[trigger] rest[k]).updated) == Some(r);
                assert(rest[k] == s[k]);
            }
        }
        assert forall|k: int| 0 <= k < s.len() implies ((#[trigger] s[k]).updated matches Some(d) ==>
            (articles_updated(s) matches Some(r) && crate::validate::lex_le(d@, r))) by {
            if s[k].updated is Some {
                let d = s[k].updated->Some_0;
                let r = articles_updated(s)->Some_0;
                if k < rest.len() {
                    assert(rest[k] == s[k]);
                    let q = before->Some_0;
                    crate::validate::lemma_lex_trans(d@, q, r);
                }
            }
        }
    }
}

/// A rolled-up topic's date is the latest of its pages': no page's date,
/// subfolders included, sorts after it.
pub proof fn law_topic_date_is_no_earlier_than_any_page(t: Topic, u: Topic)
    requires
        topic_rolled(t, u),
    ensures
        forall|k: int| 0 <= k < crate::site::topic_pages(t.children@).len() ==>
            ((#[trigger] crate::site::topic_pages(t.children@)[k]).updated matches Some(d) ==>
                (u.updated matches Some(r) && crate::validate::lex_le(d@, r@))),
{
    law_topic_totals_are_sums_over_pages(t, u);
    law_latest_date_bounds_every_article(crate::site::topic_pages(t.children@));
}

/// A rolled-up book's date is no earlier than any of its articles',
/// chapters included.
pub proof fn law_book_date_is_no_earlier_than_any_article(b: Book, c: Book)
    requires
        book_rolled(b, c),
    ensures
        forall|k: int| 0 <= k < walk_articles(crate::site::book_walk(b.children@, Seq::empty())).len() ==>
            ((#[trigger] walk_articles(crate::site::book_walk(b.children@, Seq::empty()))[k]).updated matches Some(d) ==>
                (c.updated matches Some(r) && crate::validate::lex_le(d@, r@))),
{
    law_book_totals_are_sums_over_articles(b, c);
    law_latest_date_bounds_every_article(walk_articles(crate::site::book_walk(b.children@, Seq::empty())));
}

/// A rolled-up anthology's date is no earlier than that of any article
/// beneath it.
pub proof fn law_anthology_date_is_no_earlier_than_any_article(a: Anthology, n: Anthology)
    requires
        ai_rolled(AnthologyItem::Anthology { anthology: a }, AnthologyItem::Anthology { anthology: n }),
    ensures
        forall|k: int| 0 <= k < leaves_articles(achildren_leaves(a.children@)).len() ==>
            ((#[trigger] leaves_articles(achildren_leaves(a.children@))[k]).updated matches Some(d) ==>
                (n.updated matches Some(r) && crate::validate::lex_le(d@, r@))),
{
    law_anthology_totals_are_sums_over_articles(a, n);
    law_latest_date_bounds_every_article(leaves_articles(achildren_leaves(a.children@)));
}

/// A rolled-up product's date is no earlier than that of any article
/// beneath it.
pub proof fn law_product_date_is_no_earlier_than_any_article(p: Product, q: Product)
    requires
        product_rolled(p, q),
    ensures
        forall|k: int| 0 <= k < leaves_articles(pchildren_leaves(p.children@)).len() ==>
            ((#[trigger] leaves_articles(pchildren_leaves(p.children@))[k]).updated matches Some(d) ==>
                (q.updated matches Some(r) && crate::validate::lex_le(d@, r@))),
{
    law_product_totals_are_sums_over_articles(p, q);
    law_latest_date_bounds_every_article(leaves_articles(pchildren_leaves(p.children@)));
}

} // verus!
