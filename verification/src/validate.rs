//! The naming rules of the content tree: slugs, order prefixes, colors,
//! dates, derived titles and appendix letters.
use vstd::prelude::*;
use crate::text::{
    char_from_ascii, char_is_digit, char_is_hex, char_is_lower, char_is_space, char_lower, chars_eq,
    chars_of, decimal, find_last, find_pair, first_pair, is_digit, is_hex, is_lower, is_space,
    last_index, lemma_first_pair_bounds, lemma_last_index_bounds, lower, owned, parse_u32,
    parses_u32, push_chars, push_decimal, push_str, slice_string, slice_vec,
};

verus! {

/// A character allowed in a slug: ASCII lowercase, digit or hyphen.
pub open spec fn slug_char(c: char) -> bool {
    is_lower(c) || is_digit(c) || c == '-'
}

/// Lowercase kebab-case: non-empty, slug characters only, no leading or
/// trailing hyphen.
pub open spec fn kebab(s: Seq<char>) -> bool {
    &&& s.len() > 0
    &&& s[0] != '-'
    &&& s.last() != '-'
    &&& forall|i: int| 0 <= i < s.len() ==> slug_char(s[i])
}

/// The reserved slug: every container owns a `/print` page.
pub open spec fn print_word() -> Seq<char> {
    seq!['p', 'r', 'i', 'n', 't']
}

/// A valid slug: kebab-case and not the reserved `print`.
pub open spec fn valid_slug(s: Seq<char>) -> bool {
    kebab(s) && s != print_word()
}

/// Checks a slug. The error says which rule it breaks.
pub fn validate_slug(slug: &str) -> (r: Result<(), String>)
    ensures
        r is Ok <==> valid_slug(slug@),
{
    let s = chars_of(slug);
    let mut ok = s.len() > 0 && s[0] != '-' && s[s.len() - 1] != '-';
    if ok {
        for i in 0..s.len()
            invariant
                s@ == slug@,
                ok ==> forall|j: int| 0 <= j < i ==> slug_char(s@[j]),
                !ok ==> !kebab(s@),
        {
            let c = s[i];
            if !(char_is_lower(c) || char_is_digit(c) || c == '-') {
                ok = false;
            }
        }
    }
    if !ok {
        let mut m = String::new();
        push_str(&mut m, "'");
        push_str(&mut m, slug);
        push_str(&mut m, "' is not a valid slug (lowercase kebab-case)");
        return Err(m);
    }
    let print = ['p', 'r', 'i', 'n', 't'];
    assert(print@ =~= print_word());
    if chars_eq(s.as_slice(), &print) {
        return Err(owned("'print' is a reserved slug (every section has a /print page)"));
    }
    Ok(())
}

/// A `#rrggbb` hex color.
pub open spec fn valid_color(s: Seq<char>) -> bool {
    s.len() == 7 && s[0] == '#' && forall|i: int| 1 <= i < 7 ==> is_hex(s[i])
}

/// Checks a color value.
pub fn validate_color(color: &str) -> (r: Result<(), String>)
    ensures
        r is Ok <==> valid_color(color@),
{
    let s = chars_of(color);
    let mut ok = s.len() == 7 && s[0] == '#';
    if ok {
        for i in 1..7
            invariant
                s@ == color@,
                s@.len() == 7,
                ok ==> forall|j: int| 1 <= j < i ==> is_hex(s@[j]),
                !ok ==> !valid_color(s@),
        {
            if !char_is_hex(s[i]) {
                ok = false;
            }
        }
    }
    if ok {
        Ok(())
    } else {
        let mut m = String::new();
        push_str(&mut m, "color '");
        push_str(&mut m, color);
        push_str(&mut m, "' is not a #rrggbb hex color");
        Err(m)
    }
}

/// The value of a two-digit field.
pub open spec fn two_digits(a: char, b: char) -> nat {
    ((a as u32 - 48) * 10 + (b as u32 - 48)) as nat
}

/// An ISO `YYYY-MM-DD` date: three dash-separated digit fields of four,
/// two and two digits, the month 1–12 and the day 1–31.
pub open spec fn valid_date(s: Seq<char>) -> bool {
    &&& s.len() == 10
    &&& s[4] == '-' && s[7] == '-'
    &&& forall|i: int| 0 <= i < 10 && i != 4 && i != 7 ==> is_digit(s[i])
    &&& 1 <= two_digits(s[5], s[6]) <= 12
    &&& 1 <= two_digits(s[8], s[9]) <= 31
}

/// Checks an `updated:` date.
pub fn validate_date(date: &str) -> (r: Result<(), String>)
    ensures
        r is Ok <==> valid_date(date@),
{
    let s = chars_of(date);
    let mut ok = s.len() == 10 && s[4] == '-' && s[7] == '-';
    if ok {
        for i in 0..10
            invariant
                s@ == date@,
                s@.len() == 10,
                ok ==> forall|j: int| 0 <= j < i && j != 4 && j != 7 ==> is_digit(s@[j]),
                !ok ==> !valid_date(s@),
        {
            if i != 4 && i != 7 && !char_is_digit(s[i]) {
                ok = false;
            }
        }
    }
    if ok {
        let month = (s[5] as u32 - 48) * 10 + (s[6] as u32 - 48);
        let day = (s[8] as u32 - 48) * 10 + (s[9] as u32 - 48);
        ok = 1 <= month && month <= 12 && 1 <= day && day <= 31;
    }
    if ok {
        Ok(())
    } else {
        let mut m = String::new();
        push_str(&mut m, "updated: '");
        push_str(&mut m, date);
        push_str(&mut m, "' is not an ISO date (expected YYYY-MM-DD)");
        Err(m)
    }
}

/// Appendix letters, bijective base 26: 1 → "A", 26 → "Z", 27 → "AA".
pub open spec fn letters(n: nat) -> Seq<char>
    decreases n,
{
    if n == 0 {
        Seq::empty()
    } else {
        letters(((n - 1) / 26) as nat).push((65 + (n - 1) % 26) as char)
    }
}

/// The appendix letters of an order (`a1` → "A", `a27` → "AA").
pub fn appendix_letters(n: u32) -> (s: String)
    ensures
        s@ == letters(n as nat),
    decreases n,
{
    if n == 0 {
        return String::new();
    }
    let mut s = appendix_letters((n - 1) / 26);
    let c = char_from_ascii(65 + (n - 1) % 26);
    s.push(c);
    s
}

/// Distinct orders never share appendix letters.
pub proof fn lemma_letters_injective(a: nat, b: nat)
    requires
        letters(a) == letters(b),
    ensures
        a == b,
    decreases a,
{
    if a != 0 && b != 0 {
        let la = letters(a);
        let lb = letters(b);
        assert(la.last() == lb.last());
        assert(la.drop_last() =~= letters(((a - 1) / 26) as nat));
        assert(lb.drop_last() =~= letters(((b - 1) / 26) as nat));
        lemma_letters_injective(((a - 1) / 26) as nat, ((b - 1) / 26) as nat);
        assert(((65 + (a - 1) % 26) as char) as u32 == 65 + (a - 1) % 26);
        assert(((65 + (b - 1) % 26) as char) as u32 == 65 + (b - 1) % 26);
    } else if a == 0 && b != 0 {
        assert(letters(b).len() > 0);
    } else if a != 0 && b == 0 {
        assert(letters(a).len() > 0);
    }
}

/// The order a run of appendix letters stands for, bijective base 26.
pub open spec fn letters_value(s: Seq<char>) -> nat
    decreases s.len(),
{
    if s.len() == 0 {
        0
    } else {
        letters_value(s.drop_last()) * 26 + ((s.last() as u32) - 64) as nat
    }
}

/// Every non-empty run of capital letters is the appendix label of an
/// order; with `lemma_letters_injective`, of exactly one.
pub proof fn law_every_label_has_an_order(s: Seq<char>)
    requires
        forall|i: int| 0 <= i < s.len() ==> crate::text::is_upper(#[trigger] s[i]),
    ensures
        letters(letters_value(s)) == s,
        s.len() > 0 ==> letters_value(s) >= 1,
    decreases s.len(),
{
    if s.len() > 0 {
        let p = s.drop_last();
        assert forall|i: int| 0 <= i < p.len() implies crate::text::is_upper(#[trigger] p[i]) by {
            assert(p[i] == s[i]);
        }
        law_every_label_has_an_order(p);
        let v = letters_value(p);
        let c = s.last();
        assert(crate::text::is_upper(s[s.len() - 1]));
        let d: nat = ((c as u32) - 64) as nat;
        assert(1 <= d <= 26);
        let n = v * 26 + d;
        assert(letters_value(s) == n);
        assert((n - 1) / 26 == v && (n - 1) % 26 == d - 1) by (nonlinear_arith)
            requires
                n == v * 26 + d,
                1 <= d <= 26,
        ;
        assert(((65 + (n - 1) % 26) as char) == c);
        assert(letters(n) =~= s);
    }
}

/// The words of a slug, each capitalised, joined with single spaces:
/// "the-two-gates" → "The Two Gates". Hyphen runs separate words and
/// never produce empty ones.
pub open spec fn slug_title(s: Seq<char>) -> Seq<char>
    decreases s.len(),
{
    if s.len() == 0 {
        Seq::empty()
    } else {
        let t = slug_title(s.drop_last());
        let c = s.last();
        if c == '-' {
            t
        } else if s.len() == 1 || s[s.len() - 2] == '-' {
            (if t.len() > 0 { t.push(' ') } else { t }) + char_upper(c)
        } else {
            t.push(c)
        }
    }
}

/// What `char::to_uppercase` yields for a character.
pub uninterp spec fn char_upper(c: char) -> Seq<char>;

/// The uppercase mapping of one character, from `char::to_uppercase`:
/// the full Unicode mapping, stated here only for ASCII, where it maps
/// `a`–`z` to `A`–`Z` and leaves every other character as it is.
#[verifier::external_body]
fn to_upper(c: char) -> (r: String)
    ensures
        r@ == char_upper(c),
        is_lower(c) ==> r@ == seq![((c as u32) - 32) as char],
        (c as u32) < 128 && !is_lower(c) ==> r@ == seq![c],
{
    c.to_uppercase().collect()
}

/// "the-two-gates" → "The Two Gates".
pub fn title_from_slug(slug: &str) -> (r: String)
    ensures
        r@ == slug_title(slug@),
{
    let s = chars_of(slug);
    let mut out = String::new();
    let mut started = false;
    for i in 0..s.len()
        invariant
            s@ == slug@,
            out@ == slug_title(s@.take(i as int)),
            started == (out@.len() > 0),
    {
        let c = s[i];
        let ghost pre = s@.take(i as int);
        assert(s@.take(i + 1).drop_last() =~= pre);
        if c == '-' {
        } else if i == 0 || s[i - 1] == '-' {
            if started {
                out.push(' ');
            }
            let up = to_upper(c);
            let upc = chars_of(up.as_str());
            push_chars(&mut out, upc.as_slice());
            if upc.len() > 0 {
                started = true;
            }
        } else {
            out.push(c);
            started = true;
        }
    }
    assert(s@.take(s.len() as int) =~= s@);
    out
}


/// A book entry's order token: digits ("3"), or an appendix marker
/// ("a2") whose number starts at 1. Yields (appendix, order).
pub open spec fn book_order(token: Seq<char>) -> Option<(bool, u32)> {
    if token.len() > 0 && token[0] == 'a' {
        match parses_u32(token.drop_first()) {
            Some(n) => if n >= 1 { Some((true, n)) } else { None },
            None => None,
        }
    } else {
        match parses_u32(token) {
            Some(n) => Some((false, n)),
            None => None,
        }
    }
}

/// Parses a book child's order token; `what` and `entry_name` name the
/// entry in the error.
pub fn parse_book_order(token: &str, what: &str, entry_name: &str) -> (r: Result<(bool, u32), String>)
    ensures
        r matches Ok(v) ==> book_order(token@) == Some(v),
        r is Err ==> book_order(token@) is None,
{
    let t = chars_of(token);
    if t.len() > 0 && t[0] == 'a' {
        let rest = slice_vec(t.as_slice(), 1, t.len());
        assert(rest@ =~= token@.drop_first());
        match parse_u32(rest.as_slice()) {
            Some(n) => {
                if n >= 1 {
                    Ok((true, n))
                } else {
                    let mut m = owned(what);
                    push_str(&mut m, " '");
                    push_str(&mut m, entry_name);
                    push_str(&mut m, "': appendix orders start at 'a1'");
                    Err(m)
                }
            },
            None => {
                let mut m = owned(what);
                push_str(&mut m, " '");
                push_str(&mut m, entry_name);
                push_str(&mut m, "' has a malformed appendix order prefix");
                Err(m)
            },
        }
    } else {
        match parse_u32(t.as_slice()) {
            Some(n) => Ok((false, n)),
            None => {
                let mut m = owned(what);
                push_str(&mut m, " '");
                push_str(&mut m, entry_name);
                push_str(&mut m, "' has a non-numeric order prefix");
                Err(m)
            },
        }
    }
}

/// The order prefix as authored: "3", or "a1" for an appendix.
pub open spec fn order_label(appendix: bool, order: u32) -> Seq<char> {
    if appendix { seq!['a'] + decimal(order as nat) } else { decimal(order as nat) }
}

/// A parsed grouping directory name: `<order>--<slug>.<kind>`.
pub struct GroupingName {
    pub order: u32,
    pub slug: String,
    pub kind: String,
}

/// The parts of `<order>--<slug>.<kind>`: the last dot splits off the
/// kind, the first `--` splits the order from the slug.
pub open spec fn grouping_parts(name: Seq<char>) -> Option<(Seq<char>, Seq<char>, Seq<char>)> {
    match last_index(name, '.') {
        None => None,
        Some(dot) => {
            let stem = name.take(dot);
            match first_pair(stem, '-', '-') {
                None => None,
                Some(d) => Some((stem.take(d), stem.skip(d + 2), name.skip(dot + 1))),
            }
        },
    }
}

/// When a grouping directory name is well formed: it has a type suffix,
/// an order prefix, a numeric order and a valid slug.
pub open spec fn grouping_name_ok(name: Seq<char>) -> bool {
    match grouping_parts(name) {
        Some((order, slug, _)) => parses_u32(order) is Some && valid_slug(slug),
        None => false,
    }
}

/// Parses a grouping directory name: `<order>--<slug>.<kind>`.
pub fn parse_grouping_name(name: &str) -> (r: Result<GroupingName, String>)
    ensures
        r is Ok <==> grouping_name_ok(name@),
        r matches Ok(g) ==> grouping_parts(name@) matches Some((order, slug, kind))
            && parses_u32(order) == Some(g.order) && g.slug@ == slug && g.kind@ == kind,
        last_index(name@, '.') is None ==> (r matches Err(m)
            && m@ == "grouping directory '"@ + name@ + "' has no type suffix (expected e.g. '.antho')"@),
{
    let s = chars_of(name);
    let dot = match find_last(s.as_slice(), '.') {
        Some(d) => d,
        None => {
            let mut m = owned("grouping directory '");
            push_str(&mut m, name);
            push_str(&mut m, "' has no type suffix (expected e.g. '.antho')");
            assert(m@ =~= "grouping directory '"@ + name@ + "' has no type suffix (expected e.g. '.antho')"@);
            return Err(m);
        },
    };
    proof { lemma_last_index_bounds(s@, '.'); }
    let stem = slice_vec(s.as_slice(), 0, dot);
    assert(stem@ =~= s@.take(dot as int));
    let d = match find_pair(stem.as_slice(), '-', '-') {
        Some(d) => d,
        None => {
            let mut m = owned("grouping directory '");
            push_str(&mut m, name);
            push_str(&mut m, "' is missing its '<order>--' prefix");
            return Err(m);
        },
    };
    proof { lemma_first_pair_bounds(stem@, '-', '-'); }
    let n = s.len();
    assert(dot < n);
    let order_text = slice_vec(stem.as_slice(), 0, d);
    let slug = slice_string(stem.as_slice(), d + 2, stem.len());
    let kind = slice_string(s.as_slice(), dot + 1, n);
    assert(order_text@ =~= stem@.take(d as int));
    assert(slug@ =~= stem@.skip(d + 2));
    assert(kind@ =~= s@.skip(dot + 1));
    let order = match parse_u32(order_text.as_slice()) {
        Some(o) => o,
        None => {
            let mut m = owned("'");
            push_str(&mut m, name);
            push_str(&mut m, "' has a non-numeric order prefix '");
            push_chars(&mut m, order_text.as_slice());
            push_str(&mut m, "'");
            return Err(m);
        },
    };
    match validate_slug(slug.as_str()) {
        Ok(()) => {},
        Err(e) => {
            let mut m = owned("in directory '");
            push_str(&mut m, name);
            push_str(&mut m, "': ");
            push_str(&mut m, e.as_str());
            return Err(m);
        },
    }
    Ok(GroupingName { order, slug, kind })
}

/// The image file extensions recognised beside articles.
pub open spec fn image_extensions() -> Seq<Seq<char>> {
    seq![
        seq!['p', 'n', 'g'],
        seq!['j', 'p', 'g'],
        seq!['j', 'p', 'e', 'g'],
        seq!['g', 'i', 'f'],
        seq!['s', 'v', 'g'],
        seq!['w', 'e', 'b', 'p'],
        seq!['a', 'v', 'i', 'f'],
    ]
}

/// ASCII lowercasing of every character.
pub open spec fn lower_all(s: Seq<char>) -> Seq<char> {
    s.map_values(|c: char| lower(c))
}

/// Whether `ext` is a recognised image extension, exactly as written.
pub fn is_image_extension(ext: &[char]) -> (r: bool)
    ensures
        r == image_extensions().contains(ext@),
{
    let exts = [
        ['p', 'n', 'g', ' '],
        ['j', 'p', 'g', ' '],
        ['j', 'p', 'e', 'g'],
        ['g', 'i', 'f', ' '],
        ['s', 'v', 'g', ' '],
        ['w', 'e', 'b', 'p'],
        ['a', 'v', 'i', 'f'],
    ];
    let lens: [usize; 7] = [3, 3, 4, 3, 3, 4, 4];
    let ghost known = image_extensions();
    for k in 0..7
        invariant
            forall|j: int| 0 <= j < k ==> known[j] != ext@,
            known == image_extensions(),
            lens@ == seq![3usize, 3, 4, 3, 3, 4, 4],
            exts@ == seq![
                ['p', 'n', 'g', ' '],
                ['j', 'p', 'g', ' '],
                ['j', 'p', 'e', 'g'],
                ['g', 'i', 'f', ' '],
                ['s', 'v', 'g', ' '],
                ['w', 'e', 'b', 'p'],
                ['a', 'v', 'i', 'f'],
            ],
    {
        let want = slice_vec(&exts[k], 0, lens[k]);
        assert(want@ =~= known[k as int]);
        if chars_eq(want.as_slice(), ext) {
            assert(known.contains(ext@)) by { assert(known[k as int] == ext@); }
            return true;
        }
    }
    assert(!known.contains(ext@)) by {
        if known.contains(ext@) {
            let j = choose|j: int| 0 <= j < known.len() && known[j] == ext@;
            assert(known[j] != ext@);
        }
    }
    false
}

/// The image classification of an entry name: Some(true) for an image,
/// Some(false) for a non-image, None when the name must be rejected.
pub open spec fn image_name(name: Seq<char>) -> Option<bool> {
    match last_index(name, '.') {
        None => Some(false),
        Some(dot) => {
            let ext = name.skip(dot + 1);
            if image_extensions().contains(ext) {
                if valid_slug(name.take(dot)) { Some(true) } else { None }
            } else if image_extensions().contains(lower_all(ext)) {
                None
            } else {
                Some(false)
            }
        },
    }
}

/// Recognises a co-located image file: `<stem>.<image-extension>`,
/// published under the containing directory's URL with its file name
/// intact. None for anything that is not an image; an error for an
/// image with an uppercase extension or a stem that is not a slug.
pub fn image_asset(entry_name: &str, source: String, parent_path: &str) -> (r: Result<Option<crate::site::ImageAsset>, String>)
    ensures
        r is Ok <==> image_name(entry_name@) is Some,
        r matches Ok(Some(a)) ==> image_name(entry_name@) == Some(true)
            && a.source@ == source@ && a.url@ == parent_path@ + seq!['/'] + entry_name@,
        r matches Ok(None) ==> image_name(entry_name@) == Some(false),
{
    let s = chars_of(entry_name);
    let dot = match find_last(s.as_slice(), '.') {
        Some(d) => d,
        None => return Ok(None),
    };
    proof { lemma_last_index_bounds(s@, '.'); }
    let n = s.len();
    assert(dot < n);
    let ext = slice_vec(s.as_slice(), dot + 1, n);
    assert(ext@ =~= s@.skip(dot + 1));
    if is_image_extension(ext.as_slice()) {
        let stem = slice_string(s.as_slice(), 0, dot);
        assert(stem@ =~= s@.take(dot as int));
        match validate_slug(stem.as_str()) {
            Ok(()) => {},
            Err(e) => {
                let mut m = owned("in image '");
                push_str(&mut m, entry_name);
                push_str(&mut m, "': ");
                push_str(&mut m, e.as_str());
                return Err(m);
            },
        }
        let mut url = owned(parent_path);
        url.push('/');
        push_str(&mut url, entry_name);
        return Ok(Some(crate::site::ImageAsset { source, url }));
    }
    let mut lowered: Vec<char> = Vec::new();
    for i in 0..ext.len()
        invariant
            lowered@ == lower_all(ext@.take(i as int)),
    {
        let c = char_lower(ext[i]);
        lowered.push(c);
        assert(lower_all(ext@.take(i + 1)) =~= lower_all(ext@.take(i as int)).push(lower(ext@[i as int])));
    }
    assert(ext@.take(ext.len() as int) =~= ext@);
    if is_image_extension(lowered.as_slice()) {
        let mut m = owned("image '");
        push_str(&mut m, entry_name);
        push_str(&mut m, "' must use a lowercase extension");
        return Err(m);
    }
    Ok(None)
}

/// One entry of a container's ordered body, as duplicate checks see it.
pub struct OrderedEntry {
    pub appendix: bool,
    pub order: u32,
    pub slug: String,
}

/// No two neighbours in order share an order prefix.
pub open spec fn orders_distinct_adjacent(entries: Seq<OrderedEntry>) -> bool {
    forall|i: int| 0 <= i < entries.len() - 1 ==>
        (#[trigger] entries[i].appendix, entries[i].order) != (entries[i + 1].appendix, entries[i + 1].order)
}

/// No two slugs are the same.
pub open spec fn distinct(slugs: Seq<Seq<char>>) -> bool {
    forall|i: int, j: int| 0 <= i < j < slugs.len() ==> slugs[i] != slugs[j]
}

/// The slugs of ordered entries.
pub open spec fn entry_slugs(entries: Seq<OrderedEntry>) -> Seq<Seq<char>> {
    entries.map_values(|e: OrderedEntry| e.slug@)
}

/// Position `j` is the first that repeats an earlier slug.
pub open spec fn first_repeat_at(slugs: Seq<Seq<char>>, j: int) -> bool {
    &&& 0 <= j < slugs.len()
    &&& exists|i: int| 0 <= i < j && slugs[i] == slugs[j]
    &&& forall|a: int, b: int| 0 <= a < b < j ==> slugs[a] != slugs[b]
}

/// Finds the first repeated slug, if any: the later position of the
/// first pair found.
fn first_repeat(slugs: &Vec<String>) -> (r: Option<usize>)
    ensures
        r is None <==> distinct(slugs@.map_values(|s: String| s@)),
        r matches Some(j) ==> j < slugs@.len() && first_repeat_at(slugs@.map_values(|s: String| s@), j as int),
{
    let ghost views = slugs@.map_values(|s: String| s@);
    for j in 0..slugs.len()
        invariant
            views == slugs@.map_values(|s: String| s@),
            forall|a: int, b: int| 0 <= a < b < j ==> views[a] != views[b],
    {
        for i in 0..j
            invariant
                j < slugs@.len(),
                views == slugs@.map_values(|s: String| s@),
                forall|a: int, b: int| 0 <= a < b < j ==> views[a] != views[b],
                forall|a: int| 0 <= a < i ==> views[a] != views[j as int],
        {
            if text_eq_strings(&slugs[i], &slugs[j]) {
                assert(views[i as int] == views[j as int]);
                assert(first_repeat_at(views, j as int));
                return Some(j);
            }
        }
    }
    None
}

/// Whether two strings hold the same characters.
pub fn text_eq_strings(a: &String, b: &String) -> (r: bool)
    ensures
        r == (a@ == b@),
{
    crate::text::text_eq(a.as_str(), b.as_str())
}

/// An ordered entry as plain values: appendix flag, order, slug.
pub open spec fn entry_view(e: OrderedEntry) -> (bool, u32, Seq<char>) {
    (e.appendix, e.order, e.slug@)
}

/// Neighbours `k` and `k + 1` are the first to share an order.
pub open spec fn first_shared_order(v: Seq<(bool, u32, Seq<char>)>, k: int) -> bool {
    &&& 0 <= k < v.len() - 1
    &&& (v[k].0, v[k].1) == (v[k + 1].0, v[k + 1].1)
    &&& forall|i: int| 0 <= i < k ==> (#[trigger] v[i].0, v[i].1) != (v[i + 1].0, v[i + 1].1)
}

/// The complaint about two neighbours sharing an order.
pub open spec fn shared_order_message(what: Seq<char>, a: (bool, u32, Seq<char>), b: (bool, u32, Seq<char>)) -> Seq<char> {
    what + "s '"@ + a.2 + "' and '"@ + b.2 + "' share order "@
        + (if a.0 { seq!['a'] } else { Seq::empty() }) + decimal(a.1 as nat)
}

/// What the duplicate check answers for a sorted body it refuses: the
/// first neighbours sharing an order, else the first repeated slug.
pub open spec fn duplicates_message(what: Seq<char>, v: Seq<(bool, u32, Seq<char>)>) -> Seq<char> {
    if exists|k: int| first_shared_order(v, k) {
        let k = choose|k: int| first_shared_order(v, k);
        shared_order_message(what, v[k], v[k + 1])
    } else {
        let slugs = v.map_values(|e: (bool, u32, Seq<char>)| e.2);
        duplicate_slug_message(what, slugs[choose|j: int| first_repeat_at(slugs, j)])
    }
}

/// The complaint about a repeated slug.
pub open spec fn duplicate_slug_message(what: Seq<char>, slug: Seq<char>) -> Seq<char> {
    "duplicate "@ + what + " slug '"@ + slug + "'"@
}

/// Checks a container's sorted body: neighbours must not share an order,
/// and no slug may repeat. `what` names the entries in the error: the
/// first neighbours sharing an order, else the first repeated slug.
pub fn check_duplicates(what: &str, entries: &Vec<OrderedEntry>) -> (r: Result<(), String>)
    ensures
        r is Ok <==> orders_distinct_adjacent(entries@) && distinct(entry_slugs(entries@)),
        r matches Err(m) ==> m@ == duplicates_message(what@, entries@.map_values(|e: OrderedEntry| entry_view(e))),
{
    let ghost v = entries@.map_values(|e: OrderedEntry| entry_view(e));
    let n = entries.len();
    if n >= 2 {
        for i in 0..n - 1
            invariant
                v == entries@.map_values(|e: OrderedEntry| entry_view(e)),
                n == entries@.len(),
                n >= 2,
                forall|k: int| 0 <= k < i ==>
                    (#[trigger] entries@[k].appendix, entries@[k].order) != (entries@[k + 1].appendix, entries@[k + 1].order),
        {
            let a = &entries[i];
            let b = &entries[i + 1];
            if a.appendix == b.appendix && a.order == b.order {
                let mut m = owned(what);
                push_str(&mut m, "s '");
                push_str(&mut m, a.slug.as_str());
                push_str(&mut m, "' and '");
                push_str(&mut m, b.slug.as_str());
                push_str(&mut m, "' share order ");
                if a.appendix {
                    m.push('a');
                }
                push_decimal(&mut m, a.order);
                proof {
                    reveal_strlit("s '");
                    reveal_strlit("' and '");
                    reveal_strlit("' share order ");
                    assert(v[i as int] == entry_view(entries@[i as int]));
                    assert(v[i + 1] == entry_view(entries@[i + 1]));
                    assert forall|q: int| 0 <= q < i implies (#[trigger] v[q].0, v[q].1) != (v[q + 1].0, v[q + 1].1) by {
                        assert(v[q] == entry_view(entries@[q]));
                        assert(v[q + 1] == entry_view(entries@[q + 1]));
                        assert((entries@[q].appendix, entries@[q].order) != (entries@[q + 1].appendix, entries@[q + 1].order));
                    }
                    assert(first_shared_order(v, i as int));
                    assert forall|k: int| #[trigger] first_shared_order(v, k) implies k == i by {
                        if k > i {
                            assert((v[i as int].0, v[i as int].1) != (v[i + 1].0, v[i + 1].1));
                        }
                    }
                    assert(m@ =~= shared_order_message(what@, v[i as int], v[i + 1]));
                }
                return Err(m);
            }
        }
    }
    let mut slugs: Vec<String> = Vec::new();
    for i in 0..n
        invariant
            v == entries@.map_values(|e: OrderedEntry| entry_view(e)),
            n == entries@.len(),
            slugs@.map_values(|s: String| s@) == entry_slugs(entries@).take(i as int),
    {
        let x = owned(entries[i].slug.as_str());
        let ghost before = slugs@;
        slugs.push(x);
        assert(slugs@ == before.push(x));
        assert(entry_slugs(entries@)[i as int] == entries@[i as int].slug@);
        assert(slugs@.map_values(|s: String| s@) =~= before.map_values(|s: String| s@).push(x@));
        assert(slugs@.map_values(|s: String| s@) =~= entry_slugs(entries@).take(i + 1));
    }
    assert(entry_slugs(entries@).take(n as int) =~= entry_slugs(entries@));
    match first_repeat(&slugs) {
        None => Ok(()),
        Some(j) => {
            let mut m = owned("duplicate ");
            push_str(&mut m, what);
            push_str(&mut m, " slug '");
            push_str(&mut m, slugs[j].as_str());
            push_str(&mut m, "'");
            proof {
                let sv = entry_slugs(entries@);
                let vs = v.map_values(|e: (bool, u32, Seq<char>)| e.2);
                assert(vs =~= sv);
                assert(slugs@.map_values(|s: String| s@) == sv);
                assert(m@ =~= duplicate_slug_message(what@, sv[j as int]));
                assert forall|j2: int| #[trigger] first_repeat_at(sv, j2) implies j2 == j by {
                    if j2 < j {
                        let i2 = choose|i2: int| 0 <= i2 < j2 && sv[i2] == sv[j2];
                        assert(sv[i2] != sv[j2]);
                    }
                    if j2 > j {
                        let i1 = choose|i1: int| 0 <= i1 < j && sv[i1] == sv[j as int];
                        assert(sv[i1] != sv[j as int]);
                    }
                }
                assert forall|k: int| !first_shared_order(v, k) by {
                    if 0 <= k < v.len() - 1 {
                        assert(v[k] == entry_view(entries@[k]));
                        assert(v[k + 1] == entry_view(entries@[k + 1]));
                        assert((entries@[k].appendix, entries@[k].order) != (entries@[k + 1].appendix, entries@[k + 1].order));
                    }
                }
            }
            Err(m)
        },
    }
}

/// The texts of a run of strings.
pub open spec fn text_views(v: Seq<String>) -> Seq<Seq<char>> {
    v.map_values(|s: String| s@)
}

/// The complaint about a slug repeated across shelves.
pub open spec fn flat_duplicate_message(what: Seq<char>, slug: Seq<char>) -> Seq<char> {
    "duplicate "@ + what + " slug '"@ + slug + "' \u{2014} shelf contents share their parent's URL space"@
}

/// Checks that slugs flattened across shelves stay unique: shelves are
/// invisible in URLs, so their contents share the parent's URL space.
pub fn check_flat_slugs(what: &str, slugs: &Vec<String>) -> (r: Result<(), String>)
    ensures
        r is Ok <==> distinct(slugs@.map_values(|s: String| s@)),
        r matches Err(m) ==> exists|j: int| #[trigger] first_repeat_at(text_views(slugs@), j)
            && m@ == flat_duplicate_message(what@, text_views(slugs@)[j]),
{
    match first_repeat(slugs) {
        None => Ok(()),
        Some(j) => {
            let mut m = owned("duplicate ");
            push_str(&mut m, what);
            push_str(&mut m, " slug '");
            push_str(&mut m, slugs[j].as_str());
            push_str(&mut m, "' — shelf contents share their parent's URL space");
            proof {
                reveal_strlit("' — shelf contents share their parent's URL space");
                reveal_strlit("' \u{2014} shelf contents share their parent's URL space");
                assert(text_views(slugs@) == slugs@.map_values(|s: String| s@));
                assert(m@ =~= flat_duplicate_message(what@, text_views(slugs@)[j as int]));
            }
            Err(m)
        },
    }
}

/// The number of whitespace-separated words.
pub open spec fn word_count(s: Seq<char>) -> nat
    decreases s.len(),
{
    if s.len() == 0 {
        0
    } else {
        word_count(s.drop_last()) + if !is_space(s.last()) && (s.len() == 1 || is_space(s[s.len() - 2])) { 1nat } else { 0nat }
    }
}

/// Reading time for a body at 200 words a minute, at least one minute.
pub open spec fn minutes_for(s: Seq<char>) -> u32 {
    let words = (word_count(s) as u32) as nat;
    let m = (words + 199) / 200;
    if m < 1 { 1 } else { m as u32 }
}

/// Estimated reading time for a body.
pub fn reading_minutes(body: &str) -> (r: u32)
    ensures
        r == minutes_for(body@),
{
    let s = chars_of(body);
    let mut count: usize = 0;
    for i in 0..s.len()
        invariant
            s@ == body@,
            count == word_count(s@.take(i as int)),
            count <= i,
    {
        assert(s@.take(i + 1).drop_last() =~= s@.take(i as int));
        if !char_is_space(s[i]) && (i == 0 || char_is_space(s[i - 1])) {
            count = count + 1;
        }
    }
    assert(s@.take(s.len() as int) =~= s@);
    let words = count as u32;
    let m: u64 = (words as u64 + 199) / 200;
    if m < 1 { 1 } else { m as u32 }
}

/// Lexicographic order on characters — the order of ISO dates.
pub open spec fn lex_le(a: Seq<char>, b: Seq<char>) -> bool
    decreases a.len(),
{
    if a.len() == 0 {
        true
    } else if b.len() == 0 {
        false
    } else if a[0] != b[0] {
        a[0] < b[0]
    } else {
        lex_le(a.drop_first(), b.drop_first())
    }
}

/// Of two strings, one always sorts no later than the other.
pub proof fn lemma_lex_total(a: Seq<char>, b: Seq<char>)
    ensures
        lex_le(a, b) || lex_le(b, a),
    decreases a.len(),
{
    if a.len() > 0 && b.len() > 0 && a[0] == b[0] {
        lemma_lex_total(a.drop_first(), b.drop_first());
    }
}

/// Lexicographic order is transitive.
pub proof fn lemma_lex_trans(a: Seq<char>, b: Seq<char>, c: Seq<char>)
    requires
        lex_le(a, b),
        lex_le(b, c),
    ensures
        lex_le(a, c),
    decreases a.len(),
{
    if a.len() > 0 && b.len() > 0 && c.len() > 0 && a[0] == b[0] && b[0] == c[0] {
        lemma_lex_trans(a.drop_first(), b.drop_first(), c.drop_first());
    }
}

/// Compares two strings lexicographically.
pub fn text_le(a: &str, b: &str) -> (r: bool)
    ensures
        r == lex_le(a@, b@),
{
    let x = chars_of(a);
    let y = chars_of(b);
    let mut i: usize = 0;
    assert(x@.skip(0) =~= x@);
    assert(y@.skip(0) =~= y@);
    while i < x.len() && i < y.len() && x[i] == y[i]
        invariant
            i <= x@.len(),
            i <= y@.len(),
            x@.take(i as int) == y@.take(i as int),
            lex_le(a@, b@) == lex_le(x@.skip(i as int), y@.skip(i as int)),
            x@ == a@,
            y@ == b@,
        decreases x@.len() - i,
    {
        assert(x@.skip(i as int).drop_first() =~= x@.skip(i + 1));
        assert(y@.skip(i as int).drop_first() =~= y@.skip(i + 1));
        assert(x@.take(i + 1) =~= x@.take(i as int).push(x@[i as int]));
        assert(y@.take(i + 1) =~= y@.take(i as int).push(y@[i as int]));
        i = i + 1;
    }
    if i == x.len() {
        true
    } else if i == y.len() {
        false
    } else {
        x[i] < y[i]
    }
}

/// The plain value of an optional string.
pub open spec fn opt_view(o: Option<String>) -> Option<Seq<char>> {
    match o {
        Some(s) => Some(s@),
        None => None,
    }
}

/// The later of two optional ISO dates.
pub open spec fn later_of(a: Option<Seq<char>>, b: Option<Seq<char>>) -> Option<Seq<char>> {
    match (a, b) {
        (Some(x), Some(y)) => Some(if lex_le(y, x) { x } else { y }),
        (Some(x), None) => Some(x),
        (None, Some(y)) => Some(y),
        (None, None) => None,
    }
}

/// The later of two ISO dates, either of which may be absent.
pub fn later(a: Option<String>, b: Option<String>) -> (r: Option<String>)
    ensures
        opt_view(r) == later_of(opt_view(a), opt_view(b)),
{
    match (a, b) {
        (Some(x), Some(y)) => {
            if text_le(y.as_str(), x.as_str()) { Some(x) } else { Some(y) }
        },
        (Some(x), None) => Some(x),
        (None, Some(y)) => Some(y),
        (None, None) => None,
    }
}

/// A plain relative path: not empty, not absolute, no `..` anywhere and
/// no leading `.` component (inner `.` components normalise away).
pub open spec fn plain_relative(p: Seq<char>) -> bool {
    &&& p.len() > 0
    &&& p[0] != '/'
    &&& !(p.len() == 1 && p[0] == '.')
    &&& !(p.len() >= 2 && p[0] == '.' && p[1] == '/')
    &&& !dotdot_component(p)
}

/// Whether some `/`-separated component is `..`.
pub open spec fn dotdot_component(p: Seq<char>) -> bool {
    exists|i: int| 0 <= i && i + 1 < p.len() && #[trigger] p[i] == '.' && p[i + 1] == '.'
        && (i == 0 || p[i - 1] == '/') && (i + 2 == p.len() || p[i + 2] == '/')
}

/// The path-shape rules for a `passthrough` entry; that it exists and
/// is not the output directory is checked against the filesystem.
pub fn check_passthrough_entry(entry: &str) -> (r: Result<(), String>)
    ensures
        r is Ok <==> plain_relative(entry@),
{
    let p = chars_of(entry);
    if p.len() == 0 {
        return Err(owned("passthrough entries cannot be empty"));
    }
    let head_ok = p[0] != '/' && !(p.len() == 1 && p[0] == '.') && !(p.len() >= 2 && p[0] == '.' && p[1] == '/');
    let n = p.len();
    let mut dd = false;
    for i in 0..n
        invariant
            n == p@.len(),
            p@ == entry@,
            !dd ==> forall|k: int| 0 <= k < i ==> !(k + 1 < p@.len() && #[trigger] p@[k] == '.' && p@[k + 1] == '.'
                && (k == 0 || p@[k - 1] == '/') && (k + 2 == p@.len() || p@[k + 2] == '/')),
            dd ==> dotdot_component(p@),
    {
        if i + 1 < n && p[i] == '.' && p[i + 1] == '.' && (i == 0 || p[i - 1] == '/') && (i + 2 == n || p[i + 2] == '/') {
            dd = true;
        }
    }
    let ok = head_ok && !dd;
    if ok {
        Ok(())
    } else {
        let mut m = owned("passthrough '");
        push_str(&mut m, entry);
        push_str(&mut m, "' must be a plain relative path inside the site root");
        Err(m)
    }
}


/// The later of two optional dates is present when either is, is one of
/// the two, and sorts no earlier than either of them.
pub proof fn law_later_is_the_latest(a: Option<Seq<char>>, b: Option<Seq<char>>)
    ensures
        later_of(a, b) is None <==> (a is None && b is None),
        later_of(a, b) matches Some(r) ==> (a == Some(r) || b == Some(r)),
        later_of(a, b) matches Some(r) ==> (a matches Some(x) ==> lex_le(x, r)),
        later_of(a, b) matches Some(r) ==> (b matches Some(y) ==> lex_le(y, r)),
{
    match (a, b) {
        (Some(x), Some(y)) => {
            lemma_lex_total(x, y);
            lemma_lex_total(x, x);
            lemma_lex_total(y, y);
        },
        (Some(x), None) => lemma_lex_total(x, x),
        (None, Some(y)) => lemma_lex_total(y, y),
        (None, None) => {},
    }
}

/// Words are separated by whitespace: two texts joined by a whitespace
/// character hold as many words as the two together.
pub proof fn law_words_add_across_whitespace(a: Seq<char>, c: char, b: Seq<char>)
    requires
        is_space(c),
    ensures
        word_count(a + seq![c] + b) == word_count(a) + word_count(b),
    decreases b.len(),
{
    let s = a + seq![c] + b;
    if b.len() == 0 {
        assert(s.drop_last() =~= a);
        assert(s.last() == c);
    } else {
        law_words_add_across_whitespace(a, c, b.drop_last());
        assert(s.drop_last() =~= a + seq![c] + b.drop_last());
        assert(s.last() == b.last());
        if b.len() == 1 {
            assert(s[s.len() - 2] == c);
        } else {
            assert(s[s.len() - 2] == b[b.len() - 2]);
        }
    }
}

/// A non-empty text without whitespace is one word.
pub proof fn law_unbroken_text_is_one_word(s: Seq<char>)
    requires
        s.len() > 0,
        forall|i: int| 0 <= i < s.len() ==> !is_space(#[trigger] s[i]),
    ensures
        word_count(s) == 1,
    decreases s.len(),
{
    if s.len() > 1 {
        assert forall|i: int| 0 <= i < s.drop_last().len() implies !is_space(#[trigger] s.drop_last()[i]) by {
            assert(s.drop_last()[i] == s[i]);
        }
        law_unbroken_text_is_one_word(s.drop_last());
        assert(!is_space(s[s.len() - 2]));
        assert(!is_space(s[s.len() - 1]));
        assert(s.last() == s[s.len() - 1]);
    } else {
        assert(s.drop_last().len() == 0);
        assert(word_count(s.drop_last()) == 0);
        assert(s.last() == s[0]);
        assert(!is_space(s[0]));
    }
}

/// Whitespace alone holds no words.
pub proof fn law_whitespace_holds_no_words(s: Seq<char>)
    requires
        forall|i: int| 0 <= i < s.len() ==> is_space(#[trigger] s[i]),
    ensures
        word_count(s) == 0,
    decreases s.len(),
{
    if s.len() > 0 {
        assert forall|i: int| 0 <= i < s.drop_last().len() implies is_space(#[trigger] s.drop_last()[i]) by {
            assert(s.drop_last()[i] == s[i]);
        }
        law_whitespace_holds_no_words(s.drop_last());
        assert(is_space(s[s.len() - 1]));
    }
}

} // verus!
