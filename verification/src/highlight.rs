//! Build-time syntax highlighting: code blocks become class-carrying
//! spans (prefixed `hl-`) inside a frame with a copy button, so the
//! page's own CSS picks the colors.
use vstd::prelude::*;
use syntect::html::{ClassStyle, ClassedHTMLGenerator};
use syntect::parsing::SyntaxSet;
use crate::markdown::{escaped_text, push_escaped_text};
use crate::text::{chars_of, push_str, string_of, trim, trim_bounds};

verus! {

#[verifier::external_type_specification]
#[verifier::external_body]
pub struct ExSyntaxSet(SyntaxSet);

/// `two_face::syntax::extra_newlines`: bat's collection of syntax
/// definitions, in the form that matches lines which keep their newline.
/// Nothing is claimed of the set.
#[verifier::external_body]
fn bundled_syntaxes() -> SyntaxSet {
    two_face::syntax::extra_newlines()
}

/// What syntect makes of lines of source under the bundled syntax
/// definitions: the syntax that `token` names (`find_syntax_by_token`),
/// a `ClassedHTMLGenerator` whose space-separated scope classes carry
/// `prefix`, each line fed in turn, and the finished markup; None when no
/// syntax answers to the token or a line fails to parse.
pub uninterp spec fn highlighted(token: Seq<char>, lines: Seq<Seq<char>>, prefix: Seq<char>) -> Option<Seq<char>>;

/// syntect's classed-HTML pass over `lines` with the highlighter's syntax
/// set (always the bundled one: `Highlighter::bundled` is the only way to
/// make a highlighter): `SyntaxSet::find_syntax_by_token`, then
/// `ClassedHTMLGenerator::new_with_class_style`, then
/// `parse_html_for_line_which_includes_newline` on each line, then
/// `finalize`. The result is claimed to be `highlighted` of the token, the
/// lines and the prefix; what that markup is, is not stated.
#[verifier::external_body]
fn highlight_pass(h: &Highlighter, token: &str, lines: &Vec<String>, prefix: &'static str) -> (r: Option<String>)
    ensures
        crate::validate::opt_view(r) == highlighted(token@, lines@.map_values(|x: String| x@), prefix@),
{
    let syntax = h.syntaxes.find_syntax_by_token(token)?;
    let mut generator = ClassedHTMLGenerator::new_with_class_style(syntax, &h.syntaxes, ClassStyle::SpacedPrefixed { prefix });
    for line in lines {
        generator.parse_html_for_line_which_includes_newline(line.as_str()).ok()?;
    }
    Some(generator.finalize())
}

/// A text cut after each newline, each piece keeping its newline; a last
/// piece without one only when it is not empty.
pub open spec fn lines_with_endings(s: Seq<char>) -> Seq<Seq<char>>
    decreases s.len(),
{
    if s.len() == 0 {
        Seq::empty()
    } else {
        match crate::text::first_index(s, '\n') {
            Some(k) => {
                proof { crate::text::lemma_first_index_bounds(s, '\n'); }
                seq![s.take(k + 1)] + lines_with_endings(s.skip(k + 1))
            },
            None => seq![s],
        }
    }
}

/// The pieces of a text, each keeping its newline.
fn pieces_with_endings(s: &[char]) -> (r: Vec<String>)
    ensures
        r@.map_values(|x: String| x@) == lines_with_endings(s@),
{
    let n = s.len();
    let mut out: Vec<String> = Vec::new();
    let mut i: usize = 0;
    assert(s@.skip(0) =~= s@);
    assert(out@.map_values(|x: String| x@) + lines_with_endings(s@) =~= lines_with_endings(s@));
    while i < n
        invariant
            n == s@.len(),
            i <= n,
            out@.map_values(|x: String| x@) + lines_with_endings(s@.skip(i as int)) == lines_with_endings(s@),
        decreases n - i,
    {
        let rest = crate::text::slice_vec(s, i, n);
        assert(rest@ =~= s@.skip(i as int));
        let j = match crate::text::find_first(rest.as_slice(), '\n') {
            Some(k) => {
                proof { crate::text::lemma_first_index_bounds(rest@, '\n'); }
                i + k + 1
            },
            None => n,
        };
        let piece = string_of(crate::text::slice_vec(s, i, j).as_slice());
        let ghost before = out@.map_values(|x: String| x@);
        out.push(piece);
        assert(out@.map_values(|x: String| x@) =~= before.push(piece@));
        assert(s@.skip(i as int).take(j - i) =~= piece@);
        assert(s@.skip(i as int).skip(j - i) =~= s@.skip(j as int));
        assert(j == n ==> s@.skip(j as int) =~= Seq::<char>::empty());
        assert(before + lines_with_endings(s@.skip(i as int)) =~= before.push(piece@) + lines_with_endings(s@.skip(j as int)));
        i = j;
    }
    assert(s@.skip(n as int) =~= Seq::<char>::empty());
    assert(out@.map_values(|x: String| x@) + lines_with_endings(s@.skip(n as int)) =~= out@.map_values(|x: String| x@));
    out
}

/// The language a fence names: its trimmed token, when not blank.
pub open spec fn fence_language(language: Option<Seq<char>>) -> Option<Seq<char>> {
    match language {
        Some(l) => if trim(l).len() > 0 { Some(trim(l)) } else { None },
        None => None,
    }
}

/// The frame of a code block: the language announced in an attribute,
/// the copy button, and the body, highlighted markup when there is one,
/// else the escaped source.
pub open spec fn code_frame_html(language: Option<Seq<char>>, highlighted: Option<Seq<char>>, source: Seq<char>) -> Seq<char> {
    "<div class=\"code-block\""@
        + (match language {
            Some(l) => " data-language=\""@ + escaped_text(l) + "\""@,
            None => Seq::empty(),
        })
        + "><button class=\"copy-code\" type=\"button\" data-copy-code><span class=\"copy-label\">Copy</span></button><pre><code>"@
        + (match highlighted {
            Some(h) => h,
            None => escaped_text(source),
        })
        + "</code></pre></div>\n"@
}

/// The language token of a fence, trimmed; None when absent or blank.
fn trimmed_language(language: Option<&str>) -> (r: Option<Vec<char>>)
    ensures
        match fence_language(match language { Some(l) => Some(l@), None => None }) {
            Some(l) => r matches Some(v) && v@ == l,
            None => r is None,
        },
{
    match language {
        Some(l) => {
            let c = chars_of(l);
            let (a, b) = trim_bounds(c.as_slice(), 0, c.len());
            assert(c@.subrange(0, c@.len() as int) =~= c@);
            if a < b {
                Some(crate::text::slice_vec(c.as_slice(), a, b))
            } else {
                None
            }
        },
        None => None,
    }
}

/// The markup of a code block, given the language token of its fence and
/// the highlighter's markup if it produced any.
pub fn code_frame(language: Option<&str>, highlighted: Option<&str>, source: &str) -> (r: String)
    ensures
        r@ == code_frame_html(
            fence_language(match language { Some(l) => Some(l@), None => None }),
            match highlighted { Some(h) => Some(h@), None => None },
            source@,
        ),
{
    let mut out = crate::text::owned("<div class=\"code-block\"");
    match trimmed_language(language) {
        Some(l) => {
            push_str(&mut out, " data-language=\"");
            push_escaped_text(&mut out, l.as_slice());
            push_str(&mut out, "\"");
        },
        None => {},
    }
    push_str(&mut out, "><button class=\"copy-code\" type=\"button\" data-copy-code><span class=\"copy-label\">Copy</span></button><pre><code>");
    match highlighted {
        Some(h) => push_str(&mut out, h),
        None => {
            let s = chars_of(source);
            push_escaped_text(&mut out, s.as_slice());
        },
    }
    push_str(&mut out, "</code></pre></div>\n");
    out
}

/// A code block: its source highlighted when the fence names a language
/// the highlighter answers, else escaped, in the frame with the copy
/// button.
pub open spec fn code_block_html(language: Option<Seq<char>>, source: Seq<char>) -> Seq<char> {
    let l = fence_language(language);
    code_frame_html(l, match l {
        Some(t) => highlighted(t, lines_with_endings(source), "hl-"@),
        None => None,
    }, source)
}

/// A syntax set loaded once and used for every code block of a build.
pub struct Highlighter {
    syntaxes: SyntaxSet,
}

impl Highlighter {
    /// The highlighter over the bundled syntax definitions.
    pub fn bundled() -> Highlighter {
        Highlighter { syntaxes: bundled_syntaxes() }
    }

    /// Highlights `source` as the language `token` names, line by line;
    /// None when no syntax answers to the token or a line fails to parse.
    pub fn highlight(&self, token: &str, source: &str) -> (r: Option<String>)
        ensures
            crate::validate::opt_view(r) == highlighted(token@, lines_with_endings(source@), "hl-"@),
    {
        let s = chars_of(source);
        let pieces = pieces_with_endings(s.as_slice());
        highlight_pass(self, token, &pieces, "hl-")
    }

    /// One code block: the source highlighted when the fence names a
    /// language the highlighter knows, escaped plain text otherwise, in
    /// the frame that carries the copy button.
    pub fn code_block(&self, language: Option<&str>, source: &str) -> (r: String)
        ensures
            r@ == code_block_html(match language { Some(l) => Some(l@), None => None }, source@),
    {
        let body = match trimmed_language(language) {
            Some(l) => {
                let token = string_of(l.as_slice());
                self.highlight(token.as_str(), source)
            },
            None => None,
        };
        match body {
            Some(h) => code_frame(language, Some(h.as_str()), source),
            None => code_frame(language, None, source),
        }
    }
}

/// One code block, highlighted with the bundled syntax definitions.
pub fn code_block(language: Option<&str>, source: &str) -> (r: String)
    ensures
        r@ == code_block_html(match language { Some(l) => Some(l@), None => None }, source@),
{
    Highlighter::bundled().code_block(language, source)
}


/// Where two-face publishes the full listing of its bundled definitions'
/// licences, for the version this library is built with.
pub open spec fn acknowledgement_listing_url() -> Seq<char> {
    "https://github.com/CosmicHorrorDev/two-face/blob/v0.4.5/generated/acknowledgements_full.md"@
}

/// `two_face::acknowledgement::url`: a constant, the address of the full
/// listing of the bundled definitions' licences, made from the crate's
/// own version.
#[verifier::external_body]
fn acknowledgement_url() -> (r: String)
    ensures
        r@ == acknowledgement_listing_url(),
{
    two_face::acknowledgement::url().to_string()
}

/// `two_face::acknowledgement::listing().for_syntaxes()`: the licences of
/// the bundled syntax definitions whose terms ask for acknowledgement,
/// each as its path and text. Nothing is claimed of the entries.
#[verifier::external_body]
fn syntax_license_entries() -> Vec<(String, String)> {
    two_face::acknowledgement::listing()
        .for_syntaxes()
        .iter()
        .map(|l| (l.rel_path.display().to_string(), l.text.clone()))
        .collect()
}

/// The opening of the licence file: what the definitions are, and where
/// the full listing is.
pub open spec fn license_preamble(url: Seq<char>) -> Seq<char> {
    "Syntax highlighting in this site's code blocks uses syntax definitions\n"@
        + "bundled with Trail, collected by the `two-face` crate from bat's assets.\n"@
        + "The licences below are those whose terms require acknowledgement when\n"@
        + "the definitions are redistributed.\n"@
        + "\n"@
        + "The full listing, including the licences that do not require\n"@
        + "acknowledgement, is at:\n"@
        + url + "\n"@
}

/// Each licence under a header naming its file, trailing whitespace
/// trimmed.
pub open spec fn license_sections(entries: Seq<(Seq<char>, Seq<char>)>) -> Seq<char>
    decreases entries.len(),
{
    if entries.len() == 0 {
        Seq::empty()
    } else {
        license_sections(entries.drop_last()) + "\n\n---- "@ + entries.last().0 + " ----\n\n"@
            + crate::text::trim_end(entries.last().1) + "\n"@
    }
}

/// The licence file of the bundled syntax definitions.
pub open spec fn license_text(url: Seq<char>, entries: Seq<(Seq<char>, Seq<char>)>) -> Seq<char> {
    license_preamble(url) + license_sections(entries)
}

/// The licence file, given the listing's URL and its entries.
pub fn license_file(url: &str, entries: &Vec<(String, String)>) -> (r: String)
    ensures
        r@ == license_text(url@, entries@.map_values(|e: (String, String)| (e.0@, e.1@))),
{
    let ghost ev = entries@.map_values(|e: (String, String)| (e.0@, e.1@));
    let mut out = crate::text::owned("Syntax highlighting in this site's code blocks uses syntax definitions\n");
    push_str(&mut out, "bundled with Trail, collected by the `two-face` crate from bat's assets.\n");
    push_str(&mut out, "The licences below are those whose terms require acknowledgement when\n");
    push_str(&mut out, "the definitions are redistributed.\n");
    push_str(&mut out, "\n");
    push_str(&mut out, "The full listing, including the licences that do not require\n");
    push_str(&mut out, "acknowledgement, is at:\n");
    push_str(&mut out, url);
    push_str(&mut out, "\n");
    let ghost head = out@;
    for k in 0..entries.len()
        invariant
            ev == entries@.map_values(|e: (String, String)| (e.0@, e.1@)),
            out@ == head + license_sections(ev.take(k as int)),
    {
        assert(ev.take(k + 1).drop_last() =~= ev.take(k as int));
        push_str(&mut out, "\n\n---- ");
        push_str(&mut out, entries[k].0.as_str());
        push_str(&mut out, " ----\n\n");
        let text = chars_of(entries[k].1.as_str());
        let mut b = text.len();
        assert(text@.subrange(0, b as int) =~= text@);
        while b > 0 && crate::text::char_is_space(text[b - 1])
            invariant
                b <= text@.len(),
                crate::text::trim_end(text@) == crate::text::trim_end(text@.subrange(0, b as int)),
            decreases b,
        {
            assert(text@.subrange(0, b as int).drop_last() =~= text@.subrange(0, b - 1));
            b = b - 1;
        }
        crate::text::push_chars(&mut out, crate::text::slice_vec(text.as_slice(), 0, b).as_slice());
        push_str(&mut out, "\n");
        assert(out@ =~= head + license_sections(ev.take(k + 1)));
    }
    assert(ev.take(ev.len() as int) =~= ev);
    out
}

/// The licences of the bundled syntax definitions, as one text file.
pub fn licenses() -> (r: String)
    ensures
        exists|entries: Seq<(Seq<char>, Seq<char>)>| r@ == license_text(acknowledgement_listing_url(), entries),
{
    let url = acknowledgement_url();
    let entries = syntax_license_entries();
    let r = license_file(url.as_str(), &entries);
    assert(r@ == license_text(url@, entries@.map_values(|e: (String, String)| (e.0@, e.1@))));
    r
}

} // verus!
