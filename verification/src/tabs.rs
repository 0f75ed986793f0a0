//! `:::tabs` groups: marker lines outside fenced code become the
//! markup of a tabbed block whose panels stay ordinary markdown.
use vstd::prelude::*;
use crate::markdown::{escaped_text, push_escaped_text, ticks3, tildes3};
use crate::text::{chars_of, decimal, has_colon_run, has_prefix, owned, push_chars, push_decimal_usize, push_str, starts_at, trim, trim_bounds};

verus! {

/// `s` without one trailing carriage return.
pub open spec fn strip_cr(s: Seq<char>) -> Seq<char> {
    if s.len() > 0 && s.last() == '\r' { s.drop_last() } else { s }
}

/// `str::lines`: the text split at `\n` (a `\r` before it dropped), a
/// final line ending optional.
pub open spec fn lines_of(s: Seq<char>) -> Seq<Seq<char>> {
    let parts = crate::text::split_on(s, '\n');
    let body = parts.drop_last().map_values(|p: Seq<char>| strip_cr(p));
    if parts.last().len() == 0 { body } else { body.push(parts.last()) }
}

/// The character views of a run of vectors.
pub open spec fn seqs_of(v: Seq<Vec<char>>) -> Seq<Seq<char>> {
    v.map_values(|x: Vec<char>| x@)
}

/// The lines of a text.
pub fn lines(s: &[char]) -> (r: Vec<Vec<char>>)
    ensures
        seqs_of(r@) == lines_of(s@),
{
    let parts = crate::text::split_chars(s, '\n');
    let ghost pv = parts@.map_values(|v: Vec<char>| v@);
    let n = parts.len();
    let mut out: Vec<Vec<char>> = Vec::new();
    for i in 0..n - 1
        invariant
            n == parts@.len(),
            n >= 1,
            pv == parts@.map_values(|v: Vec<char>| v@),
            seqs_of(out@) == pv.drop_last().take(i as int).map_values(|p: Seq<char>| strip_cr(p)),
    {
        let p = &parts[i];
        let len = p.len();
        let keep = if len > 0 && p[len - 1] == '\r' { len - 1 } else { len };
        let line = crate::text::slice_vec(p.as_slice(), 0, keep);
        assert(line@ =~= strip_cr(pv[i as int]));
        let ghost b = seqs_of(out@);
        out.push(line);
        assert(seqs_of(out@) =~= b.push(line@));
        assert(pv.drop_last().take(i + 1).map_values(|p: Seq<char>| strip_cr(p))
            =~= pv.drop_last().take(i as int).map_values(|p: Seq<char>| strip_cr(p)).push(strip_cr(pv[i as int])));
    }
    assert(pv.drop_last().take(n - 1) =~= pv.drop_last());
    let last = &parts[n - 1];
    if last.len() > 0 {
        let copy = crate::text::slice_vec(last.as_slice(), 0, last.len());
        assert(copy@ =~= last@);
        let ghost b = seqs_of(out@);
        out.push(copy);
        assert(seqs_of(out@) =~= b.push(copy@));
    }
    out
}

/// The code-fence state after a line whose trimmed text is `t`.
pub open spec fn fence_step(fence: Option<Seq<char>>, t: Seq<char>) -> Option<Seq<char>> {
    match fence {
        Some(open) => if has_prefix(t, open) { None } else { fence },
        None => if has_prefix(t, ticks3()) {
            Some(ticks3())
        } else if has_prefix(t, tildes3()) {
            Some(tildes3())
        } else {
            None
        },
    }
}

/// A tab's label and body lines.
pub type TabView = (Seq<char>, Seq<Seq<char>>);

/// Collects the tabs of a group from line `i` on, up to its closing
/// `:::`. Yields the closing line's index and the tabs, or the error.
pub open spec fn group_scan(lines: Seq<Seq<char>>, i: int, fence: Option<Seq<char>>, tabs: Seq<TabView>)
    -> Result<(int, Seq<TabView>), Seq<char>>
    decreases lines.len() - i,
{
    if i < 0 || i >= lines.len() {
        Err("unclosed ':::tabs' block (close it with ':::')"@)
    } else {
        let line = lines[i];
        let t = trim(line);
        let next = fence_step(fence, t);
        let in_code = fence is Some || next is Some;
        if !in_code && t == ":::"@ {
            Ok((i, tabs))
        } else if !in_code && t == ":::tabs"@ {
            Err("':::tabs' groups cannot nest"@)
        } else if !in_code && has_prefix(t, ":::tab"@) {
            let name = trim(t.skip(6));
            if name.len() == 0 {
                Err("':::tab' needs a label, e.g. ':::tab Linux'"@)
            } else {
                group_scan(lines, i + 1, next, tabs.push((name, Seq::empty())))
            }
        } else if tabs.len() == 0 {
            if t.len() == 0 {
                group_scan(lines, i + 1, next, tabs)
            } else {
                Err("content inside ':::tabs' before the first ':::tab' label"@)
            }
        } else {
            group_scan(lines, i + 1, next, tabs.update(tabs.len() - 1, (tabs.last().0, tabs.last().1.push(line))))
        }
    }
}

/// The markup of one tab button.
pub open spec fn tab_button(index: nat, name: Seq<char>) -> Seq<char> {
    "<button class=\"tab-button\" type=\"button\" role=\"tab\" data-tab=\""@ + decimal(index)
        + "\" aria-selected=\""@ + (if index == 0 { "true"@ } else { "false"@ }) + "\">"@
        + escaped_text(name) + "</button>\n"@
}

/// Lines, each followed by a newline.
pub open spec fn line_block(lines: Seq<Seq<char>>) -> Seq<char>
    decreases lines.len(),
{
    if lines.len() == 0 { Seq::empty() } else { line_block(lines.drop_last()) + lines.last() + seq!['\n'] }
}

/// The markup of one tab panel: only the first is visible.
pub open spec fn tab_panel(index: nat, body: Seq<Seq<char>>) -> Seq<char> {
    "<div class=\"tab-panel\" role=\"tabpanel\" data-tab-panel=\""@ + decimal(index) + "\""@
        + (if index == 0 { Seq::empty() } else { " hidden"@ }) + ">\n\n"@
        + line_block(body) + "\n</div>\n\n"@
}

pub open spec fn tab_buttons(tabs: Seq<TabView>) -> Seq<char>
    decreases tabs.len(),
{
    if tabs.len() == 0 { Seq::empty() } else { tab_buttons(tabs.drop_last()) + tab_button((tabs.len() - 1) as nat, tabs.last().0) }
}

pub open spec fn tab_panels(tabs: Seq<TabView>) -> Seq<char>
    decreases tabs.len(),
{
    if tabs.len() == 0 { Seq::empty() } else { tab_panels(tabs.drop_last()) + tab_panel((tabs.len() - 1) as nat, tabs.last().1) }
}

/// The markup of a whole tab group.
pub open spec fn tab_group_html(tabs: Seq<TabView>) -> Seq<char> {
    "\n<div class=\"tabs\" data-tabs>\n<div class=\"tab-buttons\" role=\"tablist\">\n"@
        + tab_buttons(tabs) + "</div>\n\n"@ + tab_panels(tabs) + "</div>\n\n"@
}

/// Expanding the group that opens at line `start`: the index just past
/// its closing `:::` and its markup, or the error.
pub open spec fn group_expansion(lines: Seq<Seq<char>>, start: int) -> Result<(int, Seq<char>), Seq<char>> {
    match group_scan(lines, start + 1, None, Seq::empty()) {
        Err(e) => Err(e),
        Ok((end, tabs)) => if tabs.len() == 0 {
            Err("':::tabs' block has no ':::tab' labels in it"@)
        } else {
            Ok((end + 1, tab_group_html(tabs)))
        },
    }
}


/// A scan that succeeds stops at a line of the text, no earlier than
/// where it started.
pub proof fn lemma_group_scan_bounds(lines: Seq<Seq<char>>, i: int, fence: Option<Seq<char>>, tabs: Seq<TabView>)
    ensures
        group_scan(lines, i, fence, tabs) is Ok ==> i <= group_scan(lines, i, fence, tabs)->Ok_0.0 < lines.len(),
    decreases lines.len() - i,
{
    if 0 <= i < lines.len() {
        let line = lines[i];
        let t = trim(line);
        let next = fence_step(fence, t);
        lemma_group_scan_bounds(lines, i + 1, next, tabs.push((trim(t.skip(6)), Seq::empty())));
        lemma_group_scan_bounds(lines, i + 1, next, tabs);
        if tabs.len() > 0 {
            lemma_group_scan_bounds(lines, i + 1, next, tabs.update(tabs.len() - 1, (tabs.last().0, tabs.last().1.push(line))));
        }
    }
}

/// The message for a `:::tab` line outside any group.
pub open spec fn stray_tab_message(rest: Seq<char>) -> Seq<char> {
    "':::tab"@ + rest + "' outside a ':::tabs' block (open the group with ':::tabs' first)"@
}

/// The expansion of the lines from `i` on, in fence state `fence`: lines
/// pass through with a newline each, a `:::tabs` group becomes its
/// markup, and a stray `:::tab` or `:::` is an error.
pub open spec fn expand_lines(lines: Seq<Seq<char>>, i: int, fence: Option<Seq<char>>) -> Result<Seq<char>, Seq<char>>
    decreases lines.len() - i,
{
    if i < 0 || i >= lines.len() {
        Ok(Seq::empty())
    } else {
        let line = lines[i];
        let t = trim(line);
        let next = fence_step(fence, t);
        if next is None && t == ":::tabs"@ {
            match group_expansion(lines, i) {
                Err(e) => Err(e),
                Ok((j, html)) => {
                    proof { lemma_group_scan_bounds(lines, i + 1, None, Seq::empty()); }
                    prepend(html, expand_lines(lines, j, None))
                },
            }
        } else if next is None && has_prefix(t, ":::tab"@) {
            Err(stray_tab_message(t.skip(6)))
        } else if next is None && t == ":::"@ {
            Err("':::' closes a tab group, but none is open"@)
        } else {
            prepend(line.push('\n'), expand_lines(lines, i + 1, next))
        }
    }
}

/// `p` in front of a successful expansion; an error stays as it is.
pub open spec fn prepend(p: Seq<char>, r: Result<Seq<char>, Seq<char>>) -> Result<Seq<char>, Seq<char>> {
    match r {
        Ok(x) => Ok(p + x),
        Err(e) => Err(e),
    }
}

/// Prepending twice is prepending the concatenation.
pub proof fn lemma_prepend_twice(a: Seq<char>, b: Seq<char>, r: Result<Seq<char>, Seq<char>>)
    ensures
        prepend(a, prepend(b, r)) == prepend(a + b, r),
{
    if let Ok(x) = r {
        assert(a + (b + x) =~= (a + b) + x);
    }
}

/// The whole expansion of a text: unchanged when no `:::` occurs in it,
/// else its lines expanded from the top, outside any fence.
pub open spec fn tab_expansion(s: Seq<char>) -> Result<Seq<char>, Seq<char>> {
    if !has_colon_run(s) {
        Ok(s)
    } else {
        expand_lines(lines_of(s), 0, None)
    }
}

/// The fence state held in a small number: none, backticks or tildes.
pub open spec fn fence_of(f: u8) -> Option<Seq<char>> {
    if f == 1 {
        Some(ticks3())
    } else if f == 2 {
        Some(tildes3())
    } else {
        None
    }
}

/// The trimmed text of a line.
fn trimmed(line: &[char]) -> (t: Vec<char>)
    ensures
        t@ == trim(line@),
{
    let (a, b) = trim_bounds(line, 0, line.len());
    assert(line@.subrange(0, line@.len() as int) =~= line@);
    crate::text::slice_vec(line, a, b)
}

/// The fence state after a line whose trimmed text is `t`.
fn fence_after(f: u8, t: &[char]) -> (r: u8)
    requires
        f <= 2,
    ensures
        r <= 2,
        fence_of(r) == fence_step(fence_of(f), t@),
{
    let ticks = ['`', '`', '`'];
    let tildes = ['~', '~', '~'];
    assert(ticks@ =~= ticks3());
    assert(tildes@ =~= tildes3());
    assert(t@.skip(0) =~= t@);
    if f == 1 {
        if starts_at(t, 0, &ticks) { 0 } else { 1 }
    } else if f == 2 {
        if starts_at(t, 0, &tildes) { 0 } else { 2 }
    } else if starts_at(t, 0, &ticks) {
        1
    } else if starts_at(t, 0, &tildes) {
        2
    } else {
        0
    }
}

/// Tabs from their labels and bodies.
pub open spec fn tab_views(names: Seq<Seq<char>>, bodies: Seq<Seq<Seq<char>>>) -> Seq<TabView> {
    Seq::new(names.len(), |k: int| (names[k], bodies[k]))
}

/// The line views of a run of bodies.
pub open spec fn bodies_of(b: Seq<Vec<Vec<char>>>) -> Seq<Seq<Seq<char>>> {
    b.map_values(|x: Vec<Vec<char>>| seqs_of(x@))
}

/// The tabs collected so far: the finished bodies, then the open one.
pub open spec fn open_tabs(names: Seq<Seq<char>>, bodies: Seq<Seq<Seq<char>>>, cur: Seq<Seq<char>>) -> Seq<TabView> {
    if names.len() == 0 { Seq::empty() } else { tab_views(names, bodies.push(cur)) }
}

/// Collects the labels and bodies of the group opening at `start`.
fn scan_group(lines: &Vec<Vec<char>>, start: usize) -> (r: Result<(usize, Vec<Vec<char>>, Vec<Vec<Vec<char>>>), String>)
    requires
        start < lines@.len(),
    ensures
        match group_scan(seqs_of(lines@), start + 1, None, Seq::empty()) {
            Ok((j, tabs)) => r matches Ok((rj, names, bodies)) && rj == j && names@.len() == bodies@.len()
                && tab_views(seqs_of(names@), bodies_of(bodies@)) == tabs,
            Err(e) => r matches Err(m) && m@ == e,
        },
{
    let ghost lv = seqs_of(lines@);
    let n = lines.len();
    let mut names: Vec<Vec<char>> = Vec::new();
    let mut bodies: Vec<Vec<Vec<char>>> = Vec::new();
    let mut cur: Vec<Vec<char>> = Vec::new();
    let mut fence: u8 = 0;
    let mut i = start + 1;
    proof {
        reveal_strlit(":::tab");
    }
    while i < n
        invariant
            n == lines@.len(),
            lv == seqs_of(lines@),
            start < i <= n,
            fence <= 2,
            names@.len() == 0 ==> bodies@.len() == 0,
            names@.len() > 0 ==> bodies@.len() + 1 == names@.len(),
            ":::tab"@.len() == 6,
            group_scan(lv, start + 1, None, Seq::empty())
                == group_scan(lv, i as int, fence_of(fence), open_tabs(seqs_of(names@), bodies_of(bodies@), seqs_of(cur@))),
        decreases n - i,
    {
        let ghost tabs = open_tabs(seqs_of(names@), bodies_of(bodies@), seqs_of(cur@));
        let line = &lines[i];
        assert(lv[i as int] == line@);
        let t = trimmed(line.as_slice());
        let next = fence_after(fence, t.as_slice());
        let in_code = fence != 0 || next != 0;
        if !in_code && crate::text::chars_are(t.as_slice(), ":::") {
            if names.len() > 0 {
                let ghost before = open_tabs(seqs_of(names@), bodies_of(bodies@), seqs_of(cur@));
                bodies.push(cur);
                assert(bodies_of(bodies@) =~= bodies_of(bodies@.drop_last()).push(seqs_of(bodies@.last()@)));
                assert(tab_views(seqs_of(names@), bodies_of(bodies@)) =~= before);
            }
            return Ok((i, names, bodies));
        }
        if !in_code && crate::text::chars_are(t.as_slice(), ":::tabs") {
            return Err(owned("':::tabs' groups cannot nest"));
        }
        if !in_code && crate::text::chars_start_with(t.as_slice(), ":::tab") {
            let rest = crate::text::slice_vec(t.as_slice(), 6, t.len());
            let name = trimmed(rest.as_slice());
            assert(rest@ =~= t@.skip(6));
            if name.len() == 0 {
                return Err(owned("':::tab' needs a label, e.g. ':::tab Linux'"));
            }
            let ghost nv = seqs_of(names@);
            let ghost bv = bodies_of(bodies@);
            let ghost cv = seqs_of(cur@);
            if names.len() > 0 {
                bodies.push(cur);
                assert(bodies_of(bodies@) =~= bv.push(cv));
            }
            cur = Vec::new();
            names.push(name);
            assert(seqs_of(names@) =~= nv.push(trim(t@.skip(6))));
            assert(seqs_of(cur@) =~= Seq::<Seq<char>>::empty());
            assert(open_tabs(seqs_of(names@), bodies_of(bodies@), seqs_of(cur@)) =~= tabs.push((trim(t@.skip(6)), Seq::empty())));
        } else if names.len() == 0 {
            if t.len() != 0 {
                return Err(owned("content inside ':::tabs' before the first ':::tab' label"));
            }
        } else {
            let ghost cv = seqs_of(cur@);
            let copy = crate::text::slice_vec(line.as_slice(), 0, line.len());
            assert(copy@ =~= line@);
            cur.push(copy);
            assert(seqs_of(cur@) =~= cv.push(line@));
            assert(open_tabs(seqs_of(names@), bodies_of(bodies@), seqs_of(cur@))
                =~= tabs.update(tabs.len() - 1, (tabs.last().0, tabs.last().1.push(line@))));
        }
        fence = next;
        i = i + 1;
    }
    Err(owned("unclosed ':::tabs' block (close it with ':::')"))
}


/// Appends the markup of a group with the given labels and bodies.
fn push_group(out: &mut String, names: &Vec<Vec<char>>, bodies: &Vec<Vec<Vec<char>>>)
    requires
        names@.len() == bodies@.len(),
    ensures
        final(out)@ == old(out)@ + tab_group_html(tab_views(seqs_of(names@), bodies_of(bodies@))),
{
    let ghost tabs = tab_views(seqs_of(names@), bodies_of(bodies@));
    let n = names.len();
    push_str(out, "\n<div class=\"tabs\" data-tabs>\n<div class=\"tab-buttons\" role=\"tablist\">\n");
    let ghost head = out@;
    for k in 0..n
        invariant
            n == names@.len(),
            n == bodies@.len(),
            tabs == tab_views(seqs_of(names@), bodies_of(bodies@)),
            out@ == head + tab_buttons(tabs.take(k as int)),
    {
        let ghost before = out@;
        push_str(out, "<button class=\"tab-button\" type=\"button\" role=\"tab\" data-tab=\"");
        push_decimal_usize(out, k);
        push_str(out, "\" aria-selected=\"");
        if k == 0 {
            push_str(out, "true");
        } else {
            push_str(out, "false");
        }
        push_str(out, "\">");
        push_escaped_text(out, names[k].as_slice());
        push_str(out, "</button>\n");
        assert(tabs[k as int].0 == names@[k as int]@);
        assert(tabs.take(k + 1).drop_last() =~= tabs.take(k as int));
        assert(out@ =~= before + tab_button(k as nat, tabs[k as int].0));
    }
    assert(tabs.take(n as int) =~= tabs);
    push_str(out, "</div>\n\n");
    let ghost mid = out@;
    for k in 0..n
        invariant
            n == names@.len(),
            n == bodies@.len(),
            tabs == tab_views(seqs_of(names@), bodies_of(bodies@)),
            out@ == mid + tab_panels(tabs.take(k as int)),
    {
        let ghost before = out@;
        push_str(out, "<div class=\"tab-panel\" role=\"tabpanel\" data-tab-panel=\"");
        push_decimal_usize(out, k);
        push_str(out, "\"");
        if k != 0 {
            push_str(out, " hidden");
        }
        push_str(out, ">\n\n");
        let ghost opened = out@;
        let body = &bodies[k];
        let ghost bv = seqs_of(body@);
        assert(tabs[k as int].1 == bv);
        let m = body.len();
        for j in 0..m
            invariant
                m == body@.len(),
                bv == seqs_of(body@),
                out@ == opened + line_block(bv.take(j as int)),
        {
            let ghost b4 = out@;
            push_chars(out, body[j].as_slice());
            out.push('\n');
            assert(bv.take(j + 1).drop_last() =~= bv.take(j as int));
            assert(out@ =~= b4 + bv[j as int] + seq!['\n']);
        }
        assert(bv.take(m as int) =~= bv);
        push_str(out, "\n</div>\n\n");
        assert(tabs.take(k + 1).drop_last() =~= tabs.take(k as int));
        assert(out@ =~= before + tab_panel(k as nat, tabs[k as int].1));
    }
    assert(tabs.take(n as int) =~= tabs);
    push_str(out, "</div>\n\n");
}

/// Expands the group that opens at line `start`, appending its markup;
/// yields the index just past its closing `:::`.
fn expand_one_group(lines: &Vec<Vec<char>>, start: usize, out: &mut String) -> (r: Result<usize, String>)
    requires
        start < lines@.len(),
    ensures
        match group_expansion(seqs_of(lines@), start as int) {
            Ok((j, html)) => r matches Ok(rj) && rj == j && final(out)@ == old(out)@ + html,
            Err(e) => r matches Err(m) && m@ == e && final(out)@ == old(out)@,
        },
{
    let n = lines.len();
    proof {
        lemma_group_scan_bounds(seqs_of(lines@), start + 1, None, Seq::empty());
    }
    match scan_group(lines, start) {
        Err(e) => Err(e),
        Ok((end, names, bodies)) => {
            if names.len() == 0 {
                return Err(owned("':::tabs' block has no ':::tab' labels in it"));
            }
            push_group(out, &names, &bodies);
            Ok(end + 1)
        },
    }
}

/// Expands every `:::tabs` group of a text into its tabbed markup; the
/// error names the malformed marker.
pub fn expand_tab_groups(markdown: &str) -> (r: Result<String, String>)
    ensures
        match tab_expansion(markdown@) {
            Ok(x) => r matches Ok(o) && o@ == x,
            Err(e) => r matches Err(m) && m@ == e,
        },
{
    let s = chars_of(markdown);
    if !crate::text::contains_colon_run(s.as_slice()) {
        return Ok(owned(markdown));
    }
    let ls = lines(s.as_slice());
    let ghost lv = seqs_of(ls@);
    let n = ls.len();
    let mut out = String::new();
    let mut fence: u8 = 0;
    let mut i: usize = 0;
    proof {
        reveal_strlit(":::tab");
    }
    while i < n
        invariant
            n == ls@.len(),
            lv == seqs_of(ls@),
            lv == lines_of(markdown@),
            has_colon_run(markdown@),
            i <= n,
            fence <= 2,
            ":::tab"@.len() == 6,
            expand_lines(lv, 0, None) == prepend(out@, expand_lines(lv, i as int, fence_of(fence))),
        decreases n - i,
    {
        let line = &ls[i];
        assert(lv[i as int] == line@);
        let t = trimmed(line.as_slice());
        let next = fence_after(fence, t.as_slice());
        if next == 0 && crate::text::chars_are(t.as_slice(), ":::tabs") {
            let ghost b4 = out@;
            match expand_one_group(&ls, i, &mut out) {
                Err(e) => {
                    assert(expand_lines(lv, i as int, fence_of(fence)) == Err::<Seq<char>, Seq<char>>(e@));
                    return Err(e);
                },
                Ok(j) => {
                    proof {
                        lemma_group_scan_bounds(lv, i + 1, None, Seq::empty());
                        let html = group_expansion(lv, i as int)->Ok_0.1;
                        lemma_prepend_twice(b4, html, expand_lines(lv, j as int, None));
                    }
                    i = j;
                    fence = 0;
                },
            }
        } else if next == 0 && crate::text::chars_start_with(t.as_slice(), ":::tab") {
            let mut m = owned("':::tab");
            let rest = crate::text::slice_vec(t.as_slice(), 6, t.len());
            assert(rest@ =~= t@.skip(6));
            push_chars(&mut m, rest.as_slice());
            push_str(&mut m, "' outside a ':::tabs' block (open the group with ':::tabs' first)");
            assert(m@ =~= stray_tab_message(t@.skip(6)));
            assert(expand_lines(lv, i as int, fence_of(fence)) == Err::<Seq<char>, Seq<char>>(m@));
            return Err(m);
        } else if next == 0 && crate::text::chars_are(t.as_slice(), ":::") {
            return Err(owned("':::' closes a tab group, but none is open"));
        } else {
            let ghost b4 = out@;
            push_chars(&mut out, line.as_slice());
            out.push('\n');
            assert(out@ =~= b4 + line@.push('\n'));
            proof {
                lemma_prepend_twice(b4, line@.push('\n'), expand_lines(lv, i + 1, fence_of(next)));
            }
            fence = next;
            i = i + 1;
        }
    }
    Ok(out)
}


/// Text holding no `:::` anywhere comes back from tab expansion exactly
/// as it went in.
pub proof fn law_text_without_markers_is_unchanged(s: Seq<char>)
    requires
        !has_colon_run(s),
    ensures
        tab_expansion(s) == Ok::<Seq<char>, Seq<char>>(s),
{
}


/// The number of body lines of a run of tabs.
pub open spec fn body_lines(tabs: Seq<TabView>) -> nat
    decreases tabs.len(),
{
    if tabs.len() == 0 { 0 } else { body_lines(tabs.drop_last()) + tabs.last().1.len() }
}

/// Once a group has its first label, no line up to the closing `:::` is
/// lost: each is a `:::tab` label opening a new tab or lands in the body
/// of the open tab, blank lines and code included. The tabs already
/// collected stay as they were, and the open tab's body only grows.
pub proof fn law_tab_bodies_keep_every_line(lines: Seq<Seq<char>>, i: int, fence: Option<Seq<char>>, tabs: Seq<TabView>)
    requires
        tabs.len() > 0,
        group_scan(lines, i, fence, tabs) is Ok,
    ensures
        ({
            let (end, out) = group_scan(lines, i, fence, tabs)->Ok_0;
            &&& tabs.len() <= out.len()
            &&& end - i == (out.len() - tabs.len()) + body_lines(out) - body_lines(tabs)
            &&& out.take(tabs.len() - 1) == tabs.take(tabs.len() - 1)
            &&& out[tabs.len() - 1].0 == tabs.last().0
            &&& out[tabs.len() - 1].1.len() >= tabs.last().1.len()
            &&& out[tabs.len() - 1].1.take(tabs.last().1.len() as int) == tabs.last().1
        }),
    decreases lines.len() - i,
{
    let line = lines[i];
    let t = trim(line);
    let next = fence_step(fence, t);
    let in_code = fence is Some || next is Some;
    let n: int = tabs.len() as int;
    if !in_code && t == ":::"@ {
        assert(tabs.last().1.take(tabs.last().1.len() as int) =~= tabs.last().1);
    } else if !in_code && t == ":::tabs"@ {
    } else if !in_code && has_prefix(t, ":::tab"@) {
        let pushed = tabs.push((trim(t.skip(6)), Seq::empty()));
        law_tab_bodies_keep_every_line(lines, i + 1, next, pushed);
        let out = group_scan(lines, i, fence, tabs)->Ok_0.1;
        assert(pushed.drop_last() =~= tabs);
        assert(body_lines(pushed) == body_lines(tabs));
        assert(out.take(n - 1) =~= out.take(n).take(n - 1));
        assert(out.take(n) == pushed.take(n));
        assert(pushed.take(n) =~= tabs);
        assert(out[n - 1] == out.take(n)[n - 1]);
        assert(tabs.take(n - 1) =~= tabs.take(n).take(n - 1));
        assert(tabs.take(n) =~= tabs);
        assert(out[n - 1] == tabs[n - 1]);
        assert(tabs[n - 1] == tabs.last());
        assert(tabs.last().1.take(tabs.last().1.len() as int) =~= tabs.last().1);
    } else {
        let grown = tabs.update(n - 1, (tabs.last().0, tabs.last().1.push(line)));
        law_tab_bodies_keep_every_line(lines, i + 1, next, grown);
        let out = group_scan(lines, i, fence, tabs)->Ok_0.1;
        assert(grown.drop_last() =~= tabs.drop_last());
        assert(grown.last() == (tabs.last().0, tabs.last().1.push(line)));
        assert(body_lines(grown) == body_lines(tabs) + 1);
        assert(grown.take(n - 1) =~= tabs.take(n - 1));
        assert(grown.last() == grown[n - 1]);
        assert(out[n - 1].1.take(tabs.last().1.len() as int)
            =~= out[n - 1].1.take(grown.last().1.len() as int).take(tabs.last().1.len() as int));
        assert(tabs.last().1.push(line).take(tabs.last().1.len() as int) =~= tabs.last().1);
    }
}

} // verus!
