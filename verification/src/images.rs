//! Co-located images: looked up by normalized source path when an
//! article's relative `![](...)` destination resolves, with the images
//! actually referenced tracked so the build ships those and only those.
use vstd::prelude::*;
use crate::markdown::ImageInfo;
use crate::site::ImageAsset;
use crate::text::{chars_of, join, owned, push_chars, push_str, split_on, string_of};

verus! {

/// What `imagesize::blob_size` reads from a file's bytes.
pub uninterp spec fn header_size(bytes: Seq<u8>) -> Option<(usize, usize)>;

/// `imagesize::blob_size`: the pixel width and height an image's header
/// states, or None where the format is unknown or the header unreadable.
/// Claimed: the answer is a function of the bytes alone.
#[verifier::external_body]
fn blob_size(bytes: &[u8]) -> (r: Option<(usize, usize)>)
    ensures
        r == header_size(bytes@),
{
    match imagesize::blob_size(bytes) {
        Ok(size) => Some((size.width, size.height)),
        Err(_) => None,
    }
}

/// A path lexically normalized: `.` parts dropped, each `..` dropping
/// the part before it (nothing above the start), kept absolute when it
/// starts at the root.
pub open spec fn normalized(p: Seq<char>) -> Seq<char> {
    let parts = resolve_parts(split_on(p, '/'));
    if p.len() > 0 && p[0] == '/' { seq!['/'] + join(parts, seq!['/']) } else { join(parts, seq!['/']) }
}

/// The parts left after walking `.` and `..` parts.
pub open spec fn resolve_parts(raw: Seq<Seq<char>>) -> Seq<Seq<char>>
    decreases raw.len(),
{
    if raw.len() == 0 {
        Seq::empty()
    } else {
        let before = resolve_parts(raw.drop_last());
        let part = raw.last();
        if part.len() == 0 || part == seq!['.'] {
            before
        } else if part == seq!['.', '.'] {
            if before.len() > 0 { before.drop_last() } else { before }
        } else {
            before.push(part)
        }
    }
}

/// `dir` joined with `reference`: an absolute reference replaces it.
pub open spec fn joined(dir: Seq<char>, reference: Seq<char>) -> Seq<char> {
    if reference.len() > 0 && reference[0] == '/' {
        reference
    } else if dir.len() == 0 {
        reference
    } else if dir.last() == '/' {
        dir + reference
    } else {
        dir + seq!['/'] + reference
    }
}

/// Normalizes a path lexically.
fn normalize(p: &str) -> (r: String)
    ensures
        r@ == normalized(p@),
{
    let c = chars_of(p);
    let raw = crate::text::split_chars(c.as_slice(), '/');
    let ghost rv = raw@.map_values(|v: Vec<char>| v@);
    let mut parts: Vec<String> = Vec::new();
    for i in 0..raw.len()
        invariant
            rv == raw@.map_values(|v: Vec<char>| v@),
            parts@.map_values(|s: String| s@) == resolve_parts(rv.take(i as int)),
    {
        assert(rv.take(i + 1).drop_last() =~= rv.take(i as int));
        assert(rv[i as int] == raw@[i as int]@);
        let part = &raw[i];
        let ghost b = parts@.map_values(|s: String| s@);
        if part.len() == 0 || (part.len() == 1 && part[0] == '.') {
            assert(part.len() == 1 && part[0] == '.' ==> part@ =~= seq!['.']);
        } else if part.len() == 2 && part[0] == '.' && part[1] == '.' {
            assert(part@ =~= seq!['.', '.']);
            if parts.len() > 0 {
                parts.pop();
                assert(parts@.map_values(|s: String| s@) =~= b.drop_last());
            }
        } else {
            assert(part@ != seq!['.']);
            assert(part@ != seq!['.', '.']);
            let s = string_of(part.as_slice());
            parts.push(s);
            assert(parts@.map_values(|s: String| s@) =~= b.push(part@));
        }
    }
    assert(rv.take(raw@.len() as int) =~= rv);
    assert(rv == split_on(p@, '/'));
    let mut out = String::new();
    if c.len() > 0 && c[0] == '/' {
        out.push('/');
    }
    crate::text::push_joined(&mut out, &parts, "/");
    proof {
        crate::text::lemma_str_slash();
    }
    assert(out@ =~= normalized(p@));
    out
}

/// Joins a reference onto a directory.
fn join_reference(dir: &str, reference: &str) -> (r: String)
    ensures
        r@ == joined(dir@, reference@),
{
    let d = chars_of(dir);
    let rc = chars_of(reference);
    if rc.len() > 0 && rc[0] == '/' {
        return owned(reference);
    }
    if d.len() == 0 {
        return owned(reference);
    }
    let mut out = owned(dir);
    if d[d.len() - 1] != '/' {
        out.push('/');
    }
    push_str(&mut out, reference);
    out
}

/// Every image in the tree by normalized source path, and the paths of
/// the images referenced so far.
pub struct ImageIndex {
    pub by_source: Vec<(String, ImageInfo)>,
    pub used: Vec<String>,
}

/// What one article's images resolve against: the shared index plus the
/// article's own source directory.
pub struct ImageScope<'a> {
    pub index: &'a ImageIndex,
    pub dir: &'a str,
}

/// The last entry of the index under a path.
pub open spec fn entry_for(by_source: Seq<(String, ImageInfo)>, path: Seq<char>) -> Option<int>
    decreases by_source.len(),
{
    if by_source.len() == 0 {
        None
    } else if by_source.last().0@ == path {
        Some(by_source.len() - 1)
    } else {
        entry_for(by_source.drop_last(), path)
    }
}

/// Pixel dimensions as `u32`s, where they fit.
pub open spec fn dims(size: Option<(usize, usize)>) -> (Option<u32>, Option<u32>) {
    match size {
        Some((w, h)) => (if w <= u32::MAX { Some(w as u32) } else { None }, if h <= u32::MAX { Some(h as u32) } else { None }),
        None => (None, None),
    }
}

/// What an image's entry holds: its URL and the dimensions its header
/// states (none where it could not be read).
pub open spec fn entry_of(asset: ImageAsset, header: Option<Vec<u8>>, e: (String, ImageInfo)) -> bool {
    &&& e.0@ == normalized(asset.source@)
    &&& e.1.url == asset.url
    &&& (e.1.width, e.1.height) == match header {
        Some(bytes) => dims(header_size(bytes@)),
        None => (None, None),
    }
}

impl ImageIndex {
    /// Indexes the images of a site; `headers` holds each image's file
    /// contents where they could be read.
    pub fn new(assets: &Vec<ImageAsset>, headers: &Vec<Option<Vec<u8>>>) -> (r: ImageIndex)
        requires
            headers@.len() == assets@.len(),
        ensures
            r.by_source@.len() == assets@.len(),
            forall|i: int| 0 <= i < assets@.len() ==> entry_of(#[trigger] assets@[i], headers@[i], r.by_source@[i]),
            r.used@.len() == 0,
    {
        let mut by_source: Vec<(String, ImageInfo)> = Vec::new();
        for i in 0..assets.len()
            invariant
                headers@.len() == assets@.len(),
                by_source@.len() == i,
                forall|j: int| 0 <= j < i ==> entry_of(#[trigger] assets@[j], headers@[j], by_source@[j]),
        {
            let size = match &headers[i] {
                Some(bytes) => blob_size(bytes.as_slice()),
                None => None,
            };
            let (width, height) = match size {
                Some((w, h)) => (
                    if w <= 0xffff_ffff { Some(w as u32) } else { None },
                    if h <= 0xffff_ffff { Some(h as u32) } else { None },
                ),
                None => (None, None),
            };
            let key = normalize(assets[i].source.as_str());
            by_source.push((key, ImageInfo { url: assets[i].url.clone(), width, height }));
        }
        ImageIndex { by_source, used: Vec::new() }
    }

    /// Resolves a relative destination against `dir`. A hit marks the
    /// image as used; a miss means the file is not in the tree (or the
    /// path escapes it), and the caller decides how loudly to complain.
    pub fn resolve(&mut self, dir: &str, reference: &str) -> (r: Option<ImageInfo>)
        ensures
            final(self).by_source == old(self).by_source,
            match entry_for(old(self).by_source@, normalized(joined(dir@, reference@))) {
                Some(i) => {
                    &&& r matches Some(info) && info.url == old(self).by_source@[i].1.url
                        && info.width == old(self).by_source@[i].1.width && info.height == old(self).by_source@[i].1.height
                    &&& final(self).used@.len() == old(self).used@.len() + 1
                    &&& final(self).used@.take(old(self).used@.len() as int) == old(self).used@
                    &&& final(self).used@.last()@ == normalized(joined(dir@, reference@))
                },
                None => r is None && final(self).used == old(self).used,
            },
            used_paths(final(self).used@) == resolve_step(old(self).by_source@, used_paths(old(self).used@), dir@, reference@),
    {
        let path = normalize(join_reference(dir, reference).as_str());
        let mut i = self.by_source.len();
        assert(self.by_source@.take(i as int) =~= self.by_source@);
        while i > 0
            invariant
                i <= self.by_source@.len(),
                self.by_source == old(self).by_source,
                self.used == old(self).used,
                path@ == normalized(joined(dir@, reference@)),
                entry_for(self.by_source@, path@) == entry_for(self.by_source@.take(i as int), path@),
            decreases i,
        {
            assert(self.by_source@.take(i as int).drop_last() =~= self.by_source@.take(i - 1));
            if crate::text::text_eq(self.by_source[i - 1].0.as_str(), path.as_str()) {
                let e = &self.by_source[i - 1].1;
                let info = ImageInfo { url: e.url.clone(), width: e.width, height: e.height };
                let ghost before = self.used@;
                self.used.push(path);
                assert(self.used@.take(before.len() as int) =~= before);
                return Some(info);
            }
            i = i - 1;
        }
        None
    }

    /// Whether an image has been referenced.
    pub fn is_used(&self, asset: &ImageAsset) -> (r: bool)
        ensures
            r == exists|i: int| 0 <= i < self.used@.len() && #[trigger] self.used@[i]@ == normalized(asset.source@),
            r == used_paths(self.used@).contains(normalized(asset.source@)),
    {
        let key = normalize(asset.source.as_str());
        for i in 0..self.used.len()
            invariant
                key@ == normalized(asset.source@),
                forall|j: int| 0 <= j < i ==> #[trigger] self.used@[j]@ != key@,
        {
            if crate::text::text_eq(self.used[i].as_str(), key.as_str()) {
                assert(used_paths(self.used@)[i as int] == key@);
                return true;
            }
        }
        assert(!used_paths(self.used@).contains(key@)) by {
            if used_paths(self.used@).contains(key@) {
                let j = choose|j: int| 0 <= j < used_paths(self.used@).len() && used_paths(self.used@)[j] == key@;
                assert(self.used@[j]@ == key@);
            }
        }
        false
    }
}


/// The paths in a used list.
pub open spec fn used_paths(used: Seq<String>) -> Seq<Seq<char>> {
    used.map_values(|u: String| u@)
}

/// What one resolve does to the used paths: a hit adds the resolved path.
pub open spec fn resolve_step(by_source: Seq<(String, ImageInfo)>, used: Seq<Seq<char>>, dir: Seq<char>, reference: Seq<char>) -> Seq<Seq<char>> {
    let p = normalized(joined(dir, reference));
    if entry_for(by_source, p) is Some { used.push(p) } else { used }
}

/// The used paths after resolving each `(dir, reference)` in turn.
pub open spec fn resolve_all(by_source: Seq<(String, ImageInfo)>, used: Seq<Seq<char>>, calls: Seq<(Seq<char>, Seq<char>)>) -> Seq<Seq<char>>
    decreases calls.len(),
{
    if calls.len() == 0 {
        used
    } else {
        resolve_step(by_source, resolve_all(by_source, used, calls.drop_last()), calls.last().0, calls.last().1)
    }
}

/// An image counts as used exactly when an earlier resolve hit it: from a
/// fresh index, after any run of resolves, a path is among the used ones
/// if and only if some resolve of the run landed on it and the index
/// holds an image there.
pub proof fn law_used_iff_resolved(by_source: Seq<(String, ImageInfo)>, calls: Seq<(Seq<char>, Seq<char>)>, path: Seq<char>)
    ensures
        resolve_all(by_source, Seq::empty(), calls).contains(path) <==>
            (entry_for(by_source, path) is Some
                && exists|k: int| 0 <= k < calls.len() && #[trigger] normalized(joined(calls[k].0, calls[k].1)) == path),
    decreases calls.len(),
{
    if calls.len() > 0 {
        let rest = calls.drop_last();
        law_used_iff_resolved(by_source, rest, path);
        let before = resolve_all(by_source, Seq::empty(), rest);
        let p = normalized(joined(calls.last().0, calls.last().1));
        if resolve_all(by_source, Seq::empty(), calls).contains(path) {
            if before.contains(path) {
                let k = choose|k: int| 0 <= k < rest.len() && #[trigger] normalized(joined(rest[k].0, rest[k].1)) == path;
                assert(calls[k] == rest[k]);
            } else {
                assert(entry_for(by_source, p) is Some);
                let j = choose|j: int| 0 <= j < before.push(p).len() && before.push(p)[j] == path;
                assert(path == p);
                assert(normalized(joined(calls[calls.len() - 1].0, calls[calls.len() - 1].1)) == path);
            }
        }
        if entry_for(by_source, path) is Some
            && exists|k: int| 0 <= k < calls.len() && #[trigger] normalized(joined(calls[k].0, calls[k].1)) == path {
            let k = choose|k: int| 0 <= k < calls.len() && #[trigger] normalized(joined(calls[k].0, calls[k].1)) == path;
            if k < rest.len() {
                assert(rest[k] == calls[k]);
                assert(before.contains(path));
                let j = choose|j: int| 0 <= j < before.len() && before[j] == path;
                if entry_for(by_source, p) is Some {
                    assert(before.push(p)[j] == path);
                }
            } else {
                assert(p == path);
                assert(before.push(p)[before.len() as int] == path);
            }
        }
    }
}

} // verus!
