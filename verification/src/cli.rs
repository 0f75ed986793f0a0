//! The build command's options, as plain values.
use vstd::prelude::*;
use crate::text::{owned, push_str};

verus! {

/// What a build is asked to do.
pub struct BuildArgs {
    /// Site root directory (the one holding `trail.toml`).
    pub root: String,
    /// Directory the built site is written into; `ROOT/dist` by default.
    pub out: Option<String>,
    /// Warn instead of failing when a `~` link's target page does not
    /// exist. Ambiguous links still fail.
    pub allow_dangling_links: bool,
    /// Also write each unit's `print.md` as `llms-full.txt`.
    pub render_llms_full: bool,
}

/// `root` joined with `name`, as `Path::join` joins a relative name.
pub open spec fn path_join(root: Seq<char>, name: Seq<char>) -> Seq<char> {
    if root.len() == 0 {
        name
    } else if root.last() == '/' {
        root + name
    } else {
        root + seq!['/'] + name
    }
}

impl BuildArgs {
    /// The output directory: the one given, else `dist` under the root.
    pub fn out_dir(&self) -> (r: String)
        ensures
            r@ == match self.out {
                Some(o) => o@,
                None => path_join(self.root@, "dist"@),
            },
    {
        match &self.out {
            Some(o) => o.clone(),
            None => {
                let c = crate::text::chars_of(self.root.as_str());
                if c.len() == 0 {
                    return owned("dist");
                }
                let mut r = owned(self.root.as_str());
                if c[c.len() - 1] != '/' {
                    r.push('/');
                }
                push_str(&mut r, "dist");
                r
            },
        }
    }
}

} // verus!
