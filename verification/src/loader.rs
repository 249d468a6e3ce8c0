//! The file-loader interface: the host-supplied resolver of `#include`
//! paths, and two ready-made loaders.

use vstd::prelude::*;

use crate::chars::str_eq;
use crate::table::opt_str_view;

verus! {

/// Resolves an `#include` path to the textual contents of the included
/// resource. `None` means "not found" and makes the engine fail with
/// `CantOpenFile`. The preprocessor never opens files itself and never
/// interprets the path: no search paths, no canonicalization.
pub trait FileLoader {
    /// The model of the loader: what it returns for each path. A verified
    /// loader overrides this; an unverified one outside the library may
    /// leave it at the default, an unspecified mapping.
    open spec fn spec_load(&self, path: Seq<char>) -> Option<Seq<char>> {
        arbitrary()
    }

    /// The contents for `path`, exactly as [`Self::spec_load`] gives them.
    fn load(&self, path: &str) -> (r: Option<String>)
        ensures
            opt_str_view(r) == self.spec_load(path@),
    ;
}

/// A loader with nothing: every include fails.
pub struct EmptyLoader;

impl FileLoader for EmptyLoader {
    open spec fn spec_load(&self, path: Seq<char>) -> Option<Seq<char>> {
        None
    }

    fn load(&self, path: &str) -> (r: Option<String>) {
        None
    }
}

/// The first contents paired with `path`, if any.
pub open spec fn lookup(files: Seq<(String, String)>, path: Seq<char>) -> Option<Seq<char>>
    decreases files.len(),
{
    if files.len() == 0 {
        None
    } else if files[0].0@ == path {
        Some(files[0].1@)
    } else {
        lookup(files.drop_first(), path)
    }
}

/// A loader backed by a fixed list of `(path, contents)` pairs; the first
/// matching pair wins.
pub struct StaticLoader {
    pub files: Vec<(String, String)>,
}

impl FileLoader for StaticLoader {
    open spec fn spec_load(&self, path: Seq<char>) -> Option<Seq<char>> {
        lookup(self.files@, path)
    }

    fn load(&self, path: &str) -> (r: Option<String>) {
        let n = self.files.len();
        let mut k: usize = 0;
        proof {
            assert(self.files@.subrange(0, n as int) =~= self.files@);
        }
        loop
            invariant
                n == self.files@.len(),
                k <= n,
                lookup(self.files@, path@) == lookup(
                    self.files@.subrange(k as int, n as int),
                    path@,
                ),
            ensures
                k <= n,
                lookup(self.files@, path@) == lookup(
                    self.files@.subrange(k as int, n as int),
                    path@,
                ),
                k < n ==> self.files@[k as int].0@ == path@,
            decreases n - k,
        {
            if k >= n {
                break ;
            }
            if str_eq(self.files[k].0.as_str(), path) {
                break ;
            }
            proof {
                assert(self.files@.subrange(k as int, n as int).drop_first() =~= self.files@
                    .subrange(k as int + 1, n as int));
            }
            k = k + 1;
        }
        if k < n {
            proof {
                assert(self.files@.subrange(k as int, n as int)[0] == self.files@[k as int]);
            }
            Some(self.files[k].1.clone())
        } else {
            proof {
                assert(self.files@.subrange(k as int, n as int).len() == 0);
            }
            None
        }
    }
}

} // verus!
