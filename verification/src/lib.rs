//! Pure path-string manipulation with Node.js-`path`-equivalent semantics:
//! normalization (collapsing `.`/`..` segments and redundant separators),
//! resolution against a base directory, and relative-path computation,
//! for both POSIX and Windows path conventions.

use vstd::prelude::*;

pub mod component;
pub mod parse;
pub mod collapse;
pub mod assemble;
pub mod ops;
pub mod relative;
pub mod laws;

verus! {

use crate::component::Platform;
use crate::ops::{Resolver, normalize_spec, resolve_spec, normalize_path};
use crate::relative::{relative_spec, relative_path};

/// The three path operations, exposed on path-like string values.
pub trait SugarPath {
    /// The characters of the path value.
    spec fn path_chars(&self) -> Seq<char>;

    /// Normalize the path: resolve `.` and `..` segments, collapse repeated
    /// separators, and let an empty result read `.`.
    fn normalize(&self, p: Platform) -> (r: String)
        ensures
            r@ == normalize_spec(p, self.path_chars()),
    ;

    /// Make the path absolute against the context's base directory, fully
    /// normalized.
    fn resolve(&self, env: &Resolver) -> (r: String)
        requires
            env.wf(),
        ensures
            r@ == resolve_spec(env.platform(), env.cwd(), self.path_chars()),
    ;

    /// The relative path that leads from `to`'s resolved form to this
    /// path's resolved form.
    fn relative(&self, to: &str, env: &Resolver) -> (r: String)
        requires
            env.wf(),
        ensures
            r@ == relative_spec(env.platform(), env.cwd(), self.path_chars(), to@),
    ;
}

impl SugarPath for str {
    open spec fn path_chars(&self) -> Seq<char> {
        self@
    }

    fn normalize(&self, p: Platform) -> (r: String) {
        normalize_path(p, self)
    }

    fn resolve(&self, env: &Resolver) -> (r: String) {
        env.resolve(self)
    }

    fn relative(&self, to: &str, env: &Resolver) -> (r: String) {
        relative_path(env, self, to)
    }
}

} // verus!
