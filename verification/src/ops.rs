use vstd::prelude::*;

use crate::component::{Platform, Component, SpecComp, duplicate, duplicate_all};
use crate::parse::{parse, decompose, valid_comps};
use crate::collapse::{
    collapse, collapse_from, collapse1, collapse_onto, canonical, rooted, segments_only,
    lemma_collapse_from_canonical, lemma_collapse_from_valid, lemma_collapse_from_rooted,
    lemma_parse_facts,
};
use crate::assemble::{assemble, component_vec_to_path_buf};

verus! {

/// Decompose `path` and collapse the result: the canonical component
/// sequence of the path.
pub fn normalize_to_component_vec(p: Platform, path: &str) -> (r: Vec<Component>)
    ensures
        r.deep_view() == collapse(parse(p, path@)),
{
    let comps = decompose(p, path);
    let acc: Vec<Component> = Vec::new();
    proof {
        assert(acc.deep_view() =~= Seq::<SpecComp>::empty());
    }
    collapse_onto(acc, &comps)
}

/// The normalized text of a path: its canonical components reassembled,
/// with `.` standing in for an empty result (on Windows, also for a bare
/// prefix).
pub open spec fn normalize_spec(p: Platform, s: Seq<char>) -> Seq<char> {
    let cs = collapse(parse(p, s));
    if p is Windows {
        if cs.len() == 0 || (cs.len() == 1 && cs[0] is Prefix) {
            assemble(p, cs.push(SpecComp::CurDir))
        } else {
            assemble(p, cs)
        }
    } else {
        if cs.len() == 0 {
            assemble(p, cs.push(SpecComp::CurDir))
        } else {
            assemble(p, cs)
        }
    }
}

/// Whether this component is a prefix.
fn is_prefix_comp(c: &Component) -> (r: bool)
    ensures
        r == (c@ is Prefix),
{
    matches!(c, Component::Prefix(_))
}

/// Whether this component is a root marker.
fn is_root_comp(c: &Component) -> (r: bool)
    ensures
        r == (c@ is RootDir),
{
    matches!(c, Component::RootDir)
}

/// Normalize a path string.
pub(crate) fn normalize_path(p: Platform, path: &str) -> (r: String)
    ensures
        r@ == normalize_spec(p, path@),
{
    let mut comps = normalize_to_component_vec(p, path);
    let ghost cs = comps.deep_view();
    let needs_dot = match p {
        Platform::Windows => comps.len() == 0 || (comps.len() == 1 && is_prefix_comp(&comps[0])),
        Platform::Posix => comps.len() == 0,
    };
    if needs_dot {
        let ghost pre = comps.deep_view();
        comps.push(Component::CurDir);
        proof {
            assert(comps.deep_view() =~= pre.push(SpecComp::CurDir));
        }
    }
    component_vec_to_path_buf(p, comps)
}

/// Whether `s` is an absolute path: it opens at the filesystem root (on
/// Windows, a drive or UNC prefix followed by the root marker).
pub open spec fn is_absolute_spec(p: Platform, s: Seq<char>) -> bool {
    if p is Windows {
        parse(p, s).len() >= 2 && parse(p, s)[0] is Prefix && parse(p, s)[1] is RootDir
    } else {
        parse(p, s).len() >= 1 && parse(p, s)[0] is RootDir
    }
}

/// Executable absoluteness test, matching `is_absolute_spec`.
pub fn is_absolute(p: Platform, path: &str) -> (r: bool)
    ensures
        r == is_absolute_spec(p, path@),
{
    let comps = decompose(p, path);
    match p {
        Platform::Windows => comps.len() >= 2 && is_prefix_comp(&comps[0]) && is_root_comp(
            &comps[1],
        ),
        Platform::Posix => comps.len() >= 1 && is_root_comp(&comps[0]),
    }
}

/// The well-formedness of a resolution base: canonical, well-formed, rooted
/// components, opening with a prefix on Windows and with the root on POSIX.
pub open spec fn cwd_wf(p: Platform, cwd: Seq<SpecComp>) -> bool {
    canonical(cwd) && valid_comps(p, cwd) && rooted(cwd) && (p is Windows ==> cwd[0] is Prefix) && (
    p is Posix ==> cwd[0] is RootDir)
}

/// The canonical components of the resolved, absolute form of `s`: an
/// absolute path stands alone; a path with a bare drive prefix gains its
/// root right after the prefix; a rooted path keeps the base's prefix;
/// anything else is appended to the base directory's components.
pub open spec fn resolve_comps(p: Platform, cwd: Seq<SpecComp>, s: Seq<char>) -> Seq<SpecComp> {
    let cs = parse(p, s);
    if cs.len() >= 2 && cs[0] is Prefix && cs[1] is RootDir {
        collapse(cs)
    } else if cs.len() >= 1 && cs[0] is Prefix {
        collapse(seq![cs[0], SpecComp::RootDir] + cs.skip(1))
    } else if cs.len() >= 1 && cs[0] is RootDir {
        if p is Windows {
            collapse(seq![cwd[0]] + cs)
        } else {
            collapse(cs)
        }
    } else {
        collapse_from(cwd, cs)
    }
}

/// The resolved text of `s` against the base `cwd`.
pub open spec fn resolve_spec(p: Platform, cwd: Seq<SpecComp>, s: Seq<char>) -> Seq<char> {
    assemble(p, resolve_comps(p, cwd, s))
}

/// Collapse a component list from an empty stack.
fn collapse_vec(comps: &Vec<Component>) -> (r: Vec<Component>)
    ensures
        r.deep_view() == collapse(comps.deep_view()),
{
    let acc: Vec<Component> = Vec::new();
    proof {
        assert(acc.deep_view() =~= Seq::<SpecComp>::empty());
    }
    collapse_onto(acc, comps)
}

/// Insert the root marker right after the leading (drive) prefix, then
/// collapse: resolution of a drive-relative path.
fn synthesize_root(comps: &Vec<Component>) -> (r: Vec<Component>)
    requires
        comps.deep_view().len() >= 1,
    ensures
        r.deep_view() == collapse(
            seq![comps.deep_view()[0], SpecComp::RootDir] + comps.deep_view().skip(1),
        ),
{
    let mut with_root = duplicate_all(comps);
    with_root.insert(1, Component::RootDir);
    proof {
        assert(with_root.deep_view() =~= seq![comps.deep_view()[0], SpecComp::RootDir]
            + comps.deep_view().skip(1));
    }
    collapse_vec(&with_root)
}

/// Put the base directory's prefix in front of a rooted path, then
/// collapse: resolution of a rooted, prefix-less path.
fn keep_base_prefix(cwd0: &Component, comps: &Vec<Component>) -> (r: Vec<Component>)
    requires
        cwd0@ is Prefix,
    ensures
        r.deep_view() == collapse(seq![cwd0@] + comps.deep_view()),
{
    let mut acc: Vec<Component> = Vec::new();
    acc.push(duplicate(cwd0));
    let ghost cs = comps.deep_view();
    proof {
        assert(acc.deep_view() =~= seq![cwd0@]);
        assert((seq![cwd0@] + cs).drop_first() =~= cs);
        assert((seq![cwd0@] + cs)[0] == cwd0@);
        assert(collapse1(Seq::empty(), cwd0@) =~= seq![cwd0@]);
        assert(collapse(seq![cwd0@] + cs) == collapse_from(seq![cwd0@], cs));
    }
    collapse_onto(acc, comps)
}

/// A resolution context: the platform rules and the canonical components of
/// the base (working) directory, fixed at construction and shared by every
/// `resolve` and `relative` call made through it.
pub struct Resolver {
    platform: Platform,
    cwd: Vec<Component>,
}

impl Resolver {
    /// The platform this context resolves for.
    pub closed spec fn platform(&self) -> Platform {
        self.platform
    }

    /// The canonical components of the base directory.
    pub closed spec fn cwd(&self) -> Seq<SpecComp> {
        self.cwd.deep_view()
    }

    pub open spec fn wf(&self) -> bool {
        cwd_wf(self.platform(), self.cwd())
    }

    /// Executable access to the platform.
    pub fn platform_value(&self) -> (p: Platform)
        ensures
            p == self.platform(),
    {
        self.platform
    }

    /// Build a context from an absolute base directory path; a relative one
    /// is refused.
    pub fn from_cwd(platform: Platform, cwd: &str) -> (r: Option<Resolver>)
        ensures
            r is Some <==> is_absolute_spec(platform, cwd@),
            r matches Some(v) ==> v.platform() == platform && v.cwd() == collapse(
                parse(platform, cwd@),
            ) && v.wf(),
    {
        let comps = decompose(platform, cwd);
        let ok = match platform {
            Platform::Windows => comps.len() >= 2 && is_prefix_comp(&comps[0]) && is_root_comp(
                &comps[1],
            ),
            Platform::Posix => comps.len() >= 1 && is_root_comp(&comps[0]),
        };
        if ok {
            let acc: Vec<Component> = Vec::new();
            proof {
                assert(acc.deep_view() =~= Seq::<SpecComp>::empty());
            }
            let collapsed = collapse_onto(acc, &comps);
            proof {
                let cs = parse(platform, cwd@);
                lemma_parse_facts(platform, cwd@);
                if matches!(platform, Platform::Windows) {
                    let acc2 = seq![cs[0], cs[1]];
                    assert(collapse1(Seq::empty(), cs[0]) =~= seq![cs[0]]);
                    assert(cs.drop_first()[0] == cs[1]);
                    assert(collapse1(seq![cs[0]], cs[1]) =~= acc2);
                    assert(cs.drop_first().drop_first() =~= cs.skip(2));
                    assert(collapse(cs) == collapse_from(seq![cs[0]], cs.drop_first()));
                    assert(collapse_from(seq![cs[0]], cs.drop_first()) == collapse_from(
                        acc2,
                        cs.skip(2),
                    ));
                    assert(canonical(acc2) && rooted(acc2) && valid_comps(platform, acc2));
                    lemma_collapse_from_canonical(acc2, cs.skip(2));
                    lemma_collapse_from_valid(platform, acc2, cs.skip(2));
                    lemma_collapse_from_rooted(acc2, cs.skip(2));
                } else {
                    let acc2 = seq![cs[0]];
                    assert(collapse1(Seq::empty(), cs[0]) =~= acc2);
                    assert(cs.drop_first() =~= cs.skip(1));
                    assert(collapse(cs) == collapse_from(acc2, cs.skip(1)));
                    assert(canonical(acc2) && rooted(acc2) && valid_comps(platform, acc2));
                    lemma_collapse_from_canonical(acc2, cs.skip(1));
                    lemma_collapse_from_valid(platform, acc2, cs.skip(1));
                    lemma_collapse_from_rooted(acc2, cs.skip(1));
                }
            }
            Some(Resolver { platform, cwd: collapsed })
        } else {
            None
        }
    }

    /// The canonical components of the resolved form of `path`.
    pub fn resolve_components(&self, path: &str) -> (r: Vec<Component>)
        requires
            self.wf(),
        ensures
            r.deep_view() == resolve_comps(self.platform(), self.cwd(), path@),
    {
        let p = self.platform;
        let comps = decompose(p, path);
        let has_prefix = comps.len() >= 1 && is_prefix_comp(&comps[0]);
        if has_prefix && comps.len() >= 2 && is_root_comp(&comps[1]) {
            collapse_vec(&comps)
        } else if has_prefix {
            synthesize_root(&comps)
        } else if comps.len() >= 1 && is_root_comp(&comps[0]) {
            match p {
                Platform::Windows => keep_base_prefix(&self.cwd[0], &comps),
                Platform::Posix => collapse_vec(&comps),
            }
        } else {
            let acc = duplicate_all(&self.cwd);
            collapse_onto(acc, &comps)
        }
    }

    /// Resolve: the absolute, normalized text of `path` against this base.
    pub fn resolve(&self, path: &str) -> (r: String)
        requires
            self.wf(),
        ensures
            r@ == resolve_spec(self.platform(), self.cwd(), path@),
    {
        let comps = self.resolve_components(path);
        let p = self.platform;
        component_vec_to_path_buf(p, comps)
    }
}

} // verus!
