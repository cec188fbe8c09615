use vstd::prelude::*;

use crate::component::{
    Platform, Component, SpecComp, ci_seq_eq, ci_char_eq, fold, duplicate,
};
use crate::ops::{Resolver, resolve_comps};
use crate::assemble::{assemble, component_vec_to_path_buf};

verus! {

/// Which components take part in the common-prefix walk: prefixes, root
/// markers and named segments. Resolved paths hold nothing else; the filter
/// is defensive.
pub open spec fn keep_for_relative(c: SpecComp) -> bool {
    c is Prefix || c is RootDir || c is Normal
}

/// `cs` restricted to the components the walk compares.
pub open spec fn filtered(cs: Seq<SpecComp>) -> Seq<SpecComp>
    decreases cs.len(),
{
    if cs.len() == 0 {
        Seq::empty()
    } else if keep_for_relative(cs[0]) {
        seq![cs[0]] + filtered(cs.drop_first())
    } else {
        filtered(cs.drop_first())
    }
}

/// Whether two components match during the walk: on Windows two named
/// segments match ASCII-case-insensitively; everything else must be equal.
pub open spec fn match_at(p: Platform, a: SpecComp, b: SpecComp) -> bool {
    match (a, b) {
        (SpecComp::Normal(x), SpecComp::Normal(y)) => if p is Windows {
            ci_seq_eq(x, y)
        } else {
            a == b
        },
        _ => a == b,
    }
}

/// The length of the longest common prefix of `a` and `b` under the match
/// rule.
pub open spec fn common_len(p: Platform, a: Seq<SpecComp>, b: Seq<SpecComp>) -> int
    decreases a.len(),
{
    if a.len() == 0 || b.len() == 0 {
        0
    } else if match_at(p, a[0], b[0]) {
        1 + common_len(p, a.drop_first(), b.drop_first())
    } else {
        0
    }
}

/// A run of `k` `..` segments.
pub open spec fn parent_run(k: int) -> Seq<SpecComp> {
    Seq::new(k as nat, |j: int| SpecComp::ParentDir)
}

/// The relative path that leads from `from`'s resolved form to `to`'s
/// resolved form: empty when both resolve to the same components; the
/// resolved target alone when nothing matches (distinct prefixes);
/// otherwise one `..` per unmatched base component, followed by the
/// unmatched target components.
pub open spec fn relative_spec(
    p: Platform,
    cwd: Seq<SpecComp>,
    from: Seq<char>,
    to: Seq<char>,
) -> Seq<char> {
    let base = resolve_comps(p, cwd, to);
    let target = resolve_comps(p, cwd, from);
    if base == target {
        Seq::empty()
    } else {
        let b = filtered(base);
        let t = filtered(target);
        let i = common_len(p, b, t);
        if i == 0 {
            assemble(p, t)
        } else {
            assemble(p, parent_run(b.len() - i) + t.skip(i))
        }
    }
}

/// ASCII-case-insensitive equality of two segment texts.
fn ci_str_eq(a: &String, b: &String) -> (r: bool)
    ensures
        r == ci_seq_eq(a@, b@),
{
    let n = a.as_str().unicode_len();
    let m = b.as_str().unicode_len();
    if n != m {
        return false;
    }
    let mut i: usize = 0;
    while i < n
        invariant
            i <= n,
            n == a@.len(),
            n == b@.len(),
            forall|k: int| 0 <= k < i ==> ci_char_eq(a@[k], b@[k]),
        decreases n - i,
    {
        if fold(a.as_str().get_char(i)) != fold(b.as_str().get_char(i)) {
            return false;
        }
        i = i + 1;
    }
    true
}

/// Exact component equality.
fn comp_eq(a: &Component, b: &Component) -> (r: bool)
    ensures
        r == (a@ == b@),
{
    match (a, b) {
        (Component::Prefix(x), Component::Prefix(y)) => <String as PartialEq>::eq(x, y),
        (Component::RootDir, Component::RootDir) => true,
        (Component::CurDir, Component::CurDir) => true,
        (Component::ParentDir, Component::ParentDir) => true,
        (Component::Normal(x), Component::Normal(y)) => <String as PartialEq>::eq(x, y),
        _ => false,
    }
}

/// The walk's match rule.
fn comps_match(p: Platform, a: &Component, b: &Component) -> (r: bool)
    ensures
        r == match_at(p, a@, b@),
{
    if matches!(p, Platform::Windows) {
        match (a, b) {
            (Component::Normal(x), Component::Normal(y)) => ci_str_eq(x, y),
            _ => comp_eq(a, b),
        }
    } else {
        comp_eq(a, b)
    }
}

/// Component-wise equality of two component lists.
fn comps_equal(a: &Vec<Component>, b: &Vec<Component>) -> (r: bool)
    ensures
        r == (a.deep_view() == b.deep_view()),
{
    if a.len() != b.len() {
        proof {
            assert(a.deep_view().len() != b.deep_view().len());
        }
        return false;
    }
    let mut i: usize = 0;
    while i < a.len()
        invariant
            i <= a.len(),
            a.len() == b.len(),
            forall|k: int| 0 <= k < i ==> a.deep_view()[k] == b.deep_view()[k],
        decreases a.len() - i,
    {
        if !comp_eq(&a[i], &b[i]) {
            proof {
                assert(a.deep_view()[i as int] != b.deep_view()[i as int]);
            }
            return false;
        }
        i = i + 1;
    }
    proof {
        assert(a.deep_view() =~= b.deep_view());
    }
    true
}

/// Keep only the components the walk compares.
fn filter_components(cs: &Vec<Component>) -> (r: Vec<Component>)
    ensures
        r.deep_view() == filtered(cs.deep_view()),
{
    let ghost all = cs.deep_view();
    let mut out: Vec<Component> = Vec::new();
    let mut i: usize = 0;
    proof {
        assert(all.skip(0) =~= all);
        assert(out.deep_view() =~= Seq::<SpecComp>::empty());
    }
    while i < cs.len()
        invariant
            i <= cs.len(),
            all == cs.deep_view(),
            filtered(all) == out.deep_view() + filtered(all.skip(i as int)),
        decreases cs.len() - i,
    {
        let ghost pre = out.deep_view();
        let c = &cs[i];
        if matches!(c, Component::Prefix(_) | Component::RootDir | Component::Normal(_)) {
            out.push(duplicate(c));
            proof {
                assert(out.deep_view() =~= pre.push(c@));
            }
        }
        proof {
            assert(all.skip(i as int)[0] == c@);
            assert(all.skip(i as int).drop_first() =~= all.skip(i as int + 1));
            assert(filtered(all) =~= out.deep_view() + filtered(all.skip(i as int + 1)));
        }
        i = i + 1;
    }
    proof {
        assert(all.skip(cs.len() as int) =~= Seq::<SpecComp>::empty());
        assert(out.deep_view() + Seq::<SpecComp>::empty() =~= out.deep_view());
    }
    out
}

/// The number of leading components on which the two lists agree.
fn walk_common(p: Platform, b: &Vec<Component>, t: &Vec<Component>) -> (i: usize)
    ensures
        i as int == common_len(p, b.deep_view(), t.deep_view()),
        i <= b.len() && i <= t.len(),
{
    let ghost bv = b.deep_view();
    let ghost tv = t.deep_view();
    let mut i: usize = 0;
    proof {
        assert(bv.skip(0) =~= bv);
        assert(tv.skip(0) =~= tv);
    }
    while i < b.len() && i < t.len() && comps_match(p, &b[i], &t[i])
        invariant
            i <= b.len(),
            i <= t.len(),
            bv == b.deep_view(),
            tv == t.deep_view(),
            common_len(p, bv, tv) == i + common_len(p, bv.skip(i as int), tv.skip(i as int)),
        decreases b.len() - i,
    {
        proof {
            assert(bv.skip(i as int)[0] == bv[i as int]);
            assert(tv.skip(i as int)[0] == tv[i as int]);
            assert(bv.skip(i as int).drop_first() =~= bv.skip(i as int + 1));
            assert(tv.skip(i as int).drop_first() =~= tv.skip(i as int + 1));
        }
        i = i + 1;
    }
    proof {
        assert(common_len(p, bv.skip(i as int), tv.skip(i as int)) == 0);
    }
    i
}

/// Compute the relative path from `from` to `to`, both resolved against
/// the context.
pub(crate) fn relative_path(env: &Resolver, from: &str, to: &str) -> (r: String)
    requires
        env.wf(),
    ensures
        r@ == relative_spec(env.platform(), env.cwd(), from@, to@),
{
    let p = env.platform_value();
    let base = env.resolve_components(to);
    let target = env.resolve_components(from);
    if comps_equal(&base, &target) {
        String::new()
    } else {
        let b = filter_components(&base);
        let t = filter_components(&target);
        let i = walk_common(p, &b, &t);
        if i == 0 {
            component_vec_to_path_buf(p, t)
        } else {
            let ghost tv = t.deep_view();
            let ghost nparents = b.len() as int - i as int;
            let mut out: Vec<Component> = Vec::new();
            let mut k: usize = i;
            proof {
                assert(out.deep_view() =~= parent_run(0));
            }
            while k < b.len()
                invariant
                    i <= k <= b.len(),
                    out.deep_view() == parent_run(k as int - i as int),
                decreases b.len() - k,
            {
                let ghost pre = out.deep_view();
                out.push(Component::ParentDir);
                proof {
                    assert(out.deep_view() =~= pre.push(SpecComp::ParentDir));
                    assert(parent_run(k as int + 1 - i as int) =~= parent_run(
                        k as int - i as int,
                    ).push(SpecComp::ParentDir));
                }
                k = k + 1;
            }
            let mut j: usize = i;
            proof {
                assert(out.deep_view() =~= parent_run(nparents) + tv.subrange(
                    i as int,
                    i as int,
                ));
            }
            while j < t.len()
                invariant
                    i <= j <= t.len(),
                    tv == t.deep_view(),
                    out.deep_view() == parent_run(nparents) + tv.subrange(i as int, j as int),
                decreases t.len() - j,
            {
                let ghost pre = out.deep_view();
                out.push(duplicate(&t[j]));
                proof {
                    assert(out.deep_view() =~= pre.push(tv[j as int]));
                    assert(tv.subrange(i as int, j as int + 1) =~= tv.subrange(
                        i as int,
                        j as int,
                    ).push(tv[j as int]));
                }
                j = j + 1;
            }
            proof {
                assert(tv.subrange(i as int, t.len() as int) =~= tv.skip(i as int));
            }
            component_vec_to_path_buf(p, out)
        }
    }
}

} // verus!
