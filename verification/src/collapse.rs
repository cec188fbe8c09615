use vstd::prelude::*;

use crate::component::{Platform, Component, SpecComp, duplicate, is_sep_char};
use crate::parse::{
    valid_comps, valid_comp, scan, parse_tokens, parse, drive_text, lemma_scan_valid,
    lemma_unc_text_valid, is_drive, is_unc, unc_text,
};

verus! {

// ---------------------------------------------------------------------------
// The collapser's mathematical model: replay components left to right onto a
// stack, resolving `.` and `..` as far as they can be resolved.
// ---------------------------------------------------------------------------

/// One step of the collapser: replay component `c` onto the output stack.
/// A `..` on an empty stack, or over a prefix or another `..`, is a leading
/// escape and is kept; over a root marker it is discarded (the root cannot
/// be escaped); over a named segment it consumes that segment.
pub open spec fn collapse1(acc: Seq<SpecComp>, c: SpecComp) -> Seq<SpecComp> {
    match c {
        SpecComp::Prefix(_) => acc.push(c),
        SpecComp::RootDir => acc.push(c),
        SpecComp::CurDir => acc,
        SpecComp::ParentDir => {
            if acc.len() == 0 || acc.last() is Prefix {
                acc.push(c)
            } else if acc.last() is RootDir {
                acc
            } else if acc.last() is ParentDir {
                acc.push(c)
            } else {
                acc.drop_last()
            }
        },
        SpecComp::Normal(_) => acc.push(c),
    }
}

/// Replay `cs` left to right onto the stack `acc`.
pub open spec fn collapse_from(acc: Seq<SpecComp>, cs: Seq<SpecComp>) -> Seq<SpecComp>
    decreases cs.len(),
{
    if cs.len() == 0 {
        acc
    } else {
        collapse_from(collapse1(acc, cs[0]), cs.drop_first())
    }
}

/// The canonical component sequence of `cs`.
pub open spec fn collapse(cs: Seq<SpecComp>) -> Seq<SpecComp> {
    collapse_from(Seq::empty(), cs)
}

/// Canonical form: no `.` remains; a prefix stands only first; a root marker
/// stands only first or right after a prefix; each `..` belongs to a leading
/// run that may follow a prefix but never follows a root or named segment.
pub open spec fn canonical(cs: Seq<SpecComp>) -> bool {
    (forall|i: int| 0 <= i < cs.len() ==> !(#[trigger] cs[i] is CurDir)) && (forall|i: int|
        0 <= i < cs.len() && #[trigger] cs[i] is Prefix ==> i == 0) && (forall|i: int|
        0 <= i < cs.len() && #[trigger] cs[i] is RootDir ==> i == 0 || (i == 1
            && cs[0] is Prefix)) && (forall|i: int|
        0 <= i < cs.len() && #[trigger] cs[i] is ParentDir ==> i == 0 || cs[i - 1] is Prefix
            || cs[i - 1] is ParentDir)
}

/// Only `.`, `..` and named segments: the shape of a classified token list.
pub open spec fn segments_only(cs: Seq<SpecComp>) -> bool {
    forall|i: int|
        0 <= i < cs.len() ==> (#[trigger] cs[i] is CurDir || cs[i] is ParentDir
            || cs[i] is Normal)
}

/// The sequence opens at the filesystem root (with or without a prefix).
pub open spec fn rooted(cs: Seq<SpecComp>) -> bool {
    (cs.len() >= 1 && cs[0] is RootDir) || (cs.len() >= 2 && cs[0] is Prefix && cs[1] is RootDir)
}

/// Classified tokens are only `.`, `..`, or named segments.
pub proof fn lemma_scan_segments_only(p: Platform, s: Seq<char>, pending: Seq<char>)
    ensures
        segments_only(scan(p, s, pending)),
    decreases s.len(),
{
    if s.len() == 0 {
    } else if is_sep_char(p, s[0]) {
        lemma_scan_segments_only(p, s.drop_first(), Seq::empty());
    } else {
        lemma_scan_segments_only(p, s.drop_first(), pending.push(s[0]));
    }
}

/// Replaying classified tokens onto a canonical stack keeps it canonical.
pub proof fn lemma_collapse_from_canonical(acc: Seq<SpecComp>, cs: Seq<SpecComp>)
    requires
        canonical(acc),
        segments_only(cs),
    ensures
        canonical(collapse_from(acc, cs)),
    decreases cs.len(),
{
    if cs.len() > 0 {
        let c = cs[0];
        let acc1 = collapse1(acc, c);
        assert(canonical(acc1)) by {
            match c {
                SpecComp::CurDir => {},
                SpecComp::ParentDir => {
                    if acc.len() == 0 || acc.last() is Prefix || acc.last() is ParentDir {
                        assert(acc1 =~= acc.push(c));
                    } else if acc.last() is RootDir {
                    } else {
                        assert(acc1 =~= acc.drop_last());
                    }
                },
                _ => {
                    assert(acc1 =~= acc.push(c));
                },
            }
        }
        assert(segments_only(cs.drop_first()));
        lemma_collapse_from_canonical(acc1, cs.drop_first());
    }
}

/// Replaying well-formed components keeps every payload well-formed.
pub proof fn lemma_collapse_from_valid(p: Platform, acc: Seq<SpecComp>, cs: Seq<SpecComp>)
    requires
        valid_comps(p, acc),
        valid_comps(p, cs),
    ensures
        valid_comps(p, collapse_from(acc, cs)),
    decreases cs.len(),
{
    if cs.len() > 0 {
        let c = cs[0];
        let acc1 = collapse1(acc, c);
        assert(valid_comps(p, acc1)) by {
            match c {
                SpecComp::CurDir => {},
                SpecComp::ParentDir => {
                    if acc.len() == 0 || acc.last() is Prefix || acc.last() is ParentDir {
                        assert(acc1 =~= acc.push(c));
                    } else if acc.last() is RootDir {
                    } else {
                        assert(acc1 =~= acc.drop_last());
                    }
                },
                _ => {
                    assert(acc1 =~= acc.push(c));
                },
            }
        }
        assert(valid_comps(p, cs.drop_first()));
        lemma_collapse_from_valid(p, acc1, cs.drop_first());
    }
}

/// A rooted canonical stack stays rooted: the collapse never pops a root
/// marker or a prefix, and a `..` over the root is discarded. The opening
/// prefix and root marker are preserved exactly.
pub proof fn lemma_collapse_from_rooted(acc: Seq<SpecComp>, cs: Seq<SpecComp>)
    requires
        canonical(acc),
        rooted(acc),
        segments_only(cs),
    ensures
        rooted(collapse_from(acc, cs)),
        collapse_from(acc, cs)[0] == acc[0],
        acc[0] is Prefix ==> collapse_from(acc, cs).len() >= 2 && collapse_from(acc, cs)[1]
            == acc[1],
    decreases cs.len(),
{
    if cs.len() > 0 {
        let c = cs[0];
        let acc1 = collapse1(acc, c);
        assert(canonical(acc1) && rooted(acc1) && acc1[0] == acc[0] && (acc[0] is Prefix
            ==> acc1.len() >= 2 && acc1[1] == acc[1])) by {
            match c {
                SpecComp::CurDir => {},
                SpecComp::ParentDir => {
                    if acc.len() == 0 || acc.last() is Prefix || acc.last() is ParentDir {
                        assert(acc1 =~= acc.push(c));
                    } else if acc.last() is RootDir {
                    } else {
                        assert(acc1 =~= acc.drop_last());
                        assert(acc.len() >= 2);
                    }
                },
                _ => {
                    assert(acc1 =~= acc.push(c));
                },
            }
        }
        assert(segments_only(cs.drop_first()));
        lemma_collapse_from_rooted(acc1, cs.drop_first());
    }
}

/// In a rooted canonical sequence no `..` remains at any position.
pub proof fn lemma_rooted_no_parent(cs: Seq<SpecComp>, i: int)
    requires
        canonical(cs),
        rooted(cs),
        0 <= i < cs.len(),
    ensures
        !(cs[i] is ParentDir),
    decreases i,
{
    if cs[i] is ParentDir {
        if i == 0 {
        } else if cs[i - 1] is Prefix {
        } else {
            lemma_rooted_no_parent(cs, i - 1);
        }
    }
}

/// A canonical sequence is a fixed point of the collapse.
pub proof fn lemma_collapse_from_fixed(acc: Seq<SpecComp>, cs: Seq<SpecComp>)
    requires
        canonical(acc + cs),
    ensures
        collapse_from(acc, cs) == acc + cs,
    decreases cs.len(),
{
    if cs.len() == 0 {
        assert(acc + cs =~= acc);
    } else {
        let c = cs[0];
        assert(c == (acc + cs)[acc.len() as int]);
        let acc1 = collapse1(acc, c);
        assert(acc1 =~= acc.push(c)) by {
            match c {
                SpecComp::ParentDir => {
                    if acc.len() > 0 {
                        assert(acc.last() == (acc + cs)[acc.len() - 1]);
                    }
                },
                _ => {},
            }
        }
        assert(acc.push(c) + cs.drop_first() =~= acc + cs);
        lemma_collapse_from_fixed(acc.push(c), cs.drop_first());
    }
}

/// A canonical sequence collapses to itself.
pub proof fn lemma_collapse_canonical_fixed(cs: Seq<SpecComp>)
    requires
        canonical(cs),
    ensures
        collapse(cs) == cs,
{
    assert(Seq::<SpecComp>::empty() + cs =~= cs);
    lemma_collapse_from_fixed(Seq::empty(), cs);
}

/// Collapsing segments over a stack of `..` and named segments introduces
/// no prefix or root marker.
pub proof fn lemma_collapse_segments(acc: Seq<SpecComp>, cs: Seq<SpecComp>)
    requires
        forall|i: int| 0 <= i < acc.len() ==> (acc[i] is ParentDir || acc[i] is Normal),
        segments_only(cs),
    ensures
        forall|i: int|
            0 <= i < collapse_from(acc, cs).len() ==> (collapse_from(acc, cs)[i] is ParentDir
                || collapse_from(acc, cs)[i] is Normal),
    decreases cs.len(),
{
    if cs.len() > 0 {
        let c = cs[0];
        let acc1 = collapse1(acc, c);
        assert(forall|i: int| 0 <= i < acc1.len() ==> (acc1[i] is ParentDir || acc1[i] is Normal))
            by {
            match c {
                SpecComp::CurDir => {},
                SpecComp::ParentDir => {
                    if acc.len() == 0 || acc.last() is Prefix || acc.last() is ParentDir {
                        assert(acc1 =~= acc.push(c));
                    } else if acc.last() is RootDir {
                    } else {
                        assert(acc1 =~= acc.drop_last());
                    }
                },
                _ => {
                    assert(acc1 =~= acc.push(c));
                },
            }
        }
        assert(segments_only(cs.drop_first()));
        lemma_collapse_segments(acc1, cs.drop_first());
    }
}

/// Collapsing segments over a lone prefix keeps it at the bottom, under
/// `..` and named segments only.
pub proof fn lemma_collapse_bottom_prefix(acc: Seq<SpecComp>, cs: Seq<SpecComp>)
    requires
        acc.len() >= 1,
        acc[0] is Prefix,
        forall|i: int| 1 <= i < acc.len() ==> (acc[i] is ParentDir || acc[i] is Normal),
        segments_only(cs),
    ensures
        collapse_from(acc, cs).len() >= 1,
        collapse_from(acc, cs)[0] == acc[0],
        forall|i: int|
            1 <= i < collapse_from(acc, cs).len() ==> (collapse_from(acc, cs)[i] is ParentDir
                || collapse_from(acc, cs)[i] is Normal),
    decreases cs.len(),
{
    if cs.len() > 0 {
        let c = cs[0];
        let acc1 = collapse1(acc, c);
        assert(acc1.len() >= 1 && acc1[0] == acc[0] && (forall|i: int|
            1 <= i < acc1.len() ==> (acc1[i] is ParentDir || acc1[i] is Normal))) by {
            match c {
                SpecComp::CurDir => {},
                SpecComp::ParentDir => {
                    if acc.len() == 0 || acc.last() is Prefix || acc.last() is ParentDir {
                        assert(acc1 =~= acc.push(c));
                    } else if acc.last() is RootDir {
                    } else {
                        assert(acc.len() >= 2);
                        assert(acc1 =~= acc.drop_last());
                    }
                },
                _ => {
                    assert(acc1 =~= acc.push(c));
                },
            }
        }
        assert(segments_only(cs.drop_first()));
        lemma_collapse_bottom_prefix(acc1, cs.drop_first());
    }
}

/// What a parse looks like: well-formed payloads, and, past the optional
/// prefix and root head, classified segments only.
pub proof fn lemma_parse_facts(p: Platform, s: Seq<char>)
    ensures
        valid_comps(p, parse(p, s)),
        parse(p, s).len() >= 1 && parse(p, s)[0] is RootDir ==> segments_only(
            parse(p, s).skip(1),
        ),
        parse(p, s).len() >= 2 && parse(p, s)[0] is Prefix && parse(p, s)[1] is RootDir
            ==> segments_only(parse(p, s).skip(2)),
        parse(p, s).len() >= 1 && parse(p, s)[0] is Prefix && !(parse(p, s).len() >= 2 && parse(
            p,
            s,
        )[1] is RootDir) ==> segments_only(parse(p, s).skip(1)),
        parse(p, s).len() == 0 || !(parse(p, s)[0] is Prefix || parse(p, s)[0] is RootDir)
            ==> segments_only(parse(p, s)),
{
    let cs = parse(p, s);
    if p is Windows {
        if is_drive(s) {
            let t = parse_tokens(p, s.skip(2));
            lemma_scan_valid(p, s.skip(2), Seq::empty());
            lemma_scan_segments_only(p, s.skip(2), Seq::empty());
            assert(drive_text(s.take(2)));
            if s.len() > 2 && is_sep_char(p, s[2]) {
                assert(cs.skip(2) =~= t);
                assert(valid_comps(p, cs));
            } else {
                assert(cs.skip(1) =~= t);
                assert(valid_comps(p, cs));
            }
        } else if is_unc(s) {
            let t = parse_tokens(p, s.skip(crate::parse::unc_end(s)));
            lemma_scan_valid(p, s.skip(crate::parse::unc_end(s)), Seq::empty());
            lemma_scan_segments_only(p, s.skip(crate::parse::unc_end(s)), Seq::empty());
            lemma_unc_text_valid(s);
            assert(cs.skip(2) =~= t);
            assert(valid_comps(p, cs));
        } else if s.len() > 0 && is_sep_char(p, s[0]) {
            let t = parse_tokens(p, s);
            lemma_scan_valid(p, s, Seq::empty());
            lemma_scan_segments_only(p, s, Seq::empty());
            assert(cs.skip(1) =~= t);
            assert(valid_comps(p, cs));
        } else {
            lemma_scan_valid(p, s, Seq::empty());
            lemma_scan_segments_only(p, s, Seq::empty());
        }
    } else {
        let t = parse_tokens(p, s);
        lemma_scan_valid(p, s, Seq::empty());
        lemma_scan_segments_only(p, s, Seq::empty());
        if s.len() > 0 && is_sep_char(p, s[0]) {
            assert(cs.skip(1) =~= t);
            assert(valid_comps(p, cs));
        }
    }
}

/// Replay the components of `cs` onto the stack `acc`, applying the
/// collapse rules.
pub fn collapse_onto(acc: Vec<Component>, cs: &Vec<Component>) -> (r: Vec<Component>)
    ensures
        r.deep_view() == collapse_from(acc.deep_view(), cs.deep_view()),
{
    let ghost acc0 = acc.deep_view();
    let mut out = acc;
    let mut i: usize = 0;
    proof {
        assert(cs.deep_view().skip(0) =~= cs.deep_view());
    }
    while i < cs.len()
        invariant
            i <= cs.len(),
            collapse_from(acc0, cs.deep_view()) == collapse_from(
                out.deep_view(),
                cs.deep_view().skip(i as int),
            ),
        decreases cs.len() - i,
    {
        let ghost pre = out.deep_view();
        let c = &cs[i];
        match c {
            Component::CurDir => {},
            Component::ParentDir => {
                if out.len() == 0 {
                    out.push(Component::ParentDir);
                    proof {
                        assert(out.deep_view() =~= pre.push(c@));
                    }
                } else {
                    let tail = out.len() - 1;
                    match &out[tail] {
                        Component::Prefix(_) => {
                            out.push(Component::ParentDir);
                            proof {
                                assert(out.deep_view() =~= pre.push(c@));
                            }
                        },
                        Component::ParentDir => {
                            out.push(Component::ParentDir);
                            proof {
                                assert(out.deep_view() =~= pre.push(c@));
                            }
                        },
                        Component::RootDir => {},
                        Component::CurDir | Component::Normal(_) => {
                            out.pop();
                            proof {
                                assert(out.deep_view() =~= pre.drop_last());
                            }
                        },
                    }
                }
            },
            _ => {
                out.push(duplicate(c));
                proof {
                    assert(out.deep_view() =~= pre.push(c@));
                }
            },
        }
        proof {
            assert(cs.deep_view().skip(i as int)[0] == c@);
            assert(cs.deep_view().skip(i as int).drop_first() =~= cs.deep_view().skip(i as int + 1));
            assert(out.deep_view() == collapse1(pre, c@));
        }
        i = i + 1;
    }
    proof {
        assert(cs.deep_view().skip(cs.len() as int) =~= Seq::<SpecComp>::empty());
    }
    out
}

} // verus!
