use vstd::prelude::*;

use crate::component::{Platform, SpecComp, is_sep_char, sep_char};
use crate::parse::{
    parse, parse_tokens, scan, classify, is_drive, is_unc, unc_prefix_text, drive_text,
    valid_comps, valid_comp, lemma_scan_absorb,
};
use crate::collapse::{
    collapse, collapse_from, collapse1, canonical, rooted, segments_only,
    lemma_collapse_from_canonical, lemma_collapse_from_valid, lemma_collapse_from_rooted,
    lemma_collapse_canonical_fixed, lemma_collapse_segments, lemma_collapse_bottom_prefix,
    lemma_parse_facts, lemma_scan_segments_only,
};
use crate::assemble::{assemble, join_from, comp_text, lemma_parse_assemble, lemma_tokens_roundtrip};
use crate::ops::{normalize_spec, resolve_comps, resolve_spec, is_absolute_spec, cwd_wf};
use crate::relative::relative_spec;

verus! {

/// A canonical head that reparses as a drive prefix rather than as a named
/// segment: a named segment whose text opens like `C:`.
pub open spec fn drive_like_head(p: Platform, cs: Seq<SpecComp>) -> bool {
    cs.len() >= 1 && cs[0] is Normal && is_drive(comp_text(p, cs[0]))
}

/// The drive-like heads whose reassembled text does not normalize to
/// itself: a lone segment that is exactly a drive prefix (`C:` gains a `.`),
/// and a segment of the form `C:.` before further segments (its `.` is
/// collapsed away on the second pass).
pub open spec fn unstable_drive_head(p: Platform, cs: Seq<SpecComp>) -> bool {
    drive_like_head(p, cs) && ((comp_text(p, cs[0]).len() == 2 && cs.len() == 1) || (comp_text(
        p,
        cs[0],
    ).len() == 3 && comp_text(p, cs[0])[2] == '.' && cs.len() >= 2))
}

/// The canonical form of any parse is canonical and well-formed, and a UNC
/// prefix at its head is followed by the root marker.
pub proof fn lemma_collapse_parse_shape(p: Platform, s: Seq<char>)
    ensures
        canonical(collapse(parse(p, s))),
        valid_comps(p, collapse(parse(p, s))),
        collapse(parse(p, s)).len() >= 1 && collapse(parse(p, s))[0] is Prefix && unc_prefix_text(
            comp_text(p, collapse(parse(p, s))[0]),
        ) ==> collapse(parse(p, s)).len() >= 2 && collapse(parse(p, s))[1] is RootDir,
{
    let cs = parse(p, s);
    lemma_parse_facts(p, s);
    if cs.len() >= 2 && cs[0] is Prefix && cs[1] is RootDir {
        let acc2 = seq![cs[0], cs[1]];
        assert(collapse1(Seq::empty(), cs[0]) =~= seq![cs[0]]);
        assert(cs.drop_first()[0] == cs[1]);
        assert(collapse1(seq![cs[0]], cs[1]) =~= acc2);
        assert(cs.drop_first().drop_first() =~= cs.skip(2));
        assert(collapse(cs) == collapse_from(seq![cs[0]], cs.drop_first()));
        assert(collapse_from(seq![cs[0]], cs.drop_first()) == collapse_from(acc2, cs.skip(2)));
        assert(canonical(acc2) && rooted(acc2) && valid_comps(p, acc2));
        lemma_collapse_from_canonical(acc2, cs.skip(2));
        lemma_collapse_from_valid(p, acc2, cs.skip(2));
        lemma_collapse_from_rooted(acc2, cs.skip(2));
    } else if cs.len() >= 1 && cs[0] is Prefix {
        lemma_scan_segments_only(p, s, Seq::empty());
        assert(is_drive(s) || is_unc(s)) by {
            if !is_drive(s) && !is_unc(s) {
                assert(!(cs[0] is Prefix));
            }
        }
        assert(is_drive(s)) by {
            if is_unc(s) {
                assert(cs.len() >= 2 && cs[1] is RootDir);
            }
        }
        assert(cs[0] == SpecComp::Prefix(s.take(2)));
        assert(drive_text(s.take(2)));
        assert(!unc_prefix_text(s.take(2)));
        let acc1 = seq![cs[0]];
        assert(collapse1(Seq::empty(), cs[0]) =~= acc1);
        assert(cs.drop_first() =~= cs.skip(1));
        assert(collapse(cs) == collapse_from(acc1, cs.skip(1)));
        assert(canonical(acc1) && valid_comps(p, acc1));
        lemma_collapse_from_canonical(acc1, cs.skip(1));
        lemma_collapse_from_valid(p, acc1, cs.skip(1));
        lemma_collapse_bottom_prefix(acc1, cs.skip(1));
    } else if cs.len() >= 1 && cs[0] is RootDir {
        let acc1 = seq![cs[0]];
        assert(collapse1(Seq::empty(), cs[0]) =~= acc1);
        assert(cs.drop_first() =~= cs.skip(1));
        assert(collapse(cs) == collapse_from(acc1, cs.skip(1)));
        assert(canonical(acc1) && rooted(acc1) && valid_comps(p, acc1));
        lemma_collapse_from_canonical(acc1, cs.skip(1));
        lemma_collapse_from_valid(p, acc1, cs.skip(1));
        lemma_collapse_from_rooted(acc1, cs.skip(1));
    } else {
        assert(segments_only(cs));
        lemma_collapse_from_canonical(Seq::empty(), cs);
        lemma_collapse_from_valid(p, Seq::empty(), cs);
        lemma_collapse_segments(Seq::empty(), cs);
    }
}

/// In a canonical sequence that does not open with `..` or a prefix, no
/// `..` stands anywhere: a retained `..` run can only start at the front.
proof fn lemma_head_blocks_parent(cs: Seq<SpecComp>, i: int)
    requires
        canonical(cs),
        0 <= i < cs.len(),
        !(cs[0] is ParentDir),
        !(cs[0] is Prefix),
    ensures
        !(cs[i] is ParentDir),
    decreases i,
{
    if cs[i] is ParentDir {
        if i == 0 {
        } else if cs[i - 1] is Prefix {
        } else {
            lemma_head_blocks_parent(cs, i - 1);
        }
    }
}

/// A lone `.` scans as the current-directory marker.
proof fn lemma_parse_tokens_dot(p: Platform)
    ensures
        parse_tokens(p, seq!['.']) == seq![SpecComp::CurDir],
{
    let d = seq!['.'];
    assert(!is_sep_char(p, '.'));
    assert(d.drop_first() =~= Seq::<char>::empty());
    assert(Seq::<char>::empty().push('.') =~= d);
    assert(scan(p, d, Seq::empty()) == scan(p, Seq::empty(), d));
    assert(scan(p, Seq::empty(), d) =~= seq![classify(d)]);
    assert(classify(d) == SpecComp::CurDir);
}

/// A lone `.` marker joins to the text `.`.
proof fn lemma_join_dot(p: Platform)
    ensures
        join_from(p, seq![SpecComp::CurDir], false) == seq!['.'],
{
    assert(seq![SpecComp::CurDir].drop_first() =~= Seq::<SpecComp>::empty());
    assert(join_from(p, Seq::<SpecComp>::empty(), true) =~= Seq::<char>::empty());
    assert(join_from(p, seq![SpecComp::CurDir], false) =~= seq!['.']);
}

/// The text `.` normalizes to itself.
proof fn lemma_dot_fixed(p: Platform)
    ensures
        normalize_spec(p, seq!['.']) == seq!['.'],
{
    let d = seq!['.'];
    lemma_parse_tokens_dot(p);
    assert(!is_sep_char(p, '.'));
    if p is Windows {
        assert(!is_drive(d));
        assert(!is_unc(d));
    }
    assert(parse(p, d) == seq![SpecComp::CurDir]);
    assert(seq![SpecComp::CurDir].drop_first() =~= Seq::<SpecComp>::empty());
    assert(collapse1(Seq::empty(), SpecComp::CurDir) =~= Seq::<SpecComp>::empty());
    assert(collapse(seq![SpecComp::CurDir]) == collapse_from(
        Seq::empty(),
        seq![SpecComp::CurDir].drop_first(),
    ));
    assert(collapse(parse(p, d)).len() == 0);
    assert(collapse(parse(p, d)).push(SpecComp::CurDir) =~= seq![SpecComp::CurDir]);
    lemma_join_dot(p);
}

/// A drive prefix followed by `.` normalizes to itself.
proof fn lemma_drive_dot_fixed(p: Platform, t: Seq<char>)
    requires
        p is Windows,
        drive_text(t),
    ensures
        normalize_spec(p, t + seq!['.']) == t + seq!['.'],
{
    let u = t + seq!['.'];
    assert(u.len() == 3);
    assert(u[0] == t[0] && u[1] == t[1] && u[2] == '.');
    assert(is_drive(u));
    assert(!is_sep_char(p, u[2]));
    assert(u.skip(2) =~= seq!['.']);
    assert(u.take(2) =~= t);
    lemma_parse_tokens_dot(p);
    assert(parse(p, u) =~= seq![SpecComp::Prefix(t), SpecComp::CurDir]);
    let pc = seq![SpecComp::Prefix(t), SpecComp::CurDir];
    assert(collapse1(Seq::empty(), pc[0]) =~= seq![pc[0]]);
    assert(pc.drop_first()[0] == SpecComp::CurDir);
    assert(collapse1(seq![pc[0]], SpecComp::CurDir) =~= seq![pc[0]]);
    assert(pc.drop_first().drop_first() =~= Seq::<SpecComp>::empty());
    assert(collapse(pc) == collapse_from(seq![pc[0]], pc.drop_first()));
    assert(collapse_from(seq![pc[0]], pc.drop_first()) == collapse_from(
        seq![pc[0]],
        pc.drop_first().drop_first(),
    ));
    assert(collapse(parse(p, u)) =~= seq![SpecComp::Prefix(t)]);
    assert(collapse(parse(p, u)).push(SpecComp::CurDir) =~= pc);
    lemma_join_dot(p);
    assert(join_from(p, pc, false) =~= u) by {
        assert(pc.drop_first() =~= seq![SpecComp::CurDir]);
        assert(join_from(p, pc, false) =~= t + join_from(p, pc.drop_first(), false));
    }
}

/// Normalizing again is stable even when the canonical head is a named
/// segment that reparses as a drive prefix, as long as the head is not one
/// of the unstable forms: the pieces move between prefix, root and
/// segments, but the reassembled text comes out the same.
#[verifier::rlimit(100)]
#[verifier::spinoff_prover]
proof fn lemma_drive_like_idempotent(p: Platform, s: Seq<char>)
    requires
        p is Windows,
        drive_like_head(p, collapse(parse(p, s))),
        !unstable_drive_head(p, collapse(parse(p, s))),
    ensures
        normalize_spec(p, normalize_spec(p, s)) == normalize_spec(p, s),
{
    let col = collapse(parse(p, s));
    lemma_collapse_parse_shape(p, s);
    let tx = comp_text(p, col[0]);
    let rest = col.drop_first();
    let out = normalize_spec(p, s);
    assert(out == assemble(p, col));
    assert forall|k: int| 0 <= k < rest.len() implies rest[k] is Normal by {
        assert(rest[k] == col[k + 1]);
        lemma_head_blocks_parent(col, k + 1);
        assert(!(col[k + 1] is CurDir));
        assert(!(col[k + 1] is Prefix));
        assert(!(col[k + 1] is RootDir));
    }
    assert(segments_only(rest) && valid_comps(p, rest));
    assert(col[0] == SpecComp::Normal(tx));
    assert(valid_comp(p, col[0]));
    assert(out =~= tx + join_from(p, rest, true)) by {
        assert(out =~= comp_text(p, col[0]) + join_from(p, col.drop_first(), true));
    }
    assert(out[0] == tx[0] && out[1] == tx[1]);
    assert(is_drive(out));
    if tx.len() == 2 {
        assert(rest.len() >= 1);
        assert(out.skip(2) =~= join_from(p, rest, true));
        assert(join_from(p, rest, true) =~= seq![sep_char(p)] + join_from(p, rest, false));
        assert(out.len() > 2 && is_sep_char(p, out[2]));
        lemma_tokens_roundtrip(p, rest);
        assert(out.skip(2).drop_first() =~= join_from(p, rest, false));
        assert(parse_tokens(p, out.skip(2)) == rest);
        let col2 = seq![SpecComp::Prefix(tx), SpecComp::RootDir] + rest;
        assert(parse(p, out) =~= col2) by {
            assert(out.take(2) =~= tx);
        }
        assert(canonical(col2));
        lemma_collapse_canonical_fixed(col2);
        assert(assemble(p, col2) =~= out) by {
            assert(col2[0] == SpecComp::Prefix(tx));
            assert(col2.drop_first()[0] == SpecComp::RootDir);
            assert(col2.drop_first().drop_first() =~= rest);
            assert(assemble(p, col2) =~= tx + join_from(p, col2.drop_first(), false));
            assert(join_from(p, col2.drop_first(), false) =~= seq![sep_char(p)] + join_from(
                p,
                rest,
                false,
            ));
        }
        assert(normalize_spec(p, out) == assemble(p, col2));
    } else {
        let tail = tx.skip(2);
        assert(tail.len() >= 1);
        assert(forall|k: int| 0 <= k < tail.len() ==> !is_sep_char(p, tail[k]));
        assert(out.skip(2) =~= tail + join_from(p, rest, true));
        assert(out.len() > 2 && !is_sep_char(p, out[2]));
        lemma_scan_absorb(p, tail, join_from(p, rest, true), Seq::empty());
        assert(Seq::<char>::empty() + tail =~= tail);
        lemma_tokens_roundtrip(p, rest);
        let x = classify(tail);
        if rest.len() == 0 {
            assert(join_from(p, rest, true) =~= Seq::<char>::empty());
            assert(parse_tokens(p, out.skip(2)) =~= seq![x]);
        } else {
            assert(join_from(p, rest, true) =~= seq![sep_char(p)] + join_from(p, rest, false));
            assert(join_from(p, rest, true)[0] == sep_char(p));
            assert(join_from(p, rest, true).drop_first() =~= join_from(p, rest, false));
            assert(parse_tokens(p, out.skip(2)) =~= seq![x] + rest);
        }
        let col2 = seq![SpecComp::Prefix(tx.take(2)), x] + rest;
        assert(parse(p, out) =~= col2) by {
            assert(out.take(2) =~= tx.take(2));
            assert(seq![x] + rest =~= col2.drop_first());
        }
        if x is CurDir {
            assert(tail.len() == 1 && tail[0] == '.');
            assert(tx.len() == 3 && tx[2] == '.');
            assert(rest.len() == 0);
            assert(drive_text(tx.take(2)));
            lemma_drive_dot_fixed(p, tx.take(2));
            assert(out =~= tx);
            assert(tx.take(2) + seq!['.'] =~= tx);
        } else {
            assert(comp_text(p, x) =~= tail) by {
                if x is ParentDir {
                    assert(tail.len() == 2 && tail[0] == '.' && tail[1] == '.');
                }
            }
            assert(canonical(col2));
            lemma_collapse_canonical_fixed(col2);
            assert(assemble(p, col2) =~= out) by {
                assert(col2.drop_first() =~= seq![x] + rest);
                assert((seq![x] + rest).drop_first() =~= rest);
                assert((seq![x] + rest)[0] == x);
                assert(assemble(p, col2) =~= tx.take(2) + join_from(p, col2.drop_first(), false));
                assert(join_from(p, seq![x] + rest, false) =~= tail + join_from(p, rest, true));
                assert(tx.take(2) + (tail + join_from(p, rest, true)) =~= out);
            }
            assert(normalize_spec(p, out) == assemble(p, col2));
        }
    }
}

/// Law: `normalize` is idempotent. On Windows two families of inputs are
/// left out, those whose canonical form is a lone named segment that is
/// exactly a drive prefix (collapsing `x\..\C:` gives `C:`, which then
/// normalizes to `C:.`), and those whose canonical form opens with a named
/// segment of the shape `C:.` before further segments (its `.` is collapsed
/// away on the second pass).
pub proof fn lemma_normalize_idempotent(p: Platform, s: Seq<char>)
    requires
        !(p is Windows && unstable_drive_head(p, collapse(parse(p, s)))),
    ensures
        normalize_spec(p, normalize_spec(p, s)) == normalize_spec(p, s),
{
    let col = collapse(parse(p, s));
    let out = normalize_spec(p, s);
    lemma_collapse_parse_shape(p, s);
    if col.len() == 0 {
        lemma_dot_fixed(p);
        lemma_join_dot(p);
        assert(col.push(SpecComp::CurDir) =~= seq![SpecComp::CurDir]);
        assert(out == seq!['.']);
    } else if p is Windows && col.len() == 1 && col[0] is Prefix {
        let t = comp_text(p, col[0]);
        assert(col[0] == SpecComp::Prefix(t));
        assert(valid_comp(p, col[0]));
        assert(drive_text(t)) by {
            if unc_prefix_text(t) {
                assert(col.len() >= 2);
            }
        }
        lemma_drive_dot_fixed(p, t);
        lemma_join_dot(p);
        assert(col.push(SpecComp::CurDir) =~= seq![SpecComp::Prefix(t), SpecComp::CurDir]);
        assert(out =~= t + seq!['.']) by {
            let pc = seq![SpecComp::Prefix(t), SpecComp::CurDir];
            assert(pc.drop_first() =~= seq![SpecComp::CurDir]);
            assert(join_from(p, pc, false) =~= t + join_from(p, pc.drop_first(), false));
        }
    } else if p is Windows && drive_like_head(p, col) {
        lemma_drive_like_idempotent(p, s);
    } else {
        lemma_parse_assemble(p, col);
        assert(out == assemble(p, col));
        assert(parse(p, out) == col);
        lemma_collapse_canonical_fixed(col);
        assert(collapse(parse(p, out)) == col);
        assert(normalize_spec(p, out) == assemble(p, col));
    }
}

/// The resolved form of any path is canonical, well-formed and rooted: on
/// Windows it opens with a prefix and its root marker, on POSIX with the
/// root marker.
pub proof fn lemma_resolve_wf(p: Platform, cwd: Seq<SpecComp>, s: Seq<char>)
    requires
        cwd_wf(p, cwd),
    ensures
        canonical(resolve_comps(p, cwd, s)),
        valid_comps(p, resolve_comps(p, cwd, s)),
        rooted(resolve_comps(p, cwd, s)),
        p is Windows ==> resolve_comps(p, cwd, s).len() >= 2 && resolve_comps(p, cwd, s)[0]
            is Prefix && resolve_comps(p, cwd, s)[1] is RootDir,
        p is Posix ==> resolve_comps(p, cwd, s)[0] is RootDir,
{
    let cs = parse(p, s);
    lemma_parse_facts(p, s);
    if cs.len() >= 2 && cs[0] is Prefix && cs[1] is RootDir {
        assert(valid_comp(p, cs[0]));
        let acc2 = seq![cs[0], cs[1]];
        assert(collapse1(Seq::empty(), cs[0]) =~= seq![cs[0]]);
        assert(cs.drop_first()[0] == cs[1]);
        assert(collapse1(seq![cs[0]], cs[1]) =~= acc2);
        assert(cs.drop_first().drop_first() =~= cs.skip(2));
        assert(collapse(cs) == collapse_from(seq![cs[0]], cs.drop_first()));
        assert(collapse_from(seq![cs[0]], cs.drop_first()) == collapse_from(acc2, cs.skip(2)));
        assert(canonical(acc2) && rooted(acc2) && valid_comps(p, acc2));
        lemma_collapse_from_canonical(acc2, cs.skip(2));
        lemma_collapse_from_valid(p, acc2, cs.skip(2));
        lemma_collapse_from_rooted(acc2, cs.skip(2));
    } else if cs.len() >= 1 && cs[0] is Prefix {
        assert(valid_comp(p, cs[0]));
        let acc2 = seq![cs[0], SpecComp::RootDir];
        let whole = acc2 + cs.skip(1);
        assert(whole[0] == cs[0]);
        assert(collapse1(Seq::empty(), cs[0]) =~= seq![cs[0]]);
        assert(whole.drop_first()[0] == SpecComp::RootDir);
        assert(collapse1(seq![cs[0]], SpecComp::RootDir) =~= acc2);
        assert(whole.drop_first().drop_first() =~= cs.skip(1));
        assert(collapse(whole) == collapse_from(seq![cs[0]], whole.drop_first()));
        assert(collapse_from(seq![cs[0]], whole.drop_first()) == collapse_from(acc2, cs.skip(1)));
        assert(canonical(acc2) && rooted(acc2) && valid_comps(p, acc2));
        lemma_collapse_from_canonical(acc2, cs.skip(1));
        lemma_collapse_from_valid(p, acc2, cs.skip(1));
        lemma_collapse_from_rooted(acc2, cs.skip(1));
    } else if cs.len() >= 1 && cs[0] is RootDir {
        if p is Windows {
            let acc2 = seq![cwd[0], SpecComp::RootDir];
            let whole = seq![cwd[0]] + cs;
            assert(whole[0] == cwd[0]);
            assert(collapse1(Seq::empty(), cwd[0]) =~= seq![cwd[0]]);
            assert(whole.drop_first() =~= cs);
            assert(cs[0] == SpecComp::RootDir);
            assert(collapse1(seq![cwd[0]], cs[0]) =~= acc2);
            assert(cs.drop_first() =~= cs.skip(1));
            assert(collapse(whole) == collapse_from(seq![cwd[0]], cs));
            assert(collapse_from(seq![cwd[0]], cs) == collapse_from(acc2, cs.skip(1)));
            assert(canonical(acc2) && rooted(acc2) && valid_comps(p, acc2));
            lemma_collapse_from_canonical(acc2, cs.skip(1));
            lemma_collapse_from_valid(p, acc2, cs.skip(1));
            lemma_collapse_from_rooted(acc2, cs.skip(1));
        } else {
            let acc1 = seq![cs[0]];
            assert(collapse1(Seq::empty(), cs[0]) =~= acc1);
            assert(cs.drop_first() =~= cs.skip(1));
            assert(collapse(cs) == collapse_from(acc1, cs.skip(1)));
            assert(canonical(acc1) && rooted(acc1) && valid_comps(p, acc1));
            lemma_collapse_from_canonical(acc1, cs.skip(1));
            lemma_collapse_from_valid(p, acc1, cs.skip(1));
            lemma_collapse_from_rooted(acc1, cs.skip(1));
        }
    } else {
        assert(segments_only(cs));
        lemma_collapse_from_canonical(cwd, cs);
        lemma_collapse_from_valid(p, cwd, cs);
        lemma_collapse_from_rooted(cwd, cs);
    }
}

/// Law: `resolve` always returns an absolute path.
pub proof fn lemma_resolve_absolute(p: Platform, cwd: Seq<SpecComp>, s: Seq<char>)
    requires
        cwd_wf(p, cwd),
    ensures
        is_absolute_spec(p, resolve_spec(p, cwd, s)),
{
    let rc = resolve_comps(p, cwd, s);
    lemma_resolve_wf(p, cwd, s);
    lemma_parse_assemble(p, rc);
}

/// Law: `resolve` is idempotent: resolving an already-resolved path leaves
/// it unchanged.
pub proof fn lemma_resolve_idempotent(p: Platform, cwd: Seq<SpecComp>, s: Seq<char>)
    requires
        cwd_wf(p, cwd),
    ensures
        resolve_spec(p, cwd, resolve_spec(p, cwd, s)) == resolve_spec(p, cwd, s),
{
    let rc = resolve_comps(p, cwd, s);
    let r = resolve_spec(p, cwd, s);
    lemma_resolve_wf(p, cwd, s);
    lemma_parse_assemble(p, rc);
    assert(parse(p, r) == rc);
    lemma_collapse_canonical_fixed(rc);
    if p is Windows {
        assert(resolve_comps(p, cwd, r) == collapse(rc));
    } else {
        assert(!(rc[0] is Prefix)) by {
            assert(valid_comp(p, rc[0]));
        }
        assert(resolve_comps(p, cwd, r) == collapse(rc));
    }
}

/// Law: the relative path from any path to itself is empty.
pub proof fn lemma_relative_self(p: Platform, cwd: Seq<SpecComp>, a: Seq<char>)
    ensures
        relative_spec(p, cwd, a, a) == Seq::<char>::empty(),
{
}

} // verus!
