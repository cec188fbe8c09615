use vstd::prelude::*;

use crate::component::{Platform, Component, SpecComp, sep_char, is_sep_char, is_ascii_letter};
use crate::parse::{
    parse, parse_tokens, scan, classify, lemma_scan_absorb, lemma_take_tok_shape,
    lemma_take_tok_concat, valid_comps, valid_comp, drive_text,
    unc_prefix_text, is_drive, is_unc, unc_server, unc_rest, unc_share, unc_text, unc_end,
};
use crate::collapse::{segments_only, canonical, rooted, lemma_rooted_no_parent};

verus! {

/// The text a component contributes when reassembled.
pub open spec fn comp_text(p: Platform, c: SpecComp) -> Seq<char> {
    match c {
        SpecComp::Prefix(t) => t,
        SpecComp::RootDir => seq![sep_char(p)],
        SpecComp::CurDir => seq!['.'],
        SpecComp::ParentDir => seq!['.', '.'],
        SpecComp::Normal(t) => t,
    }
}

/// Join components with the preferred separator. No separator is owed after
/// a prefix (the root marker that may follow is itself the separator) or
/// after a root marker; `need_sep` says whether one is owed before the next
/// component.
pub open spec fn join_from(p: Platform, cs: Seq<SpecComp>, need_sep: bool) -> Seq<char>
    decreases cs.len(),
{
    if cs.len() == 0 {
        Seq::empty()
    } else {
        (if need_sep {
            seq![sep_char(p)]
        } else {
            Seq::empty()
        }) + comp_text(p, cs[0]) + join_from(
            p,
            cs.drop_first(),
            !(cs[0] is Prefix || cs[0] is RootDir),
        )
    }
}

/// Reassemble a component sequence into a path string.
pub open spec fn assemble(p: Platform, cs: Seq<SpecComp>) -> Seq<char> {
    join_from(p, cs, false)
}

/// The preferred separator as a string.
pub fn sep_str(p: Platform) -> (r: &'static str)
    ensures
        r@ == seq![sep_char(p)],
{
    match p {
        Platform::Windows => {
            proof {
                reveal_strlit("\\");
                assert(("\\")@ =~= seq!['\\']);
            }
            "\\"
        },
        Platform::Posix => {
            proof {
                reveal_strlit("/");
                assert(("/")@ =~= seq!['/']);
            }
            "/"
        },
    }
}

/// Reassemble a component sequence into a path string, joining with the
/// platform-preferred separator.
pub fn component_vec_to_path_buf(p: Platform, components: Vec<Component>) -> (r: String)
    ensures
        r@ == assemble(p, components.deep_view()),
{
    let ghost all = components.deep_view();
    let mut out = String::new();
    let mut need_sep = false;
    let mut i: usize = 0;
    proof {
        assert(all.skip(0) =~= all);
        assert(out@ + join_from(p, all, false) =~= join_from(p, all, false));
    }
    while i < components.len()
        invariant
            i <= components.len(),
            all == components.deep_view(),
            assemble(p, all) == out@ + join_from(p, all.skip(i as int), need_sep),
        decreases components.len() - i,
    {
        let ghost pre = out@;
        let ghost ns0 = need_sep;
        let ghost rest = all.skip(i as int);
        if need_sep {
            out.append(sep_str(p));
        }
        match &components[i] {
            Component::Prefix(t) => {
                out.append(t.as_str());
                need_sep = false;
            },
            Component::RootDir => {
                out.append(sep_str(p));
                need_sep = false;
            },
            Component::CurDir => {
                out.append(".");
                need_sep = true;
            },
            Component::ParentDir => {
                out.append("..");
                need_sep = true;
            },
            Component::Normal(t) => {
                out.append(t.as_str());
                need_sep = true;
            },
        }
        proof {
            reveal_strlit(".");
            reveal_strlit("..");
            assert((".")@ =~= seq!['.']);
            assert(("..")@ =~= seq!['.', '.']);
            assert(rest[0] == all[i as int]);
            assert(rest.drop_first() =~= all.skip(i as int + 1));
            assert(pre + join_from(p, rest, ns0) =~= out@ + join_from(
                p,
                all.skip(i as int + 1),
                need_sep,
            ));
        }
        i = i + 1;
    }
    proof {
        assert(all.skip(components.len() as int) =~= Seq::<SpecComp>::empty());
        assert(out@ + Seq::<char>::empty() =~= out@);
    }
    out
}

/// Parsing back the separator-joined text of classified segments yields
/// exactly those segments.
pub proof fn lemma_tokens_roundtrip(p: Platform, segs: Seq<SpecComp>)
    requires
        segments_only(segs),
        valid_comps(p, segs),
    ensures
        parse_tokens(p, join_from(p, segs, false)) == segs,
    decreases segs.len(),
{
    if segs.len() == 0 {
    } else {
        let c = segs[0];
        let t = comp_text(p, c);
        let rest = join_from(p, segs.drop_first(), true);
        assert(join_from(p, segs, false) =~= t + rest);
        assert(t.len() > 0 && (forall|k: int| 0 <= k < t.len() ==> !is_sep_char(p, t[k]))) by {
            assert(valid_comp(p, segs[0]));
            assert(!is_sep_char(p, '.'));
        }
        assert(classify(t) == c) by {
            assert(valid_comp(p, segs[0]));
        }
        lemma_scan_absorb(p, t, rest, Seq::empty());
        assert(Seq::<char>::empty() + t =~= t);
        assert(segments_only(segs.drop_first()) && valid_comps(p, segs.drop_first()));
        lemma_tokens_roundtrip(p, segs.drop_first());
        if segs.len() == 1 {
            assert(rest =~= Seq::<char>::empty());
            assert(parse_tokens(p, join_from(p, segs, false)) =~= segs);
        } else {
            let d = segs.drop_first();
            assert(join_from(p, d, true) =~= seq![sep_char(p)] + join_from(p, d, false));
            assert(rest[0] == sep_char(p));
            assert(is_sep_char(p, rest[0]));
            assert(rest.drop_first() =~= join_from(p, d, false));
            assert(parse_tokens(p, join_from(p, segs, false)) =~= seq![c] + d);
            assert(seq![c] + d =~= segs);
        }
    }
}

/// Round trip for a sequence that opens with the root marker and no prefix.
proof fn lemma_roundtrip_root(p: Platform, cs: Seq<SpecComp>)
    requires
        canonical(cs),
        valid_comps(p, cs),
        cs.len() >= 1,
        cs[0] is RootDir,
    ensures
        parse(p, assemble(p, cs)) == cs,
{
    let s = assemble(p, cs);
    let rest = cs.drop_first();
    assert(rooted(cs));
    assert forall|k: int| 0 <= k < rest.len() implies rest[k] is Normal by {
        assert(rest[k] == cs[k + 1]);
        lemma_rooted_no_parent(cs, k + 1);
        assert(!(cs[k + 1] is CurDir));
        assert(!(cs[k + 1] is Prefix));
        assert(!(cs[k + 1] is RootDir));
    }
    assert(segments_only(rest) && valid_comps(p, rest));
    assert(s =~= seq![sep_char(p)] + join_from(p, rest, false));
    lemma_tokens_roundtrip(p, rest);
    assert(s[0] == sep_char(p) && is_sep_char(p, s[0]));
    if p is Windows {
        assert(!is_ascii_letter(sep_char(p)));
        assert(!is_drive(s));
        if s.len() >= 3 {
            assert(rest.len() > 0);
            assert(join_from(p, rest, false) =~= comp_text(p, rest[0]) + join_from(
                p,
                rest.drop_first(),
                true,
            ));
            assert(comp_text(p, rest[0]).len() > 0) by {
                assert(valid_comp(p, rest[0]));
            }
            assert(s[1] == comp_text(p, rest[0])[0]);
            assert(!is_sep_char(p, s[1])) by {
                assert(valid_comp(p, rest[0]));
            }
            assert(!is_unc(s));
        }
        assert(!is_unc(s));
    }
    assert(s.drop_first() =~= join_from(p, rest, false));
    assert(parse_tokens(p, s) == parse_tokens(p, join_from(p, rest, false)));
    assert(parse(p, s) =~= seq![cs[0]] + rest);
    assert(seq![cs[0]] + rest =~= cs);
}

/// Round trip for a sequence that opens with a drive-letter prefix.
proof fn lemma_roundtrip_drive(p: Platform, cs: Seq<SpecComp>)
    requires
        canonical(cs),
        valid_comps(p, cs),
        cs.len() >= 1,
        cs[0] is Prefix,
        drive_text(comp_text(p, cs[0])),
    ensures
        parse(p, assemble(p, cs)) == cs,
{
    let s = assemble(p, cs);
    let t = comp_text(p, cs[0]);
    let rest = cs.drop_first();
    assert(p is Windows) by {
        assert(valid_comp(p, cs[0]));
    }
    assert(s =~= t + join_from(p, rest, false));
    assert(s[0] == t[0] && s[1] == t[1]);
    assert(is_drive(s));
    assert(s.take(2) =~= t);
    assert(s.skip(2) =~= join_from(p, rest, false));
    assert(SpecComp::Prefix(s.take(2)) == cs[0]);
    if rest.len() > 0 && rest[0] is RootDir {
        let segs = rest.drop_first();
        assert(rooted(cs));
        assert forall|k: int| 0 <= k < segs.len() implies segs[k] is Normal by {
            assert(segs[k] == cs[k + 2]);
            lemma_rooted_no_parent(cs, k + 2);
            assert(!(cs[k + 2] is CurDir));
            assert(!(cs[k + 2] is Prefix));
            assert(!(cs[k + 2] is RootDir));
        }
        assert(segments_only(segs) && valid_comps(p, segs));
        assert(join_from(p, rest, false) =~= seq![sep_char(p)] + join_from(p, segs, false));
        assert(s.len() > 2 && s[2] == sep_char(p) && is_sep_char(p, s[2]));
        lemma_tokens_roundtrip(p, segs);
        assert(s.skip(2).drop_first() =~= join_from(p, segs, false));
        assert(parse_tokens(p, s.skip(2)) == segs);
        assert(parse(p, s) =~= seq![cs[0], cs[1]] + segs);
        assert(seq![cs[0], cs[1]] + segs =~= cs);
    } else {
        assert forall|k: int| 0 <= k < rest.len() implies rest[k] is ParentDir || rest[k]
            is Normal by {
            assert(rest[k] == cs[k + 1]);
            assert(!(cs[k + 1] is CurDir));
            assert(!(cs[k + 1] is Prefix));
            assert(!(cs[k + 1] is RootDir));
        }
        assert(segments_only(rest) && valid_comps(p, rest));
        if rest.len() == 0 {
            assert(s =~= t);
            assert(s.len() == 2);
            assert(s.skip(2) =~= Seq::<char>::empty());
            assert(parse(p, s) =~= cs);
        } else {
            assert(join_from(p, rest, false) =~= comp_text(p, rest[0]) + join_from(
                p,
                rest.drop_first(),
                true,
            ));
            assert(comp_text(p, rest[0]).len() > 0) by {
                assert(valid_comp(p, rest[0]));
                assert(!is_sep_char(p, '.'));
            }
            assert(s[2] == comp_text(p, rest[0])[0]);
            assert(!is_sep_char(p, s[2])) by {
                assert(valid_comp(p, rest[0]));
                assert(!is_sep_char(p, '.'));
            }
            lemma_tokens_roundtrip(p, rest);
            assert(parse(p, s) =~= seq![cs[0]] + rest);
            assert(seq![cs[0]] + rest =~= cs);
        }
    }
}

/// A well-formed UNC prefix text is two separators, the server, one
/// separator, and the share.
proof fn lemma_unc_structure(t: Seq<char>)
    requires
        unc_prefix_text(t),
    ensures
        unc_server(t).len() >= 1,
        unc_share(t).len() >= 1,
        forall|k: int| 0 <= k < unc_server(t).len() ==> !is_sep_char(
            Platform::Windows,
            unc_server(t)[k],
        ),
        forall|k: int| 0 <= k < unc_share(t).len() ==> !is_sep_char(
            Platform::Windows,
            unc_share(t)[k],
        ),
        t =~= seq!['\\', '\\'] + unc_server(t) + seq!['\\'] + unc_share(t),
{
    let w = Platform::Windows;
    let sv = unc_server(t);
    let sh = unc_share(t);
    lemma_take_tok_shape(w, t.skip(2));
    lemma_take_tok_shape(w, unc_rest(t).skip(1));
    assert(!is_sep_char(w, t.skip(2)[0]));
    assert(sv.len() >= 1);
    assert(!is_sep_char(w, unc_rest(t).skip(1)[0]));
    assert(sh.len() >= 1);
    assert(forall|k: int| 0 <= k < sv.len() ==> !is_sep_char(w, sv[k])) by {
        assert(forall|k: int| 0 <= k < sv.len() ==> sv[k] == t.skip(2).take(sv.len() as int)[k]);
    }
    assert(forall|k: int| 0 <= k < sh.len() ==> !is_sep_char(w, sh[k])) by {
        assert(forall|k: int|
            0 <= k < sh.len() ==> sh[k] == unc_rest(t).skip(1).take(sh.len() as int)[k]);
    }
    assert(unc_rest(t).skip(1) =~= sh);
    assert(unc_rest(t) =~= seq!['\\'] + sh);
    assert(t =~= seq!['\\', '\\'] + sv + seq!['\\'] + sh);
}

/// A well-formed UNC prefix text followed by a separator reparses as the
/// same prefix, whatever follows the separator.
proof fn lemma_unc_reparse(t: Seq<char>, rest: Seq<char>)
    requires
        unc_prefix_text(t),
        rest.len() >= 1,
        is_sep_char(Platform::Windows, rest[0]),
    ensures
        parse(Platform::Windows, t + rest) == seq![
            SpecComp::Prefix(t),
            SpecComp::RootDir,
        ] + parse_tokens(Platform::Windows, rest),
{
    let w = Platform::Windows;
    let s = t + rest;
    let sv = unc_server(t);
    let sh = unc_share(t);
    lemma_unc_structure(t);
    assert(s[0] == '\\' && s[1] == '\\');
    assert(!is_drive(s)) by {
        assert(!is_ascii_letter('\\'));
    }
    assert(s.skip(2) =~= sv + (seq!['\\'] + sh + rest));
    lemma_take_tok_concat(w, sv, seq!['\\'] + sh + rest);
    assert(unc_server(s) == sv);
    assert(unc_rest(s) =~= seq!['\\'] + sh + rest);
    assert(unc_rest(s).skip(1) =~= sh + rest);
    lemma_take_tok_concat(w, sh, rest);
    assert(unc_share(s) == sh);
    assert(s[2] == sv[0]);
    assert(is_unc(s));
    assert(unc_text(s) =~= t);
    assert(unc_end(s) == t.len() as int);
    assert(s.skip(unc_end(s)) =~= rest);
    assert(parse(w, s) =~= seq![SpecComp::Prefix(t), SpecComp::RootDir] + parse_tokens(w, rest));
}

/// Past the root marker of a rooted canonical sequence only named segments
/// stand, and their joined text parses back to them.
proof fn lemma_tail_normals(p: Platform, cs: Seq<SpecComp>, start: int)
    requires
        canonical(cs),
        valid_comps(p, cs),
        rooted(cs),
        1 <= start <= cs.len(),
        cs[0] is Prefix ==> start >= 2,
    ensures
        segments_only(cs.skip(start)),
        valid_comps(p, cs.skip(start)),
        forall|k: int| 0 <= k < cs.skip(start).len() ==> cs.skip(start)[k] is Normal,
        parse_tokens(p, join_from(p, cs.skip(start), false)) == cs.skip(start),
{
    let segs = cs.skip(start);
    assert forall|k: int| 0 <= k < segs.len() implies segs[k] is Normal by {
        assert(segs[k] == cs[k + start]);
        lemma_rooted_no_parent(cs, k + start);
        assert(!(cs[k + start] is CurDir));
        assert(!(cs[k + start] is Prefix));
        assert(!(cs[k + start] is RootDir));
    }
    assert(segments_only(segs) && valid_comps(p, segs));
    lemma_tokens_roundtrip(p, segs);
}

/// Round trip for a sequence that opens with a UNC prefix and its root.
#[verifier::rlimit(100)]
#[verifier::spinoff_prover]
proof fn lemma_roundtrip_unc(p: Platform, cs: Seq<SpecComp>)
    requires
        canonical(cs),
        valid_comps(p, cs),
        cs.len() >= 2,
        cs[0] is Prefix,
        unc_prefix_text(comp_text(p, cs[0])),
        cs[1] is RootDir,
    ensures
        parse(p, assemble(p, cs)) == cs,
{
    let s = assemble(p, cs);
    let t = comp_text(p, cs[0]);
    assert(p is Windows) by {
        assert(valid_comp(p, cs[0]));
    }
    assert(p == Platform::Windows);
    assert(rooted(cs));
    lemma_tail_normals(p, cs, 2);
    let segs = cs.skip(2);
    let rest = seq![sep_char(p)] + join_from(p, segs, false);
    assert(s =~= t + rest) by {
        assert(cs.drop_first()[0] == cs[1]);
        assert(cs.drop_first().drop_first() =~= segs);
        assert(s =~= t + join_from(p, cs.drop_first(), false));
        assert(join_from(p, cs.drop_first(), false) =~= seq![sep_char(p)] + join_from(
            p,
            segs,
            false,
        ));
    }
    assert(sep_char(p) == '\\');
    lemma_unc_reparse(t, rest);
    assert(parse_tokens(p, rest) == segs) by {
        assert(rest.drop_first() =~= join_from(p, segs, false));
    }
    assert(parse(p, s) == seq![SpecComp::Prefix(t), SpecComp::RootDir] + segs);
    assert(SpecComp::Prefix(t) == cs[0]);
    assert(SpecComp::RootDir == cs[1]);
    assert(seq![cs[0], cs[1]] + segs =~= cs);
}

/// Round trip for a sequence of segments alone, with no prefix or root.
proof fn lemma_roundtrip_segments(p: Platform, cs: Seq<SpecComp>)
    requires
        canonical(cs),
        valid_comps(p, cs),
        cs.len() >= 1,
        !(cs[0] is Prefix),
        !(cs[0] is RootDir),
        !(p is Windows && cs[0] is Normal && is_drive(comp_text(p, cs[0]))),
    ensures
        parse(p, assemble(p, cs)) == cs,
{
    let s = assemble(p, cs);
    assert forall|k: int| 0 <= k < cs.len() implies cs[k] is ParentDir || cs[k] is Normal by {
        assert(!(cs[k] is CurDir));
        if k > 0 {
            assert(!(cs[k] is Prefix));
            assert(!(cs[k] is RootDir));
        }
    }
    assert(segments_only(cs) && valid_comps(p, cs));
    lemma_tokens_roundtrip(p, cs);
    assert(s =~= comp_text(p, cs[0]) + join_from(p, cs.drop_first(), true));
    assert(comp_text(p, cs[0]).len() > 0) by {
        assert(valid_comp(p, cs[0]));
    }
    assert(s[0] == comp_text(p, cs[0])[0]);
    assert(!is_sep_char(p, s[0])) by {
        assert(valid_comp(p, cs[0]));
        assert(!is_sep_char(p, '.'));
    }
    if p is Windows {
        assert(!is_unc(s));
        assert(!is_drive(s)) by {
            let tx = comp_text(p, cs[0]);
            if cs[0] is ParentDir {
                assert(s[0] == '.');
                assert(!is_ascii_letter('.'));
            } else {
                if s.len() >= 2 {
                    if tx.len() >= 2 {
                        assert(s[1] == tx[1]);
                    } else {
                        assert(cs.len() >= 2);
                        assert(join_from(p, cs.drop_first(), true) =~= seq![sep_char(p)]
                            + comp_text(p, cs.drop_first()[0]) + join_from(
                            p,
                            cs.drop_first().drop_first(),
                            true,
                        ));
                        assert(s[1] == sep_char(p));
                        assert(sep_char(p) != ':');
                    }
                }
            }
        }
    }
    assert(parse(p, s) == parse_tokens(p, s));
    assert(parse_tokens(p, s) == cs);
}

/// Reassembling a canonical, well-formed component sequence and parsing the
/// text back yields the same sequence. A UNC prefix must be followed by its
/// root marker, as the decomposer always emits it; on Windows an opening
/// named segment must not look like a drive prefix.
pub proof fn lemma_parse_assemble(p: Platform, cs: Seq<SpecComp>)
    requires
        canonical(cs),
        valid_comps(p, cs),
        cs.len() >= 1 && cs[0] is Prefix && unc_prefix_text(comp_text(p, cs[0])) ==> cs.len() >= 2
            && cs[1] is RootDir,
        !(p is Windows && cs.len() >= 1 && cs[0] is Normal && is_drive(comp_text(p, cs[0]))),
    ensures
        parse(p, assemble(p, cs)) == cs,
{
    if cs.len() == 0 {
        assert(assemble(p, cs) =~= Seq::<char>::empty());
        assert(parse(p, assemble(p, cs)) =~= cs);
    } else if cs[0] is RootDir {
        lemma_roundtrip_root(p, cs);
    } else if cs[0] is Prefix {
        assert(valid_comp(p, cs[0]));
        if drive_text(comp_text(p, cs[0])) {
            lemma_roundtrip_drive(p, cs);
        } else {
            lemma_roundtrip_unc(p, cs);
        }
    } else {
        lemma_roundtrip_segments(p, cs);
    }
}

} // verus!
