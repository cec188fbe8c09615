use vstd::prelude::*;

use crate::component::{
    Platform, Component, SpecComp, is_sep_char, is_ascii_letter, is_sep, is_letter,
};

verus! {

// ---------------------------------------------------------------------------
// The decomposer's mathematical model: a path string is a prefix and/or root
// marker followed by separator-delimited tokens, each classified as `.`,
// `..`, or a named segment.
// ---------------------------------------------------------------------------

/// The longest leading run of non-separator characters of `s`.
pub open spec fn take_tok(p: Platform, s: Seq<char>) -> Seq<char>
    decreases s.len(),
{
    if s.len() == 0 || is_sep_char(p, s[0]) {
        Seq::empty()
    } else {
        seq![s[0]] + take_tok(p, s.drop_first())
    }
}

/// Classify one separator-delimited token.
pub open spec fn classify(t: Seq<char>) -> SpecComp {
    if t.len() == 1 && t[0] == '.' {
        SpecComp::CurDir
    } else if t.len() == 2 && t[0] == '.' && t[1] == '.' {
        SpecComp::ParentDir
    } else {
        SpecComp::Normal(t)
    }
}

/// Tokenization as a left-to-right character scan. `pending` is the token
/// text accumulated so far; a separator emits it, and the end of the string
/// emits a final nonempty one. Consecutive separators produce no token.
pub open spec fn scan(p: Platform, s: Seq<char>, pending: Seq<char>) -> Seq<SpecComp>
    decreases s.len(),
{
    if s.len() == 0 {
        if pending.len() == 0 {
            Seq::empty()
        } else {
            seq![classify(pending)]
        }
    } else if is_sep_char(p, s[0]) {
        if pending.len() == 0 {
            scan(p, s.drop_first(), Seq::empty())
        } else {
            seq![classify(pending)] + scan(p, s.drop_first(), Seq::empty())
        }
    } else {
        scan(p, s.drop_first(), pending.push(s[0]))
    }
}

/// The classified tokens of `s`, in order.
pub open spec fn parse_tokens(p: Platform, s: Seq<char>) -> Seq<SpecComp> {
    scan(p, s, Seq::empty())
}

/// A drive-letter prefix (`C:`) starts the string.
pub open spec fn is_drive(s: Seq<char>) -> bool {
    s.len() >= 2 && is_ascii_letter(s[0]) && s[1] == ':'
}

/// The server name of a UNC-shaped string: the token after the two leading
/// separators.
pub open spec fn unc_server(s: Seq<char>) -> Seq<char> {
    take_tok(Platform::Windows, s.skip(2))
}

/// What follows the server name.
pub open spec fn unc_rest(s: Seq<char>) -> Seq<char> {
    s.skip(2 + unc_server(s).len() as int)
}

/// The share name of a UNC-shaped string: the token after the separator that
/// follows the server name.
pub open spec fn unc_share(s: Seq<char>) -> Seq<char> {
    take_tok(Platform::Windows, unc_rest(s).skip(1))
}

/// A UNC prefix (`\\server\share`) starts the string: two separators, a
/// nonempty server name, a separator, and a nonempty share name.
pub open spec fn is_unc(s: Seq<char>) -> bool {
    s.len() >= 3 && is_sep_char(Platform::Windows, s[0]) && is_sep_char(Platform::Windows, s[1])
        && !is_sep_char(Platform::Windows, s[2]) && unc_rest(s).len() >= 2 && is_sep_char(
        Platform::Windows,
        unc_rest(s)[0],
    ) && !is_sep_char(Platform::Windows, unc_rest(s)[1])
}

/// The canonical text of the UNC prefix that starts `s`, with both
/// separators rewritten to the preferred one.
pub open spec fn unc_text(s: Seq<char>) -> Seq<char> {
    seq!['\\', '\\'] + unc_server(s) + seq!['\\'] + unc_share(s)
}

/// The index just past the UNC prefix that starts `s`.
pub open spec fn unc_end(s: Seq<char>) -> int {
    3 + unc_server(s).len() as int + unc_share(s).len() as int
}

/// The component sequence of a raw path string: an optional prefix, an
/// optional root marker, then the classified tokens.
pub open spec fn parse(p: Platform, s: Seq<char>) -> Seq<SpecComp> {
    if p is Windows {
        if is_drive(s) {
            seq![SpecComp::Prefix(s.take(2))] + (if s.len() > 2 && is_sep_char(p, s[2]) {
                seq![SpecComp::RootDir]
            } else {
                Seq::empty()
            }) + parse_tokens(p, s.skip(2))
        } else if is_unc(s) {
            seq![SpecComp::Prefix(unc_text(s)), SpecComp::RootDir] + parse_tokens(
                p,
                s.skip(unc_end(s)),
            )
        } else if s.len() > 0 && is_sep_char(p, s[0]) {
            seq![SpecComp::RootDir] + parse_tokens(p, s)
        } else {
            parse_tokens(p, s)
        }
    } else {
        if s.len() > 0 && is_sep_char(p, s[0]) {
            seq![SpecComp::RootDir] + parse_tokens(p, s)
        } else {
            parse_tokens(p, s)
        }
    }
}

// ---------------------------------------------------------------------------
// Validity: the shapes of component payloads that the decomposer can emit.
// ---------------------------------------------------------------------------

/// A well-formed token text: nonempty, with no separator characters.
pub open spec fn valid_token(p: Platform, t: Seq<char>) -> bool {
    t.len() > 0 && (forall|i: int| 0 <= i < t.len() ==> !is_sep_char(p, t[i]))
}

/// A well-formed drive-letter prefix text.
pub open spec fn drive_text(t: Seq<char>) -> bool {
    t.len() == 2 && is_ascii_letter(t[0]) && t[1] == ':'
}

/// A well-formed UNC prefix text: exactly `\\server\share`, with preferred
/// separators only.
pub open spec fn unc_prefix_text(t: Seq<char>) -> bool {
    is_unc(t) && t[0] == '\\' && t[1] == '\\' && unc_rest(t)[0] == '\\' && unc_end(t) == t.len()
}

pub open spec fn valid_prefix_text(t: Seq<char>) -> bool {
    drive_text(t) || unc_prefix_text(t)
}

/// A well-formed component value, as the decomposer emits them.
pub open spec fn valid_comp(p: Platform, c: SpecComp) -> bool {
    match c {
        SpecComp::Prefix(t) => p is Windows && valid_prefix_text(t),
        SpecComp::Normal(t) => valid_token(p, t) && classify(t) is Normal,
        _ => true,
    }
}

pub open spec fn valid_comps(p: Platform, cs: Seq<SpecComp>) -> bool {
    forall|i: int| 0 <= i < cs.len() ==> valid_comp(p, cs[i])
}

// ---------------------------------------------------------------------------
// Facts about tokens and the scan.
// ---------------------------------------------------------------------------

/// `take_tok` yields the prefix of `s` that ends at the first separator.
pub proof fn lemma_take_tok_shape(p: Platform, s: Seq<char>)
    ensures
        take_tok(p, s).len() <= s.len(),
        take_tok(p, s) =~= s.take(take_tok(p, s).len() as int),
        forall|i: int| 0 <= i < take_tok(p, s).len() ==> !is_sep_char(p, s[i]),
        take_tok(p, s).len() < s.len() ==> is_sep_char(p, s[take_tok(p, s).len() as int]),
        s.len() > 0 && !is_sep_char(p, s[0]) ==> take_tok(p, s).len() >= 1,
    decreases s.len(),
{
    if s.len() == 0 || is_sep_char(p, s[0]) {
    } else {
        lemma_take_tok_shape(p, s.drop_first());
        let t = take_tok(p, s);
        let t1 = take_tok(p, s.drop_first());
        assert(t == seq![s[0]] + t1);
        assert forall|i: int| 0 <= i < t.len() implies !is_sep_char(p, s[i]) by {
            if i > 0 {
                assert(!is_sep_char(p, s.drop_first()[i - 1]));
            }
        }
        assert(t =~= s.take(t.len() as int)) by {
            assert(forall|i: int|
                0 <= i < t1.len() ==> t1[i] == #[trigger] s.drop_first().take(t1.len() as int)[i]);
        }
        if t.len() < s.len() {
            assert(is_sep_char(p, s.drop_first()[t1.len() as int]));
        }
    }
}

/// A token followed by a separator (or by nothing) is what `take_tok` reads.
pub proof fn lemma_take_tok_concat(p: Platform, t: Seq<char>, u: Seq<char>)
    requires
        forall|i: int| 0 <= i < t.len() ==> !is_sep_char(p, t[i]),
        u.len() == 0 || is_sep_char(p, u[0]),
    ensures
        take_tok(p, t + u) =~= t,
    decreases t.len(),
{
    if t.len() == 0 {
        assert(t + u =~= u);
    } else {
        lemma_take_tok_concat(p, t.drop_first(), u);
        assert((t + u).drop_first() =~= t.drop_first() + u);
        assert(take_tok(p, t + u) == seq![t[0]] + take_tok(p, (t + u).drop_first()));
    }
}

/// Scanning a run of non-separator characters only extends the pending token.
pub proof fn lemma_scan_absorb(p: Platform, t: Seq<char>, u: Seq<char>, pending: Seq<char>)
    requires
        forall|i: int| 0 <= i < t.len() ==> !is_sep_char(p, t[i]),
    ensures
        scan(p, t + u, pending) == scan(p, u, pending + t),
    decreases t.len(),
{
    if t.len() == 0 {
        assert(t + u =~= u);
        assert(pending + t =~= pending);
    } else {
        assert((t + u).drop_first() =~= t.drop_first() + u);
        assert(pending.push((t + u)[0]) =~= (pending + seq![t[0]]));
        lemma_scan_absorb(p, t.drop_first(), u, pending + seq![t[0]]);
        assert((pending + seq![t[0]]) + t.drop_first() =~= pending + t);
    }
}

/// Every component a scan emits has a well-formed payload.
pub proof fn lemma_scan_valid(p: Platform, s: Seq<char>, pending: Seq<char>)
    requires
        forall|i: int| 0 <= i < pending.len() ==> !is_sep_char(p, pending[i]),
    ensures
        valid_comps(p, scan(p, s, pending)),
    decreases s.len(),
{
    if s.len() == 0 {
        if pending.len() > 0 {
            assert(valid_comp(p, classify(pending)));
        }
    } else if is_sep_char(p, s[0]) {
        lemma_scan_valid(p, s.drop_first(), Seq::empty());
        if pending.len() > 0 {
            assert(valid_comp(p, classify(pending)));
            assert(forall|i: int|
                0 <= i < scan(p, s, pending).len() ==> valid_comp(p, scan(p, s, pending)[i]));
        }
    } else {
        assert(forall|i: int|
            0 <= i < pending.push(s[0]).len() ==> !is_sep_char(p, pending.push(s[0])[i]));
        lemma_scan_valid(p, s.drop_first(), pending.push(s[0]));
    }
}

/// The canonical prefix text built from a UNC-shaped string is itself a
/// well-formed UNC prefix text.
pub proof fn lemma_unc_text_valid(s: Seq<char>)
    requires
        is_unc(s),
    ensures
        unc_prefix_text(unc_text(s)),
        unc_server(unc_text(s)) == unc_server(s),
        unc_share(unc_text(s)) == unc_share(s),
        unc_server(s).len() >= 1,
        unc_share(s).len() >= 1,
{
    let w = Platform::Windows;
    let sv = unc_server(s);
    let sh = unc_share(s);
    let t = unc_text(s);
    lemma_take_tok_shape(w, s.skip(2));
    lemma_take_tok_shape(w, unc_rest(s).skip(1));
    assert(!is_sep_char(w, s.skip(2)[0]));
    assert(sv.len() >= 1);
    assert(!is_sep_char(w, unc_rest(s).skip(1)[0]));
    assert(sh.len() >= 1);
    assert(forall|i: int| 0 <= i < sv.len() ==> !is_sep_char(w, sv[i])) by {
        assert(forall|i: int|
            0 <= i < sv.len() ==> sv[i] == s.skip(2).take(sv.len() as int)[i]);
    }
    assert(forall|i: int| 0 <= i < sh.len() ==> !is_sep_char(w, sh[i])) by {
        assert(forall|i: int|
            0 <= i < sh.len() ==> sh[i] == unc_rest(s).skip(1).take(sh.len() as int)[i]);
    }
    assert(t.skip(2) =~= sv + (seq!['\\'] + sh));
    lemma_take_tok_concat(w, sv, seq!['\\'] + sh);
    assert(unc_server(t) == sv);
    assert(unc_rest(t) =~= seq!['\\'] + sh);
    assert(unc_rest(t).skip(1) =~= sh);
    lemma_take_tok_concat(w, sh, Seq::empty());
    assert(sh + Seq::<char>::empty() =~= sh);
    assert(unc_share(t) == sh);
    assert(is_unc(t));
    assert(unc_end(t) == t.len());
}

/// The end of the token that starts at `start`: the index of the first
/// separator at or after `start`, or the end of the string.
fn token_end(p: Platform, s: &str, n: usize, start: usize) -> (j: usize)
    requires
        n == s@.len(),
        start <= n,
    ensures
        start <= j <= n,
        s@.subrange(start as int, j as int) =~= take_tok(p, s@.skip(start as int)),
        j as int == start + take_tok(p, s@.skip(start as int)).len(),
        forall|k: int| start <= k < j ==> !is_sep_char(p, s@[k]),
        j < n ==> is_sep_char(p, s@[j as int]),
{
    let mut j = start;
    while j < n && !is_sep(p, s.get_char(j))
        invariant
            start <= j <= n,
            n == s@.len(),
            forall|k: int| start <= k < j ==> !is_sep_char(p, s@[k]),
        decreases n - j,
    {
        j = j + 1;
    }
    proof {
        let t = s@.subrange(start as int, j as int);
        let u = s@.skip(j as int);
        assert(s@.skip(start as int) =~= t + u);
        lemma_take_tok_concat(p, t, u);
    }
    j
}

/// Classify the token occupying `s[i..j]`.
fn classify_token(s: &str, i: usize, j: usize) -> (c: Component)
    requires
        i < j <= s@.len(),
    ensures
        c@ == classify(s@.subrange(i as int, j as int)),
{
    let len = j - i;
    let c0 = s.get_char(i);
    if len == 1 && c0 == '.' {
        Component::CurDir
    } else if len == 2 && c0 == '.' && s.get_char(i + 1) == '.' {
        Component::ParentDir
    } else {
        Component::Normal(s.substring_char(i, j).to_owned())
    }
}

/// Split a raw path string into typed components: an optional platform
/// prefix, an optional root marker, then the classified segments.
pub fn decompose(p: Platform, s: &str) -> (r: Vec<Component>)
    ensures
        r.deep_view() == parse(p, s@),
{
    let n = s.unicode_len();
    let mut out: Vec<Component> = Vec::new();
    let mut i: usize = 0;
    match p {
        Platform::Windows => {
            if n >= 2 && is_letter(s.get_char(0)) && s.get_char(1) == ':' {
                out.push(Component::Prefix(s.substring_char(0, 2).to_owned()));
                if n > 2 && is_sep(p, s.get_char(2)) {
                    out.push(Component::RootDir);
                }
                i = 2;
                proof {
                    assert(s@.subrange(0, 2) =~= s@.take(2));
                    assert(parse(p, s@) =~= out.deep_view() + scan(
                        p,
                        s@.skip(i as int),
                        Seq::empty(),
                    ));
                }
            } else if n >= 3 && is_sep(p, s.get_char(0)) && is_sep(p, s.get_char(1)) && !is_sep(
                p,
                s.get_char(2),
            ) {
                let j = token_end(p, s, n, 2);
                let mut is_unc_prefix = false;
                if n - j > 1 {
                    if !is_sep(p, s.get_char(j + 1)) {
                        let k = token_end(p, s, n, j + 1);
                        let mut t = String::new();
                        t.append("\\\\");
                        t.append(s.substring_char(2, j));
                        t.append("\\");
                        t.append(s.substring_char(j + 1, k));
                        proof {
                            reveal_strlit("\\\\");
                            reveal_strlit("\\");
                            assert(unc_server(s@) =~= s@.subrange(2, j as int));
                            assert(unc_rest(s@) =~= s@.skip(j as int));
                            assert(unc_rest(s@).skip(1) =~= s@.skip(j as int + 1));
                            assert(unc_share(s@) =~= s@.subrange(j as int + 1, k as int));
                            assert(is_unc(s@));
                            assert(t@ =~= unc_text(s@));
                            assert(unc_end(s@) == k as int);
                        }
                        out.push(Component::Prefix(t));
                        out.push(Component::RootDir);
                        i = k;
                        is_unc_prefix = true;
                        proof {
                            assert(parse(p, s@) =~= out.deep_view() + scan(
                                p,
                                s@.skip(i as int),
                                Seq::empty(),
                            ));
                        }
                    }
                }
                if !is_unc_prefix {
                    proof {
                        assert(unc_server(s@) =~= s@.subrange(2, j as int));
                        assert(unc_rest(s@) =~= s@.skip(j as int));
                        if n - j > 1 {
                            assert(unc_rest(s@)[1] == s@[j as int + 1]);
                        }
                        assert(!is_unc(s@));
                    }
                    out.push(Component::RootDir);
                    proof {
                        assert(s@.skip(0) =~= s@);
                        assert(parse(p, s@) =~= out.deep_view() + scan(
                            p,
                            s@.skip(i as int),
                            Seq::empty(),
                        ));
                    }
                }
            } else {
                if n > 0 && is_sep(p, s.get_char(0)) {
                    out.push(Component::RootDir);
                }
                proof {
                    assert(!is_unc(s@));
                    assert(s@.skip(0) =~= s@);
                    assert(parse(p, s@) =~= out.deep_view() + scan(
                        p,
                        s@.skip(i as int),
                        Seq::empty(),
                    ));
                }
            }
        },
        Platform::Posix => {
            if n > 0 && is_sep(p, s.get_char(0)) {
                out.push(Component::RootDir);
            }
            proof {
                assert(s@.skip(0) =~= s@);
                assert(parse(p, s@) =~= out.deep_view() + scan(p, s@.skip(i as int), Seq::empty()));
            }
        },
    }
    while i < n
        invariant
            i <= n,
            n == s@.len(),
            parse(p, s@) == out.deep_view() + scan(p, s@.skip(i as int), Seq::empty()),
        decreases n - i,
    {
        if is_sep(p, s.get_char(i)) {
            proof {
                assert(s@.skip(i as int).drop_first() =~= s@.skip(i as int + 1));
            }
            i = i + 1;
        } else {
            let j = token_end(p, s, n, i);
            let comp = classify_token(s, i, j);
            let ghost pre = out.deep_view();
            out.push(comp);
            proof {
                assert(out.deep_view() =~= pre.push(comp@));
                let tok = s@.subrange(i as int, j as int);
                assert(s@.skip(i as int) =~= tok + s@.skip(j as int));
                lemma_scan_absorb(p, tok, s@.skip(j as int), Seq::empty());
                assert(Seq::<char>::empty() + tok =~= tok);
                if j < n {
                    assert(s@.skip(j as int).drop_first() =~= s@.skip(j as int + 1));
                } else {
                    assert(s@.skip(j as int) =~= Seq::<char>::empty());
                }
                assert(parse(p, s@) =~= out.deep_view() + scan(p, s@.skip(j as int), Seq::empty()));
            }
            i = j;
        }
    }
    proof {
        assert(s@.skip(n as int) =~= Seq::<char>::empty());
        assert(out.deep_view() + Seq::<SpecComp>::empty() =~= out.deep_view());
    }
    out
}

} // verus!
