//! The decoder for the metadata store.
//!
//! A document in the canonical form the encoder writes — surrounding
//! whitespace aside — is read by the canonical parser below, which is
//! proved sound (what it accepts is exactly the canonical form of what it
//! returns) and complete (when it refuses, no value's canonical form
//! starts at that position). Every other document falls to the tolerant
//! reading of [`crate::tolerant`], which takes whitespace between tokens,
//! keys in any order and the standard JSON string escapes, and defaults a
//! malformed `needed_vars` to empty; it fails exactly when the top-level
//! value is not a sequence or a member object does not fit the schema.

use vstd::prelude::*;

use crate::codec::{
    esc, esc_char, jarr, jarr_inner, jbool, jitem, jitems_inner, json_of_hupas, jstr, jvars,
    all_wf, decoded, is_ws, lemma_concat_starts_with, lemma_esc_align, lemma_esc_snoc,
    lemma_jarr_inner_snoc, lemma_jarr_align, lemma_jbool_align, lemma_jitem_align,
    lemma_jitem_parts, lemma_jitems_inner_align, lemma_jitems_inner_snoc,
    lemma_json_of_hupas_injective, lemma_jstr_align, lemma_starts_with_concat, starts_with,
    trimmed, ws_prefix_len, ws_suffix_len,
};
use crate::error::MetadataError;
use crate::item::{Hupa, HupaView, hupa_wf};
use crate::text::{chars_of, lemma_skip_skip, push_char};
use crate::tolerant::{read_store, tolerant_decoded};

verus! {

proof fn lemma_starts_with_self(x: Seq<char>)
    ensures
        starts_with(x, x),
{
    assert(x.subrange(0, x.len() as int) =~= x);
}

/// Consumes the exact literal `pat` at position `i`.
pub(crate) fn expect_lit(cs: &Vec<char>, i: usize, pat: &str) -> (r: Option<usize>)
    requires
        i <= cs@.len(),
    ensures
        match r {
            Option::Some(j) => i + pat@.len() == j && j <= cs@.len() && starts_with(
                cs@.skip(i as int),
                pat@,
            ),
            Option::None => !starts_with(cs@.skip(i as int), pat@),
        },
{
    let m = pat.unicode_len();
    let n = cs.len();
    if m > n - i {
        return Option::None;
    }
    let mut k: usize = 0;
    while k < m
        invariant
            k <= m,
            m == pat@.len(),
            n == cs@.len(),
            i + m <= n,
            forall|t: int| 0 <= t < k ==> cs@[i + t] == pat@[t],
        decreases m - k,
    {
        let c = cs[i + k];
        let d = pat.get_char(k);
        if c != d {
            proof {
                if starts_with(cs@.skip(i as int), pat@) {
                    assert(cs@.skip(i as int).subrange(0, m as int)[k as int] == pat@[k as int]);
                    assert(cs@.skip(i as int)[k as int] == cs@[i + k]);
                    assert(false);
                }
            }
            return Option::None;
        }
        k = k + 1;
    }
    proof {
        assert(cs@.skip(i as int).subrange(0, m as int) =~= pat@);
    }
    Option::Some(i + m)
}

/// Parses a quoted string at position `i`.
#[verifier::rlimit(100)]
fn parse_jstr(cs: &Vec<char>, i: usize) -> (r: Option<(String, usize)>)
    requires
        i <= cs@.len(),
    ensures
        match r {
            Option::Some(sj) => i + jstr(sj.0@).len() == sj.1 && sj.1 <= cs@.len() && starts_with(
                cs@.skip(i as int),
                jstr(sj.0@),
            ),
            Option::None => forall|t: Seq<char>| !starts_with(cs@.skip(i as int), jstr(t)),
        },
{
    let n = cs.len();
    let ghost y = cs@.skip(i as int);
    if i >= n || cs[i] != '"' {
        proof {
            assert forall|t: Seq<char>| !starts_with(y, jstr(t)) by {
                if starts_with(y, jstr(t)) {
                    assert(jstr(t) =~= seq!['"'] + (esc(t) + seq!['"']));
                    assert(y.subrange(0, jstr(t).len() as int)[0] == jstr(t)[0]);
                    assert(y[0] == '"');
                    assert(y[0] == cs@[i as int]);
                    assert(false);
                }
            }
        }
        return Option::None;
    }
    let ghost y1 = cs@.skip(i + 1);
    let mut p: usize = i + 1;
    let mut out = String::new();
    proof {
        assert(cs@.subrange(i + 1, i + 1) =~= esc(out@));
    }
    loop
        invariant
            i < p <= n,
            n == cs@.len(),
            i < n,
            cs@[i as int] == '"',
            y == cs@.skip(i as int),
            y1 == cs@.skip(i + 1),
            cs@.subrange(i + 1, p as int) == esc(out@),
        decreases n - p,
    {
        proof {
            assert(starts_with(y1, esc(out@))) by {
                assert(y1.subrange(0, esc(out@).len() as int) =~= cs@.subrange(i + 1, p as int));
            }
        }
        if p >= n {
            proof {
                assert forall|t: Seq<char>| !starts_with(y, jstr(t)) by {
                    if starts_with(y, jstr(t)) {
                        assert(jstr(t) =~= seq!['"'] + (esc(t) + seq!['"']));
                        lemma_starts_with_concat(y, seq!['"'], esc(t) + seq!['"']);
                        lemma_skip_skip(cs@, i as int, 1);
                        assert(y.skip(1) == y1);
                        assert(esc(t) + seq!['"'] =~= esc(t).push('"'));
                        lemma_esc_align(out@, t, y1);
                        assert(esc(out@).len() == p - i - 1);
                        assert(y1.len() == n - i - 1);
                        if out@ == t {
                            assert(esc(out@).len() < y1.len());
                            assert(false);
                        } else {
                            assert(esc_char(t[out@.len() as int]).len() >= 1);
                            assert(false);
                        }
                    }
                }
            }
            return Option::None;
        }
        let c = cs[p];
        if c == '"' {
            proof {
                assert(jstr(out@).len() == p + 1 - i);
                assert(starts_with(y, jstr(out@))) by {
                    assert(jstr(out@) =~= seq!['"'] + (esc(out@) + seq!['"']));
                    assert(y.subrange(0, jstr(out@).len() as int) =~= jstr(out@)) by {
                        assert forall|k: int| 0 <= k < jstr(out@).len() implies y.subrange(
                            0,
                            jstr(out@).len() as int,
                        )[k] == jstr(out@)[k] by {
                            assert(y[k] == cs@[i + k]);
                            if k == 0 {
                            } else if k < jstr(out@).len() - 1 {
                                assert(cs@.subrange(i + 1, p as int)[k - 1] == esc(out@)[k - 1]);
                            } else {
                                assert(cs@[p as int] == '"');
                            }
                        }
                    }
                }
                assert(jstr(out@).len() == 2 + esc(out@).len());
            }
            return Option::Some((out, p + 1));
        } else if c == '\\' {
            if p + 1 >= n {
                proof {
                    assert forall|t: Seq<char>| !starts_with(y, jstr(t)) by {
                        if starts_with(y, jstr(t)) {
                            assert(jstr(t) =~= seq!['"'] + (esc(t) + seq!['"']));
                            lemma_starts_with_concat(y, seq!['"'], esc(t) + seq!['"']);
                            lemma_skip_skip(cs@, i as int, 1);
                            assert(y.skip(1) == y1);
                            assert(esc(t) + seq!['"'] =~= esc(t).push('"'));
                            lemma_esc_align(out@, t, y1);
                            if out@ == t {
                                assert(y1[p - i - 1] == '"');
                                assert(y1[p - i - 1] == cs@[p as int]);
                                assert(false);
                            } else {
                                let e = esc_char(t[out@.len() as int]);
                                let w = y1.skip(p - i - 1);
                                assert(w.subrange(0, e.len() as int)[0] == e[0]);
                                assert(w[0] == cs@[p as int]);
                                assert(e[0] == '\\');
                                assert(e.len() == 2);
                                assert(w.len() == n - p);
                                assert(false);
                            }
                        }
                    }
                }
                return Option::None;
            }
            let d = cs[p + 1];
            let unescaped: Option<char> = if d == '"' {
                Option::Some('"')
            } else if d == '\\' {
                Option::Some('\\')
            } else if d == 'n' {
                Option::Some('\n')
            } else if d == 't' {
                Option::Some('\t')
            } else if d == 'r' {
                Option::Some('\r')
            } else {
                Option::None
            };
            match unescaped {
                Option::Some(u) => {
                    let ghost prev = out@;
                    push_char(&mut out, u);
                    proof {
                        lemma_esc_snoc(prev, u);
                        assert(esc_char(u) =~= seq!['\\', d]);
                        assert(cs@.subrange(i + 1, p + 2) =~= esc(prev) + esc_char(u)) by {
                            assert forall|k: int|
                                0 <= k < p + 1 - i implies cs@.subrange(i + 1, p + 2)[k] == (esc(
                                prev,
                            ) + esc_char(u))[k] by {
                                if k < p - i - 1 {
                                    assert(cs@.subrange(i + 1, p as int)[k] == esc(prev)[k]);
                                }
                            }
                        }
                        assert(out@ == prev.push(u));
                    }
                    p = p + 2;
                },
                Option::None => {
                    proof {
                        assert forall|t: Seq<char>| !starts_with(y, jstr(t)) by {
                            if starts_with(y, jstr(t)) {
                                assert(jstr(t) =~= seq!['"'] + (esc(t) + seq!['"']));
                                lemma_starts_with_concat(y, seq!['"'], esc(t) + seq!['"']);
                                lemma_skip_skip(cs@, i as int, 1);
                            assert(y.skip(1) == y1);
                                assert(esc(t) + seq!['"'] =~= esc(t).push('"'));
                                lemma_esc_align(out@, t, y1);
                                if out@ == t {
                                    assert(y1[p - i - 1] == '"');
                                    assert(y1[p - i - 1] == cs@[p as int]);
                                    assert(false);
                                } else {
                                    let tc = t[out@.len() as int];
                                    let e = esc_char(tc);
                                    let w = y1.skip(p - i - 1);
                                    assert(w.subrange(0, e.len() as int)[0] == e[0]);
                                    assert(w[0] == cs@[p as int]);
                                    assert(e[0] == '\\');
                                    assert(e.len() == 2);
                                    assert(w.subrange(0, e.len() as int)[1] == e[1]);
                                    assert(w[1] == cs@[p + 1]);
                                    assert(false);
                                }
                            }
                        }
                    }
                    return Option::None;
                },
            }
        } else if c == '\n' || c == '\t' || c == '\r' {
            proof {
                assert forall|t: Seq<char>| !starts_with(y, jstr(t)) by {
                    if starts_with(y, jstr(t)) {
                        assert(jstr(t) =~= seq!['"'] + (esc(t) + seq!['"']));
                        lemma_starts_with_concat(y, seq!['"'], esc(t) + seq!['"']);
                        lemma_skip_skip(cs@, i as int, 1);
                        assert(y.skip(1) == y1);
                        assert(esc(t) + seq!['"'] =~= esc(t).push('"'));
                        lemma_esc_align(out@, t, y1);
                        if out@ == t {
                            assert(y1[p - i - 1] == '"');
                            assert(y1[p - i - 1] == cs@[p as int]);
                            assert(false);
                        } else {
                            let tc = t[out@.len() as int];
                            let e = esc_char(tc);
                            let w = y1.skip(p - i - 1);
                            assert(w.subrange(0, e.len() as int)[0] == e[0]);
                            assert(w[0] == cs@[p as int]);
                            assert(false);
                        }
                    }
                }
            }
            return Option::None;
        } else {
            let ghost prev = out@;
            push_char(&mut out, c);
            proof {
                lemma_esc_snoc(prev, c);
                assert(esc_char(c) =~= seq![c]);
                assert(cs@.subrange(i + 1, p + 1) =~= esc(prev) + esc_char(c)) by {
                    assert forall|k: int|
                        0 <= k < p - i implies cs@.subrange(i + 1, p + 1)[k] == (esc(prev)
                        + esc_char(c))[k] by {
                        if k < p - i - 1 {
                            assert(cs@.subrange(i + 1, p as int)[k] == esc(prev)[k]);
                        }
                    }
                }
                assert(out@ == prev.push(c));
            }
            p = p + 1;
        }
    }
}

/// Parses a boolean literal at position `i`.
fn parse_bool(cs: &Vec<char>, i: usize) -> (r: Option<(bool, usize)>)
    requires
        i <= cs@.len(),
    ensures
        match r {
            Option::Some(bj) => i + jbool(bj.0).len() == bj.1 && bj.1 <= cs@.len() && starts_with(
                cs@.skip(i as int),
                jbool(bj.0),
            ),
            Option::None => forall|b: bool| !starts_with(cs@.skip(i as int), jbool(b)),
        },
{
    match expect_lit(cs, i, "true") {
        Option::Some(j) => Option::Some((true, j)),
        Option::None => {
            match expect_lit(cs, i, "false") {
                Option::Some(j) => Option::Some((false, j)),
                Option::None => Option::None,
            }
        },
    }
}

} // verus!

verus! {

/// The head element and remaining shape of a non-empty array body.
proof fn lemma_jarr_rem_head(rem: Seq<Seq<char>>, w: Seq<char>)
    requires
        rem.len() > 0,
        starts_with(w, jarr_inner(rem).push(']')),
    ensures
        starts_with(w, jstr(rem[0])),
        rem.len() == 1 ==> starts_with(w.skip(jstr(rem[0]).len() as int), seq![']']),
        rem.len() > 1 ==> starts_with(
            w.skip(jstr(rem[0]).len() as int),
            seq![','] + jarr_inner(rem.skip(1)).push(']'),
        ),
{
    if rem.len() == 1 {
        assert(jarr_inner(rem).push(']') =~= jstr(rem[0]) + seq![']']);
        lemma_starts_with_concat(w, jstr(rem[0]), seq![']']);
    } else {
        assert(jarr_inner(rem).push(']') =~= jstr(rem[0]) + (seq![','] + jarr_inner(
            rem.skip(1),
        ).push(']')));
        lemma_starts_with_concat(w, jstr(rem[0]), seq![','] + jarr_inner(rem.skip(1)).push(']'));
    }
}

/// Parses an array of strings at position `i`.
#[verifier::rlimit(100)]
fn parse_jarr(cs: &Vec<char>, i: usize) -> (r: Option<(Vec<String>, usize)>)
    requires
        i <= cs@.len(),
    ensures
        match r {
            Option::Some(vj) => i + jarr(vj.0.deep_view()).len() == vj.1 && vj.1 <= cs@.len()
                && starts_with(cs@.skip(i as int), jarr(vj.0.deep_view())),
            Option::None => forall|vs: Seq<Seq<char>>| !starts_with(cs@.skip(i as int), jarr(vs)),
        },
{
    let n = cs.len();
    let ghost y = cs@.skip(i as int);
    if i >= n || cs[i] != '[' {
        proof {
            assert forall|vs: Seq<Seq<char>>| !starts_with(y, jarr(vs)) by {
                if starts_with(y, jarr(vs)) {
                    assert(jarr(vs) =~= seq!['['] + jarr_inner(vs).push(']'));
                    assert(y.subrange(0, jarr(vs).len() as int)[0] == jarr(vs)[0]);
                    assert(y[0] == cs@[i as int]);
                    assert(false);
                }
            }
        }
        return Option::None;
    }
    let ghost y1 = cs@.skip(i + 1);
    if i + 1 >= n {
        proof {
            assert forall|vs: Seq<Seq<char>>| !starts_with(y, jarr(vs)) by {
                if starts_with(y, jarr(vs)) {
                    assert(jarr(vs).len() >= 2);
                    assert(y.len() == n - i);
                    assert(false);
                }
            }
        }
        return Option::None;
    }
    if cs[i + 1] == ']' {
        let empty_vec: Vec<String> = Vec::new();
        proof {
            assert(empty_vec.deep_view() =~= Seq::<Seq<char>>::empty());
            let e = Seq::<Seq<char>>::empty();
            assert(jarr_inner(e) == Seq::<char>::empty());
            assert(jarr(e) =~= seq!['[', ']']);
            assert(y.subrange(0, 2) =~= seq!['[', ']']) by {
                assert(y[0] == cs@[i as int]);
                assert(y[1] == cs@[i + 1]);
            }
            assert(starts_with(y, jarr(e)));
            assert(jarr(e).len() == 2);
        }
        return Option::Some((empty_vec, i + 2));
    }
    let mut acc: Vec<String> = Vec::new();
    let mut p: usize = i + 1;
    proof {
        assert(acc.deep_view() =~= Seq::<Seq<char>>::empty());
        assert forall|vs: Seq<Seq<char>>| #[trigger] starts_with(
            y1,
            jarr_inner(vs).push(']'),
        ) implies vs.len() > acc.deep_view().len() && vs.subrange(
            0,
            acc.deep_view().len() as int,
        ) == acc.deep_view() && starts_with(
            cs@.skip(i + 1),
            jarr_inner(vs.skip(acc.deep_view().len() as int)).push(']'),
        ) by {
            if vs.len() == 0 {
                assert(jarr_inner(vs).push(']') =~= seq![']']);
                assert(y1.subrange(0, 1)[0] == ']');
                assert(y1[0] == cs@[i + 1]);
                assert(false);
            } else {
                assert(vs.subrange(0, 0) =~= acc.deep_view());
                assert(vs.skip(0) =~= vs);
            }
        }
    }
    loop
        invariant
            n == cs@.len(),
            i < n,
            i + 1 <= p <= n,
            cs@[i as int] == '[',
            cs@[i + 1] != ']',
            y == cs@.skip(i as int),
            y1 == cs@.skip(i + 1),
            acc.deep_view().len() == 0 ==> p == i + 1,
            acc.deep_view().len() > 0 ==> p - i >= 2 && cs@.subrange(i + 1, p as int)
                == jarr_inner(acc.deep_view()) + seq![','],
            forall|vs: Seq<Seq<char>>| #[trigger] starts_with(y1, jarr_inner(vs).push(']'))
                ==> vs.len() > acc.deep_view().len() && vs.subrange(
                0,
                acc.deep_view().len() as int,
            ) == acc.deep_view() && starts_with(
                cs@.skip(p as int),
                jarr_inner(vs.skip(acc.deep_view().len() as int)).push(']'),
            ),
        decreases n - p,
    {
        let ghost accdv = acc.deep_view();
        match parse_jstr(cs, p) {
            Option::None => {
                proof {
                    assert forall|vs: Seq<Seq<char>>| !starts_with(y, jarr(vs)) by {
                        if starts_with(y, jarr(vs)) {
                            assert(jarr(vs) =~= seq!['['] + jarr_inner(vs).push(']'));
                            lemma_starts_with_concat(y, seq!['['], jarr_inner(vs).push(']'));
                            lemma_skip_skip(cs@, i as int, 1);
                            let rem = vs.skip(accdv.len() as int);
                            lemma_jarr_rem_head(rem, cs@.skip(p as int));
                            assert(false);
                        }
                    }
                }
                return Option::None;
            },
            Option::Some(sp) => {
                let (s, p1) = sp;
                // alignment of the parsed element with any canonical array
                proof {
                    assert forall|vs: Seq<Seq<char>>| #[trigger] starts_with(
                        y1,
                        jarr_inner(vs).push(']'),
                    ) implies vs[accdv.len() as int] == s@ by {
                        let rem = vs.skip(accdv.len() as int);
                        lemma_jarr_rem_head(rem, cs@.skip(p as int));
                        lemma_jstr_align(s@, rem[0], cs@.skip(p as int));
                    }
                }
                if p1 >= n {
                    proof {
                        assert forall|vs: Seq<Seq<char>>| !starts_with(y, jarr(vs)) by {
                            if starts_with(y, jarr(vs)) {
                                assert(jarr(vs) =~= seq!['['] + jarr_inner(vs).push(']'));
                                lemma_starts_with_concat(y, seq!['['], jarr_inner(vs).push(']'));
                                lemma_skip_skip(cs@, i as int, 1);
                                let rem = vs.skip(accdv.len() as int);
                                let w = cs@.skip(p as int);
                                lemma_jarr_rem_head(rem, w);
                                lemma_jstr_align(s@, rem[0], w);
                                assert(w.skip(jstr(rem[0]).len() as int).len() >= 1);
                                assert(w.len() == n - p);
                                assert(jstr(rem[0]).len() == p1 - p);
                                assert(false);
                            }
                        }
                    }
                    return Option::None;
                }
                let c2 = cs[p1];
                if c2 == ']' || c2 == ',' {
                    let ghost prevdv = acc.deep_view();
                    let ghost sv = s@;
                    acc.push(s);
                    proof {
                        let dv = acc.deep_view();
                        assert(dv.len() == prevdv.len() + 1);
                        assert forall|k: int| 0 <= k < dv.len() implies dv[k] == prevdv.push(
                            sv,
                        )[k] by {
                            if k < prevdv.len() {
                                assert(dv[k] == prevdv[k]);
                            } else {
                                assert(acc@[k] == acc@[acc@.len() - 1]);
                            }
                        }
                        assert(dv =~= prevdv.push(sv));
                        lemma_jarr_inner_snoc(prevdv, sv);
                        // the text consumed so far spells the grown body
                        assert(cs@.subrange(i + 1, p1 as int) =~= jarr_inner(dv)) by {
                            assert(starts_with(cs@.skip(p as int), jstr(sv)));
                            assert forall|k: int| 0 <= k < p1 - i - 1 implies cs@.subrange(
                                i + 1,
                                p1 as int,
                            )[k] == jarr_inner(dv)[k] by {
                                if prevdv.len() == 0 {
                                    assert(jarr_inner(dv) == jstr(sv));
                                    assert(cs@.skip(p as int).subrange(
                                        0,
                                        jstr(sv).len() as int,
                                    )[k] == jstr(sv)[k]);
                                } else {
                                    assert(jarr_inner(dv) == jarr_inner(prevdv) + seq![',']
                                        + jstr(sv));
                                    if k < p - i - 1 {
                                        assert(cs@.subrange(i + 1, p as int)[k] == (jarr_inner(
                                            prevdv,
                                        ) + seq![','])[k]);
                                    } else {
                                        assert(cs@.skip(p as int).subrange(
                                            0,
                                            jstr(sv).len() as int,
                                        )[k - (p - i - 1)] == jstr(sv)[k - (p - i - 1)]);
                                    }
                                }
                            }
                        }
                    }
                    if c2 == ']' {
                        proof {
                            let dv = acc.deep_view();
                            assert(cs@.subrange(i as int, p1 + 1) =~= jarr(dv)) by {
                                assert forall|k: int| 0 <= k < p1 + 1 - i implies cs@.subrange(
                                    i as int,
                                    p1 + 1,
                                )[k] == jarr(dv)[k] by {
                                    if k == 0 {
                                    } else if k < p1 - i {
                                        assert(cs@.subrange(i + 1, p1 as int)[k - 1]
                                            == jarr_inner(dv)[k - 1]);
                                    } else {
                                        assert(cs@[p1 as int] == ']');
                                    }
                                }
                            }
                            assert(starts_with(y, jarr(dv))) by {
                                assert(y.subrange(0, jarr(dv).len() as int) =~= cs@.subrange(
                                    i as int,
                                    p1 + 1,
                                ));
                            }
                            assert(jarr(dv).len() == p1 + 1 - i);
                        }
                        return Option::Some((acc, p1 + 1));
                    }
                    // c2 == ',': continue with the next element
                    proof {
                        let dv = acc.deep_view();
                        assert(cs@.subrange(i + 1, p1 + 1) =~= jarr_inner(dv) + seq![',']) by {
                            assert forall|k: int| 0 <= k < p1 + 1 - i - 1 implies cs@.subrange(
                                i + 1,
                                p1 + 1,
                            )[k] == (jarr_inner(dv) + seq![','])[k] by {
                                if k < p1 - i - 1 {
                                    assert(cs@.subrange(i + 1, p1 as int)[k] == jarr_inner(
                                        dv,
                                    )[k]);
                                } else {
                                    assert(cs@[p1 as int] == ',');
                                }
                            }
                        }
                        assert forall|vs: Seq<Seq<char>>| #[trigger] starts_with(
                            y1,
                            jarr_inner(vs).push(']'),
                        ) implies vs.len() > dv.len() && vs.subrange(0, dv.len() as int) == dv
                            && starts_with(
                            cs@.skip(p1 + 1),
                            jarr_inner(vs.skip(dv.len() as int)).push(']'),
                        ) by {
                            let rem = vs.skip(prevdv.len() as int);
                            let w = cs@.skip(p as int);
                            lemma_jarr_rem_head(rem, w);
                            lemma_jstr_align(sv, rem[0], w);
                            if rem.len() == 1 {
                                assert(w.skip(jstr(rem[0]).len() as int).subrange(0, 1)[0]
                                    == ']');
                                lemma_skip_skip(cs@, p as int, jstr(rem[0]).len() as int);
                                assert(cs@.skip(p1 as int)[0] == cs@[p1 as int]);
                                assert(false);
                            }
                            assert(rem.len() > 1);
                            assert(vs.len() > dv.len());
                            assert(vs.subrange(0, dv.len() as int) =~= dv) by {
                                assert forall|k: int| 0 <= k < dv.len() implies vs.subrange(
                                    0,
                                    dv.len() as int,
                                )[k] == dv[k] by {
                                    if k < prevdv.len() {
                                        assert(vs.subrange(0, prevdv.len() as int)[k]
                                            == prevdv[k]);
                                    } else {
                                        assert(vs[k] == vs.skip(prevdv.len() as int)[0]);
                                    }
                                }
                            }
                            lemma_skip_skip(cs@, p as int, jstr(rem[0]).len() as int);
                            lemma_starts_with_concat(
                                cs@.skip(p1 as int),
                                seq![','],
                                jarr_inner(rem.skip(1)).push(']'),
                            );
                            lemma_skip_skip(cs@, p1 as int, 1);
                            assert(vs.skip(dv.len() as int) =~= rem.skip(1));
                        }
                    }
                    p = p1 + 1;
                } else {
                    proof {
                        assert forall|vs: Seq<Seq<char>>| !starts_with(y, jarr(vs)) by {
                            if starts_with(y, jarr(vs)) {
                                assert(jarr(vs) =~= seq!['['] + jarr_inner(vs).push(']'));
                                lemma_starts_with_concat(y, seq!['['], jarr_inner(vs).push(']'));
                                lemma_skip_skip(cs@, i as int, 1);
                                let rem = vs.skip(accdv.len() as int);
                                let w = cs@.skip(p as int);
                                lemma_jarr_rem_head(rem, w);
                                lemma_jstr_align(s@, rem[0], w);
                                lemma_skip_skip(cs@, p as int, jstr(rem[0]).len() as int);
                                if rem.len() == 1 {
                                    assert(cs@.skip(p1 as int).subrange(0, 1)[0] == ']');
                                    assert(false);
                                } else {
                                    assert(cs@.skip(p1 as int).subrange(
                                        0,
                                        (seq![','] + jarr_inner(rem.skip(1)).push(
                                            ']',
                                        )).len() as int,
                                    )[0] == ',');
                                    assert(false);
                                }
                            }
                        }
                    }
                    return Option::None;
                }
            },
        }
    }
}

} // verus!

verus! {

// Staged walks down an item's canonical form. Each stage builds on the
// one before it: it aligns one more component of any canonical item at
// this position with the value the parsers actually read, and places the
// component that follows.
proof fn lemma_item_walk1(cs: Seq<char>, i: int, p1: int, h: HupaView)
    requires
        0 <= i <= cs.len(),
        starts_with(cs.skip(i), jitem(h)),
        p1 == i + "{\"name\":"@.len(),
    ensures
        starts_with(cs.skip(p1), jstr(h.name)),
{
    lemma_jitem_parts(h, cs.skip(i));
    lemma_skip_skip(cs, i, p1 - i);
}

proof fn lemma_item_walk2(cs: Seq<char>, i: int, p1: int, namev: Seq<char>, p2: int, h: HupaView)
    requires
        0 <= i <= cs.len(),
        starts_with(cs.skip(i), jitem(h)),
        p1 == i + "{\"name\":"@.len(),
        starts_with(cs.skip(p1), jstr(namev)),
        p2 == p1 + jstr(namev).len(),
    ensures
        h.name == namev,
        starts_with(cs.skip(p2), ",\"desc\":"@),
{
    lemma_item_walk1(cs, i, p1, h);
    lemma_jstr_align(namev, h.name, cs.skip(p1));
    lemma_jitem_parts(h, cs.skip(i));
    lemma_skip_skip(cs, i, p1 - i);
    lemma_skip_skip(cs, p1, p2 - p1);
}

proof fn lemma_item_walk3(cs: Seq<char>, i: int, p1: int, namev: Seq<char>, p2: int, p3: int, h: HupaView)
    requires
        0 <= i <= cs.len(),
        starts_with(cs.skip(i), jitem(h)),
        p1 == i + "{\"name\":"@.len(),
        starts_with(cs.skip(p1), jstr(namev)),
        p2 == p1 + jstr(namev).len(),
        p3 == p2 + ",\"desc\":"@.len(),
    ensures
        h.name == namev,
        starts_with(cs.skip(p3), jstr(h.desc)),
{
    lemma_item_walk2(cs, i, p1, namev, p2, h);
    lemma_jitem_parts(h, cs.skip(i));
    lemma_skip_skip(cs, i, p1 - i);
    lemma_skip_skip(cs, p1, p2 - p1);
    lemma_skip_skip(cs, p2, p3 - p2);
}

proof fn lemma_item_walk4(cs: Seq<char>, i: int, p1: int, namev: Seq<char>, p2: int, p3: int, descv: Seq<char>, p4: int, h: HupaView)
    requires
        0 <= i <= cs.len(),
        starts_with(cs.skip(i), jitem(h)),
        p1 == i + "{\"name\":"@.len(),
        starts_with(cs.skip(p1), jstr(namev)),
        p2 == p1 + jstr(namev).len(),
        p3 == p2 + ",\"desc\":"@.len(),
        starts_with(cs.skip(p3), jstr(descv)),
        p4 == p3 + jstr(descv).len(),
    ensures
        h.name == namev,
        h.desc == descv,
        starts_with(cs.skip(p4), ",\"category\":"@),
{
    lemma_item_walk3(cs, i, p1, namev, p2, p3, h);
    lemma_jstr_align(descv, h.desc, cs.skip(p3));
    lemma_jitem_parts(h, cs.skip(i));
    lemma_skip_skip(cs, i, p1 - i);
    lemma_skip_skip(cs, p1, p2 - p1);
    lemma_skip_skip(cs, p2, p3 - p2);
    lemma_skip_skip(cs, p3, p4 - p3);
}

proof fn lemma_item_walk5(cs: Seq<char>, i: int, p1: int, namev: Seq<char>, p2: int, p3: int, descv: Seq<char>, p4: int, p5: int, h: HupaView)
    requires
        0 <= i <= cs.len(),
        starts_with(cs.skip(i), jitem(h)),
        p1 == i + "{\"name\":"@.len(),
        starts_with(cs.skip(p1), jstr(namev)),
        p2 == p1 + jstr(namev).len(),
        p3 == p2 + ",\"desc\":"@.len(),
        starts_with(cs.skip(p3), jstr(descv)),
        p4 == p3 + jstr(descv).len(),
        p5 == p4 + ",\"category\":"@.len(),
    ensures
        h.name == namev,
        h.desc == descv,
        starts_with(cs.skip(p5), jarr(h.categories)),
{
    lemma_item_walk4(cs, i, p1, namev, p2, p3, descv, p4, h);
    lemma_jitem_parts(h, cs.skip(i));
    lemma_skip_skip(cs, i, p1 - i);
    lemma_skip_skip(cs, p1, p2 - p1);
    lemma_skip_skip(cs, p2, p3 - p2);
    lemma_skip_skip(cs, p3, p4 - p3);
    lemma_skip_skip(cs, p4, p5 - p4);
}

proof fn lemma_item_walk6(cs: Seq<char>, i: int, p1: int, namev: Seq<char>, p2: int, p3: int, descv: Seq<char>, p4: int, p5: int, catsv: Seq<Seq<char>>, p6: int, h: HupaView)
    requires
        0 <= i <= cs.len(),
        starts_with(cs.skip(i), jitem(h)),
        p1 == i + "{\"name\":"@.len(),
        starts_with(cs.skip(p1), jstr(namev)),
        p2 == p1 + jstr(namev).len(),
        p3 == p2 + ",\"desc\":"@.len(),
        starts_with(cs.skip(p3), jstr(descv)),
        p4 == p3 + jstr(descv).len(),
        p5 == p4 + ",\"category\":"@.len(),
        starts_with(cs.skip(p5), jarr(catsv)),
        p6 == p5 + jarr(catsv).len(),
    ensures
        h.name == namev,
        h.desc == descv,
        h.categories == catsv,
        starts_with(cs.skip(p6), ",\"backup_parent\":"@),
{
    lemma_item_walk5(cs, i, p1, namev, p2, p3, descv, p4, p5, h);
    lemma_jarr_align(catsv, h.categories, cs.skip(p5));
    lemma_jitem_parts(h, cs.skip(i));
    lemma_skip_skip(cs, i, p1 - i);
    lemma_skip_skip(cs, p1, p2 - p1);
    lemma_skip_skip(cs, p2, p3 - p2);
    lemma_skip_skip(cs, p3, p4 - p3);
    lemma_skip_skip(cs, p4, p5 - p4);
    lemma_skip_skip(cs, p5, p6 - p5);
}

proof fn lemma_item_walk7(cs: Seq<char>, i: int, p1: int, namev: Seq<char>, p2: int, p3: int, descv: Seq<char>, p4: int, p5: int, catsv: Seq<Seq<char>>, p6: int, p7: int, h: HupaView)
    requires
        0 <= i <= cs.len(),
        starts_with(cs.skip(i), jitem(h)),
        p1 == i + "{\"name\":"@.len(),
        starts_with(cs.skip(p1), jstr(namev)),
        p2 == p1 + jstr(namev).len(),
        p3 == p2 + ",\"desc\":"@.len(),
        starts_with(cs.skip(p3), jstr(descv)),
        p4 == p3 + jstr(descv).len(),
        p5 == p4 + ",\"category\":"@.len(),
        starts_with(cs.skip(p5), jarr(catsv)),
        p6 == p5 + jarr(catsv).len(),
        p7 == p6 + ",\"backup_parent\":"@.len(),
    ensures
        h.name == namev,
        h.desc == descv,
        h.categories == catsv,
        starts_with(cs.skip(p7), jstr(h.backup_parent)),
{
    lemma_item_walk6(cs, i, p1, namev, p2, p3, descv, p4, p5, catsv, p6, h);
    lemma_jitem_parts(h, cs.skip(i));
    lemma_skip_skip(cs, i, p1 - i);
    lemma_skip_skip(cs, p1, p2 - p1);
    lemma_skip_skip(cs, p2, p3 - p2);
    lemma_skip_skip(cs, p3, p4 - p3);
    lemma_skip_skip(cs, p4, p5 - p4);
    lemma_skip_skip(cs, p5, p6 - p5);
    lemma_skip_skip(cs, p6, p7 - p6);
}

proof fn lemma_item_walk8(cs: Seq<char>, i: int, p1: int, namev: Seq<char>, p2: int, p3: int, descv: Seq<char>, p4: int, p5: int, catsv: Seq<Seq<char>>, p6: int, p7: int, bpv: Seq<char>, p8: int, h: HupaView)
    requires
        0 <= i <= cs.len(),
        starts_with(cs.skip(i), jitem(h)),
        p1 == i + "{\"name\":"@.len(),
        starts_with(cs.skip(p1), jstr(namev)),
        p2 == p1 + jstr(namev).len(),
        p3 == p2 + ",\"desc\":"@.len(),
        starts_with(cs.skip(p3), jstr(descv)),
        p4 == p3 + jstr(descv).len(),
        p5 == p4 + ",\"category\":"@.len(),
        starts_with(cs.skip(p5), jarr(catsv)),
        p6 == p5 + jarr(catsv).len(),
        p7 == p6 + ",\"backup_parent\":"@.len(),
        starts_with(cs.skip(p7), jstr(bpv)),
        p8 == p7 + jstr(bpv).len(),
    ensures
        h.name == namev,
        h.desc == descv,
        h.categories == catsv,
        h.backup_parent == bpv,
        starts_with(cs.skip(p8), ",\"origin\":"@),
{
    lemma_item_walk7(cs, i, p1, namev, p2, p3, descv, p4, p5, catsv, p6, p7, h);
    lemma_jstr_align(bpv, h.backup_parent, cs.skip(p7));
    lemma_jitem_parts(h, cs.skip(i));
    lemma_skip_skip(cs, i, p1 - i);
    lemma_skip_skip(cs, p1, p2 - p1);
    lemma_skip_skip(cs, p2, p3 - p2);
    lemma_skip_skip(cs, p3, p4 - p3);
    lemma_skip_skip(cs, p4, p5 - p4);
    lemma_skip_skip(cs, p5, p6 - p5);
    lemma_skip_skip(cs, p6, p7 - p6);
    lemma_skip_skip(cs, p7, p8 - p7);
}

proof fn lemma_item_walk9(cs: Seq<char>, i: int, p1: int, namev: Seq<char>, p2: int, p3: int, descv: Seq<char>, p4: int, p5: int, catsv: Seq<Seq<char>>, p6: int, p7: int, bpv: Seq<char>, p8: int, p9: int, h: HupaView)
    requires
        0 <= i <= cs.len(),
        starts_with(cs.skip(i), jitem(h)),
        p1 == i + "{\"name\":"@.len(),
        starts_with(cs.skip(p1), jstr(namev)),
        p2 == p1 + jstr(namev).len(),
        p3 == p2 + ",\"desc\":"@.len(),
        starts_with(cs.skip(p3), jstr(descv)),
        p4 == p3 + jstr(descv).len(),
        p5 == p4 + ",\"category\":"@.len(),
        starts_with(cs.skip(p5), jarr(catsv)),
        p6 == p5 + jarr(catsv).len(),
        p7 == p6 + ",\"backup_parent\":"@.len(),
        starts_with(cs.skip(p7), jstr(bpv)),
        p8 == p7 + jstr(bpv).len(),
        p9 == p8 + ",\"origin\":"@.len(),
    ensures
        h.name == namev,
        h.desc == descv,
        h.categories == catsv,
        h.backup_parent == bpv,
        starts_with(cs.skip(p9), jstr(h.origin)),
{
    lemma_item_walk8(cs, i, p1, namev, p2, p3, descv, p4, p5, catsv, p6, p7, bpv, p8, h);
    lemma_jitem_parts(h, cs.skip(i));
    lemma_skip_skip(cs, i, p1 - i);
    lemma_skip_skip(cs, p1, p2 - p1);
    lemma_skip_skip(cs, p2, p3 - p2);
    lemma_skip_skip(cs, p3, p4 - p3);
    lemma_skip_skip(cs, p4, p5 - p4);
    lemma_skip_skip(cs, p5, p6 - p5);
    lemma_skip_skip(cs, p6, p7 - p6);
    lemma_skip_skip(cs, p7, p8 - p7);
    lemma_skip_skip(cs, p8, p9 - p8);
}

proof fn lemma_item_walk10(cs: Seq<char>, i: int, p1: int, namev: Seq<char>, p2: int, p3: int, descv: Seq<char>, p4: int, p5: int, catsv: Seq<Seq<char>>, p6: int, p7: int, bpv: Seq<char>, p8: int, p9: int, orv: Seq<char>, p10: int, h: HupaView)
    requires
        0 <= i <= cs.len(),
        starts_with(cs.skip(i), jitem(h)),
        p1 == i + "{\"name\":"@.len(),
        starts_with(cs.skip(p1), jstr(namev)),
        p2 == p1 + jstr(namev).len(),
        p3 == p2 + ",\"desc\":"@.len(),
        starts_with(cs.skip(p3), jstr(descv)),
        p4 == p3 + jstr(descv).len(),
        p5 == p4 + ",\"category\":"@.len(),
        starts_with(cs.skip(p5), jarr(catsv)),
        p6 == p5 + jarr(catsv).len(),
        p7 == p6 + ",\"backup_parent\":"@.len(),
        starts_with(cs.skip(p7), jstr(bpv)),
        p8 == p7 + jstr(bpv).len(),
        p9 == p8 + ",\"origin\":"@.len(),
        starts_with(cs.skip(p9), jstr(orv)),
        p10 == p9 + jstr(orv).len(),
    ensures
        h.name == namev,
        h.desc == descv,
        h.categories == catsv,
        h.backup_parent == bpv,
        h.origin == orv,
        starts_with(cs.skip(p10), ",\"autobackup\":"@),
{
    lemma_item_walk9(cs, i, p1, namev, p2, p3, descv, p4, p5, catsv, p6, p7, bpv, p8, p9, h);
    lemma_jstr_align(orv, h.origin, cs.skip(p9));
    lemma_jitem_parts(h, cs.skip(i));
    lemma_skip_skip(cs, i, p1 - i);
    lemma_skip_skip(cs, p1, p2 - p1);
    lemma_skip_skip(cs, p2, p3 - p2);
    lemma_skip_skip(cs, p3, p4 - p3);
    lemma_skip_skip(cs, p4, p5 - p4);
    lemma_skip_skip(cs, p5, p6 - p5);
    lemma_skip_skip(cs, p6, p7 - p6);
    lemma_skip_skip(cs, p7, p8 - p7);
    lemma_skip_skip(cs, p8, p9 - p8);
    lemma_skip_skip(cs, p9, p10 - p9);
}

proof fn lemma_item_walk11(cs: Seq<char>, i: int, p1: int, namev: Seq<char>, p2: int, p3: int, descv: Seq<char>, p4: int, p5: int, catsv: Seq<Seq<char>>, p6: int, p7: int, bpv: Seq<char>, p8: int, p9: int, orv: Seq<char>, p10: int, p11: int, h: HupaView)
    requires
        0 <= i <= cs.len(),
        starts_with(cs.skip(i), jitem(h)),
        p1 == i + "{\"name\":"@.len(),
        starts_with(cs.skip(p1), jstr(namev)),
        p2 == p1 + jstr(namev).len(),
        p3 == p2 + ",\"desc\":"@.len(),
        starts_with(cs.skip(p3), jstr(descv)),
        p4 == p3 + jstr(descv).len(),
        p5 == p4 + ",\"category\":"@.len(),
        starts_with(cs.skip(p5), jarr(catsv)),
        p6 == p5 + jarr(catsv).len(),
        p7 == p6 + ",\"backup_parent\":"@.len(),
        starts_with(cs.skip(p7), jstr(bpv)),
        p8 == p7 + jstr(bpv).len(),
        p9 == p8 + ",\"origin\":"@.len(),
        starts_with(cs.skip(p9), jstr(orv)),
        p10 == p9 + jstr(orv).len(),
        p11 == p10 + ",\"autobackup\":"@.len(),
    ensures
        h.name == namev,
        h.desc == descv,
        h.categories == catsv,
        h.backup_parent == bpv,
        h.origin == orv,
        starts_with(cs.skip(p11), jbool(h.autobackup)),
{
    lemma_item_walk10(cs, i, p1, namev, p2, p3, descv, p4, p5, catsv, p6, p7, bpv, p8, p9, orv, p10, h);
    lemma_jitem_parts(h, cs.skip(i));
    lemma_skip_skip(cs, i, p1 - i);
    lemma_skip_skip(cs, p1, p2 - p1);
    lemma_skip_skip(cs, p2, p3 - p2);
    lemma_skip_skip(cs, p3, p4 - p3);
    lemma_skip_skip(cs, p4, p5 - p4);
    lemma_skip_skip(cs, p5, p6 - p5);
    lemma_skip_skip(cs, p6, p7 - p6);
    lemma_skip_skip(cs, p7, p8 - p7);
    lemma_skip_skip(cs, p8, p9 - p8);
    lemma_skip_skip(cs, p9, p10 - p9);
    lemma_skip_skip(cs, p10, p11 - p10);
}

proof fn lemma_item_walk12(cs: Seq<char>, i: int, p1: int, namev: Seq<char>, p2: int, p3: int, descv: Seq<char>, p4: int, p5: int, catsv: Seq<Seq<char>>, p6: int, p7: int, bpv: Seq<char>, p8: int, p9: int, orv: Seq<char>, p10: int, p11: int, ab: bool, p12: int, h: HupaView)
    requires
        0 <= i <= cs.len(),
        starts_with(cs.skip(i), jitem(h)),
        p1 == i + "{\"name\":"@.len(),
        starts_with(cs.skip(p1), jstr(namev)),
        p2 == p1 + jstr(namev).len(),
        p3 == p2 + ",\"desc\":"@.len(),
        starts_with(cs.skip(p3), jstr(descv)),
        p4 == p3 + jstr(descv).len(),
        p5 == p4 + ",\"category\":"@.len(),
        starts_with(cs.skip(p5), jarr(catsv)),
        p6 == p5 + jarr(catsv).len(),
        p7 == p6 + ",\"backup_parent\":"@.len(),
        starts_with(cs.skip(p7), jstr(bpv)),
        p8 == p7 + jstr(bpv).len(),
        p9 == p8 + ",\"origin\":"@.len(),
        starts_with(cs.skip(p9), jstr(orv)),
        p10 == p9 + jstr(orv).len(),
        p11 == p10 + ",\"autobackup\":"@.len(),
        starts_with(cs.skip(p11), jbool(ab)),
        p12 == p11 + jbool(ab).len(),
    ensures
        h.name == namev,
        h.desc == descv,
        h.categories == catsv,
        h.backup_parent == bpv,
        h.origin == orv,
        h.autobackup == ab,
        starts_with(cs.skip(p12), jvars(h.needed_vars)),
{
    lemma_item_walk11(cs, i, p1, namev, p2, p3, descv, p4, p5, catsv, p6, p7, bpv, p8, p9, orv, p10, p11, h);
    lemma_jbool_align(ab, h.autobackup, cs.skip(p11));
    lemma_jitem_parts(h, cs.skip(i));
    lemma_skip_skip(cs, i, p1 - i);
    lemma_skip_skip(cs, p1, p2 - p1);
    lemma_skip_skip(cs, p2, p3 - p2);
    lemma_skip_skip(cs, p3, p4 - p3);
    lemma_skip_skip(cs, p4, p5 - p4);
    lemma_skip_skip(cs, p5, p6 - p5);
    lemma_skip_skip(cs, p6, p7 - p6);
    lemma_skip_skip(cs, p7, p8 - p7);
    lemma_skip_skip(cs, p8, p9 - p8);
    lemma_skip_skip(cs, p9, p10 - p9);
    lemma_skip_skip(cs, p10, p11 - p10);
    lemma_skip_skip(cs, p11, p12 - p11);
}

} // verus!

verus! {

/// The part of an item's canonical form before the object tail.
spec fn jitem_head(
    name: Seq<char>,
    desc: Seq<char>,
    cats: Seq<Seq<char>>,
    bp: Seq<char>,
    orv: Seq<char>,
    ab: bool,
) -> Seq<char> {
    "{\"name\":"@ + jstr(name) + ",\"desc\":"@ + jstr(desc) + ",\"category\":"@ + jarr(cats)
        + ",\"backup_parent\":"@ + jstr(bp) + ",\"origin\":"@ + jstr(orv) + ",\"autobackup\":"@
        + jbool(ab)
}

/// An item's form is its head followed by its tail.
proof fn lemma_jitem_split(h: HupaView)
    ensures
        jitem(h) == jitem_head(
            h.name,
            h.desc,
            h.categories,
            h.backup_parent,
            h.origin,
            h.autobackup,
        ) + jvars(h.needed_vars),
{
    assert(jitem(h) =~= jitem_head(
        h.name,
        h.desc,
        h.categories,
        h.backup_parent,
        h.origin,
        h.autobackup,
    ) + jvars(h.needed_vars));
}

/// The head's canonical form, re-associated to the right.
#[verifier::rlimit(100)]
proof fn lemma_head_assoc(
    namev: Seq<char>,
    descv: Seq<char>,
    catsv: Seq<Seq<char>>,
    bpv: Seq<char>,
    orv: Seq<char>,
    ab: bool,
)
    ensures
        jitem_head(namev, descv, catsv, bpv, orv, ab) == "{\"name\":"@ + (jstr(namev) + (
        ",\"desc\":"@ + (jstr(descv) + (",\"category\":"@ + (jarr(catsv) + (
        ",\"backup_parent\":"@ + (jstr(bpv) + (",\"origin\":"@ + (jstr(orv) + (
        ",\"autobackup\":"@ + jbool(ab))))))))))),
{
    assert(jitem_head(namev, descv, catsv, bpv, orv, ab) =~= "{\"name\":"@ + (jstr(namev) + (
        ",\"desc\":"@ + (jstr(descv) + (",\"category\":"@ + (jarr(catsv) + (
        ",\"backup_parent\":"@ + (jstr(bpv) + (",\"origin\":"@ + (jstr(orv) + (
        ",\"autobackup\":"@ + jbool(ab))))))))))));
}

/// Composes the parsed components back into the head's canonical form.
#[verifier::rlimit(100)]
proof fn lemma_head_assemble(
    cs: Seq<char>,
    i: int,
    p1: int,
    namev: Seq<char>,
    p2: int,
    p3: int,
    descv: Seq<char>,
    p4: int,
    p5: int,
    catsv: Seq<Seq<char>>,
    p6: int,
    p7: int,
    bpv: Seq<char>,
    p8: int,
    p9: int,
    orv: Seq<char>,
    p10: int,
    p11: int,
    ab: bool,
    p12: int,
)
    requires
        0 <= i <= cs.len(),
        starts_with(cs.skip(i), "{\"name\":"@),
        p1 == i + "{\"name\":"@.len(),
        starts_with(cs.skip(p1), jstr(namev)),
        p2 == p1 + jstr(namev).len(),
        starts_with(cs.skip(p2), ",\"desc\":"@),
        p3 == p2 + ",\"desc\":"@.len(),
        starts_with(cs.skip(p3), jstr(descv)),
        p4 == p3 + jstr(descv).len(),
        starts_with(cs.skip(p4), ",\"category\":"@),
        p5 == p4 + ",\"category\":"@.len(),
        starts_with(cs.skip(p5), jarr(catsv)),
        p6 == p5 + jarr(catsv).len(),
        starts_with(cs.skip(p6), ",\"backup_parent\":"@),
        p7 == p6 + ",\"backup_parent\":"@.len(),
        starts_with(cs.skip(p7), jstr(bpv)),
        p8 == p7 + jstr(bpv).len(),
        starts_with(cs.skip(p8), ",\"origin\":"@),
        p9 == p8 + ",\"origin\":"@.len(),
        starts_with(cs.skip(p9), jstr(orv)),
        p10 == p9 + jstr(orv).len(),
        starts_with(cs.skip(p10), ",\"autobackup\":"@),
        p11 == p10 + ",\"autobackup\":"@.len(),
        starts_with(cs.skip(p11), jbool(ab)),
        p12 == p11 + jbool(ab).len(),
        p12 <= cs.len(),
    ensures
        starts_with(cs.skip(i), jitem_head(namev, descv, catsv, bpv, orv, ab)),
        jitem_head(namev, descv, catsv, bpv, orv, ab).len() == p12 - i,
{
    let y = cs.skip(i);
    lemma_skip_skip(cs, i, p1 - i);
    lemma_skip_skip(cs, p1, p2 - p1);
    lemma_skip_skip(cs, p2, p3 - p2);
    lemma_skip_skip(cs, p3, p4 - p3);
    lemma_skip_skip(cs, p4, p5 - p4);
    lemma_skip_skip(cs, p5, p6 - p5);
    lemma_skip_skip(cs, p6, p7 - p6);
    lemma_skip_skip(cs, p7, p8 - p7);
    lemma_skip_skip(cs, p8, p9 - p8);
    lemma_skip_skip(cs, p9, p10 - p9);
    lemma_skip_skip(cs, p10, p11 - p10);
    let rest11 = jbool(ab);
    lemma_concat_starts_with(cs.skip(p10), ",\"autobackup\":"@, rest11);
    let rest10 = ",\"autobackup\":"@ + rest11;
    lemma_concat_starts_with(cs.skip(p9), jstr(orv), rest10);
    let rest9 = jstr(orv) + rest10;
    lemma_concat_starts_with(cs.skip(p8), ",\"origin\":"@, rest9);
    let rest8 = ",\"origin\":"@ + rest9;
    lemma_concat_starts_with(cs.skip(p7), jstr(bpv), rest8);
    let rest7 = jstr(bpv) + rest8;
    lemma_concat_starts_with(cs.skip(p6), ",\"backup_parent\":"@, rest7);
    let rest6 = ",\"backup_parent\":"@ + rest7;
    lemma_concat_starts_with(cs.skip(p5), jarr(catsv), rest6);
    let rest5 = jarr(catsv) + rest6;
    lemma_concat_starts_with(cs.skip(p4), ",\"category\":"@, rest5);
    let rest4 = ",\"category\":"@ + rest5;
    lemma_concat_starts_with(cs.skip(p3), jstr(descv), rest4);
    let rest3 = jstr(descv) + rest4;
    lemma_concat_starts_with(cs.skip(p2), ",\"desc\":"@, rest3);
    let rest2 = ",\"desc\":"@ + rest3;
    lemma_concat_starts_with(cs.skip(p1), jstr(namev), rest2);
    let rest1 = jstr(namev) + rest2;
    lemma_concat_starts_with(y, "{\"name\":"@, rest1);
    lemma_head_assoc(namev, descv, catsv, bpv, orv, ab);
}


/// Parses the fields of an item object, up to but not including the object
/// tail. On success the fields of any canonical item at `i` agree with the
/// parsed values and its tail stands at the returned position.
#[verifier::rlimit(100)]
#[verifier::spinoff_prover]
fn parse_item_head(cs: &Vec<char>, i: usize) -> (r: Option<
    (String, String, Vec<String>, String, String, bool, usize),
>)
    requires
        i <= cs@.len(),
    ensures
        match r {
            Option::Some(t) => {
                let head = jitem_head(t.0@, t.1@, t.2.deep_view(), t.3@, t.4@, t.5);
                &&& i + head.len() == t.6
                &&& t.6 <= cs@.len()
                &&& starts_with(cs@.skip(i as int), head)
                &&& forall|h: HupaView|
                    hupa_wf(h) && #[trigger] starts_with(cs@.skip(i as int), jitem(h)) ==> h.name
                        == t.0@ && h.desc == t.1@ && h.categories == t.2.deep_view()
                        && h.backup_parent == t.3@ && h.origin == t.4@ && h.autobackup == t.5
                        && starts_with(cs@.skip(t.6 as int), jvars(h.needed_vars))
            },
            Option::None => forall|h: HupaView|
                hupa_wf(h) ==> !starts_with(cs@.skip(i as int), jitem(h)),
        },
{
    let ghost y = cs@.skip(i as int);
    let p1 = match expect_lit(cs, i, "{\"name\":") {
        Option::Some(j) => j,
        Option::None => {
            proof {
                assert forall|h: HupaView| hupa_wf(h) implies !starts_with(y, jitem(h)) by {
                    if starts_with(y, jitem(h)) {
                        lemma_jitem_parts(h, y);
                    }
                }
            }
            return Option::None;
        },
    };
    let (name, p2) = match parse_jstr(cs, p1) {
        Option::Some(sj) => sj,
        Option::None => {
            proof {
                assert forall|h: HupaView| hupa_wf(h) implies !starts_with(y, jitem(h)) by {
                    if starts_with(y, jitem(h)) {
                        lemma_item_walk1(cs@, i as int, p1 as int, h);
                    }
                }
            }
            return Option::None;
        },
    };
    let p3 = match expect_lit(cs, p2, ",\"desc\":") {
        Option::Some(j) => j,
        Option::None => {
            proof {
                assert forall|h: HupaView| hupa_wf(h) implies !starts_with(y, jitem(h)) by {
                    if starts_with(y, jitem(h)) {
                        lemma_item_walk2(cs@, i as int, p1 as int, name@, p2 as int, h);
                    }
                }
            }
            return Option::None;
        },
    };
    let (desc, p4) = match parse_jstr(cs, p3) {
        Option::Some(sj) => sj,
        Option::None => {
            proof {
                assert forall|h: HupaView| hupa_wf(h) implies !starts_with(y, jitem(h)) by {
                    if starts_with(y, jitem(h)) {
                        lemma_item_walk3(cs@, i as int, p1 as int, name@, p2 as int, p3 as int, h);
                    }
                }
            }
            return Option::None;
        },
    };
    let p5 = match expect_lit(cs, p4, ",\"category\":") {
        Option::Some(j) => j,
        Option::None => {
            proof {
                assert forall|h: HupaView| hupa_wf(h) implies !starts_with(y, jitem(h)) by {
                    if starts_with(y, jitem(h)) {
                        lemma_item_walk4(cs@, i as int, p1 as int, name@, p2 as int, p3 as int,
                            desc@, p4 as int, h);
                    }
                }
            }
            return Option::None;
        },
    };
    let (categories, p6) = match parse_jarr(cs, p5) {
        Option::Some(vj) => vj,
        Option::None => {
            proof {
                assert forall|h: HupaView| hupa_wf(h) implies !starts_with(y, jitem(h)) by {
                    if starts_with(y, jitem(h)) {
                        lemma_item_walk5(cs@, i as int, p1 as int, name@, p2 as int, p3 as int,
                            desc@, p4 as int, p5 as int, h);
                    }
                }
            }
            return Option::None;
        },
    };
    let p7 = match expect_lit(cs, p6, ",\"backup_parent\":") {
        Option::Some(j) => j,
        Option::None => {
            proof {
                assert forall|h: HupaView| hupa_wf(h) implies !starts_with(y, jitem(h)) by {
                    if starts_with(y, jitem(h)) {
                        lemma_item_walk6(cs@, i as int, p1 as int, name@, p2 as int, p3 as int,
                            desc@, p4 as int, p5 as int, categories.deep_view(), p6 as int, h);
                    }
                }
            }
            return Option::None;
        },
    };
    let (backup_parent, p8) = match parse_jstr(cs, p7) {
        Option::Some(sj) => sj,
        Option::None => {
            proof {
                assert forall|h: HupaView| hupa_wf(h) implies !starts_with(y, jitem(h)) by {
                    if starts_with(y, jitem(h)) {
                        lemma_item_walk7(cs@, i as int, p1 as int, name@, p2 as int, p3 as int,
                            desc@, p4 as int, p5 as int, categories.deep_view(), p6 as int,
                            p7 as int, h);
                    }
                }
            }
            return Option::None;
        },
    };
    let p9 = match expect_lit(cs, p8, ",\"origin\":") {
        Option::Some(j) => j,
        Option::None => {
            proof {
                assert forall|h: HupaView| hupa_wf(h) implies !starts_with(y, jitem(h)) by {
                    if starts_with(y, jitem(h)) {
                        lemma_item_walk8(cs@, i as int, p1 as int, name@, p2 as int, p3 as int,
                            desc@, p4 as int, p5 as int, categories.deep_view(), p6 as int,
                            p7 as int, backup_parent@, p8 as int, h);
                    }
                }
            }
            return Option::None;
        },
    };
    let (origin, p10) = match parse_jstr(cs, p9) {
        Option::Some(sj) => sj,
        Option::None => {
            proof {
                assert forall|h: HupaView| hupa_wf(h) implies !starts_with(y, jitem(h)) by {
                    if starts_with(y, jitem(h)) {
                        lemma_item_walk9(cs@, i as int, p1 as int, name@, p2 as int, p3 as int,
                            desc@, p4 as int, p5 as int, categories.deep_view(), p6 as int,
                            p7 as int, backup_parent@, p8 as int, p9 as int, h);
                    }
                }
            }
            return Option::None;
        },
    };
    let p11 = match expect_lit(cs, p10, ",\"autobackup\":") {
        Option::Some(j) => j,
        Option::None => {
            proof {
                assert forall|h: HupaView| hupa_wf(h) implies !starts_with(y, jitem(h)) by {
                    if starts_with(y, jitem(h)) {
                        lemma_item_walk10(cs@, i as int, p1 as int, name@, p2 as int, p3 as int,
                            desc@, p4 as int, p5 as int, categories.deep_view(), p6 as int,
                            p7 as int, backup_parent@, p8 as int, p9 as int, origin@, p10 as int,
                            h);
                    }
                }
            }
            return Option::None;
        },
    };
    let (autobackup, p12) = match parse_bool(cs, p11) {
        Option::Some(bj) => bj,
        Option::None => {
            proof {
                assert forall|h: HupaView| hupa_wf(h) implies !starts_with(y, jitem(h)) by {
                    if starts_with(y, jitem(h)) {
                        lemma_item_walk11(cs@, i as int, p1 as int, name@, p2 as int, p3 as int,
                            desc@, p4 as int, p5 as int, categories.deep_view(), p6 as int,
                            p7 as int, backup_parent@, p8 as int, p9 as int, origin@, p10 as int,
                            p11 as int, h);
                    }
                }
            }
            return Option::None;
        },
    };
    proof {
        assert forall|h: HupaView| hupa_wf(h) && #[trigger] starts_with(y, jitem(h)) implies
            h.name == name@ && h.desc == desc@ && h.categories == categories.deep_view()
            && h.backup_parent == backup_parent@ && h.origin == origin@ && h.autobackup
            == autobackup && starts_with(cs@.skip(p12 as int), jvars(h.needed_vars)) by {
            lemma_item_walk12(cs@, i as int, p1 as int, name@, p2 as int, p3 as int, desc@,
                p4 as int, p5 as int, categories.deep_view(), p6 as int, p7 as int,
                backup_parent@, p8 as int, p9 as int, origin@, p10 as int, p11 as int, autobackup,
                p12 as int, h);
        }
        lemma_head_assemble(cs@, i as int, p1 as int, name@, p2 as int, p3 as int, desc@,
            p4 as int, p5 as int, categories.deep_view(), p6 as int, p7 as int, backup_parent@,
            p8 as int, p9 as int, origin@, p10 as int, p11 as int, autobackup, p12 as int);
    }
    Option::Some((name, desc, categories, backup_parent, origin, autobackup, p12))
}


/// Parses one item object at position `i`, checking the model invariant.
#[verifier::rlimit(100)]
#[verifier::spinoff_prover]
fn parse_item(cs: &Vec<char>, i: usize) -> (r: Option<(Hupa, usize)>)
    requires
        i <= cs@.len(),
    ensures
        match r {
            Option::Some(hj) => hupa_wf(hj.0@) && i + jitem(hj.0@).len() == hj.1 && hj.1
                <= cs@.len() && starts_with(cs@.skip(i as int), jitem(hj.0@)),
            Option::None => forall|h: HupaView|
                hupa_wf(h) ==> !starts_with(cs@.skip(i as int), jitem(h)),
        },
{
    let ghost y = cs@.skip(i as int);
    let head = match parse_item_head(cs, i) {
        Option::Some(t) => t,
        Option::None => {
            return Option::None;
        },
    };
    let (name, desc, categories, backup_parent, origin, autobackup, p12) = head;
    if origin.as_str().is_empty() || backup_parent.as_str().is_empty() {
        return Option::None;
    }
    let (needed_vars, end) = match expect_lit(cs, p12, ",\"needed_vars\":") {
        Option::Some(p13) => {
            match parse_jarr(cs, p13) {
                Option::None => {
                    proof {
                        reveal_strlit("}");
                        reveal_strlit(",\"needed_vars\":");
                        assert forall|h: HupaView| hupa_wf(h) implies !starts_with(
                            y,
                            jitem(h),
                        ) by {
                            if starts_with(y, jitem(h)) {
                                let w = cs@.skip(p12 as int);
                                if h.needed_vars.len() == 0 {
                                    assert(w.subrange(0, "}"@.len() as int)[0] == '}');
                                    assert(w.subrange(0, ",\"needed_vars\":"@.len() as int)[0]
                                        == ',');
                                    assert(false);
                                } else {
                                    assert(jvars(h.needed_vars) =~= ",\"needed_vars\":"@ + (jarr(
                                        h.needed_vars,
                                    ) + "}"@));
                                    lemma_starts_with_concat(
                                        w,
                                        ",\"needed_vars\":"@,
                                        jarr(h.needed_vars) + "}"@,
                                    );
                                    lemma_starts_with_concat(
                                        w.skip(",\"needed_vars\":"@.len() as int),
                                        jarr(h.needed_vars),
                                        "}"@,
                                    );
                                    lemma_skip_skip(cs@, p12 as int, p13 - p12);
                                    assert(false);
                                }
                            }
                        }
                    }
                    return Option::None;
                },
                Option::Some(vj) => {
                    let (vars, p14) = vj;
                    proof {
                        reveal_strlit("}");
                        reveal_strlit(",\"needed_vars\":");
                        assert forall|h: HupaView| hupa_wf(h) && #[trigger] starts_with(
                            y,
                            jitem(h),
                        ) implies h.needed_vars == vars.deep_view() && h.needed_vars.len() > 0
                            && starts_with(cs@.skip(p14 as int), "}"@) by {
                            let w = cs@.skip(p12 as int);
                            if h.needed_vars.len() == 0 {
                                assert(w.subrange(0, "}"@.len() as int)[0] == '}');
                                assert(w.subrange(0, ",\"needed_vars\":"@.len() as int)[0]
                                    == ',');
                                assert(false);
                            }
                            assert(jvars(h.needed_vars) =~= ",\"needed_vars\":"@ + (jarr(
                                h.needed_vars,
                            ) + "}"@));
                            lemma_starts_with_concat(
                                w,
                                ",\"needed_vars\":"@,
                                jarr(h.needed_vars) + "}"@,
                            );
                            lemma_starts_with_concat(
                                w.skip(",\"needed_vars\":"@.len() as int),
                                jarr(h.needed_vars),
                                "}"@,
                            );
                            lemma_skip_skip(cs@, p12 as int, p13 - p12);
                            lemma_jarr_align(vars.deep_view(), h.needed_vars, cs@.skip(
                                p13 as int,
                            ));
                            lemma_skip_skip(cs@, p13 as int, p14 - p13);
                        }
                    }
                    if vars.len() == 0 {
                        proof {
                            assert(vars.deep_view().len() == 0);
                        }
                        return Option::None;
                    }
                    match expect_lit(cs, p14, "}") {
                        Option::Some(p15) => (vars, p15),
                        Option::None => {
                            return Option::None;
                        },
                    }
                },
            }
        },
        Option::None => {
            match expect_lit(cs, p12, "}") {
                Option::Some(p13) => {
                    proof {
                        assert forall|h: HupaView| hupa_wf(h) && #[trigger] starts_with(
                            y,
                            jitem(h),
                        ) implies h.needed_vars.len() == 0 by {
                            if h.needed_vars.len() > 0 {
                                let w = cs@.skip(p12 as int);
                                assert(jvars(h.needed_vars) =~= ",\"needed_vars\":"@ + (jarr(
                                    h.needed_vars,
                                ) + "}"@));
                                lemma_starts_with_concat(
                                    w,
                                    ",\"needed_vars\":"@,
                                    jarr(h.needed_vars) + "}"@,
                                );
                                assert(false);
                            }
                        }
                    }
                    let empty_vars: Vec<String> = Vec::new();
                    proof {
                        assert(empty_vars.deep_view() =~= Seq::<Seq<char>>::empty());
                    }
                    (empty_vars, p13)
                },
                Option::None => {
                    proof {
                        assert forall|h: HupaView| hupa_wf(h) implies !starts_with(
                            y,
                            jitem(h),
                        ) by {
                            if starts_with(y, jitem(h)) {
                                let w = cs@.skip(p12 as int);
                                if h.needed_vars.len() == 0 {
                                } else {
                                    assert(jvars(h.needed_vars) =~= ",\"needed_vars\":"@ + (jarr(
                                        h.needed_vars,
                                    ) + "}"@));
                                    lemma_starts_with_concat(
                                        w,
                                        ",\"needed_vars\":"@,
                                        jarr(h.needed_vars) + "}"@,
                                    );
                                }
                            }
                        }
                    }
                    return Option::None;
                },
            }
        },
    };
    let ghost nvdv = needed_vars.deep_view();
    let ghost endg = end;
    let h = Hupa::from_parts(name, desc, categories, backup_parent, origin, autobackup,
        needed_vars);
    proof {
        assert(starts_with(cs@.skip(p12 as int), jvars(h@.needed_vars))) by {
            if nvdv.len() == 0 {
                assert(jvars(h@.needed_vars) == "}"@);
            } else {
                let w = cs@.skip(p12 as int);
                lemma_skip_skip(cs@, p12 as int, ",\"needed_vars\":"@.len() as int);
                lemma_skip_skip(cs@, p12 + ",\"needed_vars\":"@.len(), jarr(nvdv).len() as int);
                lemma_concat_starts_with(
                    w.skip(",\"needed_vars\":"@.len() as int),
                    jarr(nvdv),
                    "}"@,
                );
                lemma_concat_starts_with(w, ",\"needed_vars\":"@, jarr(nvdv) + "}"@);
                assert(jvars(h@.needed_vars) =~= ",\"needed_vars\":"@ + (jarr(nvdv) + "}"@));
            }
        }
        lemma_jitem_split(h@);
        let headseq = jitem_head(
            h@.name,
            h@.desc,
            h@.categories,
            h@.backup_parent,
            h@.origin,
            h@.autobackup,
        );
        assert(headseq.len() == p12 - i);
        lemma_skip_skip(cs@, i as int, p12 - i);
        lemma_concat_starts_with(y, headseq, jvars(h@.needed_vars));
        assert(jitem(h@).len() == endg - i) by {
            if nvdv.len() == 0 {
                assert(jvars(h@.needed_vars).len() == "}"@.len());
            } else {
                assert(jvars(h@.needed_vars).len() == ",\"needed_vars\":"@.len() + jarr(
                    nvdv,
                ).len() + "}"@.len());
            }
        }
    }
    Option::Some((h, end))
}

/// The head element and remaining shape of a non-empty item list body.
proof fn lemma_jitems_rem_head(rem: Seq<HupaView>, w: Seq<char>)
    requires
        rem.len() > 0,
        starts_with(w, jitems_inner(rem).push(']')),
    ensures
        starts_with(w, jitem(rem[0])),
        rem.len() == 1 ==> starts_with(w.skip(jitem(rem[0]).len() as int), seq![']']),
        rem.len() > 1 ==> starts_with(
            w.skip(jitem(rem[0]).len() as int),
            seq![','] + jitems_inner(rem.skip(1)).push(']'),
        ),
{
    if rem.len() == 1 {
        assert(jitems_inner(rem).push(']') =~= jitem(rem[0]) + seq![']']);
        lemma_starts_with_concat(w, jitem(rem[0]), seq![']']);
    } else {
        assert(jitems_inner(rem).push(']') =~= jitem(rem[0]) + (seq![','] + jitems_inner(
            rem.skip(1),
        ).push(']')));
        lemma_starts_with_concat(w, jitem(rem[0]), seq![','] + jitems_inner(rem.skip(1)).push(
            ']',
        ));
    }
}

} // verus!

verus! {

/// Growing the consumed text by one item spells the grown list body.
proof fn lemma_items_grow(cs: Seq<char>, i: int, p: int, p1: int, prevdv: Seq<HupaView>, hv: HupaView)
    requires
        0 <= i < p <= p1 <= cs.len(),
        prevdv.len() == 0 ==> p == i + 1,
        prevdv.len() > 0 ==> cs.subrange(i + 1, p) == jitems_inner(prevdv) + seq![','],
        starts_with(cs.skip(p), jitem(hv)),
        p1 == p + jitem(hv).len(),
    ensures
        cs.subrange(i + 1, p1) == jitems_inner(prevdv.push(hv)),
{
    let dv = prevdv.push(hv);
    lemma_jitems_inner_snoc(prevdv, hv);
    assert(cs.subrange(i + 1, p1) =~= jitems_inner(dv)) by {
        assert forall|k: int| 0 <= k < p1 - i - 1 implies cs.subrange(i + 1, p1)[k]
            == jitems_inner(dv)[k] by {
            if prevdv.len() == 0 {
                assert(jitems_inner(dv) == jitem(hv));
                assert(cs.skip(p).subrange(0, jitem(hv).len() as int)[k] == jitem(hv)[k]);
            } else {
                assert(jitems_inner(dv) == jitems_inner(prevdv) + seq![','] + jitem(hv));
                if k < p - i - 1 {
                    assert(cs.subrange(i + 1, p)[k] == (jitems_inner(prevdv) + seq![','])[k]);
                } else {
                    assert(cs.skip(p).subrange(0, jitem(hv).len() as int)[k - (p - i - 1)]
                        == jitem(hv)[k - (p - i - 1)]);
                }
            }
        }
    }
}

/// Closing the list: the consumed text spells the whole canonical store.
proof fn lemma_items_close(cs: Seq<char>, i: int, p1: int, dv: Seq<HupaView>)
    requires
        0 <= i < p1 < cs.len(),
        cs[i] == '[',
        cs[p1] == ']',
        cs.subrange(i + 1, p1) == jitems_inner(dv),
    ensures
        starts_with(cs.skip(i), json_of_hupas(dv)),
        json_of_hupas(dv).len() == p1 + 1 - i,
{
    assert(cs.subrange(i, p1 + 1) =~= json_of_hupas(dv)) by {
        assert forall|k: int| 0 <= k < p1 + 1 - i implies cs.subrange(i, p1 + 1)[k]
            == json_of_hupas(dv)[k] by {
            if k == 0 {
            } else if k < p1 - i {
                assert(cs.subrange(i + 1, p1)[k - 1] == jitems_inner(dv)[k - 1]);
            } else {
                assert(cs[p1] == ']');
            }
        }
    }
    assert(starts_with(cs.skip(i), json_of_hupas(dv))) by {
        assert(cs.skip(i).subrange(0, json_of_hupas(dv).len() as int) =~= cs.subrange(
            i,
            p1 + 1,
        ));
    }
}

/// Continuing after a comma: the consumed text spells the body and a comma.
proof fn lemma_items_cont(cs: Seq<char>, i: int, p1: int, dv: Seq<HupaView>)
    requires
        0 <= i < p1 < cs.len(),
        cs[p1] == ',',
        cs.subrange(i + 1, p1) == jitems_inner(dv),
    ensures
        cs.subrange(i + 1, p1 + 1) == jitems_inner(dv) + seq![','],
{
    assert(cs.subrange(i + 1, p1 + 1) =~= jitems_inner(dv) + seq![',']) by {
        assert forall|k: int| 0 <= k < p1 - i implies cs.subrange(i + 1, p1 + 1)[k]
            == (jitems_inner(dv) + seq![','])[k] by {
            if k < p1 - i - 1 {
                assert(cs.subrange(i + 1, p1)[k] == jitems_inner(dv)[k]);
            } else {
                assert(cs[p1] == ',');
            }
        }
    }
}

/// One step of the walk over canonical candidates: after the parsed item and
/// a comma, every canonical list continues with its remaining items.
#[verifier::rlimit(100)]
proof fn lemma_items_neg_step(
    cs: Seq<char>,
    i: int,
    p: int,
    p1: int,
    prevdv: Seq<HupaView>,
    hv: HupaView,
    vs: Seq<HupaView>,
)
    requires
        0 <= i < p <= p1 < cs.len(),
        cs[p1] == ',',
        starts_with(cs.skip(p), jitem(hv)),
        p1 == p + jitem(hv).len(),
        starts_with(cs.skip(i + 1), jitems_inner(vs).push(']')),
        vs.len() > prevdv.len(),
        vs.subrange(0, prevdv.len() as int) == prevdv,
        starts_with(cs.skip(p), jitems_inner(vs.skip(prevdv.len() as int)).push(']')),
    ensures
        vs.len() > prevdv.len() + 1,
        vs.subrange(0, prevdv.len() as int + 1) == prevdv.push(hv),
        starts_with(cs.skip(p1 + 1), jitems_inner(vs.skip(prevdv.len() as int + 1)).push(']')),
{
    let dv = prevdv.push(hv);
    let rem = vs.skip(prevdv.len() as int);
    let w = cs.skip(p);
    lemma_jitems_rem_head(rem, w);
    lemma_jitem_align(hv, rem[0], w);
    if rem.len() == 1 {
        assert(w.skip(jitem(rem[0]).len() as int).subrange(0, 1)[0] == ']');
        lemma_skip_skip(cs, p, jitem(rem[0]).len() as int);
        assert(cs.skip(p1)[0] == cs[p1]);
        assert(false);
    }
    assert(rem.len() > 1);
    assert(vs.len() > dv.len());
    assert(vs.subrange(0, dv.len() as int) =~= dv) by {
        assert forall|k: int| 0 <= k < dv.len() implies vs.subrange(0, dv.len() as int)[k]
            == dv[k] by {
            if k < prevdv.len() {
                assert(vs.subrange(0, prevdv.len() as int)[k] == prevdv[k]);
            } else {
                assert(vs[k] == vs.skip(prevdv.len() as int)[0]);
            }
        }
    }
    lemma_skip_skip(cs, p, jitem(rem[0]).len() as int);
    lemma_starts_with_concat(cs.skip(p1), seq![','], jitems_inner(rem.skip(1)).push(']'));
    lemma_skip_skip(cs, p1, 1);
    assert(vs.skip(dv.len() as int) =~= rem.skip(1));
}

/// Parses the whole top-level item list at position `i`.
#[verifier::rlimit(100)]
#[verifier::spinoff_prover]
fn parse_items(cs: &Vec<char>, i: usize) -> (r: Option<(Vec<Hupa>, usize)>)
    requires
        i <= cs@.len(),
    ensures
        match r {
            Option::Some(vj) => all_wf(vj.0.deep_view()) && i + json_of_hupas(
                vj.0.deep_view(),
            ).len() == vj.1 && vj.1 <= cs@.len() && starts_with(
                cs@.skip(i as int),
                json_of_hupas(vj.0.deep_view()),
            ),
            Option::None => forall|vs: Seq<HupaView>|
                all_wf(vs) ==> !starts_with(cs@.skip(i as int), json_of_hupas(vs)),
        },
{
    let n = cs.len();
    let ghost y = cs@.skip(i as int);
    if i >= n || cs[i] != '[' {
        proof {
            assert forall|vs: Seq<HupaView>| all_wf(vs) implies !starts_with(
                y,
                json_of_hupas(vs),
            ) by {
                if starts_with(y, json_of_hupas(vs)) {
                    assert(json_of_hupas(vs) =~= seq!['['] + jitems_inner(vs).push(']'));
                    assert(y.subrange(0, json_of_hupas(vs).len() as int)[0] == json_of_hupas(
                        vs,
                    )[0]);
                    assert(y[0] == cs@[i as int]);
                    assert(false);
                }
            }
        }
        return Option::None;
    }
    let ghost y1 = cs@.skip(i + 1);
    if i + 1 >= n {
        proof {
            assert forall|vs: Seq<HupaView>| all_wf(vs) implies !starts_with(
                y,
                json_of_hupas(vs),
            ) by {
                if starts_with(y, json_of_hupas(vs)) {
                    assert(json_of_hupas(vs).len() >= 2);
                    assert(y.len() == n - i);
                    assert(false);
                }
            }
        }
        return Option::None;
    }
    if cs[i + 1] == ']' {
        let empty_vec: Vec<Hupa> = Vec::new();
        proof {
            assert(empty_vec.deep_view() =~= Seq::<HupaView>::empty());
            let e = Seq::<HupaView>::empty();
            assert(jitems_inner(e) == Seq::<char>::empty());
            assert(json_of_hupas(e) =~= seq!['[', ']']);
            assert(y.subrange(0, 2) =~= seq!['[', ']']) by {
                assert(y[0] == cs@[i as int]);
                assert(y[1] == cs@[i + 1]);
            }
            assert(starts_with(y, json_of_hupas(e)));
            assert(json_of_hupas(e).len() == 2);
        }
        return Option::Some((empty_vec, i + 2));
    }
    let mut acc: Vec<Hupa> = Vec::new();
    let mut p: usize = i + 1;
    proof {
        assert(acc.deep_view() =~= Seq::<HupaView>::empty());
        assert forall|vs: Seq<HupaView>| #[trigger] starts_with(
            y1,
            jitems_inner(vs).push(']'),
        ) implies vs.len() > acc.deep_view().len() && vs.subrange(
            0,
            acc.deep_view().len() as int,
        ) == acc.deep_view() && starts_with(
            cs@.skip(i + 1),
            jitems_inner(vs.skip(acc.deep_view().len() as int)).push(']'),
        ) by {
            if vs.len() == 0 {
                assert(jitems_inner(vs).push(']') =~= seq![']']);
                assert(y1.subrange(0, 1)[0] == ']');
                assert(y1[0] == cs@[i + 1]);
                assert(false);
            } else {
                assert(vs.subrange(0, 0) =~= acc.deep_view());
                assert(vs.skip(0) =~= vs);
            }
        }
    }
    loop
        invariant
            n == cs@.len(),
            i < n,
            i + 1 <= p <= n,
            cs@[i as int] == '[',
            cs@[i + 1] != ']',
            y == cs@.skip(i as int),
            y1 == cs@.skip(i + 1),
            all_wf(acc.deep_view()),
            acc.deep_view().len() == 0 ==> p == i + 1,
            acc.deep_view().len() > 0 ==> p - i >= 2 && cs@.subrange(i + 1, p as int)
                == jitems_inner(acc.deep_view()) + seq![','],
            forall|vs: Seq<HupaView>| #[trigger] starts_with(y1, jitems_inner(vs).push(']'))
                ==> vs.len() > acc.deep_view().len() && vs.subrange(
                0,
                acc.deep_view().len() as int,
            ) == acc.deep_view() && starts_with(
                cs@.skip(p as int),
                jitems_inner(vs.skip(acc.deep_view().len() as int)).push(']'),
            ),
        decreases n - p,
    {
        let ghost accdv = acc.deep_view();
        match parse_item(cs, p) {
            Option::None => {
                proof {
                    assert forall|vs: Seq<HupaView>| all_wf(vs) implies !starts_with(
                        y,
                        json_of_hupas(vs),
                    ) by {
                        if starts_with(y, json_of_hupas(vs)) {
                            assert(json_of_hupas(vs) =~= seq!['['] + jitems_inner(vs).push(']'));
                            lemma_starts_with_concat(y, seq!['['], jitems_inner(vs).push(']'));
                            lemma_skip_skip(cs@, i as int, 1);
                            let rem = vs.skip(accdv.len() as int);
                            lemma_jitems_rem_head(rem, cs@.skip(p as int));
                            assert(rem[0] == vs[accdv.len() as int]);
                            assert(hupa_wf(vs[accdv.len() as int]));
                            assert(false);
                        }
                    }
                }
                return Option::None;
            },
            Option::Some(hp) => {
                let (h, p1) = hp;
                proof {
                    assert forall|vs: Seq<HupaView>| #[trigger] starts_with(
                        y1,
                        jitems_inner(vs).push(']'),
                    ) && all_wf(vs) implies vs[accdv.len() as int] == h@ by {
                        let rem = vs.skip(accdv.len() as int);
                        lemma_jitems_rem_head(rem, cs@.skip(p as int));
                        assert(hupa_wf(vs[accdv.len() as int]));
                        lemma_jitem_align(h@, rem[0], cs@.skip(p as int));
                    }
                }
                if p1 >= n {
                    proof {
                        assert forall|vs: Seq<HupaView>| all_wf(vs) implies !starts_with(
                            y,
                            json_of_hupas(vs),
                        ) by {
                            if starts_with(y, json_of_hupas(vs)) {
                                assert(json_of_hupas(vs) =~= seq!['['] + jitems_inner(vs).push(
                                    ']',
                                ));
                                lemma_starts_with_concat(y, seq!['['], jitems_inner(vs).push(
                                    ']',
                                ));
                                lemma_skip_skip(cs@, i as int, 1);
                                let rem = vs.skip(accdv.len() as int);
                                let w = cs@.skip(p as int);
                                lemma_jitems_rem_head(rem, w);
                                assert(hupa_wf(vs[accdv.len() as int]));
                                lemma_jitem_align(h@, rem[0], w);
                                assert(w.skip(jitem(rem[0]).len() as int).len() >= 1);
                                assert(w.len() == n - p);
                                assert(jitem(rem[0]).len() == p1 - p);
                                assert(false);
                            }
                        }
                    }
                    return Option::None;
                }
                let c2 = cs[p1];
                if c2 == ']' || c2 == ',' {
                    let ghost prevdv = acc.deep_view();
                    let ghost hv = h@;
                    acc.push(h);
                    proof {
                        let dv = acc.deep_view();
                        assert(dv.len() == prevdv.len() + 1);
                        assert forall|k: int| 0 <= k < dv.len() implies dv[k] == prevdv.push(
                            hv,
                        )[k] by {
                            if k < prevdv.len() {
                                assert(dv[k] == prevdv[k]);
                            } else {
                                assert(acc@[k] == acc@[acc@.len() - 1]);
                            }
                        }
                        assert(dv =~= prevdv.push(hv));
                        assert(all_wf(dv)) by {
                            assert(hupa_wf(hv));
                            assert forall|k: int| 0 <= k < dv.len() implies hupa_wf(dv[k]) by {
                                if k < prevdv.len() {
                                    assert(hupa_wf(prevdv[k]));
                                }
                            }
                        }
                        lemma_items_grow(cs@, i as int, p as int, p1 as int, prevdv, hv);
                    }
                    if c2 == ']' {
                        proof {
                            lemma_items_close(cs@, i as int, p1 as int, acc.deep_view());
                        }
                        return Option::Some((acc, p1 + 1));
                    }
                    proof {
                        let dv = acc.deep_view();
                        lemma_items_cont(cs@, i as int, p1 as int, dv);
                        assert forall|vs: Seq<HupaView>| #[trigger] starts_with(
                            y1,
                            jitems_inner(vs).push(']'),
                        ) implies vs.len() > dv.len() && vs.subrange(0, dv.len() as int) == dv
                            && starts_with(
                            cs@.skip(p1 + 1),
                            jitems_inner(vs.skip(dv.len() as int)).push(']'),
                        ) by {
                            lemma_items_neg_step(cs@, i as int, p as int, p1 as int, prevdv, hv,
                                vs);
                        }
                    }
                    p = p1 + 1;
                } else {
                    proof {
                        assert forall|vs: Seq<HupaView>| all_wf(vs) implies !starts_with(
                            y,
                            json_of_hupas(vs),
                        ) by {
                            if starts_with(y, json_of_hupas(vs)) {
                                assert(json_of_hupas(vs) =~= seq!['['] + jitems_inner(vs).push(
                                    ']',
                                ));
                                lemma_starts_with_concat(y, seq!['['], jitems_inner(vs).push(
                                    ']',
                                ));
                                lemma_skip_skip(cs@, i as int, 1);
                                let rem = vs.skip(accdv.len() as int);
                                let w = cs@.skip(p as int);
                                lemma_jitems_rem_head(rem, w);
                                assert(hupa_wf(vs[accdv.len() as int]));
                                lemma_jitem_align(h@, rem[0], w);
                                lemma_skip_skip(cs@, p as int, jitem(rem[0]).len() as int);
                                if rem.len() == 1 {
                                    assert(cs@.skip(p1 as int).subrange(0, 1)[0] == ']');
                                    assert(false);
                                } else {
                                    assert(cs@.skip(p1 as int).subrange(
                                        0,
                                        (seq![','] + jitems_inner(rem.skip(1)).push(
                                            ']',
                                        )).len() as int,
                                    )[0] == ',');
                                    assert(false);
                                }
                            }
                        }
                    }
                    return Option::None;
                }
            },
        }
    }
}

proof fn lemma_ws_prefix(s: Seq<char>, k: int)
    requires
        0 <= k <= s.len(),
        forall|t: int| 0 <= t < k ==> is_ws(s[t]),
        k == s.len() || !is_ws(s[k]),
    ensures
        ws_prefix_len(s) == k,
    decreases k,
{
    if k == 0 {
    } else {
        assert(is_ws(s[0]));
        let t = s.skip(1);
        assert forall|u: int| 0 <= u < k - 1 implies is_ws(t[u]) by {
            assert(t[u] == s[u + 1]);
        }
        if k - 1 < t.len() {
            assert(t[k - 1] == s[k]);
        }
        lemma_ws_prefix(t, k - 1);
    }
}

proof fn lemma_ws_suffix(s: Seq<char>, k: int)
    requires
        0 <= k <= s.len(),
        forall|t: int| s.len() - k <= t < s.len() ==> is_ws(s[t]),
        k == s.len() || !is_ws(s[s.len() - k - 1]),
    ensures
        ws_suffix_len(s) == k,
    decreases k,
{
    if k == 0 {
    } else {
        assert(is_ws(s.last()));
        let t = s.drop_last();
        assert forall|u: int| t.len() - (k - 1) <= u < t.len() implies is_ws(t[u]) by {
            assert(t[u] == s[u]);
        }
        if k - 1 < t.len() {
            assert(t[t.len() - (k - 1) - 1] == s[s.len() - k - 1]);
        }
        lemma_ws_suffix(t, k - 1);
    }
}

/// Whether `c` is whitespace between tokens.
fn is_ws_at(c: char) -> (r: bool)
    ensures
        r == is_ws(c),
{
    c == ' ' || c == '\t' || c == '\n' || c == '\r'
}

/// Decodes the persisted metadata store.
///
/// A document in the canonical form — surrounding whitespace aside — is
/// returned as the unique store it spells; any other document is given the
/// tolerant reading, which succeeds exactly on a JSON sequence of member
/// objects that fit the schema. Otherwise the whole load fails with
/// `InvalidMetadata`, and nothing is partially recovered.
#[verifier::rlimit(100)]
#[verifier::spinoff_prover]
pub fn json_to_hupas(text: &str) -> (r: Result<Vec<Hupa>, MetadataError>)
    ensures
        match r {
            Result::Ok(hupas) => {
                let dv = hupas.deep_view();
                &&& all_wf(dv)
                &&& decoded(text@) is Some ==> decoded(text@) == Option::Some(dv)
                &&& decoded(text@) is None ==> tolerant_decoded(text@) == Option::Some(dv)
            },
            Result::Err(e) => e == MetadataError::InvalidMetadata && decoded(text@) is None
                && tolerant_decoded(text@) is None,
        },
{
    let cs = chars_of(text);
    let n = cs.len();
    let mut s: usize = 0;
    while s < n && is_ws_at(cs[s])
        invariant
            s <= n,
            n == cs@.len(),
            forall|t: int| 0 <= t < s ==> is_ws(cs@[t]),
        decreases n - s,
    {
        s = s + 1;
    }
    proof {
        if s < n {
            assert(!is_ws(cs@[s as int]));
        }
        lemma_ws_prefix(cs@, s as int);
    }
    if s == n {
        proof {
            assert(trimmed(text@).len() == 0) by {
                if ws_prefix_len(cs@) + ws_suffix_len(cs@) <= cs@.len() {
                    assert(trimmed(cs@) =~= Seq::<char>::empty());
                }
            }
            assert(decoded(text@) is None) by {
                if decoded(text@) is Some {
                    let vs = choose|other: Seq<HupaView>|
                        all_wf(other) && json_of_hupas(other) == trimmed(text@);
                    assert(json_of_hupas(vs).len() >= 2);
                    assert(false);
                }
            }
        }
        return match read_store(&cs) {
            Option::Some(hupas) => Result::Ok(hupas),
            Option::None => Result::Err(MetadataError::InvalidMetadata),
        };
    }
    let mut e: usize = n;
    while e > s && is_ws_at(cs[e - 1])
        invariant
            s <= e <= n,
            s < n,
            n == cs@.len(),
            forall|t: int| e <= t < n ==> is_ws(cs@[t]),
        decreases e,
    {
        e = e - 1;
    }
    proof {
        if e == s {
            assert(is_ws(cs@[s as int]));
            assert(false);
        }
        assert(!is_ws(cs@[e - 1]));
        lemma_ws_suffix(cs@, n - e);
        assert(trimmed(cs@) == cs@.subrange(s as int, e as int));
    }
    match parse_items(&cs, s) {
        Option::Some(hj) => {
            let (hupas, j) = hj;
            if j == e {
                proof {
                    let dv = hupas.deep_view();
                    assert(trimmed(text@) == json_of_hupas(dv)) by {
                        assert(cs@.subrange(s as int, e as int) =~= json_of_hupas(dv)) by {
                            assert forall|k: int| 0 <= k < e - s implies cs@.subrange(
                                s as int,
                                e as int,
                            )[k] == json_of_hupas(dv)[k] by {
                                assert(cs@.skip(s as int).subrange(
                                    0,
                                    json_of_hupas(dv).len() as int,
                                )[k] == json_of_hupas(dv)[k]);
                                assert(cs@.skip(s as int)[k] == cs@[s + k]);
                            }
                        }
                    }
                    assert(all_wf(dv) && json_of_hupas(dv) == trimmed(text@));
                    let w = choose|other: Seq<HupaView>|
                        all_wf(other) && json_of_hupas(other) == trimmed(text@);
                    lemma_json_of_hupas_injective(w, dv);
                }
                Result::Ok(hupas)
            } else {
                proof {
                    let dv = hupas.deep_view();
                    assert(decoded(text@) is None) by {
                        if decoded(text@) is Some {
                            let vs = choose|other: Seq<HupaView>|
                                all_wf(other) && json_of_hupas(other) == trimmed(text@);
                            assert(starts_with(cs@.skip(s as int), json_of_hupas(vs))) by {
                                assert(cs@.skip(s as int).subrange(
                                    0,
                                    json_of_hupas(vs).len() as int,
                                ) =~= json_of_hupas(vs)) by {
                                    assert forall|k: int|
                                        0 <= k < e - s implies cs@.skip(s as int).subrange(
                                        0,
                                        json_of_hupas(vs).len() as int,
                                    )[k] == json_of_hupas(vs)[k] by {
                                        assert(cs@.subrange(s as int, e as int)[k]
                                            == json_of_hupas(vs)[k]);
                                        assert(cs@.skip(s as int)[k] == cs@[s + k]);
                                    }
                                }
                            }
                            assert(json_of_hupas(dv) =~= seq!['['] + jitems_inner(dv).push(']'));
                            assert(json_of_hupas(vs) =~= seq!['['] + jitems_inner(vs).push(']'));
                            lemma_starts_with_concat(
                                cs@.skip(s as int),
                                seq!['['],
                                jitems_inner(dv).push(']'),
                            );
                            lemma_starts_with_concat(
                                cs@.skip(s as int),
                                seq!['['],
                                jitems_inner(vs).push(']'),
                            );
                            lemma_jitems_inner_align(dv, vs, cs@.skip(s as int).skip(1));
                            assert(false);
                        }
                    }
                }
                match read_store(&cs) {
                    Option::Some(tolerant_hupas) => Result::Ok(tolerant_hupas),
                    Option::None => Result::Err(MetadataError::InvalidMetadata),
                }
            }
        },
        Option::None => {
            proof {
                assert(decoded(text@) is None) by {
                    if decoded(text@) is Some {
                        let vs = choose|other: Seq<HupaView>|
                            all_wf(other) && json_of_hupas(other) == trimmed(text@);
                        assert(starts_with(cs@.skip(s as int), json_of_hupas(vs))) by {
                            assert(cs@.skip(s as int).subrange(
                                0,
                                json_of_hupas(vs).len() as int,
                            ) =~= json_of_hupas(vs)) by {
                                assert forall|k: int|
                                    0 <= k < e - s implies cs@.skip(s as int).subrange(
                                    0,
                                    json_of_hupas(vs).len() as int,
                                )[k] == json_of_hupas(vs)[k] by {
                                    assert(cs@.subrange(s as int, e as int)[k]
                                        == json_of_hupas(vs)[k]);
                                    assert(cs@.skip(s as int)[k] == cs@[s + k]);
                                }
                            }
                        }
                        assert(all_wf(vs));
                        assert(false);
                    }
                }
            }
            match read_store(&cs) {
                Option::Some(hupas) => Result::Ok(hupas),
                Option::None => Result::Err(MetadataError::InvalidMetadata),
            }
        },
    }
}

} // verus!
