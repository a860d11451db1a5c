//! The canonical textual form of the metadata store.
//!
//! A store is a sequence of items, written as a JSON array of objects with
//! the keys `name`, `desc`, `category`, `backup_parent`, `origin`,
//! `autobackup` and, only when it is non-empty, `needed_vars`, in that
//! order, with no whitespace. Inside strings, `"`, `\`, newline, tab and
//! carriage return are written with a backslash; every other character is
//! written as itself.
//!
//! This module defines the form as spec functions, the encoder that writes
//! it, and the alignment lemmas that make it uniquely readable; the decoder
//! lives in [`crate::decode`].

use vstd::prelude::*;

use crate::item::{Hupa, HupaView, hupa_wf};
use crate::text::push_char;

verus! {

/// How a single character is written inside a quoted string.
pub open spec fn esc_char(c: char) -> Seq<char> {
    if c == '"' {
        seq!['\\', '"']
    } else if c == '\\' {
        seq!['\\', '\\']
    } else if c == '\n' {
        seq!['\\', 'n']
    } else if c == '\t' {
        seq!['\\', 't']
    } else if c == '\r' {
        seq!['\\', 'r']
    } else {
        seq![c]
    }
}

/// How a whole string body is written, character by character.
pub open spec fn esc(s: Seq<char>) -> Seq<char>
    decreases s.len(),
{
    if s.len() == 0 {
        Seq::empty()
    } else {
        esc_char(s[0]) + esc(s.skip(1))
    }
}

/// A quoted string.
pub open spec fn jstr(s: Seq<char>) -> Seq<char> {
    seq!['"'] + esc(s) + seq!['"']
}

/// The comma-separated body of an array of strings.
pub open spec fn jarr_inner(ss: Seq<Seq<char>>) -> Seq<char>
    decreases ss.len(),
{
    if ss.len() == 0 {
        Seq::empty()
    } else if ss.len() == 1 {
        jstr(ss[0])
    } else {
        jstr(ss[0]) + seq![','] + jarr_inner(ss.skip(1))
    }
}

/// An array of strings.
pub open spec fn jarr(ss: Seq<Seq<char>>) -> Seq<char> {
    seq!['['] + jarr_inner(ss) + seq![']']
}

/// A boolean.
pub open spec fn jbool(b: bool) -> Seq<char> {
    if b {
        "true"@
    } else {
        "false"@
    }
}

/// The tail of an object: the `needed_vars` key only when the sequence is
/// non-empty, then the closing brace.
pub open spec fn jvars(vs: Seq<Seq<char>>) -> Seq<char> {
    if vs.len() == 0 {
        "}"@
    } else {
        ",\"needed_vars\":"@ + jarr(vs) + "}"@
    }
}

/// One item as an object.
pub open spec fn jitem(h: HupaView) -> Seq<char> {
    "{\"name\":"@ + jstr(h.name) + ",\"desc\":"@ + jstr(h.desc) + ",\"category\":"@ + jarr(
        h.categories,
    ) + ",\"backup_parent\":"@ + jstr(h.backup_parent) + ",\"origin\":"@ + jstr(h.origin)
        + ",\"autobackup\":"@ + jbool(h.autobackup) + jvars(h.needed_vars)
}

/// The comma-separated body of the top-level array of items.
pub open spec fn jitems_inner(items: Seq<HupaView>) -> Seq<char>
    decreases items.len(),
{
    if items.len() == 0 {
        Seq::empty()
    } else if items.len() == 1 {
        jitem(items[0])
    } else {
        jitem(items[0]) + seq![','] + jitems_inner(items.skip(1))
    }
}

/// A whole store.
pub open spec fn json_of_hupas(items: Seq<HupaView>) -> Seq<char> {
    seq!['['] + jitems_inner(items) + seq![']']
}

/// Every item satisfies the model invariant.
pub open spec fn all_wf(items: Seq<HupaView>) -> bool {
    forall|k: int| 0 <= k < items.len() ==> hupa_wf(#[trigger] items[k])
}

/// What a text decodes to: the unique well-formed item sequence whose
/// canonical form is the text — surrounding whitespace aside — if there is
/// one.
pub open spec fn decoded(text: Seq<char>) -> Option<Seq<HupaView>> {
    if exists|items: Seq<HupaView>| all_wf(items) && json_of_hupas(items) == trimmed(text) {
        Option::Some(
            choose|items: Seq<HupaView>| all_wf(items) && json_of_hupas(items) == trimmed(text),
        )
    } else {
        Option::None
    }
}

// ---------------------------------------------------------------------------
// The encoder.
// ---------------------------------------------------------------------------
/// Escaping distributes over appending one character.
pub proof fn lemma_esc_snoc(s: Seq<char>, c: char)
    ensures
        esc(s.push(c)) == esc(s) + esc_char(c),
    decreases s.len(),
{
    if s.len() == 0 {
        assert(s.push(c)[0] == c);
        assert(s.push(c).skip(1) =~= Seq::<char>::empty());
        assert(esc(Seq::<char>::empty()) == Seq::<char>::empty());
        assert(esc(s.push(c)) == esc_char(c) + Seq::<char>::empty());
        assert(esc(s.push(c)) =~= esc(s) + esc_char(c));
    } else {
        assert(s.push(c)[0] == s[0]);
        assert(s.push(c).skip(1) =~= s.skip(1).push(c));
        lemma_esc_snoc(s.skip(1), c);
        assert(esc(s.push(c)) == esc_char(s[0]) + esc(s.skip(1).push(c)));
        assert(esc(s.skip(1).push(c)) == esc(s.skip(1)) + esc_char(c));
        assert(esc_char(s[0]) + (esc(s.skip(1)) + esc_char(c)) =~= (esc_char(s[0]) + esc(
            s.skip(1),
        )) + esc_char(c));
        assert(esc(s.push(c)) =~= esc(s) + esc_char(c));
    }
}

/// The array body grows at its end by a comma (after the first element) and
/// the new element.
pub proof fn lemma_jarr_inner_snoc(ss: Seq<Seq<char>>, s: Seq<char>)
    ensures
        ss.len() == 0 ==> jarr_inner(ss.push(s)) == jstr(s),
        ss.len() > 0 ==> jarr_inner(ss.push(s)) == jarr_inner(ss) + seq![','] + jstr(s),
    decreases ss.len(),
{
    if ss.len() == 0 {
        assert(ss.push(s)[0] == s);
    } else if ss.len() == 1 {
        assert(ss.push(s)[0] == ss[0]);
        assert(ss.push(s).skip(1) =~= seq![s]);
        assert(jarr_inner(seq![s]) == jstr(s));
        assert(jarr_inner(ss.push(s)) =~= jarr_inner(ss) + seq![','] + jstr(s));
    } else {
        assert(ss.push(s)[0] == ss[0]);
        assert(ss.push(s).skip(1) =~= ss.skip(1).push(s));
        lemma_jarr_inner_snoc(ss.skip(1), s);
        assert(jarr_inner(ss.push(s)) =~= jarr_inner(ss) + seq![','] + jstr(s));
    }
}

/// The top-level body grows at its end in the same way.
pub proof fn lemma_jitems_inner_snoc(items: Seq<HupaView>, h: HupaView)
    ensures
        items.len() == 0 ==> jitems_inner(items.push(h)) == jitem(h),
        items.len() > 0 ==> jitems_inner(items.push(h)) == jitems_inner(items) + seq![',']
            + jitem(h),
    decreases items.len(),
{
    if items.len() == 0 {
        assert(items.push(h)[0] == h);
    } else if items.len() == 1 {
        assert(items.push(h)[0] == items[0]);
        assert(items.push(h).skip(1) =~= seq![h]);
        assert(jitems_inner(seq![h]) == jitem(h));
        assert(jitems_inner(items.push(h)) =~= jitems_inner(items) + seq![','] + jitem(h));
    } else {
        assert(items.push(h)[0] == items[0]);
        assert(items.push(h).skip(1) =~= items.skip(1).push(h));
        lemma_jitems_inner_snoc(items.skip(1), h);
        assert(jitems_inner(items.push(h)) =~= jitems_inner(items) + seq![','] + jitem(h));
    }
}

/// Writes the body of `s` to `out`, escaping as the canonical form asks.
fn emit_escaped(out: &mut String, s: &str)
    ensures
        final(out)@ == old(out)@ + esc(s@),
{
    let n = s.unicode_len();
    let mut i: usize = 0;
    proof {
        assert(s@.subrange(0, 0) =~= Seq::<char>::empty());
        assert(old(out)@ + esc(s@.subrange(0, 0)) =~= old(out)@);
    }
    while i < n
        invariant
            i <= n,
            n == s@.len(),
            out@ == old(out)@ + esc(s@.subrange(0, i as int)),
        decreases n - i,
    {
        let c = s.get_char(i);
        if c == '"' {
            push_char(out, '\\');
            push_char(out, '"');
        } else if c == '\\' {
            push_char(out, '\\');
            push_char(out, '\\');
        } else if c == '\n' {
            push_char(out, '\\');
            push_char(out, 'n');
        } else if c == '\t' {
            push_char(out, '\\');
            push_char(out, 't');
        } else if c == '\r' {
            push_char(out, '\\');
            push_char(out, 'r');
        } else {
            push_char(out, c);
        }
        proof {
            lemma_esc_snoc(s@.subrange(0, i as int), s@[i as int]);
            assert(s@.subrange(0, i + 1) =~= s@.subrange(0, i as int).push(s@[i as int]));
            assert(out@ =~= old(out)@ + esc(s@.subrange(0, i + 1)));
        }
        i = i + 1;
    }
    proof {
        assert(s@.subrange(0, n as int) =~= s@);
    }
}

/// Writes `s` as a quoted string.
fn emit_jstr(out: &mut String, s: &str)
    ensures
        final(out)@ == old(out)@ + jstr(s@),
{
    push_char(out, '"');
    emit_escaped(out, s);
    push_char(out, '"');
    proof {
        assert(out@ =~= old(out)@ + jstr(s@));
    }
}

/// Writes `ss` as an array of strings.
fn emit_jarr(out: &mut String, ss: &Vec<String>)
    ensures
        final(out)@ == old(out)@ + jarr(ss.deep_view()),
{
    push_char(out, '[');
    let mut k: usize = 0;
    proof {
        assert(ss.deep_view().subrange(0, 0) =~= Seq::<Seq<char>>::empty());
        assert(out@ =~= old(out)@ + seq!['['] + jarr_inner(ss.deep_view().subrange(0, 0)));
    }
    while k < ss.len()
        invariant
            k <= ss@.len(),
            ss.deep_view().len() == ss@.len(),
            out@ == old(out)@ + seq!['['] + jarr_inner(ss.deep_view().subrange(0, k as int)),
        decreases ss@.len() - k,
    {
        if k > 0 {
            push_char(out, ',');
        }
        emit_jstr(out, ss[k].as_str());
        proof {
            let dv = ss.deep_view();
            assert(dv[k as int] == ss@[k as int]@);
            lemma_jarr_inner_snoc(dv.subrange(0, k as int), dv[k as int]);
            assert(dv.subrange(0, k + 1) =~= dv.subrange(0, k as int).push(dv[k as int]));
            assert(out@ =~= old(out)@ + seq!['['] + jarr_inner(dv.subrange(0, k + 1)));
        }
        k = k + 1;
    }
    push_char(out, ']');
    proof {
        assert(ss.deep_view().subrange(0, ss@.len() as int) =~= ss.deep_view());
        assert(out@ =~= old(out)@ + jarr(ss.deep_view()));
    }
}

/// Writes one item as an object, appending to `out`.
#[verifier::rlimit(100)]
fn emit_jitem(out: &mut String, h: &Hupa)
    ensures
        final(out)@ == old(out)@ + jitem(h@),
{
    out.append("{\"name\":");
    emit_jstr(out, h.get_name().as_str());
    out.append(",\"desc\":");
    emit_jstr(out, h.get_desc().as_str());
    out.append(",\"category\":");
    emit_jarr(out, h.get_category());
    out.append(",\"backup_parent\":");
    emit_jstr(out, h.get_backup_parent().as_str());
    out.append(",\"origin\":");
    emit_jstr(out, h.get_origin().as_str());
    out.append(",\"autobackup\":");
    if h.is_autobackup_enabled() {
        out.append("true");
    } else {
        out.append("false");
    }
    if h.get_needed_vars().len() == 0 {
        out.append("}");
        proof {
            assert(h@.needed_vars.len() == 0);
        }
    } else {
        out.append(",\"needed_vars\":");
        emit_jarr(out, h.get_needed_vars());
        out.append("}");
    }
    proof {
        assert(out@ =~= old(out)@ + jitem(h@));
    }
}

/// The canonical form of a single item, as the store would hold it alone.
pub fn hupa_to_json(h: &Hupa) -> (r: String)
    ensures
        r@ == jitem(h@),
{
    let mut out = String::new();
    emit_jitem(&mut out, h);
    proof {
        assert(out@ =~= jitem(h@));
    }
    out
}

/// Encodes a whole store into its canonical form.
pub fn hupas_to_json(items: &Vec<Hupa>) -> (r: String)
    ensures
        r@ == json_of_hupas(items.deep_view()),
{
    let mut out = String::new();
    push_char(&mut out, '[');
    let mut k: usize = 0;
    proof {
        assert(items.deep_view().subrange(0, 0) =~= Seq::<HupaView>::empty());
        assert(out@ =~= seq!['['] + jitems_inner(items.deep_view().subrange(0, 0)));
    }
    while k < items.len()
        invariant
            k <= items@.len(),
            items.deep_view().len() == items@.len(),
            out@ == seq!['['] + jitems_inner(items.deep_view().subrange(0, k as int)),
        decreases items@.len() - k,
    {
        if k > 0 {
            push_char(&mut out, ',');
        }
        emit_jitem(&mut out, &items[k]);
        proof {
            let dv = items.deep_view();
            assert(dv[k as int] == items@[k as int]@);
            lemma_jitems_inner_snoc(dv.subrange(0, k as int), dv[k as int]);
            assert(dv.subrange(0, k + 1) =~= dv.subrange(0, k as int).push(dv[k as int]));
            assert(out@ =~= seq!['['] + jitems_inner(dv.subrange(0, k + 1)));
        }
        k = k + 1;
    }
    push_char(&mut out, ']');
    proof {
        assert(items.deep_view().subrange(0, items@.len() as int) =~= items.deep_view());
        assert(out@ =~= json_of_hupas(items.deep_view()));
    }
    out
}

} // verus!

verus! {

// ---------------------------------------------------------------------------
// Unique readability: two canonical texts that start the same way describe
// the same values. These lemmas carry both the decoder's completeness and
// the round-trip law.
// ---------------------------------------------------------------------------
/// `p` is a prefix of `y`.
pub open spec fn starts_with(y: Seq<char>, p: Seq<char>) -> bool {
    p.len() <= y.len() && y.subrange(0, p.len() as int) == p
}

/// A prefix made of two parts splits into a prefix and a prefix of the rest.
pub proof fn lemma_starts_with_concat(y: Seq<char>, a: Seq<char>, b: Seq<char>)
    requires
        starts_with(y, a + b),
    ensures
        starts_with(y, a),
        starts_with(y.skip(a.len() as int), b),
{
    let ab = a + b;
    assert(y.subrange(0, a.len() as int) =~= a) by {
        assert forall|k: int| 0 <= k < a.len() implies y.subrange(0, a.len() as int)[k] == a[k] by {
            assert(y.subrange(0, ab.len() as int)[k] == ab[k]);
        }
    }
    assert(y.skip(a.len() as int).subrange(0, b.len() as int) =~= b) by {
        assert forall|k: int| 0 <= k < b.len() implies y.skip(a.len() as int).subrange(
            0,
            b.len() as int,
        )[k] == b[k] by {
            assert(y.subrange(0, ab.len() as int)[a.len() + k] == ab[a.len() + k]);
        }
    }
}

/// And conversely.
pub proof fn lemma_concat_starts_with(y: Seq<char>, a: Seq<char>, b: Seq<char>)
    requires
        starts_with(y, a),
        starts_with(y.skip(a.len() as int), b),
    ensures
        starts_with(y, a + b),
{
    let ab = a + b;
    assert(y.subrange(0, ab.len() as int) =~= ab) by {
        assert forall|k: int| 0 <= k < ab.len() implies y.subrange(0, ab.len() as int)[k]
            == ab[k] by {
            if k < a.len() {
                assert(y.subrange(0, a.len() as int)[k] == a[k]);
            } else {
                assert(y.skip(a.len() as int).subrange(0, b.len() as int)[k - a.len()] == b[k
                    - a.len()]);
            }
        }
    }
}

/// Two escape forms at the head of the same text escape the same character.
proof fn lemma_esc_char_heads(c1: char, c2: char, y: Seq<char>)
    requires
        starts_with(y, esc_char(c1)),
        starts_with(y, esc_char(c2)),
    ensures
        c1 == c2,
{
    assert(y.subrange(0, esc_char(c1).len() as int)[0] == esc_char(c1)[0]);
    assert(y.subrange(0, esc_char(c2).len() as int)[0] == esc_char(c2)[0]);
    if esc_char(c1).len() == 2 {
        assert(y.subrange(0, 2)[1] == esc_char(c1)[1]);
    }
    if esc_char(c2).len() == 2 {
        assert(y.subrange(0, 2)[1] == esc_char(c2)[1]);
    }
}

/// Aligns a partially read string body against a complete quoted body: the
/// part already read is a prefix of the whole, and what follows it is the
/// escape form of the next character, or the closing quote at the end.
pub proof fn lemma_esc_align(a: Seq<char>, s: Seq<char>, y: Seq<char>)
    requires
        starts_with(y, esc(a)),
        starts_with(y, esc(s).push('"')),
    ensures
        a.len() <= s.len(),
        a == s.subrange(0, a.len() as int),
        a == s ==> esc(a).len() < y.len() && y[esc(a).len() as int] == '"',
        a != s ==> a.len() < s.len() && starts_with(
            y.skip(esc(a).len() as int),
            esc_char(s[a.len() as int]),
        ),
    decreases a.len(),
{
    assert(esc(s).push('"') =~= esc(s) + seq!['"']);
    if a.len() == 0 {
        assert(a == s.subrange(0, 0)) by {
            assert(a =~= s.subrange(0, 0));
        }
        if s.len() == 0 {
            assert(a =~= s);
            assert(y.subrange(0, 1)[0] == (esc(s) + seq!['"'])[0]);
            assert(y[0] == '"');
        } else {
            assert(esc(s) == esc_char(s[0]) + esc(s.skip(1)));
            assert(esc(s) + seq!['"'] =~= esc_char(s[0]) + (esc(s.skip(1)) + seq!['"']));
            lemma_starts_with_concat(y, esc_char(s[0]), esc(s.skip(1)) + seq!['"']);
            assert(y.skip(0) =~= y);
            assert(a != s);
        }
    } else {
        // both sides start with an escape form
        assert(esc(a) == esc_char(a[0]) + esc(a.skip(1)));
        lemma_starts_with_concat(y, esc_char(a[0]), esc(a.skip(1)));
        if s.len() == 0 {
            assert(y.subrange(0, 1)[0] == (esc(s) + seq!['"'])[0]);
            assert(y[0] == '"');
            assert(y.subrange(0, esc_char(a[0]).len() as int)[0] == esc_char(a[0])[0]);
            assert(false);
        } else {
            assert(esc(s) == esc_char(s[0]) + esc(s.skip(1)));
            assert(esc(s) + seq!['"'] =~= esc_char(s[0]) + (esc(s.skip(1)) + seq!['"']));
            lemma_starts_with_concat(y, esc_char(s[0]), esc(s.skip(1)) + seq!['"']);
            lemma_esc_char_heads(a[0], s[0], y);
            let l0 = esc_char(a[0]).len() as int;
            let y1 = y.skip(l0);
            assert(esc(s.skip(1)) + seq!['"'] =~= esc(s.skip(1)).push('"'));
            lemma_esc_align(a.skip(1), s.skip(1), y1);
            assert(a == s.subrange(0, a.len() as int)) by {
                assert forall|k: int| 0 <= k < a.len() implies a[k] == s.subrange(
                    0,
                    a.len() as int,
                )[k] by {
                    if k > 0 {
                        assert(a.skip(1)[k - 1] == s.skip(1).subrange(
                            0,
                            a.len() - 1,
                        )[k - 1]);
                    }
                }
                assert(a =~= s.subrange(0, a.len() as int));
            }
            if a.skip(1) == s.skip(1) {
                assert(a =~= s);
                assert(y1[esc(a.skip(1)).len() as int] == '"');
                assert(esc(a).len() == l0 + esc(a.skip(1)).len());
                assert(y[esc(a).len() as int] == '"');
            } else {
                assert(a != s) by {
                    if a == s {
                        assert(a.skip(1) =~= s.skip(1));
                    }
                }
                assert(s.skip(1)[a.len() - 1] == s[a.len() as int]);
                assert(y1.skip(esc(a.skip(1)).len() as int) =~= y.skip(esc(a).len() as int));
            }
        }
    }
}

/// Two quoted strings at the head of the same text are the same string.
pub proof fn lemma_jstr_align(a: Seq<char>, b: Seq<char>, y: Seq<char>)
    requires
        starts_with(y, jstr(a)),
        starts_with(y, jstr(b)),
    ensures
        a == b,
{
    assert(jstr(a) =~= seq!['"'] + (esc(a) + seq!['"']));
    assert(jstr(b) =~= seq!['"'] + (esc(b) + seq!['"']));
    lemma_starts_with_concat(y, seq!['"'], esc(a) + seq!['"']);
    lemma_starts_with_concat(y, seq!['"'], esc(b) + seq!['"']);
    let y1 = y.skip(1);
    assert(esc(a) + seq!['"'] =~= esc(a).push('"'));
    assert(esc(b) + seq!['"'] =~= esc(b).push('"'));
    lemma_starts_with_concat(y1, esc(a), seq!['"']);
    lemma_starts_with_concat(y1, esc(b), seq!['"']);
    lemma_esc_align(a, a, y1);
    lemma_esc_align(a, b, y1);
    if a != b {
        let w = y1.skip(esc(a).len() as int);
        assert(w[0] == '"');
        assert(w.subrange(0, esc_char(b[a.len() as int]).len() as int)[0] == esc_char(
            b[a.len() as int],
        )[0]);
        assert(false);
    }
}

} // verus!

verus! {

/// Two boolean literals at the head of the same text agree.
pub proof fn lemma_jbool_align(b1: bool, b2: bool, y: Seq<char>)
    requires
        starts_with(y, jbool(b1)),
        starts_with(y, jbool(b2)),
    ensures
        b1 == b2,
{
    reveal_strlit("true");
    reveal_strlit("false");
    if b1 != b2 {
        assert(y.subrange(0, jbool(b1).len() as int)[0] == jbool(b1)[0]);
        assert(y.subrange(0, jbool(b2).len() as int)[0] == jbool(b2)[0]);
        assert(false);
    }
}

/// Two arrays of strings at the head of the same text are the same array.
pub proof fn lemma_jarr_inner_align(a: Seq<Seq<char>>, b: Seq<Seq<char>>, y: Seq<char>)
    requires
        starts_with(y, jarr_inner(a).push(']')),
        starts_with(y, jarr_inner(b).push(']')),
    ensures
        a == b,
    decreases a.len(),
{
    if a.len() == 0 {
        assert(y.subrange(0, 1)[0] == ']');
        if b.len() > 0 {
            assert(starts_with(y, jstr(b[0]))) by {
                if b.len() == 1 {
                    assert(jarr_inner(b).push(']') =~= jstr(b[0]) + seq![']']);
                } else {
                    assert(jarr_inner(b).push(']') =~= jstr(b[0]) + (seq![','] + jarr_inner(
                        b.skip(1),
                    ).push(']')));
                }
                lemma_starts_with_concat(y, jstr(b[0]), y.subrange(jstr(b[0]).len() as int, y.len() as int));
                assert(jstr(b[0]).len() <= y.len());
                assert(y.subrange(0, jstr(b[0]).len() as int) =~= jstr(b[0])) by {
                    assert forall|k: int| 0 <= k < jstr(b[0]).len() implies y.subrange(
                        0,
                        jstr(b[0]).len() as int,
                    )[k] == jstr(b[0])[k] by {
                        assert(y.subrange(0, jarr_inner(b).push(']').len() as int)[k]
                            == jarr_inner(b).push(']')[k]);
                        if b.len() == 1 {
                            assert((jstr(b[0]) + seq![']'])[k] == jstr(b[0])[k]);
                        } else {
                            assert((jstr(b[0]) + (seq![','] + jarr_inner(b.skip(1)).push(
                                ']',
                            )))[k] == jstr(b[0])[k]);
                        }
                    }
                }
            }
            assert(jstr(b[0])[0] == '"') by {
                assert(jstr(b[0]) =~= seq!['"'] + (esc(b[0]) + seq!['"']));
            }
            assert(y.subrange(0, jstr(b[0]).len() as int)[0] == jstr(b[0])[0]);
            assert(false);
        }
        assert(a =~= b);
    } else {
        if b.len() == 0 {
            lemma_jarr_inner_align(b, a, y);
        } else {
            // both start with a quoted string
            if a.len() == 1 {
                assert(jarr_inner(a).push(']') =~= jstr(a[0]) + seq![']']);
                lemma_starts_with_concat(y, jstr(a[0]), seq![']']);
            } else {
                assert(jarr_inner(a).push(']') =~= jstr(a[0]) + (seq![','] + jarr_inner(
                    a.skip(1),
                ).push(']')));
                lemma_starts_with_concat(y, jstr(a[0]), seq![','] + jarr_inner(a.skip(1)).push(']'));
            }
            if b.len() == 1 {
                assert(jarr_inner(b).push(']') =~= jstr(b[0]) + seq![']']);
                lemma_starts_with_concat(y, jstr(b[0]), seq![']']);
            } else {
                assert(jarr_inner(b).push(']') =~= jstr(b[0]) + (seq![','] + jarr_inner(
                    b.skip(1),
                ).push(']')));
                lemma_starts_with_concat(y, jstr(b[0]), seq![','] + jarr_inner(b.skip(1)).push(']'));
            }
            lemma_jstr_align(a[0], b[0], y);
            assert(jstr(a[0]) == jstr(b[0]));
            let ln = jstr(a[0]).len() as int;
            let y1 = y.skip(ln);
            if a.len() == 1 && b.len() == 1 {
                assert(a =~= b);
            } else if a.len() == 1 {
                assert(y1.subrange(0, 1)[0] == ']');
                assert(y1.subrange(0, (seq![','] + jarr_inner(b.skip(1)).push(']')).len() as int)[0]
                    == ',');
                assert(false);
            } else if b.len() == 1 {
                assert(y1.subrange(0, 1)[0] == ']');
                assert(y1.subrange(0, (seq![','] + jarr_inner(a.skip(1)).push(']')).len() as int)[0]
                    == ',');
                assert(false);
            } else {
                lemma_starts_with_concat(y1, seq![','], jarr_inner(a.skip(1)).push(']'));
                lemma_starts_with_concat(y1, seq![','], jarr_inner(b.skip(1)).push(']'));
                lemma_jarr_inner_align(a.skip(1), b.skip(1), y1.skip(1));
                assert forall|k: int| 0 <= k < a.len() implies a[k] == b[k] by {
                    if k > 0 {
                        assert(a.skip(1)[k - 1] == b.skip(1)[k - 1]);
                    }
                }
                assert(a =~= b);
            }
        }
    }
}

/// Two whole string arrays at the head of the same text are the same array.
pub proof fn lemma_jarr_align(a: Seq<Seq<char>>, b: Seq<Seq<char>>, y: Seq<char>)
    requires
        starts_with(y, jarr(a)),
        starts_with(y, jarr(b)),
    ensures
        a == b,
{
    assert(jarr(a) =~= seq!['['] + jarr_inner(a).push(']'));
    assert(jarr(b) =~= seq!['['] + jarr_inner(b).push(']'));
    lemma_starts_with_concat(y, seq!['['], jarr_inner(a).push(']'));
    lemma_starts_with_concat(y, seq!['['], jarr_inner(b).push(']'));
    lemma_jarr_inner_align(a, b, y.skip(1));
}

/// Two object tails at the head of the same text agree.
proof fn lemma_jvars_align(v1: Seq<Seq<char>>, v2: Seq<Seq<char>>, y: Seq<char>)
    requires
        starts_with(y, jvars(v1)),
        starts_with(y, jvars(v2)),
    ensures
        v1 == v2,
    decreases v1.len(),
{
    reveal_strlit("}");
    reveal_strlit(",\"needed_vars\":");
    if v1.len() == 0 && v2.len() == 0 {
        assert(v1 =~= v2);
    } else if v1.len() == 0 {
        assert(y.subrange(0, "}"@.len() as int)[0] == '}');
        assert(y.subrange(0, jvars(v2).len() as int)[0] == jvars(v2)[0]);
        assert(jvars(v2) =~= ",\"needed_vars\":"@ + (jarr(v2) + "}"@));
        assert(false);
    } else if v2.len() == 0 {
        lemma_jvars_align(v2, v1, y);
    } else {
        let lit = ",\"needed_vars\":"@;
        assert(jvars(v1) =~= lit + (jarr(v1) + "}"@));
        assert(jvars(v2) =~= lit + (jarr(v2) + "}"@));
        lemma_starts_with_concat(y, lit, jarr(v1) + "}"@);
        lemma_starts_with_concat(y, lit, jarr(v2) + "}"@);
        let y1 = y.skip(lit.len() as int);
        lemma_starts_with_concat(y1, jarr(v1), "}"@);
        lemma_starts_with_concat(y1, jarr(v2), "}"@);
        lemma_jarr_align(v1, v2, y1);
    }
}

/// The components of an item's canonical form, each at its offset.
#[verifier::rlimit(100)]
pub proof fn lemma_jitem_parts(h: HupaView, y: Seq<char>)
    requires
        starts_with(y, jitem(h)),
    ensures
        ({
            let y1 = y.skip("{\"name\":"@.len() as int);
            let y2 = y1.skip(jstr(h.name).len() as int);
            let y3 = y2.skip(",\"desc\":"@.len() as int);
            let y4 = y3.skip(jstr(h.desc).len() as int);
            let y5 = y4.skip(",\"category\":"@.len() as int);
            let y6 = y5.skip(jarr(h.categories).len() as int);
            let y7 = y6.skip(",\"backup_parent\":"@.len() as int);
            let y8 = y7.skip(jstr(h.backup_parent).len() as int);
            let y9 = y8.skip(",\"origin\":"@.len() as int);
            let y10 = y9.skip(jstr(h.origin).len() as int);
            let y11 = y10.skip(",\"autobackup\":"@.len() as int);
            let y12 = y11.skip(jbool(h.autobackup).len() as int);
            starts_with(y, "{\"name\":"@) && starts_with(y1, jstr(h.name)) && starts_with(
                y2,
                ",\"desc\":"@,
            ) && starts_with(y3, jstr(h.desc)) && starts_with(y4, ",\"category\":"@)
                && starts_with(y5, jarr(h.categories)) && starts_with(
                y6,
                ",\"backup_parent\":"@,
            ) && starts_with(y7, jstr(h.backup_parent)) && starts_with(y8, ",\"origin\":"@)
                && starts_with(y9, jstr(h.origin)) && starts_with(y10, ",\"autobackup\":"@)
                && starts_with(y11, jbool(h.autobackup)) && starts_with(
                y12,
                jvars(h.needed_vars),
            )
        }),
{
    let a = "{\"name\":"@;
    let c = ",\"desc\":"@;
    let e = ",\"category\":"@;
    let g = ",\"backup_parent\":"@;
    let i = ",\"origin\":"@;
    let k = ",\"autobackup\":"@;
    let rest12 = jvars(h.needed_vars);
    let rest11 = jbool(h.autobackup) + rest12;
    let rest10 = k + rest11;
    let rest9 = jstr(h.origin) + rest10;
    let rest8 = i + rest9;
    let rest7 = jstr(h.backup_parent) + rest8;
    let rest6 = g + rest7;
    let rest5 = jarr(h.categories) + rest6;
    let rest4 = e + rest5;
    let rest3 = jstr(h.desc) + rest4;
    let rest2 = c + rest3;
    let rest1 = jstr(h.name) + rest2;
    assert(jitem(h) =~= a + rest1);
    lemma_starts_with_concat(y, a, rest1);
    let y1 = y.skip(a.len() as int);
    lemma_starts_with_concat(y1, jstr(h.name), rest2);
    let y2 = y1.skip(jstr(h.name).len() as int);
    lemma_starts_with_concat(y2, c, rest3);
    let y3 = y2.skip(c.len() as int);
    lemma_starts_with_concat(y3, jstr(h.desc), rest4);
    let y4 = y3.skip(jstr(h.desc).len() as int);
    lemma_starts_with_concat(y4, e, rest5);
    let y5 = y4.skip(e.len() as int);
    lemma_starts_with_concat(y5, jarr(h.categories), rest6);
    let y6 = y5.skip(jarr(h.categories).len() as int);
    lemma_starts_with_concat(y6, g, rest7);
    let y7 = y6.skip(g.len() as int);
    lemma_starts_with_concat(y7, jstr(h.backup_parent), rest8);
    let y8 = y7.skip(jstr(h.backup_parent).len() as int);
    lemma_starts_with_concat(y8, i, rest9);
    let y9 = y8.skip(i.len() as int);
    lemma_starts_with_concat(y9, jstr(h.origin), rest10);
    let y10 = y9.skip(jstr(h.origin).len() as int);
    lemma_starts_with_concat(y10, k, rest11);
    let y11 = y10.skip(k.len() as int);
    lemma_starts_with_concat(y11, jbool(h.autobackup), rest12);
}

/// Two items at the head of the same text are the same item.
pub proof fn lemma_jitem_align(h1: HupaView, h2: HupaView, y: Seq<char>)
    requires
        starts_with(y, jitem(h1)),
        starts_with(y, jitem(h2)),
    ensures
        h1 == h2,
{
    lemma_jitem_parts(h1, y);
    lemma_jitem_parts(h2, y);
    let y1 = y.skip("{\"name\":"@.len() as int);
    lemma_jstr_align(h1.name, h2.name, y1);
    let y2 = y1.skip(jstr(h1.name).len() as int);
    let y3 = y2.skip(",\"desc\":"@.len() as int);
    lemma_jstr_align(h1.desc, h2.desc, y3);
    let y4 = y3.skip(jstr(h1.desc).len() as int);
    let y5 = y4.skip(",\"category\":"@.len() as int);
    lemma_jarr_align(h1.categories, h2.categories, y5);
    let y6 = y5.skip(jarr(h1.categories).len() as int);
    let y7 = y6.skip(",\"backup_parent\":"@.len() as int);
    lemma_jstr_align(h1.backup_parent, h2.backup_parent, y7);
    let y8 = y7.skip(jstr(h1.backup_parent).len() as int);
    let y9 = y8.skip(",\"origin\":"@.len() as int);
    lemma_jstr_align(h1.origin, h2.origin, y9);
    let y10 = y9.skip(jstr(h1.origin).len() as int);
    let y11 = y10.skip(",\"autobackup\":"@.len() as int);
    lemma_jbool_align(h1.autobackup, h2.autobackup, y11);
    let y12 = y11.skip(jbool(h1.autobackup).len() as int);
    lemma_jvars_align(h1.needed_vars, h2.needed_vars, y12);
    assert(h1 =~= h2);
}

/// Two item lists at the head of the same text are the same list.
#[verifier::rlimit(100)]
pub proof fn lemma_jitems_inner_align(a: Seq<HupaView>, b: Seq<HupaView>, y: Seq<char>)
    requires
        starts_with(y, jitems_inner(a).push(']')),
        starts_with(y, jitems_inner(b).push(']')),
    ensures
        a == b,
    decreases a.len(),
{
    if a.len() == 0 {
        assert(y.subrange(0, 1)[0] == ']');
        if b.len() > 0 {
            assert(starts_with(y, jitem(b[0]))) by {
                if b.len() == 1 {
                    assert(jitems_inner(b).push(']') =~= jitem(b[0]) + seq![']']);
                    lemma_starts_with_concat(y, jitem(b[0]), seq![']']);
                } else {
                    assert(jitems_inner(b).push(']') =~= jitem(b[0]) + (seq![','] + jitems_inner(
                        b.skip(1),
                    ).push(']')));
                    lemma_starts_with_concat(y, jitem(b[0]), seq![','] + jitems_inner(
                        b.skip(1),
                    ).push(']'));
                }
            }
            reveal_strlit("{\"name\":");
            assert(jitem(b[0])[0] == '{') by {
                let rest = jstr(b[0].name) + (",\"desc\":"@ + (jstr(b[0].desc) + (",\"category\":"@
                    + (jarr(b[0].categories) + (",\"backup_parent\":"@ + (jstr(
                    b[0].backup_parent,
                ) + (",\"origin\":"@ + (jstr(b[0].origin) + (",\"autobackup\":"@ + (jbool(
                    b[0].autobackup,
                ) + jvars(b[0].needed_vars)))))))))));
                assert(jitem(b[0]) =~= "{\"name\":"@ + rest);
                assert(("{\"name\":"@ + rest)[0] == '{');
            }
            assert(y.subrange(0, jitem(b[0]).len() as int)[0] == jitem(b[0])[0]);
            assert(false);
        }
        assert(a =~= b);
    } else {
        if b.len() == 0 {
            lemma_jitems_inner_align(b, a, y);
        } else {
            if a.len() == 1 {
                assert(jitems_inner(a).push(']') =~= jitem(a[0]) + seq![']']);
                lemma_starts_with_concat(y, jitem(a[0]), seq![']']);
            } else {
                assert(jitems_inner(a).push(']') =~= jitem(a[0]) + (seq![','] + jitems_inner(
                    a.skip(1),
                ).push(']')));
                lemma_starts_with_concat(y, jitem(a[0]), seq![','] + jitems_inner(a.skip(1)).push(
                    ']',
                ));
            }
            if b.len() == 1 {
                assert(jitems_inner(b).push(']') =~= jitem(b[0]) + seq![']']);
                lemma_starts_with_concat(y, jitem(b[0]), seq![']']);
            } else {
                assert(jitems_inner(b).push(']') =~= jitem(b[0]) + (seq![','] + jitems_inner(
                    b.skip(1),
                ).push(']')));
                lemma_starts_with_concat(y, jitem(b[0]), seq![','] + jitems_inner(b.skip(1)).push(
                    ']',
                ));
            }
            lemma_jitem_align(a[0], b[0], y);
            assert(jitem(a[0]) == jitem(b[0]));
            let ln = jitem(a[0]).len() as int;
            let y1 = y.skip(ln);
            if a.len() == 1 && b.len() == 1 {
                assert(a =~= b);
            } else if a.len() == 1 {
                assert(y1.subrange(0, 1)[0] == ']');
                assert(y1.subrange(0, (seq![','] + jitems_inner(b.skip(1)).push(
                    ']',
                )).len() as int)[0] == ',');
                assert(false);
            } else if b.len() == 1 {
                assert(y1.subrange(0, 1)[0] == ']');
                assert(y1.subrange(0, (seq![','] + jitems_inner(a.skip(1)).push(
                    ']',
                )).len() as int)[0] == ',');
                assert(false);
            } else {
                lemma_starts_with_concat(y1, seq![','], jitems_inner(a.skip(1)).push(']'));
                lemma_starts_with_concat(y1, seq![','], jitems_inner(b.skip(1)).push(']'));
                lemma_jitems_inner_align(a.skip(1), b.skip(1), y1.skip(1));
                assert forall|k: int| 0 <= k < a.len() implies a[k] == b[k] by {
                    if k > 0 {
                        assert(a.skip(1)[k - 1] == b.skip(1)[k - 1]);
                    }
                }
                assert(a =~= b);
            }
        }
    }
}

/// The canonical form is injective: equal texts mean equal stores.
pub proof fn lemma_json_of_hupas_injective(a: Seq<HupaView>, b: Seq<HupaView>)
    requires
        json_of_hupas(a) == json_of_hupas(b),
    ensures
        a == b,
{
    let y = json_of_hupas(a);
    assert(starts_with(y, y)) by {
        assert(y.subrange(0, y.len() as int) =~= y);
    }
    assert(json_of_hupas(a) =~= seq!['['] + jitems_inner(a).push(']'));
    assert(json_of_hupas(b) =~= seq!['['] + jitems_inner(b).push(']'));
    lemma_starts_with_concat(y, seq!['['], jitems_inner(a).push(']'));
    lemma_starts_with_concat(y, seq!['['], jitems_inner(b).push(']'));
    lemma_jitems_inner_align(a, b, y.skip(1));
}

/// A document whose top level is not a sequence — one that does not even
/// open with a bracket once surrounding whitespace is set aside — is no
/// store: decoding it can only fail, whatever else it holds.
pub proof fn lemma_non_sequence_rejected(text: Seq<char>)
    requires
        trimmed(text).len() == 0 || trimmed(text)[0] != '[',
    ensures
        decoded(text) is None,
{
    if decoded(text) is Some {
        let vs = choose|items: Seq<HupaView>|
            all_wf(items) && json_of_hupas(items) == trimmed(text);
        assert(json_of_hupas(vs) =~= seq!['['] + jitems_inner(vs).push(']'));
        assert(trimmed(text)[0] == '[');
        assert(false);
    }
}

/// Round trip: decoding the canonical form of any well-formed store gives
/// back exactly that store, field for field.
pub proof fn lemma_metadata_round_trip(items: Seq<HupaView>)
    requires
        all_wf(items),
    ensures
        decoded(json_of_hupas(items)) == Option::Some(items),
{
    let text = json_of_hupas(items);
    lemma_trim_canonical(items);
    assert(all_wf(items) && json_of_hupas(items) == trimmed(text));
    let w = choose|other: Seq<HupaView>|
        all_wf(other) && json_of_hupas(other) == trimmed(text);
    lemma_json_of_hupas_injective(w, items);
}

} // verus!

verus! {

/// Whitespace as JSON knows it between tokens.
pub open spec fn is_ws(c: char) -> bool {
    c == ' ' || c == '\t' || c == '\n' || c == '\r'
}

/// How many whitespace characters the text begins with.
pub open spec fn ws_prefix_len(t: Seq<char>) -> nat
    decreases t.len(),
{
    if t.len() > 0 && is_ws(t[0]) {
        1 + ws_prefix_len(t.skip(1))
    } else {
        0
    }
}

/// How many whitespace characters the text ends with.
pub open spec fn ws_suffix_len(t: Seq<char>) -> nat
    decreases t.len(),
{
    if t.len() > 0 && is_ws(t.last()) {
        1 + ws_suffix_len(t.drop_last())
    } else {
        0
    }
}

/// The document with surrounding whitespace removed; whitespace inside it
/// stays as it is.
pub open spec fn trimmed(t: Seq<char>) -> Seq<char> {
    let s = ws_prefix_len(t);
    let r = ws_suffix_len(t);
    if s + r <= t.len() {
        t.subrange(s as int, t.len() - r)
    } else {
        Seq::empty()
    }
}

/// The canonical form carries no whitespace at its edges: trimming leaves
/// it untouched.
pub proof fn lemma_trim_canonical(items: Seq<HupaView>)
    ensures
        trimmed(json_of_hupas(items)) == json_of_hupas(items),
{
    let t = json_of_hupas(items);
    assert(t[0] == '[') by {
        assert(t =~= seq!['['] + (jitems_inner(items) + seq![']']));
    }
    assert(t.last() == ']') by {
        assert(t =~= (seq!['['] + jitems_inner(items)) + seq![']']);
    }
    assert(ws_prefix_len(t) == 0);
    assert(ws_suffix_len(t) == 0);
    assert(t.subrange(0, t.len() as int) =~= t);
}

} // verus!
