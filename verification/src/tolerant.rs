//! The tolerant reading of the metadata store.
//!
//! Where the canonical decoder demands the store exactly as the encoder
//! writes it, this module defines — and implements — the tolerant reading:
//! whitespace between tokens, object keys in any order, the standard JSON
//! string escapes (`\" \\ \/ \b \f \n \r \t \uXXXX`), and a `needed_vars`
//! whose value is malformed defaulting to the empty sequence, and keys
//! outside the schema skipped for forward compatibility. A document is
//! refused exactly when its top-level value is not a sequence, a member is
//! missing one of the six required keys or carries one of the wrong kind,
//! a path field is empty, a key repeats, or the text is not a document at
//! all.
//!
//! The grammar is deterministic, so it is written as spec functions over
//! the text, and each executable parser is proved to compute exactly its
//! spec function.

use vstd::prelude::*;

use crate::codec::{all_wf, is_ws, starts_with};
use crate::decode::expect_lit;
use crate::item::{hupa_wf, Hupa, HupaView};
use crate::text::push_char;

verus! {

/// The first position at or after `i` that does not hold whitespace.
pub open spec fn scan_ws(s: Seq<char>, i: int) -> int
    decreases s.len() - i,
{
    if 0 <= i < s.len() && is_ws(s[i]) {
        scan_ws(s, i + 1)
    } else {
        i
    }
}

/// The value of a hexadecimal digit, or a marker below zero.
pub open spec fn hex_val(c: char) -> int {
    let n = c as u32;
    if 48 <= n <= 57 {
        n - 48
    } else if 97 <= n <= 102 {
        n - 87
    } else if 65 <= n <= 70 {
        n - 55
    } else {
        -1
    }
}

/// A Unicode scalar value: what a character may hold.
pub open spec fn valid_scalar(code: int) -> bool {
    (0 <= code < 0xD800) || (0xE000 <= code <= 0x10FFFF)
}

/// The character with the given scalar value.
pub open spec fn char_of_code(code: int) -> char {
    choose|c: char| (#[trigger] (c as u32)) == code
}

/// Each scalar value names one character.
pub proof fn lemma_char_code_unique(c1: char, c2: char)
    requires
        c1 as u32 == c2 as u32,
    ensures
        c1 == c2,
{
}

/// Relies on `char::from_u32`: `Some` exactly for code points that are not
/// surrogates and not above the Unicode maximum, and the returned character
/// has the given scalar value.
#[verifier::external_body]
fn char_from_code(code: u32) -> (r: Option<char>)
    ensures
        r is Some <==> valid_scalar(code as int),
        r matches Option::Some(c) ==> c as u32 == code,
{
    char::from_u32(code)
}

/// A parsed string body grows at the front by the characters read so far.
pub open spec fn with_prefix(p: Seq<char>, o: Option<(Seq<char>, int)>) -> Option<
    (Seq<char>, int),
> {
    match o {
        Option::Some(vj) => Option::Some((p + vj.0, vj.1)),
        Option::None => Option::None,
    }
}

/// A JSON string body starting inside the quotes at `i`, with the standard
/// escapes: the characters it spells and the position after the closing
/// quote.
pub open spec fn scan_string(s: Seq<char>, i: int) -> Option<(Seq<char>, int)>
    decreases s.len() - i,
{
    if !(0 <= i < s.len()) {
        Option::None
    } else if s[i] == '"' {
        Option::Some((Seq::empty(), i + 1))
    } else if s[i] == '\\' {
        if i + 1 < s.len() {
            let d = s[i + 1];
            if d == '"' || d == '\\' || d == '/' {
                with_prefix(seq![d], scan_string(s, i + 2))
            } else if d == 'n' {
                with_prefix(seq!['\n'], scan_string(s, i + 2))
            } else if d == 't' {
                with_prefix(seq!['\t'], scan_string(s, i + 2))
            } else if d == 'r' {
                with_prefix(seq!['\r'], scan_string(s, i + 2))
            } else if d == 'b' {
                with_prefix(seq!['\u{8}'], scan_string(s, i + 2))
            } else if d == 'f' {
                with_prefix(seq!['\u{c}'], scan_string(s, i + 2))
            } else if d == 'u' {
                if i + 6 <= s.len() && hex_val(s[i + 2]) >= 0 && hex_val(s[i + 3]) >= 0 && hex_val(
                    s[i + 4],
                ) >= 0 && hex_val(s[i + 5]) >= 0 {
                    let code = hex_val(s[i + 2]) * 4096 + hex_val(s[i + 3]) * 256 + hex_val(
                        s[i + 4],
                    ) * 16 + hex_val(s[i + 5]);
                    if valid_scalar(code) {
                        with_prefix(seq![char_of_code(code)], scan_string(s, i + 6))
                    } else {
                        Option::None
                    }
                } else {
                    Option::None
                }
            } else {
                Option::None
            }
        } else {
            Option::None
        }
    } else if (s[i] as u32) < 32 {
        Option::None
    } else {
        with_prefix(seq![s[i]], scan_string(s, i + 1))
    }
}

/// A boolean literal at `i`.
pub open spec fn scan_bool(s: Seq<char>, i: int) -> Option<(bool, int)> {
    if i + 4 <= s.len() && s.subrange(i, i + 4) == "true"@ {
        Option::Some((true, i + 4))
    } else if i + 5 <= s.len() && s.subrange(i, i + 5) == "false"@ {
        Option::Some((false, i + 5))
    } else {
        Option::None
    }
}

/// Whether `c` ends an unquoted value.
pub open spec fn is_delim(c: char) -> bool {
    c == ',' || c == '}' || c == ']'
}

/// The end of a run of unquoted value characters.
pub open spec fn scan_prim_end(s: Seq<char>, i: int) -> int
    decreases s.len() - i,
{
    if 0 <= i < s.len() && !is_delim(s[i]) && !is_ws(s[i]) {
        scan_prim_end(s, i + 1)
    } else {
        i
    }
}

/// Scans past one bracketed or quoted value, counting brackets outside
/// strings and honouring backslashes inside them; the position after the
/// value, if it closes before the text ends.
pub open spec fn scan_blob_from(
    s: Seq<char>,
    i: int,
    depth: nat,
    instr: bool,
    escaped: bool,
) -> Option<int>
    decreases s.len() - i,
{
    if !(0 <= i < s.len()) {
        Option::None
    } else if instr {
        if escaped {
            scan_blob_from(s, i + 1, depth, true, false)
        } else if s[i] == '\\' {
            scan_blob_from(s, i + 1, depth, true, true)
        } else if s[i] == '"' {
            if depth == 0 {
                Option::Some(i + 1)
            } else {
                scan_blob_from(s, i + 1, depth, false, false)
            }
        } else {
            scan_blob_from(s, i + 1, depth, true, false)
        }
    } else if s[i] == '[' || s[i] == '{' {
        scan_blob_from(s, i + 1, depth + 1, false, false)
    } else if s[i] == ']' || s[i] == '}' {
        if depth == 1 {
            Option::Some(i + 1)
        } else if depth == 0 {
            Option::None
        } else {
            scan_blob_from(s, i + 1, (depth - 1) as nat, false, false)
        }
    } else if s[i] == '"' {
        scan_blob_from(s, i + 1, depth, true, false)
    } else {
        scan_blob_from(s, i + 1, depth, false, false)
    }
}

/// Scans past one value of any kind at `i`, without reading it.
pub open spec fn scan_blob(s: Seq<char>, i: int) -> Option<int> {
    if !(0 <= i < s.len()) {
        Option::None
    } else if s[i] == '[' || s[i] == '{' {
        scan_blob_from(s, i + 1, 1, false, false)
    } else if s[i] == '"' {
        scan_blob_from(s, i + 1, 0, true, false)
    } else if !is_delim(s[i]) && !is_ws(s[i]) && s[i] != ':' {
        Option::Some(scan_prim_end(s, i + 1))
    } else {
        Option::None
    }
}

} // verus!

verus! {

/// An array of strings, read from just after its opening bracket (or a
/// comma); `first` says no element has been read yet, so the array may
/// close empty.
pub open spec fn scan_string_array(
    s: Seq<char>,
    i: int,
    acc: Seq<Seq<char>>,
    first: bool,
) -> Option<(Seq<Seq<char>>, int)>
    decreases s.len() - i,
{
    let p = scan_ws(s, i);
    if !(0 <= p < s.len()) {
        Option::None
    } else if s[p] == ']' && first {
        Option::Some((acc, p + 1))
    } else if s[p] == '"' {
        match scan_string(s, p + 1) {
            Option::Some(vj) => {
                let p2 = scan_ws(s, vj.1);
                if 0 <= p2 < s.len() && s[p2] == ',' {
                    if p2 + 1 > i {
                        scan_string_array(s, p2 + 1, acc.push(vj.0), false)
                    } else {
                        Option::None
                    }
                } else if 0 <= p2 < s.len() && s[p2] == ']' {
                    Option::Some((acc.push(vj.0), p2 + 1))
                } else {
                    Option::None
                }
            },
            Option::None => Option::None,
        }
    } else {
        Option::None
    }
}

/// The fields of one member object as they are gathered: each key's value
/// once it has been read.
pub struct FieldsView {
    pub name: Option<Seq<char>>,
    pub desc: Option<Seq<char>>,
    pub categories: Option<Seq<Seq<char>>>,
    pub backup_parent: Option<Seq<char>>,
    pub origin: Option<Seq<char>>,
    pub autobackup: Option<bool>,
    pub needed_vars: Option<Seq<Seq<char>>>,
}

/// No field read yet.
pub open spec fn fields_none() -> FieldsView {
    FieldsView {
        name: Option::None,
        desc: Option::None,
        categories: Option::None,
        backup_parent: Option::None,
        origin: Option::None,
        autobackup: Option::None,
        needed_vars: Option::None,
    }
}

/// One key's value at `p3`, entered into the gathered fields: a string,
/// string array or boolean as the key demands, each key at most once, no
/// key outside the schema; a malformed `needed_vars` value is skipped and
/// stands for the empty sequence.
pub open spec fn scan_field_value(
    s: Seq<char>,
    p3: int,
    key: Seq<char>,
    f: FieldsView,
) -> Option<(FieldsView, int)> {
    if key == "name"@ {
        if f.name is Some {
            Option::None
        } else if 0 <= p3 < s.len() && s[p3] == '"' {
            match scan_string(s, p3 + 1) {
                Option::Some(vj) => Option::Some(
                    (FieldsView { name: Option::Some(vj.0), ..f }, vj.1),
                ),
                Option::None => Option::None,
            }
        } else {
            Option::None
        }
    } else if key == "desc"@ {
        if f.desc is Some {
            Option::None
        } else if 0 <= p3 < s.len() && s[p3] == '"' {
            match scan_string(s, p3 + 1) {
                Option::Some(vj) => Option::Some(
                    (FieldsView { desc: Option::Some(vj.0), ..f }, vj.1),
                ),
                Option::None => Option::None,
            }
        } else {
            Option::None
        }
    } else if key == "category"@ {
        if f.categories is Some {
            Option::None
        } else if 0 <= p3 < s.len() && s[p3] == '[' {
            match scan_string_array(s, p3 + 1, Seq::empty(), true) {
                Option::Some(vj) => Option::Some(
                    (FieldsView { categories: Option::Some(vj.0), ..f }, vj.1),
                ),
                Option::None => Option::None,
            }
        } else {
            Option::None
        }
    } else if key == "backup_parent"@ {
        if f.backup_parent is Some {
            Option::None
        } else if 0 <= p3 < s.len() && s[p3] == '"' {
            match scan_string(s, p3 + 1) {
                Option::Some(vj) => Option::Some(
                    (FieldsView { backup_parent: Option::Some(vj.0), ..f }, vj.1),
                ),
                Option::None => Option::None,
            }
        } else {
            Option::None
        }
    } else if key == "origin"@ {
        if f.origin is Some {
            Option::None
        } else if 0 <= p3 < s.len() && s[p3] == '"' {
            match scan_string(s, p3 + 1) {
                Option::Some(vj) => Option::Some(
                    (FieldsView { origin: Option::Some(vj.0), ..f }, vj.1),
                ),
                Option::None => Option::None,
            }
        } else {
            Option::None
        }
    } else if key == "autobackup"@ {
        if f.autobackup is Some {
            Option::None
        } else {
            match scan_bool(s, p3) {
                Option::Some(bj) => Option::Some(
                    (FieldsView { autobackup: Option::Some(bj.0), ..f }, bj.1),
                ),
                Option::None => Option::None,
            }
        }
    } else if key == "needed_vars"@ {
        if f.needed_vars is Some {
            Option::None
        } else if 0 <= p3 < s.len() && s[p3] == '[' {
            match scan_string_array(s, p3 + 1, Seq::empty(), true) {
                Option::Some(vj) => Option::Some(
                    (FieldsView { needed_vars: Option::Some(vj.0), ..f }, vj.1),
                ),
                Option::None => match scan_blob(s, p3) {
                    Option::Some(j2) => Option::Some(
                        (FieldsView { needed_vars: Option::Some(Seq::empty()), ..f }, j2),
                    ),
                    Option::None => Option::None,
                },
            }
        } else {
            match scan_blob(s, p3) {
                Option::Some(j2) => Option::Some(
                    (FieldsView { needed_vars: Option::Some(Seq::empty()), ..f }, j2),
                ),
                Option::None => Option::None,
            }
        }
    } else {
        // a key outside the schema: its value is skipped, for forward
        // compatibility, as the store carries no version field
        match scan_blob(s, p3) {
            Option::Some(j2) => Option::Some((f, j2)),
            Option::None => Option::None,
        }
    }
}

/// The members of one object, read from just after its opening brace (or a
/// comma); `first` says no member has been read yet, so the object may
/// close empty.
pub open spec fn scan_fields(s: Seq<char>, i: int, f: FieldsView, first: bool) -> Option<
    (FieldsView, int),
>
    decreases s.len() - i,
{
    let p = scan_ws(s, i);
    if !(0 <= p < s.len()) {
        Option::None
    } else if s[p] == '}' && first {
        Option::Some((f, p + 1))
    } else if s[p] == '"' {
        match scan_string(s, p + 1) {
            Option::Some(kj) => {
                let p2 = scan_ws(s, kj.1);
                if 0 <= p2 < s.len() && s[p2] == ':' {
                    let p3 = scan_ws(s, p2 + 1);
                    match scan_field_value(s, p3, kj.0, f) {
                        Option::Some(fj) => {
                            let p4 = scan_ws(s, fj.1);
                            if 0 <= p4 < s.len() && s[p4] == ',' {
                                if p4 + 1 > i {
                                    scan_fields(s, p4 + 1, fj.0, false)
                                } else {
                                    Option::None
                                }
                            } else if 0 <= p4 < s.len() && s[p4] == '}' {
                                Option::Some((fj.0, p4 + 1))
                            } else {
                                Option::None
                            }
                        },
                        Option::None => Option::None,
                    }
                } else {
                    Option::None
                }
            },
            Option::None => Option::None,
        }
    } else {
        Option::None
    }
}

/// One member object at `i`: its fields validated — each required key
/// present with the right kind, the path fields non-empty — and
/// `needed_vars` as stored, the empty sequence when absent or malformed.
pub open spec fn scan_item(s: Seq<char>, i: int) -> Option<(HupaView, int)> {
    if 0 <= i < s.len() && s[i] == '{' {
        match scan_fields(s, i + 1, fields_none(), true) {
            Option::Some(fj) => {
                let f = fj.0;
                if f.name is Some && f.desc is Some && f.categories is Some
                    && f.backup_parent is Some && f.origin is Some && f.autobackup is Some
                    && f.origin->0.len() > 0 && f.backup_parent->0.len() > 0 {
                    Option::Some(
                        (
                            HupaView {
                                name: f.name->0,
                                desc: f.desc->0,
                                categories: f.categories->0,
                                backup_parent: f.backup_parent->0,
                                origin: f.origin->0,
                                autobackup: f.autobackup->0,
                                needed_vars: match f.needed_vars {
                                    Option::Some(vs) => vs,
                                    Option::None => Seq::empty(),
                                },
                            },
                            fj.1,
                        ),
                    )
                } else {
                    Option::None
                }
            },
            Option::None => Option::None,
        }
    } else {
        Option::None
    }
}

/// The members of the top-level sequence, read from just after its opening
/// bracket (or a comma).
pub open spec fn scan_items(s: Seq<char>, i: int, acc: Seq<HupaView>, first: bool) -> Option<
    (Seq<HupaView>, int),
>
    decreases s.len() - i,
{
    let p = scan_ws(s, i);
    if !(0 <= p < s.len()) {
        Option::None
    } else if s[p] == ']' && first {
        Option::Some((acc, p + 1))
    } else {
        match scan_item(s, p) {
            Option::Some(hj) => {
                let p2 = scan_ws(s, hj.1);
                if 0 <= p2 < s.len() && s[p2] == ',' {
                    if p2 + 1 > i {
                        scan_items(s, p2 + 1, acc.push(hj.0), false)
                    } else {
                        Option::None
                    }
                } else if 0 <= p2 < s.len() && s[p2] == ']' {
                    Option::Some((acc.push(hj.0), p2 + 1))
                } else {
                    Option::None
                }
            },
            Option::None => Option::None,
        }
    }
}

/// What the tolerant reading makes of a whole document: its items when the
/// top-level value is a sequence of valid member objects with nothing but
/// whitespace around it, and nothing otherwise.
pub open spec fn tolerant_decoded(text: Seq<char>) -> Option<Seq<HupaView>> {
    let p0 = scan_ws(text, 0);
    if 0 <= p0 < text.len() && text[p0] == '[' {
        match scan_items(text, p0 + 1, Seq::empty(), true) {
            Option::Some(ij) => {
                if scan_ws(text, ij.1) == text.len() {
                    Option::Some(ij.0)
                } else {
                    Option::None
                }
            },
            Option::None => Option::None,
        }
    } else {
        Option::None
    }
}

} // verus!

verus! {

proof fn lemma_with_prefix_assoc(a: Seq<char>, b: Seq<char>, o: Option<(Seq<char>, int)>)
    ensures
        with_prefix(a, with_prefix(b, o)) == with_prefix(a + b, o),
{
    match o {
        Option::Some(vj) => {
            assert(a + (b + vj.0) =~= (a + b) + vj.0);
        },
        Option::None => {},
    }
}

/// The first position at or after `i` without whitespace, as a value.
fn ws_to(cs: &Vec<char>, i: usize) -> (r: usize)
    requires
        i <= cs@.len(),
    ensures
        r as int == scan_ws(cs@, i as int),
        i <= r <= cs@.len(),
{
    let n = cs.len();
    let mut p: usize = i;
    while p < n && (cs[p] == ' ' || cs[p] == '\t' || cs[p] == '\n' || cs[p] == '\r')
        invariant
            i <= p <= n,
            n == cs@.len(),
            scan_ws(cs@, i as int) == scan_ws(cs@, p as int),
        decreases n - p,
    {
        p = p + 1;
    }
    p
}

/// The value of a hexadecimal digit, or a marker below zero.
fn hex_val_at(c: char) -> (r: i32)
    ensures
        r as int == hex_val(c),
{
    let n = c as u32;
    if 48 <= n && n <= 57 {
        (n - 48) as i32
    } else if 97 <= n && n <= 102 {
        (n - 87) as i32
    } else if 65 <= n && n <= 70 {
        (n - 55) as i32
    } else {
        -1
    }
}

/// Reads a string body from inside the quotes at `i`.
#[verifier::rlimit(100)]
fn read_string(cs: &Vec<char>, i: usize) -> (r: Option<(String, usize)>)
    requires
        i <= cs@.len(),
    ensures
        match r {
            Option::Some(sj) => scan_string(cs@, i as int) == Option::Some(
                (sj.0@, sj.1 as int),
            ) && i < sj.1 <= cs@.len(),
            Option::None => scan_string(cs@, i as int) is None,
        },
{
    let n = cs.len();
    let mut p: usize = i;
    let mut out = String::new();
    proof {
        assert(out@ =~= Seq::<char>::empty());
    }
    loop
        invariant
            i <= p <= n,
            n == cs@.len(),
            scan_string(cs@, i as int) == with_prefix(out@, scan_string(cs@, p as int)),
        decreases n - p,
    {
        if p >= n {
            return Option::None;
        }
        let c = cs[p];
        if c == '"' {
            proof {
                assert(out@ + Seq::<char>::empty() =~= out@);
            }
            return Option::Some((out, p + 1));
        } else if c == '\\' {
            if p + 1 >= n {
                return Option::None;
            }
            let d = cs[p + 1];
            let unescaped: Option<char> = if d == '"' {
                Option::Some('"')
            } else if d == '\\' {
                Option::Some('\\')
            } else if d == '/' {
                Option::Some('/')
            } else if d == 'n' {
                Option::Some('\n')
            } else if d == 't' {
                Option::Some('\t')
            } else if d == 'r' {
                Option::Some('\r')
            } else if d == 'b' {
                Option::Some('\u{8}')
            } else if d == 'f' {
                Option::Some('\u{c}')
            } else {
                Option::None
            };
            match unescaped {
                Option::Some(u) => {
                    let ghost prev = out@;
                    push_char(&mut out, u);
                    proof {
                        lemma_with_prefix_assoc(prev, seq![u], scan_string(cs@, p + 2));
                        assert(prev + seq![u] =~= out@);
                    }
                    p = p + 2;
                },
                Option::None => {
                    if d == 'u' {
                        if n - p < 6 {
                            return Option::None;
                        }
                        let h3 = hex_val_at(cs[p + 2]);
                        let h2 = hex_val_at(cs[p + 3]);
                        let h1 = hex_val_at(cs[p + 4]);
                        let h0 = hex_val_at(cs[p + 5]);
                        if h3 < 0 || h2 < 0 || h1 < 0 || h0 < 0 {
                            return Option::None;
                        }
                        let code: u32 = (h3 as u32) * 4096 + (h2 as u32) * 256 + (h1 as u32) * 16
                            + (h0 as u32);
                        match char_from_code(code) {
                            Option::None => {
                                return Option::None;
                            },
                            Option::Some(u) => {
                                proof {
                                    assert(u as u32 == code);
                                    assert(char_of_code(code as int) as u32 == code as int) by {
                                        assert(exists|c2: char| (#[trigger] (c2 as u32)) == code as int) by {
                                            assert((u as u32) == code as int);
                                        }
                                    }
                                    lemma_char_code_unique(u, char_of_code(code as int));
                                }
                                let ghost prev = out@;
                                push_char(&mut out, u);
                                proof {
                                    lemma_with_prefix_assoc(prev, seq![u], scan_string(cs@, p + 6));
                                    assert(prev + seq![u] =~= out@);
                                }
                                p = p + 6;
                            },
                        }
                    } else {
                        return Option::None;
                    }
                },
            }
        } else if (c as u32) < 32 {
            return Option::None;
        } else {
            let ghost prev = out@;
            push_char(&mut out, c);
            proof {
                lemma_with_prefix_assoc(prev, seq![c], scan_string(cs@, p + 1));
                assert(prev + seq![c] =~= out@);
            }
            p = p + 1;
        }
    }
}

/// Reads a boolean literal at `i`.
fn read_bool(cs: &Vec<char>, i: usize) -> (r: Option<(bool, usize)>)
    requires
        i <= cs@.len(),
    ensures
        match r {
            Option::Some(bj) => scan_bool(cs@, i as int) == Option::Some((bj.0, bj.1 as int))
                && i < bj.1 <= cs@.len(),
            Option::None => scan_bool(cs@, i as int) is None,
        },
{
    proof {
        reveal_strlit("true");
        reveal_strlit("false");
    }
    match expect_lit(cs, i, "true") {
        Option::Some(j) => {
            proof {
                assert(cs@.subrange(i as int, i + 4) =~= cs@.skip(i as int).subrange(0, 4));
            }
            Option::Some((true, j))
        },
        Option::None => {
            match expect_lit(cs, i, "false") {
                Option::Some(j) => {
                    proof {
                        assert(cs@.subrange(i as int, i + 5) =~= cs@.skip(i as int).subrange(
                            0,
                            5,
                        ));
                        if i + 4 <= cs@.len() && cs@.subrange(i as int, i + 4) == "true"@ {
                            assert(cs@.skip(i as int).subrange(0, 4) =~= cs@.subrange(
                                i as int,
                                i + 4,
                            ));
                            assert(starts_with(cs@.skip(i as int), "true"@));
                            assert(false);
                        }
                    }
                    Option::Some((false, j))
                },
                Option::None => {
                    proof {
                        if i + 4 <= cs@.len() && cs@.subrange(i as int, i + 4) == "true"@ {
                            assert(cs@.skip(i as int).subrange(0, 4) =~= cs@.subrange(
                                i as int,
                                i + 4,
                            ));
                            assert(starts_with(cs@.skip(i as int), "true"@));
                            assert(false);
                        }
                        if i + 5 <= cs@.len() && cs@.subrange(i as int, i + 5) == "false"@ {
                            assert(cs@.skip(i as int).subrange(0, 5) =~= cs@.subrange(
                                i as int,
                                i + 5,
                            ));
                            assert(starts_with(cs@.skip(i as int), "false"@));
                            assert(false);
                        }
                    }
                    Option::None
                },
            }
        },
    }
}

/// Scans past one value of any kind at `i`, without reading it.
#[verifier::rlimit(100)]
fn skip_blob(cs: &Vec<char>, i: usize) -> (r: Option<usize>)
    requires
        i <= cs@.len(),
    ensures
        match r {
            Option::Some(j) => scan_blob(cs@, i as int) == Option::Some(j as int) && i < j
                <= cs@.len(),
            Option::None => scan_blob(cs@, i as int) is None,
        },
{
    let n = cs.len();
    if i >= n {
        return Option::None;
    }
    let c0 = cs[i];
    if c0 == '[' || c0 == '{' || c0 == '"' {
        let mut p: usize = i + 1;
        let mut depth: usize = if c0 == '"' {
            0
        } else {
            1
        };
        let mut instr: bool = c0 == '"';
        let mut escaped: bool = false;
        loop
            invariant
                i + 1 <= p <= n,
                n == cs@.len(),
                depth <= p,
                !instr ==> !escaped,
                scan_blob(cs@, i as int) == scan_blob_from(
                    cs@,
                    p as int,
                    depth as nat,
                    instr,
                    escaped,
                ),
            decreases n - p,
        {
            if p >= n {
                return Option::None;
            }
            let ghost oldp = p as int;
            let ghost oldd = depth as nat;
            let ghost oldi = instr;
            let ghost olde = escaped;
            let c = cs[p];
            if instr {
                if escaped {
                    escaped = false;
                } else if c == '\\' {
                    escaped = true;
                } else if c == '"' {
                    if depth == 0 {
                        return Option::Some(p + 1);
                    }
                    instr = false;
                }
            } else if c == '[' || c == '{' {
                depth = depth + 1;
            } else if c == ']' || c == '}' {
                if depth == 1 {
                    return Option::Some(p + 1);
                }
                if depth == 0 {
                    return Option::None;
                }
                depth = depth - 1;
            } else if c == '"' {
                instr = true;
            }
            proof {
                assert(scan_blob_from(cs@, oldp, oldd, oldi, olde) == scan_blob_from(
                    cs@,
                    oldp + 1,
                    depth as nat,
                    instr,
                    escaped,
                ));
            }
            p = p + 1;
        }
    } else if c0 == ',' || c0 == '}' || c0 == ']' || c0 == ':' || c0 == ' ' || c0 == '\t' || c0
        == '\n' || c0 == '\r' {
        Option::None
    } else {
        let mut p: usize = i + 1;
        while p < n && cs[p] != ',' && cs[p] != '}' && cs[p] != ']' && cs[p] != ' ' && cs[p]
            != '\t' && cs[p] != '\n' && cs[p] != '\r'
            invariant
                i + 1 <= p <= n,
                n == cs@.len(),
                scan_prim_end(cs@, i + 1) == scan_prim_end(cs@, p as int),
            decreases n - p,
        {
            p = p + 1;
        }
        Option::Some(p)
    }
}

} // verus!

verus! {

/// Reads an array of strings from just after its opening bracket.
#[verifier::rlimit(100)]
fn read_string_array(cs: &Vec<char>, i: usize) -> (r: Option<(Vec<String>, usize)>)
    requires
        i <= cs@.len(),
    ensures
        match r {
            Option::Some(vj) => scan_string_array(cs@, i as int, Seq::empty(), true)
                == Option::Some((vj.0.deep_view(), vj.1 as int)) && i < vj.1 <= cs@.len(),
            Option::None => scan_string_array(cs@, i as int, Seq::empty(), true) is None,
        },
{
    let n = cs.len();
    let mut acc: Vec<String> = Vec::new();
    let mut first: bool = true;
    let mut cur: usize = i;
    proof {
        assert(acc.deep_view() =~= Seq::<Seq<char>>::empty());
    }
    loop
        invariant
            i <= cur <= n,
            n == cs@.len(),
            scan_string_array(cs@, i as int, Seq::empty(), true) == scan_string_array(
                cs@,
                cur as int,
                acc.deep_view(),
                first,
            ),
        decreases n - cur,
    {
        let p = ws_to(cs, cur);
        if p >= n {
            return Option::None;
        }
        let c = cs[p];
        if c == ']' && first {
            return Option::Some((acc, p + 1));
        } else if c == '"' {
            match read_string(cs, p + 1) {
                Option::None => {
                    return Option::None;
                },
                Option::Some(vj) => {
                    let (v, j) = vj;
                    let p2 = ws_to(cs, j);
                    if p2 < n && (cs[p2] == ',' || cs[p2] == ']') {
                        let closing = cs[p2] == ']';
                        let ghost prevdv = acc.deep_view();
                        let ghost vv = v@;
                        acc.push(v);
                        proof {
                            let dv = acc.deep_view();
                            assert forall|t: int| 0 <= t < dv.len() implies dv[t] == prevdv.push(
                                vv,
                            )[t] by {
                                if t < prevdv.len() {
                                    assert(dv[t] == prevdv[t]);
                                } else {
                                    assert(acc@[t] == acc@[acc@.len() - 1]);
                                }
                            }
                            assert(dv =~= prevdv.push(vv));
                        }
                        if closing {
                            return Option::Some((acc, p2 + 1));
                        }
                        first = false;
                        cur = p2 + 1;
                    } else {
                        return Option::None;
                    }
                },
            }
        } else {
            return Option::None;
        }
    }
}

/// The fields of one member object as they are gathered.
struct Fields {
    name: Option<String>,
    desc: Option<String>,
    categories: Option<Vec<String>>,
    backup_parent: Option<String>,
    origin: Option<String>,
    autobackup: Option<bool>,
    needed_vars: Option<Vec<String>>,
}

impl View for Fields {
    type V = FieldsView;

    closed spec fn view(&self) -> FieldsView {
        FieldsView {
            name: match self.name {
                Option::Some(s) => Option::Some(s@),
                Option::None => Option::None,
            },
            desc: match self.desc {
                Option::Some(s) => Option::Some(s@),
                Option::None => Option::None,
            },
            categories: match self.categories {
                Option::Some(v) => Option::Some(v.deep_view()),
                Option::None => Option::None,
            },
            backup_parent: match self.backup_parent {
                Option::Some(s) => Option::Some(s@),
                Option::None => Option::None,
            },
            origin: match self.origin {
                Option::Some(s) => Option::Some(s@),
                Option::None => Option::None,
            },
            autobackup: self.autobackup,
            needed_vars: match self.needed_vars {
                Option::Some(v) => Option::Some(v.deep_view()),
                Option::None => Option::None,
            },
        }
    }
}

/// Reads one key's value at `p3` into the gathered fields.
#[verifier::rlimit(100)]
#[verifier::spinoff_prover]
fn read_field_value(cs: &Vec<char>, p3: usize, key: &String, f: Fields) -> (r: Option<
    (Fields, usize),
>)
    requires
        p3 <= cs@.len(),
    ensures
        match r {
            Option::Some(fj) => scan_field_value(cs@, p3 as int, key@, f@) == Option::Some(
                (fj.0@, fj.1 as int),
            ) && p3 < fj.1 <= cs@.len(),
            Option::None => scan_field_value(cs@, p3 as int, key@, f@) is None,
        },
{
    let n = cs.len();
    if *key == String::from_str("name") {
        if f.name.is_some() {
            return Option::None;
        }
        if p3 < n && cs[p3] == '"' {
            match read_string(cs, p3 + 1) {
                Option::Some(vj) => Option::Some(
                    (Fields { name: Option::Some(vj.0), ..f }, vj.1),
                ),
                Option::None => Option::None,
            }
        } else {
            Option::None
        }
    } else if *key == String::from_str("desc") {
        if f.desc.is_some() {
            return Option::None;
        }
        if p3 < n && cs[p3] == '"' {
            match read_string(cs, p3 + 1) {
                Option::Some(vj) => Option::Some(
                    (Fields { desc: Option::Some(vj.0), ..f }, vj.1),
                ),
                Option::None => Option::None,
            }
        } else {
            Option::None
        }
    } else if *key == String::from_str("category") {
        if f.categories.is_some() {
            return Option::None;
        }
        if p3 < n && cs[p3] == '[' {
            match read_string_array(cs, p3 + 1) {
                Option::Some(vj) => Option::Some(
                    (Fields { categories: Option::Some(vj.0), ..f }, vj.1),
                ),
                Option::None => Option::None,
            }
        } else {
            Option::None
        }
    } else if *key == String::from_str("backup_parent") {
        if f.backup_parent.is_some() {
            return Option::None;
        }
        if p3 < n && cs[p3] == '"' {
            match read_string(cs, p3 + 1) {
                Option::Some(vj) => Option::Some(
                    (Fields { backup_parent: Option::Some(vj.0), ..f }, vj.1),
                ),
                Option::None => Option::None,
            }
        } else {
            Option::None
        }
    } else if *key == String::from_str("origin") {
        if f.origin.is_some() {
            return Option::None;
        }
        if p3 < n && cs[p3] == '"' {
            match read_string(cs, p3 + 1) {
                Option::Some(vj) => Option::Some(
                    (Fields { origin: Option::Some(vj.0), ..f }, vj.1),
                ),
                Option::None => Option::None,
            }
        } else {
            Option::None
        }
    } else if *key == String::from_str("autobackup") {
        if f.autobackup.is_some() {
            return Option::None;
        }
        match read_bool(cs, p3) {
            Option::Some(bj) => Option::Some(
                (Fields { autobackup: Option::Some(bj.0), ..f }, bj.1),
            ),
            Option::None => Option::None,
        }
    } else if *key == String::from_str("needed_vars") {
        if f.needed_vars.is_some() {
            return Option::None;
        }
        if p3 < n && cs[p3] == '[' {
            match read_string_array(cs, p3 + 1) {
                Option::Some(vj) => Option::Some(
                    (Fields { needed_vars: Option::Some(vj.0), ..f }, vj.1),
                ),
                Option::None => {
                    match skip_blob(cs, p3) {
                        Option::Some(j2) => {
                            let empty_vars: Vec<String> = Vec::new();
                            proof {
                                assert(empty_vars.deep_view() =~= Seq::<Seq<char>>::empty());
                            }
                            Option::Some(
                                (Fields { needed_vars: Option::Some(empty_vars), ..f }, j2),
                            )
                        },
                        Option::None => Option::None,
                    }
                },
            }
        } else {
            match skip_blob(cs, p3) {
                Option::Some(j2) => {
                    let empty_vars: Vec<String> = Vec::new();
                    proof {
                        assert(empty_vars.deep_view() =~= Seq::<Seq<char>>::empty());
                    }
                    Option::Some((Fields { needed_vars: Option::Some(empty_vars), ..f }, j2))
                },
                Option::None => Option::None,
            }
        }
    } else {
        match skip_blob(cs, p3) {
            Option::Some(j2) => Option::Some((f, j2)),
            Option::None => Option::None,
        }
    }
}

/// Reads the members of one object from just after its opening brace.
#[verifier::rlimit(100)]
fn read_fields(cs: &Vec<char>, i: usize) -> (r: Option<(Fields, usize)>)
    requires
        i <= cs@.len(),
    ensures
        match r {
            Option::Some(fj) => scan_fields(cs@, i as int, fields_none(), true) == Option::Some(
                (fj.0@, fj.1 as int),
            ) && i < fj.1 <= cs@.len(),
            Option::None => scan_fields(cs@, i as int, fields_none(), true) is None,
        },
{
    let n = cs.len();
    let mut f = Fields {
        name: Option::None,
        desc: Option::None,
        categories: Option::None,
        backup_parent: Option::None,
        origin: Option::None,
        autobackup: Option::None,
        needed_vars: Option::None,
    };
    let mut first: bool = true;
    let mut cur: usize = i;
    loop
        invariant
            i <= cur <= n,
            n == cs@.len(),
            scan_fields(cs@, i as int, fields_none(), true) == scan_fields(
                cs@,
                cur as int,
                f@,
                first,
            ),
        decreases n - cur,
    {
        let p = ws_to(cs, cur);
        if p >= n {
            return Option::None;
        }
        let c = cs[p];
        if c == '}' && first {
            return Option::Some((f, p + 1));
        } else if c == '"' {
            let (key, j) = match read_string(cs, p + 1) {
                Option::Some(kj) => kj,
                Option::None => {
                    return Option::None;
                },
            };
            let p2 = ws_to(cs, j);
            if !(p2 < n && cs[p2] == ':') {
                return Option::None;
            }
            let p3 = ws_to(cs, p2 + 1);
            let (f2, j3) = match read_field_value(cs, p3, &key, f) {
                Option::Some(fj) => fj,
                Option::None => {
                    return Option::None;
                },
            };
            let p4 = ws_to(cs, j3);
            if p4 < n && cs[p4] == ',' {
                f = f2;
                first = false;
                cur = p4 + 1;
            } else if p4 < n && cs[p4] == '}' {
                return Option::Some((f2, p4 + 1));
            } else {
                return Option::None;
            }
        } else {
            return Option::None;
        }
    }
}

} // verus!

verus! {

/// Reads one member object at `i`, validating the schema.
#[verifier::rlimit(100)]
fn read_item(cs: &Vec<char>, i: usize) -> (r: Option<(Hupa, usize)>)
    requires
        i <= cs@.len(),
    ensures
        match r {
            Option::Some(hj) => scan_item(cs@, i as int) == Option::Some((hj.0@, hj.1 as int))
                && hupa_wf(hj.0@) && i < hj.1 <= cs@.len(),
            Option::None => scan_item(cs@, i as int) is None,
        },
{
    let n = cs.len();
    if !(i < n && cs[i] == '{') {
        return Option::None;
    }
    let (f, j) = match read_fields(cs, i + 1) {
        Option::Some(fj) => fj,
        Option::None => {
            return Option::None;
        },
    };
    let name = match f.name {
        Option::Some(s) => s,
        Option::None => {
            return Option::None;
        },
    };
    let desc = match f.desc {
        Option::Some(s) => s,
        Option::None => {
            return Option::None;
        },
    };
    let categories = match f.categories {
        Option::Some(v) => v,
        Option::None => {
            return Option::None;
        },
    };
    let backup_parent = match f.backup_parent {
        Option::Some(s) => s,
        Option::None => {
            return Option::None;
        },
    };
    let origin = match f.origin {
        Option::Some(s) => s,
        Option::None => {
            return Option::None;
        },
    };
    let autobackup = match f.autobackup {
        Option::Some(b) => b,
        Option::None => {
            return Option::None;
        },
    };
    if origin.as_str().is_empty() || backup_parent.as_str().is_empty() {
        return Option::None;
    }
    let needed_vars = match f.needed_vars {
        Option::Some(v) => v,
        Option::None => {
            let empty_vars: Vec<String> = Vec::new();
            proof {
                assert(empty_vars.deep_view() =~= Seq::<Seq<char>>::empty());
            }
            empty_vars
        },
    };
    let h = Hupa::from_parts(name, desc, categories, backup_parent, origin, autobackup,
        needed_vars);
    Option::Some((h, j))
}

/// Reads the members of the top-level sequence from just after its opening
/// bracket.
#[verifier::rlimit(100)]
fn read_items(cs: &Vec<char>, i: usize) -> (r: Option<(Vec<Hupa>, usize)>)
    requires
        i <= cs@.len(),
    ensures
        match r {
            Option::Some(vj) => scan_items(cs@, i as int, Seq::empty(), true) == Option::Some(
                (vj.0.deep_view(), vj.1 as int),
            ) && all_wf(vj.0.deep_view()) && vj.1 <= cs@.len(),
            Option::None => scan_items(cs@, i as int, Seq::empty(), true) is None,
        },
{
    let n = cs.len();
    let mut acc: Vec<Hupa> = Vec::new();
    let mut first: bool = true;
    let mut cur: usize = i;
    proof {
        assert(acc.deep_view() =~= Seq::<HupaView>::empty());
    }
    loop
        invariant
            i <= cur <= n,
            n == cs@.len(),
            all_wf(acc.deep_view()),
            scan_items(cs@, i as int, Seq::empty(), true) == scan_items(
                cs@,
                cur as int,
                acc.deep_view(),
                first,
            ),
        decreases n - cur,
    {
        let p = ws_to(cs, cur);
        if p >= n {
            return Option::None;
        }
        if cs[p] == ']' && first {
            return Option::Some((acc, p + 1));
        }
        match read_item(cs, p) {
            Option::None => {
                return Option::None;
            },
            Option::Some(hj) => {
                let (h, j) = hj;
                let p2 = ws_to(cs, j);
                if p2 < n && (cs[p2] == ',' || cs[p2] == ']') {
                    let closing = cs[p2] == ']';
                    let ghost prevdv = acc.deep_view();
                    let ghost hv = h@;
                    acc.push(h);
                    proof {
                        let dv = acc.deep_view();
                        assert forall|t: int| 0 <= t < dv.len() implies dv[t] == prevdv.push(
                            hv,
                        )[t] by {
                            if t < prevdv.len() {
                                assert(dv[t] == prevdv[t]);
                            } else {
                                assert(acc@[t] == acc@[acc@.len() - 1]);
                            }
                        }
                        assert(dv =~= prevdv.push(hv));
                        assert(all_wf(dv)) by {
                            assert forall|t: int| 0 <= t < dv.len() implies hupa_wf(dv[t]) by {
                                if t < prevdv.len() {
                                    assert(hupa_wf(prevdv[t]));
                                }
                            }
                        }
                    }
                    if closing {
                        return Option::Some((acc, p2 + 1));
                    }
                    first = false;
                    cur = p2 + 1;
                } else {
                    return Option::None;
                }
            },
        }
    }
}

/// Reads a whole document by the tolerant grammar: its items when the
/// top-level value is a sequence of valid member objects with nothing but
/// whitespace around it.
pub(crate) fn read_store(cs: &Vec<char>) -> (r: Option<Vec<Hupa>>)
    ensures
        match r {
            Option::Some(hupas) => all_wf(hupas.deep_view()) && tolerant_decoded(cs@)
                == Option::Some(hupas.deep_view()),
            Option::None => tolerant_decoded(cs@) is None,
        },
{
    let n = cs.len();
    let p0 = ws_to(cs, 0);
    if p0 < n && cs[p0] == '[' {
        match read_items(cs, p0 + 1) {
            Option::Some(vj) => {
                let (hupas, j) = vj;
                let pe = ws_to(cs, j);
                if pe == n {
                    Option::Some(hupas)
                } else {
                    Option::None
                }
            },
            Option::None => Option::None,
        }
    } else {
        Option::None
    }
}

} // verus!
