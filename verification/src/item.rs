//! The backup item model: fields, invariant, the backup location, and the
//! one-shot scan of the origin path for environment-variable placeholders.

use vstd::prelude::*;

use crate::text::{chars_of, lemma_skip_skip, push_char, string_from_chars};

verus! {

/// Mathematical view of a backup item: every field as a plain value.
pub struct HupaView {
    pub name: Seq<char>,
    pub desc: Seq<char>,
    pub categories: Seq<Seq<char>>,
    pub backup_parent: Seq<char>,
    pub origin: Seq<char>,
    pub autobackup: bool,
    pub needed_vars: Seq<Seq<char>>,
}

/// A named backup item.
///
/// `origin` is the live, user-owned path; the backup copy lives at
/// `backup_parent/name`. `needed_vars` is derived once, at construction,
/// by scanning `origin` for unresolved environment placeholders, and is
/// never recomputed afterwards.
#[derive(Clone, Debug)]
pub struct Hupa {
    name: String,
    desc: String,
    categories: Vec<String>,
    backup_parent: String,
    origin: String,
    autobackup: bool,
    needed_vars: Vec<String>,
}

impl View for Hupa {
    type V = HupaView;

    closed spec fn view(&self) -> HupaView {
        HupaView {
            name: self.name@,
            desc: self.desc@,
            categories: self.categories.deep_view(),
            backup_parent: self.backup_parent@,
            origin: self.origin@,
            autobackup: self.autobackup,
            needed_vars: self.needed_vars.deep_view(),
        }
    }
}

impl DeepView for Hupa {
    type V = HupaView;

    open spec fn deep_view(&self) -> HupaView {
        self.view()
    }
}

/// The model invariant: the two path fields are never empty.
pub open spec fn hupa_wf(h: HupaView) -> bool {
    h.origin.len() > 0 && h.backup_parent.len() > 0
}

/// Whether `c` may appear in an environment-variable name: an ASCII letter,
/// digit or underscore.
pub open spec fn is_var_char(c: char) -> bool {
    (97 <= c as u32 && c as u32 <= 122) || (65 <= c as u32 && c as u32 <= 90) || (48 <= c as u32
        && c as u32 <= 57) || c as u32 == 95
}

/// Length of the longest prefix of `s` made of variable-name characters.
pub open spec fn name_run_len(s: Seq<char>) -> nat
    decreases s.len(),
{
    if s.len() > 0 && is_var_char(s[0]) {
        1 + name_run_len(s.skip(1))
    } else {
        0
    }
}

/// The environment-variable names referenced by `s`, in order of appearance,
/// duplicates kept. A reference is `$NAME` (longest run of name characters)
/// or `${NAME}` with a non-empty name of name characters; a `$` that starts
/// neither form is plain text.
pub open spec fn vars_of(s: Seq<char>) -> Seq<Seq<char>>
    decreases s.len(),
{
    if s.len() == 0 {
        Seq::empty()
    } else if s[0] == '$' && s.len() >= 2 && s[1] == '{' && ({
        let k = name_run_len(s.skip(2));
        k > 0 && 2 + k < s.len() && s[2 + k as int] == '}'
    }) {
        let k = name_run_len(s.skip(2));
        seq![s.subrange(2, 2 + k as int)] + vars_of(s.skip(3 + k as int))
    } else if s[0] == '$' && ({
        let k = name_run_len(s.skip(1));
        k > 0 && 1 + k <= s.len()
    }) {
        let k = name_run_len(s.skip(1));
        seq![s.subrange(1, 1 + k as int)] + vars_of(s.skip(1 + k as int))
    } else {
        vars_of(s.skip(1))
    }
}

proof fn lemma_name_run_len(s: Seq<char>, k: int)
    requires
        0 <= k <= s.len(),
        forall|t: int| 0 <= t < k ==> is_var_char(s[t]),
        k == s.len() || !is_var_char(s[k]),
    ensures
        name_run_len(s) == k,
    decreases k,
{
    if k == 0 {
        assert(s.len() == 0 || !is_var_char(s[0]));
    } else {
        assert(is_var_char(s[0]));
        let t = s.skip(1);
        assert forall|u: int| 0 <= u < k - 1 implies is_var_char(t[u]) by {
            assert(t[u] == s[u + 1]);
        }
        if k - 1 < t.len() {
            assert(t[k - 1] == s[k]);
        }
        lemma_name_run_len(t, k - 1);
    }
}

/// Whether `c` may appear in an environment-variable name.
fn is_var_char_at(c: char) -> (r: bool)
    ensures
        r == is_var_char(c),
{
    ('a' <= c && c <= 'z') || ('A' <= c && c <= 'Z') || ('0' <= c && c <= '9') || c == '_'
}

/// Exec counterpart of `name_run_len` on the suffix of `cs` starting at
/// `from`.
fn run_len(cs: &Vec<char>, from: usize) -> (r: usize)
    requires
        from <= cs@.len(),
    ensures
        from + r <= cs@.len(),
        r == name_run_len(cs@.skip(from as int)),
{
    let n = cs.len();
    let mut j: usize = from;
    while j < n && is_var_char_at(cs[j])
        invariant
            from <= j <= n,
            n == cs@.len(),
            forall|t: int| from <= t < j ==> is_var_char(cs@[t]),
        decreases n - j,
    {
        j = j + 1;
    }
    proof {
        let s = cs@.skip(from as int);
        assert forall|t: int| 0 <= t < j - from implies is_var_char(s[t]) by {
            assert(s[t] == cs@[from + t]);
        }
        if j < n {
            assert(s[j - from] == cs@[j as int]);
        }
        lemma_name_run_len(s, j - from);
    }
    j - from
}

/// Scans `origin` for environment-variable placeholders, returning the
/// referenced names in order of appearance.
pub fn scan_needed_vars(origin: &str) -> (r: Vec<String>)
    ensures
        r.deep_view() == vars_of(origin@),
{
    let cs = chars_of(origin);
    let n = cs.len();
    let mut out: Vec<String> = Vec::new();
    let mut i: usize = 0;
    proof {
        assert(cs@.skip(0) =~= cs@);
        assert(out.deep_view() + vars_of(cs@.skip(0)) =~~= vars_of(origin@));
    }
    while i < n
        invariant
            i <= n,
            n == cs@.len(),
            cs@ == origin@,
            vars_of(origin@) == out.deep_view() + vars_of(cs@.skip(i as int)),
        decreases n - i,
    {
        let ghost rest = cs@.skip(i as int);
        if cs[i] == '$' && i + 1 < n && cs[i + 1] == '{' {
            let k = run_len(&cs, i + 2);
            proof {
                lemma_skip_skip(cs@, i as int, 2);
            }
            if k > 0 && i + 2 + k < n && cs[i + 2 + k] == '}' {
                let name = string_from_chars(&cs, i + 2, i + 2 + k);
                out.push(name);
                proof {
                    assert(rest[0] == '$' && rest[1] == '{');
                    assert(rest[2 + k as int] == cs@[i + 2 + k]);
                    assert(rest.subrange(2, 2 + k as int) =~= cs@.subrange(
                        i + 2,
                        i + 2 + k,
                    ));
                    lemma_skip_skip(cs@, i as int, 3 + k as int);
                }
                i = i + 3 + k;
            } else {
                proof {
                    lemma_skip_skip(cs@, i as int, 1);
                    if rest.len() >= 2 && rest[1] == '{' {
                        assert(rest.skip(1)[0] == '{');
                        assert(!is_var_char('{'));
                        assert(name_run_len(rest.skip(1)) == 0);
                    }
                }
                i = i + 1;
            }
        } else if cs[i] == '$' {
            let k = run_len(&cs, i + 1);
            proof {
                lemma_skip_skip(cs@, i as int, 1);
            }
            if k > 0 {
                let name = string_from_chars(&cs, i + 1, i + 1 + k);
                out.push(name);
                proof {
                    assert(rest[0] == '$');
                    if rest.len() >= 2 && rest[1] == '{' {
                        assert(rest.skip(1)[0] == '{');
                        assert(!is_var_char('{'));
                    }
                    assert(rest.subrange(1, 1 + k as int) =~= cs@.subrange(
                        i + 1,
                        i + 1 + k,
                    ));
                    lemma_skip_skip(cs@, i as int, 1 + k as int);
                }
                i = i + 1 + k;
            } else {
                i = i + 1;
            }
        } else {
            proof {
                lemma_skip_skip(cs@, i as int, 1);
            }
            i = i + 1;
        }
        proof {
            assert(out.deep_view() + vars_of(cs@.skip(i as int)) =~~= vars_of(origin@));
        }
    }
    proof {
        assert(cs@.skip(n as int) =~= Seq::<char>::empty());
        assert(out.deep_view() =~~= vars_of(origin@));
    }
    out
}

impl Hupa {
    /// Constructs an item and derives `needed_vars` by scanning `origin`
    /// for environment-variable placeholders; the path itself is stored as
    /// written, with nothing substituted.
    pub fn new(
        name: String,
        desc: String,
        categories: Vec<String>,
        backup_parent: String,
        origin: String,
        autobackup: bool,
    ) -> (r: Hupa)
        requires
            origin@.len() > 0,
            backup_parent@.len() > 0,
        ensures
            r@.name == name@,
            r@.desc == desc@,
            r@.categories == categories.deep_view(),
            r@.backup_parent == backup_parent@,
            r@.origin == origin@,
            r@.autobackup == autobackup,
            r@.needed_vars == vars_of(origin@),
            hupa_wf(r@),
    {
        let needed_vars = scan_needed_vars(origin.as_str());
        Hupa { name, desc, categories, backup_parent, origin, autobackup, needed_vars }
    }

    /// Reassembles an item from stored fields; `needed_vars` is taken as
    /// authoritative and not re-derived from `origin`.
    pub fn from_parts(
        name: String,
        desc: String,
        categories: Vec<String>,
        backup_parent: String,
        origin: String,
        autobackup: bool,
        needed_vars: Vec<String>,
    ) -> (r: Hupa)
        requires
            origin@.len() > 0,
            backup_parent@.len() > 0,
        ensures
            r@ == (HupaView {
                name: name@,
                desc: desc@,
                categories: categories.deep_view(),
                backup_parent: backup_parent@,
                origin: origin@,
                autobackup: autobackup,
                needed_vars: needed_vars.deep_view(),
            }),
            hupa_wf(r@),
    {
        Hupa { name, desc, categories, backup_parent, origin, autobackup, needed_vars }
    }

    /// The display identifier.
    pub fn get_name(&self) -> (r: &String)
        ensures
            r@ == self@.name,
    {
        &self.name
    }

    /// The free-form description.
    pub fn get_desc(&self) -> (r: &String)
        ensures
            r@ == self@.desc,
    {
        &self.desc
    }

    /// The ordered category path segments.
    pub fn get_category(&self) -> (r: &Vec<String>)
        ensures
            r.deep_view() == self@.categories,
    {
        &self.categories
    }

    /// The directory under which this item's backup copy is stored.
    pub fn get_backup_parent(&self) -> (r: &String)
        ensures
            r@ == self@.backup_parent,
    {
        &self.backup_parent
    }

    /// The live, user-owned path.
    pub fn get_origin(&self) -> (r: &String)
        ensures
            r@ == self@.origin,
    {
        &self.origin
    }

    /// Whether the "backup all" default includes this item.
    pub fn is_autobackup_enabled(&self) -> (r: bool)
        ensures
            r == self@.autobackup,
    {
        self.autobackup
    }

    /// The environment-variable names recorded at construction.
    pub fn get_needed_vars(&self) -> (r: &Vec<String>)
        ensures
            r.deep_view() == self@.needed_vars,
    {
        &self.needed_vars
    }

    /// The concrete backup location, `backup_parent/name`.
    pub fn backup_path(&self) -> (r: String)
        ensures
            r@ == backup_path_of(self@),
    {
        let mut r = self.backup_parent.clone();
        push_char(&mut r, '/');
        r.append(self.name.as_str());
        proof {
            assert(r@ =~= self@.backup_parent + seq!['/'] + self@.name);
        }
        r
    }

    /// An exact copy of this item.
    pub fn duplicate(&self) -> (r: Hupa)
        ensures
            r@ == self@,
    {
        let mut categories: Vec<String> = Vec::new();
        let mut i: usize = 0;
        while i < self.categories.len()
            invariant
                i <= self.categories@.len(),
                categories.deep_view() == self.categories.deep_view().subrange(0, i as int),
            decreases self.categories@.len() - i,
        {
            let ghost prev = categories.deep_view();
            let c = self.categories[i].clone();
            proof {
                assert(c@ == self.categories@[i as int]@);
            }
            categories.push(c);
            proof {
                let dv = categories.deep_view();
                let target = self.categories.deep_view().subrange(0, i + 1);
                assert(prev.len() == i);
                assert(categories@.len() == i + 1);
                assert(dv.len() == categories@.len());
                assert(dv.len() == i + 1);
                assert forall|k: int| 0 <= k < i + 1 implies dv[k] == target[k] by {
                    if k < i {
                        assert(dv[k] == prev[k]);
                    } else {
                        assert(categories@[k] == c);
                    }
                }
                assert(dv =~= target);
            }
            i = i + 1;
        }
        let mut needed_vars: Vec<String> = Vec::new();
        let mut j: usize = 0;
        while j < self.needed_vars.len()
            invariant
                j <= self.needed_vars@.len(),
                needed_vars.deep_view() == self.needed_vars.deep_view().subrange(0, j as int),
            decreases self.needed_vars@.len() - j,
        {
            let ghost prev = needed_vars.deep_view();
            let v = self.needed_vars[j].clone();
            proof {
                assert(v@ == self.needed_vars@[j as int]@);
            }
            needed_vars.push(v);
            proof {
                let dv = needed_vars.deep_view();
                let target = self.needed_vars.deep_view().subrange(0, j + 1);
                assert(prev.len() == j);
                assert(needed_vars@.len() == j + 1);
                assert(dv.len() == needed_vars@.len());
                assert(dv.len() == j + 1);
                assert forall|k: int| 0 <= k < j + 1 implies dv[k] == target[k] by {
                    if k < j {
                        assert(dv[k] == prev[k]);
                    } else {
                        assert(needed_vars@[k] == v);
                    }
                }
                assert(dv =~= target);
            }
            j = j + 1;
        }
        proof {
            assert(categories.deep_view() =~= self.categories.deep_view());
            assert(needed_vars.deep_view() =~= self.needed_vars.deep_view());
        }
        Hupa {
            name: self.name.clone(),
            desc: self.desc.clone(),
            categories,
            backup_parent: self.backup_parent.clone(),
            origin: self.origin.clone(),
            autobackup: self.autobackup,
            needed_vars,
        }
    }
}

/// The backup location of an item: its backup parent, a separator, its name.
pub open spec fn backup_path_of(h: HupaView) -> Seq<char> {
    h.backup_parent + seq!['/'] + h.name
}

} // verus!
