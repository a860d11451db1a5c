//! Resolving user-supplied names to items.

use vstd::prelude::*;

use crate::item::{Hupa, HupaView};

verus! {

/// The first item in `items` that bears `name`, if any.
pub open spec fn find_first(items: Seq<HupaView>, name: Seq<char>) -> Option<HupaView>
    decreases items.len(),
{
    if items.len() == 0 {
        Option::None
    } else if items[0].name == name {
        Option::Some(items[0])
    } else {
        find_first(items.skip(1), name)
    }
}

/// The items the names pick, in the order of the names: each name takes the
/// first item that bears it, a name with no match is skipped, and a repeated
/// name picks its item again.
pub open spec fn resolve_model(names: Seq<Seq<char>>, items: Seq<HupaView>) -> Seq<HupaView>
    decreases names.len(),
{
    if names.len() == 0 {
        Seq::empty()
    } else {
        match find_first(items, names[0]) {
            Option::Some(h) => seq![h] + resolve_model(names.skip(1), items),
            Option::None => resolve_model(names.skip(1), items),
        }
    }
}

proof fn lemma_find_first_at(items: Seq<HupaView>, name: Seq<char>, j: int)
    requires
        0 <= j <= items.len(),
        forall|t: int| 0 <= t < j ==> items[t].name != name,
        j == items.len() || items[j].name == name,
    ensures
        find_first(items, name) == if j == items.len() {
            Option::<HupaView>::None
        } else {
            Option::Some(items[j])
        },
    decreases j,
{
    if j == 0 {
    } else {
        assert(items[0].name != name);
        let t = items.skip(1);
        assert forall|u: int| 0 <= u < j - 1 implies t[u].name != name by {
            assert(t[u] == items[u + 1]);
        }
        if j - 1 < t.len() {
            assert(t[j - 1] == items[j as int]);
        }
        lemma_find_first_at(t, name, j - 1);
    }
}

/// Finds the first item bearing `name`, as an index.
fn find_first_index(hupas: &Vec<Hupa>, name: &String) -> (r: Option<usize>)
    ensures
        match r {
            Option::Some(j) => j < hupas@.len() && find_first(hupas.deep_view(), name@)
                == Option::Some(hupas.deep_view()[j as int]),
            Option::None => find_first(hupas.deep_view(), name@) is None,
        },
{
    let n = hupas.len();
    let mut j: usize = 0;
    while j < n
        invariant
            j <= n,
            n == hupas@.len(),
            forall|t: int| 0 <= t < j ==> hupas.deep_view()[t].name != name@,
        decreases n - j,
    {
        let hn = hupas[j].get_name();
        if *hn == *name {
            proof {
                assert(hupas.deep_view()[j as int].name == name@);
                lemma_find_first_at(hupas.deep_view(), name@, j as int);
            }
            return Option::Some(j);
        }
        proof {
            assert(hupas.deep_view()[j as int].name != name@);
        }
        j = j + 1;
    }
    proof {
        lemma_find_first_at(hupas.deep_view(), name@, n as int);
    }
    Option::None
}

/// Resolves each name to the first item that bears it, keeping the order of
/// the names; names with no match are silently skipped, and duplicates
/// resolve again. Best effort: a typo never aborts a batch.
pub fn resolve_names(names: &Vec<String>, hupas: &Vec<Hupa>) -> (r: Vec<Hupa>)
    ensures
        r.deep_view() == resolve_model(names.deep_view(), hupas.deep_view()),
{
    let n = names.len();
    let mut out: Vec<Hupa> = Vec::new();
    let ghost namesdv = names.deep_view();
    let ghost itemsdv = hupas.deep_view();
    proof {
        assert(namesdv.skip(0) =~= namesdv);
        assert(out.deep_view() =~~= Seq::<HupaView>::empty());
        assert(out.deep_view() + resolve_model(namesdv.skip(0), itemsdv) =~~= resolve_model(
            namesdv,
            itemsdv,
        ));
    }
    let mut k: usize = 0;
    while k < n
        invariant
            k <= n,
            n == names@.len(),
            namesdv == names.deep_view(),
            itemsdv == hupas.deep_view(),
            namesdv.len() == n,
            resolve_model(namesdv, itemsdv) == out.deep_view() + resolve_model(
                namesdv.skip(k as int),
                itemsdv,
            ),
        decreases n - k,
    {
        let ghost rest = namesdv.skip(k as int);
        proof {
            assert(rest[0] == namesdv[k as int]);
            assert(namesdv[k as int] == names@[k as int]@);
            assert(rest.skip(1) =~= namesdv.skip(k + 1));
        }
        match find_first_index(hupas, &names[k]) {
            Option::Some(j) => {
                let ghost prevdv = out.deep_view();
                let picked = hupas[j].duplicate();
                out.push(picked);
                proof {
                    let dv = out.deep_view();
                    assert forall|t: int| 0 <= t < dv.len() implies dv[t] == prevdv.push(
                        itemsdv[j as int],
                    )[t] by {
                        if t < prevdv.len() {
                            assert(dv[t] == prevdv[t]);
                        } else {
                            assert(out@[t] == out@[out@.len() - 1]);
                        }
                    }
                    assert(dv =~= prevdv.push(itemsdv[j as int]));
                    assert(resolve_model(rest, itemsdv) == seq![itemsdv[j as int]]
                        + resolve_model(namesdv.skip(k + 1), itemsdv));
                    assert(out.deep_view() + resolve_model(namesdv.skip(k + 1), itemsdv)
                        =~= resolve_model(namesdv, itemsdv));
                }
            },
            Option::None => {
                proof {
                    assert(resolve_model(rest, itemsdv) == resolve_model(
                        namesdv.skip(k + 1),
                        itemsdv,
                    ));
                }
            },
        }
        k = k + 1;
    }
    proof {
        assert(namesdv.skip(n as int) =~= Seq::<Seq<char>>::empty());
        assert(out.deep_view() + resolve_model(namesdv.skip(n as int), itemsdv)
            =~= out.deep_view());
    }
    out
}

} // verus!
