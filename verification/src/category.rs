//! Grouping items into categories for display.
//!
//! A category is derived, never stored: a grouping key — an item's first
//! category segment, the empty key standing for "uncategorized" — together
//! with the items that bear it, computed on demand from a collection.

use vstd::prelude::*;

use crate::item::{Hupa, HupaView};

verus! {

/// The grouping key of an item: its first category segment, or the empty
/// key when the item is uncategorized.
pub open spec fn key_of(h: HupaView) -> Seq<char> {
    if h.categories.len() == 0 {
        Seq::empty()
    } else {
        h.categories[0]
    }
}

/// The items whose key is `key`, in input order.
pub open spec fn in_category(items: Seq<HupaView>, key: Seq<char>) -> Seq<HupaView>
    decreases items.len(),
{
    if items.len() == 0 {
        Seq::empty()
    } else if key_of(items[0]) == key {
        seq![items[0]] + in_category(items.skip(1), key)
    } else {
        in_category(items.skip(1), key)
    }
}

/// A key that some item bears gathers at least that item.
proof fn lemma_in_category_member(items: Seq<HupaView>, key: Seq<char>, t: int)
    requires
        0 <= t < items.len(),
        key_of(items[t]) == key,
    ensures
        in_category(items, key).len() > 0,
    decreases t,
{
    if t == 0 {
    } else if key_of(items[0]) == key {
    } else {
        assert(items.skip(1)[t - 1] == items[t]);
        lemma_in_category_member(items.skip(1), key, t - 1);
    }
}

/// Mathematical view of a category.
pub struct CategoryView {
    pub name: Seq<char>,
    pub hupas: Seq<HupaView>,
}

/// A grouping key together with the items that bear it.
#[derive(Clone, Debug)]
pub struct Category {
    name: String,
    hupas: Vec<Hupa>,
}

impl View for Category {
    type V = CategoryView;

    closed spec fn view(&self) -> CategoryView {
        CategoryView { name: self.name@, hupas: self.hupas.deep_view() }
    }
}

impl Category {
    /// The grouping key.
    pub fn get_name(&self) -> (r: &String)
        ensures
            r@ == self@.name,
    {
        &self.name
    }

    /// The items of this category, in the order they stood in the input.
    pub fn get_hupas(&self) -> (r: &Vec<Hupa>)
        ensures
            r.deep_view() == self@.hupas,
    {
        &self.hupas
    }

    /// How many items this category holds.
    pub fn len(&self) -> (r: usize)
        ensures
            r == self@.hupas.len(),
    {
        self.hupas.len()
    }
}

/// The grouping key of an item, as a value.
pub fn key_of_item(h: &Hupa) -> (r: String)
    ensures
        r@ == key_of(h@),
{
    let cats = h.get_category();
    if cats.len() == 0 {
        let empty = String::new();
        proof {
            assert(empty@ =~= key_of(h@));
        }
        empty
    } else {
        let k = cats[0].clone();
        proof {
            assert(cats.deep_view()[0] == cats@[0]@);
        }
        k
    }
}

/// The items of `hupas` whose key is `key`, in input order.
pub fn items_in_category(hupas: &Vec<Hupa>, key: &String) -> (r: Vec<Hupa>)
    ensures
        r.deep_view() == in_category(hupas.deep_view(), key@),
{
    let n = hupas.len();
    let ghost itemsdv = hupas.deep_view();
    let mut out: Vec<Hupa> = Vec::new();
    proof {
        assert(itemsdv.skip(0) =~= itemsdv);
        assert(out.deep_view() =~~= Seq::<HupaView>::empty());
        assert(out.deep_view() + in_category(itemsdv.skip(0), key@) =~~= in_category(
            itemsdv,
            key@,
        ));
    }
    let mut j: usize = 0;
    while j < n
        invariant
            j <= n,
            n == hupas@.len(),
            itemsdv == hupas.deep_view(),
            itemsdv.len() == n,
            in_category(itemsdv, key@) == out.deep_view() + in_category(
                itemsdv.skip(j as int),
                key@,
            ),
        decreases n - j,
    {
        let ghost rest = itemsdv.skip(j as int);
        proof {
            assert(rest[0] == itemsdv[j as int]);
            assert(rest.skip(1) =~= itemsdv.skip(j + 1));
        }
        let k = key_of_item(&hupas[j]);
        if k == *key {
            let ghost prevdv = out.deep_view();
            let picked = hupas[j].duplicate();
            out.push(picked);
            proof {
                let dv = out.deep_view();
                assert forall|t: int| 0 <= t < dv.len() implies dv[t] == prevdv.push(
                    itemsdv[j as int],
                )[t] by {
                    if t < prevdv.len() {
                        assert(dv[t] == prevdv[t]);
                    } else {
                        assert(out@[t] == out@[out@.len() - 1]);
                    }
                }
                assert(dv =~= prevdv.push(itemsdv[j as int]));
                assert(in_category(rest, key@) == seq![itemsdv[j as int]] + in_category(
                    itemsdv.skip(j + 1),
                    key@,
                ));
                assert(out.deep_view() + in_category(itemsdv.skip(j + 1), key@) =~= in_category(
                    itemsdv,
                    key@,
                ));
            }
        } else {
            proof {
                assert(in_category(rest, key@) == in_category(itemsdv.skip(j + 1), key@));
            }
        }
        j = j + 1;
    }
    proof {
        assert(itemsdv.skip(n as int) =~= Seq::<HupaView>::empty());
        assert(out.deep_view() + in_category(itemsdv.skip(n as int), key@) =~= out.deep_view());
    }
    out
}

/// The grouping keys of the items, in order of first appearance, each
/// once.
pub open spec fn category_keys(items: Seq<HupaView>) -> Seq<Seq<char>>
    decreases items.len(),
{
    if items.len() == 0 {
        Seq::empty()
    } else {
        let rest = category_keys(items.drop_last());
        let k = key_of(items.last());
        if rest.contains(k) {
            rest
        } else {
            rest.push(k)
        }
    }
}

/// The distinct grouping keys of the items, in order of first appearance.
#[verifier::rlimit(100)]
fn collect_keys(hupas: &Vec<Hupa>) -> (keys: Vec<String>)
    ensures
        keys.deep_view() == category_keys(hupas.deep_view()),
{
    let n = hupas.len();
    let ghost itemsdv = hupas.deep_view();
    let mut keys: Vec<String> = Vec::new();
    proof {
        assert(itemsdv.subrange(0, 0) =~= Seq::<HupaView>::empty());
        assert(keys.deep_view() =~~= category_keys(itemsdv.subrange(0, 0)));
    }
    let mut j: usize = 0;
    while j < n
        invariant
            j <= n,
            n == hupas@.len(),
            itemsdv == hupas.deep_view(),
            itemsdv.len() == n,
            keys.deep_view() == category_keys(itemsdv.subrange(0, j as int)),
        decreases n - j,
    {
        let k = key_of_item(&hupas[j]);
        let ghost prevkeys = keys.deep_view();
        let m = keys.len();
        let mut a: usize = 0;
        let mut present = false;
        while a < m
            invariant
                a <= m,
                m == keys@.len(),
                prevkeys == keys.deep_view(),
                prevkeys.len() == m,
                k@ == key_of(itemsdv[j as int]),
                !present ==> forall|t: int| 0 <= t < a ==> prevkeys[t] != k@,
                present ==> prevkeys.contains(k@),
            decreases m - a,
        {
            if keys[a] == k {
                present = true;
                proof {
                    assert(prevkeys[a as int] == k@);
                }
            }
            a = a + 1;
        }
        proof {
            let grown = itemsdv.subrange(0, j + 1);
            assert(grown.drop_last() =~= itemsdv.subrange(0, j as int));
            assert(grown.last() == itemsdv[j as int]);
            if !present {
                assert(!prevkeys.contains(k@)) by {
                    if prevkeys.contains(k@) {
                        let t = choose|t: int| 0 <= t < prevkeys.len() && prevkeys[t] == k@;
                        assert(false);
                    }
                }
            }
        }
        if !present {
            keys.push(k);
            proof {
                let dv = keys.deep_view();
                assert forall|t: int| 0 <= t < dv.len() implies dv[t] == prevkeys.push(k@)[t] by {
                    if t < prevkeys.len() {
                        assert(dv[t] == prevkeys[t]);
                    } else {
                        assert(keys@[t] == keys@[keys@.len() - 1]);
                    }
                }
                assert(dv =~= prevkeys.push(k@));
                assert(keys.deep_view() =~~= category_keys(itemsdv.subrange(0, j + 1)));
            }
        } else {
            proof {
                assert(keys.deep_view() =~~= category_keys(itemsdv.subrange(0, j + 1)));
            }
        }
        j = j + 1;
    }
    proof {
        assert(itemsdv.subrange(0, n as int) =~= itemsdv);
    }
    keys
}

/// Groups the items into categories: one category per key, in order of the
/// key's first appearance, each holding exactly the items that bear it, in
/// input order. Never persisted: computed from the collection alone.
#[verifier::rlimit(100)]
pub fn into_categories(hupas: &Vec<Hupa>) -> (r: Vec<Category>)
    ensures
        r@.len() == category_keys(hupas.deep_view()).len(),
        forall|c: int|
            0 <= c < r@.len() ==> (#[trigger] r@[c])@.name == category_keys(
                hupas.deep_view(),
            )[c] && r@[c]@.hupas == in_category(hupas.deep_view(), r@[c]@.name),
{
    let ghost itemsdv = hupas.deep_view();
    let keys = collect_keys(hupas);
    let m = keys.len();
    let mut r: Vec<Category> = Vec::new();
    let mut c: usize = 0;
    while c < m
        invariant
            c <= m,
            m == keys@.len(),
            itemsdv == hupas.deep_view(),
            keys.deep_view() == category_keys(itemsdv),
            keys.deep_view().len() == m,
            r@.len() == c,
            forall|a: int|
                0 <= a < c ==> (#[trigger] r@[a])@.name == category_keys(itemsdv)[a]
                    && r@[a]@.hupas == in_category(itemsdv, r@[a]@.name),
        decreases m - c,
    {
        let members = items_in_category(hupas, &keys[c]);
        let cat = Category { name: keys[c].clone(), hupas: members };
        proof {
            assert(cat@.name == keys.deep_view()[c as int]);
        }
        r.push(cat);
        c = c + 1;
    }
    r
}

} // verus!
