//! Ascending lists of indices.
use crate::order;
use std::collections::{BTreeMap, BTreeSet};
use vstd::prelude::*;

verus! {

/// Whether each index is below the next.
pub open spec fn rising(s: Seq<usize>) -> bool {
    forall|i: int, j: int| 0 <= i < j < s.len() ==> s[i] < s[j]
}

/// The indices of `set`, in ascending order.
pub open spec fn listed(set: Set<usize>) -> Seq<usize> {
    choose|s: Seq<usize>| rising(s) && s.to_set() == set
}

/// There is only one way to list indices in ascending order.
pub proof fn lemma_listed_unique(a: Seq<usize>, b: Seq<usize>)
    requires
        rising(a),
        rising(b),
        a.to_set() == b.to_set(),
    ensures
        a == b,
    decreases a.len(),
{
    if a.len() == 0 {
        if b.len() > 0 {
            assert(b.to_set().contains(b[0]));
            assert(a.to_set().contains(b[0]));
        }
        assert(a =~= b);
    } else {
        assert(a.to_set().contains(a.last()));
        assert(b.contains(a.last()));
        assert(b.to_set().contains(b.last()));
        assert(a.contains(b.last()));
        let i = choose|i: int| 0 <= i < a.len() && a[i] == b.last();
        let j = choose|j: int| 0 <= j < b.len() && b[j] == a.last();
        assert(a.last() == b.last());
        let x = a.drop_last();
        let y = b.drop_last();
        assert forall|v: usize| x.to_set().contains(v) <==> y.to_set().contains(v) by {
            if x.contains(v) {
                let k = choose|k: int| 0 <= k < x.len() && x[k] == v;
                assert(a[k] == v);
                assert(a.to_set().contains(v));
                assert(b.contains(v));
                let m = choose|m: int| 0 <= m < b.len() && b[m] == v;
                assert(m < b.len() - 1);
                assert(y[m] == v);
            }
            if y.contains(v) {
                let k = choose|k: int| 0 <= k < y.len() && y[k] == v;
                assert(b[k] == v);
                assert(b.to_set().contains(v));
                assert(a.contains(v));
                let m = choose|m: int| 0 <= m < a.len() && a[m] == v;
                assert(m < a.len() - 1);
                assert(x[m] == v);
            }
        }
        assert(x.to_set() =~= y.to_set());
        lemma_listed_unique(x, y);
        assert(a =~= x.push(a.last()));
        assert(b =~= y.push(b.last()));
    }
}

/// Listing a finite set lists just what it holds.
pub proof fn lemma_listed(set: Set<usize>)
    requires
        set.finite(),
    ensures
        rising(listed(set)),
        listed(set).to_set() == set,
        listed(set).len() == set.len(),
        listed(set).no_duplicates(),
        forall|v: usize| listed(set).contains(v) <==> set.contains(v),
    decreases set.len(),
{
    let s = lemma_listable(set);
    let l = listed(set);
    assert(rising(l) && l.to_set() == set);
    l.unique_seq_to_set();
    assert forall|v: usize| l.contains(v) <==> set.contains(v) by {
        assert(l.to_set().contains(v) <==> l.contains(v));
    }
}

proof fn lemma_listable(set: Set<usize>) -> (s: Seq<usize>)
    requires
        set.finite(),
    ensures
        rising(s),
        s.to_set() == set,
    decreases set.len(),
{
    if set.is_empty() {
        let s = Seq::<usize>::empty();
        assert(s.to_set() =~= set);
        s
    } else {
        let x = set.choose();
        let rest = lemma_listable(set.remove(x));
        let s = order::added(rest, x, below());
        assert(order::ascending(rest, below()));
        order::lemma_added(rest, x, below());
        assert forall|v: usize| s.to_set().contains(v) <==> set.contains(v) by {
            assert(order::holds(s, v, below()) <==> order::holds(rest, v, below()) || order::alike(
                x,
                v,
                below(),
            ));
            lemma_holds_contains(s, v);
            lemma_holds_contains(rest, v);
            assert(rest.to_set().contains(v) <==> rest.contains(v));
        }
        assert(s.to_set() =~= set);
        assert forall|i: int, j: int| 0 <= i < j < s.len() implies s[i] < s[j] by {
            assert(below()(s[i], s[j]));
        }
        s
    }
}

/// The order of indices, as a relation.
spec fn below() -> spec_fn(usize, usize) -> bool {
    |a: usize, b: usize| a < b
}

proof fn lemma_holds_contains(s: Seq<usize>, v: usize)
    ensures
        order::holds(s, v, below()) <==> s.contains(v),
{
    if s.contains(v) {
        let i = choose|i: int| 0 <= i < s.len() && s[i] == v;
        assert(order::alike(s[i], v, below()));
    }
    if order::holds(s, v, below()) {
        let i = choose|i: int| 0 <= i < s.len() && order::alike(#[trigger] s[i], v, below());
        assert(s[i] == v);
    }
}

fn before(a: &usize, b: &usize) -> (r: bool)
    ensures
        r == (*a < *b),
{
    *a < *b
}

/// The indices `v` lists, none of them twice, in ascending order.
fn arranged(v: Vec<usize>) -> (r: Vec<usize>)
    requires
        v@.no_duplicates(),
    ensures
        r@ == listed(v@.to_set()),
        rising(r@),
        r@.len() == v@.len(),
{
    let ghost lt = |a: usize, b: usize| a < b;
    let r = order::sort_by(v, before, Ghost(lt));
    proof {
        broadcast use vstd::seq_lib::group_to_multiset_ensures;

        order::law_sorted(v@, lt);
        assert forall|x: usize| r@.contains(x) <==> v@.contains(x) by {
            assert(r@.to_multiset().count(x) == v@.to_multiset().count(x));
        }
        assert(r@.to_set() =~= v@.to_set());
        v@.lemma_multiset_has_no_duplicates();
        r@.lemma_multiset_has_no_duplicates_conv();
        assert forall|i: int, j: int| 0 <= i < j < r@.len() implies r@[i] < r@[j] by {
            assert(!lt(r@[j], r@[i]));
        }
        lemma_listed(v@.to_set());
        lemma_listed_unique(r@, listed(v@.to_set()));
    }
    r
}

/// The keys of a map, in ascending order.
pub fn map_keys<V>(m: &BTreeMap<usize, V>) -> (r: Vec<usize>)
    ensures
        r@ == listed(m@.dom()),
        rising(r@),
        forall|k: usize| r@.contains(k) <==> m@.contains_key(k),
        forall|i: int| 0 <= i < r@.len() ==> m@.contains_key(#[trigger] r@[i]),
{
    let mut keys: Vec<usize> = Vec::new();
    for k in it: m.keys()
        invariant
            keys@ == it.seq().unref().take(it.index() as int),
            it.seq().unref().to_set() == m@.dom(),
            it.seq().no_duplicates(),
            it.index() == it.seq().len() ==> keys@ == it.seq().unref(),
    {
        keys.push(*k);
        assert(keys@ == it.seq().unref().take(it.index() as int + 1));
    }
    assert(keys@.to_set() == m@.dom());
    assert(keys@.no_duplicates());
    let r = arranged(keys);
    proof {
        lemma_listed(m@.dom());
    }
    r
}

/// The members of a set, in ascending order.
pub fn set_members(m: &BTreeSet<usize>) -> (r: Vec<usize>)
    ensures
        r@ == listed(m@),
        rising(r@),
        forall|k: usize| r@.contains(k) <==> m@.contains(k),
        forall|i: int| 0 <= i < r@.len() ==> m@.contains(#[trigger] r@[i]),
        m@.finite(),
{
    let mut keys: Vec<usize> = Vec::new();
    for k in it: m.iter()
        invariant
            keys@ == it.seq().unref().take(it.index() as int),
            it.seq().unref().to_set() == m@,
            it.seq().no_duplicates(),
            it.index() == it.seq().len() ==> keys@ == it.seq().unref(),
    {
        keys.push(*k);
        assert(keys@ == it.seq().unref().take(it.index() as int + 1));
    }
    assert(keys@.to_set() == m@);
    assert(keys@.no_duplicates());
    proof {
        vstd::seq_lib::seq_to_set_is_finite(keys@);
    }
    let r = arranged(keys);
    proof {
        lemma_listed(m@);
    }
    r
}

} // verus!
