//! Sets and maps keyed by text, kept in ascending order.
//!
//! What counts as the same key, and which of two keys comes first, is a matter of
//! the order: paths are compared component by component, names by their text.
use crate::order;
use crate::paths;
use crate::text;
use std::marker::PhantomData;
use vstd::prelude::*;

verus! {

/// A strict order of texts.
pub trait KeyOrder {
    /// Which text comes before which.
    spec fn rel() -> spec_fn(Seq<char>, Seq<char>) -> bool;

    proof fn strict()
        ensures
            order::is_strict_order(Self::rel()),
    ;

    /// Whether `a` comes before `b`.
    fn before(a: &str, b: &str) -> (r: bool)
        ensures
            r == (Self::rel())(a@, b@),
    ;
}

/// Keys that are paths.
#[derive(Debug)]
pub struct ByPath;

/// Keys that are names.
#[derive(Debug)]
pub struct ByText;

impl KeyOrder for ByPath {
    open spec fn rel() -> spec_fn(Seq<char>, Seq<char>) -> bool {
        paths::by_path()
    }

    proof fn strict() {
        paths::lemma_path_order();
    }

    fn before(a: &str, b: &str) -> (r: bool) {
        paths::path_before(a, b)
    }
}

impl KeyOrder for ByText {
    open spec fn rel() -> spec_fn(Seq<char>, Seq<char>) -> bool {
        paths::by_text()
    }

    proof fn strict() {
        paths::lemma_text_order();
    }

    fn before(a: &str, b: &str) -> (r: bool) {
        text::text_before(a, b)
    }
}

/// How many of the ascending `keys` come before `x`.
fn lower_bound<O: KeyOrder>(keys: &Vec<String>, x: &str) -> (r: usize)
    requires
        order::ascending(text::texts(keys@), O::rel()),
    ensures
        r <= keys.len(),
        forall|j: int| 0 <= j < r ==> (O::rel())(#[trigger] text::texts(keys@)[j], x@),
        forall|j: int| r <= j < keys.len() ==> !(O::rel())(#[trigger] text::texts(keys@)[j], x@),
{
    let ghost all = text::texts(keys@);
    let ghost lt = O::rel();
    let mut lo: usize = 0;
    let mut hi: usize = keys.len();
    proof {
        O::strict();
    }
    while lo < hi
        invariant
            lo <= hi <= keys.len(),
            all == text::texts(keys@),
            lt == O::rel(),
            order::is_strict_order(lt),
            order::ascending(all, lt),
            forall|j: int| 0 <= j < lo ==> (O::rel())(#[trigger] all[j], x@),
            forall|j: int| hi <= j < keys.len() ==> !(O::rel())(#[trigger] all[j], x@),
        decreases hi - lo,
    {
        let mid: usize = lo + (hi - lo) / 2;
        assert(all[mid as int] == keys@[mid as int]@);
        if O::before(keys[mid].as_str(), x) {
            assert forall|j: int| 0 <= j <= mid implies (O::rel())(#[trigger] all[j], x@) by {
                if j < mid {
                    assert(lt(all[j], all[mid as int]));
                    assert(lt(all[mid as int], x@));
                    assert(lt(all[j], x@));
                }
            }
            lo = mid + 1;
        } else {
            assert forall|j: int| mid <= j < keys.len() implies !(O::rel())(#[trigger] all[j], x@) by {
                if j > mid {
                    assert(lt(all[mid as int], all[j]));
                    assert(lt(all[j], x@) ==> lt(all[mid as int], x@));
                }
            }
            hi = mid;
        }
    }
    lo
}

// ---------------------------------------------------------------------------
// Sets
// ---------------------------------------------------------------------------

/// A set of keys, in ascending order. Of keys that are the same, the first one put
/// in stays.
#[derive(Debug)]
pub struct KeySet<O: KeyOrder> {
    items: Vec<String>,
    order: PhantomData<O>,
}

/// A set of paths.
pub type PathSet = KeySet<ByPath>;

/// A set of names.
pub type TextSet = KeySet<ByText>;

impl<O: KeyOrder> View for KeySet<O> {
    type V = Seq<Seq<char>>;

    closed spec fn view(&self) -> Seq<Seq<char>> {
        text::texts(self.items@)
    }
}

impl<O: KeyOrder> KeySet<O> {
    #[verifier::type_invariant]
    spec fn inv(self) -> bool {
        order::ascending(text::texts(self.items@), O::rel())
    }

    /// Whether the set holds `x`.
    pub open spec fn has(self, x: Seq<char>) -> bool {
        order::holds(self@, x, O::rel())
    }

    /// The empty set.
    pub fn new() -> (r: Self)
        ensures
            r@ == Seq::<Seq<char>>::empty(),
    {
        let r = KeySet { items: Vec::new(), order: PhantomData };
        assert(text::texts(r.items@) == Seq::<Seq<char>>::empty());
        r
    }

    /// The set of what `xs` lists.
    pub fn of(xs: Vec<String>) -> (r: Self)
        ensures
            r@ == order::added_all(Seq::empty(), text::texts(xs@), O::rel()),
            forall|x: Seq<char>| #[trigger]
                r.has(x) <==> order::holds(text::texts(xs@), x, O::rel()),
    {
        let mut r = KeySet::<O>::new();
        let ghost all = text::texts(xs@);
        let mut i: usize = 0;
        while i < xs.len()
            invariant
                i <= xs.len(),
                all == text::texts(xs@),
                r@ == order::added_all(Seq::empty(), all.take(i as int), O::rel()),
            decreases xs.len() - i,
        {
            r.insert(xs[i].clone());
            assert(all.take(i + 1).drop_last() == all.take(i as int));
            i += 1;
        }
        proof {
            assert(all.take(xs.len() as int) == all);
            O::strict();
            order::lemma_added_all(Seq::empty(), all, O::rel());
        }
        r
    }

    /// Put `x` in. Says whether it was new.
    pub fn insert(&mut self, x: String) -> (r: bool)
        ensures
            final(self)@ == order::added(old(self)@, x@, O::rel()),
            r == !old(self).has(x@),
            forall|y: Seq<char>| #[trigger]
                final(self).has(y) <==> old(self).has(y) || order::alike(x@, y, O::rel()),
    {
        proof {
            use_type_invariant(&*self);
            O::strict();
        }
        let mut items: Vec<String> = Vec::new();
        std::mem::swap(&mut items, &mut self.items);
        let ghost all = text::texts(items@);
        let ghost lt = O::rel();
        let k = lower_bound::<O>(&items, x.as_str());
        let known = k < items.len() && !O::before(x.as_str(), items[k].as_str());
        proof {
            order::lemma_added(all, x@, lt);
            lemma_found(all, x@, lt, k as int);
            if known {
                assert(all[k as int] == items@[k as int]@);
                order::lemma_added_at(all, x@, lt, k + 1);
            } else {
                if k < items.len() {
                    assert(all[k as int] == items@[k as int]@);
                }
                if k > 0 {
                    assert(lt(all[k - 1], x@));
                    assert(lt(x@, all[k - 1]) ==> lt(x@, x@));
                }
                order::lemma_added_at(all, x@, lt, k as int);
            }
        }
        if !known {
            items.insert(k, x);
            assert(text::texts(items@) == all.insert(k as int, x@));
        }
        self.items = items;
        !known
    }

    /// Whether the set holds `x`.
    pub fn contains(&self, x: &str) -> (r: bool)
        ensures
            r == self.has(x@),
    {
        proof {
            use_type_invariant(self);
            O::strict();
        }
        let k = lower_bound::<O>(&self.items, x);
        proof {
            lemma_found(self@, x@, O::rel(), k as int);
            if k < self.items.len() {
                assert(self@[k as int] == self.items@[k as int]@);
            }
        }
        k < self.items.len() && !O::before(x, self.items[k].as_str())
    }

    /// The position of `x` in ascending order, if the set holds it.
    pub fn position(&self, x: &str) -> (r: Option<usize>)
        ensures
            match r {
                Some(i) => i < self@.len() && forall|j: int|
                    0 <= j < self@.len() ==> (order::alike(
                        #[trigger] self@[j],
                        x@,
                        O::rel(),
                    ) <==> j == i),
                None => !self.has(x@),
            },
    {
        proof {
            use_type_invariant(self);
            O::strict();
        }
        let k = lower_bound::<O>(&self.items, x);
        proof {
            lemma_found(self@, x@, O::rel(), k as int);
            if k < self.items.len() {
                assert(self@[k as int] == self.items@[k as int]@);
            }
        }
        if k < self.items.len() && !O::before(x, self.items[k].as_str()) {
            Some(k)
        } else {
            None
        }
    }

    /// How many keys the set holds.
    pub fn len(&self) -> (r: usize)
        ensures
            r == self@.len(),
    {
        self.items.len()
    }

    /// Whether the set holds nothing.
    pub fn is_empty(&self) -> (r: bool)
        ensures
            r == (self@.len() == 0),
    {
        self.items.len() == 0
    }

    /// The `i`th key in ascending order.
    pub fn get(&self, i: usize) -> (r: &String)
        requires
            i < self@.len(),
        ensures
            r@ == self@[i as int],
    {
        &self.items[i]
    }

    /// The keys in ascending order.
    pub fn to_vec(&self) -> (r: Vec<String>)
        ensures
            text::texts(r@) == self@,
            order::ascending(self@, O::rel()),
    {
        proof {
            use_type_invariant(self);
        }
        text::copy_texts(&self.items)
    }

    /// Whether every key of the set is in `other` too.
    pub fn is_subset(&self, other: &KeySet<O>) -> (r: bool)
        ensures
            r == (forall|x: Seq<char>| self.has(x) ==> #[trigger] other.has(x)),
    {
        let ghost lt = O::rel();
        proof {
            O::strict();
        }
        let mut i: usize = 0;
        while i < self.len()
            invariant
                i <= self@.len(),
                lt == O::rel(),
                order::is_strict_order(lt),
                forall|j: int| 0 <= j < i ==> other.has(#[trigger] self@[j]),
            decreases self@.len() - i,
        {
            if !other.contains(self.get(i).as_str()) {
                assert(order::alike(self@[i as int], self@[i as int], lt));
                assert(self.has(self@[i as int]));
                return false;
            }
            i += 1;
        }
        assert forall|x: Seq<char>| self.has(x) implies #[trigger] other.has(x) by {
            let j = choose|j: int| 0 <= j < self@.len() && order::alike(#[trigger] self@[j], x, lt);
            assert(other.has(self@[j]));
            order::lemma_holds_alike(other@, self@[j], x, lt);
        }
        true
    }
}

impl<O: KeyOrder> Clone for KeySet<O> {
    fn clone(&self) -> (r: Self)
        ensures
            r@ == self@,
    {
        proof {
            use_type_invariant(self);
        }
        let items = text::copy_texts(&self.items);
        KeySet { items, order: PhantomData }
    }
}

/// Where an ascending sequence could hold `x`, and only there.
proof fn lemma_found(
    all: Seq<Seq<char>>,
    x: Seq<char>,
    lt: spec_fn(Seq<char>, Seq<char>) -> bool,
    k: int,
)
    requires
        order::is_strict_order(lt),
        order::ascending(all, lt),
        0 <= k <= all.len(),
        forall|j: int| 0 <= j < k ==> lt(#[trigger] all[j], x),
        forall|j: int| k <= j < all.len() ==> !lt(#[trigger] all[j], x),
    ensures
        order::holds(all, x, lt) <==> k < all.len() && !lt(x, all[k]),
        forall|j: int| k < j < all.len() ==> lt(x, #[trigger] all[j]),
{
    assert forall|j: int| k < j < all.len() implies lt(x, #[trigger] all[j]) by {
        assert(lt(all[k], all[j]));
        assert(lt(all[k], all[j]) ==> lt(all[k], x) || lt(x, all[j]));
    }
    if k < all.len() && !lt(x, all[k]) {
        assert(order::alike(all[k], x, lt));
    }
    if order::holds(all, x, lt) {
        let j = choose|j: int| 0 <= j < all.len() && order::alike(#[trigger] all[j], x, lt);
        assert(j == k);
    }
}

/// Names put into an ascending list are in it just once each: it is as long as
/// there are different ones.
pub proof fn lemma_distinct_texts(xs: Seq<Seq<char>>)
    ensures
        order::added_all(Seq::empty(), xs, ByText::rel()).len() == xs.to_set().len(),
        order::added_all(Seq::empty(), xs, ByText::rel()).no_duplicates(),
        forall|x: Seq<char>|
            order::added_all(Seq::empty(), xs, ByText::rel()).contains(x) <==> xs.contains(x),
{
    let lt = ByText::rel();
    let all = order::added_all(Seq::empty(), xs, lt);
    paths::lemma_text_order();
    order::lemma_added_all(Seq::empty(), xs, lt);
    assert forall|x: Seq<char>| all.contains(x) <==> xs.contains(x) by {
        if all.contains(x) {
            let i = choose|i: int| 0 <= i < all.len() && all[i] == x;
            assert(order::alike(all[i], x, lt));
            assert(order::holds(all, x, lt));
            let j = choose|j: int| 0 <= j < xs.len() && order::alike(#[trigger] xs[j], x, lt);
            assert(xs[j] == x);
        }
        if xs.contains(x) {
            let i = choose|i: int| 0 <= i < xs.len() && xs[i] == x;
            assert(order::alike(xs[i], x, lt));
            assert(order::holds(xs, x, lt));
            assert(order::holds(all, x, lt));
            let j = choose|j: int| 0 <= j < all.len() && order::alike(#[trigger] all[j], x, lt);
            assert(all[j] == x);
        }
    }
    assert(all.no_duplicates()) by {
        assert forall|i: int, j: int| 0 <= i < j < all.len() implies all[i] != all[j] by {
            assert(lt(all[i], all[j]));
        }
    }
    assert(all.to_set() =~= xs.to_set());
    all.unique_seq_to_set();
}

// ---------------------------------------------------------------------------
// Maps
// ---------------------------------------------------------------------------

/// A map from keys to values, in ascending order of the keys.
#[derive(Debug)]
#[verifier::reject_recursive_types(O)]
pub struct KeyMap<O: KeyOrder, V> {
    keys: Vec<String>,
    values: Vec<V>,
    order: PhantomData<O>,
}

/// A map from paths.
pub type PathMap<V> = KeyMap<ByPath, V>;

/// A map from names.
pub type TextMap<V> = KeyMap<ByText, V>;

impl<O: KeyOrder, V> KeyMap<O, V> {
    #[verifier::type_invariant]
    spec fn inv(self) -> bool {
        &&& self.keys@.len() == self.values@.len()
        &&& order::ascending(text::texts(self.keys@), O::rel())
    }

    /// The keys, in ascending order.
    pub closed spec fn keys_view(self) -> Seq<Seq<char>> {
        text::texts(self.keys@)
    }

    /// The values, in the order of their keys.
    pub closed spec fn values_view(self) -> Seq<V> {
        self.values@
    }

    /// Whether there is a value for `k`.
    pub open spec fn has(self, k: Seq<char>) -> bool {
        order::holds(self.keys_view(), k, O::rel())
    }

    /// The position of `k` among the keys, where there is a value for it.
    pub open spec fn index_of(self, k: Seq<char>) -> int {
        choose|i: int|
            0 <= i < self.keys_view().len() && order::alike(#[trigger] self.keys_view()[i], k, O::rel())
    }

    /// The value for `k`, if there is one.
    pub open spec fn at(self, k: Seq<char>) -> Option<V> {
        if self.has(k) {
            Some(self.values_view()[self.index_of(k)])
        } else {
            None
        }
    }

    /// The empty map.
    pub fn new() -> (r: Self)
        ensures
            r.keys_view().len() == 0,
            r.values_view().len() == 0,
            forall|k: Seq<char>| #[trigger] r.at(k) is None,
    {
        let r = KeyMap { keys: Vec::new(), values: Vec::new(), order: PhantomData };
        assert(text::texts(r.keys@) == Seq::<Seq<char>>::empty());
        r
    }

    /// How many keys have a value.
    pub fn len(&self) -> (r: usize)
        ensures
            r == self.keys_view().len(),
            r == self.values_view().len(),
            order::ascending(self.keys_view(), O::rel()),
    {
        proof {
            use_type_invariant(self);
        }
        self.keys.len()
    }

    /// The `i`th key in ascending order.
    pub fn key(&self, i: usize) -> (r: &String)
        requires
            i < self.keys_view().len(),
        ensures
            r@ == self.keys_view()[i as int],
    {
        &self.keys[i]
    }

    /// The value for the `i`th key.
    pub fn value(&self, i: usize) -> (r: &V)
        requires
            i < self.values_view().len(),
        ensures
            *r == self.values_view()[i as int],
    {
        &self.values[i]
    }

    /// The position of `k` among the keys, if there is a value for it.
    pub fn position(&self, k: &str) -> (r: Option<usize>)
        ensures
            r is Some <==> self.has(k@),
            r matches Some(i) ==> i == self.index_of(k@) && i < self.keys_view().len() && i
                < self.values_view().len(),
    {
        proof {
            use_type_invariant(self);
            O::strict();
        }
        let i = lower_bound::<O>(&self.keys, k);
        proof {
            lemma_found(self.keys_view(), k@, O::rel(), i as int);
            if i < self.keys.len() {
                assert(self.keys_view()[i as int] == self.keys@[i as int]@);
            }
        }
        if i < self.keys.len() && !O::before(k, self.keys[i].as_str()) {
            proof {
                assert(order::alike(self.keys_view()[i as int], k@, O::rel()));
                lemma_index_unique(*self, k@, i as int);
            }
            Some(i)
        } else {
            None
        }
    }

    /// The value for `k`, if there is one.
    pub fn get(&self, k: &str) -> (r: Option<&V>)
        ensures
            match r {
                Some(v) => self.at(k@) == Some(*v),
                None => self.at(k@) is None,
            },
    {
        match self.position(k) {
            Some(i) => Some(self.value(i)),
            None => None,
        }
    }

    /// Put `v` in the place of the `i`th value, and hand out the one it takes the
    /// place of.
    pub fn exchange(&mut self, i: usize, v: V) -> (r: V)
        requires
            i < old(self).values_view().len(),
        ensures
            r == old(self).values_view()[i as int],
            final(self).keys_view() == old(self).keys_view(),
            final(self).values_view() == old(self).values_view().update(i as int, v),
    {
        proof {
            use_type_invariant(&*self);
        }
        let mut whole = KeyMap { keys: Vec::new(), values: Vec::new(), order: PhantomData };
        std::mem::swap(&mut whole, self);
        let KeyMap { keys, mut values, .. } = whole;
        let r = values.remove(i);
        values.insert(i, v);
        let mut fresh = KeyMap { keys, values, order: PhantomData };
        std::mem::swap(&mut fresh, self);
        assert(self.values_view() == old(self).values_view().update(i as int, v));
        r
    }

    /// Give `k` the value `v`, in place of the one it has. The key as it was first
    /// spelled stays.
    pub fn insert(&mut self, k: String, v: V)
        ensures
            final(self).keys_view() == order::added(old(self).keys_view(), k@, O::rel()),
            forall|x: Seq<char>| #[trigger]
                final(self).at(x) == if order::alike(k@, x, O::rel()) {
                    Some(v)
                } else {
                    old(self).at(x)
                },
    {
        proof {
            use_type_invariant(&*self);
            O::strict();
        }
        let ghost before = *self;
        let ghost lt = O::rel();
        let i = lower_bound::<O>(&self.keys, k.as_str());
        let known = i < self.keys.len() && !O::before(k.as_str(), self.keys[i].as_str());
        let mut whole = KeyMap { keys: Vec::new(), values: Vec::new(), order: PhantomData };
        std::mem::swap(&mut whole, self);
        let KeyMap { mut keys, mut values, .. } = whole;
        let ghost all = text::texts(keys@);
        proof {
            order::lemma_added(all, k@, lt);
            lemma_found(all, k@, lt, i as int);
            if i < keys.len() {
                assert(all[i as int] == keys@[i as int]@);
            }
            if known {
                order::lemma_added_at(all, k@, lt, i + 1);
            } else {
                if i > 0 {
                    assert(lt(all[i - 1], k@));
                    assert(lt(k@, all[i - 1]) ==> lt(k@, k@));
                }
                order::lemma_added_at(all, k@, lt, i as int);
            }
        }
        if known {
            values.set(i, v);
        } else {
            keys.insert(i, k);
            values.insert(i, v);
            assert(text::texts(keys@) == all.insert(i as int, k@));
        }
        let mut fresh = KeyMap { keys, values, order: PhantomData };
        std::mem::swap(&mut fresh, self);
        proof {
            lemma_inserted(before, *self, k@, v, i as int, known);
        }
    }
}

proof fn lemma_index_unique<O: KeyOrder, V>(m: KeyMap<O, V>, k: Seq<char>, i: int)
    requires
        order::ascending(m.keys_view(), O::rel()),
        0 <= i < m.keys_view().len(),
        order::alike(m.keys_view()[i], k, O::rel()),
    ensures
        m.has(k),
        m.index_of(k) == i,
{
    O::strict();
    let lt = O::rel();
    let all = m.keys_view();
    let j = m.index_of(k);
    assert(order::alike(all[j], k, lt));
    if i < j {
        assert(lt(all[i], all[j]));
        assert(lt(all[i], k) || lt(k, all[j]));
    } else if j < i {
        assert(lt(all[j], all[i]));
        assert(lt(all[j], k) || lt(k, all[i]));
    }
}

proof fn lemma_inserted<O: KeyOrder, V>(
    m: KeyMap<O, V>,
    n: KeyMap<O, V>,
    k: Seq<char>,
    v: V,
    i: int,
    known: bool,
)
    requires
        order::ascending(m.keys_view(), O::rel()),
        order::ascending(n.keys_view(), O::rel()),
        m.keys_view().len() == m.values_view().len(),
        0 <= i <= m.keys_view().len(),
        known ==> i < m.keys_view().len() && order::alike(m.keys_view()[i], k, O::rel())
            && n.keys_view() == m.keys_view() && n.values_view() == m.values_view().update(i, v),
        !known ==> n.keys_view() == m.keys_view().insert(i, k) && n.values_view()
            == m.values_view().insert(i, v),
        known <==> m.has(k),
    ensures
        forall|x: Seq<char>| #[trigger]
            n.at(x) == if order::alike(k, x, O::rel()) {
                Some(v)
            } else {
                m.at(x)
            },
{
    O::strict();
    let lt = O::rel();
    let a = m.keys_view();
    let b = n.keys_view();
    assert forall|x: Seq<char>| #[trigger]
        n.at(x) == if order::alike(k, x, lt) {
            Some(v)
        } else {
            m.at(x)
        } by {
        if order::alike(k, x, lt) {
            assert(order::alike(b[i], k, lt));
            order::lemma_alike(b[i], k, x, lt);
            lemma_index_unique(n, x, i);
        } else if m.has(x) {
            let j = m.index_of(x);
            assert(order::alike(a[j], x, lt));
            let at = if known || j < i {
                j
            } else {
                j + 1
            };
            assert(b[at] == a[j]);
            lemma_index_unique(n, x, at);
            if known && at == i {
                order::lemma_alike(k, a[i], x, lt);
            }
        } else if n.has(x) {
            let j = n.index_of(x);
            assert(order::alike(b[j], x, lt));
            if known {
                assert(a[j] == b[j]);
            } else if j != i {
                let at = if j < i {
                    j
                } else {
                    j - 1
                };
                assert(a[at] == b[j]);
                assert(m.has(x));
            }
        }
    }
}

} // verus!
