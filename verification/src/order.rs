//! Stable sorting by a strict order.
use vstd::prelude::*;

verus! {

/// Whether `lt` orders values as a stable sort needs it: nothing comes before
/// itself, "before" carries over, and so does "neither before nor after".
pub open spec fn is_strict_order<T>(lt: spec_fn(T, T) -> bool) -> bool {
    &&& forall|a: T| !#[trigger] lt(a, a)
    &&& forall|a: T, b: T, c: T| #[trigger] lt(a, b) && #[trigger] lt(b, c) ==> lt(a, c)
    &&& forall|a: T, b: T, c: T| #[trigger] lt(a, c) ==> #[trigger] lt(a, b) || lt(b, c)
}

/// Whether no value of `s` comes before an earlier one.
pub open spec fn is_sorted<T>(s: Seq<T>, lt: spec_fn(T, T) -> bool) -> bool {
    forall|i: int, j: int| 0 <= i < j < s.len() ==> !#[trigger] lt(s[j], s[i])
}

/// `s` with `x` put in behind everything that it does not come before.
pub open spec fn placed<T>(s: Seq<T>, x: T, lt: spec_fn(T, T) -> bool) -> Seq<T>
    decreases s.len(),
{
    if s.len() > 0 && lt(x, s.last()) {
        placed(s.drop_last(), x, lt).push(s.last())
    } else {
        s.push(x)
    }
}

/// `s` in order, with values that neither come before the other left as they were.
pub open spec fn sorted<T>(s: Seq<T>, lt: spec_fn(T, T) -> bool) -> Seq<T>
    decreases s.len(),
{
    if s.len() == 0 {
        s
    } else {
        placed(sorted(s.drop_last(), lt), s.last(), lt)
    }
}

proof fn lemma_placed<T>(s: Seq<T>, x: T, lt: spec_fn(T, T) -> bool)
    requires
        is_strict_order(lt),
        is_sorted(s, lt),
    ensures
        is_sorted(placed(s, x, lt), lt),
        placed(s, x, lt).to_multiset() == s.to_multiset().insert(x),
        placed(s, x, lt).len() == s.len() + 1,
        forall|k: int|
            0 <= k < placed(s, x, lt).len() ==> #[trigger] placed(s, x, lt)[k] == x || s.contains(
                placed(s, x, lt)[k],
            ),
    decreases s.len(),
{
    broadcast use vstd::seq_lib::group_to_multiset_ensures;

    if s.len() > 0 && lt(x, s.last()) {
        let head = s.drop_last();
        let rest = placed(head, x, lt);
        let all = placed(s, x, lt);
        lemma_placed(head, x, lt);
        assert(s == head.push(s.last()));
        assert forall|i: int, j: int| 0 <= i < j < all.len() implies !#[trigger] lt(
            all[j],
            all[i],
        ) by {
            if j == all.len() - 1 {
                assert(all[i] == rest[i]);
                if rest[i] != x {
                    let k = choose|k: int| 0 <= k < head.len() && head[k] == rest[i];
                    assert(s[k] == head[k]);
                }
            } else {
                assert(all[i] == rest[i] && all[j] == rest[j]);
            }
        }
        assert(all.to_multiset() =~= s.to_multiset().insert(x));
        assert forall|k: int| 0 <= k < all.len() implies #[trigger] all[k] == x || s.contains(
            all[k],
        ) by {
            if k < all.len() - 1 {
                assert(all[k] == rest[k]);
                if rest[k] != x {
                    let m = choose|m: int| 0 <= m < head.len() && head[m] == rest[k];
                    assert(s[m] == rest[k]);
                }
            } else {
                assert(s[s.len() - 1] == all[k]);
            }
        }
    } else {
        let all = s.push(x);
        assert forall|i: int, j: int| 0 <= i < j < all.len() implies !#[trigger] lt(
            all[j],
            all[i],
        ) by {
            if j == s.len() && i < s.len() - 1 {
                // Not before the last one, so not before any earlier one either.
                assert(!lt(s[s.len() - 1], s[i]));
                assert(lt(x, s[i]) ==> lt(x, s[s.len() - 1]) || lt(s[s.len() - 1], s[i]));
            }
        }
        assert forall|k: int| 0 <= k < all.len() implies #[trigger] all[k] == x || s.contains(
            all[k],
        ) by {
            if k < s.len() {
                assert(s[k] == all[k]);
            }
        }
    }
}

/// Sorting puts the very values it was given in order.
pub proof fn law_sorted<T>(s: Seq<T>, lt: spec_fn(T, T) -> bool)
    requires
        is_strict_order(lt),
    ensures
        is_sorted(sorted(s, lt), lt),
        sorted(s, lt).to_multiset() == s.to_multiset(),
        sorted(s, lt).len() == s.len(),
    decreases s.len(),
{
    broadcast use vstd::seq_lib::group_to_multiset_ensures;

    if s.len() > 0 {
        law_sorted(s.drop_last(), lt);
        lemma_placed(sorted(s.drop_last(), lt), s.last(), lt);
        assert(s == s.drop_last().push(s.last()));
        assert(sorted(s, lt).to_multiset() =~= s.to_multiset());
    }
}

proof fn lemma_filter_placed<T>(
    s: Seq<T>,
    x: T,
    lt: spec_fn(T, T) -> bool,
    keep: spec_fn(T) -> bool,
)
    requires
        forall|a: T, b: T| keep(a) && keep(b) ==> !#[trigger] lt(a, b),
    ensures
        placed(s, x, lt).filter(keep) == s.push(x).filter(keep),
    decreases s.len(),
{
    reveal(Seq::filter);
    assert(s.push(x).drop_last() == s);
    if s.len() > 0 && lt(x, s.last()) {
        let head = s.drop_last();
        lemma_filter_placed(head, x, lt, keep);
        assert(placed(s, x, lt).drop_last() == placed(head, x, lt));
        assert(head.push(x).drop_last() == head);
        let kept = head.filter(keep);
        assert(s.filter(keep) == if keep(s.last()) {
            kept.push(s.last())
        } else {
            kept
        });
        assert(head.push(x).filter(keep) == if keep(x) {
            kept.push(x)
        } else {
            kept
        });
        assert(placed(s, x, lt).last() == s.last());
    }
}

/// Sorting is stable: values none of which comes before another keep their order.
pub proof fn law_sorted_is_stable<T>(
    s: Seq<T>,
    lt: spec_fn(T, T) -> bool,
    keep: spec_fn(T) -> bool,
)
    requires
        forall|a: T, b: T| keep(a) && keep(b) ==> !#[trigger] lt(a, b),
    ensures
        sorted(s, lt).filter(keep) == s.filter(keep),
    decreases s.len(),
{
    if s.len() > 0 {
        let head = s.drop_last();
        law_sorted_is_stable(head, lt, keep);
        lemma_filter_placed(sorted(head, lt), s.last(), lt, keep);
        assert(sorted(head, lt).push(s.last()).drop_last() == sorted(head, lt));
        reveal(Seq::filter);
    }
}

proof fn lemma_placed_map<T, U>(
    s: Seq<T>,
    x: T,
    f: spec_fn(T) -> U,
    lt: spec_fn(T, T) -> bool,
    rel: spec_fn(U, U) -> bool,
)
    requires
        forall|a: T, b: T| #[trigger] lt(a, b) == rel(f(a), f(b)),
    ensures
        placed(s, x, lt).map_values(f) == placed(s.map_values(f), f(x), rel),
    decreases s.len(),
{
    if s.len() > 0 && lt(x, s.last()) {
        lemma_placed_map(s.drop_last(), x, f, lt, rel);
        assert(s.map_values(f).drop_last() == s.drop_last().map_values(f));
        assert(placed(s, x, lt).map_values(f) == placed(s.drop_last(), x, lt).map_values(f).push(
            f(s.last()),
        ));
    } else {
        if s.len() > 0 {
            assert(s.map_values(f).last() == f(s.last()));
            assert(!lt(x, s.last()));
        }
        assert(s.push(x).map_values(f) == s.map_values(f).push(f(x)));
    }
}

/// Sorting by what `f` says of the values, and sorting what it says, is the same.
pub proof fn lemma_sorted_map<T, U>(
    s: Seq<T>,
    f: spec_fn(T) -> U,
    lt: spec_fn(T, T) -> bool,
    rel: spec_fn(U, U) -> bool,
)
    requires
        forall|a: T, b: T| #[trigger] lt(a, b) == rel(f(a), f(b)),
    ensures
        sorted(s, lt).map_values(f) == sorted(s.map_values(f), rel),
    decreases s.len(),
{
    if s.len() > 0 {
        lemma_sorted_map(s.drop_last(), f, lt, rel);
        lemma_placed_map(sorted(s.drop_last(), lt), s.last(), f, lt, rel);
        assert(s.map_values(f).drop_last() == s.drop_last().map_values(f));
    } else {
        assert(sorted(s, lt).map_values(f) == sorted(s.map_values(f), rel));
    }
}

proof fn lemma_placed_at<T>(s: Seq<T>, x: T, lt: spec_fn(T, T) -> bool, k: int)
    requires
        0 <= k <= s.len(),
        forall|j: int| k <= j < s.len() ==> lt(x, #[trigger] s[j]),
        k > 0 ==> !lt(x, s[k - 1]),
    ensures
        placed(s, x, lt) == s.insert(k, x),
    decreases s.len(),
{
    if k == s.len() {
        assert(s.insert(k, x) == s.push(x));
    } else {
        lemma_placed_at(s.drop_last(), x, lt, k);
        assert(s.insert(k, x) == s.drop_last().insert(k, x).push(s.last()));
    }
}

/// `v` in order. `before` decides the order `lt`.
pub(crate) fn sort_by<T, F: Fn(&T, &T) -> bool>(
    v: Vec<T>,
    before: F,
    Ghost(lt): Ghost<spec_fn(T, T) -> bool>,
) -> (r: Vec<T>)
    requires
        forall|a: &T, b: &T| #[trigger] before.requires((a, b)),
        forall|a: &T, b: &T, c: bool| #[trigger] before.ensures((a, b), c) ==> c == lt(*a, *b),
    ensures
        r@ == sorted(v@, lt),
{
    let mut rest = v;
    let ghost all = rest@;
    let mut r: Vec<T> = Vec::new();
    let ghost mut n: int = 0;
    while rest.len() > 0
        invariant
            forall|a: &T, b: &T| #[trigger] before.requires((a, b)),
            forall|a: &T, b: &T, c: bool| #[trigger]
                before.ensures((a, b), c) ==> c == lt(*a, *b),
            0 <= n <= all.len(),
            all.len() == n + rest.len(),
            rest@ == all.skip(n),
            r@ == sorted(all.take(n), lt),
        decreases rest.len(),
    {
        let x = rest.remove(0);
        assert(x == all[n]);
        let mut k: usize = r.len();
        while k > 0 && before(&x, &r[k - 1])
            invariant
                forall|a: &T, b: &T| #[trigger] before.requires((a, b)),
                forall|a: &T, b: &T, c: bool| #[trigger]
                    before.ensures((a, b), c) ==> c == lt(*a, *b),
                k <= r.len(),
                forall|j: int| k <= j < r.len() ==> lt(x, #[trigger] r@[j]),
            decreases k,
        {
            k -= 1;
        }
        proof {
            lemma_placed_at(r@, x, lt, k as int);
            assert(all.take(n + 1).drop_last() == all.take(n));
        }
        r.insert(k, x);
        proof {
            n = n + 1;
        }
    }
    assert(all.take(n) == all);
    r
}

// ---------------------------------------------------------------------------
// Ascending sequences without repetition
// ---------------------------------------------------------------------------

/// Whether each value of `s` comes before the later ones.
pub open spec fn ascending<T>(s: Seq<T>, lt: spec_fn(T, T) -> bool) -> bool {
    forall|i: int, j: int| 0 <= i < j < s.len() ==> #[trigger] lt(s[i], s[j])
}

/// Whether `lt` tells `a` and `b` apart.
pub open spec fn alike<T>(a: T, b: T, lt: spec_fn(T, T) -> bool) -> bool {
    !lt(a, b) && !lt(b, a)
}

/// Whether `s` holds a value that `lt` does not tell from `x`.
pub open spec fn holds<T>(s: Seq<T>, x: T, lt: spec_fn(T, T) -> bool) -> bool {
    exists|i: int| 0 <= i < s.len() && alike(#[trigger] s[i], x, lt)
}

/// The ascending `s` with `x` put in its place, unless it holds one like it.
pub open spec fn added<T>(s: Seq<T>, x: T, lt: spec_fn(T, T) -> bool) -> Seq<T>
    decreases s.len(),
{
    if s.len() == 0 || lt(s.last(), x) {
        s.push(x)
    } else if lt(x, s.last()) {
        added(s.drop_last(), x, lt).push(s.last())
    } else {
        s
    }
}

/// All of `xs` put into the ascending `s`, one after another.
pub open spec fn added_all<T>(s: Seq<T>, xs: Seq<T>, lt: spec_fn(T, T) -> bool) -> Seq<T>
    decreases xs.len(),
{
    if xs.len() == 0 {
        s
    } else {
        added(added_all(s, xs.drop_last(), lt), xs.last(), lt)
    }
}

/// Adding a value keeps the order, and the result holds it and what was there.
pub proof fn lemma_added<T>(s: Seq<T>, x: T, lt: spec_fn(T, T) -> bool)
    requires
        is_strict_order(lt),
        ascending(s, lt),
    ensures
        ascending(added(s, x, lt), lt),
        forall|y: T| #[trigger]
            holds(added(s, x, lt), y, lt) <==> holds(s, y, lt) || alike(x, y, lt),
        forall|k: int|
            0 <= k < added(s, x, lt).len() ==> #[trigger] added(s, x, lt)[k] == x || s.contains(
                added(s, x, lt)[k],
            ),
    decreases s.len(),
{
    let all = added(s, x, lt);
    if s.len() == 0 || lt(s.last(), x) {
        assert forall|i: int, j: int| 0 <= i < j < all.len() implies #[trigger] lt(
            all[i],
            all[j],
        ) by {
            if j == s.len() && i < s.len() - 1 {
                assert(lt(s[i], s[s.len() - 1]));
            }
        }
        assert forall|y: T| #[trigger] holds(all, y, lt) <==> holds(s, y, lt) || alike(
            x,
            y,
            lt,
        ) by {
            if holds(s, y, lt) {
                let i = choose|i: int| 0 <= i < s.len() && alike(#[trigger] s[i], y, lt);
                assert(all[i] == s[i]);
            }
            if alike(x, y, lt) {
                assert(all[s.len() as int] == x);
            }
            if holds(all, y, lt) {
                let i = choose|i: int| 0 <= i < all.len() && alike(#[trigger] all[i], y, lt);
                if i < s.len() {
                    assert(s[i] == all[i]);
                }
            }
        }
        assert forall|k: int| 0 <= k < all.len() implies #[trigger] all[k] == x || s.contains(
            all[k],
        ) by {
            if k < s.len() {
                assert(s[k] == all[k]);
            }
        }
    } else if lt(x, s.last()) {
        let head = s.drop_last();
        let rest = added(head, x, lt);
        lemma_added(head, x, lt);
        assert forall|k: int| 0 <= k < all.len() implies #[trigger] all[k] == x || s.contains(
            all[k],
        ) by {
            if k < all.len() - 1 {
                assert(all[k] == rest[k]);
                if rest[k] != x {
                    let m = choose|m: int| 0 <= m < head.len() && head[m] == rest[k];
                    assert(s[m] == rest[k]);
                }
            } else {
                assert(s[s.len() - 1] == all[k]);
            }
        }
        assert forall|i: int, j: int| 0 <= i < j < all.len() implies #[trigger] lt(
            all[i],
            all[j],
        ) by {
            if j == all.len() - 1 {
                assert(all[i] == rest[i]);
                if rest[i] != x {
                    let m = choose|m: int| 0 <= m < head.len() && head[m] == rest[i];
                    assert(lt(s[m], s[s.len() - 1]));
                }
            } else {
                assert(all[i] == rest[i] && all[j] == rest[j]);
            }
        }
        assert forall|y: T| #[trigger] holds(all, y, lt) <==> holds(s, y, lt) || alike(
            x,
            y,
            lt,
        ) by {
            if holds(s, y, lt) {
                let i = choose|i: int| 0 <= i < s.len() && alike(#[trigger] s[i], y, lt);
                if i < s.len() - 1 {
                    assert(head[i] == s[i]);
                    assert(holds(rest, y, lt));
                } else {
                    assert(all[all.len() - 1] == s[i]);
                }
            }
            if alike(x, y, lt) {
                assert(holds(rest, y, lt));
            }
            if holds(rest, y, lt) {
                let i = choose|i: int| 0 <= i < rest.len() && alike(#[trigger] rest[i], y, lt);
                assert(all[i] == rest[i]);
                assert(holds(all, y, lt));
            }
            if holds(all, y, lt) {
                let i = choose|i: int| 0 <= i < all.len() && alike(#[trigger] all[i], y, lt);
                if i < all.len() - 1 {
                    assert(rest[i] == all[i]);
                    assert(holds(rest, y, lt));
                    if holds(head, y, lt) {
                        let m = choose|m: int|
                            0 <= m < head.len() && alike(#[trigger] head[m], y, lt);
                        assert(s[m] == head[m]);
                    }
                } else {
                    assert(s[s.len() - 1] == all[i]);
                }
            }
        }
    } else {
        assert forall|y: T| alike(x, y, lt) implies #[trigger] holds(s, y, lt) by {
            let l = s[s.len() - 1];
            assert(lt(l, y) ==> lt(l, x) || lt(x, y));
            assert(lt(y, l) ==> lt(y, x) || lt(x, l));
            assert(alike(l, y, lt));
        }
        assert forall|k: int| 0 <= k < all.len() implies #[trigger] all[k] == x || s.contains(
            all[k],
        ) by {
            assert(s[k] == all[k]);
        }
    }
}

/// Being alike carries over.
pub proof fn lemma_alike<T>(a: T, b: T, c: T, lt: spec_fn(T, T) -> bool)
    requires
        is_strict_order(lt),
        alike(a, b, lt),
        alike(b, c, lt),
    ensures
        alike(a, c, lt),
{
    assert(lt(a, c) ==> lt(a, b) || lt(b, c));
    assert(lt(c, a) ==> lt(c, b) || lt(b, a));
}

/// What is held is held under every like value.
pub proof fn lemma_holds_alike<T>(s: Seq<T>, a: T, b: T, lt: spec_fn(T, T) -> bool)
    requires
        is_strict_order(lt),
        holds(s, a, lt),
        alike(a, b, lt),
    ensures
        holds(s, b, lt),
{
    let k = choose|k: int| 0 <= k < s.len() && alike(#[trigger] s[k], a, lt);
    lemma_alike(s[k], a, b, lt);
}

/// Where a value is put, and whether it is put in at all.
pub proof fn lemma_added_at<T>(s: Seq<T>, x: T, lt: spec_fn(T, T) -> bool, k: int)
    requires
        is_strict_order(lt),
        0 <= k <= s.len(),
        forall|j: int| k <= j < s.len() ==> lt(x, #[trigger] s[j]),
        k > 0 ==> !lt(x, s[k - 1]),
    ensures
        added(s, x, lt) == if k > 0 && !lt(s[k - 1], x) {
            s
        } else {
            s.insert(k, x)
        },
    decreases s.len(),
{
    if k == s.len() {
        assert(s.insert(k, x) == s.push(x));
    } else {
        let head = s.drop_last();
        assert(lt(x, s[s.len() - 1]));
        lemma_added_at(head, x, lt, k);
        assert(s == head.push(s.last()));
        assert(s.insert(k, x) == head.insert(k, x).push(s.last()));
    }
}

/// Adding several values keeps the order, and the result holds them and what was
/// there.
pub proof fn lemma_added_all<T>(s: Seq<T>, xs: Seq<T>, lt: spec_fn(T, T) -> bool)
    requires
        is_strict_order(lt),
        ascending(s, lt),
    ensures
        ascending(added_all(s, xs, lt), lt),
        forall|y: T| #[trigger]
            holds(added_all(s, xs, lt), y, lt) <==> holds(s, y, lt) || holds(xs, y, lt),
    decreases xs.len(),
{
    if xs.len() > 0 {
        let most = added_all(s, xs.drop_last(), lt);
        lemma_added_all(s, xs.drop_last(), lt);
        lemma_added(most, xs.last(), lt);
        assert forall|y: T| #[trigger] holds(added_all(s, xs, lt), y, lt) <==> holds(s, y, lt)
            || holds(xs, y, lt) by {
            assert(holds(added_all(s, xs, lt), y, lt) <==> holds(most, y, lt) || alike(
                xs.last(),
                y,
                lt,
            ));
            assert(holds(most, y, lt) <==> holds(s, y, lt) || holds(xs.drop_last(), y, lt));
            if holds(xs.drop_last(), y, lt) {
                let i = choose|i: int|
                    0 <= i < xs.drop_last().len() && alike(#[trigger] xs.drop_last()[i], y, lt);
                assert(xs[i] == xs.drop_last()[i]);
            }
            if alike(xs.last(), y, lt) {
                assert(xs[xs.len() - 1] == xs.last());
            }
            if holds(xs, y, lt) {
                let i = choose|i: int| 0 <= i < xs.len() && alike(#[trigger] xs[i], y, lt);
                if i < xs.len() - 1 {
                    assert(xs.drop_last()[i] == xs[i]);
                }
            }
        }
    }
}

} // verus!
