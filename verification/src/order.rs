//! Stable sorting by an integer key.
use vstd::prelude::*;

verus! {

/// `s` with `a` placed behind the last item whose key is not above that of `a`.
pub open spec fn insert_by<A>(s: Seq<A>, key: spec_fn(A) -> int, a: A) -> Seq<A>
    decreases s.len(),
{
    if s.len() == 0 || key(s.last()) <= key(a) {
        s.push(a)
    } else {
        insert_by(s.drop_last(), key, a).push(s.last())
    }
}

/// The items of `s` in ascending order of `key`; items with equal keys keep
/// the order that they have in `s`.
pub open spec fn stable_sort<A>(s: Seq<A>, key: spec_fn(A) -> int) -> Seq<A>
    decreases s.len(),
{
    if s.len() == 0 {
        s
    } else {
        insert_by(stable_sort(s.drop_last(), key), key, s.last())
    }
}

/// The keys of `s` never decrease.
pub open spec fn ascending<A>(s: Seq<A>, key: spec_fn(A) -> int) -> bool {
    forall|i: int, j: int| 0 <= i <= j < s.len() ==> key(#[trigger] s[i]) <= key(#[trigger] s[j])
}

/// The indices below `n`, in order.
pub open spec fn indices(n: nat) -> Seq<usize> {
    Seq::new(n, |i: int| i as usize)
}

/// The items of `s` that `order` names, in the order in which it names them.
pub open spec fn picked<A>(s: Seq<A>, order: Seq<usize>) -> Seq<A> {
    order.map_values(|i: usize| s[i as int])
}

proof fn insert_by_ascending<A>(s: Seq<A>, key: spec_fn(A) -> int, a: A)
    requires
        ascending(s, key),
    ensures
        ascending(insert_by(s, key, a), key),
        insert_by(s, key, a).len() == s.len() + 1,
        forall|i: int|
            0 <= i <= s.len() ==> key(#[trigger] insert_by(s, key, a)[i]) <= if s.len() > 0 && key(
                s.last(),
            ) > key(a) {
                key(s.last())
            } else {
                key(a)
            },
    decreases s.len(),
{
    if s.len() == 0 || key(s.last()) <= key(a) {
    } else {
        insert_by_ascending(s.drop_last(), key, a);
    }
}

/// A stable sort puts the keys in ascending order.
pub proof fn stable_sort_ascending<A>(s: Seq<A>, key: spec_fn(A) -> int)
    ensures
        ascending(stable_sort(s, key), key),
        stable_sort(s, key).len() == s.len(),
    decreases s.len(),
{
    if s.len() > 0 {
        stable_sort_ascending(s.drop_last(), key);
        insert_by_ascending(stable_sort(s.drop_last(), key), key, s.last());
    }
}

proof fn insert_by_multiset<A>(s: Seq<A>, key: spec_fn(A) -> int, a: A)
    ensures
        insert_by(s, key, a).to_multiset() == s.to_multiset().insert(a),
    decreases s.len(),
{
    broadcast use vstd::seq_lib::group_to_multiset_ensures;

    if s.len() == 0 || key(s.last()) <= key(a) {
    } else {
        insert_by_multiset(s.drop_last(), key, a);
        assert(s =~= s.drop_last().push(s.last()));
        assert(insert_by(s, key, a).to_multiset() =~= s.to_multiset().insert(a));
    }
}

/// A stable sort keeps every item, as often as it occurs.
pub proof fn stable_sort_permutes<A>(s: Seq<A>, key: spec_fn(A) -> int)
    ensures
        stable_sort(s, key).to_multiset() == s.to_multiset(),
    decreases s.len(),
{
    broadcast use vstd::seq_lib::group_to_multiset_ensures;

    if s.len() > 0 {
        stable_sort_permutes(s.drop_last(), key);
        insert_by_multiset(stable_sort(s.drop_last(), key), key, s.last());
        assert(s =~= s.drop_last().push(s.last()));
    }
}

proof fn insert_by_group<A>(s: Seq<A>, key: spec_fn(A) -> int, a: A, k: int)
    requires
        ascending(s, key),
    ensures
        insert_by(s, key, a).filter(|x: A| key(x) == k) == if key(a) == k {
            s.filter(|x: A| key(x) == k).push(a)
        } else {
            s.filter(|x: A| key(x) == k)
        },
    decreases s.len(),
{
    reveal(Seq::filter);
    let same = |x: A| key(x) == k;
    if s.len() == 0 || key(s.last()) <= key(a) {
        assert(s.push(a).drop_last() =~= s);
    } else {
        insert_by_group(s.drop_last(), key, a, k);
        let t = insert_by(s.drop_last(), key, a);
        assert(t.push(s.last()).drop_last() =~= t);
    }
}

/// Items with equal keys keep their order: seen through any one key, a stable
/// sort leaves the sequence as it was.
pub proof fn stable_sort_keeps_ties<A>(s: Seq<A>, key: spec_fn(A) -> int, k: int)
    ensures
        stable_sort(s, key).filter(|x: A| key(x) == k) == s.filter(|x: A| key(x) == k),
    decreases s.len(),
{
    reveal(Seq::filter);
    if s.len() > 0 {
        stable_sort_keeps_ties(s.drop_last(), key, k);
        stable_sort_ascending(s.drop_last(), key);
        insert_by_group(stable_sort(s.drop_last(), key), key, s.last(), k);
    }
}

proof fn insert_by_position<A>(s: Seq<A>, key: spec_fn(A) -> int, a: A, p: int)
    requires
        0 <= p <= s.len(),
        p > 0 ==> key(s[p - 1]) <= key(a),
        forall|i: int| p <= i < s.len() ==> key(#[trigger] s[i]) > key(a),
    ensures
        insert_by(s, key, a) == s.insert(p, a),
    decreases s.len(),
{
    if s.len() == 0 || key(s.last()) <= key(a) {
        assert(p == s.len());
        assert(s.insert(p, a) =~= s.push(a));
    } else {
        assert(p < s.len());
        insert_by_position(s.drop_last(), key, a, p);
        assert(s.insert(p, a) =~= s.drop_last().insert(p, a).push(s.last()));
    }
}

proof fn insert_by_mapped<A, B>(
    s: Seq<A>,
    f: spec_fn(A) -> B,
    key: spec_fn(B) -> int,
    own: spec_fn(A) -> int,
    a: A,
)
    requires
        forall|x: A| #[trigger] own(x) == key(f(x)),
    ensures
        insert_by(s, own, a).map_values(f) == insert_by(s.map_values(f), key, f(a)),
    decreases s.len(),
{
    let t = s.map_values(f);
    if s.len() == 0 || own(s.last()) <= own(a) {
        assert(s.push(a).map_values(f) =~= t.push(f(a)));
    } else {
        insert_by_mapped(s.drop_last(), f, key, own, a);
        assert(t.drop_last() =~= s.drop_last().map_values(f));
        let u = insert_by(s.drop_last(), own, a);
        assert(u.push(s.last()).map_values(f) =~= u.map_values(f).push(f(s.last())));
    }
}

/// Sorting commutes with mapping the items, where the keys agree.
pub proof fn stable_sort_mapped<A, B>(
    s: Seq<A>,
    f: spec_fn(A) -> B,
    key: spec_fn(B) -> int,
    own: spec_fn(A) -> int,
)
    requires
        forall|x: A| #[trigger] own(x) == key(f(x)),
    ensures
        stable_sort(s, own).map_values(f) == stable_sort(s.map_values(f), key),
    decreases s.len(),
{
    let t = s.map_values(f);
    if s.len() == 0 {
        assert(t =~= Seq::<B>::empty());
        assert(stable_sort(s, own).map_values(f) =~= t);
    } else {
        stable_sort_mapped(s.drop_last(), f, key, own);
        assert(t.drop_last() =~= s.drop_last().map_values(f));
        insert_by_mapped(stable_sort(s.drop_last(), own), f, key, own, s.last());
    }
}

/// Only what the keys are on the items matters for a sort.
pub proof fn stable_sort_same<A>(s: Seq<A>, key: spec_fn(A) -> int, other: spec_fn(A) -> int)
    requires
        forall|i: int| 0 <= i < s.len() ==> key(#[trigger] s[i]) == other(s[i]),
    ensures
        stable_sort(s, key) == stable_sort(s, other),
    decreases s.len(),
{
    if s.len() > 0 {
        let front = s.drop_last();
        assert forall|i: int| 0 <= i < front.len() implies key(#[trigger] front[i]) == other(
            front[i],
        ) by {
            assert(front[i] == s[i]);
        }
        stable_sort_same(front, key, other);
        stable_sort_from(front, key, |a: A| key(a) == other(a));
        assert(key(s[s.len() - 1]) == other(s[s.len() - 1]));
        insert_by_same(stable_sort(front, key), key, other, s.last());
    }
}

proof fn insert_by_same<A>(s: Seq<A>, key: spec_fn(A) -> int, other: spec_fn(A) -> int, a: A)
    requires
        forall|i: int| 0 <= i < s.len() ==> key(#[trigger] s[i]) == other(s[i]),
        key(a) == other(a),
    ensures
        insert_by(s, key, a) == insert_by(s, other, a),
    decreases s.len(),
{
    if s.len() > 0 {
        let front = s.drop_last();
        assert forall|i: int| 0 <= i < front.len() implies key(#[trigger] front[i]) == other(
            front[i],
        ) by {
            assert(front[i] == s[i]);
        }
        assert(key(s[s.len() - 1]) == other(s[s.len() - 1]));
        insert_by_same(front, key, other, a);
    }
}

/// What a stable order of the indices of `s` picks is `s`, stably sorted.
pub proof fn picked_is_sorted<A>(s: Seq<A>, key: spec_fn(A) -> int, own: spec_fn(usize) -> int)
    requires
        s.len() <= usize::MAX,
        forall|i: usize| i < s.len() ==> #[trigger] own(i) == key(s[i as int]),
    ensures
        picked(s, stable_sort(indices(s.len()), own)) == stable_sort(s, key),
{
    let f = |i: usize| s[i as int];
    let through = |i: usize| key(s[i as int]);
    stable_sort_same(indices(s.len()), own, through);
    stable_sort_mapped(indices(s.len()), f, key, through);
    assert(indices(s.len()).map_values(f) =~= s);
}

proof fn insert_by_from<A>(s: Seq<A>, key: spec_fn(A) -> int, a: A, ok: spec_fn(A) -> bool)
    requires
        forall|i: int| 0 <= i < s.len() ==> ok(#[trigger] s[i]),
        ok(a),
    ensures
        forall|i: int|
            0 <= i < insert_by(s, key, a).len() ==> ok(#[trigger] insert_by(s, key, a)[i]),
    decreases s.len(),
{
    let t = insert_by(s, key, a);
    if s.len() == 0 || key(s.last()) <= key(a) {
        assert forall|i: int| 0 <= i < t.len() implies ok(#[trigger] t[i]) by {
            assert(t[i] == if i < s.len() { s[i] } else { a });
        }
    } else {
        let u = s.drop_last();
        assert forall|i: int| 0 <= i < u.len() implies ok(#[trigger] u[i]) by {
            assert(u[i] == s[i]);
        }
        insert_by_from(u, key, a, ok);
        assert forall|i: int| 0 <= i < t.len() implies ok(#[trigger] t[i]) by {
            if i + 1 < t.len() {
                assert(t[i] == insert_by(u, key, a)[i]);
            } else {
                assert(t[i] == s[s.len() - 1]);
            }
        }
    }
}

/// What holds of every item of `s` holds of every item of `s` sorted.
pub proof fn stable_sort_from<A>(s: Seq<A>, key: spec_fn(A) -> int, ok: spec_fn(A) -> bool)
    requires
        forall|i: int| 0 <= i < s.len() ==> ok(#[trigger] s[i]),
    ensures
        forall|i: int|
            0 <= i < stable_sort(s, key).len() ==> ok(#[trigger] stable_sort(s, key)[i]),
    decreases s.len(),
{
    if s.len() > 0 {
        stable_sort_from(s.drop_last(), key, ok);
        insert_by_from(stable_sort(s.drop_last(), key), key, s.last(), ok);
    }
}

/// The order in which a stable sort visits the indices of `keys`.
pub fn stable_order(keys: &Vec<i128>) -> (order: Vec<usize>)
    ensures
        order@ == stable_sort(indices(keys@.len()), |i: usize| keys@[i as int] as int),
        order@.len() == keys@.len(),
        forall|i: int| 0 <= i < order@.len() ==> (#[trigger] order@[i]) < keys@.len(),
{
    let ghost own = |i: usize| keys@[i as int] as int;
    let mut order: Vec<usize> = Vec::new();
    let mut n: usize = 0;
    assert(indices(0) =~= Seq::<usize>::empty());
    while n < keys.len()
        invariant
            n <= keys@.len(),
            own == (|i: usize| keys@[i as int] as int),
            order@ == stable_sort(indices(n as nat), own),
            order@.len() == n,
            forall|i: int| 0 <= i < order@.len() ==> (#[trigger] order@[i]) < n,
        decreases keys@.len() - n,
    {
        let mut p: usize = order.len();
        while p > 0 && keys[order[p - 1]] > keys[n]
            invariant
                n < keys@.len(),
                own == (|i: usize| keys@[i as int] as int),
                p <= order@.len(),
                forall|i: int| 0 <= i < order@.len() ==> (#[trigger] order@[i]) < n,
                forall|i: int| p <= i < order@.len() ==> own(#[trigger] order@[i]) > own(n),
            decreases p,
        {
            p = p - 1;
        }
        proof {
            insert_by_position(order@, own, n, p as int);
            assert(indices((n + 1) as nat).drop_last() =~= indices(n as nat));
            assert(indices((n + 1) as nat).last() == n);
        }
        order.insert(p, n);
        n = n + 1;
    }
    order
}

/// What `f` makes of the indices below `n` that `keep` admits, in their order.
pub open spec fn kept<A>(n: nat, keep: spec_fn(int) -> bool, f: spec_fn(int) -> A) -> Seq<A> {
    Seq::new(n, |i: int| i).filter(keep).map_values(f)
}

/// One index more adds one item, where it is admitted, and nothing otherwise.
pub proof fn kept_grows<A>(n: nat, keep: spec_fn(int) -> bool, f: spec_fn(int) -> A)
    ensures
        n == 0 ==> kept(n, keep, f) == Seq::<A>::empty(),
        n > 0 ==> kept(n, keep, f) == if keep(n - 1) {
            kept((n - 1) as nat, keep, f).push(f(n - 1))
        } else {
            kept((n - 1) as nat, keep, f)
        },
{
    reveal(Seq::filter);
    let all = Seq::new(n, |i: int| i);
    if n == 0 {
        assert(kept(n, keep, f) =~= Seq::<A>::empty());
    } else {
        let front = Seq::new((n - 1) as nat, |i: int| i);
        assert(all.drop_last() =~= front);
        assert(all.last() == n - 1);
        let short = front.filter(keep);
        if keep(n - 1) {
            assert(short.push(n - 1).map_values(f) =~= short.map_values(f).push(f(n - 1)));
        }
    }
}

/// Sorting changes nothing in how many items have a property.
pub proof fn stable_sort_counts<A>(s: Seq<A>, key: spec_fn(A) -> int, ok: spec_fn(A) -> bool)
    ensures
        stable_sort(s, key).filter(ok).len() == s.filter(ok).len(),
    decreases s.len(),
{
    reveal(Seq::filter);
    if s.len() > 0 {
        stable_sort_counts(s.drop_last(), key, ok);
        insert_by_counts(stable_sort(s.drop_last(), key), key, s.last(), ok);
    }
}

proof fn insert_by_counts<A>(s: Seq<A>, key: spec_fn(A) -> int, a: A, ok: spec_fn(A) -> bool)
    ensures
        insert_by(s, key, a).filter(ok).len() == s.filter(ok).len() + if ok(a) {
            1int
        } else {
            0int
        },
    decreases s.len(),
{
    reveal(Seq::filter);
    if s.len() == 0 || key(s.last()) <= key(a) {
        assert(s.push(a).drop_last() =~= s);
    } else {
        insert_by_counts(s.drop_last(), key, a, ok);
        let t = insert_by(s.drop_last(), key, a);
        assert(t.push(s.last()).drop_last() =~= t);
    }
}

/// Where the first `k` items have a property, at least `k` have it.
pub proof fn first_count<A>(s: Seq<A>, ok: spec_fn(A) -> bool, k: int)
    requires
        0 <= k <= s.len(),
        forall|i: int| 0 <= i < k ==> ok(#[trigger] s[i]),
    ensures
        s.filter(ok).len() >= k,
    decreases s.len(),
{
    reveal(Seq::filter);
    if s.len() > 0 {
        let front = s.drop_last();
        let m = if k == s.len() {
            k - 1
        } else {
            k
        };
        assert forall|i: int| 0 <= i < m implies ok(#[trigger] front[i]) by {
            assert(front[i] == s[i]);
        }
        first_count(front, ok, m);
        if k == s.len() {
            assert(ok(s[k - 1]));
        }
    }
}

/// Where none of the items from `k` on has a property, at most `k` have it.
pub proof fn last_count<A>(s: Seq<A>, ok: spec_fn(A) -> bool, k: int)
    requires
        0 <= k <= s.len(),
        forall|i: int| k <= i < s.len() ==> !ok(#[trigger] s[i]),
    ensures
        s.filter(ok).len() <= k,
    decreases s.len(),
{
    reveal(Seq::filter);
    if s.len() > 0 {
        let front = s.drop_last();
        let m = if k == s.len() {
            k - 1
        } else {
            k
        };
        assert forall|i: int| m <= i < front.len() implies !ok(#[trigger] front[i]) by {
            assert(front[i] == s[i]);
        }
        last_count(front, ok, m);
        if k < s.len() {
            assert(!ok(s[s.len() - 1]));
        }
    }
}

} // verus!
