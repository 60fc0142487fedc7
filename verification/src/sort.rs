//! Stable sorting by a pair of numbers.

use vstd::prelude::*;

verus! {

/// A way to order items: the smaller `key` comes first, compared number by
/// number.
pub trait SortOrder<T> {
    spec fn key(item: T) -> (int, int);

    fn in_order(a: &T, b: &T) -> (r: bool)
        ensures
            r == key_le(Self::key(*a), Self::key(*b)),
    ;
}

pub open spec fn key_le(a: (int, int), b: (int, int)) -> bool {
    a.0 < b.0 || (a.0 == b.0 && a.1 <= b.1)
}

/// The keys of the order `O`.
pub open spec fn keys<T, O: SortOrder<T>>() -> spec_fn(T) -> (int, int) {
    |item: T| O::key(item)
}

/// `s` with `x` behind the last item that `x` may not stand in front of.
pub open spec fn insert_sorted<A>(s: Seq<A>, x: A, key: spec_fn(A) -> (int, int)) -> Seq<A>
    decreases s.len(),
{
    if s.len() == 0 || key_le(key(s.last()), key(x)) {
        s.push(x)
    } else {
        insert_sorted(s.drop_last(), x, key).push(s.last())
    }
}

/// The items of `s` in the order of their keys, equal keys as they stand in `s`.
pub open spec fn sorted_by<A>(s: Seq<A>, key: spec_fn(A) -> (int, int)) -> Seq<A>
    decreases s.len(),
{
    if s.len() == 0 {
        Seq::empty()
    } else {
        insert_sorted(sorted_by(s.drop_last(), key), s.last(), key)
    }
}

/// The items of `a` and `b` in one list, the larger last item behind the other
/// at every step.
spec fn merged<A>(a: Seq<A>, b: Seq<A>, key: spec_fn(A) -> (int, int)) -> Seq<A>
    decreases a.len() + b.len(),
{
    if a.len() == 0 {
        b
    } else if b.len() == 0 {
        a
    } else if key_le(key(a.last()), key(b.last())) {
        merged(a, b.drop_last(), key).push(b.last())
    } else {
        merged(a.drop_last(), b, key).push(a.last())
    }
}

proof fn lemma_merge_insert<A>(a: Seq<A>, b: Seq<A>, x: A, key: spec_fn(A) -> (int, int))
    ensures
        merged(a, insert_sorted(b, x, key), key) == insert_sorted(merged(a, b, key), x, key),
    decreases a.len() + b.len(),
{
    let inserted = insert_sorted(b, x, key);
    if a.len() > 0 {
        if b.len() == 0 || key_le(key(b.last()), key(x)) {
            assert(inserted == b.push(x));
            assert(inserted.drop_last() =~= b);
            if !key_le(key(a.last()), key(x)) {
                lemma_merge_insert(a.drop_last(), b, x, key);
                let shorter = merged(a.drop_last(), b, key);
                if b.len() == 0 {
                    assert(merged(a, b, key) == a);
                    assert(a =~= a.drop_last().push(a.last()));
                    assert(shorter =~= a.drop_last());
                }
                assert(merged(a, b, key) == shorter.push(a.last()));
                assert(shorter.push(a.last()).drop_last() =~= shorter);
            }
        } else {
            let front = insert_sorted(b.drop_last(), x, key);
            assert(inserted == front.push(b.last()));
            assert(inserted.drop_last() =~= front);
            if key_le(key(a.last()), key(b.last())) {
                lemma_merge_insert(a, b.drop_last(), x, key);
                let shorter = merged(a, b.drop_last(), key);
                assert(shorter.push(b.last()).drop_last() =~= shorter);
            } else {
                lemma_merge_insert(a.drop_last(), b, x, key);
                let shorter = merged(a.drop_last(), b, key);
                assert(shorter.push(a.last()).drop_last() =~= shorter);
            }
        }
    }
}

/// Merging two sorted halves sorts the whole.
proof fn lemma_merge_sorts<A>(a: Seq<A>, b: Seq<A>, key: spec_fn(A) -> (int, int))
    ensures
        merged(sorted_by(a, key), sorted_by(b, key), key) == sorted_by(a + b, key),
    decreases b.len(),
{
    if b.len() == 0 {
        assert(a + b =~= a);
    } else {
        lemma_merge_sorts(a, b.drop_last(), key);
        lemma_merge_insert(sorted_by(a, key), sorted_by(b.drop_last(), key), b.last(), key);
        assert((a + b).drop_last() =~= a + b.drop_last());
    }
}

fn merge<T, O: SortOrder<T>>(a: Vec<T>, b: Vec<T>) -> (r: Vec<T>)
    ensures
        r@ == merged(a@, b@, keys::<T, O>()),
{
    let ghost key = keys::<T, O>();
    let ghost whole = merged(a@, b@, key);
    let mut a = a;
    let mut b = b;
    let mut back: Vec<T> = Vec::new();
    assert(merged(a@, b@, key) + back@.reverse() =~= whole);
    while a.len() > 0 && b.len() > 0
        invariant
            key == keys::<T, O>(),
            merged(a@, b@, key) + back@.reverse() == whole,
        decreases a@.len() + b@.len(),
    {
        let ghost a0 = a@;
        let ghost b0 = b@;
        let ghost back0 = back@;
        if O::in_order(&a[a.len() - 1], &b[b.len() - 1]) {
            if let Some(x) = b.pop() {
                back.push(x);
            }
        } else {
            if let Some(x) = a.pop() {
                back.push(x);
            }
        }
        proof {
            assert(back@ == back0.push(back@.last()));
            assert(merged(a0, b0, key) == merged(a@, b@, key).push(back@.last()));
            assert(merged(a@, b@, key) + back@.reverse() =~= merged(a0, b0, key)
                + back0.reverse());
        }
    }
    let mut r = if a.len() > 0 {
        a
    } else {
        b
    };
    while back.len() > 0
        invariant
            r@ + back@.reverse() == whole,
        decreases back@.len(),
    {
        let ghost back0 = back@;
        let ghost r0 = r@;
        if let Some(x) = back.pop() {
            r.push(x);
        }
        assert(r@ + back@.reverse() =~= r0 + back0.reverse());
    }
    assert(r@ + back@.reverse() =~= r@);
    r
}

/// Sorts `items` by the order `O`; items with equal keys keep their order.
pub fn sort<T, O: SortOrder<T>>(items: Vec<T>) -> (r: Vec<T>)
    ensures
        r@ == sorted_by(items@, keys::<T, O>()),
    decreases items@.len(),
{
    if items.len() < 2 {
        proof {
            reveal_with_fuel(sorted_by, 2);
            reveal_with_fuel(insert_sorted, 2);
            assert(sorted_by(items@, keys::<T, O>()) =~= items@);
        }
        return items;
    }
    let ghost whole = items@;
    let mut front = items;
    let half: usize = front.len() / 2;
    let back = front.split_off(half);
    assert(front@ + back@ =~= whole);
    let ghost left = front@;
    let ghost right = back@;
    let front = sort::<T, O>(front);
    let back = sort::<T, O>(back);
    proof {
        lemma_merge_sorts(left, right, keys::<T, O>());
    }
    merge::<T, O>(front, back)
}

/// Neighbours, and so all items, stand in the order of their keys.
pub open spec fn is_sorted<A>(s: Seq<A>, key: spec_fn(A) -> (int, int)) -> bool {
    forall|i: int, j: int| 0 <= i <= j < s.len() ==> key_le(key(#[trigger] s[i]), key(#[trigger] s[j]))
}

proof fn lemma_insert_keeps_sorted<A>(s: Seq<A>, x: A, key: spec_fn(A) -> (int, int))
    requires
        is_sorted(s, key),
    ensures
        is_sorted(insert_sorted(s, x, key), key),
        insert_sorted(s, x, key).len() == s.len() + 1,
        insert_sorted(s, x, key).last() == x || (s.len() > 0 && insert_sorted(s, x, key).last()
            == s.last()),
    decreases s.len(),
{
    if s.len() > 0 && !key_le(key(s.last()), key(x)) {
        let front = s.drop_last();
        lemma_insert_keeps_sorted(front, x, key);
        let inserted = insert_sorted(front, x, key);
        assert(key_le(key(inserted.last()), key(s.last()))) by {
            if front.len() > 0 {
                assert(front.last() == s[s.len() - 2]);
                assert(key_le(key(s[s.len() - 2]), key(s[s.len() - 1])));
            }
        }
        assert forall|i: int, j: int| 0 <= i <= j < inserted.push(s.last()).len() implies key_le(
            key(#[trigger] inserted.push(s.last())[i]),
            key(#[trigger] inserted.push(s.last())[j]),
        ) by {
            if i < inserted.len() {
                assert(key_le(key(inserted[i]), key(inserted.last())));
            }
        }
    }
}

/// Sorting puts the items in the order of their keys.
pub proof fn law_sorted_is_in_order<A>(s: Seq<A>, key: spec_fn(A) -> (int, int))
    ensures
        is_sorted(sorted_by(s, key), key),
        sorted_by(s, key).len() == s.len(),
        forall|i: int, j: int|
            0 <= i <= j < s.len() ==> {
                let (a, b) = (
                    key(#[trigger] sorted_by(s, key)[i]),
                    key(#[trigger] sorted_by(s, key)[j]),
                );
                a.0 < b.0 || (a.0 == b.0 && a.1 <= b.1)
            },
    decreases s.len(),
{
    if s.len() > 0 {
        law_sorted_is_in_order(s.drop_last(), key);
        lemma_insert_keeps_sorted(sorted_by(s.drop_last(), key), s.last(), key);
    }
}

proof fn lemma_insert_adds_one<A>(s: Seq<A>, x: A, key: spec_fn(A) -> (int, int))
    ensures
        insert_sorted(s, x, key).to_multiset() == s.push(x).to_multiset(),
    decreases s.len(),
{
    broadcast use vstd::seq_lib::group_to_multiset_ensures;

    if s.len() > 0 && !key_le(key(s.last()), key(x)) {
        lemma_insert_adds_one(s.drop_last(), x, key);
        assert(s =~= s.drop_last().push(s.last()));
        assert(s.push(x).to_multiset() =~= insert_sorted(s, x, key).to_multiset());
    }
}

/// Sorting neither loses nor invents an item.
pub proof fn law_sorted_keeps_the_items<A>(s: Seq<A>, key: spec_fn(A) -> (int, int))
    ensures
        sorted_by(s, key).to_multiset() == s.to_multiset(),
    decreases s.len(),
{
    broadcast use vstd::seq_lib::group_to_multiset_ensures;

    if s.len() > 0 {
        law_sorted_keeps_the_items(s.drop_last(), key);
        lemma_insert_adds_one(sorted_by(s.drop_last(), key), s.last(), key);
        assert(s =~= s.drop_last().push(s.last()));
        assert(sorted_by(s, key).to_multiset() =~= s.to_multiset());
    } else {
        assert(s =~= Seq::empty());
    }
}

/// The items of `s` whose key is `k`.
pub open spec fn with_key<A>(
    s: Seq<A>,
    key: spec_fn(A) -> (int, int),
    k: (int, int),
) -> Seq<A> {
    s.filter(|item: A| key(item) == k)
}

proof fn lemma_with_key_push<A>(s: Seq<A>, x: A, key: spec_fn(A) -> (int, int), k: (int, int))
    ensures
        with_key(s.push(x), key, k) == (if key(x) == k {
            with_key(s, key, k).push(x)
        } else {
            with_key(s, key, k)
        }),
{
    reveal(Seq::filter);
    assert(s.push(x).drop_last() =~= s);
}

proof fn lemma_insert_is_stable<A>(s: Seq<A>, x: A, key: spec_fn(A) -> (int, int), k: (int, int))
    ensures
        with_key(insert_sorted(s, x, key), key, k) == with_key(s.push(x), key, k),
    decreases s.len(),
{
    if s.len() > 0 && !key_le(key(s.last()), key(x)) {
        let front = s.drop_last();
        lemma_insert_is_stable(front, x, key, k);
        lemma_with_key_push(insert_sorted(front, x, key), s.last(), key, k);
        lemma_with_key_push(front, x, key, k);
        lemma_with_key_push(front, s.last(), key, k);
        assert(front.push(s.last()) =~= s);
        lemma_with_key_push(s, x, key, k);
    }
}

/// Items with equal keys come out in the order in which they went in.
pub proof fn law_sorted_is_stable<A>(s: Seq<A>, key: spec_fn(A) -> (int, int), k: (int, int))
    ensures
        with_key(sorted_by(s, key), key, k) == with_key(s, key, k),
    decreases s.len(),
{
    if s.len() > 0 {
        let front = s.drop_last();
        law_sorted_is_stable(front, key, k);
        lemma_insert_is_stable(sorted_by(front, key), s.last(), key, k);
        lemma_with_key_push(sorted_by(front, key), s.last(), key, k);
        lemma_with_key_push(front, s.last(), key, k);
        assert(front.push(s.last()) =~= s);
    }
}

/// Whether no two items have the same key.
pub open spec fn distinct_keys<A>(s: Seq<A>, key: spec_fn(A) -> (int, int)) -> bool {
    forall|i: int, j: int| 0 <= i < j < s.len() ==> key(#[trigger] s[i]) != key(#[trigger] s[j])
}

proof fn lemma_shared_items<A>(a: Seq<A>, b: Seq<A>, i: int)
    requires
        a.to_multiset() == b.to_multiset(),
        0 <= i < a.len(),
    ensures
        b.contains(a[i]),
        a.len() == b.len(),
{
    broadcast use vstd::seq_lib::group_to_multiset_ensures;

    assert(a.contains(a[i]));
    assert(a.to_multiset().count(a[i]) > 0);
    vstd::seq_lib::to_multiset_len(a);
    vstd::seq_lib::to_multiset_len(b);
}

proof fn lemma_sorted_is_unique<A>(a: Seq<A>, b: Seq<A>, key: spec_fn(A) -> (int, int))
    requires
        is_sorted(a, key),
        is_sorted(b, key),
        distinct_keys(a, key),
        distinct_keys(b, key),
        a.to_multiset() == b.to_multiset(),
    ensures
        a == b,
    decreases a.len(),
{
    broadcast use vstd::seq_lib::group_to_multiset_ensures;

    if a.len() == 0 {
        assert(a.to_multiset().len() == 0);
        assert(b.to_multiset().len() == 0);
        assert(a =~= b);
    } else {
        lemma_shared_items(a, b, 0);
        lemma_shared_items(b, a, 0);
        let j = choose|j: int| 0 <= j < b.len() && b[j] == a[0];
        let i = choose|i: int| 0 <= i < a.len() && a[i] == b[0];
        assert(key_le(key(a[0]), key(a[i])));
        assert(key_le(key(b[0]), key(b[j])));
        assert(key(a[0]) == key(b[0]));
        assert(a[0] == b[0]);
        assert(a =~= seq![a[0]] + a.skip(1));
        assert(b =~= seq![b[0]] + b.skip(1));
        vstd::seq_lib::lemma_multiset_commutative(seq![a[0]], a.skip(1));
        vstd::seq_lib::lemma_multiset_commutative(seq![b[0]], b.skip(1));
        let head = seq![a[0]].to_multiset();
        assert(a.skip(1).to_multiset() =~= a.to_multiset().sub(head));
        assert(b.skip(1).to_multiset() =~= b.to_multiset().sub(head));
        assert(forall|k: int| 0 <= k < a.len() - 1 ==> #[trigger] a.skip(1)[k] == a[k + 1]);
        assert(forall|k: int| 0 <= k < b.len() - 1 ==> #[trigger] b.skip(1)[k] == b[k + 1]);
        lemma_sorted_is_unique(a.skip(1), b.skip(1), key);
    }
}

proof fn lemma_distinct_is_by_items<A>(a: Seq<A>, b: Seq<A>, key: spec_fn(A) -> (int, int))
    requires
        a.to_multiset() == b.to_multiset(),
        distinct_keys(a, key),
    ensures
        distinct_keys(b, key),
{
    broadcast use vstd::seq_lib::group_to_multiset_ensures;

    assert forall|i: int, j: int| 0 <= i < j < b.len() implies key(#[trigger] b[i]) != key(
        #[trigger] b[j],
    ) by {
        lemma_shared_items(b, a, i);
        lemma_shared_items(b, a, j);
        let p = choose|p: int| 0 <= p < a.len() && a[p] == b[i];
        let q = choose|q: int| 0 <= q < a.len() && a[q] == b[j];
        if b[i] == b[j] {
            lemma_repeated_item(b, i, j);
            assert(a.to_multiset().count(b[i]) >= 2);
            lemma_single_item(a, p, key);
        }
    }
}

proof fn lemma_repeated_item<A>(s: Seq<A>, i: int, j: int)
    requires
        0 <= i < j < s.len(),
        s[i] == s[j],
    ensures
        s.to_multiset().count(s[i]) >= 2,
{
    broadcast use vstd::seq_lib::group_to_multiset_ensures;

    let a = s.take(j);
    let b = s.skip(j);
    assert(s =~= a + b);
    vstd::seq_lib::lemma_multiset_commutative(a, b);
    assert(a.contains(s[i])) by {
        assert(a[i] == s[i]);
    }
    assert(b.contains(s[i])) by {
        assert(b[0] == s[j]);
    }
    assert(a.to_multiset().count(s[i]) > 0);
    assert(b.to_multiset().count(s[i]) > 0);
}

proof fn lemma_single_item<A>(s: Seq<A>, i: int, key: spec_fn(A) -> (int, int))
    requires
        0 <= i < s.len(),
        distinct_keys(s, key),
    ensures
        s.to_multiset().count(s[i]) == 1,
{
    broadcast use vstd::seq_lib::group_to_multiset_ensures;

    let a = s.take(i);
    let b = s.skip(i + 1);
    assert(s =~= a + (seq![s[i]] + b));
    vstd::seq_lib::lemma_multiset_commutative(a, seq![s[i]] + b);
    vstd::seq_lib::lemma_multiset_commutative(seq![s[i]], b);
    assert forall|k: int| 0 <= k < a.len() implies a[k] != s[i] by {
        assert(a[k] == s[k]);
    }
    assert forall|k: int| 0 <= k < b.len() implies b[k] != s[i] by {
        assert(b[k] == s[i + 1 + k]);
    }
    assert(!a.contains(s[i]));
    assert(!b.contains(s[i]));
    assert(a.to_multiset().count(s[i]) == 0);
    assert(b.to_multiset().count(s[i]) == 0);
    assert(seq![s[i]] =~= Seq::empty().push(s[i]));
    assert(seq![s[i]].to_multiset().count(s[i]) == 1);
}

/// The same items in another order are sorted to the same list, where no two
/// of them have the same key.
pub proof fn law_order_is_irrelevant<A>(a: Seq<A>, b: Seq<A>, key: spec_fn(A) -> (int, int))
    requires
        a.to_multiset() == b.to_multiset(),
        distinct_keys(a, key),
    ensures
        sorted_by(a, key) == sorted_by(b, key),
{
    law_sorted_is_in_order(a, key);
    law_sorted_is_in_order(b, key);
    law_sorted_keeps_the_items(a, key);
    law_sorted_keeps_the_items(b, key);
    lemma_distinct_is_by_items(a, sorted_by(a, key), key);
    lemma_distinct_is_by_items(a, sorted_by(b, key), key);
    lemma_sorted_is_unique(sorted_by(a, key), sorted_by(b, key), key);
}

/// Sorting the pictures of items gives the pictures of the sorted items, where
/// a picture has the key of its item.
pub proof fn lemma_sort_commutes<A, B>(
    s: Seq<A>,
    f: spec_fn(A) -> B,
    key_a: spec_fn(A) -> (int, int),
    key_b: spec_fn(B) -> (int, int),
)
    requires
        forall|a: A| key_a(a) == #[trigger] key_b(f(a)),
    ensures
        sorted_by(s, key_a).map_values(f) == sorted_by(s.map_values(f), key_b),
    decreases s.len(),
{
    if s.len() > 0 {
        let front = s.drop_last();
        lemma_sort_commutes(front, f, key_a, key_b);
        assert(s.map_values(f).drop_last() =~= front.map_values(f));
        lemma_insert_commutes(sorted_by(front, key_a), s.last(), f, key_a, key_b);
    } else {
        assert(sorted_by(s, key_a).map_values(f) =~= sorted_by(s.map_values(f), key_b));
    }
}

proof fn lemma_insert_commutes<A, B>(
    s: Seq<A>,
    x: A,
    f: spec_fn(A) -> B,
    key_a: spec_fn(A) -> (int, int),
    key_b: spec_fn(B) -> (int, int),
)
    requires
        forall|a: A| key_a(a) == #[trigger] key_b(f(a)),
    ensures
        insert_sorted(s, x, key_a).map_values(f) == insert_sorted(s.map_values(f), f(x), key_b),
    decreases s.len(),
{
    let pictures = s.map_values(f);
    assert(key_a(x) == key_b(f(x)));
    if s.len() == 0 || key_le(key_a(s.last()), key_a(x)) {
        if s.len() > 0 {
            assert(key_a(s.last()) == key_b(f(s.last())));
        }
        assert(s.push(x).map_values(f) =~= pictures.push(f(x)));
    } else {
        assert(key_a(s.last()) == key_b(f(s.last())));
        lemma_insert_commutes(s.drop_last(), x, f, key_a, key_b);
        assert(pictures.drop_last() =~= s.drop_last().map_values(f));
        let inserted = insert_sorted(s.drop_last(), x, key_a);
        assert(inserted.push(s.last()).map_values(f) =~= inserted.map_values(f).push(f(s.last())));
    }
}

} // verus!
