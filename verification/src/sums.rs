//! Sums, picked elements and joined lists, in terms of which the laws are stated.
use vstd::prelude::*;

verus! {

/// The sum of numbers.
pub open spec fn total(numbers: Seq<nat>) -> nat {
    numbers.fold_left(0nat, |a: nat, b: nat| a + b)
}

/// The numbers from zero to below `n`.
pub open spec fn below(n: nat) -> Seq<int> {
    Seq::new(n, |i: int| i)
}

/// The first numbers are those below one less and one more.
pub proof fn below_next(n: nat)
    requires
        n > 0,
    ensures
        below(n) == below((n - 1) as nat).push(n - 1),
{
    assert(below(n) =~= below((n - 1) as nat).push(n - 1));
}

/// A number more is added to the sum.
pub proof fn total_push(numbers: Seq<nat>, n: nat)
    ensures
        total(numbers.push(n)) == total(numbers) + n,
{
    assert(numbers.push(n).drop_last() =~= numbers);
}

/// The sum of nothing is zero.
pub proof fn total_empty()
    ensures
        total(Seq::<nat>::empty()) == 0,
{
}

/// The sums of two lists add up.
pub proof fn total_adds(a: Seq<nat>, b: Seq<nat>)
    ensures
        total(a + b) == total(a) + total(b),
    decreases b.len(),
{
    if b.len() == 0 {
        assert(a + b =~= a);
    } else {
        total_adds(a, b.drop_last());
        total_push(a + b.drop_last(), b.last());
        total_push(b.drop_last(), b.last());
        assert(a + b =~= (a + b.drop_last()).push(b.last()));
        assert(b =~= b.drop_last().push(b.last()));
    }
}

/// A sum is zero where all its parts are.
pub proof fn total_of_zeros(numbers: Seq<nat>)
    requires
        forall|i: int| 0 <= i < numbers.len() ==> #[trigger] numbers[i] == 0,
    ensures
        total(numbers) == 0,
    decreases numbers.len(),
{
    if numbers.len() > 0 {
        assert(numbers =~= numbers.drop_last().push(numbers.last()));
        total_push(numbers.drop_last(), numbers.last());
        total_of_zeros(numbers.drop_last());
    }
}

/// Of an element more, the picked ones are those before, and the element if it is picked.
pub proof fn picked_push<A>(list: Seq<A>, a: A, p: spec_fn(A) -> bool)
    ensures
        list.push(a).filter(p) == (if p(a) { list.filter(p).push(a) } else { list.filter(p) }),
{
    reveal(Seq::filter);
    assert(list.push(a).drop_last() =~= list);
}

/// Picking from nothing gives nothing.
pub proof fn picked_empty<A>(p: spec_fn(A) -> bool)
    ensures
        Seq::<A>::empty().filter(p) == Seq::<A>::empty(),
{
    reveal(Seq::filter);
}

/// What is picked from two lists in turn is what is picked from each.
pub proof fn picked_adds<A>(a: Seq<A>, b: Seq<A>, p: spec_fn(A) -> bool)
    ensures
        (a + b).filter(p) == a.filter(p) + b.filter(p),
    decreases b.len(),
{
    if b.len() == 0 {
        picked_empty(p);
        assert(a + b =~= a);
        assert(b =~= Seq::empty());
        assert(a.filter(p) + b.filter(p) =~= a.filter(p));
    } else {
        picked_adds(a, b.drop_last(), p);
        picked_push(a + b.drop_last(), b.last(), p);
        picked_push(b.drop_last(), b.last(), p);
        assert(a + b =~= (a + b.drop_last()).push(b.last()));
        assert(b =~= b.drop_last().push(b.last()));
        assert((a + b).filter(p) =~= a.filter(p) + b.filter(p));
    }
}

/// What is picked from a single element.
pub proof fn picked_one<A>(a: A, p: spec_fn(A) -> bool)
    ensures
        seq![a].filter(p) == (if p(a) { seq![a] } else { Seq::empty() }),
{
    picked_empty(p);
    picked_push(Seq::<A>::empty(), a, p);
    assert(seq![a] =~= Seq::<A>::empty().push(a));
    assert(seq![a].filter(p) =~= (if p(a) { seq![a] } else { Seq::empty() }));
}

/// Picking by two conditions that say the same picks the same.
pub proof fn picked_alike<A>(list: Seq<A>, p: spec_fn(A) -> bool, q: spec_fn(A) -> bool)
    requires
        forall|i: int| 0 <= i < list.len() ==> p(#[trigger] list[i]) == q(list[i]),
    ensures
        list.filter(p) == list.filter(q),
    decreases list.len(),
{
    if list.len() == 0 {
        picked_empty(p);
        picked_empty(q);
        assert(list =~= Seq::empty());
    } else {
        assert(list =~= list.drop_last().push(list.last()));
        assert(p(list[list.len() - 1]) == q(list[list.len() - 1]));
        picked_alike(list.drop_last(), p, q);
        picked_push(list.drop_last(), list.last(), p);
        picked_push(list.drop_last(), list.last(), q);
    }
}

/// Every picked element is one of the list that meets the condition, and every such element is picked.
pub proof fn picked_members<A>(list: Seq<A>, p: spec_fn(A) -> bool)
    ensures
        forall|a: A| #[trigger] list.filter(p).contains(a) <==> list.contains(a) && p(a),
    decreases list.len(),
{
    if list.len() == 0 {
        picked_empty(p);
        assert(list =~= Seq::empty());
    } else {
        let front = list.drop_last();
        let last = list.last();
        assert(list =~= front.push(last));
        picked_members(front, p);
        picked_push(front, last, p);
        assert forall|a: A| #[trigger] list.filter(p).contains(a) <==> list.contains(a) && p(a) by {
            assert(list.contains(a) <==> front.contains(a) || a == last) by {
                if front.contains(a) {
                    let i = choose|i: int| 0 <= i < front.len() && front[i] == a;
                    assert(list[i] == a);
                }
                if a == last {
                    assert(list[list.len() - 1] == a);
                }
            }
            assert(front.filter(p).contains(a) <==> front.contains(a) && p(a));
            if p(last) {
                let all = front.filter(p).push(last);
                if front.filter(p).contains(a) {
                    let i = choose|i: int| 0 <= i < front.filter(p).len() && front.filter(p)[i] == a;
                    assert(all[i] == a);
                }
                if a == last {
                    assert(all[all.len() - 1] == a);
                }
            }
        }
    }
}

/// A list more is put behind the joined lists.
pub proof fn joined_push<A>(lists: Seq<Seq<A>>, list: Seq<A>)
    ensures
        lists.push(list).flatten() == lists.flatten() + list,
{
    lists.push(list).lemma_flatten_and_flatten_alt_are_equivalent();
    lists.lemma_flatten_and_flatten_alt_are_equivalent();
    assert(lists.push(list).drop_last() =~= lists);
    assert(lists.push(list).flatten() =~= lists.flatten() + list);
}

/// Joining nothing gives nothing.
pub proof fn joined_empty<A>()
    ensures
        Seq::<Seq<A>>::empty().flatten() == Seq::<A>::empty(),
{
}

/// Lists of lists in turn are joined in turn.
pub proof fn joined_adds<A>(a: Seq<Seq<A>>, b: Seq<Seq<A>>)
    ensures
        (a + b).flatten() == a.flatten() + b.flatten(),
    decreases b.len(),
{
    if b.len() == 0 {
        assert(a + b =~= a);
        assert(b =~= Seq::empty());
        assert(a.flatten() + b.flatten() =~= a.flatten());
    } else {
        joined_adds(a, b.drop_last());
        joined_push(a + b.drop_last(), b.last());
        joined_push(b.drop_last(), b.last());
        assert(a + b =~= (a + b.drop_last()).push(b.last()));
        assert(b =~= b.drop_last().push(b.last()));
        assert((a + b).flatten() =~= a.flatten() + b.flatten());
    }
}

/// An element is picked as often as it is in the list, if it meets the condition.
pub proof fn picked_counts<A>(list: Seq<A>, p: spec_fn(A) -> bool, a: A)
    ensures
        list.filter(p).to_multiset().count(a) == (if p(a) { list.to_multiset().count(a) } else { 0 }),
    decreases list.len(),
{
    broadcast use vstd::seq_lib::group_to_multiset_ensures;

    if list.len() == 0 {
        picked_empty(p);
        assert(list =~= Seq::empty());
    } else {
        let front = list.drop_last();
        picked_counts(front, p, a);
        picked_push(front, list.last(), p);
        assert(list =~= front.push(list.last()));
        assert(list.to_multiset() =~= front.to_multiset().insert(list.last()));
        if p(list.last()) {
            assert(list.filter(p).to_multiset() =~= front.filter(p).to_multiset().insert(list.last()));
        }
    }
}

/// From the same elements, in whatever order, the same elements are picked.
pub proof fn picked_multisets<A>(a: Seq<A>, b: Seq<A>, p: spec_fn(A) -> bool)
    requires
        a.to_multiset() == b.to_multiset(),
    ensures
        a.filter(p).to_multiset() == b.filter(p).to_multiset(),
{
    assert forall|x: A| a.filter(p).to_multiset().count(x) == b.filter(p).to_multiset().count(x) by {
        picked_counts(a, p, x);
        picked_counts(b, p, x);
    }
    assert(a.filter(p).to_multiset() =~= b.filter(p).to_multiset());
}

/// Nothing is picked where no element meets the condition.
pub proof fn picked_nothing<A>(list: Seq<A>, p: spec_fn(A) -> bool)
    requires
        forall|i: int| 0 <= i < list.len() ==> !p(#[trigger] list[i]),
    ensures
        list.filter(p) == Seq::<A>::empty(),
    decreases list.len(),
{
    if list.len() == 0 {
        picked_empty(p);
        assert(list =~= Seq::empty());
    } else {
        assert(list =~= list.drop_last().push(list.last()));
        assert(!p(list[list.len() - 1]));
        picked_nothing(list.drop_last(), p);
        picked_push(list.drop_last(), list.last(), p);
    }
}

}
