//! Sums and maxima over finite sets of tags.
use vstd::prelude::*;

verus! {

/// The sum of `f` over a finite set.
pub open spec fn sum_over(s: Set<Seq<u8>>, f: spec_fn(Seq<u8>) -> nat) -> nat
    decreases s.len(),
    when s.finite()
{
    if s.len() == 0 {
        0
    } else {
        let x = s.choose();
        f(x) + sum_over(s.remove(x), f)
    }
}

/// Adding an element to the set adds its value to the sum.
pub proof fn sum_over_insert(s: Set<Seq<u8>>, f: spec_fn(Seq<u8>) -> nat, x: Seq<u8>)
    requires
        s.finite(),
        !s.contains(x),
    ensures
        sum_over(s.insert(x), f) == sum_over(s, f) + f(x),
    decreases s.len(),
{
    let t = s.insert(x);
    let y = t.choose();
    assert(t.contains(x));
    assert(t.contains(y));
    assert(t.len() == s.len() + 1);
    if y == x {
        assert(t.remove(x) =~= s);
    } else {
        assert(t.remove(y) =~= s.remove(y).insert(x));
        sum_over_insert(s.remove(y), f, x);
        sum_over_remove(s, f, y);
    }
}

/// Taking an element out of the set takes its value out of the sum.
pub proof fn sum_over_remove(s: Set<Seq<u8>>, f: spec_fn(Seq<u8>) -> nat, x: Seq<u8>)
    requires
        s.finite(),
        s.contains(x),
    ensures
        sum_over(s, f) == sum_over(s.remove(x), f) + f(x),
    decreases s.len(), 0nat,
{
    let y = s.choose();
    assert(s.contains(y));
    if y != x {
        assert(s.remove(y).remove(x) =~= s.remove(x).remove(y));
        sum_over_remove(s.remove(y), f, x);
        sum_over_remove(s.remove(x), f, y);
    }
}

/// Functions that agree on the set have the same sum over it.
pub proof fn sum_over_same(s: Set<Seq<u8>>, f: spec_fn(Seq<u8>) -> nat, g: spec_fn(Seq<u8>) -> nat)
    requires
        s.finite(),
        forall|x: Seq<u8>| s.contains(x) ==> #[trigger] f(x) == g(x),
    ensures
        sum_over(s, f) == sum_over(s, g),
    decreases s.len(),
{
    if s.len() > 0 {
        let x = s.choose();
        assert(s.contains(x));
        sum_over_same(s.remove(x), f, g);
    }
}

/// The least number that is not below `f` anywhere on the set.
pub open spec fn max_over(s: Set<Seq<u8>>, f: spec_fn(Seq<u8>) -> nat) -> nat
    decreases s.len(),
    when s.finite()
{
    if s.len() == 0 {
        0
    } else {
        let x = s.choose();
        let rest = max_over(s.remove(x), f);
        if f(x) > rest { f(x) } else { rest }
    }
}

/// The maximum bounds every value, and is one of them unless it is zero.
pub proof fn max_over_is_max(s: Set<Seq<u8>>, f: spec_fn(Seq<u8>) -> nat)
    requires
        s.finite(),
    ensures
        forall|x: Seq<u8>| s.contains(x) ==> #[trigger] f(x) <= max_over(s, f),
        max_over(s, f) == 0 || exists|x: Seq<u8>| s.contains(x) && #[trigger] f(x) == max_over(s, f),
    decreases s.len(),
{
    if s.len() > 0 {
        let y = s.choose();
        assert(s.contains(y));
        max_over_is_max(s.remove(y), f);
        assert forall|x: Seq<u8>| s.contains(x) implies #[trigger] f(x) <= max_over(s, f) by {
            if x != y {
                assert(s.remove(y).contains(x));
            }
        }
        let rest = max_over(s.remove(y), f);
        if f(y) <= rest && rest != 0 {
            let x = choose|x: Seq<u8>| s.remove(y).contains(x) && #[trigger] f(x) == rest;
            assert(s.contains(x) && f(x) == max_over(s, f));
        }
    } else {
        assert(s =~= Set::empty());
    }
}

/// Adding an element to the set raises the maximum to its value where that is larger.
pub proof fn max_over_insert(s: Set<Seq<u8>>, f: spec_fn(Seq<u8>) -> nat, x: Seq<u8>)
    requires
        s.finite(),
    ensures
        max_over(s.insert(x), f) == (if f(x) > max_over(s, f) { f(x) } else { max_over(s, f) }),
{
    let t = s.insert(x);
    max_over_is_max(s, f);
    max_over_is_max(t, f);
    assert(t.contains(x));
    if max_over(s, f) != 0 {
        let y = choose|y: Seq<u8>| s.contains(y) && #[trigger] f(y) == max_over(s, f);
        assert(t.contains(y));
    }
    if max_over(t, f) != 0 {
        let y = choose|y: Seq<u8>| t.contains(y) && #[trigger] f(y) == max_over(t, f);
        assert(y == x || s.contains(y));
    }
}

/// Functions that agree on the set have the same maximum over it.
pub proof fn max_over_same(s: Set<Seq<u8>>, f: spec_fn(Seq<u8>) -> nat, g: spec_fn(Seq<u8>) -> nat)
    requires
        s.finite(),
        forall|x: Seq<u8>| s.contains(x) ==> #[trigger] f(x) == g(x),
    ensures
        max_over(s, f) == max_over(s, g),
    decreases s.len(),
{
    if s.len() > 0 {
        let x = s.choose();
        assert(s.contains(x));
        max_over_same(s.remove(x), f, g);
    }
}

}
