//! Sums of an integer-valued function over a finite set of identifiers, and
//! how such a sum grows along a sequence that lists the set.
use vstd::prelude::*;

verus! {

/// The step of a sum: add the value of `g` at the next identifier.
pub open spec fn adder(g: spec_fn(Seq<char>) -> int) -> spec_fn(int, Seq<char>) -> int {
    |acc: int, x: Seq<char>| acc + g(x)
}

/// The sum of `g` over the identifiers of `s`.
pub open spec fn set_sum(s: Set<Seq<char>>, g: spec_fn(Seq<char>) -> int) -> int {
    s.fold(0int, adder(g))
}

proof fn lemma_adder_commutative(g: spec_fn(Seq<char>) -> int)
    ensures
        vstd::set::fold::is_fun_commutative(adder(g)),
{
}

/// The sum over the empty set is 0.
pub proof fn lemma_set_sum_empty(g: spec_fn(Seq<char>) -> int)
    ensures
        set_sum(Set::<Seq<char>>::empty(), g) == 0,
{
    vstd::set::fold::lemma_fold_empty(0int, adder(g));
}

/// Adding an identifier that is not yet in a finite set adds its value to the sum.
pub proof fn lemma_set_sum_insert(s: Set<Seq<char>>, g: spec_fn(Seq<char>) -> int, x: Seq<char>)
    requires
        s.finite(),
        !s.contains(x),
    ensures
        set_sum(s.insert(x), g) == set_sum(s, g) + g(x),
{
    lemma_adder_commutative(g);
    vstd::set::fold::lemma_fold_insert(s, 0int, adder(g), x);
}

/// Along a sequence without repetition, the sum over the first `i + 1`
/// elements is the sum over the first `i` plus the value at position `i`.
pub proof fn lemma_set_sum_step(q: Seq<Seq<char>>, g: spec_fn(Seq<char>) -> int, i: int)
    requires
        q.no_duplicates(),
        0 <= i < q.len(),
    ensures
        set_sum(q.take(i + 1).to_set(), g) == set_sum(q.take(i).to_set(), g) + g(q[i]),
        q.take(i).to_set().finite(),
{
    assert(q.take(i + 1) =~= q.take(i).push(q[i]));
    crate::idmap::lemma_push_to_set(q.take(i), q[i]);
    q.take(i).unique_seq_to_set();
    if q.take(i).to_set().contains(q[i]) {
        let j = choose|j: int| 0 <= j < q.take(i).len() && q.take(i)[j] == q[i];
        assert(q[j] == q[i]);
    }
    lemma_set_sum_insert(q.take(i).to_set(), g, q[i]);
}

/// The sum over the first zero elements of a sequence is 0.
pub proof fn lemma_set_sum_take_zero(q: Seq<Seq<char>>, g: spec_fn(Seq<char>) -> int)
    ensures
        set_sum(q.take(0).to_set(), g) == 0,
{
    assert(q.take(0).to_set() =~= Set::<Seq<char>>::empty());
    lemma_set_sum_empty(g);
}

/// With values that are never negative, the sum over a prefix of a
/// sequence without repetition is at most the sum over a longer prefix.
pub proof fn lemma_set_sum_prefix_le(q: Seq<Seq<char>>, g: spec_fn(Seq<char>) -> int, i: int, j: int)
    requires
        q.no_duplicates(),
        0 <= i <= j <= q.len(),
        forall|k: int| 0 <= k < q.len() ==> g(#[trigger] q[k]) >= 0,
    ensures
        set_sum(q.take(i).to_set(), g) <= set_sum(q.take(j).to_set(), g),
    decreases j - i,
{
    if i < j {
        lemma_set_sum_prefix_le(q, g, i, j - 1);
        lemma_set_sum_step(q, g, j - 1);
    }
}


/// A sum over a finite set of values that are all 0 is 0.
pub proof fn lemma_set_sum_zero(s: Set<Seq<char>>, g: spec_fn(Seq<char>) -> int)
    requires
        s.finite(),
        forall|x: Seq<char>| s.contains(x) ==> g(x) == 0,
    ensures
        set_sum(s, g) == 0,
    decreases s.len(),
{
    if s.len() == 0 {
        assert(s =~= Set::<Seq<char>>::empty());
        lemma_set_sum_empty(g);
    } else {
        let x = s.choose();
        assert(s.contains(x));
        lemma_set_sum_zero(s.remove(x), g);
        lemma_set_sum_insert(s.remove(x), g, x);
        assert(s.remove(x).insert(x) =~= s);
    }
}


/// Over a finite set, a function that is nowhere smaller has a sum that is
/// not smaller.
pub proof fn lemma_set_sum_mono(
    s: Set<Seq<char>>,
    g1: spec_fn(Seq<char>) -> int,
    g2: spec_fn(Seq<char>) -> int,
)
    requires
        s.finite(),
        forall|x: Seq<char>| s.contains(x) ==> g1(x) <= g2(x),
    ensures
        set_sum(s, g1) <= set_sum(s, g2),
    decreases s.len(),
{
    if s.len() == 0 {
        assert(s =~= Set::<Seq<char>>::empty());
        lemma_set_sum_empty(g1);
        lemma_set_sum_empty(g2);
    } else {
        let x = s.choose();
        assert(s.contains(x));
        lemma_set_sum_mono(s.remove(x), g1, g2);
        lemma_set_sum_insert(s.remove(x), g1, x);
        lemma_set_sum_insert(s.remove(x), g2, x);
        assert(s.remove(x).insert(x) =~= s);
    }
}


/// With values that are never negative, a sum over a finite set is at least
/// the value of each of its identifiers.
pub proof fn lemma_set_sum_ge_term(s: Set<Seq<char>>, g: spec_fn(Seq<char>) -> int, x: Seq<char>)
    requires
        s.finite(),
        s.contains(x),
        forall|y: Seq<char>| s.contains(y) ==> g(y) >= 0,
    ensures
        set_sum(s, g) >= g(x),
{
    let rest = s.remove(x);
    lemma_set_sum_mono(rest, |y: Seq<char>| 0int, g);
    lemma_set_sum_zero(rest, |y: Seq<char>| 0int);
    lemma_set_sum_insert(rest, g, x);
    assert(rest.insert(x) =~= s);
}

} // verus!
