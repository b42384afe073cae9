//! Counting the elements of a list.
use vstd::prelude::*;

verus! {

/// How many elements satisfy `p`.
pub open spec fn count_if<T>(s: Seq<T>, p: spec_fn(T) -> bool) -> nat
    decreases s.len(),
{
    if s.len() == 0 {
        0
    } else {
        count_if(s.drop_last(), p) + if p(s.last()) {
            1nat
        } else {
            0nat
        }
    }
}

/// Counting adds up.
pub proof fn lemma_count_if_add<T>(a: Seq<T>, b: Seq<T>, p: spec_fn(T) -> bool)
    ensures
        count_if(a + b, p) == count_if(a, p) + count_if(b, p),
    decreases b.len(),
{
    if b.len() == 0 {
        assert(a + b =~= a);
    } else {
        lemma_count_if_add(a, b.drop_last(), p);
        assert((a + b).drop_last() =~= a + b.drop_last());
    }
}

/// Nothing is counted where nothing satisfies `p`.
pub proof fn lemma_count_if_none<T>(s: Seq<T>, p: spec_fn(T) -> bool)
    requires
        forall|i: int| 0 <= i < s.len() ==> !p(#[trigger] s[i]),
    ensures
        count_if(s, p) == 0,
    decreases s.len(),
{
    if s.len() > 0 {
        lemma_count_if_none(s.drop_last(), p);
    }
}

/// Where nothing is counted, nothing satisfies `p`.
pub proof fn lemma_count_if_zero<T>(s: Seq<T>, p: spec_fn(T) -> bool)
    requires
        count_if(s, p) == 0,
    ensures
        forall|i: int| 0 <= i < s.len() ==> !p(#[trigger] s[i]),
    decreases s.len(),
{
    if s.len() > 0 {
        lemma_count_if_zero(s.drop_last(), p);
        assert forall|i: int| 0 <= i < s.len() implies !p(#[trigger] s[i]) by {
            if i < s.len() - 1 {
                assert(s.drop_last()[i] == s[i]);
            }
        }
    }
}

/// One element.
pub proof fn lemma_count_if_one<T>(x: T, p: spec_fn(T) -> bool)
    ensures
        count_if(seq![x], p) == if p(x) {
            1nat
        } else {
            0nat
        },
{
    assert(seq![x].drop_last() =~= seq![]);
    assert(count_if(seq![x].drop_last(), p) == 0);
}

/// Being equal to `x`.
pub open spec fn equal_to<T>(x: T) -> spec_fn(T) -> bool {
    |y: T| y == x
}

/// How often `x` occurs in a list.
pub open spec fn occurrences<T>(list: Seq<T>, x: T) -> nat {
    count_if(list, equal_to(x))
}

/// What is counted: the elements that satisfy `p`, taken by themselves; and of
/// one value, how often it is in the list as a multiset.
pub proof fn law_counting<T>(list: Seq<T>, p: spec_fn(T) -> bool, x: T)
    ensures
        count_if(list, p) == list.filter(p).len(),
        occurrences(list, x) == list.to_multiset().count(x),
    decreases list.len(),
{
    broadcast use {vstd::seq_lib::group_to_multiset_ensures, vstd::multiset::group_multiset_axioms};

    reveal(Seq::filter);
    if list.len() > 0 {
        law_counting(list.drop_last(), p, x);
        assert(list =~= list.drop_last().push(list.last()));
    }
}

/// Counts how often `id` occurs.
pub fn count_id(ids: &[u32], id: u32) -> (n: usize)
    ensures
        n == occurrences(ids@, id),
{
    let mut n: usize = 0;
    let mut i: usize = 0;
    while i < ids.len()
        invariant
            n <= i <= ids@.len(),
            n == occurrences(ids@.take(i as int), id),
        decreases ids@.len() - i,
    {
        assert(ids@.take(i + 1).drop_last() =~= ids@.take(i as int));
        if ids[i] == id {
            n += 1;
        }
        i += 1;
    }
    assert(ids@.take(i as int) =~= ids@);
    n
}

} // verus!
