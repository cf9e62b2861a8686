//! Sorting, and facts about filtered sequences.

use vstd::prelude::*;

verus! {

/// Whether no element of `s` belongs before one that stands before it.
pub open spec fn in_order<T>(s: Seq<T>, before: spec_fn(T, T) -> bool) -> bool {
    forall|i: int, j: int| 0 <= i < j < s.len() ==> !before(#[trigger] s[j], #[trigger] s[i])
}

/// Whether elements can be sorted by `before`.
pub open spec fn sortable<T>(before: spec_fn(T, T) -> bool) -> bool {
    &&& forall|a: T, b: T| #[trigger] before(a, b) ==> !before(b, a)
    &&& forall|a: T, b: T, c: T|
        !#[trigger] before(b, a) && !#[trigger] before(c, b) ==> !before(c, a)
}

/// Sorts the elements. The test `is_before` decides `before`.
pub fn sort_by<T: Copy, F: Fn(&T, &T) -> bool>(
    s: &mut [T],
    is_before: F,
    Ghost(before): Ghost<spec_fn(T, T) -> bool>,
)
    requires
        sortable(before),
        forall|a: &T, b: &T| #[trigger] call_requires(is_before, (a, b)),
        forall|a: &T, b: &T, r: bool| #[trigger]
            call_ensures(is_before, (a, b), r) ==> r == before(*a, *b),
    ensures
        final(s)@.len() == old(s)@.len(),
        final(s)@.to_multiset() == old(s)@.to_multiset(),
        in_order(final(s)@, before),
{
    let mut i: usize = 0;
    let ghost start = s@;
    while i < s.len()
        invariant
            i <= s@.len(),
            s@.len() == start.len(),
            s@.to_multiset() == start.to_multiset(),
            in_order(s@.take(i as int), before),
            sortable(before),
            forall|a: &T, b: &T| #[trigger] call_requires(is_before, (a, b)),
            forall|a: &T, b: &T, r: bool| #[trigger]
                call_ensures(is_before, (a, b), r) ==> r == before(*a, *b),
        decreases s@.len() - i,
    {
        let mut j: usize = i;
        assert forall|a: int, b: int| 0 <= a < b <= i && b != i implies !before(
            #[trigger] s@[b],
            #[trigger] s@[a],
        ) by {
            assert(s@.take(i as int)[a] == s@[a]);
            assert(s@.take(i as int)[b] == s@[b]);
        }
        while j > 0 && is_before(&s[j], &s[j - 1])
            invariant
                j <= i < s@.len(),
                s@.len() == start.len(),
                s@.to_multiset() == start.to_multiset(),
                sortable(before),
                forall|a: &T, b: &T| #[trigger] call_requires(is_before, (a, b)),
                forall|a: &T, b: &T, r: bool| #[trigger]
                    call_ensures(is_before, (a, b), r) ==> r == before(*a, *b),
                forall|a: int, b: int|
                    0 <= a < b <= i && b != j ==> !before(#[trigger] s@[b], #[trigger] s@[a]),
            ensures
                j > 0 ==> !before(s@[j as int], s@[j - 1]),
            decreases j,
        {
            let ghost prior = s@;
            let x = s[j];
            let y = s[j - 1];
            s[j] = y;
            s[j - 1] = x;
            proof {
                broadcast use vstd::seq_lib::group_to_multiset_ensures;

                assert(s@ =~= prior.remove(j as int).insert(j - 1, x));
                assert(prior.contains(x));
                assert(s@.to_multiset() =~= prior.to_multiset());
                assert forall|a: int, b: int| 0 <= a < b <= i && b != j - 1 implies !before(
                    #[trigger] s@[b],
                    #[trigger] s@[a],
                ) by {
                    let p = if a == j {
                        j - 1
                    } else if a == j - 1 {
                        j as int
                    } else {
                        a
                    };
                    let q = if b == j {
                        j - 1
                    } else {
                        b
                    };
                    assert(s@[a] == prior[p]);
                    assert(s@[b] == prior[q]);
                    if a == j - 1 && b == j {
                        assert(before(prior[j as int], prior[j - 1]));
                    } else if p < q {
                        assert(!before(prior[q], prior[p]));
                    }
                }
            }
            j = j - 1;
        }
        proof {
            let now = s@.take(i + 1);
            assert forall|a: int, b: int| 0 <= a < b < now.len() implies !before(
                #[trigger] now[b],
                #[trigger] now[a],
            ) by {
                assert(now[a] == s@[a] && now[b] == s@[b]);
                if b == j && a < j - 1 {
                    assert(!before(s@[j - 1], s@[a]));
                }
            }
        }
        i = i + 1;
    }
    assert(s@.take(i as int) =~= s@);
}

/// Where the elements that a filter keeps come from: the result holds their
/// positions, in order.
pub proof fn lemma_filter_positions<T>(s: Seq<T>, keep: spec_fn(T) -> bool) -> (at: Seq<int>)
    ensures
        at.len() == s.filter(keep).len(),
        forall|i: int|
            0 <= i < at.len() ==> 0 <= #[trigger] at[i] < s.len() && s.filter(keep)[i] == s[at[i]]
                && keep(s[at[i]]),
        forall|i: int, j: int| 0 <= i < j < at.len() ==> #[trigger] at[i] < #[trigger] at[j],
        forall|k: int| 0 <= k < s.len() && keep(#[trigger] s[k]) ==> at.contains(k),
    decreases s.len(),
{
    reveal(Seq::filter);
    if s.len() == 0 {
        Seq::empty()
    } else {
        let first = s.drop_last();
        let rest = lemma_filter_positions(first, keep);
        if keep(s.last()) {
            let at = rest.push(s.len() - 1);
            assert forall|k: int| 0 <= k < s.len() && keep(#[trigger] s[k]) implies at.contains(
                k,
            ) by {
                if k < first.len() {
                    assert(first[k] == s[k]);
                    let i = choose|i: int| 0 <= i < rest.len() && rest[i] == k;
                    assert(at[i] == k);
                } else {
                    assert(at[rest.len() as int] == k);
                }
            }
            at
        } else {
            assert forall|k: int| 0 <= k < s.len() && keep(#[trigger] s[k]) implies rest.contains(
                k,
            ) by {
                assert(first[k] == s[k]);
            }
            rest
        }
    }
}

/// A filter that keeps every element changes nothing.
pub proof fn lemma_filter_all<T>(s: Seq<T>, keep: spec_fn(T) -> bool)
    requires
        forall|i: int| 0 <= i < s.len() ==> keep(#[trigger] s[i]),
    ensures
        s.filter(keep) == s,
    decreases s.len(),
{
    reveal(Seq::filter);
    if s.len() > 0 {
        let first = s.drop_last();
        assert forall|i: int| 0 <= i < first.len() implies keep(#[trigger] first[i]) by {
            assert(first[i] == s[i]);
        }
        lemma_filter_all(first, keep);
        assert(first.push(s.last()) =~= s);
    } else {
        assert(s.filter(keep) =~= s);
    }
}

/// Whether position `i` is the first at which an element qualifies.
pub open spec fn is_first<T>(s: Seq<T>, qualifies: spec_fn(T) -> bool, i: int) -> bool {
    &&& 0 <= i < s.len()
    &&& qualifies(s[i])
    &&& forall|j: int| 0 <= j < i ==> !qualifies(#[trigger] s[j])
}

/// The first position at which an element qualifies.
pub open spec fn first_index<T>(s: Seq<T>, qualifies: spec_fn(T) -> bool) -> Option<int> {
    if exists|i: int| is_first(s, qualifies, i) {
        Some(choose|i: int| is_first(s, qualifies, i))
    } else {
        None
    }
}

/// There is one first position, or no element qualifies.
pub proof fn lemma_first_index<T>(s: Seq<T>, qualifies: spec_fn(T) -> bool)
    ensures
        forall|i: int| #[trigger]
            is_first(s, qualifies, i) ==> first_index(s, qualifies) == Some(i),
        (forall|i: int| 0 <= i < s.len() ==> !qualifies(#[trigger] s[i])) ==> first_index(
            s,
            qualifies,
        ) is None,
{
    assert forall|i: int| #[trigger] is_first(s, qualifies, i) implies first_index(s, qualifies)
        == Some(i) by {
        let j = choose|j: int| is_first(s, qualifies, j);
        assert(is_first(s, qualifies, j));
        assert(qualifies(s[i]) && qualifies(s[j]));
    }
}

/// Where there is no first position, no element qualifies.
pub proof fn lemma_no_first<T>(s: Seq<T>, qualifies: spec_fn(T) -> bool)
    requires
        first_index(s, qualifies) is None,
    ensures
        forall|i: int| 0 <= i < s.len() ==> !qualifies(#[trigger] s[i]),
{
    assert forall|i: int| 0 <= i < s.len() implies !qualifies(#[trigger] s[i]) by {
        if qualifies(s[i]) {
            lemma_some_first(s, qualifies, i);
        }
    }
}

/// Where some element qualifies, there is a first position.
proof fn lemma_some_first<T>(s: Seq<T>, qualifies: spec_fn(T) -> bool, i: int)
    requires
        0 <= i < s.len(),
        qualifies(s[i]),
    ensures
        exists|j: int| is_first(s, qualifies, j),
    decreases i,
{
    if exists|j: int| 0 <= j < i && qualifies(#[trigger] s[j]) {
        let j = choose|j: int| 0 <= j < i && qualifies(#[trigger] s[j]);
        lemma_some_first(s, qualifies, j);
    } else {
        assert(is_first(s, qualifies, i));
    }
}

} // verus!
