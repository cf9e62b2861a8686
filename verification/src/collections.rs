//! The fixed-capacity collections of the `heapless` crate.
//!
//! Each type of vector or map that the library uses has a name for its
//! contents, declared next to the type that it holds. The traits [`Elements`]
//! and [`Entries`] gather those names, so that each operation of the crate is
//! described once.

use vstd::prelude::*;

verus! {

#[verifier::external_type_specification]
#[verifier::external_body]
#[verifier::reject_recursive_types(T)]
pub struct ExVec<T, const N: usize>(heapless::Vec<T, N>);

#[verifier::external_type_specification]
#[verifier::external_body]
#[verifier::reject_recursive_types(K)]
#[verifier::reject_recursive_types(V)]
pub struct ExLinearMap<K, V, const N: usize>(heapless::LinearMap<K, V, N>);

/// A vector whose elements have a name.
pub trait Elements<T> {
    /// The elements, in order.
    spec fn elements(&self) -> Seq<T>;
}

/// A map whose entries have a name.
pub trait Entries<V> {
    /// The entries, in the order in which they are stored.
    spec fn entries(&self) -> Seq<(Key, V)>;
}

/// The keys of a map. Two keys are equal if both numbers are.
pub type Key = (u8, u128);

/// The elements of a vector: `heapless::Vec::as_slice`. The contract claims
/// that the slice holds the elements, of which there are at most `N`.
#[verifier::external_body]
pub(crate) fn as_slice<T, const N: usize>(v: &heapless::Vec<T, N>) -> (s: &[T])
    where
        heapless::Vec<T, N>: Elements<T>,
    ensures
        s@ == v.elements(),
        s@.len() <= N,
{
    v.as_slice()
}

/// The elements of a vector, to be overwritten in place:
/// `heapless::Vec::as_mut_slice`. The contract claims that the slice holds the
/// elements, of which there are at most `N`, and that what is written to the
/// slice is written to the vector.
#[verifier::external_body]
pub(crate) fn as_mut_slice<T, const N: usize>(v: &mut heapless::Vec<T, N>) -> (s: &mut [T])
    where
        heapless::Vec<T, N>: Elements<T>,
    ensures
        s@ == old(v).elements(),
        s@.len() <= N,
        final(v).elements() == final(s)@,
{
    v.as_mut_slice()
}

/// Appends an element: `heapless::Vec::push`. The contract claims that the
/// element is appended if there are fewer than `N`, and handed back with the
/// vector unchanged otherwise.
#[verifier::external_body]
pub(crate) fn push<T, const N: usize>(v: &mut heapless::Vec<T, N>, item: T) -> (r: Result<(), T>)
    where
        heapless::Vec<T, N>: Elements<T>,
    ensures
        match r {
            Ok(_) => {
                &&& old(v).elements().len() < N
                &&& final(v).elements() == old(v).elements().push(item)
            },
            Err(e) => {
                &&& old(v).elements().len() == N
                &&& e == item
                &&& final(v).elements() == old(v).elements()
            },
        },
{
    v.push(item)
}

/// Inserts an element at a position: `heapless::Vec::insert`. The contract
/// claims that the element is inserted if there are fewer than `N`, and handed
/// back with the vector unchanged otherwise.
#[verifier::external_body]
pub(crate) fn insert<T, const N: usize>(
    v: &mut heapless::Vec<T, N>,
    index: usize,
    element: T,
) -> (r: Result<(), T>)
    where
        heapless::Vec<T, N>: Elements<T>,
    requires
        index <= old(v).elements().len(),
    ensures
        match r {
            Ok(_) => {
                &&& old(v).elements().len() < N
                &&& final(v).elements() == old(v).elements().insert(index as int, element)
            },
            Err(e) => {
                &&& old(v).elements().len() == N
                &&& e == element
                &&& final(v).elements() == old(v).elements()
            },
        },
{
    v.insert(index, element)
}

/// Removes the element at a position: `heapless::Vec::remove`. The contract
/// claims that the element is returned and that those behind it move up.
#[verifier::external_body]
pub(crate) fn remove<T, const N: usize>(v: &mut heapless::Vec<T, N>, index: usize) -> (r: T)
    where
        heapless::Vec<T, N>: Elements<T>,
    requires
        index < old(v).elements().len(),
    ensures
        r == old(v).elements()[index as int],
        final(v).elements() == old(v).elements().remove(index as int),
{
    v.remove(index)
}

/// Removes the elements that a test rejects: `heapless::Vec::retain`. The
/// contract claims that the elements that the test accepts stay, in their
/// order.
#[verifier::external_body]
pub(crate) fn retain<T, const N: usize, F: Fn(&T) -> bool>(v: &mut heapless::Vec<T, N>, f: F)
    where
        heapless::Vec<T, N>: Elements<T>,
    requires
        forall|x: &T| #[trigger] call_requires(f, (x,)),
    ensures
        forall|p: spec_fn(T) -> bool|
            (forall|x: &T, r: bool| #[trigger] call_ensures(f, (x,), r) ==> r == p(*x))
                ==> final(v).elements() == #[trigger] old(v).elements().filter(p),
{
    v.retain(f)
}

/// Whether some entry has the key `k`.
pub open spec fn has_key<V>(s: Seq<(Key, V)>, k: Key) -> bool {
    exists|i: int| 0 <= i < s.len() && #[trigger] s[i].0 == k
}

/// The position of the first entry with the key `k`, if there is one.
pub open spec fn key_index<V>(s: Seq<(Key, V)>, k: Key) -> int {
    choose|i: int|
        0 <= i < s.len() && #[trigger] s[i].0 == k && forall|j: int|
            0 <= j < i ==> (#[trigger] s[j]).0 != k
}

/// Where some entry has the key `k`, one of them is the first.
pub proof fn lemma_key_index<V>(s: Seq<(Key, V)>, k: Key)
    requires
        has_key(s, k),
    ensures
        0 <= key_index(s, k) < s.len(),
        s[key_index(s, k)].0 == k,
        forall|j: int| 0 <= j < key_index(s, k) ==> (#[trigger] s[j]).0 != k,
{
    let i = choose|i: int| 0 <= i < s.len() && #[trigger] s[i].0 == k;
    lemma_first_key(s, k, i);
}

proof fn lemma_first_key<V>(s: Seq<(Key, V)>, k: Key, i: int)
    requires
        0 <= i < s.len(),
        s[i].0 == k,
    ensures
        exists|m: int|
            0 <= m < s.len() && #[trigger] s[m].0 == k && forall|j: int|
                0 <= j < m ==> (#[trigger] s[j]).0 != k,
    decreases i,
{
    if exists|j: int| 0 <= j < i && (#[trigger] s[j]).0 == k {
        let j = choose|j: int| 0 <= j < i && (#[trigger] s[j]).0 == k;
        lemma_first_key(s, k, j);
    }
}

/// Whether no two entries have the same key.
pub open spec fn keys_distinct<V>(s: Seq<(Key, V)>) -> bool {
    forall|i: int, j: int| 0 <= i < j < s.len() ==> (#[trigger] s[i]).0 != (#[trigger] s[j]).0
}

/// The value that the entries give the key `k`, if there is one.
pub open spec fn value_of<V>(s: Seq<(Key, V)>, k: Key) -> Option<V> {
    if has_key(s, k) {
        Some(s[key_index(s, k)].1)
    } else {
        None
    }
}

/// The entries with the value of the key `k`, which occurs, set to `value`.
pub open spec fn with_value<V>(s: Seq<(Key, V)>, k: Key, value: V) -> Seq<(Key, V)> {
    s.update(key_index(s, k), (k, value))
}

/// The entries without the one of the key `k`, whose place the last takes.
pub open spec fn without_key<V>(s: Seq<(Key, V)>, k: Key) -> Seq<(Key, V)> {
    if has_key(s, k) {
        s.update(key_index(s, k), s.last()).drop_last()
    } else {
        s
    }
}

/// The entries of a map: `heapless::LinearMap::iter`. The contract claims that
/// the result holds a copy of each entry, in the order in which they are
/// stored, and that there are at most `N`.
#[verifier::external_body]
pub(crate) fn map_entries<V: Copy, const N: usize>(m: &heapless::LinearMap<Key, V, N>) -> (r: Vec<
    (Key, V),
>)
    where
        heapless::LinearMap<Key, V, N>: Entries<V>,
    ensures
        r@ == m.entries(),
        r@.len() <= N,
{
    m.iter().map(|(k, v)| (*k, *v)).collect()
}

/// The value of a key: `heapless::LinearMap::get`. The contract claims that it
/// is the value of the first entry with that key.
#[verifier::external_body]
pub(crate) fn map_get<'a, V, const N: usize>(
    m: &'a heapless::LinearMap<Key, V, N>,
    key: &Key,
) -> (r: Option<&'a V>)
    where
        heapless::LinearMap<Key, V, N>: Entries<V>,
    ensures
        match r {
            Some(v) => value_of(m.entries(), *key) == Some(*v),
            None => !has_key(m.entries(), *key),
        },
{
    m.get(key)
}

/// The value of a key, to be overwritten in place:
/// `heapless::LinearMap::get_mut`. The contract claims that it is the value of
/// the first entry with that key, and that what is written to it is written
/// to the map.
#[verifier::external_body]
pub(crate) fn map_get_mut<'a, V, const N: usize>(
    m: &'a mut heapless::LinearMap<Key, V, N>,
    key: &Key,
) -> (r: Option<&'a mut V>)
    where
        heapless::LinearMap<Key, V, N>: Entries<V>,
    ensures
        match r {
            Some(v) => {
                &&& value_of(old(m).entries(), *key) == Some(*v)
                &&& final(m).entries() == with_value(old(m).entries(), *key, *final(v))
            },
            None => {
                &&& !has_key(old(m).entries(), *key)
                &&& final(m).entries() == old(m).entries()
            },
        },
{
    m.get_mut(key)
}

/// Sets the value of a key: `heapless::LinearMap::insert`. The contract claims
/// that the value of the first entry with that key is replaced and returned;
/// that, where the key is new, an entry is appended if there are fewer than
/// `N`; and that the key and the value are handed back with the map unchanged
/// otherwise.
#[verifier::external_body]
pub(crate) fn map_insert<V, const N: usize>(
    m: &mut heapless::LinearMap<Key, V, N>,
    key: Key,
    value: V,
) -> (r: Result<Option<V>, (Key, V)>)
    where
        heapless::LinearMap<Key, V, N>: Entries<V>,
    ensures
        match r {
            Ok(Some(replaced)) => {
                &&& value_of(old(m).entries(), key) == Some(replaced)
                &&& final(m).entries() == with_value(old(m).entries(), key, value)
            },
            Ok(None) => {
                &&& !has_key(old(m).entries(), key)
                &&& old(m).entries().len() < N
                &&& final(m).entries() == old(m).entries().push((key, value))
            },
            Err(back) => {
                &&& !has_key(old(m).entries(), key)
                &&& old(m).entries().len() == N
                &&& back == (key, value)
                &&& final(m).entries() == old(m).entries()
            },
        },
{
    m.insert(key, value)
}

/// Removes a key: `heapless::LinearMap::remove`. The contract claims that the
/// value of the first entry with that key is returned, and that the last entry
/// takes its place.
#[verifier::external_body]
pub(crate) fn map_remove<V, const N: usize>(
    m: &mut heapless::LinearMap<Key, V, N>,
    key: &Key,
) -> (r: Option<V>)
    where
        heapless::LinearMap<Key, V, N>: Entries<V>,
    ensures
        r == value_of(old(m).entries(), *key),
        final(m).entries() == without_key(old(m).entries(), *key),
{
    m.remove(key)
}

/// Removes every entry: `heapless::LinearMap::clear`. The contract claims that
/// none is left.
#[verifier::external_body]
pub(crate) fn map_clear<V, const N: usize>(m: &mut heapless::LinearMap<Key, V, N>)
    where
        heapless::LinearMap<Key, V, N>: Entries<V>,
    ensures
        final(m).entries().len() == 0,
{
    m.clear()
}

/// Removing a key keeps the keys distinct and the values of the others.
pub proof fn lemma_without_key<V>(s: Seq<(Key, V)>, k: Key)
    requires
        keys_distinct(s),
    ensures
        keys_distinct(without_key(s, k)),
        without_key(s, k).len() == if has_key(s, k) {
            s.len() - 1
        } else {
            s.len() as int
        },
        forall|i: int|
            0 <= i < without_key(s, k).len() ==> s.contains(#[trigger] without_key(s, k)[i]),
        forall|m: Key|
            #[trigger] value_of(without_key(s, k), m) == if m == k {
                None
            } else {
                value_of(s, m)
            },
{
    if has_key(s, k) {
        lemma_key_index(s, k);
    }
    let rest = without_key(s, k);
    assert forall|i: int| 0 <= i < rest.len() implies s.contains(#[trigger] rest[i]) by {
        let j = if has_key(s, k) && i == key_index(s, k) {
            s.len() - 1
        } else {
            i
        };
        assert(s[j] == rest[i]);
    }
    assert forall|m: Key|
        #[trigger] value_of(rest, m) == if m == k {
            None
        } else {
            value_of(s, m)
        } by {
        if has_key(s, m) {
            lemma_key_index(s, m);
        }
        if has_key(rest, m) {
            lemma_key_index(rest, m);
        }
        if has_key(s, k) {
            let at = key_index(s, k);
            let last = s.len() - 1;
            if m != k && has_key(s, m) {
                let i = key_index(s, m);
                let j = if i == last { at } else { i };
                assert(rest[j].0 == m);
                assert(has_key(rest, m));
                assert(rest[key_index(rest, m)].0 == m);
            }
            if has_key(rest, m) {
                let j = key_index(rest, m);
                let i = if j == at { last } else { j };
                assert(s[i] == rest[j]);
                assert(s[i].0 == m);
            }
        }
    }
}

/// Setting the value of a key keeps the keys and the values of the others.
pub proof fn lemma_with_value<V>(s: Seq<(Key, V)>, k: Key, value: V)
    requires
        keys_distinct(s),
        has_key(s, k),
    ensures
        keys_distinct(with_value(s, k, value)),
        with_value(s, k, value).len() == s.len(),
        forall|m: Key|
            #[trigger] value_of(with_value(s, k, value), m) == if m == k {
                Some(value)
            } else {
                value_of(s, m)
            },
{
    lemma_key_index(s, k);
    let after = with_value(s, k, value);
    assert forall|m: Key|
        #[trigger] value_of(after, m) == if m == k {
            Some(value)
        } else {
            value_of(s, m)
        } by {
        if has_key(s, m) {
            lemma_key_index(s, m);
            assert(after[key_index(s, m)].0 == m);
        }
        if has_key(after, m) {
            lemma_key_index(after, m);
            assert(s[key_index(after, m)].0 == m);
        }
    }
}

/// Appending a new key keeps the values of the others.
pub proof fn lemma_push_key<V>(s: Seq<(Key, V)>, k: Key, value: V)
    requires
        keys_distinct(s),
        !has_key(s, k),
    ensures
        keys_distinct(s.push((k, value))),
        forall|m: Key|
            #[trigger] value_of(s.push((k, value)), m) == if m == k {
                Some(value)
            } else {
                value_of(s, m)
            },
{
    let after = s.push((k, value));
    assert(after[s.len() as int].0 == k);
    assert forall|m: Key|
        #[trigger] value_of(after, m) == if m == k {
            Some(value)
        } else {
            value_of(s, m)
        } by {
        if has_key(s, m) {
            lemma_key_index(s, m);
            assert(after[key_index(s, m)].0 == m);
        }
        if has_key(after, m) {
            lemma_key_index(after, m);
            let i = key_index(after, m);
            if i < s.len() {
                assert(s[i].0 == m);
            }
        }
    }
}

} // verus!
