//! The ordered key index: an insertion-ordered set of unique identity keys,
//! held in indexmap's `IndexSet` with the fast rustc hasher.
//!
//! The set itself is opaque to the verifier; `key_seq` names the sequence of
//! keys it holds in insertion order, and the wrappers below state what each
//! `IndexSet` method does to that sequence, as indexmap documents it.

use vstd::prelude::*;

verus! {

#[verifier::external_type_specification]
#[verifier::external_body]
pub struct ExFxHasher(rustc_hash::FxHasher);

#[verifier::external_type_specification]
#[verifier::external_body]
#[verifier::reject_recursive_types(H)]
pub struct ExBuildHasherDefault<H>(std::hash::BuildHasherDefault<H>);

#[verifier::external_type_specification]
#[verifier::external_body]
#[verifier::reject_recursive_types(T)]
#[verifier::reject_recursive_types(S)]
pub struct ExIndexSet<T, S>(indexmap::IndexSet<T, S>);

/// An insertion-ordered set of `u64` identity keys.
pub type FxIndexSet = indexmap::IndexSet<u64, std::hash::BuildHasherDefault<rustc_hash::FxHasher>>;

/// The keys a set holds, in insertion order.  A set never holds two equal
/// keys, so this sequence has no duplicates; the functions that build sets
/// carry that fact in their contracts.
pub uninterp spec fn key_seq(s: FxIndexSet) -> Seq<u64>;

/// Relies on indexmap's `IndexSet::default`: a freshly built set is empty.
#[verifier::external_body]
pub fn new_key_set() -> (r: FxIndexSet)
    ensures
        key_seq(r) == Seq::<u64>::empty(),
{
    indexmap::IndexSet::default()
}

/// Relies on indexmap's `IndexSet::insert`: a key already present is left in
/// place without altering the insertion order and `false` comes back; a new
/// key is appended at the end of the order and `true` comes back.
#[verifier::external_body]
pub fn key_set_insert(s: &mut FxIndexSet, k: u64) -> (r: bool)
    ensures
        r == !key_seq(*old(s)).contains(k),
        key_seq(*final(s)) == if key_seq(*old(s)).contains(k) {
            key_seq(*old(s))
        } else {
            key_seq(*old(s)).push(k)
        },
{
    s.insert(k)
}

/// Relies on indexmap's `IndexSet::len`: the number of keys held.
#[verifier::external_body]
pub fn key_set_len(s: &FxIndexSet) -> (r: usize)
    ensures
        r == key_seq(*s).len(),
{
    s.len()
}

/// Relies on indexmap's `IndexSet::get_index`: the key at a position of the
/// insertion order, or `None` past the end.
#[verifier::external_body]
pub fn key_set_get_index(s: &FxIndexSet, i: usize) -> (r: Option<u64>)
    ensures
        i < key_seq(*s).len() ==> r == Some(key_seq(*s)[i as int]),
        i >= key_seq(*s).len() ==> r is None,
{
    s.get_index(i).copied()
}

/// Relies on indexmap's `IndexSet::contains`: whether an equal key is present.
#[verifier::external_body]
pub fn key_set_contains(s: &FxIndexSet, k: u64) -> (r: bool)
    ensures
        r == key_seq(*s).contains(k),
{
    s.contains(&k)
}

/// Relies on indexmap's `IndexSet::get_index_of`: the position of a key in
/// the insertion order, or `None` when the key is absent.
#[verifier::external_body]
pub fn key_set_get_index_of(s: &FxIndexSet, k: u64) -> (r: Option<usize>)
    ensures
        match r {
            Some(p) => p < key_seq(*s).len() && key_seq(*s)[p as int] == k,
            None => !key_seq(*s).contains(k),
        },
        key_seq(*s).contains(k) ==> r is Some,
{
    s.get_index_of(&k)
}

/// The key order that remains when every later occurrence of an already seen
/// key is dropped: the first occurrence is the defining one.
pub open spec fn dedup_first(s: Seq<u64>) -> Seq<u64>
    decreases s.len(),
{
    if s.len() == 0 {
        Seq::empty()
    } else {
        let p = dedup_first(s.drop_last());
        if p.contains(s.last()) {
            p
        } else {
            p.push(s.last())
        }
    }
}

/// Folding a key sequence into an empty set keeps exactly the first
/// occurrence of each key, in order, and so never yields duplicates.
pub proof fn lemma_dedup_first_no_duplicates(s: Seq<u64>)
    ensures
        dedup_first(s).no_duplicates(),
        forall|k: u64| dedup_first(s).contains(k) <==> s.contains(k),
    decreases s.len(),
{
    if s.len() == 0 {
    } else {
        lemma_dedup_first_no_duplicates(s.drop_last());
        let p = dedup_first(s.drop_last());
        assert forall|k: u64| dedup_first(s).contains(k) <==> s.contains(k) by {
            if dedup_first(s).contains(k) {
                if p.contains(k) {
                    assert(s.drop_last().contains(k));
                    let i = choose|i: int| 0 <= i < s.drop_last().len() && s.drop_last()[i] == k;
                    assert(s[i] == k);
                } else {
                    assert(k == s.last());
                    assert(s[s.len() - 1] == k);
                }
            }
            if s.contains(k) {
                let i = choose|i: int| 0 <= i < s.len() && s[i] == k;
                if i < s.len() - 1 {
                    assert(s.drop_last()[i] == k);
                    assert(s.drop_last().contains(k));
                    assert(p.contains(k));
                    if !p.contains(s.last()) {
                        assert(dedup_first(s) == p.push(s.last()));
                        let j = choose|j: int| 0 <= j < p.len() && p[j] == k;
                        assert(dedup_first(s)[j] == k);
                    }
                } else {
                    assert(s.last() == k);
                    if p.contains(k) {
                    } else {
                        assert(dedup_first(s).last() == k);
                    }
                }
            }
        }
    }
}

/// Builds the ordered key index of one update: every key of the update in
/// order, duplicates collapsed to their first occurrence.
pub fn key_set_from_keys(keys: &Vec<u64>) -> (r: FxIndexSet)
    ensures
        key_seq(r) == dedup_first(keys@),
        key_seq(r).no_duplicates(),
{
    let mut s = new_key_set();
    let n = keys.len();
    for i in 0..n
        invariant
            n == keys@.len(),
            key_seq(s) == dedup_first(keys@.take(i as int)),
    {
        proof {
            lemma_dedup_first_no_duplicates(keys@.take(i as int));
            assert(keys@.take(i + 1).drop_last() =~= keys@.take(i as int));
            assert(keys@.take(i + 1).last() == keys@[i as int]);
        }
        key_set_insert(&mut s, keys[i]);
        proof {
            if dedup_first(keys@.take(i as int)).contains(keys@[i as int]) {
                assert(key_seq(s) =~= dedup_first(keys@.take(i + 1)));
            } else {
                assert(key_seq(s) =~= dedup_first(keys@.take(i + 1)));
            }
        }
    }
    proof {
        assert(keys@.take(n as int) =~= keys@);
        lemma_dedup_first_no_duplicates(keys@);
    }
    s
}

} // verus!
