//! Ordered, duplicate-free sets of identity keys, held in an `indexmap::IndexSet`
//! hashed with `rustc_hash::FxHasher`.

use std::hash::BuildHasherDefault;

use indexmap::IndexSet;
use rustc_hash::FxHasher;
use vstd::prelude::*;

verus! {

#[verifier::external_type_specification]
#[verifier::external_body]
pub struct ExFxHasher(FxHasher);

#[verifier::external_type_specification]
#[verifier::external_body]
#[verifier::reject_recursive_types(H)]
pub struct ExBuildHasherDefault<H>(BuildHasherDefault<H>);

#[verifier::external_type_specification]
#[verifier::external_body]
#[verifier::reject_recursive_types(T)]
#[verifier::reject_recursive_types(S)]
pub struct ExIndexSet<T, S>(IndexSet<T, S>);

/// One generation of identity keys, in render order.
pub type KeySet = IndexSet<u64, BuildHasherDefault<FxHasher>>;

/// The keys that an `IndexSet` holds, in their insertion order.
pub uninterp spec fn keys_of(s: IndexSet<u64, BuildHasherDefault<FxHasher>>) -> Seq<u64>;

/// A key set whose keys are pairwise distinct.
pub open spec fn key_set_wf(s: &KeySet) -> bool {
    keys_of(*s).no_duplicates()
}

/// Relies on `IndexSet::default`: it returns an empty set.
#[verifier::external_body]
fn empty_key_set() -> (r: KeySet)
    ensures
        keys_of(r) == Seq::<u64>::empty(),
{
    IndexSet::default()
}

/// Relies on `IndexSet::insert`: a value that is absent is appended at the end
/// and `true` comes back; a value already present leaves the set unchanged and
/// `false` comes back.
#[verifier::external_body]
fn insert_key(s: &mut KeySet, k: u64) -> (r: bool)
    ensures
        r == !keys_of(*old(s)).contains(k),
        keys_of(*final(s)) == if r {
            keys_of(*old(s)).push(k)
        } else {
            keys_of(*old(s))
        },
{
    s.insert(k)
}

/// Relies on `IndexSet::len`: the number of values in the set.
#[verifier::external_body]
pub(crate) fn key_count(s: &KeySet) -> (r: usize)
    ensures
        r == keys_of(*s).len(),
{
    s.len()
}

/// Relies on `IndexSet::get_index_of`: the position of the value, if present.
#[verifier::external_body]
pub(crate) fn key_index(s: &KeySet, k: u64) -> (r: Option<usize>)
    ensures
        r is None <==> !keys_of(*s).contains(k),
        r matches Some(i) ==> i < keys_of(*s).len() && keys_of(*s)[i as int] == k,
{
    s.get_index_of(&k)
}

/// Relies on `Index<usize>` for `IndexSet`: the value at a position in range.
#[verifier::external_body]
pub(crate) fn key_at(s: &KeySet, i: usize) -> (r: u64)
    requires
        i < keys_of(*s).len(),
    ensures
        r == keys_of(*s)[i as int],
{
    s[i]
}

/// The keys of `keys` in order of first occurrence, each once.
pub open spec fn dedup_keys(keys: Seq<u64>) -> Seq<u64>
    decreases keys.len(),
{
    if keys.len() == 0 {
        Seq::empty()
    } else {
        let prior = dedup_keys(keys.drop_last());
        if prior.contains(keys.last()) {
            prior
        } else {
            prior.push(keys.last())
        }
    }
}

/// Collects the keys of one generation into a key set, keeping the first
/// occurrence of each key.
pub fn collect_keys(keys: &Vec<u64>) -> (r: KeySet)
    ensures
        keys_of(r) == dedup_keys(keys@),
        key_set_wf(&r),
{
    let mut s = empty_key_set();
    let mut i: usize = 0;
    while i < keys.len()
        invariant
            i <= keys.len(),
            keys_of(s) == dedup_keys(keys@.take(i as int)),
            keys_of(s).no_duplicates(),
        decreases keys.len() - i,
    {
        proof {
            assert(keys@.take(i + 1).drop_last() == keys@.take(i as int));
        }
        let _ = insert_key(&mut s, keys[i]);
        i += 1;
    }
    proof {
        assert(keys@.take(i as int) == keys@);
    }
    s
}

} // verus!
