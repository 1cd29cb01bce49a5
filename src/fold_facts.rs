//! Pointwise descriptions of the applier's phases, and of compaction.

use vstd::prelude::*;

use crate::apply::{compact, occupants, put_added, put_moved, remove_slots, take_moved};
use crate::diff::{DiffOpAdd, DiffOpMove, DiffOpRemove};

verus! {

pub open spec fn names_slot(ops: Seq<DiffOpRemove>, i: int) -> bool {
    exists|k: int| 0 <= k < ops.len() && #[trigger] ops[k].at == i
}

pub open spec fn is_source(ops: Seq<DiffOpMove>, i: int) -> bool {
    exists|k: int| 0 <= k < ops.len() && #[trigger] ops[k].from == i
}

pub open spec fn is_target<C>(staged: Seq<(usize, C)>, i: int) -> bool {
    exists|k: int| 0 <= k < staged.len() && #[trigger] staged[k].0 == i
}

pub open spec fn is_insert_at<C>(ops: Seq<DiffOpAdd<C>>, i: int) -> bool {
    exists|k: int| 0 <= k < ops.len() && #[trigger] ops[k].at == i
}

/// Removals empty exactly the slots they name.
pub proof fn lemma_remove_slots<C>(s: Seq<Option<C>>, ops: Seq<DiffOpRemove>)
    ensures
        remove_slots(s, ops).0.len() == s.len(),
        forall|i: int|
            0 <= i < s.len() ==> #[trigger] remove_slots(s, ops).0[i] == if names_slot(ops, i) {
                None
            } else {
                s[i]
            },
    decreases ops.len(),
{
    if ops.len() > 0 {
        let prior = ops.drop_last();
        lemma_remove_slots(s, prior);
        assert forall|i: int| 0 <= i < s.len() implies #[trigger] remove_slots(s, ops).0[i]
            == if names_slot(ops, i) {
            None
        } else {
            s[i]
        } by {
            if names_slot(prior, i) {
                let k = choose|k: int| 0 <= k < prior.len() && #[trigger] prior[k].at == i;
                assert(ops[k].at == i);
            }
            if names_slot(ops, i) && !names_slot(prior, i) {
                let k = choose|k: int| 0 <= k < ops.len() && #[trigger] ops[k].at == i;
                if k < prior.len() {
                    assert(prior[k].at == i);
                }
            }
            if !names_slot(ops, i) {
                assert(ops[ops.len() - 1].at != i);
            }
        }
    }
}

/// Moves with distinct, occupied sources empty exactly those sources and
/// stage each source's child with its target.
pub proof fn lemma_take_moved<C>(s: Seq<Option<C>>, ops: Seq<DiffOpMove>)
    requires
        forall|k: int| 0 <= k < ops.len() ==> #[trigger] ops[k].from < s.len(),
        forall|k: int| 0 <= k < ops.len() ==> s[#[trigger] ops[k].from as int] is Some,
        forall|k1: int, k2: int|
            0 <= k1 < k2 < ops.len() ==> #[trigger] ops[k1].from != #[trigger] ops[k2].from,
    ensures
        take_moved(s, ops).0.len() == s.len(),
        take_moved(s, ops).1.len() == ops.len(),
        forall|i: int|
            0 <= i < s.len() ==> #[trigger] take_moved(s, ops).0[i] == if is_source(ops, i) {
                None
            } else {
                s[i]
            },
        forall|k: int|
            0 <= k < ops.len() ==> #[trigger] take_moved(s, ops).1[k] == (
                ops[k].to,
                s[ops[k].from as int]->0,
            ),
    decreases ops.len(),
{
    if ops.len() > 0 {
        let prior = ops.drop_last();
        lemma_take_moved(s, prior);
        let last = ops[ops.len() - 1];
        assert(!is_source(prior, last.from as int)) by {
            if is_source(prior, last.from as int) {
                let k = choose|k: int| 0 <= k < prior.len() && #[trigger] prior[k].from == last.from;
                assert(ops[k].from == ops[ops.len() - 1].from);
            }
        }
        assert forall|i: int| 0 <= i < s.len() implies #[trigger] take_moved(s, ops).0[i]
            == if is_source(ops, i) {
            None
        } else {
            s[i]
        } by {
            if is_source(prior, i) {
                let k = choose|k: int| 0 <= k < prior.len() && #[trigger] prior[k].from == i;
                assert(ops[k].from == i);
            }
            if is_source(ops, i) && !is_source(prior, i) {
                let k = choose|k: int| 0 <= k < ops.len() && #[trigger] ops[k].from == i;
                if k < prior.len() {
                    assert(prior[k].from == i);
                }
            }
            if !is_source(ops, i) {
                assert(ops[ops.len() - 1].from != i);
            }
        }
        assert forall|k: int| 0 <= k < ops.len() implies #[trigger] take_moved(s, ops).1[k] == (
            ops[k].to,
            s[ops[k].from as int]->0,
        ) by {
            if k < prior.len() {
                assert(prior[k] == ops[k]);
            }
        }
    }
}

/// Staged children with distinct targets land at their targets; every other
/// slot keeps its content.
pub proof fn lemma_put_moved<C>(s: Seq<Option<C>>, staged: Seq<(usize, C)>)
    requires
        forall|k: int| 0 <= k < staged.len() ==> #[trigger] staged[k].0 < s.len(),
        forall|k1: int, k2: int|
            0 <= k1 < k2 < staged.len() ==> #[trigger] staged[k1].0 != #[trigger] staged[k2].0,
    ensures
        put_moved(s, staged).len() == s.len(),
        forall|k: int|
            0 <= k < staged.len() ==> put_moved(s, staged)[#[trigger] staged[k].0 as int] == Some(
                staged[k].1,
            ),
        forall|i: int|
            0 <= i < s.len() && !is_target(staged, i) ==> #[trigger] put_moved(s, staged)[i]
                == s[i],
    decreases staged.len(),
{
    if staged.len() > 0 {
        let prior = staged.drop_last();
        lemma_put_moved(s, prior);
        assert forall|k: int| 0 <= k < staged.len() implies put_moved(s, staged)[
            #[trigger] staged[k].0 as int] == Some(staged[k].1) by {
            if k < prior.len() {
                assert(prior[k] == staged[k]);
                assert(staged[k].0 != staged[staged.len() - 1].0);
            }
        }
        assert forall|i: int| 0 <= i < s.len() && !is_target(staged, i) implies #[trigger] put_moved(
            s,
            staged,
        )[i] == s[i] by {
            assert(staged[staged.len() - 1].0 != i);
            if is_target(prior, i) {
                let k = choose|k: int| 0 <= k < prior.len() && #[trigger] prior[k].0 == i;
                assert(staged[k].0 == i);
            }
        }
    }
}

/// Insertions with distinct positions write their views there; every other
/// slot keeps its content.
pub proof fn lemma_put_added<C>(s: Seq<Option<C>>, ops: Seq<DiffOpAdd<C>>)
    requires
        forall|k: int| 0 <= k < ops.len() ==> #[trigger] ops[k].at < s.len(),
        forall|k1: int, k2: int|
            0 <= k1 < k2 < ops.len() ==> #[trigger] ops[k1].at != #[trigger] ops[k2].at,
    ensures
        put_added(s, ops).len() == s.len(),
        forall|k: int|
            0 <= k < ops.len() ==> put_added(s, ops)[#[trigger] ops[k].at as int] == ops[k].view,
        forall|i: int|
            0 <= i < s.len() && !is_insert_at(ops, i) ==> #[trigger] put_added(s, ops)[i] == s[i],
    decreases ops.len(),
{
    if ops.len() > 0 {
        let prior = ops.drop_last();
        lemma_put_added(s, prior);
        assert forall|k: int| 0 <= k < ops.len() implies put_added(s, ops)[
            #[trigger] ops[k].at as int] == ops[k].view by {
            if k < prior.len() {
                assert(prior[k] == ops[k]);
                assert(ops[k].at != ops[ops.len() - 1].at);
            }
        }
        assert forall|i: int| 0 <= i < s.len() && !is_insert_at(ops, i) implies #[trigger] put_added(
            s,
            ops,
        )[i] == s[i] by {
            assert(ops[ops.len() - 1].at != i);
            if is_insert_at(prior, i) {
                let k = choose|k: int| 0 <= k < prior.len() && #[trigger] prior[k].at == i;
                assert(ops[k].at == i);
            }
        }
    }
}

/// An array whose first `t` slots are occupied and whose other slots are
/// empty compacts to its first `t` slots.
pub proof fn lemma_compact_prefix<C>(e: Seq<Option<C>>, t: nat)
    requires
        t <= e.len(),
        forall|j: int| 0 <= j < t ==> (#[trigger] e[j]) is Some,
        forall|j: int| t <= j < e.len() ==> (#[trigger] e[j]) is None,
    ensures
        compact(e) == e.take(t as int),
    decreases e.len(),
{
    if e.len() > 0 {
        if e.len() > t {
            lemma_compact_prefix(e.drop_last(), t);
            assert(e.drop_last().take(t as int) =~= e.take(t as int));
        } else {
            lemma_compact_prefix(e.drop_last(), (t - 1) as nat);
            assert(e.drop_last().take(t - 1) =~= e.drop_last());
            assert(e.drop_last().push(e.last()) =~= e);
            assert(e.take(t as int) =~= e);
        }
    } else {
        assert(e.take(t as int) =~= e);
    }
}


/// Removals naming distinct, occupied slots give out the children of those
/// slots, in the order of the removals.
pub proof fn lemma_removed_children<C>(s: Seq<Option<C>>, ops: Seq<DiffOpRemove>)
    requires
        forall|k: int| 0 <= k < ops.len() ==> #[trigger] ops[k].at < s.len(),
        forall|k: int| 0 <= k < ops.len() ==> s[#[trigger] ops[k].at as int] is Some,
        forall|k1: int, k2: int|
            0 <= k1 < k2 < ops.len() ==> #[trigger] ops[k1].at != #[trigger] ops[k2].at,
    ensures
        remove_slots(s, ops).1.len() == ops.len(),
        forall|k: int|
            0 <= k < ops.len() ==> #[trigger] remove_slots(s, ops).1[k] == s[ops[k].at as int]->0,
    decreases ops.len(),
{
    if ops.len() > 0 {
        let prior = ops.drop_last();
        lemma_removed_children(s, prior);
        lemma_remove_slots(s, prior);
        let last = ops[ops.len() - 1];
        assert(!names_slot(prior, last.at as int)) by {
            if names_slot(prior, last.at as int) {
                let k = choose|k: int| 0 <= k < prior.len() && #[trigger] prior[k].at == last.at;
                assert(ops[k].at == ops[ops.len() - 1].at);
            }
        }
        assert forall|k: int| 0 <= k < ops.len() implies #[trigger] remove_slots(s, ops).1[k]
            == s[ops[k].at as int]->0 by {
            if k < prior.len() {
                assert(prior[k] == ops[k]);
            }
        }
    }
}

/// The occupants of a fully occupied array followed by empty slots are the
/// contents of its occupied part.
pub proof fn lemma_occupants_prefix<C>(e: Seq<Option<C>>, t: nat)
    requires
        t <= e.len(),
        forall|j: int| 0 <= j < t ==> (#[trigger] e[j]) is Some,
        forall|j: int| t <= j < e.len() ==> (#[trigger] e[j]) is None,
    ensures
        occupants(e).len() == t,
        forall|j: int| 0 <= j < t ==> #[trigger] occupants(e)[j] == e[j]->0,
    decreases e.len(),
{
    if e.len() > 0 {
        if e.len() > t {
            lemma_occupants_prefix(e.drop_last(), t);
        } else {
            lemma_occupants_prefix(e.drop_last(), (t - 1) as nat);
        }
    }
}

} // verus!
