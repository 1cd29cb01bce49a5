//! The applier: carries a diff out on an array of child slots.

use vstd::prelude::*;

use crate::diff::{Diff, DiffOpAdd, DiffOpMove, DiffOpRemove};

verus! {

/// The children held by the occupied slots of `s`, in order.
pub open spec fn occupants<C>(s: Seq<Option<C>>) -> Seq<C>
    decreases s.len(),
{
    if s.len() == 0 {
        Seq::empty()
    } else {
        let prior = occupants(s.drop_last());
        match s.last() {
            Some(c) => prior.push(c),
            None => prior,
        }
    }
}

/// The occupied slots of `s`, in order: the array with its holes closed.
pub open spec fn compact<C>(s: Seq<Option<C>>) -> Seq<Option<C>>
    decreases s.len(),
{
    if s.len() == 0 {
        Seq::empty()
    } else {
        let prior = compact(s.drop_last());
        if s.last() is Some {
            prior.push(s.last())
        } else {
            prior
        }
    }
}

/// Empties the slots that `ops` name, in order; a slot out of range or
/// already empty is left alone. Also gives the children taken out.
pub open spec fn remove_slots<C>(s: Seq<Option<C>>, ops: Seq<DiffOpRemove>) -> (
    Seq<Option<C>>,
    Seq<C>,
)
    decreases ops.len(),
{
    if ops.len() == 0 {
        (s, Seq::empty())
    } else {
        let (s1, gone) = remove_slots(s, ops.drop_last());
        let i = ops.last().at;
        if i < s1.len() && s1[i as int] is Some {
            (s1.update(i as int, None), gone.push(s1[i as int]->0))
        } else {
            (s1, gone)
        }
    }
}

/// Takes the children that `ops` move out of their old slots, in order,
/// each paired with its target position; a move whose source slot is out of
/// range or empty is left out.
pub open spec fn take_moved<C>(s: Seq<Option<C>>, ops: Seq<DiffOpMove>) -> (
    Seq<Option<C>>,
    Seq<(usize, C)>,
)
    decreases ops.len(),
{
    if ops.len() == 0 {
        (s, Seq::empty())
    } else {
        let (s1, staged) = take_moved(s, ops.drop_last());
        let i = ops.last().from;
        if i < s1.len() && s1[i as int] is Some {
            (s1.update(i as int, None), staged.push((ops.last().to, s1[i as int]->0)))
        } else {
            (s1, staged)
        }
    }
}

/// Writes the staged children into their target slots, in order; a target
/// out of range is left out.
pub open spec fn put_moved<C>(s: Seq<Option<C>>, staged: Seq<(usize, C)>) -> Seq<Option<C>>
    decreases staged.len(),
{
    if staged.len() == 0 {
        s
    } else {
        let s1 = put_moved(s, staged.drop_last());
        let (to, c) = staged.last();
        if to < s1.len() {
            s1.update(to as int, Some(c))
        } else {
            s1
        }
    }
}

/// Writes each insertion's child into its slot, in order; a position out of
/// range is left out.
pub open spec fn put_added<C>(s: Seq<Option<C>>, ops: Seq<DiffOpAdd<C>>) -> Seq<Option<C>>
    decreases ops.len(),
{
    if ops.len() == 0 {
        s
    } else {
        let s1 = put_added(s, ops.drop_last());
        let op = ops.last();
        if op.at < s1.len() {
            s1.update(op.at as int, op.view)
        } else {
            s1
        }
    }
}

/// The length the array is grown to before any edit: old length plus
/// insertions minus removals, when that is no shorter.
pub open spec fn target_len<C>(len: nat, d: Diff<C>) -> nat {
    if d.added@.len() >= d.removed@.len() {
        (len + d.added@.len() - d.removed@.len()) as nat
    } else {
        len
    }
}

pub open spec fn grown<C>(s: Seq<Option<C>>, n: nat) -> Seq<Option<C>> {
    s + Seq::new((n - s.len()) as nat, |i: int| None::<C>)
}

/// The slot array after the discard flag and the removals.
pub open spec fn after_removals<C>(d: Diff<C>, s: Seq<Option<C>>) -> (Seq<Option<C>>, Seq<C>) {
    let s0 = grown(s, target_len(s.len(), d));
    if d.clear {
        (Seq::new(s0.len(), |i: int| None::<C>), occupants(s0))
    } else {
        remove_slots(s0, d.removed@)
    }
}

/// The slot array before compaction, once every edit of `d` is carried out.
pub open spec fn edited<C>(d: Diff<C>, s: Seq<Option<C>>) -> Seq<Option<C>> {
    let (s2, staged) = take_moved(after_removals(d, s).0, d.moved@);
    put_added(put_moved(s2, staged), d.added@)
}

/// The slot array after `d` has been applied to `s`.
pub open spec fn applied<C>(d: Diff<C>, s: Seq<Option<C>>) -> Seq<Option<C>> {
    compact(edited(d, s))
}

/// The children that applying `d` to `s` disposes of, in order.
pub open spec fn disposed_of<C>(d: Diff<C>, s: Seq<Option<C>>) -> Seq<C> {
    after_removals(d, s).1
}

/// Reverses a vector.
pub(crate) fn reversed<T>(v: Vec<T>) -> (r: Vec<T>)
    ensures
        r@ == v@.reverse(),
{
    let mut v = v;
    let ghost orig = v@;
    let mut r: Vec<T> = Vec::new();
    while v.len() > 0
        invariant
            v@ == orig.take(v@.len() as int),
            r@ == orig.subrange(v@.len() as int, orig.len() as int).reverse(),
            v@.len() <= orig.len(),
        decreases v.len(),
    {
        let ghost n = v@.len();
        let x = v.pop().unwrap();
        r.push(x);
        proof {
            assert(v@ =~= orig.take(v@.len() as int));
            assert(r@ =~= orig.subrange(v@.len() as int, orig.len() as int).reverse());
        }
    }
    proof {
        assert(orig.subrange(0, orig.len() as int) =~= orig);
    }
    r
}

/// Empties slot `i`, giving what it held.
pub(crate) fn take_slot<C>(s: &mut Vec<Option<C>>, i: usize) -> (r: Option<C>)
    requires
        i < old(s)@.len(),
    ensures
        r == old(s)@[i as int],
        final(s)@ == old(s)@.update(i as int, None),
{
    let mut r: Option<C> = None;
    s.set_and_swap(i, &mut r);
    r
}

/// Applies `diff` to `children`: discard flag, then removals, then moves,
/// then insertions, then compaction. Gives back the children removed, in the
/// order of their removal, for their owned state to be released.
pub fn apply_diff<C>(diff: Diff<C>, children: &mut Vec<Option<C>>) -> (disposed: Vec<C>)
    requires
        old(children)@.len() + diff.added@.len() <= usize::MAX,
    ensures
        final(children)@ == applied(diff, old(children)@),
        disposed@ == disposed_of(diff, old(children)@),
{
    let ghost d = diff;
    let ghost s = children@;
    let Diff { removed, moved, added, clear } = diff;
    if added.len() >= removed.len() {
        let target = children.len() + (added.len() - removed.len());
        while children.len() < target
            invariant
                s.len() <= children@.len() <= target,
                target == target_len(s.len(), d),
                children@ == grown(s, children@.len()),
            decreases target - children.len(),
        {
            children.push(None);
            assert(children@ =~= grown(s, children@.len()));
        }
    }
    assert(children@ =~= grown(s, target_len(s.len(), d)));
    let ghost s0 = children@;
    let mut disposed: Vec<C> = Vec::new();
    if clear {
        let mut i: usize = 0;
        while i < children.len()
            invariant
                children@.len() == s0.len(),
                i <= s0.len(),
                forall|j: int| 0 <= j < i ==> children@[j] is None,
                forall|j: int| i <= j < s0.len() ==> children@[j] == s0[j],
                disposed@ == occupants(s0.take(i as int)),
            decreases s0.len() - i,
        {
            let o = take_slot(children, i);
            proof {
                assert(s0.take(i + 1).drop_last() =~= s0.take(i as int));
            }
            match o {
                Some(c) => disposed.push(c),
                None => {},
            }
            i += 1;
        }
        assert(s0.take(i as int) =~= s0);
        assert(children@ =~= Seq::new(s0.len(), |i: int| None::<C>));
    } else {
        let mut i: usize = 0;
        while i < removed.len()
            invariant
                removed@ == d.removed@,
                i <= removed@.len(),
                (children@, disposed@) == remove_slots(s0, removed@.take(i as int)),
            decreases removed@.len() - i,
        {
            proof {
                assert(removed@.take(i + 1).drop_last() =~= removed@.take(i as int));
            }
            let at = removed[i].at;
            if at < children.len() {
                match take_slot(children, at) {
                    Some(c) => disposed.push(c),
                    None => {},
                }
            }
            i += 1;
        }
        assert(removed@.take(i as int) =~= removed@);
    }
    assert((children@, disposed@) == after_removals(d, s));
    let ghost s1 = children@;
    let mut staged: Vec<(usize, C)> = Vec::new();
    let mut i: usize = 0;
    while i < moved.len()
        invariant
            moved@ == d.moved@,
            i <= moved@.len(),
            (children@, staged@) == take_moved(s1, moved@.take(i as int)),
        decreases moved@.len() - i,
    {
        proof {
            assert(moved@.take(i + 1).drop_last() =~= moved@.take(i as int));
        }
        let from = moved[i].from;
        let to = moved[i].to;
        if from < children.len() {
            match take_slot(children, from) {
                Some(c) => staged.push((to, c)),
                None => {},
            }
        }
        i += 1;
    }
    assert(moved@.take(i as int) =~= moved@);
    let ghost s2 = children@;
    let ghost all_staged = staged@;
    let mut pending = reversed(staged);
    while pending.len() > 0
        invariant
            pending@.len() <= all_staged.len(),
            pending@ == all_staged.subrange(all_staged.len() - pending@.len(), all_staged.len() as int).reverse(),
            children@ == put_moved(s2, all_staged.take(all_staged.len() - pending@.len())),
        decreases pending.len(),
    {
        let ghost k = all_staged.len() - pending@.len();
        let (to, c) = pending.pop().unwrap();
        proof {
            assert(all_staged.take(k + 1).drop_last() =~= all_staged.take(k));
            assert(pending@ =~= all_staged.subrange(k + 1, all_staged.len() as int).reverse());
        }
        if to < children.len() {
            children.set(to, Some(c));
        }
    }
    assert(all_staged.take(all_staged.len() as int) =~= all_staged);
    let ghost s3 = children@;
    let ghost all_added = added@;
    let mut pending = reversed(added);
    while pending.len() > 0
        invariant
            pending@.len() <= all_added.len(),
            pending@ == all_added.subrange(all_added.len() - pending@.len(), all_added.len() as int).reverse(),
            children@ == put_added(s3, all_added.take(all_added.len() - pending@.len())),
        decreases pending.len(),
    {
        let ghost k = all_added.len() - pending@.len();
        let op = pending.pop().unwrap();
        proof {
            assert(all_added.take(k + 1).drop_last() =~= all_added.take(k));
            assert(pending@ =~= all_added.subrange(k + 1, all_added.len() as int).reverse());
        }
        if op.at < children.len() {
            children.set(op.at, op.view);
        }
    }
    assert(all_added.take(all_added.len() as int) =~= all_added);
    assert(children@ == edited(d, s));
    let ghost s4 = children@;
    let mut kept: Vec<Option<C>> = Vec::new();
    let mut i: usize = 0;
    while i < children.len()
        invariant
            children@.len() == s4.len(),
            i <= s4.len(),
            forall|j: int| i <= j < s4.len() ==> children@[j] == s4[j],
            kept@ == compact(s4.take(i as int)),
        decreases s4.len() - i,
    {
        let o = take_slot(children, i);
        proof {
            assert(s4.take(i + 1).drop_last() =~= s4.take(i as int));
        }
        if o.is_some() {
            kept.push(o);
        }
        i += 1;
    }
    assert(s4.take(i as int) =~= s4);
    *children = kept;
    disposed
}

} // verus!
