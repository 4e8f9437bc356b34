//! The rolling history of a Pulay (DIIS) density mixer: the most recent
//! (density, residual) pairs, oldest first, at most `history_depth` of
//! them. The extrapolation over the history is done by the caller.

use vstd::prelude::*;

verus! {

/// The history depth a mixer keeps for a requested depth: at least two
/// pairs, since the extrapolation needs two.
pub open spec fn effective_depth(requested: nat) -> nat {
    if requested < 2 {
        2
    } else {
        requested
    }
}

/// The history after recording `item`: once `depth` entries are held,
/// the oldest is dropped first.
pub open spec fn pushed<T>(history: Seq<T>, depth: nat, item: T) -> Seq<T> {
    if history.len() >= depth {
        history.drop_first().push(item)
    } else {
        history.push(item)
    }
}

/// The history after recording `items` in order, starting from `start`.
pub open spec fn pushed_all<T>(start: Seq<T>, depth: nat, items: Seq<T>) -> Seq<T>
    decreases items.len(),
{
    if items.len() == 0 {
        start
    } else {
        pushed(pushed_all(start, depth, items.drop_last()), depth, items.last())
    }
}

/// Rolling history of a Pulay mixer.
#[derive(Clone, Debug)]
pub struct PulayHistory<T> {
    history_depth: usize,
    entries: Vec<T>,
}

impl<T> View for PulayHistory<T> {
    type V = Seq<T>;

    /// The entries held, oldest first.
    closed spec fn view(&self) -> Seq<T> {
        self.entries@
    }
}

impl<T> PulayHistory<T> {
    /// The maximum number of entries held.
    pub closed spec fn depth(&self) -> nat {
        self.history_depth as nat
    }

    /// The depth is at least two and the entries never exceed it.
    pub closed spec fn wf(&self) -> bool {
        &&& self.history_depth >= 2
        &&& self.entries@.len() <= self.history_depth
    }

    /// An empty history that keeps `history_depth` entries, raised to two
    /// when smaller.
    pub fn new(history_depth: usize) -> (r: Self)
        ensures
            r.wf(),
            r.depth() == effective_depth(history_depth as nat),
            r@ == Seq::<T>::empty(),
    {
        let d = if history_depth < 2 {
            2
        } else {
            history_depth
        };
        PulayHistory { history_depth: d, entries: Vec::new() }
    }

    /// Records one entry; when the history is full the oldest entry is
    /// dropped first.
    pub fn push(&mut self, item: T)
        requires
            old(self).wf(),
        ensures
            final(self).wf(),
            final(self).depth() == old(self).depth(),
            final(self)@ == pushed(old(self)@, old(self).depth(), item),
    {
        if self.entries.len() >= self.history_depth {
            self.entries.remove(0);
        }
        self.entries.push(item);
    }

    /// Maximum number of entries held.
    pub fn history_depth(&self) -> (r: usize)
        ensures
            r as nat == self.depth(),
    {
        self.history_depth
    }

    /// Number of entries held.
    pub fn len(&self) -> (r: usize)
        ensures
            r as nat == self@.len(),
    {
        self.entries.len()
    }

    /// The entries held, oldest first.
    pub fn entries(&self) -> (r: &[T])
        ensures
            r@ == self@,
    {
        self.entries.as_slice()
    }
}

/// A history of depth `depth >= 1` fed `items` from empty holds exactly
/// the last `depth` of them (all of them when fewer were recorded), in
/// the order they were recorded.
pub proof fn lemma_history_is_latest_window<T>(depth: nat, items: Seq<T>)
    requires
        depth >= 1,
    ensures
        pushed_all(Seq::<T>::empty(), depth, items) == items.subrange(
            if items.len() > depth {
                items.len() - depth
            } else {
                0
            },
            items.len() as int,
        ),
    decreases items.len(),
{
    if items.len() > 0 {
        let init = items.drop_last();
        lemma_history_is_latest_window(depth, init);
        let prev = pushed_all(Seq::<T>::empty(), depth, init);
        let lo: int = if init.len() > depth {
            init.len() - depth
        } else {
            0
        };
        assert(prev == init.subrange(lo, init.len() as int));
        if prev.len() >= depth {
            assert(prev.drop_first().push(items.last()) =~= items.subrange(
                items.len() - depth,
                items.len() as int,
            ));
        } else {
            assert(prev.push(items.last()) =~= items.subrange(0, items.len() as int));
        }
    }
}

/// The history never holds more than its depth: recording any items
/// from empty leaves at most `depth` entries.
pub proof fn lemma_history_bounded<T>(depth: nat, items: Seq<T>)
    requires
        depth >= 1,
    ensures
        pushed_all(Seq::<T>::empty(), depth, items).len() <= depth,
{
    lemma_history_is_latest_window(depth, items);
}

} // verus!
