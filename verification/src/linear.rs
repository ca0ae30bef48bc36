//! The baseline strategy: an ordered list of (listener, filter) pairs, every
//! filter re-evaluated against every event.

use vstd::prelude::*;
use crate::tags::Event;
use crate::tags::Filter;
use crate::topic::Listener;
use crate::topic::Topic;

verus! {

/// The linear-scan strategy.  `accept` tests every stored filter against the
/// event, in subscription order, and delivers the event to each listener
/// whose filter matches.
pub struct LinearScan<L: Listener> {
    listeners: Vec<(L, Filter)>,
}

impl<L: Listener> LinearScan<L> {
    /// The stored (listener, filter) pairs, in subscription order.
    pub closed spec fn entries(&self) -> Seq<(L, Filter)> {
        self.listeners@
    }

    /// A strategy with no subscriptions.
    pub fn new() -> (s: Self)
        ensures
            s.entries() == Seq::<(L, Filter)>::empty(),
    {
        let s = LinearScan { listeners: Vec::new() };
        proof {
            assert(s.entries() =~= Seq::<(L, Filter)>::empty());
        }
        s
    }

    /// Appends one subscription; no failure conditions.
    pub fn subscribe(&mut self, listener: L, filter: Filter)
        ensures
            final(self).entries() == old(self).entries().push((listener, filter)),
    {
        self.listeners.push((listener, filter));
    }

    /// Delivers `evt` to every listener whose filter matches it, in
    /// subscription order: such a listener's new state is its `on_receive`
    /// relation applied once.  Filters are untouched; a listener whose filter
    /// does not match the event is untouched.  (On well-formed filters,
    /// `seq_matches` coincides with `map_matches`; see `lemma_matches_view`.)
    pub fn accept(&mut self, evt: &Event)
        ensures
            final(self).entries().len() == old(self).entries().len(),
            forall|j: int|
                0 <= j < old(self).entries().len() ==> #[trigger] final(self).entries()[j].1
                    == old(self).entries()[j].1,
            forall|j: int|
                0 <= j < old(self).entries().len() && !old(self).entries()[j].1.seq_matches(
                    evt@,
                ) ==> #[trigger] final(self).entries()[j].0 == old(self).entries()[j].0,
            forall|j: int|
                0 <= j < old(self).entries().len() && old(self).entries()[j].1.seq_matches(evt@)
                    ==> L::on_receive(
                    old(self).entries()[j].0,
                    evt@,
                    #[trigger] final(self).entries()[j].0,
                ),
    {
        let n = self.listeners.len();
        let mut i: usize = 0;
        while i < n
            invariant
                n == old(self).listeners@.len(),
                self.listeners@.len() == n,
                i <= n,
                forall|j: int|
                    0 <= j < n - i ==> #[trigger] self.listeners@[j] == old(self).listeners@[i + j],
                forall|j: int|
                    n - i <= j < n ==> #[trigger] self.listeners@[j].1 == old(self).listeners@[j - (n - i)].1,
                forall|j: int|
                    n - i <= j < n && !old(self).listeners@[j - (n - i)].1.seq_matches(evt@)
                        ==> #[trigger] self.listeners@[j].0 == old(self).listeners@[j - (n - i)].0,
                forall|j: int|
                    n - i <= j < n && old(self).listeners@[j - (n - i)].1.seq_matches(evt@)
                        ==> L::on_receive(
                        old(self).listeners@[j - (n - i)].0,
                        evt@,
                        #[trigger] self.listeners@[j].0,
                    ),
            decreases n - i,
        {
            let pair = self.listeners.remove(0);
            let mut l = pair.0;
            let f = pair.1;
            if f.matches(evt) {
                l.accept(evt);
            }
            self.listeners.push((l, f));
            i += 1;
        }
    }
}

impl<L: Listener> Topic<L> for LinearScan<L> {
    /// The linear strategy takes every filter, multi-valued constraints
    /// included.
    open spec fn accepts_filter(&self, filter: &Filter) -> bool {
        true
    }

    /// One registration appends the pair: the inherent `subscribe` contract,
    /// stated as a relation.
    open spec fn on_subscribe(pre: Self, listener: L, filter: Filter, post: Self) -> bool {
        post.entries() == pre.entries().push((listener, filter))
    }

    fn subscribe(&mut self, listener: L, filter: Filter) {
        self.subscribe(listener, filter);
    }
}

impl<L: Listener> Listener for LinearScan<L> {
    /// A linear scanner receives an event by dispatching it: the inherent
    /// `accept` contract, stated as a relation.
    open spec fn on_receive(pre: Self, em: Map<Seq<char>, Seq<char>>, post: Self) -> bool {
        &&& post.entries().len() == pre.entries().len()
        &&& forall|j: int|
            0 <= j < pre.entries().len() ==> #[trigger] post.entries()[j].1 == pre.entries()[j].1
        &&& forall|j: int|
            0 <= j < pre.entries().len() && !pre.entries()[j].1.seq_matches(em)
                ==> #[trigger] post.entries()[j].0 == pre.entries()[j].0
        &&& forall|j: int|
            0 <= j < pre.entries().len() && pre.entries()[j].1.seq_matches(em)
                ==> L::on_receive(pre.entries()[j].0, em, #[trigger] post.entries()[j].0)
    }

    fn accept(&mut self, evt: &Event) {
        self.accept(evt);
    }
}

impl<L: Listener> Default for LinearScan<L> {
    /// A strategy with no subscriptions.
    fn default() -> (s: Self)
        ensures
            s.entries() == Seq::<(L, Filter)>::empty(),
    {
        LinearScan::new()
    }
}

} // verus!
