//! The capability traits: a listener receives matched events, a topic
//! strategy registers (listener, filter) subscriptions.

use vstd::prelude::*;
use crate::tags::Event;
use crate::tags::Filter;

verus! {

/// Anything that can receive a matched event.  What receiving one event (as
/// its map view) does to the listener's own state is the implementation's
/// choice, stated by its `on_receive` relation; the engine's dispatch
/// contracts promise that every matching listener's new state stands in this
/// relation to its old one.  An implementation that states nothing keeps the
/// default relation, which holds of every receive.
pub trait Listener: Sized {
    open spec fn on_receive(pre: Self, em: Map<Seq<char>, Seq<char>>, post: Self) -> bool {
        true
    }

    fn accept(&mut self, evt: &Event)
        ensures
            Self::on_receive(*old(self), evt@, *final(self)),
    ;
}

/// A listener that counts the events it receives: one receive raises the
/// count by one (saturating at the maximum), so delivery counts can be read
/// off the dispatch contracts through `on_receive`.
pub struct Tally {
    pub count: u64,
}

impl Listener for Tally {
    open spec fn on_receive(pre: Self, em: Map<Seq<char>, Seq<char>>, post: Self) -> bool {
        post.count == (if pre.count == u64::MAX {
            pre.count as int
        } else {
            pre.count + 1
        })
    }

    fn accept(&mut self, evt: &Event) {
        if self.count < u64::MAX {
            self.count = self.count + 1;
        }
    }
}

/// A subscription strategy: registers interest of one listener under one
/// filter.  Which filters a strategy can take is the strategy's own choice,
/// stated by `accepts_filter`; the full effect of a subscription is stated on
/// each strategy's own `subscribe`.
pub trait Topic<L: Listener>: Sized {
    spec fn accepts_filter(&self, filter: &Filter) -> bool;

    /// What one registration does to the strategy: each implementation
    /// states the effect of its own subscribe.
    spec fn on_subscribe(pre: Self, listener: L, filter: Filter, post: Self) -> bool;

    fn subscribe(&mut self, listener: L, filter: Filter)
        requires
            old(self).accepts_filter(&filter),
        ensures
            Self::on_subscribe(*old(self), listener, filter, *final(self)),
    ;
}

} // verus!
