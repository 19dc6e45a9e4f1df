//! What happens to a node over time, as a sequence of events.
use vstd::prelude::*;

use crate::message::{ActionView, Cost, MessageView, MsgId};
use crate::model::State;
use crate::order;
use crate::validity;

verus! {

/// One call on a node.
pub enum Event<Id> {
    /// [`Plumtree::broadcast`](crate::Plumtree::broadcast).
    Broadcast(Seq<u8>),
    /// [`Plumtree::on_message`](crate::Plumtree::on_message).
    Message(Id, MessageView<Id>),
    /// [`Plumtree::tick`](crate::Plumtree::tick).
    Tick(u64),
    /// [`Plumtree::membership`](crate::Plumtree::membership).
    Membership(Seq<(Id, Cost)>, Seq<Id>),
    /// [`Plumtree::down`](crate::Plumtree::down).
    Down(Seq<Id>),
    /// [`Plumtree::up`](crate::Plumtree::up).
    Up(Seq<Id>),
    /// [`Plumtree::ready`](crate::Plumtree::ready).
    Drain,
}

impl<Id> Event<Id> {
    /// A message from `peer`.
    pub open spec fn is_from(self, peer: Id) -> bool {
        match self {
            Event::Message(from, _) => from == peer,
            _ => false,
        }
    }

    /// `peer` is reported reachable.
    pub open spec fn lifts(self, peer: Id) -> bool {
        match self {
            Event::Up(peers) => peers.contains(peer),
            _ => false,
        }
    }

    /// `peer` is reported unreachable.
    pub open spec fn drops(self, peer: Id) -> bool {
        match self {
            Event::Down(peers) => peers.contains(peer),
            _ => false,
        }
    }

    /// `peer` is reported to have left for good.
    pub open spec fn removes(self, peer: Id) -> bool {
        match self {
            Event::Membership(_, removed) => removed.contains(peer),
            _ => false,
        }
    }

    /// The peers whose queued sends the event takes out of the queue.
    pub open spec fn excluded(self) -> Set<Id> {
        match self {
            Event::Membership(_, removed) => removed.to_set(),
            Event::Down(peers) => peers.to_set(),
            _ => Set::empty(),
        }
    }

    /// The full message `id` arrives.
    pub open spec fn brings(self, id: MsgId<Id>) -> bool {
        match self {
            Event::Message(_, MessageView::Gossip { id: it, .. }) => it == id,
            _ => false,
        }
    }

    /// How many times the event announces the message `id`.
    pub open spec fn announces(self, id: MsgId<Id>) -> nat {
        match self {
            Event::Message(_, MessageView::Ihave(ids)) => ids.filter(is_entry_for(id)).len(),
            _ => 0,
        }
    }

    /// The clock advances by at most `step`.
    pub open spec fn ticks_within(self, step: u64) -> bool {
        match self {
            Event::Tick(ticks) => ticks <= step,
            _ => true,
        }
    }

    /// The cost of `peer` may change.
    pub open spec fn prices(self, peer: Id) -> bool {
        match self {
            Event::Membership(added, removed) => removed.contains(peer) || exists|i: int|
                0 <= i < added.len() && (#[trigger] added[i]).0 == peer,
            _ => false,
        }
    }
}

/// The entry of an announcement is for the message `id`.
pub open spec fn is_entry_for<Id>(id: MsgId<Id>) -> spec_fn((MsgId<Id>, u16)) -> bool {
    |entry: (MsgId<Id>, u16)| entry.0 == id
}

/// How many times the events announce the message `id`.
pub open spec fn announcements<Id>(events: Seq<Event<Id>>, id: MsgId<Id>) -> nat
    decreases events.len(),
{
    if events.len() == 0 {
        0
    } else {
        announcements(events.drop_last(), id) + events.last().announces(id)
    }
}

impl<Id: Ord> State<Id> {
    /// The state after an event.
    pub open spec fn step(self, event: Event<Id>) -> Self {
        match event {
            Event::Broadcast(payload) => self.broadcast(payload),
            Event::Message(from, message) => self.on_message(from, message),
            Event::Tick(ticks) => self.tick(ticks),
            Event::Membership(added, removed) => self.membership(added, removed.to_set()),
            Event::Down(peers) => self.down(peers.to_set()),
            Event::Up(peers) => self.up(peers.to_set()),
            Event::Drain => self.drained(),
        }
    }

    /// The state after a sequence of events.
    pub open spec fn run(self, events: Seq<Event<Id>>) -> Self
        decreases events.len(),
    {
        if events.len() == 0 {
            self
        } else {
            self.run(events.drop_last()).step(events.last())
        }
    }

    /// What a caller has drained after a sequence of events.
    pub open spec fn emitted(self, events: Seq<Event<Id>>) -> Seq<ActionView<Id>>
        decreases events.len(),
    {
        if events.len() == 0 {
            Seq::empty()
        } else if events.last() is Drain {
            self.emitted(events.drop_last()) + self.run(events.drop_last()).outbound
        } else {
            self.emitted(events.drop_last())
        }
    }
}

/// Every event keeps a state valid.
pub proof fn lemma_step_valid<Id: Ord>(s: State<Id>, event: Event<Id>)
    requires
        order::ordered_key::<Id>(),
        s.valid(),
    ensures
        s.step(event).valid(),
{
    match event {
        Event::Broadcast(payload) => validity::lemma_broadcast_valid(s, payload),
        Event::Message(from, message) => validity::lemma_on_message_valid(s, from, message),
        Event::Tick(ticks) => validity::lemma_tick_valid(s, ticks),
        Event::Membership(added, removed) => validity::lemma_membership_valid(
            s,
            added,
            removed.to_set(),
        ),
        Event::Down(peers) => validity::lemma_down_valid(s, peers.to_set()),
        Event::Up(peers) => {
            vstd::seq_lib::seq_to_set_is_finite(peers);
            validity::lemma_up_valid(s, peers.to_set());
        },
        Event::Drain => {},
    }
}

/// A node stays valid, whatever happens.
pub proof fn lemma_run_valid<Id: Ord>(s: State<Id>, events: Seq<Event<Id>>)
    requires
        order::ordered_key::<Id>(),
        s.valid(),
    ensures
        s.run(events).valid(),
    decreases events.len(),
{
    if events.len() > 0 {
        lemma_run_valid(s, events.drop_last());
        lemma_step_valid(s.run(events.drop_last()), events.last());
    }
}

} // verus!
