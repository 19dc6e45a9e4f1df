//! Messages between nodes, actions for the caller, and the tuning of a node.
use vstd::prelude::*;

verus! {

/// A message id: the node that first broadcast the message, and that node's sequence number.
/// Unique across the cluster without coordination, because a node never reuses its own sequence.
pub type MsgId<Id> = (Id, u64);

/// How expensive a peer is to talk to, in hops' worth of latency: `0` for the same failure
/// domain, and for another domain about the ratio of the latencies (10, say, for a link ten
/// times slower). A cheaper link always wins a duplicate; a costlier one needs that many more
/// hops of gain to be swapped in.
pub type Cost = u8;

/// A clone of a value equals the value.
pub open spec fn faithful_clone<A: Clone>() -> bool {
    forall|a: A, b: A| #[trigger] call_ensures(A::clone, (&a,), b) ==> a == b
}

/// A message between nodes. The caller serializes and sends it; on receipt it feeds it back in
/// through [`Plumtree::on_message`](crate::Plumtree::on_message).
#[derive(Debug, PartialEq, Eq)]
pub enum Message<Id> {
    /// A full message on an eager link.
    Gossip {
        /// Its id.
        id: MsgId<Id>,
        /// The payload, opaque to this crate.
        payload: Vec<u8>,
        /// The distance from the origin that this copy carries: hops, where crossing a link of
        /// cost `c` counts `c` extra. The origin sends `0`, a forwarder its own distance plus
        /// one; the receiver adds the link's cost.
        round: u16,
    },
    /// Ids that the sender has, each with the distance that the copies it pushed carry: `0` from
    /// the origin, its own distance plus one from a forwarder. So a node missing one can ask for
    /// it, and a node with a long eager path can find a shorter one.
    Ihave(Vec<(MsgId<Id>, u16)>),
    /// Make this link eager. With an id: also send me that message, which I heard of but did
    /// not get. Without: I have everything; you are just closer to the source than my current
    /// eager peer.
    Graft(Option<MsgId<Id>>),
    /// Stop sending full messages on this link: move it to lazy.
    Prune,
}

/// Something the caller must do. Actions come off [`ready`](crate::Plumtree::ready) in FIFO
/// order.
#[derive(Debug, PartialEq, Eq)]
pub enum Action<Id> {
    /// Send the message to this peer.
    Send(Id, Message<Id>),
    /// Hand this payload to the application.
    Deliver(Vec<u8>),
}

/// A [`Message`] as a mathematical value.
pub enum MessageView<Id> {
    /// See [`Message::Gossip`].
    Gossip { id: MsgId<Id>, payload: Seq<u8>, round: u16 },
    /// See [`Message::Ihave`].
    Ihave(Seq<(MsgId<Id>, u16)>),
    /// See [`Message::Graft`].
    Graft(Option<MsgId<Id>>),
    /// See [`Message::Prune`].
    Prune,
}

/// An [`Action`] as a mathematical value.
pub enum ActionView<Id> {
    /// See [`Action::Send`].
    Send(Id, MessageView<Id>),
    /// See [`Action::Deliver`].
    Deliver(Seq<u8>),
}

impl<Id> View for Message<Id> {
    type V = MessageView<Id>;

    open spec fn view(&self) -> MessageView<Id> {
        match self {
            Message::Gossip { id, payload, round } => MessageView::Gossip {
                id: *id,
                payload: payload@,
                round: *round,
            },
            Message::Ihave(ids) => MessageView::Ihave(ids@),
            Message::Graft(id) => MessageView::Graft(*id),
            Message::Prune => MessageView::Prune,
        }
    }
}

impl<Id> View for Action<Id> {
    type V = ActionView<Id>;

    open spec fn view(&self) -> ActionView<Id> {
        match self {
            Action::Send(peer, message) => ActionView::Send(*peer, message@),
            Action::Deliver(payload) => ActionView::Deliver(payload@),
        }
    }
}

/// A sequence of actions as mathematical values.
pub open spec fn action_views<Id>(actions: Seq<Action<Id>>) -> Seq<ActionView<Id>> {
    actions.map_values(|a: Action<Id>| a@)
}

impl<Id> ActionView<Id> {
    /// The action sends something to `peer`.
    pub open spec fn is_send_to(self, peer: Id) -> bool {
        match self {
            ActionView::Send(to, _) => to == peer,
            ActionView::Deliver(_) => false,
        }
    }

    /// The action sends something to one of `peers`.
    pub open spec fn is_send_to_any(self, peers: Set<Id>) -> bool {
        match self {
            ActionView::Send(to, _) => peers.contains(to),
            ActionView::Deliver(_) => false,
        }
    }
}

/// A clone of a message id equals the id, if clones of node ids do.
pub(crate) fn clone_id<Id: Clone>(id: &MsgId<Id>) -> (r: MsgId<Id>)
    ensures
        faithful_clone::<Id>() ==> r == *id,
{
    (id.0.clone(), id.1)
}

/// A clone of a payload holds the same bytes.
pub(crate) fn clone_payload(payload: &Vec<u8>) -> (r: Vec<u8>)
    ensures
        r@ == payload@,
{
    let r = payload.clone();
    assert(r@ =~= payload@);
    r
}

/// A clone of an announcement announces the same, if clones of node ids equal the ids.
pub(crate) fn clone_ids<Id: Clone>(ids: &Vec<(MsgId<Id>, u16)>) -> (r: Vec<(MsgId<Id>, u16)>)
    ensures
        faithful_clone::<Id>() ==> r@ == ids@,
{
    let mut r: Vec<(MsgId<Id>, u16)> = Vec::new();
    for i in 0..ids.len()
        invariant
            faithful_clone::<Id>() ==> r@ == ids@.take(i as int),
    {
        let entry = &ids[i];
        r.push((clone_id(&entry.0), entry.1));
        assert(ids@.take(i + 1) =~= ids@.take(i as int).push(ids@[i as int]));
    }
    assert(ids@.take(ids@.len() as int) =~= ids@);
    r
}

impl<Id: Clone> Clone for Message<Id> {
    fn clone(&self) -> (r: Self)
        ensures
            faithful_clone::<Id>() ==> r@ == self@,
    {
        match self {
            Message::Gossip { id, payload, round } => Message::Gossip {
                id: clone_id(id),
                payload: clone_payload(payload),
                round: *round,
            },
            Message::Ihave(ids) => Message::Ihave(clone_ids(ids)),
            Message::Graft(None) => Message::Graft(None),
            Message::Graft(Some(id)) => Message::Graft(Some(clone_id(id))),
            Message::Prune => Message::Prune,
        }
    }
}

impl<Id: Clone> Clone for Action<Id> {
    fn clone(&self) -> (r: Self)
        ensures
            faithful_clone::<Id>() ==> r@ == self@,
    {
        match self {
            Action::Send(peer, message) => Action::Send(peer.clone(), message.clone()),
            Action::Deliver(payload) => Action::Deliver(clone_payload(payload)),
        }
    }
}

/// Tuning. Times are in whatever unit the caller's clock uses (milliseconds, say).
#[derive(Clone, Copy, Debug)]
pub struct Config {
    /// How long to wait after hearing an `Ihave` before sending a `Graft` for it, plus the
    /// announcer's cost. Must exceed the time a message takes to cross the tree, or lazy peers
    /// graft onto the source itself.
    pub graft_timeout: u64,
    /// The largest number of payloads to keep for serving `Graft`s. Oldest are dropped.
    pub cache_cap: usize,
    /// Eager peers to start with among the cheapest (cost 0) peers. One more is taken for each
    /// distinct higher cost, so every other domain is entered once.
    pub fanout: usize,
    /// Swap an eager link for a lazy one when the lazy peer heard the message this many hops
    /// earlier. Each unit of extra cost on the lazy peer raises the bar by one; each unit less
    /// lowers it, so a much cheaper peer is taken even on a longer path.
    pub swap_threshold: u16,
}

impl Default for Config {
    fn default() -> (cfg: Self)
        ensures
            cfg.graft_timeout == 500,
            cfg.cache_cap == 512,
            cfg.fanout == 3,
            cfg.swap_threshold == 2,
    {
        Self { graft_timeout: 500, cache_cap: 512, fanout: 3, swap_threshold: 2 }
    }
}

} // verus!
