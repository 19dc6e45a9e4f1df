//! The state of a node as a mathematical value, and what each input does to it.
use vstd::prelude::*;

use crate::message::{ActionView, Config, Cost, MessageView, MsgId};
use crate::order;
use crate::seqs;

verus! {

/// A peer that announced a message this node does not have.
pub struct Announcer<Id> {
    /// The announcer.
    pub peer: Id,
    /// The distance at which a copy from it would arrive.
    pub round: u16,
    /// The tick from which it may be asked.
    pub ready: u64,
}

/// A message that a node has.
pub struct CachedView<Id> {
    /// The payload.
    pub payload: Seq<u8>,
    /// Its distance from the origin here.
    pub round: u16,
    /// The eager peer it came from; `None` if this node broadcast it.
    pub from: Option<Id>,
}

/// The state of a node.
#[verifier::ext_equal]
#[verifier::reject_recursive_types(Id)]
pub struct State<Id> {
    /// This node.
    pub me: Id,
    /// The peers that get full messages: the tree links.
    pub eager: Set<Id>,
    /// The peers that get announcements.
    pub lazy: Set<Id>,
    /// Members that are set aside as unreachable.
    pub down: Set<Id>,
    /// What each known peer costs to talk to.
    pub cost: Map<Id, Cost>,
    /// The sequence number of the next broadcast.
    pub seq: u64,
    /// The clock.
    pub now: u64,
    /// The messages kept to answer grafts.
    pub cache: Map<MsgId<Id>, CachedView<Id>>,
    /// The ids of the messages kept, oldest first.
    pub cache_order: Seq<MsgId<Id>>,
    /// The messages heard of but not here, each with its announcers in the order in which they
    /// are tried.
    pub missing: Map<MsgId<Id>, Seq<Announcer<Id>>>,
    /// What to announce to the lazy peers at the next tick.
    pub announce: Map<MsgId<Id>, u16>,
    /// The actions that the caller has not drained.
    pub outbound: Seq<ActionView<Id>>,
    /// The tuning.
    pub cfg: Config,
}

/// `distance` and `by` more, at most the largest distance there is.
pub open spec fn farther(distance: u16, by: int) -> u16 {
    if distance + by > u16::MAX {
        u16::MAX
    } else {
        (distance + by) as u16
    }
}

/// The clock `ticks` later, at most the latest time there is.
pub open spec fn later(now: u64, ticks: u64) -> u64 {
    if now + ticks > u64::MAX {
        u64::MAX
    } else {
        (now + ticks) as u64
    }
}

/// The larger of two times.
pub open spec fn latest(a: u64, b: u64) -> u64 {
    if a < b {
        b
    } else {
        a
    }
}

/// The same full message to each of `peers`.
pub open spec fn gossip_to<Id>(
    peers: Seq<Id>,
    id: MsgId<Id>,
    payload: Seq<u8>,
    round: u16,
) -> Seq<ActionView<Id>> {
    peers.map_values(|p: Id| ActionView::Send(p, MessageView::Gossip { id, payload, round }))
}

/// The same announcement to each of `peers`.
pub open spec fn announce_to<Id>(peers: Seq<Id>, ids: Seq<(MsgId<Id>, u16)>) -> Seq<
    ActionView<Id>,
> {
    peers.map_values(|p: Id| ActionView::Send(p, MessageView::Ihave(ids)))
}

/// A bare graft to each of `peers`.
pub open spec fn graft_to<Id>(peers: Seq<Id>) -> Seq<ActionView<Id>> {
    peers.map_values(|p: Id| ActionView::Send(p, MessageView::Graft(None)))
}

/// The entries of a map in the ascending order of their ids.
pub open spec fn entries<Id: Ord>(m: Map<MsgId<Id>, u16>) -> Seq<(MsgId<Id>, u16)> {
    order::ascending(m.dom()).map_values(|id: MsgId<Id>| (id, m[id]))
}

/// The announcer may be asked at time `now`.
pub open spec fn may_ask<Id>(now: u64) -> spec_fn(Announcer<Id>) -> bool {
    |a: Announcer<Id>| a.ready <= now
}

/// The index of the announcer to ask at time `now`: the first whose time has come. The number
/// of announcers if there is none.
pub open spec fn due<Id>(announcers: Seq<Announcer<Id>>, now: u64) -> int {
    seqs::first_where(announcers, may_ask(now))
}

/// Some announcer may be asked at time `now`.
pub open spec fn is_due<Id>(announcers: Seq<Announcer<Id>>, now: u64) -> bool {
    due(announcers, now) < announcers.len()
}

/// None of the announcers is to be asked before `earliest`.
pub open spec fn postponed<Id>(announcers: Seq<Announcer<Id>>, earliest: u64) -> Seq<
    Announcer<Id>,
> {
    announcers.map_values(
        |a: Announcer<Id>| Announcer { ready: latest(a.ready, earliest), ..a },
    )
}

/// The announcers left when the clock shows `now`: the one that is asked leaves, and whoever is
/// left then waits a full timeout more.
pub open spec fn left_at<Id>(announcers: Seq<Announcer<Id>>, now: u64, timeout: u64) -> Seq<
    Announcer<Id>,
> {
    if is_due(announcers, now) {
        postponed(announcers.remove(due(announcers, now)), (now + timeout) as u64)
    } else {
        announcers
    }
}

/// The cost of a peer according to `costs`. A peer of unknown cost costs 0.
pub open spec fn cost_in<Id>(costs: Map<Id, Cost>, peer: Id) -> Cost {
    if costs.contains_key(peer) {
        costs[peer]
    } else {
        0
    }
}

/// The announcer costs more than `cost`.
pub open spec fn costs_more<Id>(costs: Map<Id, Cost>, cost: Cost) -> spec_fn(
    Announcer<Id>,
) -> bool {
    |a: Announcer<Id>| cost_in(costs, a.peer) > cost
}

/// The announcer is none of `gone`.
pub open spec fn stays<Id>(gone: Set<Id>) -> spec_fn(Announcer<Id>) -> bool {
    |a: Announcer<Id>| !gone.contains(a.peer)
}

/// The action does not send to any of `gone`.
pub open spec fn not_sent_to<Id>(gone: Set<Id>) -> spec_fn(ActionView<Id>) -> bool {
    |a: ActionView<Id>| !a.is_send_to_any(gone)
}

/// If the action sends anything, it sends to one of `peers`.
pub open spec fn sent_within<Id>(action: ActionView<Id>, peers: Set<Id>) -> bool {
    match action {
        ActionView::Send(to, _) => peers.contains(to),
        ActionView::Deliver(_) => true,
    }
}

/// The costs that `peers` add to `cost`: the last entry for a peer counts. This node has none.
pub open spec fn with_costs<Id>(cost: Map<Id, Cost>, me: Id, peers: Seq<(Id, Cost)>) -> Map<
    Id,
    Cost,
>
    decreases peers.len(),
{
    if peers.len() == 0 {
        cost
    } else {
        let before = with_costs(cost, me, peers.drop_last());
        let (p, c) = peers.last();
        if p == me {
            before
        } else {
            before.insert(p, c)
        }
    }
}

/// The entry is for another node than `me`.
pub open spec fn another<Id>(me: Id) -> spec_fn((Id, Cost)) -> bool {
    |p: (Id, Cost)| p.0 != me
}

/// The entry is for a peer of cost 0.
pub open spec fn is_cheap<Id>() -> spec_fn((Id, Cost)) -> bool {
    |p: (Id, Cost)| p.1 == 0
}

/// One of `peers` has this cost.
pub open spec fn has_cost<Id>(peers: Seq<(Id, Cost)>, cost: Cost) -> bool {
    exists|i: int| 0 <= i < peers.len() && (#[trigger] peers[i]).1 == cost
}

/// Whether the peer at index `i` of `peers` starts eager: among the peers of cost 0 the first
/// `fanout`, among those of any other cost the first.
pub open spec fn starts_eager<Id>(peers: Seq<(Id, Cost)>, fanout: usize, i: int) -> bool {
    if peers[i].1 == 0 {
        peers.take(i).filter(is_cheap()).len() < fanout
    } else {
        !has_cost(peers.take(i), peers[i].1)
    }
}

/// The peers that start eager.
pub open spec fn first_eager<Id>(peers: Seq<(Id, Cost)>, fanout: usize) -> Set<Id> {
    Set::new(
        |p: Id|
            exists|i: int|
                0 <= i < peers.len() && (#[trigger] peers[i]).0 == p && starts_eager(
                    peers,
                    fanout,
                    i,
                ),
    )
}

/// The peers that start lazy.
pub open spec fn first_lazy<Id>(peers: Seq<(Id, Cost)>, fanout: usize) -> Set<Id> {
    Set::new(
        |p: Id|
            exists|i: int|
                0 <= i < peers.len() && (#[trigger] peers[i]).0 == p && !starts_eager(
                    peers,
                    fanout,
                    i,
                ),
    )
}

impl<Id: Ord> State<Id> {
    // ------------------------------------------------------------------ construction

    /// A node with the given peers, all at cost 0, that has heard and sent nothing.
    pub open spec fn split(me: Id, eager: Set<Id>, lazy: Set<Id>, cfg: Config) -> Self {
        State {
            me,
            eager,
            lazy,
            down: Set::empty(),
            cost: Map::empty(),
            seq: 0,
            now: 0,
            cache: Map::empty(),
            cache_order: Seq::empty(),
            missing: Map::empty(),
            announce: Map::empty(),
            outbound: Seq::empty(),
            cfg,
        }
    }

    /// A node among `peers` that picks its links and introduces itself.
    pub open spec fn start(me: Id, peers: Seq<(Id, Cost)>, cfg: Config) -> Self {
        let others = peers.filter(another(me));
        let eager = first_eager(others, cfg.fanout);
        let lazy = first_lazy(others, cfg.fanout);
        State {
            cost: with_costs(Map::empty(), me, peers),
            outbound: graft_to(order::ascending(eager)) + announce_to(
                order::ascending(lazy),
                Seq::empty(),
            ),
            ..State::split(me, eager, lazy, cfg)
        }
    }

    // ------------------------------------------------------------------ parts

    /// What a peer costs to talk to. A peer of unknown cost costs 0.
    pub open spec fn cost_of(self, peer: Id) -> Cost {
        cost_in(self.cost, peer)
    }

    /// The state with `actions` added to the queue.
    pub open spec fn queue(self, actions: Seq<ActionView<Id>>) -> Self {
        State { outbound: self.outbound + actions, ..self }
    }

    /// The state with an empty queue.
    pub open spec fn drained(self) -> Self {
        State { outbound: Seq::empty(), ..self }
    }

    /// The link to `peer` is eager. It was heard from, or is about to be: it is not down.
    pub open spec fn graft_in(self, peer: Id) -> Self {
        if peer == self.me {
            self
        } else {
            State {
                eager: self.eager.insert(peer),
                lazy: self.lazy.remove(peer),
                down: self.down.remove(peer),
                ..self
            }
        }
    }

    /// An eager link to `peer` becomes lazy.
    pub open spec fn move_to_lazy(self, peer: Id) -> Self {
        if self.eager.contains(peer) {
            State { eager: self.eager.remove(peer), lazy: self.lazy.insert(peer), ..self }
        } else {
            self
        }
    }

    /// A message is kept. Where that is one message too many, the oldest is dropped.
    pub open spec fn remember(self, id: MsgId<Id>, entry: CachedView<Id>) -> Self {
        let cache = self.cache.insert(id, entry);
        if self.cache.contains_key(id) {
            State { cache, ..self }
        } else {
            let cache_order = self.cache_order.push(id);
            if cache_order.len() <= self.cfg.cache_cap {
                State { cache, cache_order, ..self }
            } else {
                State {
                    cache: cache.remove(cache_order[0]),
                    cache_order: cache_order.drop_first(),
                    ..self
                }
            }
        }
    }

    /// A full message goes to every eager peer except `except`, and an announcement is due if
    /// there are lazy peers.
    pub open spec fn spread(
        self,
        id: MsgId<Id>,
        payload: Seq<u8>,
        round: u16,
        except: Option<Id>,
    ) -> Self {
        let to = order::ascending_except(self.eager, except);
        let sent = self.queue(gossip_to(to, id, payload, round));
        if self.lazy.is_empty() {
            sent
        } else {
            State { announce: self.announce.insert(id, round), ..sent }
        }
    }

    /// A copy of a message from `lazy` would arrive at distance `lazy_round`, and the copy over
    /// the eager link to `via` arrived at `round`: `lazy` should take the place of `via`.
    pub open spec fn swaps(self, via: Id, round: u16, lazy: Id, lazy_round: u16) -> bool {
        &&& lazy != via
        &&& !self.eager.contains(lazy)
        &&& self.eager.contains(via)
        &&& round - lazy_round >= self.cfg.swap_threshold
    }

    /// `lazy` takes the place of `via` in the tree.
    pub open spec fn swap(self, via: Id, lazy: Id) -> Self {
        self.graft_in(lazy).queue(
            seq![ActionView::Send(lazy, MessageView::Graft(None))],
        ).move_to_lazy(via).queue(seq![ActionView::Send(via, MessageView::Prune)])
    }

    /// [`State::swap`] if it is worth it.
    pub open spec fn try_swap(self, via: Id, round: u16, lazy: Id, lazy_round: u16) -> Self {
        if self.swaps(via, round, lazy, lazy_round) {
            self.swap(via, lazy)
        } else {
            self
        }
    }

    /// The announcer should take the place of `via`.
    pub open spec fn replaces(self, via: Id, round: u16) -> spec_fn(Announcer<Id>) -> bool {
        |a: Announcer<Id>| self.swaps(via, round, a.peer, a.round)
    }

    /// The first of the announcers that should take the place of `via` does.
    pub open spec fn swap_first(
        self,
        via: Id,
        round: u16,
        announcers: Seq<Announcer<Id>>,
    ) -> Self {
        let i = seqs::first_where(announcers, self.replaces(via, round));
        if i < announcers.len() {
            self.swap(via, announcers[i].peer)
        } else {
            self
        }
    }

    /// One announcer more, behind those that cost no more and before the first that costs more.
    pub open spec fn enlist(
        self,
        announcers: Seq<Announcer<Id>>,
        announcer: Announcer<Id>,
    ) -> Seq<Announcer<Id>> {
        let cost = self.cost_of(announcer.peer);
        announcers.insert(
            seqs::first_where(announcers, costs_more(self.cost, cost)),
            announcer,
        )
    }

    /// The time from which an announcer heard now may be asked.
    pub open spec fn ready_time(self, from: Id) -> int {
        self.now + self.cfg.graft_timeout + self.cost_of(from)
    }

    /// The announcers of a message that is not here.
    pub open spec fn announcers(self, id: MsgId<Id>) -> Seq<Announcer<Id>> {
        if self.missing.contains_key(id) {
            self.missing[id]
        } else {
            Seq::empty()
        }
    }

    /// `peers` are in no set of links, are not asked for anything, and get nothing that is in
    /// the queue.
    pub open spec fn exclude(self, peers: Set<Id>) -> Self {
        State {
            eager: self.eager.difference(peers),
            lazy: self.lazy.difference(peers),
            missing: self.missing.map_values(
                |announcers: Seq<Announcer<Id>>| announcers.filter(stays(peers)),
            ),
            outbound: self.outbound.filter(not_sent_to(peers)),
            ..self
        }
    }

    // ------------------------------------------------------------------ inputs

    /// A payload starts to spread from here.
    pub open spec fn broadcast(self, payload: Seq<u8>) -> Self {
        let id = (self.me, self.seq);
        State { seq: (self.seq + 1) as u64, ..self }.remember(
            id,
            CachedView { payload, round: 0, from: None },
        ).spread(id, payload, 0, None)
    }

    /// Someone was heard from: a stranger, or a peer that was down, is a lazy peer now.
    pub open spec fn hear(self, from: Id) -> Self {
        if from == self.me || self.eager.contains(from) || self.lazy.contains(from) {
            self
        } else {
            State { lazy: self.lazy.insert(from), down: self.down.remove(from), ..self }
        }
    }

    /// A message arrived.
    pub open spec fn on_message(self, from: Id, message: MessageView<Id>) -> Self {
        let heard = self.hear(from);
        match message {
            MessageView::Gossip { id, payload, round } => heard.on_gossip(
                from,
                id,
                payload,
                round,
            ),
            MessageView::Ihave(ids) => heard.on_ihave(from, ids),
            MessageView::Graft(id) => heard.on_graft(from, id),
            MessageView::Prune => heard.move_to_lazy(from),
        }
    }

    /// A full message arrived.
    pub open spec fn on_gossip(
        self,
        from: Id,
        id: MsgId<Id>,
        payload: Seq<u8>,
        round: u16,
    ) -> Self {
        let here = farther(round, self.cost_of(from) as int);
        if self.cache.contains_key(id) {
            self.on_duplicate(from, id, here)
        } else {
            self.on_first(from, id, payload, here)
        }
    }

    /// The link over which a message came before is eager and costs more than the link to
    /// `from`.
    pub open spec fn is_cheaper(self, from: Id, id: MsgId<Id>) -> bool {
        match self.cache[id].from {
            Some(via) => self.cost_of(from) < self.cost_of(via) && self.eager.contains(via),
            None => false,
        }
    }

    /// A message that is here arrived once more. One of the two links is redundant: the
    /// costlier one goes, and between equals the late one.
    pub open spec fn on_duplicate(self, from: Id, id: MsgId<Id>, here: u16) -> Self {
        if self.is_cheaper(from, id) {
            let via = self.cache[id].from->Some_0;
            let entry = CachedView { from: Some(from), round: here, ..self.cache[id] };
            State { cache: self.cache.insert(id, entry), ..self }.graft_in(from).move_to_lazy(
                via,
            ).queue(seq![ActionView::Send(via, MessageView::Prune)])
        } else {
            self.move_to_lazy(from).queue(seq![ActionView::Send(from, MessageView::Prune)])
        }
    }

    /// A new message is kept and no longer missing.
    pub open spec fn obtain(self, from: Id, id: MsgId<Id>, payload: Seq<u8>, here: u16) -> Self {
        let kept = self.remember(id, CachedView { payload, round: here, from: Some(from) });
        State { missing: self.missing.remove(id), ..kept }
    }

    /// A new message is obtained, its sender is eager, and it is delivered.
    pub open spec fn take_in(self, from: Id, id: MsgId<Id>, payload: Seq<u8>, here: u16) -> Self {
        self.obtain(from, id, payload, here).graft_in(from).queue(
            seq![ActionView::Deliver(payload)],
        )
    }

    /// A new message is taken in and passed on.
    pub open spec fn accept(self, from: Id, id: MsgId<Id>, payload: Seq<u8>, here: u16) -> Self {
        self.take_in(from, id, payload, here).spread(id, payload, farther(here, 1), Some(from))
    }

    /// A new message is accepted. If someone announced it from much closer to the source, the
    /// links are swapped.
    pub open spec fn on_first(self, from: Id, id: MsgId<Id>, payload: Seq<u8>, here: u16) -> Self {
        self.accept(from, id, payload, here).swap_first(from, here, self.announcers(id))
    }

    /// One id was announced: `round` is the distance that the copies pushed by `from` carry.
    pub open spec fn on_announced(self, from: Id, id: MsgId<Id>, round: u16) -> Self {
        let here = farther(round, self.cost_of(from) as int);
        if self.cache.contains_key(id) {
            match self.cache[id].from {
                Some(via) => self.try_swap(via, self.cache[id].round, from, here),
                None => self,
            }
        } else {
            let announcer = Announcer {
                peer: from,
                round: here,
                ready: self.ready_time(from) as u64,
            };
            State {
                missing: self.missing.insert(id, self.enlist(self.announcers(id), announcer)),
                ..self
            }
        }
    }

    /// Ids were announced; they are looked at in turn.
    pub open spec fn on_ihave(self, from: Id, ids: Seq<(MsgId<Id>, u16)>) -> Self
        decreases ids.len(),
    {
        if ids.len() == 0 {
            self
        } else {
            let (id, round) = ids.last();
            self.on_ihave(from, ids.drop_last()).on_announced(from, id, round)
        }
    }

    /// A graft arrived: the link is eager, and the message asked for is sent if it is here.
    pub open spec fn on_graft(self, from: Id, id: Option<MsgId<Id>>) -> Self {
        let grafted = self.graft_in(from);
        match id {
            Some(id) if self.cache.contains_key(id) => grafted.queue(
                seq![
                    ActionView::Send(
                        from,
                        MessageView::Gossip {
                            id,
                            payload: self.cache[id].payload,
                            round: farther(self.cache[id].round, 1),
                        },
                    ),
                ],
            ),
            _ => grafted,
        }
    }

    /// The announcements that a tick sends: everything to announce, to every lazy peer.
    pub open spec fn flushed(self) -> Seq<ActionView<Id>> {
        if self.announce.dom().is_empty() {
            Seq::empty()
        } else {
            announce_to(order::ascending(self.lazy), entries(self.announce))
        }
    }

    /// Someone may be asked for the missing message at time `now`.
    pub open spec fn is_asked(self, now: u64) -> spec_fn(MsgId<Id>) -> bool {
        |id: MsgId<Id>| is_due(self.missing[id], now)
    }

    /// The request for a missing message at time `now`, to the announcer that is
    /// [`due`].
    pub open spec fn request(self, id: MsgId<Id>, now: u64) -> ActionView<Id> {
        ActionView::Send(
            self.missing[id][due(self.missing[id], now)].peer,
            MessageView::Graft(Some(id)),
        )
    }

    /// The requests that a tick sends at time `now`, in the ascending order of the message ids.
    pub open spec fn requests(self, now: u64) -> Seq<ActionView<Id>> {
        order::ascending(self.missing.dom()).filter(self.is_asked(now)).map_values(
            |id: MsgId<Id>| self.request(id, now),
        )
    }

    /// What is missing after a tick at time `now`: a message that nobody was left to ask for is
    /// given up.
    pub open spec fn still_missing(self, now: u64) -> Map<MsgId<Id>, Seq<Announcer<Id>>> {
        Map::new(
            |id: MsgId<Id>| self.missing.contains_key(id) && self.missing[id].len() > 0,
            |id: MsgId<Id>| left_at(self.missing[id], now, self.cfg.graft_timeout),
        )
    }

    /// The clock advances.
    pub open spec fn tick(self, ticks: u64) -> Self {
        let now = later(self.now, ticks);
        State {
            now,
            announce: Map::empty(),
            missing: self.still_missing(now),
            outbound: self.outbound + self.flushed() + self.requests(now),
            ..self
        }
    }

    /// Nodes joined, each with its cost, and nodes left for good.
    pub open spec fn membership(self, added: Seq<(Id, Cost)>, removed: Set<Id>) -> Self {
        let known = with_costs(self.cost, self.me, added);
        State {
            cost: known.remove_keys(removed),
            down: self.down.difference(removed),
            ..self.exclude(removed)
        }
    }

    /// Peers are unreachable.
    pub open spec fn down(self, peers: Set<Id>) -> Self {
        State { down: self.down.union(peers.remove(self.me)), ..self.exclude(peers) }
    }

    /// Peers are reachable again.
    pub open spec fn up(self, peers: Set<Id>) -> Self {
        State {
            down: self.down.difference(peers),
            lazy: self.lazy.union(self.down.intersect(peers)),
            ..self
        }
    }

    // ------------------------------------------------------------------ limits of the clock

    /// If something announced is not here, the time from which `from` may be asked for it is a
    /// time of the clock.
    pub open spec fn can_wait(self, from: Id, ids: Seq<(MsgId<Id>, u16)>) -> bool {
        forall|i: int|
            0 <= i < ids.len() && !self.cache.contains_key((#[trigger] ids[i]).0)
                ==> self.ready_time(from) <= u64::MAX
    }

    /// [`State::can_wait`] holds of what the message announces.
    pub open spec fn can_wait_for(self, from: Id, message: MessageView<Id>) -> bool {
        match message {
            MessageView::Ihave(ids) => self.can_wait(from, ids),
            _ => true,
        }
    }

    /// If a tick makes announcers wait longer, the time until which they wait is a time of the
    /// clock.
    pub open spec fn can_postpone(self, ticks: u64) -> bool {
        let now = later(self.now, ticks);
        forall|id: MsgId<Id>| #[trigger]
            self.missing.contains_key(id) && self.missing[id].len() > 1 && is_due(
                self.missing[id],
                now,
            ) ==> now + self.cfg.graft_timeout <= u64::MAX
    }

    // ------------------------------------------------------------------ peers

    /// Everyone this node talks to.
    pub open spec fn peers(self) -> Set<Id> {
        self.eager.union(self.lazy)
    }

    /// Each link is either eager or lazy, none leads to this node itself, and only peers are
    /// asked for messages or sent anything.
    pub open spec fn well_linked(self) -> bool {
        &&& self.eager.disjoint(self.lazy)
        &&& !self.peers().contains(self.me)
        &&& forall|id: MsgId<Id>, i: int|
            #![trigger self.missing[id][i]]
            self.missing.contains_key(id) && 0 <= i < self.missing[id].len()
                ==> self.peers().contains(self.missing[id][i].peer)
        &&& forall|i: int|
            0 <= i < self.outbound.len() ==> sent_within(
                #[trigger] self.outbound[i],
                self.peers(),
            )
    }

    // ------------------------------------------------------------------ validity

    /// The cache holds what `cache_order` lists, and no more than it may.
    pub open spec fn valid_cache(self) -> bool {
        &&& self.cache_order.no_duplicates()
        &&& self.cache_order.to_set() == self.cache.dom()
        &&& self.cache_order.len() <= self.cfg.cache_cap
    }

    /// A peer that is down is in no set of links, is not asked for anything, and gets nothing
    /// that is in the queue.
    pub open spec fn routes_around_down(self) -> bool {
        &&& !self.down.contains(self.me)
        &&& self.down.disjoint(self.eager)
        &&& self.down.disjoint(self.lazy)
        &&& forall|id: MsgId<Id>, i: int|
            #![trigger self.missing[id][i]]
            self.missing.contains_key(id) && 0 <= i < self.missing[id].len()
                ==> !self.down.contains(self.missing[id][i].peer)
        &&& forall|i: int|
            0 <= i < self.outbound.len() ==> !(#[trigger] self.outbound[i]).is_send_to_any(
                self.down,
            )
    }

    /// Only finitely much is known.
    pub open spec fn finite(self) -> bool {
        &&& self.eager.finite()
        &&& self.lazy.finite()
        &&& self.missing.dom().finite()
        &&& self.announce.dom().finite()
    }

    /// What holds of every state that a node can be in.
    pub open spec fn valid(self) -> bool {
        &&& self.finite()
        &&& self.valid_cache()
        &&& self.routes_around_down()
    }
}

} // verus!
