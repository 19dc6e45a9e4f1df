//! One node of the broadcast tree.
use std::collections::{BTreeMap, BTreeSet, VecDeque};
use vstd::laws_eq::obeys_concrete_eq;
use vstd::prelude::*;
use vstd::std_specs::iter::IteratorSpec;

use crate::first_links;
use crate::message;
use crate::message::{Action, Config, Cost, Message, MsgId};
use crate::model;
use crate::model::{Announcer, CachedView, State};
use crate::order;
use crate::seqs;

use crate::validity;

verus! {

/// A message a node has heard of (via `Ihave`) but does not yet have.
struct Missing<Id> {
    /// Peers that announced it, cheapest first, tried in turn. A costly announcer waits its
    /// cost longer: the cheap path may still deliver.
    announcers: VecDeque<Announcer<Id>>,
}

/// A message this node has.
struct Cached<Id> {
    payload: Vec<u8>,
    /// Its distance from the origin here.
    round: u16,
    /// The eager peer it came from; `None` if this node broadcast it.
    from: Option<Id>,
}

impl<Id> Cached<Id> {
    spec fn view(&self) -> CachedView<Id> {
        CachedView { payload: self.payload@, round: self.round, from: self.from }
    }
}

/// One node's Plumtree state.
///
/// Generic over the node id `Id`, which must be a [`lawful_id`](order::lawful_id). Feed it
/// events; drain [`ready`](Plumtree::ready) and run the [`Action`]s.
pub struct Plumtree<Id: Ord + Clone> {
    me: Id,
    eager: BTreeSet<Id>,
    lazy: BTreeSet<Id>,
    /// Members currently unreachable: kept as known peers, but excluded from the tree so it
    /// routes around them. Distinct from a removed peer, which is forgotten entirely.
    down: BTreeSet<Id>,
    /// What each known peer costs to talk to. Unknown peers cost 0.
    cost: BTreeMap<Id, Cost>,
    seq: u64,
    /// The internal tick counter, advanced only by [`tick`](Plumtree::tick).
    now: u64,
    cache: BTreeMap<MsgId<Id>, Cached<Id>>,
    cache_order: VecDeque<MsgId<Id>>,
    missing: BTreeMap<MsgId<Id>, Missing<Id>>,
    /// Ids to announce to lazy peers, collected until the next [`tick`](Plumtree::tick).
    lazy_announce: BTreeMap<MsgId<Id>, u16>,
    /// The one FIFO queue of actions the caller drains.
    outbound: Vec<Action<Id>>,
    cfg: Config,
}

impl<Id: Ord + Clone> View for Plumtree<Id> {
    type V = State<Id>;

    closed spec fn view(&self) -> State<Id> {
        State {
            me: self.me,
            eager: self.eager@,
            lazy: self.lazy@,
            down: self.down@,
            cost: self.cost@,
            seq: self.seq,
            now: self.now,
            cache: self.cache@.map_values(|c: Cached<Id>| c@),
            cache_order: self.cache_order@,
            missing: self.missing@.map_values(|m: Missing<Id>| m.announcers@),
            announce: self.lazy_announce@,
            outbound: message::action_views(self.outbound@),
            cfg: self.cfg,
        }
    }
}

impl<Id: Ord + Clone> Plumtree<Id> {
    /// What holds of every node: its id type is lawful and its state is valid.
    pub open spec fn wf(&self) -> bool {
        &&& order::lawful_id::<Id>()
        &&& self@.valid()
    }

    // ------------------------------------------------------------------ construction

    /// A new node among `peers`, each with its [`Cost`]. The node picks the tree links: the
    /// first [`Config::fanout`] peers of cost 0, and the first peer of each distinct higher
    /// cost, start eager; the rest start lazy. The order of `peers` breaks ties, so pass them
    /// shuffled.
    pub fn new(me: Id, peers: Vec<(Id, Cost)>, cfg: Config) -> (node: Self)
        requires
            order::lawful_id::<Id>(),
        ensures
            node.wf(),
            node@ == State::start(me, peers@, cfg),
    {
        let mut eager: Vec<Id> = Vec::new();
        let mut lazy: Vec<Id> = Vec::new();
        let mut cheap: usize = 0;
        let mut entered: BTreeSet<Cost> = BTreeSet::new();
        let ghost keep = model::another(me);
        proof {
            let none = peers@.take(0).filter(keep);
            assert(none =~= Seq::empty());
            assert(eager@.to_set() =~= model::first_eager(none, cfg.fanout));
            assert(lazy@.to_set() =~= model::first_lazy(none, cfg.fanout));
            assert(none.filter(model::is_cheap()) =~= Seq::empty());
        }
        for i in 0..peers.len()
            invariant
                order::lawful_id::<Id>(),
                keep == model::another(me),
                eager@.to_set() == model::first_eager(
                    peers@.take(i as int).filter(keep),
                    cfg.fanout,
                ),
                lazy@.to_set() == model::first_lazy(
                    peers@.take(i as int).filter(keep),
                    cfg.fanout,
                ),
                cheap == peers@.take(i as int).filter(keep).filter(model::is_cheap()).len(),
                cheap <= i,
                forall|c: Cost| #[trigger]
                    entered@.contains(c) <==> c != 0 && model::has_cost(
                        peers@.take(i as int).filter(keep),
                        c,
                    ),
        {
            let entry = &peers[i];
            let ghost front = peers@.take(i as int).filter(keep);
            let ghost next = peers@.take(i + 1).filter(keep);
            proof {
                reveal(obeys_concrete_eq);
                seqs::lemma_filter_step(peers@, keep, i as int);
            }
            if entry.0 != me {
                let ghost n = front.len() as int;
                proof {
                    assert(next == front.push(*entry));
                    assert(next.take(n) =~= front);
                    assert(next.take(n + 1) =~= next);
                    seqs::lemma_filter_step(next, model::is_cheap(), n);
                    first_links::lemma_first_links_push(front, *entry, cfg.fanout);
                    seqs::lemma_push_contains(eager@, entry.0);
                    seqs::lemma_push_contains(lazy@, entry.0);
                }
                let take = if entry.1 == 0 {
                    cheap += 1;
                    cheap <= cfg.fanout
                } else {
                    entered.insert(entry.1)
                };
                proof {
                    first_links::lemma_has_cost_push(front, *entry);
                    assert(take == model::starts_eager(next, cfg.fanout, n));
                }
                if take {
                    proof {
                        assert(eager@.push(entry.0).to_set() =~= eager@.to_set().insert(entry.0));
                    }
                    eager.push(entry.0.clone());
                } else {
                    proof {
                        assert(lazy@.push(entry.0).to_set() =~= lazy@.to_set().insert(entry.0));
                    }
                    lazy.push(entry.0.clone());
                }
            }
        }
        assert(peers@.take(peers@.len() as int) =~= peers@);
        let mut node = Self::with_split(me, eager, lazy, cfg);
        node.record(peers.as_slice());
        node.introduce();
        proof {
            assert(node@ =~= State::start(me, peers@, cfg));
            validity::lemma_start_valid(me, peers@, cfg);
        }
        node
    }

    /// Tells each chosen peer about this node, so links are the same from both ends: a bare
    /// `Graft` to an eager peer, an empty `Ihave` to a lazy one. A node that hears from a
    /// stranger takes it as a lazy peer.
    fn introduce(&mut self)
        requires
            order::lawful_id::<Id>(),
        ensures
            final(self)@ == old(self)@.queue(
                model::graft_to(order::ascending(old(self)@.eager)) + model::announce_to(
                    order::ascending(old(self)@.lazy),
                    Seq::empty(),
                ),
            ),
    {
        let ghost start = self@;
        let eager = order::elements(&self.eager);
        let ghost grafted = eager@;
        for p in walk: eager
            invariant
                walk.seq() == grafted,
                self@ == start.queue(model::graft_to(grafted.take(walk.index()))),
        {
            let ghost front = grafted.take(walk.index());
            assert(grafted.take(walk.index() + 1) =~= front.push(p));
            self.push(Action::Send(p, Message::Graft(None)));
            assert(self@ =~= start.queue(model::graft_to(front.push(p))));
        }
        assert(grafted.take(grafted.len() as int) =~= grafted);
        let ghost half = self@;
        let lazy = order::elements(&self.lazy);
        let ghost told = lazy@;
        for p in walk: lazy
            invariant
                walk.seq() == told,
                self@ == half.queue(model::announce_to(told.take(walk.index()), Seq::empty())),
        {
            let ghost front = told.take(walk.index());
            assert(told.take(walk.index() + 1) =~= front.push(p));
            self.push(Action::Send(p, Message::Ihave(Vec::new())));
            assert(self@ =~= half.queue(model::announce_to(front.push(p), Seq::empty())));
        }
        assert(told.take(told.len() as int) =~= told);
        assert(self@ =~= start.queue(
            model::graft_to(grafted) + model::announce_to(told, Seq::empty()),
        ));
    }

    /// A new node with an explicit split of peers into eager and lazy, all at cost 0. For
    /// tests, and for callers that build the overlay themselves.
    pub fn with_split(me: Id, eager: Vec<Id>, lazy: Vec<Id>, cfg: Config) -> (node: Self)
        requires
            order::lawful_id::<Id>(),
        ensures
            node.wf(),
            node@ == State::split(me, eager@.to_set(), lazy@.to_set(), cfg),
    {
        proof {
            vstd::seq_lib::seq_to_set_is_finite(eager@);
            vstd::seq_lib::seq_to_set_is_finite(lazy@);
            validity::lemma_split_valid(me, eager@.to_set(), lazy@.to_set(), cfg);
        }
        let ghost goal = State::split(me, eager@.to_set(), lazy@.to_set(), cfg);
        let node = Self {
            me,
            eager: order::set_of(eager),
            lazy: order::set_of(lazy),
            down: BTreeSet::new(),
            cost: BTreeMap::new(),
            seq: 0,
            now: 0,
            cache: BTreeMap::new(),
            cache_order: VecDeque::new(),
            missing: BTreeMap::new(),
            lazy_announce: BTreeMap::new(),
            outbound: Vec::new(),
            cfg,
        };
        assert(node@ =~= goal);
        node
    }

    // ------------------------------------------------------------------ output

    /// Drains the outbound queue: the actions accumulated since the last drain, in FIFO order.
    /// Run each in order: `Send` over your connection pool, `Deliver` to the application.
    #[must_use]
    pub fn ready(&mut self) -> (actions: Vec<Action<Id>>)
        ensures
            message::action_views(actions@) == old(self)@.outbound,
            final(self)@ == old(self)@.drained(),
            old(self).wf() ==> final(self).wf(),
    {
        let mut actions: Vec<Action<Id>> = Vec::new();
        std::mem::swap(&mut self.outbound, &mut actions);
        assert(self@ =~= old(self)@.drained());
        actions
    }

    /// True while the outbound queue holds actions. A level check; the inputs that can produce
    /// output (`broadcast`, `on_message`, `tick`) also return the *edge*.
    #[must_use]
    pub fn has_ready(&self) -> (r: bool)
        ensures
            r == (self@.outbound.len() > 0),
    {
        self.outbound.len() > 0
    }

    /// The edge: did this input take the queue from empty to non-empty? That is the moment to
    /// wake whoever drains [`ready`](Plumtree::ready).
    fn woke(&self, was_empty: bool) -> (r: bool)
        ensures
            r == (was_empty && self@.outbound.len() > 0),
    {
        was_empty && self.has_ready()
    }

    /// This node's current eager peers (its tree links), in ascending order. For tests and
    /// inspection.
    pub fn eager(&self) -> (peers: impl Iterator<Item = &Id>)
        requires
            order::lawful_id::<Id>(),
        ensures
            peers.obeys_prophetic_iter_laws(),
            peers.decrease() is Some,
            peers.remaining().unref() == order::ascending(self@.eager),
    {
        let peers = self.eager.iter();
        proof {
            order::lemma_increasing_refs(peers.remaining(), self.eager@);
        }
        peers
    }

    /// This node's current lazy peers, in ascending order. For tests and inspection.
    pub fn lazy(&self) -> (peers: impl Iterator<Item = &Id>)
        requires
            order::lawful_id::<Id>(),
        ensures
            peers.obeys_prophetic_iter_laws(),
            peers.decrease() is Some,
            peers.remaining().unref() == order::ascending(self@.lazy),
    {
        let peers = self.lazy.iter();
        proof {
            order::lemma_increasing_refs(peers.remaining(), self.lazy@);
        }
        peers
    }

    // ------------------------------------------------------------------ inputs

    /// Starts spreading `payload`. Pushes a full message to each eager peer; lazy peers are
    /// told at the next [`tick`](Plumtree::tick). Returns whether the queue was empty before
    /// and is not now.
    pub fn broadcast(&mut self, payload: Vec<u8>) -> (edge: bool)
        requires
            old(self).wf(),
            old(self)@.seq < u64::MAX,
        ensures
            final(self).wf(),
            final(self)@ == old(self)@.broadcast(payload@),
            edge == (old(self)@.outbound.len() == 0 && final(self)@.outbound.len() > 0),
    {
        proof {
            validity::lemma_broadcast_valid(self@, payload@);
        }
        let ghost start = self@;
        let was_empty = !self.has_ready();
        let id = (self.me.clone(), self.seq);
        self.seq += 1;
        assert(self@ =~= State { seq: (start.seq + 1) as u64, ..start });
        self.remember(message::clone_id(&id), message::clone_payload(&payload), 0, None);
        self.spread(&id, &payload, 0, None);
        self.woke(was_empty)
    }

    /// Handles a message from `from`. Returns whether the queue was empty before and is not
    /// now.
    pub fn on_message(&mut self, from: Id, msg: Message<Id>) -> (edge: bool)
        requires
            old(self).wf(),
            old(self)@.can_wait_for(from, msg@),
        ensures
            final(self).wf(),
            final(self)@ == old(self)@.on_message(from, msg@),
            edge == (old(self)@.outbound.len() == 0 && final(self)@.outbound.len() > 0),
    {
        proof {
            validity::lemma_on_message_valid(self@, from, msg@);
        }
        let was_empty = !self.has_ready();
        self.hear(&from);
        match msg {
            Message::Gossip { id, payload, round } => self.on_gossip(from, id, payload, round),
            Message::Ihave(ids) => self.on_ihave(from, ids),
            Message::Graft(id) => self.on_graft(from, id),
            Message::Prune => self.move_to_lazy(&from),
        }
        self.woke(was_empty)
    }

    /// Advances the internal clock by `ticks`, then acts on the new time. Flushes queued `Ihave`
    /// announcements to lazy peers, and sends a `Graft` for any message still missing past its
    /// deadline (trying the next announcer, and re-arming). Call it on a timer: once per timer
    /// fire, or with a larger `ticks` to fast-forward. This is the only input that moves time; a
    /// tick is whatever unit you choose, and [`Config::graft_timeout`] counts in the same unit.
    /// Returns whether the queue was empty before and is not now.
    pub fn tick(&mut self, ticks: u64) -> (edge: bool)
        requires
            old(self).wf(),
            old(self)@.can_postpone(ticks),
        ensures
            final(self).wf(),
            final(self)@ == old(self)@.tick(ticks),
            edge == (old(self)@.outbound.len() == 0 && final(self)@.outbound.len() > 0),
    {
        proof {
            validity::lemma_tick_valid(self@, ticks);
        }
        let ghost start = self@;
        let was_empty = !self.has_ready();
        self.now = self.now.saturating_add(ticks);
        assert(self@ =~= State { now: model::later(start.now, ticks), ..start });
        self.flush();
        assert(self@.can_postpone(0)) by {
            assert(self@.missing == start.missing);
        }
        self.request_missing();
        proof {
            let now = model::later(start.now, ticks);
            let flushed = State { now, announce: Map::empty(), ..start.queue(start.flushed()) };
            assert(flushed.is_asked(now) =~= start.is_asked(now));
            assert(flushed.requests(now) =~= start.requests(now));
            assert(self@ =~= start.tick(ticks));
        }
        self.woke(was_empty)
    }

    /// Changes the cluster's membership: `added` nodes have joined, each with its cost, and
    /// `removed` nodes have left for good. A joined node is only *known* here (its cost is
    /// recorded); it becomes a peer when it introduces itself, which a new node does to the
    /// peers it was constructed with. A removed node is **forgotten entirely**: dropped from
    /// every set and from any pending recovery, and any queued `Send` to it is removed.
    ///
    /// This is not the same as [`down`](Plumtree::down)/[`up`](Plumtree::up): removal expels a
    /// node, while down only sets it aside while it is unreachable.
    pub fn membership(&mut self, added: &[(Id, Cost)], removed: &[Id])
        requires
            old(self).wf(),
        ensures
            final(self).wf(),
            final(self)@ == old(self)@.membership(added@, removed@.to_set()),
    {
        proof {
            validity::lemma_membership_valid(self@, added@, removed@.to_set());
        }
        let ghost start = self@;
        self.record(added);
        self.exclude(removed);
        self.forget(removed);
        assert(self@ =~= start.membership(added@, removed@.to_set()));
    }

    /// Marks `peers` unreachable. They stay members but are set aside: excluded from the tree so
    /// it routes around them, with any queued `Send` to them dropped. Use this when a failure
    /// detector reports a node down. A later [`up`](Plumtree::up) restores them; so does any
    /// message received from one, which proves it is reachable again.
    pub fn down(&mut self, peers: &[Id])
        requires
            old(self).wf(),
        ensures
            final(self).wf(),
            final(self)@ == old(self)@.down(peers@.to_set()),
    {
        proof {
            validity::lemma_down_valid(self@, peers@.to_set());
        }
        let ghost start = self@;
        self.exclude(peers);
        let ghost excluded = self@;
        for i in 0..peers.len()
            invariant
                order::lawful_id::<Id>(),
                excluded.me == start.me,
                excluded.down == start.down,
                self@ == (State {
                    down: start.down.union(peers@.take(i as int).to_set().remove(start.me)),
                    ..excluded
                }),
        {
            let ghost front = peers@.take(i as int);
            let p = &peers[i];
            proof {
                reveal(obeys_concrete_eq);
                assert(peers@.take(i + 1) =~= front.push(*p));
                seqs::lemma_push_contains(front, *p);
            }
            if *p != self.me {
                self.down.insert(p.clone());
            }
            assert(self@ =~= State {
                down: start.down.union(peers@.take(i + 1).to_set().remove(start.me)),
                ..excluded
            });
        }
        assert(peers@.take(peers@.len() as int) =~= peers@);
        assert(self@ =~= start.down(peers@.to_set()));
    }

    /// Marks `peers` reachable again after a [`down`](Plumtree::down). They return as lazy peers
    /// and are pulled back into the tree by the next message. Peers that were not down are
    /// ignored.
    pub fn up(&mut self, peers: &[Id])
        requires
            old(self).wf(),
        ensures
            final(self).wf(),
            final(self)@ == old(self)@.up(peers@.to_set()),
    {
        proof {
            vstd::seq_lib::seq_to_set_is_finite(peers@);
            validity::lemma_up_valid(self@, peers@.to_set());
        }
        let ghost start = self@;
        for i in 0..peers.len()
            invariant
                order::lawful_id::<Id>(),
                self@ == start.up(peers@.take(i as int).to_set()),
        {
            let ghost front = peers@.take(i as int);
            let p = &peers[i];
            proof {
                assert(peers@.take(i + 1) =~= front.push(*p));
                seqs::lemma_push_contains(front, *p);
            }
            if self.down.remove(p) {
                self.lazy.insert(p.clone());
            }
            assert(self@ =~= start.up(peers@.take(i + 1).to_set()));
        }
        assert(peers@.take(peers@.len() as int) =~= peers@);
    }

    // ------------------------------------------------------------------ links

    fn cost_of(&self, peer: &Id) -> (cost: Cost)
        requires
            order::lawful_id::<Id>(),
        ensures
            cost == self@.cost_of(*peer),
    {
        match self.cost.get(peer) {
            Some(cost) => *cost,
            None => 0,
        }
    }

    /// Adds an action to the queue.
    fn push(&mut self, action: Action<Id>)
        ensures
            final(self)@ == old(self)@.queue(seq![action@]),
    {
        self.outbound.push(action);
        assert(self@ =~= old(self)@.queue(seq![action@]));
    }

    /// Makes the link to `peer` eager.
    fn graft_in(&mut self, peer: &Id)
        requires
            order::lawful_id::<Id>(),
        ensures
            final(self)@ == old(self)@.graft_in(*peer),
    {
        proof {
            reveal(obeys_concrete_eq);
        }
        if *peer != self.me {
            // A message from a peer proves it is reachable, so it also clears any `down` mark.
            self.down.remove(peer);
            self.lazy.remove(peer);
            self.eager.insert(peer.clone());
        }
        assert(self@ =~= old(self)@.graft_in(*peer));
    }

    /// Makes an eager link to `peer` lazy.
    fn move_to_lazy(&mut self, peer: &Id)
        requires
            order::lawful_id::<Id>(),
        ensures
            final(self)@ == old(self)@.move_to_lazy(*peer),
    {
        if self.eager.remove(peer) {
            self.lazy.insert(peer.clone());
        }
        assert(self@ =~= old(self)@.move_to_lazy(*peer));
    }

    /// Keeps a message to serve grafts.
    fn remember(&mut self, id: MsgId<Id>, payload: Vec<u8>, round: u16, from: Option<Id>)
        requires
            order::lawful_id::<Id>(),
            old(self)@.valid_cache(),
        ensures
            final(self)@ == old(self)@.remember(
                id,
                CachedView { payload: payload@, round, from },
            ),
    {
        let entry = Cached { payload, round, from };
        let ghost start = self@;
        let ghost kept = entry@;
        if self.cache.insert(message::clone_id(&id), entry).is_none() {
            self.cache_order.push_back(id);
            if self.cache_order.len() > self.cfg.cache_cap {
                if let Some(oldest) = self.cache_order.pop_front() {
                    self.cache.remove(&oldest);
                }
            }
        }
        assert(self@ =~= start.remember(id, kept));
    }

    /// Pushes a message to every eager peer except `except`, and queues an `Ihave` for the lazy
    /// peers.
    fn spread(&mut self, id: &MsgId<Id>, payload: &Vec<u8>, round: u16, except: Option<&Id>)
        requires
            order::lawful_id::<Id>(),
        ensures
            final(self)@ == old(self)@.spread(*id, payload@, round, order::owned(except)),
    {
        let ghost start = self@;
        let peers = order::elements_except(&self.eager, except);
        let ghost to = peers@;
        for p in walk: peers
            invariant
                order::lawful_id::<Id>(),
                walk.seq() == to,
                self@ == start.queue(
                    model::gossip_to(to.take(walk.index()), *id, payload@, round),
                ),
        {
            let ghost sent = to.take(walk.index());
            assert(to.take(walk.index() + 1) =~= sent.push(p));
            self.push(
                Action::Send(
                    p,
                    Message::Gossip {
                        id: message::clone_id(id),
                        payload: message::clone_payload(payload),
                        round,
                    },
                ),
            );
            assert(self@ =~= start.queue(
                model::gossip_to(sent.push(p), *id, payload@, round),
            ));
        }
        assert(to.take(to.len() as int) =~= to);
        if !self.lazy.is_empty() {
            self.lazy_announce.insert(message::clone_id(id), round);
        }
        assert(self@ =~= start.spread(*id, payload@, round, order::owned(except)));
    }

    /// The optimisation step: a copy from `lazy` would arrive at distance `lazy_round`, the
    /// eager copy from `via` arrived at `round`. If the gap clears the threshold, makes `lazy`
    /// eager and `via` lazy. Distances already carry link costs, so a costly shortcut only wins
    /// when it is really shorter. Returns whether it did.
    fn try_swap(&mut self, via: &Id, round: u16, lazy: &Id, lazy_round: u16) -> (swapped: bool)
        requires
            order::lawful_id::<Id>(),
        ensures
            final(self)@ == old(self)@.try_swap(*via, round, *lazy, lazy_round),
            swapped == old(self)@.swaps(*via, round, *lazy, lazy_round),
    {
        proof {
            reveal(obeys_concrete_eq);
        }
        if *lazy == *via || self.eager.contains(lazy) || !self.eager.contains(via) {
            return false;
        }
        if round < lazy_round || round - lazy_round < self.cfg.swap_threshold {
            return false;
        }
        self.graft_in(lazy);
        self.push(Action::Send(lazy.clone(), Message::Graft(None)));
        self.move_to_lazy(via);
        self.push(Action::Send(via.clone(), Message::Prune));
        true
    }

    // ------------------------------------------------------------------ messages

    /// Whoever is heard from is a peer: a stranger, or a peer that was down, becomes lazy.
    fn hear(&mut self, from: &Id)
        requires
            order::lawful_id::<Id>(),
        ensures
            final(self)@ == old(self)@.hear(*from),
    {
        proof {
            reveal(obeys_concrete_eq);
        }
        if *from != self.me && !self.eager.contains(from) && !self.lazy.contains(from) {
            self.down.remove(from);
            self.lazy.insert(from.clone());
        }
        assert(self@ =~= old(self)@.hear(*from));
    }

    /// The distance here of something at distance `round` behind the link to `from`: a hop over
    /// a costly link counts its cost extra.
    fn distance(&self, round: u16, from: &Id) -> (here: u16)
        requires
            order::lawful_id::<Id>(),
        ensures
            here == model::farther(round, self@.cost_of(*from) as int),
    {
        round.saturating_add(self.cost_of(from) as u16)
    }

    fn on_gossip(&mut self, from: Id, id: MsgId<Id>, payload: Vec<u8>, round: u16)
        requires
            order::lawful_id::<Id>(),
            old(self)@.valid_cache(),
        ensures
            final(self)@ == old(self)@.on_gossip(from, id, payload@, round),
    {
        let here = self.distance(round, &from);
        if self.cache.contains_key(&id) {
            self.on_duplicate(from, id, here);
        } else {
            self.on_first(from, id, payload, here);
        }
    }

    /// A duplicate: one of the two eager links is redundant. Drops the costlier one, and
    /// between equals the one that was late.
    fn on_duplicate(&mut self, from: Id, id: MsgId<Id>, here: u16)
        requires
            order::lawful_id::<Id>(),
            old(self)@.cache.contains_key(id),
        ensures
            final(self)@ == old(self)@.on_duplicate(from, id, here),
    {
        let ghost start = self@;
        let via: Option<Id> = match self.cache.get(&id) {
            Some(c) => match &c.from {
                Some(v) => Some(v.clone()),
                None => None,
            },
            None => None,
        };
        assert(via == start.cache[id].from);
        if let Some(v) = via {
            if self.cost_of(&from) < self.cost_of(&v) && self.eager.contains(&v) {
                if let Some(c) = self.cache.remove(&id) {
                    let ghost entry = CachedView { from: Some(from), round: here, ..c@ };
                    let c = Cached { payload: c.payload, round: here, from: Some(from.clone()) };
                    self.cache.insert(id, c);
                    assert(self@ =~= State { cache: start.cache.insert(id, entry), ..start });
                }
                self.graft_in(&from);
                self.move_to_lazy(&v);
                self.push(Action::Send(v, Message::Prune));
                return;
            }
        }
        self.move_to_lazy(&from);
        self.push(Action::Send(from, Message::Prune));
    }

    /// A new message: keeps it, stops waiting for it, delivers it, and passes it on.
    fn on_first(&mut self, from: Id, id: MsgId<Id>, payload: Vec<u8>, here: u16)
        requires
            order::lawful_id::<Id>(),
            old(self)@.valid_cache(),
        ensures
            final(self)@ == old(self)@.on_first(from, id, payload@, here),
    {
        let ghost start = self@;
        self.remember(
            message::clone_id(&id),
            message::clone_payload(&payload),
            here,
            Some(from.clone()),
        );
        let heard = self.missing.remove(&id);
        assert(self@ =~= start.obtain(from, id, payload@, here));
        self.graft_in(&from);
        self.push(Action::Deliver(message::clone_payload(&payload)));
        self.spread(&id, &payload, here.saturating_add(1), Some(&from));
        // A lazy peer announced it much earlier: it is closer to the source. Swap links.
        match heard {
            Some(m) => {
                assert(m.announcers@ == start.announcers(id));
                self.swap_first(&from, here, &m.announcers);
            },
            None => {
                assert(start.announcers(id) == Seq::<Announcer<Id>>::empty());
            },
        }
    }

    /// Swaps the link to `via` for the first of the announcers that is worth it.
    fn swap_first(&mut self, via: &Id, round: u16, announcers: &VecDeque<Announcer<Id>>)
        requires
            order::lawful_id::<Id>(),
        ensures
            final(self)@ == old(self)@.swap_first(*via, round, announcers@),
    {
        let ghost start = self@;
        let ghost worth = start.replaces(*via, round);
        let mut i: usize = 0;
        while i < announcers.len()
            invariant
                order::lawful_id::<Id>(),
                i <= announcers@.len(),
                self@ == start,
                worth == start.replaces(*via, round),
                start == old(self)@,
                forall|j: int| 0 <= j < i ==> !worth(#[trigger] announcers@[j]),
            decreases announcers@.len() - i,
        {
            let a = &announcers[i];
            if self.try_swap(via, round, &a.peer, a.round) {
                proof {
                    seqs::lemma_first_where_is(announcers@, worth, i as int);
                }
                return;
            }
            i += 1;
        }
        proof {
            seqs::lemma_first_where_is(announcers@, worth, i as int);
        }
    }

    fn on_ihave(&mut self, from: Id, ids: Vec<(MsgId<Id>, u16)>)
        requires
            order::lawful_id::<Id>(),
            old(self)@.can_wait(from, ids@),
        ensures
            final(self)@ == old(self)@.on_ihave(from, ids@),
    {
        let ghost start = self@;
        let ghost all = ids@;
        for entry in walk: ids
            invariant
                order::lawful_id::<Id>(),
                walk.seq() == all,
                start.can_wait(from, all),
                self@ == start.on_ihave(from, all.take(walk.index())),
                self@.cache == start.cache,
                self@.cost == start.cost,
                self@.now == start.now,
                self@.cfg == start.cfg,
        {
            assert(all[walk.index()] == entry);
            assert(all.take(walk.index() + 1).drop_last() =~= all.take(walk.index()));
            let (id, round) = entry;
            self.on_announced(&from, id, round);
        }
        assert(all.take(all.len() as int) =~= all);
    }

    /// One id that `from` announced.
    fn on_announced(&mut self, from: &Id, id: MsgId<Id>, round: u16)
        requires
            order::lawful_id::<Id>(),
            !old(self)@.cache.contains_key(id) ==> old(self)@.ready_time(*from) <= u64::MAX,
        ensures
            final(self)@ == old(self)@.on_announced(*from, id, round),
    {
        let ghost start = self@;
        // What a copy from this announcer would arrive at.
        let here = self.distance(round, from);
        if self.cache.contains_key(&id) {
            // Already have it. If it came by a much longer eager path, swap.
            let mut via: Option<Id> = None;
            let mut arrived: u16 = 0;
            if let Some(c) = self.cache.get(&id) {
                arrived = c.round;
                if let Some(v) = &c.from {
                    via = Some(v.clone());
                }
            }
            assert(via == start.cache[id].from);
            assert(arrived == start.cache[id].round);
            if let Some(v) = via {
                self.try_swap(&v, arrived, from, here);
            }
        } else {
            let cost = self.cost_of(from);
            let ready = self.now + self.cfg.graft_timeout + cost as u64;
            let mut announcers = match self.missing.remove(&id) {
                Some(m) => m.announcers,
                None => VecDeque::new(),
            };
            assert(announcers@ == start.announcers(id));
            // Cheapest announcer first.
            let position = self.place(&announcers, cost);
            assert(self@.cost == start.cost);
            let announcer = Announcer { peer: from.clone(), round: here, ready };
            announcers.insert(position, announcer);
            assert(announcers@ == start.enlist(start.announcers(id), announcer)) by {
                assert(seqs::first_where(start.announcers(id), model::costs_more(start.cost, cost))
                    == position);
            }
            self.missing.insert(id, Missing { announcers });
            assert(self@ =~= start.on_announced(*from, id, round));
        }
    }

    /// Where an announcer of this cost belongs: before the first that costs more.
    fn place(&self, announcers: &VecDeque<Announcer<Id>>, cost: Cost) -> (position: usize)
        requires
            order::lawful_id::<Id>(),
        ensures
            position == seqs::first_where(announcers@, model::costs_more(self@.cost, cost)),
            position <= announcers@.len(),
    {
        let mut i: usize = 0;
        while i < announcers.len()
            invariant
                order::lawful_id::<Id>(),
                i <= announcers@.len(),
                forall|j: int|
                    0 <= j < i ==> !model::costs_more(self@.cost, cost)(#[trigger] announcers@[j]),
            decreases announcers@.len() - i,
        {
            if self.cost_of(&announcers[i].peer) > cost {
                proof {
                    seqs::lemma_first_where_is(
                        announcers@,
                        model::costs_more(self@.cost, cost),
                        i as int,
                    );
                }
                return i;
            }
            i += 1;
        }
        proof {
            seqs::lemma_first_where_is(announcers@, model::costs_more(self@.cost, cost), i as int);
        }
        i
    }

    fn on_graft(&mut self, from: Id, id: Option<MsgId<Id>>)
        requires
            order::lawful_id::<Id>(),
        ensures
            final(self)@ == old(self)@.on_graft(from, id),
    {
        let ghost start = self@;
        self.graft_in(&from);
        if let Some(id) = id {
            let mut answer: Option<Message<Id>> = None;
            if let Some(c) = self.cache.get(&id) {
                answer = Some(
                    Message::Gossip {
                        id,
                        payload: message::clone_payload(&c.payload),
                        round: c.round.saturating_add(1),
                    },
                );
            }
            if let Some(message) = answer {
                self.push(Action::Send(from, message));
            }
        }
        assert(self@ =~= start.on_graft(from, id));
    }

    // ------------------------------------------------------------------ time

    /// Everything to announce, in the ascending order of the ids.
    fn announcements(&self) -> (ids: Vec<(MsgId<Id>, u16)>)
        requires
            order::lawful_id::<Id>(),
        ensures
            ids@ == model::entries(self@.announce),
    {
        let keys = order::message_ids(&self.lazy_announce);
        proof {
            order::lemma_ascending(self.lazy_announce@.dom());
        }
        let mut ids: Vec<(MsgId<Id>, u16)> = Vec::new();
        for i in 0..keys.len()
            invariant
                order::lawful_id::<Id>(),
                keys@ == order::ascending(self@.announce.dom()),
                forall|id: MsgId<Id>|
                    #[trigger] keys@.contains(id) ==> self@.announce.contains_key(id),
                ids@ == model::entries(self@.announce).take(i as int),
        {
            let id = &keys[i];
            assert(keys@.contains(keys@[i as int]));
            let round = match self.lazy_announce.get(id) {
                Some(round) => *round,
                None => 0,
            };
            ids.push((message::clone_id(id), round));
            assert(ids@ =~= model::entries(self@.announce).take(i + 1));
        }
        assert(ids@ =~= model::entries(self@.announce));
        ids
    }

    /// Announces everything heard since the last tick to every lazy peer.
    fn flush(&mut self)
        requires
            order::lawful_id::<Id>(),
        ensures
            final(self)@ == (State { announce: Map::empty(), ..old(self)@.queue(
                old(self)@.flushed(),
            ) }),
    {
        let ghost start = self@;
        if !self.lazy_announce.is_empty() {
            let ids = self.announcements();
            let peers = order::elements(&self.lazy);
            let ghost to = peers@;
            for p in walk: peers
                invariant
                    order::lawful_id::<Id>(),
                    walk.seq() == to,
                    self@ == start.queue(model::announce_to(to.take(walk.index()), ids@)),
            {
                let ghost sent = to.take(walk.index());
                assert(to.take(walk.index() + 1) =~= sent.push(p));
                self.push(Action::Send(p, Message::Ihave(message::clone_ids(&ids))));
                assert(self@ =~= start.queue(model::announce_to(sent.push(p), ids@)));
            }
            assert(to.take(to.len() as int) =~= to);
        }
        self.lazy_announce.clear();
        assert(self@ =~= State { announce: Map::empty(), ..start.queue(start.flushed()) });
    }

    /// The index of the announcer to ask now.
    fn first_due(&self, announcers: &VecDeque<Announcer<Id>>) -> (position: usize)
        ensures
            position == model::due(announcers@, self@.now),
            position <= announcers@.len(),
    {
        let ghost ripe = model::may_ask::<Id>(self@.now);
        let mut i: usize = 0;
        while i < announcers.len()
            invariant
                i <= announcers@.len(),
                ripe == model::may_ask::<Id>(self@.now),
                forall|j: int| 0 <= j < i ==> !ripe(#[trigger] announcers@[j]),
            decreases announcers@.len() - i,
        {
            if announcers[i].ready <= self.now {
                proof {
                    seqs::lemma_first_where_is(announcers@, ripe, i as int);
                }
                return i;
            }
            i += 1;
        }
        proof {
            seqs::lemma_first_where_is(announcers@, ripe, i as int);
        }
        i
    }

    /// Makes everyone wait until `earliest` at least.
    fn postpone(announcers: VecDeque<Announcer<Id>>, earliest: u64) -> (r: VecDeque<Announcer<Id>>)
        ensures
            r@ == model::postponed(announcers@, earliest),
    {
        let mut left = announcers;
        let mut r: VecDeque<Announcer<Id>> = VecDeque::new();
        let ghost goal = model::postponed(announcers@, earliest);
        while left.len() > 0
            invariant
                goal == r@ + model::postponed(left@, earliest),
            decreases left@.len(),
        {
            let ghost before = left@;
            let ghost done = r@;
            if let Some(a) = left.pop_front() {
                let ready = if a.ready < earliest {
                    earliest
                } else {
                    a.ready
                };
                r.push_back(Announcer { peer: a.peer, round: a.round, ready });
                assert(goal =~= r@ + model::postponed(left@, earliest));
            }
        }
        assert(goal =~= r@);
        r
    }

    /// Grafts anything still missing from the first announcer whose time has come; gives up on
    /// a message nobody is left to ask for: a later broadcast will heal it.
    fn request_missing(&mut self)
        requires
            order::lawful_id::<Id>(),
            old(self)@.can_postpone(0),
        ensures
            final(self)@ == (State {
                missing: old(self)@.still_missing(old(self)@.now),
                ..old(self)@.queue(old(self)@.requests(old(self)@.now))
            }),
    {
        let ghost start = self@;
        let ghost now = self@.now;
        let ids = order::message_ids(&self.missing);
        let ghost all = ids@;
        let ghost asked = start.is_asked(now);
        proof {
            order::lemma_ascending(self.missing@.dom());
            assert(self.missing@.dom() =~= start.missing.dom());
        }
        for id in walk: ids
            invariant
                order::lawful_id::<Id>(),
                start.can_postpone(0),
                now == start.now,
                walk.seq() == all,
                all == order::ascending(start.missing.dom()),
                all.no_duplicates(),
                forall|k: MsgId<Id>| #[trigger] all.contains(k) <==> start.missing.contains_key(k),
                asked == start.is_asked(now),
                self@ == (State {
                    missing: self@.missing,
                    ..start.queue(
                        all.take(walk.index()).filter(asked).map_values(
                            |k: MsgId<Id>| start.request(k, now),
                        ),
                    )
                }),
                forall|k: MsgId<Id>| #[trigger]
                    self@.missing.contains_key(k) <==> start.missing.contains_key(k) && (all.take(
                        walk.index(),
                    ).contains(k) ==> start.missing[k].len() > 0),
                forall|k: MsgId<Id>| #[trigger]
                    self@.missing.contains_key(k) ==> self@.missing[k] == if all.take(
                        walk.index(),
                    ).contains(k) {
                        model::left_at(start.missing[k], now, start.cfg.graft_timeout)
                    } else {
                        start.missing[k]
                    },
        {
            let ghost before = self@;
            let ghost front = all.take(walk.index());
            let ghost sent = front.filter(asked);
            proof {
                assert(all[walk.index()] == id);
                assert(all.contains(id));
                assert(all.take(walk.index() + 1) =~= front.push(id));
                seqs::lemma_push_contains(front, id);
                seqs::lemma_filter_step(all, asked, walk.index());
                assert(!front.contains(id));
                assert(before.missing.contains_key(id));
                assert(before.missing[id] == start.missing[id]);
            }
            if let Some(m) = self.missing.remove(&id) {
                let mut announcers = m.announcers;
                let position = self.first_due(&announcers);
                if position < announcers.len() {
                    if let Some(next) = announcers.remove(position) {
                        // Whoever is left waits a full timeout more before being asked.
                        if announcers.len() > 0 {
                            announcers = Self::postpone(
                                announcers,
                                self.now + self.cfg.graft_timeout,
                            );
                        }
                        assert(announcers@ =~= model::left_at(
                            start.missing[id],
                            now,
                            start.cfg.graft_timeout,
                        ));
                        self.missing.insert(message::clone_id(&id), Missing { announcers });
                        self.push(Action::Send(next.peer, Message::Graft(Some(id))));
                    }
                } else if announcers.len() > 0 {
                    self.missing.insert(id, Missing { announcers });
                }
            }
            proof {
                let next = front.push(id);
                assert forall|k: MsgId<Id>| #[trigger]
                    self@.missing.contains_key(k) <==> start.missing.contains_key(k) && (
                    next.contains(k) ==> start.missing[k].len() > 0) by {
                    assert(next.contains(k) <==> front.contains(k) || k == id);
                    if k != id {
                        assert(self@.missing.contains_key(k) <==> before.missing.contains_key(k));
                    }
                }
                assert forall|k: MsgId<Id>| #[trigger]
                    self@.missing.contains_key(k) implies self@.missing[k] == if next.contains(k) {
                    model::left_at(start.missing[k], now, start.cfg.graft_timeout)
                } else {
                    start.missing[k]
                } by {
                    assert(next.contains(k) <==> front.contains(k) || k == id);
                    if k != id {
                        assert(before.missing.contains_key(k));
                        assert(self@.missing[k] == before.missing[k]);
                    }
                }
            }
            assert(self@ =~= State {
                missing: self@.missing,
                ..start.queue(
                    all.take(walk.index() + 1).filter(asked).map_values(
                        |k: MsgId<Id>| start.request(k, now),
                    ),
                )
            });
        }
        assert(all.take(all.len() as int) =~= all);
        assert(self@ =~= State {
            missing: start.still_missing(now),
            ..start.queue(start.requests(now))
        });
    }

    // ------------------------------------------------------------------ exclusion

    /// The announcers that are none of `gone`.
    fn without(announcers: VecDeque<Announcer<Id>>, gone: &[Id]) -> (r: VecDeque<Announcer<Id>>)
        requires
            order::lawful_id::<Id>(),
        ensures
            r@ == announcers@.filter(model::stays(gone@.to_set())),
    {
        let mut left = announcers;
        let mut r: VecDeque<Announcer<Id>> = VecDeque::new();
        let ghost all = announcers@;
        let ghost stays = model::stays::<Id>(gone@.to_set());
        let ghost mut i: int = 0;
        assert(all.skip(0) =~= all);
        assert(all.take(0).filter(stays) =~= Seq::empty());
        while left.len() > 0
            invariant
                order::lawful_id::<Id>(),
                stays == model::stays::<Id>(gone@.to_set()),
                0 <= i <= all.len(),
                left@ == all.skip(i),
                r@ == all.take(i).filter(stays),
            decreases left@.len(),
        {
            if let Some(a) = left.pop_front() {
                proof {
                    assert(all.skip(i).subrange(1, all.skip(i).len() as int) =~= all.skip(i + 1));
                    seqs::lemma_filter_step(all, stays, i);
                    i = i + 1;
                }
                if !order::is_among(&a.peer, gone) {
                    r.push_back(a);
                }
            }
        }
        assert(all.take(all.len() as int) =~= all);
        r
    }

    /// Drops `peers` from the links.
    fn unlink(&mut self, peers: &[Id])
        requires
            order::lawful_id::<Id>(),
        ensures
            final(self)@ == (State {
                eager: old(self)@.eager.difference(peers@.to_set()),
                lazy: old(self)@.lazy.difference(peers@.to_set()),
                ..old(self)@
            }),
    {
        let ghost start = self@;
        for i in 0..peers.len()
            invariant
                order::lawful_id::<Id>(),
                self@ == (State {
                    eager: start.eager.difference(peers@.take(i as int).to_set()),
                    lazy: start.lazy.difference(peers@.take(i as int).to_set()),
                    ..start
                }),
        {
            let ghost front = peers@.take(i as int);
            let p = &peers[i];
            self.eager.remove(p);
            self.lazy.remove(p);
            proof {
                assert(peers@.take(i + 1) =~= front.push(*p));
                seqs::lemma_push_contains(front, *p);
                assert(self@ =~= State {
                    eager: start.eager.difference(peers@.take(i + 1).to_set()),
                    lazy: start.lazy.difference(peers@.take(i + 1).to_set()),
                    ..start
                });
            }
        }
        assert(peers@.take(peers@.len() as int) =~= peers@);
        assert(self@ =~= State {
            eager: start.eager.difference(peers@.to_set()),
            lazy: start.lazy.difference(peers@.to_set()),
            ..start
        });
    }

    /// Drops `peers` from pending recovery.
    fn forget_announcers(&mut self, peers: &[Id])
        requires
            order::lawful_id::<Id>(),
        ensures
            final(self)@ == (State {
                missing: old(self)@.exclude(peers@.to_set()).missing,
                ..old(self)@
            }),
    {
        let ghost start = self@;
        let ghost stays = model::stays::<Id>(peers@.to_set());
        let ids = order::message_ids(&self.missing);
        let ghost all = ids@;
        proof {
            order::lemma_ascending(self.missing@.dom());
            assert(self.missing@.dom() =~= start.missing.dom());
        }
        for id in walk: ids
            invariant
                order::lawful_id::<Id>(),
                walk.seq() == all,
                stays == model::stays::<Id>(peers@.to_set()),
                forall|k: MsgId<Id>| #[trigger] all.contains(k) <==> start.missing.contains_key(k),
                self@ == (State { missing: self@.missing, ..start }),
                forall|k: MsgId<Id>| #[trigger]
                    self@.missing.contains_key(k) <==> start.missing.contains_key(k),
                forall|k: MsgId<Id>| #[trigger]
                    self@.missing.contains_key(k) ==> self@.missing[k] == if all.take(
                        walk.index(),
                    ).contains(k) {
                        start.missing[k].filter(stays)
                    } else {
                        start.missing[k]
                    },
                all.no_duplicates(),
        {
            let ghost before = self@;
            let ghost front = all.take(walk.index());
            proof {
                assert(all[walk.index()] == id);
                assert(all.contains(id));
                assert(all.take(walk.index() + 1) =~= front.push(id));
                seqs::lemma_push_contains(front, id);
                assert(!front.contains(id));
                assert(before.missing.contains_key(id));
            }
            if let Some(m) = self.missing.remove(&id) {
                let announcers = Self::without(m.announcers, peers);
                self.missing.insert(id, Missing { announcers });
            }
            proof {
                let next = front.push(id);
                assert(self@ =~= State { missing: self@.missing, ..start });
                assert forall|k: MsgId<Id>| #[trigger]
                    self@.missing.contains_key(k) implies self@.missing[k] == if next.contains(k) {
                    start.missing[k].filter(stays)
                } else {
                    start.missing[k]
                } by {
                    assert(next.contains(k) <==> front.contains(k) || k == id);
                    if k != id {
                        assert(before.missing.contains_key(k));
                        assert(self@.missing[k] == before.missing[k]);
                    }
                }
                assert forall|k: MsgId<Id>| #[trigger]
                    self@.missing.contains_key(k) <==> start.missing.contains_key(k) by {
                    assert(before.missing.contains_key(k) <==> start.missing.contains_key(k));
                }
            }
        }
        assert(all.take(all.len() as int) =~= all);
        assert(self@.missing =~= start.exclude(peers@.to_set()).missing);
    }

    /// Removes any queued send to one of `peers`.
    fn unqueue(&mut self, peers: &[Id])
        requires
            order::lawful_id::<Id>(),
        ensures
            final(self)@ == (State {
                outbound: old(self)@.exclude(peers@.to_set()).outbound,
                ..old(self)@
            }),
    {
        let ghost start = self@;
        let ghost stays = model::not_sent_to::<Id>(peers@.to_set());
        let mut queued: Vec<Action<Id>> = Vec::new();
        std::mem::swap(&mut self.outbound, &mut queued);
        let ghost all = queued@;
        assert(start.outbound == message::action_views(all));
        assert(start.outbound.take(0).filter(stays) =~= Seq::empty());
        assert(self@ =~= start.drained());
        for action in walk: queued
            invariant
                order::lawful_id::<Id>(),
                walk.seq() == all,
                start.outbound == message::action_views(all),
                stays == model::not_sent_to::<Id>(peers@.to_set()),
                self@ == (State {
                    outbound: start.outbound.take(walk.index()).filter(stays),
                    ..start
                }),
        {
            proof {
                assert(all[walk.index()] == action);
                assert(start.outbound[walk.index()] == action@);
                seqs::lemma_filter_step(start.outbound, stays, walk.index());
            }
            let gone = match &action {
                Action::Send(peer, _) => order::is_among(peer, peers),
                Action::Deliver(_) => false,
            };
            if !gone {
                self.push(action);
            }
            assert(self@ =~= State {
                outbound: start.outbound.take(walk.index() + 1).filter(stays),
                ..start
            });
        }
        assert(start.outbound.take(all.len() as int) =~= start.outbound);
    }

    /// Drops `peers` from the tree and from pending recovery, and removes any queued send to
    /// them.
    fn exclude(&mut self, peers: &[Id])
        requires
            order::lawful_id::<Id>(),
        ensures
            final(self)@ == old(self)@.exclude(peers@.to_set()),
    {
        self.unlink(peers);
        self.forget_announcers(peers);
        self.unqueue(peers);
        assert(self@ =~= old(self)@.exclude(peers@.to_set()));
    }

    /// Forgets the costs of `peers`, and that they were down.
    fn forget(&mut self, peers: &[Id])
        requires
            order::lawful_id::<Id>(),
        ensures
            final(self)@ == (State {
                cost: old(self)@.cost.remove_keys(peers@.to_set()),
                down: old(self)@.down.difference(peers@.to_set()),
                ..old(self)@
            }),
    {
        let ghost start = self@;
        assert(start.cost.remove_keys(peers@.take(0).to_set()) =~= start.cost);
        for i in 0..peers.len()
            invariant
                order::lawful_id::<Id>(),
                self@ == (State {
                    cost: start.cost.remove_keys(peers@.take(i as int).to_set()),
                    down: start.down.difference(peers@.take(i as int).to_set()),
                    ..start
                }),
        {
            let ghost front = peers@.take(i as int);
            let p = &peers[i];
            self.down.remove(p);
            self.cost.remove(p);
            proof {
                assert(peers@.take(i + 1) =~= front.push(*p));
                seqs::lemma_push_contains(front, *p);
                assert(self@ =~= State {
                    cost: start.cost.remove_keys(peers@.take(i + 1).to_set()),
                    down: start.down.difference(peers@.take(i + 1).to_set()),
                    ..start
                });
            }
        }
        assert(peers@.take(peers@.len() as int) =~= peers@);
    }

    /// Records the costs of `peers`.
    fn record(&mut self, peers: &[(Id, Cost)])
        requires
            order::lawful_id::<Id>(),
        ensures
            final(self)@ == (State {
                cost: model::with_costs(old(self)@.cost, old(self)@.me, peers@),
                ..old(self)@
            }),
    {
        let ghost start = self@;
        for i in 0..peers.len()
            invariant
                order::lawful_id::<Id>(),
                self@ == (State {
                    cost: model::with_costs(start.cost, start.me, peers@.take(i as int)),
                    ..start
                }),
        {
            proof {
                reveal(obeys_concrete_eq);
                assert(peers@.take(i + 1).drop_last() =~= peers@.take(i as int));
            }
            let entry = &peers[i];
            if entry.0 != self.me {
                self.cost.insert(entry.0.clone(), entry.1);
            }
            assert(self@ =~= State {
                cost: model::with_costs(start.cost, start.me, peers@.take(i + 1)),
                ..start
            });
        }
        assert(peers@.take(peers@.len() as int) =~= peers@);
    }
}

} // verus!
