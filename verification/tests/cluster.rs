//! Many nodes: the shape of the tree that they form.
use std::collections::BTreeMap;

use plumtree_fsm::{Action, Config, Cost, Message, Plumtree};

/// A tiny instant network: every node's actions are delivered in the same step.
fn run_round(nodes: &mut BTreeMap<u32, Plumtree<u32>>) -> BTreeMap<u32, u16> {
    // Returns the hop count each node delivered the latest message at.
    let mut rounds = BTreeMap::new();
    let mut pending: Vec<(u32, u32, Message<u32>)> = Vec::new();
    for _ in 0..20 {
        for (&id, n) in nodes.iter_mut() {
            for a in n.ready() {
                if let Action::Send(to, m) = a {
                    pending.push((id, to, m));
                }
            }
        }
        if pending.is_empty() {
            break;
        }
        for (from, to, m) in std::mem::take(&mut pending) {
            if let Message::Gossip { round, .. } = &m {
                rounds.entry(to).or_insert(*round);
            }
            nodes.get_mut(&to).unwrap().on_message(from, m);
        }
        for n in nodes.values_mut() {
            n.tick(1);
        }
    }
    rounds
}

#[test]
fn a_line_rebalances_around_a_source_at_its_far_end() {
    // Eager links form the line 1-2-3-...-8; every node is lazy to every other. Node 8
    // broadcasts. At first node 1 gets each message at hop 7; the swaps pull it in.
    let n = 8u32;
    let mut nodes: BTreeMap<u32, Plumtree<u32>> = (1..=n)
        .map(|i| {
            let eager: Vec<u32> = [i - 1, i + 1]
                .into_iter()
                .filter(|&j| (1..=n).contains(&j))
                .collect();
            let lazy: Vec<u32> = (1..=n).filter(|&j| j != i && !eager.contains(&j)).collect();
            let cfg = Config {
                graft_timeout: 30,
                ..Config::default()
            };
            (i, Plumtree::with_split(i, eager, lazy, cfg))
        })
        .collect();
    let mut first = None;
    let mut last = None;
    for _ in 0..6 {
        nodes.get_mut(&n).unwrap().broadcast(b"m".to_vec());
        let rounds = run_round(&mut nodes);
        let at_one = rounds.get(&1).copied().unwrap_or(0);
        first.get_or_insert(at_one);
        last = Some(at_one);
    }
    assert_eq!(first, Some(6), "the line delivers to the far end at hop 6");
    assert!(
        last.unwrap() <= 2,
        "after a few messages node 1 is within 2 hops: {last:?}"
    );
}

/// A deterministic cluster over failure domains: latency 1 within a domain, `cross`
/// across, a fixed loss rate. Peers are what a caller would give: every node knows a few
/// random peers in its own domain; the lowest `gateways` ids of each domain also know the
/// lowest id of every other domain, at cost `cross`.
struct Cluster {
    nodes: Vec<Plumtree<u32>>,
    dc: Vec<u8>,
    dcs: u8,
    fanout: usize,
    lazy: usize,
    cross: u64,
    loss: f64,
    seed: u64,
    dead: Vec<bool>,
    now: u64,
    pending: Vec<(u64, u32, u32, Message<u32>)>,
    /// For the latest message: who delivered it to each node, and how many hops deep.
    deliverer: Vec<Option<u32>>,
    round: Vec<Option<u16>>,
}

impl Cluster {
    fn new(n: u32, dcs: u8, fanout: usize, lazy: usize, gateways: u32, cross: u64) -> Self {
        Self::with_loss(n, dcs, fanout, lazy, gateways, cross, 0.0)
    }

    fn with_loss(
        n: u32,
        dcs: u8,
        fanout: usize,
        lazy: usize,
        gateways: u32,
        cross: u64,
        loss: f64,
    ) -> Self {
        let mut c = Cluster {
            nodes: Vec::new(),
            dc: Vec::new(),
            dcs,
            fanout,
            lazy,
            cross,
            loss,
            seed: 0x5EED,
            dead: Vec::new(),
            now: 0,
            pending: Vec::new(),
            deliverer: Vec::new(),
            round: Vec::new(),
        };
        for id in 0..n {
            let gateway = id / u32::from(dcs) < gateways;
            c.add(id, gateway, n);
        }
        c.flush();
        c.settle();
        c
    }

    fn rnd(&mut self, m: usize) -> usize {
        self.seed = self
            .seed
            .wrapping_mul(6364136223846793005)
            .wrapping_add(1442695040888963407);
        ((self.seed >> 33) % m as u64) as usize
    }

    fn dc_of(&self, id: u32) -> u8 {
        (id % u32::from(self.dcs)) as u8
    }

    /// A node with the peers a caller would give it, chosen among the ids below `known`.
    fn add(&mut self, id: u32, gateway: bool, known: u32) {
        let dc = self.dc_of(id);
        let mine: Vec<u32> = (0..known)
            .filter(|&q| q != id && self.dc_of(q) == dc)
            .collect();
        let mut peers: Vec<(u32, Cost)> = Vec::new();
        let mut pool = mine.clone();
        while peers.len() < (self.fanout + self.lazy).min(mine.len()) {
            let k = self.rnd(pool.len());
            peers.push((pool.remove(k), 0));
        }
        if gateway {
            for d in 0..self.dcs {
                if d != dc {
                    let entry = (0..known).find(|&q| self.dc_of(q) == d).unwrap();
                    peers.push((entry, self.cross as Cost));
                }
            }
        }
        let cfg = Config {
            graft_timeout: 8,
            fanout: self.fanout,
            ..Config::default()
        };
        self.nodes.push(Plumtree::new(id, peers, cfg));
        self.dc.push(dc);
        self.dead.push(false);
        self.deliverer.push(None);
        self.round.push(None);
    }

    /// A node joins its domain knowing a few local peers. Everyone else only learns its
    /// cost; the node introduces itself.
    fn join(&mut self, id: u32) {
        let n = self.nodes.len() as u32;
        assert_eq!(id, n);
        self.add(id, false, n);
        let dc = self.dc_of(id);
        for j in 0..n as usize {
            let cost = if self.dc[j] == dc {
                0
            } else {
                self.cross as Cost
            };
            self.nodes[j].membership(&[(id, cost)], &[]);
        }
        self.flush();
        self.settle();
    }

    /// A failure detector reports `id` down, and every node is told.
    fn kill(&mut self, id: u32) {
        self.dead[id as usize] = true;
        for j in 0..self.nodes.len() {
            if j as u32 != id {
                self.nodes[j].down(&[id]);
            }
        }
        self.pending.retain(|(_, f, t, _)| *f != id && *t != id);
    }

    fn flush(&mut self) {
        for i in 0..self.nodes.len() {
            let out = self.nodes[i].ready();
            if self.dead[i] {
                continue;
            }
            for a in out {
                if let Action::Send(to, m) = a {
                    if self.dead[to as usize] {
                        continue;
                    }
                    if self.loss > 0.0 && (self.rnd(10_000) as f64) < self.loss * 10_000.0 {
                        continue;
                    }
                    let lat = if self.dc[i] == self.dc[to as usize] {
                        1
                    } else {
                        self.cross
                    };
                    self.pending.push((self.now + lat, i as u32, to, m));
                }
            }
        }
    }

    /// One tick: deliver what is due, tick every node, flush.
    fn step(&mut self) {
        self.now += 1;
        let (due, keep): (Vec<_>, Vec<_>) = self
            .pending
            .drain(..)
            .partition(|(t, _, _, _)| *t <= self.now);
        self.pending = keep;
        for (_, from, to, m) in due {
            if let Message::Gossip { .. } = &m {
                if self.deliverer[to as usize].is_none() {
                    self.deliverer[to as usize] = Some(from);
                    let depth = self.round[from as usize].map_or(0, |r| r + 1);
                    self.round[to as usize] = Some(depth);
                }
            }
            self.nodes[to as usize].on_message(from, m);
        }
        for n in self.nodes.iter_mut() {
            n.tick(1);
        }
        self.flush();
    }

    fn settle(&mut self) {
        for _ in 0..(4 * self.cross + 40) {
            self.step();
        }
    }

    /// Source `src` broadcasts once; run until every node has it and the network is quiet.
    fn broadcast(&mut self, src: u32) {
        self.deliverer.iter_mut().for_each(|d| *d = None);
        self.round.iter_mut().for_each(|r| *r = None);
        self.round[src as usize] = Some(0);
        self.nodes[src as usize].broadcast(vec![src as u8]);
        self.flush();
        self.settle();
    }

    /// The delivery tree of the last message: (parent, child) for every non-source node.
    fn edges(&self) -> Vec<(u32, u32)> {
        self.deliverer
            .iter()
            .enumerate()
            .filter_map(|(i, d)| d.map(|p| (p, i as u32)))
            .collect()
    }

    fn cross_edges(&self) -> Vec<(u32, u32)> {
        self.edges()
            .into_iter()
            .filter(|&(p, c)| self.dc[p as usize] != self.dc[c as usize])
            .collect()
    }

    /// The deepest node, in hops.
    fn max_round(&self) -> u16 {
        self.round.iter().flatten().copied().max().unwrap_or(0)
    }

    fn all_delivered(&self, src: u32) -> bool {
        self.deliverer
            .iter()
            .enumerate()
            .all(|(i, d)| i as u32 == src || self.dead[i] || d.is_some())
    }

    /// The entries are exactly one per other domain, all from the root's domain.
    fn assert_entered_once_from(&self, root_dc: u8) {
        let cross = self.cross_edges();
        assert_eq!(
            cross.len(),
            usize::from(self.dcs) - 1,
            "one entry per other domain: {cross:?}"
        );
        for (p, _) in &cross {
            assert_eq!(
                self.dc[*p as usize], root_dc,
                "entered from the root's domain: {cross:?}"
            );
        }
    }
}

#[test]
fn three_nodes_in_one_domain_form_a_root_with_two_children() {
    let mut c = Cluster::new(3, 1, 3, 0, 1, 10);
    for _ in 0..5 {
        c.broadcast(0);
    }
    assert!(c.all_delivered(0));
    assert_eq!(c.edges(), vec![(0, 1), (0, 2)]);
    assert_eq!(c.max_round(), 1, "both are the root's children");
}

#[test]
fn nine_nodes_in_three_domains_enter_each_domain_once_and_stay_shallow() {
    // Three per domain, ids 0..9, domain = id % 3, the root in domain 0. The efficient
    // shape: the root's local children, and one entry into each other domain from which
    // that domain's two other nodes hang.
    let mut c = Cluster::new(9, 3, 2, 2, 1, 10);
    for _ in 0..20 {
        c.broadcast(0);
    }
    assert!(c.all_delivered(0));
    c.assert_entered_once_from(0);
    assert!(
        c.max_round() <= 2,
        "root, children, grandchildren: {:?}",
        c.round
    );
}

#[test]
fn two_hundred_nodes_in_three_domains_enter_each_domain_once_and_stay_local() {
    let mut c = Cluster::new(200, 3, 8, 4, 2, 10);
    for _ in 0..30 {
        c.broadcast(0);
    }
    assert!(c.all_delivered(0));
    c.assert_entered_once_from(0);
    // Everything else is local: a domain's nodes hang off their own entry.
    assert!(c.max_round() <= 6, "depth {}", c.max_round());
}

/// Plain hop counts are not enough here: domain 2 could be entered from domain 0, the path
/// 1 -> 3 -> 2 crossing twice (latency 21) where 1 -> 2 crosses once (latency 10). A gain of one
/// hop is below the threshold, and both links cost the same. Distance weighted by cost sees 21
/// against 10 and swaps.
#[test]
fn a_root_in_another_domain_re_forms_the_entries_from_its_own() {
    // The leader-change case: a tree built around a root in domain 0, then the source
    // moves to domain 1.
    let mut c = Cluster::new(200, 3, 8, 4, 2, 10);
    for _ in 0..10 {
        c.broadcast(0);
    }
    for _ in 0..30 {
        c.broadcast(1);
    }
    assert!(c.all_delivered(1));
    c.assert_entered_once_from(1);
    assert!(c.max_round() <= 6, "depth {}", c.max_round());
}

#[test]
fn a_dead_gateway_is_replaced_by_the_other_one_and_the_domain_stays_local() {
    let mut c = Cluster::new(200, 3, 8, 4, 2, 10);
    for _ in 0..30 {
        c.broadcast(0);
    }
    let entry = c
        .cross_edges()
        .into_iter()
        .find(|&(_, ch)| c.dc[ch as usize] == 1)
        .map(|(_, ch)| ch)
        .expect("domain 1 has an entry");
    c.kill(entry);
    for _ in 0..30 {
        c.broadcast(0);
    }
    assert!(c.all_delivered(0), "domain 1 is reached again");
    c.assert_entered_once_from(0);
    let new_entry = c
        .cross_edges()
        .into_iter()
        .find(|&(_, ch)| c.dc[ch as usize] == 1)
        .map(|(_, ch)| ch)
        .unwrap();
    assert_ne!(new_entry, entry);
    assert!(c.max_round() <= 6, "depth {}", c.max_round());
}

#[test]
fn a_joined_node_hangs_off_a_local_peer() {
    let mut c = Cluster::new(200, 3, 8, 4, 2, 10);
    for _ in 0..30 {
        c.broadcast(0);
    }
    c.join(200); // domain 200 % 3 = 2
    for _ in 0..10 {
        c.broadcast(0);
    }
    assert!(c.all_delivered(0));
    let from = c.deliverer[200].expect("delivered");
    assert_eq!(c.dc[from as usize], 2, "from its own domain, not across");
    c.assert_entered_once_from(0);
}

#[test]
fn the_shape_holds_under_loss() {
    let mut c = Cluster::with_loss(200, 3, 8, 4, 2, 10, 0.05);
    for _ in 0..30 {
        c.broadcast(0);
    }
    let mut crossings = Vec::new();
    let mut reached = 0;
    for _ in 0..10 {
        c.broadcast(0);
        crossings.push(c.cross_edges().len());
        reached += usize::from(c.all_delivered(0));
    }
    assert!(reached >= 9, "every node reached in {reached} of 10");
    let tight = crossings.iter().filter(|&&k| k == 2).count();
    assert!(
        tight >= 7,
        "two cross edges in {tight} of 10: {crossings:?}"
    );
    assert!(crossings.iter().all(|&k| k <= 4), "{crossings:?}");
}
