//! The rules that a node keeps, on concrete values.
use plumtree_fsm::{Action, Config, Cost, Message, MsgId, Plumtree};

fn gossip(id: MsgId<u32>, payload: &[u8], round: u16) -> Message<u32> {
    Message::Gossip {
        id,
        payload: payload.to_vec(),
        round,
    }
}

fn split(eager: Vec<u32>, lazy: Vec<u32>) -> Plumtree<u32> {
    Plumtree::with_split(1, eager, lazy, Config::default())
}

fn eager_of(n: &Plumtree<u32>) -> Vec<u32> {
    n.eager().copied().collect()
}

fn lazy_of(n: &Plumtree<u32>) -> Vec<u32> {
    n.lazy().copied().collect()
}

/// Hands everything that `from` has queued for `to` over to it.
fn exchange(from: &mut Plumtree<u32>, from_id: u32, to: &mut Plumtree<u32>, to_id: u32) {
    for a in from.ready() {
        if let Action::Send(p, m) = a {
            if p == to_id {
                to.on_message(from_id, m);
            }
        }
    }
}

// -------------------------------------------------------------------------- tuning and start

#[test]
fn the_default_tuning() {
    let cfg = Config::default();
    assert_eq!(cfg.graft_timeout, 500);
    assert_eq!(cfg.cache_cap, 512);
    assert_eq!(cfg.fanout, 3);
    assert_eq!(cfg.swap_threshold, 2);
}

#[test]
fn a_broadcast_goes_to_the_peers_that_start_eager() {
    let peers: Vec<(u32, Cost)> = vec![(2, 0), (3, 0), (4, 0), (5, 0), (6, 1)];
    let mut n: Plumtree<u32> = Plumtree::new(1, peers, Config::default());
    let _ = n.ready();
    n.broadcast(b"hello".to_vec());
    let actions = n.ready();
    assert!(actions
        .iter()
        .any(|a| matches!(a, Action::Send(2, Message::Gossip { .. }))));
    assert!(actions
        .iter()
        .any(|a| matches!(a, Action::Send(6, Message::Gossip { .. }))));
    assert!(!actions.iter().any(|a| matches!(a, Action::Send(5, _))));
}

#[test]
fn the_introductions_are_a_graft_or_an_empty_announcement_each() {
    let peers: Vec<(u32, Cost)> = vec![(2, 0), (3, 0), (4, 0), (5, 0), (6, 10), (7, 10)];
    let mut n: Plumtree<u32> = Plumtree::new(1, peers, Config::default());
    assert_eq!(
        n.ready(),
        vec![
            Action::Send(2, Message::Graft(None)),
            Action::Send(3, Message::Graft(None)),
            Action::Send(4, Message::Graft(None)),
            Action::Send(6, Message::Graft(None)),
            Action::Send(5, Message::Ihave(vec![])),
            Action::Send(7, Message::Ihave(vec![])),
        ]
    );
}

#[test]
fn a_node_in_its_own_list_is_passed_over() {
    let cfg = Config {
        fanout: 1,
        ..Config::default()
    };
    let n: Plumtree<u32> = Plumtree::new(1, vec![(1, 0), (2, 0), (1, 7), (3, 7)], cfg);
    assert_eq!(eager_of(&n), vec![2, 3]);
    assert!(lazy_of(&n).is_empty());
}

#[test]
fn no_cheap_peer_starts_eager_without_fanout() {
    let cfg = Config {
        fanout: 0,
        ..Config::default()
    };
    let n: Plumtree<u32> = Plumtree::new(1, vec![(2, 0), (3, 4), (4, 4)], cfg);
    assert_eq!(eager_of(&n), vec![3]);
    assert_eq!(lazy_of(&n), vec![2, 4]);
}

#[test]
fn an_explicit_split_has_nothing_to_send() {
    let mut n = split(vec![3, 2, 3], vec![5, 4]);
    assert_eq!(eager_of(&n), vec![2, 3]);
    assert_eq!(lazy_of(&n), vec![4, 5]);
    assert!(!n.has_ready());
    assert!(n.ready().is_empty());
}

#[test]
fn introductions_make_a_link_the_same_from_both_ends() {
    let cfg = Config {
        fanout: 1,
        ..Config::default()
    };
    // 1 has 2 eager and 3 lazy; 2 has 1 lazy; 3 does not know 1.
    let mut a: Plumtree<u32> = Plumtree::new(1, vec![(2, 0), (3, 0)], cfg);
    let mut b: Plumtree<u32> = Plumtree::new(2, vec![(9, 0), (1, 0)], cfg);
    let mut c: Plumtree<u32> = Plumtree::new(3, vec![(9, 0)], cfg);
    assert_eq!(lazy_of(&b), vec![1]);
    for action in a.ready() {
        match action {
            Action::Send(2, m) => {
                b.on_message(1, m);
            }
            Action::Send(3, m) => {
                c.on_message(1, m);
            }
            _ => unreachable!(),
        }
    }
    exchange(&mut b, 2, &mut a, 1);
    exchange(&mut c, 3, &mut a, 1);
    assert_eq!(eager_of(&a), vec![2]);
    assert_eq!(lazy_of(&a), vec![3]);
    assert_eq!(eager_of(&b), vec![1, 9]);
    assert_eq!(lazy_of(&c), vec![1]);
}

#[test]
fn any_ordered_id_will_do() {
    let me = String::from("a");
    let mut n: Plumtree<String> = Plumtree::with_split(
        me.clone(),
        vec![String::from("b")],
        vec![String::from("c")],
        Config::default(),
    );
    n.broadcast(vec![7]);
    n.tick(1);
    assert_eq!(
        n.ready(),
        vec![
            Action::Send(
                String::from("b"),
                Message::Gossip {
                    id: (me.clone(), 0),
                    payload: vec![7],
                    round: 0
                }
            ),
            Action::Send(String::from("c"), Message::Ihave(vec![((me, 0), 0)])),
        ]
    );
}

// -------------------------------------------------------------------------- the queue

/// The same inputs, drained after each of them or not at all.
fn feed(n: &mut Plumtree<u32>, drain: bool) -> Vec<Action<u32>> {
    let mut out = Vec::new();
    for step in 0..6u64 {
        match step {
            0 => n.broadcast(b"a".to_vec()),
            1 => n.on_message(5, gossip((9, 0), b"b", 4)),
            2 => n.on_message(3, Message::Ihave(vec![((9, 0), 0), ((9, 1), 0)])),
            3 => n.tick(600),
            4 => n.on_message(2, gossip((9, 0), b"b", 4)),
            _ => n.on_message(4, Message::Graft(Some((1, 0)))),
        };
        if drain {
            out.append(&mut n.ready());
        }
    }
    out.append(&mut n.ready());
    out
}

#[test]
fn nothing_depends_on_when_the_queue_is_drained() {
    let mut often = split(vec![2], vec![3, 4]);
    let mut once = split(vec![2], vec![3, 4]);
    let a = feed(&mut often, true);
    let b = feed(&mut once, false);
    assert_eq!(a.len(), 10);
    assert_eq!(a, b);
    assert_eq!(eager_of(&often), eager_of(&once));
    assert_eq!(lazy_of(&often), lazy_of(&once));
}

#[test]
fn messages_and_ticks_report_the_edge_too() {
    let mut n = split(vec![2], vec![3]);
    assert!(!n.tick(1), "nothing to say");
    assert!(!n.on_message(3, Message::Prune), "nothing to say");
    assert!(n.on_message(2, gossip((9, 0), b"m", 0)));
    assert!(!n.tick(1), "not empty before");
    let _ = n.ready();
    n.on_message(3, Message::Ihave(vec![((9, 1), 0)]));
    assert!(n.tick(500), "a graft");
}

#[test]
fn membership_and_liveness_never_fill_the_queue() {
    let mut n = split(vec![2, 3], vec![4]);
    n.membership(&[(5, 1)], &[3]);
    n.down(&[2]);
    n.up(&[2]);
    assert!(!n.has_ready());
}

#[test]
fn only_the_sends_to_excluded_peers_leave_the_queue() {
    let mut n = split(vec![2, 3, 4], vec![]);
    n.on_message(5, gossip((9, 0), b"m", 0));
    n.down(&[2]);
    n.membership(&[], &[4]);
    assert_eq!(
        n.ready(),
        vec![
            Action::Deliver(b"m".to_vec()),
            Action::Send(3, gossip((9, 0), b"m", 1)),
        ]
    );
}

// -------------------------------------------------------------------------- links

#[test]
fn an_announcement_from_a_down_peer_restores_it() {
    let mut n = split(vec![2], vec![]);
    n.down(&[2]);
    n.on_message(2, Message::Ihave(vec![]));
    assert_eq!(lazy_of(&n), vec![2]);
    n.broadcast(b"x".to_vec());
    n.tick(1);
    assert_eq!(
        n.ready(),
        vec![Action::Send(2, Message::Ihave(vec![((1, 0), 0)]))]
    );
}

#[test]
fn a_prune_from_a_down_peer_restores_it() {
    let mut n = split(vec![2], vec![]);
    n.down(&[2]);
    assert!(eager_of(&n).is_empty());
    assert!(lazy_of(&n).is_empty());
    n.on_message(2, Message::Prune);
    assert_eq!(lazy_of(&n), vec![2]);
    // Not down any more: `up` has nothing to do.
    n.on_message(2, Message::Graft(None));
    n.up(&[2]);
    assert_eq!(eager_of(&n), vec![2]);
    assert!(lazy_of(&n).is_empty());
}

#[test]
fn a_duplicate_from_a_down_peer_restores_it() {
    let mut n = split(vec![2, 3], vec![]);
    n.on_message(3, gossip((9, 0), b"m", 0));
    n.down(&[2]);
    let _ = n.ready();
    n.on_message(2, gossip((9, 0), b"m", 0));
    assert_eq!(lazy_of(&n), vec![2]);
    assert_eq!(n.ready(), vec![Action::Send(2, Message::Prune)]);
}

#[test]
fn a_graft_from_a_down_peer_restores_it_as_eager() {
    let mut n = split(vec![], vec![2]);
    n.down(&[2]);
    n.on_message(2, Message::Graft(None));
    assert_eq!(eager_of(&n), vec![2]);
    assert!(lazy_of(&n).is_empty());
}

#[test]
fn up_ignores_peers_that_were_not_down() {
    let mut n = split(vec![2], vec![3]);
    n.up(&[2, 3, 7]);
    assert_eq!(eager_of(&n), vec![2]);
    assert_eq!(lazy_of(&n), vec![3]);
}

#[test]
fn down_then_up_makes_peers_lazy_and_never_the_node_itself() {
    let mut n = split(vec![2, 3], vec![4]);
    n.down(&[1, 2, 4, 2]);
    assert_eq!(eager_of(&n), vec![3]);
    assert!(lazy_of(&n).is_empty());
    n.up(&[1, 2, 4]);
    assert_eq!(eager_of(&n), vec![3]);
    assert_eq!(lazy_of(&n), vec![2, 4]);
}

#[test]
fn a_down_peer_is_not_asked_for_anything() {
    let mut n = split(vec![], vec![2, 3]);
    n.on_message(2, Message::Ihave(vec![((9, 0), 0)]));
    n.on_message(3, Message::Ihave(vec![((9, 0), 0)]));
    n.down(&[2]);
    n.tick(500);
    assert_eq!(
        n.ready(),
        vec![Action::Send(3, Message::Graft(Some((9, 0))))]
    );
}

#[test]
fn a_removed_peer_is_forgotten_until_it_is_heard_from() {
    let mut n = split(vec![2], vec![3]);
    n.on_message(3, Message::Ihave(vec![((9, 0), 0)]));
    n.membership(&[], &[3]);
    n.up(&[3]);
    n.broadcast(b"x".to_vec());
    n.tick(1000);
    assert_eq!(n.ready(), vec![Action::Send(2, gossip((1, 0), b"x", 0))]);
    assert!(lazy_of(&n).is_empty());
    n.on_message(3, Message::Ihave(vec![]));
    assert_eq!(lazy_of(&n), vec![3]);
}

#[test]
fn a_removed_peer_that_was_down_does_not_come_back_by_up() {
    let mut n = split(vec![2], vec![]);
    n.down(&[2]);
    n.membership(&[], &[2]);
    n.up(&[2]);
    assert!(eager_of(&n).is_empty());
    assert!(lazy_of(&n).is_empty());
}

#[test]
fn nothing_goes_to_a_peer_that_is_down_then_removed_then_down() {
    let mut n = split(vec![2, 3], vec![]);
    n.broadcast(b"a".to_vec());
    n.down(&[2]);
    n.down(&[2]);
    n.membership(&[], &[2]);
    n.broadcast(b"b".to_vec());
    n.down(&[2]);
    n.membership(&[(2, 3)], &[]);
    n.broadcast(b"c".to_vec());
    n.tick(1);
    let a = n.ready();
    assert_eq!(a.len(), 3);
    assert!(a.iter().all(|x| matches!(x, Action::Send(3, _))));
    assert_eq!(eager_of(&n), vec![3]);
    assert!(lazy_of(&n).is_empty());
}

#[test]
fn a_joined_node_is_only_known_at_its_cost() {
    let mut n = split(vec![2], vec![]);
    n.membership(&[(3, 200), (3, 10), (1, 9)], &[]);
    assert_eq!(eager_of(&n), vec![2]);
    assert!(lazy_of(&n).is_empty());
    // The last cost counts: a copy from 3 is 10 farther than it says.
    n.on_message(3, gossip((9, 0), b"m", 5));
    assert!(n
        .ready()
        .contains(&Action::Send(2, gossip((9, 0), b"m", 16))));
    // Forgotten with the node.
    n.membership(&[], &[3]);
    n.on_message(3, gossip((9, 1), b"m", 5));
    assert!(n
        .ready()
        .contains(&Action::Send(2, gossip((9, 1), b"m", 6))));
}

#[test]
fn a_node_joined_and_removed_at_once_is_gone() {
    let mut n = split(vec![2], vec![]);
    n.membership(&[(3, 10)], &[3]);
    n.on_message(3, gossip((9, 0), b"m", 5));
    assert!(n
        .ready()
        .contains(&Action::Send(2, gossip((9, 0), b"m", 6))));
}

#[test]
fn a_node_is_not_its_own_peer() {
    let mut n = split(vec![2], vec![]);
    n.on_message(1, Message::Ihave(vec![]));
    n.on_message(1, Message::Ihave(vec![((9, 0), 0)]));
    n.on_message(1, Message::Graft(None));
    n.on_message(1, gossip((9, 1), b"m", 0));
    n.on_message(1, gossip((9, 1), b"m", 0));
    n.down(&[1]);
    n.up(&[1]);
    assert_eq!(eager_of(&n), vec![2]);
    assert!(lazy_of(&n).is_empty());
}

#[test]
fn a_prune_makes_the_link_lazy_and_is_not_answered() {
    let mut n = split(vec![2, 3], vec![]);
    assert!(!n.on_message(2, Message::Prune));
    assert_eq!(eager_of(&n), vec![3]);
    assert_eq!(lazy_of(&n), vec![2]);
    assert!(n.ready().is_empty());
}

// -------------------------------------------------------------------------- messages

#[test]
fn each_broadcast_has_an_id_of_its_own() {
    let mut n = split(vec![2], vec![]);
    for _ in 0..3 {
        n.broadcast(b"x".to_vec());
    }
    assert_eq!(
        n.ready(),
        vec![
            Action::Send(2, gossip((1, 0), b"x", 0)),
            Action::Send(2, gossip((1, 1), b"x", 0)),
            Action::Send(2, gossip((1, 2), b"x", 0)),
        ]
    );
}

#[test]
fn a_message_that_comes_twice_is_delivered_once() {
    let mut n = split(vec![2, 3], vec![]);
    n.on_message(2, gossip((9, 0), b"m", 0));
    n.on_message(3, gossip((9, 0), b"m", 0));
    let delivered = n
        .ready()
        .into_iter()
        .filter(|a| matches!(a, Action::Deliver(_)))
        .count();
    assert_eq!(delivered, 1);
}

#[test]
fn a_late_copy_is_not_delivered_while_the_message_is_kept() {
    let cfg = Config {
        cache_cap: 2,
        ..Config::default()
    };
    let mut n: Plumtree<u32> = Plumtree::with_split(1, vec![2], vec![], cfg);
    n.on_message(2, gossip((9, 0), b"m", 0));
    n.on_message(2, gossip((9, 1), b"o", 0));
    n.tick(1000);
    // Duplicates do not count against the message.
    for _ in 0..5 {
        n.on_message(2, gossip((9, 1), b"o", 0));
    }
    let _ = n.ready();
    n.on_message(3, gossip((9, 0), b"m", 0));
    assert_eq!(n.ready(), vec![Action::Send(3, Message::Prune)]);
    n.on_message(3, Message::Graft(Some((9, 0))));
    assert_eq!(n.ready(), vec![Action::Send(3, gossip((9, 0), b"m", 1))]);
    // One more message, and it is not kept any longer.
    n.on_message(2, gossip((9, 2), b"p", 0));
    let _ = n.ready();
    n.on_message(3, gossip((9, 0), b"m", 0));
    assert!(n.ready().contains(&Action::Deliver(b"m".to_vec())));
}

#[test]
fn a_broadcast_reaches_every_node_of_a_tree_once() {
    // 1 is the root, 2 and 3 its children, 4 and 5 those of 3, and 6 that of 5. The link between
    // 3 and 5 costs 10.
    let links: Vec<Vec<u32>> = vec![
        vec![2, 3],
        vec![1],
        vec![1, 4, 5],
        vec![3],
        vec![3, 6],
        vec![5],
    ];
    let mut nodes: Vec<Plumtree<u32>> = Vec::new();
    for (i, eager) in links.into_iter().enumerate() {
        nodes.push(Plumtree::with_split(
            i as u32 + 1,
            eager,
            vec![],
            Config::default(),
        ));
    }
    nodes[4].membership(&[(3, 10)], &[]);
    nodes[0].broadcast(b"m".to_vec());
    let mut delivered: Vec<u32> = vec![0; 6];
    let mut carried: Vec<(u32, u32, u16)> = Vec::new();
    for _ in 0..5 {
        let mut sent: Vec<(u32, u32, Message<u32>)> = Vec::new();
        for (i, n) in nodes.iter_mut().enumerate() {
            for a in n.ready() {
                match a {
                    Action::Send(to, m) => sent.push((i as u32 + 1, to, m)),
                    Action::Deliver(bytes) => {
                        assert_eq!(bytes, b"m".to_vec());
                        delivered[i] += 1;
                    }
                }
            }
        }
        for (from, to, m) in sent {
            if let Message::Gossip { round, .. } = &m {
                carried.push((from, to, *round));
            }
            nodes[to as usize - 1].on_message(from, m);
        }
    }
    assert_eq!(delivered, vec![0, 1, 1, 1, 1, 1]);
    // One full message per link.
    assert_eq!(
        carried,
        vec![(1, 2, 0), (1, 3, 0), (3, 4, 1), (3, 5, 1), (5, 6, 12)]
    );
}

#[test]
fn a_broadcast_that_comes_back_is_not_delivered() {
    let mut n = split(vec![2], vec![]);
    n.broadcast(b"x".to_vec());
    let _ = n.ready();
    n.on_message(2, gossip((1, 0), b"x", 1));
    assert_eq!(n.ready(), vec![Action::Send(2, Message::Prune)]);
    assert_eq!(lazy_of(&n), vec![2]);
}

#[test]
fn a_copy_goes_to_every_eager_peer_but_its_sender() {
    let mut n = split(vec![2, 3, 4], vec![5]);
    n.on_message(3, gossip((9, 0), b"m", 2));
    assert_eq!(
        n.ready(),
        vec![
            Action::Deliver(b"m".to_vec()),
            Action::Send(2, gossip((9, 0), b"m", 3)),
            Action::Send(4, gossip((9, 0), b"m", 3)),
        ]
    );
    n.tick(1);
    assert_eq!(
        n.ready(),
        vec![Action::Send(5, Message::Ihave(vec![((9, 0), 3)]))]
    );
    n.tick(1);
    assert!(n.ready().is_empty(), "announced once");
}

#[test]
fn an_announcement_waits_for_the_next_tick_whatever_happens_before() {
    let mut n = split(vec![2], vec![3]);
    n.broadcast(b"x".to_vec());
    n.on_message(3, Message::Graft(None));
    n.on_message(4, Message::Ihave(vec![((8, 0), 0)]));
    n.down(&[3]);
    n.membership(&[(6, 1)], &[]);
    n.on_message(5, Message::Prune);
    n.on_message(2, gossip((9, 0), b"m", 6));
    n.on_message(2, gossip((9, 0), b"m", 6));
    n.up(&[3]);
    let _ = n.ready();
    n.tick(1);
    // To everyone who is lazy by now, what came since the last tick and nothing else.
    let ids = vec![((1, 0), 0), ((9, 0), 7)];
    assert_eq!(
        n.ready(),
        vec![
            Action::Send(2, Message::Ihave(ids.clone())),
            Action::Send(3, Message::Ihave(ids.clone())),
            Action::Send(4, Message::Ihave(ids.clone())),
            Action::Send(5, Message::Ihave(ids)),
        ]
    );
    n.on_message(7, gossip((9, 1), b"o", 0));
    let _ = n.ready();
    n.tick(1);
    assert_eq!(n.ready().len(), 4);
    n.tick(1);
    assert!(n.ready().is_empty());
}

#[test]
fn what_comes_while_nobody_is_lazy_is_not_announced() {
    let mut n = split(vec![2], vec![]);
    n.broadcast(b"x".to_vec());
    n.on_message(3, gossip((9, 0), b"m", 0));
    n.on_message(3, Message::Prune);
    let _ = n.ready();
    n.tick(1);
    assert!(n.ready().is_empty());
}

#[test]
fn announcements_are_listed_in_the_order_of_the_ids() {
    let mut n = split(vec![2], vec![4, 3]);
    n.on_message(2, gossip((9, 1), b"m", 0));
    n.on_message(2, gossip((8, 5), b"m", 1));
    n.broadcast(b"x".to_vec());
    let _ = n.ready();
    n.tick(0);
    let ids = vec![((1, 0), 0), ((8, 5), 2), ((9, 1), 1)];
    assert_eq!(
        n.ready(),
        vec![
            Action::Send(3, Message::Ihave(ids.clone())),
            Action::Send(4, Message::Ihave(ids)),
        ]
    );
}

#[test]
fn the_distance_stops_at_its_largest_value() {
    let mut n: Plumtree<u32> = Plumtree::new(1, vec![(2, 10), (3, 0)], Config::default());
    let _ = n.ready();
    n.on_message(2, gossip((9, 0), b"m", 65530));
    assert!(n
        .ready()
        .contains(&Action::Send(3, gossip((9, 0), b"m", 65535))));
    n.on_message(3, Message::Graft(Some((9, 0))));
    assert_eq!(
        n.ready(),
        vec![Action::Send(3, gossip((9, 0), b"m", 65535))]
    );
}

#[test]
fn values_compare_and_clone_by_content() {
    let m = gossip((9, 0), b"m", 3);
    assert_eq!(m.clone(), m);
    assert_ne!(m, gossip((9, 0), b"n", 3));
    assert_ne!(m, gossip((9, 0), b"m", 4));
    let ihave: Message<u32> = Message::Ihave(vec![((9, 0), 3), ((9, 1), 4)]);
    assert_eq!(ihave.clone(), ihave);
    let graft: Message<u32> = Message::Graft(Some((9, 0)));
    assert_eq!(graft.clone(), graft);
    assert_ne!(graft, Message::Graft(None));
    let bare: Message<u32> = Message::Graft(None);
    assert_eq!(bare.clone(), bare);
    let prune: Message<u32> = Message::Prune;
    assert_eq!(prune.clone(), prune);
    let send = Action::Send(2, m);
    assert_eq!(send.clone(), send);
    let deliver: Action<u32> = Action::Deliver(b"m".to_vec());
    assert_eq!(deliver.clone(), deliver);
    assert_eq!(format!("{:?}", prune), "Prune");
}

// -------------------------------------------------------------------------- the cache

fn small_cache(cache_cap: usize) -> Plumtree<u32> {
    let cfg = Config {
        cache_cap,
        ..Config::default()
    };
    Plumtree::with_split(1, vec![2], vec![], cfg)
}

#[test]
fn the_oldest_message_is_dropped_first() {
    let mut n = small_cache(2);
    n.broadcast(b"a".to_vec());
    n.on_message(2, gossip((9, 0), b"b", 4));
    let _ = n.ready();
    n.on_message(2, Message::Graft(Some((1, 0))));
    assert_eq!(n.ready(), vec![Action::Send(2, gossip((1, 0), b"a", 1))]);
    n.broadcast(b"c".to_vec());
    let _ = n.ready();
    n.on_message(2, Message::Graft(Some((1, 0))));
    assert!(n.ready().is_empty(), "dropped");
    n.on_message(2, Message::Graft(Some((9, 0))));
    assert_eq!(n.ready(), vec![Action::Send(2, gossip((9, 0), b"b", 5))]);
    n.on_message(2, Message::Graft(Some((1, 1))));
    assert_eq!(n.ready(), vec![Action::Send(2, gossip((1, 1), b"c", 1))]);
}

#[test]
fn without_a_cache_no_graft_is_answered_and_duplicates_are_new() {
    let mut n = small_cache(0);
    n.broadcast(b"a".to_vec());
    let _ = n.ready();
    n.on_message(2, Message::Graft(Some((1, 0))));
    assert!(n.ready().is_empty());
    for _ in 0..2 {
        n.on_message(2, gossip((9, 0), b"b", 0));
        assert_eq!(n.ready(), vec![Action::Deliver(b"b".to_vec())]);
    }
}

#[test]
fn a_graft_for_an_unknown_message_only_makes_the_link_eager() {
    let mut n = split(vec![], vec![2]);
    assert!(!n.on_message(2, Message::Graft(Some((9, 0)))));
    assert_eq!(eager_of(&n), vec![2]);
    assert!(n.ready().is_empty());
}

// -------------------------------------------------------------------------- recovery

#[test]
fn the_timeout_is_exact() {
    let mut n = split(vec![], vec![2]);
    n.tick(7);
    n.on_message(2, Message::Ihave(vec![((9, 0), 0)]));
    n.tick(499);
    assert!(n.ready().is_empty());
    n.tick(1);
    assert_eq!(
        n.ready(),
        vec![Action::Send(2, Message::Graft(Some((9, 0))))]
    );
    n.tick(5000);
    assert!(n.ready().is_empty(), "asked once");
}

#[test]
fn a_copy_in_time_means_nobody_is_asked() {
    let mut n = split(vec![3], vec![2]);
    n.on_message(2, Message::Ihave(vec![((9, 0), 0)]));
    n.tick(400);
    n.on_message(3, gossip((9, 0), b"m", 0));
    let _ = n.ready();
    n.tick(400);
    assert!(!n
        .ready()
        .iter()
        .any(|a| matches!(a, Action::Send(_, Message::Graft(_)))));
}

#[test]
fn announcers_are_asked_in_turn_a_timeout_apart() {
    let mut n = split(vec![], vec![2, 3, 4]);
    for p in [3, 2, 4] {
        n.on_message(p, Message::Ihave(vec![((9, 0), 0)]));
    }
    for p in [3, 2, 4] {
        n.tick(499);
        assert!(n.ready().is_empty());
        n.tick(1);
        assert_eq!(
            n.ready(),
            vec![Action::Send(p, Message::Graft(Some((9, 0))))]
        );
    }
    n.tick(1000);
    assert!(n.ready().is_empty(), "given up");
    // Announced anew, it is asked for anew.
    n.on_message(2, Message::Ihave(vec![((9, 0), 0)]));
    n.tick(500);
    assert_eq!(
        n.ready(),
        vec![Action::Send(2, Message::Graft(Some((9, 0))))]
    );
}

#[test]
fn among_equals_the_announcer_that_spoke_first_is_asked_first() {
    let peers: Vec<(u32, Cost)> = vec![(2, 5), (3, 5), (4, 5), (5, 0)];
    let mut n: Plumtree<u32> = Plumtree::new(1, peers, Config::default());
    let _ = n.ready();
    for p in [4, 2, 3, 2, 5] {
        n.on_message(p, Message::Ihave(vec![((9, 0), 0)]));
        n.tick(1);
    }
    let mut asked: Vec<u32> = Vec::new();
    for _ in 0..3000 {
        n.tick(1);
        for x in n.ready() {
            if let Action::Send(p, Message::Graft(Some(_))) = x {
                asked.push(p);
            }
        }
    }
    // 5 costs less and goes first, though it spoke last; 2 announced twice.
    assert_eq!(asked, vec![5, 4, 2, 3, 2]);
}

#[test]
fn several_missing_messages_are_asked_for_in_the_order_of_their_ids() {
    let mut n = split(vec![], vec![2]);
    n.on_message(2, Message::Ihave(vec![((9, 1), 0), ((8, 3), 0), ((9, 0), 0)]));
    n.tick(500);
    assert_eq!(
        n.ready(),
        vec![
            Action::Send(2, Message::Graft(Some((8, 3)))),
            Action::Send(2, Message::Graft(Some((9, 0)))),
            Action::Send(2, Message::Graft(Some((9, 1)))),
        ]
    );
}

#[test]
fn a_lost_message_is_recovered_from_its_announcer() {
    let mut a = split(vec![], vec![2]);
    let mut b: Plumtree<u32> = Plumtree::with_split(2, vec![], vec![1], Config::default());
    a.broadcast(b"m".to_vec());
    a.tick(1);
    exchange(&mut a, 1, &mut b, 2);
    b.tick(500);
    exchange(&mut b, 2, &mut a, 1);
    exchange(&mut a, 1, &mut b, 2);
    assert_eq!(b.ready(), vec![Action::Deliver(b"m".to_vec())]);
    assert_eq!(eager_of(&a), vec![2]);
    assert_eq!(eager_of(&b), vec![1]);
}

#[test]
fn one_reachable_announcer_is_enough() {
    let mut a = split(vec![], vec![2]);
    let mut b: Plumtree<u32> = Plumtree::with_split(2, vec![], vec![1, 7, 8], Config::default());
    a.broadcast(b"m".to_vec());
    let _ = a.ready();
    for p in [7, 8, 1] {
        b.on_message(p, Message::Ihave(vec![((1, 0), 0)]));
    }
    b.tick(500);
    b.tick(500);
    let _ = b.ready(); // 7 and 8 do not answer
    b.tick(500);
    exchange(&mut b, 2, &mut a, 1);
    exchange(&mut a, 1, &mut b, 2);
    assert!(b.ready().contains(&Action::Deliver(b"m".to_vec())));
    b.tick(5000);
    assert!(!b
        .ready()
        .iter()
        .any(|x| matches!(x, Action::Send(_, Message::Graft(_)))));
}

#[test]
fn a_lost_message_is_recovered_by_a_worker_that_ticks_one_at_a_time() {
    let mut a = split(vec![], vec![2]);
    let mut b: Plumtree<u32> = Plumtree::with_split(2, vec![9], vec![1, 7], Config::default());
    a.broadcast(b"m".to_vec());
    a.tick(1);
    b.on_message(7, Message::Ihave(vec![((1, 0), 4)]));
    exchange(&mut a, 1, &mut b, 2);
    // Other things go on meanwhile: broadcasts, other messages, another announcer that goes down.
    let mut asked: Vec<(u64, u32)> = Vec::new();
    for now in 1..=1000u64 {
        b.broadcast(vec![0]);
        b.on_message(9, gossip((9, now), b"o", 0));
        if now == 100 {
            b.on_message(8, Message::Ihave(vec![((1, 0), 2)]));
        }
        if now == 200 {
            b.down(&[8]);
        }
        b.tick(1);
        for x in b.ready() {
            if let Action::Send(p, Message::Graft(Some((1, 0)))) = x {
                asked.push((now, p));
            }
        }
    }
    assert_eq!(asked, vec![(500, 7), (1000, 1)]);
    a.on_message(2, Message::Graft(Some((1, 0))));
    exchange(&mut a, 1, &mut b, 2);
    assert!(b.ready().contains(&Action::Deliver(b"m".to_vec())));
}

#[test]
fn uneven_ticks_ask_everyone_too() {
    let mut n = split(vec![], vec![2, 3, 4]);
    for p in [2, 3, 4] {
        n.on_message(p, Message::Ihave(vec![((9, 0), 0)]));
    }
    let mut asked: Vec<u32> = Vec::new();
    for ticks in [1, 300, 250, 7, 490, 20, 511, 3] {
        n.tick(ticks);
        for x in n.ready() {
            if let Action::Send(p, Message::Graft(_)) = x {
                asked.push(p);
            }
        }
    }
    assert_eq!(asked, vec![2, 3, 4]);
}

#[test]
fn the_clock_stops_at_its_last_time() {
    let mut n = split(vec![2], vec![]);
    n.tick(u64::MAX);
    assert!(!n.tick(1));
    assert!(n.broadcast(b"x".to_vec()));
}

// -------------------------------------------------------------------------- swaps

fn with_threshold(swap_threshold: u16) -> Plumtree<u32> {
    let cfg = Config {
        swap_threshold,
        ..Config::default()
    };
    Plumtree::with_split(1, vec![2], vec![3], cfg)
}

#[test]
fn the_bar_for_a_swap_is_the_threshold() {
    for (announced, swapped) in [(4, true), (5, true), (6, false)] {
        let mut n = with_threshold(3);
        n.on_message(2, gossip((9, 0), b"m", 8));
        let _ = n.ready();
        n.on_message(3, Message::Ihave(vec![((9, 0), announced)]));
        assert_eq!(n.has_ready(), swapped, "announced at {announced}");
        assert_eq!(eager_of(&n), vec![if swapped { 3 } else { 2 }]);
    }
}

#[test]
fn without_a_threshold_an_equal_path_is_taken_and_a_longer_one_is_not() {
    let mut n = with_threshold(0);
    n.on_message(2, gossip((9, 0), b"m", 3));
    let _ = n.ready();
    n.on_message(3, Message::Ihave(vec![((9, 0), 4)]));
    assert!(n.ready().is_empty());
    assert_eq!(eager_of(&n), vec![2]);
    n.on_message(3, Message::Ihave(vec![((9, 0), 3)]));
    assert_eq!(
        n.ready(),
        vec![
            Action::Send(3, Message::Graft(None)),
            Action::Send(2, Message::Prune),
        ]
    );
    assert_eq!(eager_of(&n), vec![3]);
}

#[test]
fn the_first_announcer_that_is_closer_is_swapped_in() {
    let mut n = split(vec![2], vec![3, 4, 5]);
    n.on_message(3, Message::Ihave(vec![((9, 0), 5)]));
    n.on_message(4, Message::Ihave(vec![((9, 0), 3)]));
    n.on_message(5, Message::Ihave(vec![((9, 0), 0)]));
    n.on_message(2, gossip((9, 0), b"m", 6));
    assert_eq!(
        n.ready(),
        vec![
            Action::Deliver(b"m".to_vec()),
            Action::Send(4, Message::Graft(None)),
            Action::Send(2, Message::Prune),
        ]
    );
    assert_eq!(eager_of(&n), vec![4]);
    assert_eq!(lazy_of(&n), vec![2, 3, 5]);
}

#[test]
fn a_message_that_started_here_swaps_nothing() {
    let mut n = with_threshold(0);
    n.broadcast(b"x".to_vec());
    let _ = n.ready();
    n.on_message(3, Message::Ihave(vec![((1, 0), 0)]));
    assert!(n.ready().is_empty());
    assert_eq!(eager_of(&n), vec![2]);
}

#[test]
fn between_equal_links_the_late_one_goes() {
    let mut n: Plumtree<u32> = Plumtree::new(1, vec![(2, 5), (3, 6), (4, 5)], Config::default());
    n.on_message(4, Message::Graft(None));
    n.on_message(2, gossip((9, 0), b"m", 0));
    let _ = n.ready();
    n.on_message(4, gossip((9, 0), b"m", 0));
    assert_eq!(n.ready(), vec![Action::Send(4, Message::Prune)]);
    n.on_message(3, gossip((9, 0), b"m", 0));
    assert_eq!(n.ready(), vec![Action::Send(3, Message::Prune)]);
    assert_eq!(eager_of(&n), vec![2]);
    assert_eq!(lazy_of(&n), vec![3, 4]);
}

#[test]
fn swapped_links_are_the_same_from_both_ends() {
    let mut node = split(vec![2], vec![3]);
    let mut old: Plumtree<u32> = Plumtree::with_split(2, vec![1], vec![], Config::default());
    let mut closer: Plumtree<u32> = Plumtree::with_split(3, vec![], vec![1], Config::default());
    node.on_message(2, gossip((9, 0), b"m", 3));
    let _ = node.ready();
    node.on_message(3, Message::Ihave(vec![((9, 0), 0)]));
    for a in node.ready() {
        match a {
            Action::Send(2, m) => old.on_message(1, m),
            Action::Send(3, m) => closer.on_message(1, m),
            _ => unreachable!(),
        };
    }
    assert_eq!(eager_of(&node), vec![3]);
    assert_eq!(eager_of(&closer), vec![1]);
    assert_eq!(lazy_of(&node), vec![2]);
    assert_eq!(lazy_of(&old), vec![1]);
}
