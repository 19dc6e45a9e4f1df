//! One node: what each input makes it do.
use plumtree_fsm::{Action, Config, Message, Plumtree};


#[test]
fn broadcast_pushes_to_eager_and_queues_lazy() {
    let mut n: Plumtree<u32> = Plumtree::with_split(1, vec![2, 3], vec![4], Config::default());
    n.broadcast(b"x".to_vec());
    let a = n.ready();
    // Full push to both eager peers, nothing to the lazy peer yet.
    assert_eq!(a.len(), 2);
    assert!(a.contains(&Action::Send(
        2,
        Message::Gossip {
            id: (1, 0),
            payload: b"x".to_vec(),
            round: 0
        }
    )));
    // The lazy peer is told on the next tick.
    n.tick(1);
    assert_eq!(
        n.ready(),
        vec![Action::Send(4, Message::Ihave(vec![((1, 0), 0)]))]
    );
}

#[test]
fn outputs_of_several_inputs_concatenate_in_call_order() {
    // The contract: you need not drain between inputs.
    let mut n: Plumtree<u32> = Plumtree::with_split(1, vec![2], vec![], Config::default());
    n.broadcast(b"a".to_vec());
    n.broadcast(b"b".to_vec());
    let a = n.ready();
    assert_eq!(a.len(), 2);
    assert_eq!(
        a[0],
        Action::Send(
            2,
            Message::Gossip {
                id: (1, 0),
                payload: b"a".to_vec(),
                round: 0
            }
        )
    );
    assert_eq!(
        a[1],
        Action::Send(
            2,
            Message::Gossip {
                id: (1, 1),
                payload: b"b".to_vec(),
                round: 0
            }
        )
    );
}

#[test]
fn inputs_report_the_empty_to_non_empty_edge() {
    let mut n: Plumtree<u32> = Plumtree::with_split(1, vec![2], vec![], Config::default());
    // The first broadcast takes the queue from empty to non-empty: an edge, wake the sender.
    assert!(n.broadcast(b"a".to_vec()));
    // A second lands on a non-empty queue: no edge -- the drainer will get both anyway.
    assert!(!n.broadcast(b"b".to_vec()));
    assert!(n.has_ready());
    let _ = n.ready();
    assert!(!n.has_ready());
    // Once drained, the next output is an edge again.
    assert!(n.broadcast(b"c".to_vec()));
}

#[test]
fn a_new_gossip_is_delivered_and_forwarded() {
    let mut n: Plumtree<u32> = Plumtree::with_split(1, vec![2], vec![], Config::default());
    n.on_message(
        5,
        Message::Gossip {
            id: (9, 0),
            payload: b"p".to_vec(),
            round: 0,
        },
    );
    let a = n.ready();
    assert!(a.contains(&Action::Deliver(b"p".to_vec())));
    assert!(a.contains(&Action::Send(
        2,
        Message::Gossip {
            id: (9, 0),
            payload: b"p".to_vec(),
            round: 1
        }
    )));
    assert!(n.eager().any(|&p| p == 5)); // sender grafted into the eager set
}

#[test]
fn a_duplicate_gossip_prunes_the_link() {
    let mut n: Plumtree<u32> = Plumtree::with_split(1, vec![2, 3], vec![], Config::default());
    let m = Message::Gossip {
        id: (9, 0),
        payload: b"p".to_vec(),
        round: 0,
    };
    n.on_message(2, m.clone());
    let _ = n.ready();
    n.on_message(3, m); // same message again, from 3
    assert_eq!(n.ready(), vec![Action::Send(3, Message::Prune)]);
    assert!(!n.eager().any(|&p| p == 3)); // 3 moved to lazy
}

#[test]
fn a_missing_message_is_grafted_after_the_timeout() {
    let mut n: Plumtree<u32> = Plumtree::with_split(1, vec![], vec![2], Config::default());
    n.on_message(2, Message::Ihave(vec![((7, 0), 0)]));
    n.tick(100); // before the timeout
    assert!(n.ready().is_empty());
    n.tick(600); // after it
    assert_eq!(
        n.ready(),
        vec![Action::Send(2, Message::Graft(Some((7, 0))))]
    );
}

#[test]
fn a_graft_is_answered_with_the_cached_payload() {
    let mut n: Plumtree<u32> = Plumtree::with_split(1, vec![2], vec![], Config::default());
    n.broadcast(b"p".to_vec()); // id (1,0) is now cached
    let _ = n.ready();
    n.on_message(8, Message::Graft(Some((1, 0))));
    assert_eq!(
        n.ready(),
        vec![Action::Send(
            8,
            Message::Gossip {
                id: (1, 0),
                payload: b"p".to_vec(),
                round: 1
            }
        )]
    );
    assert!(n.eager().any(|&p| p == 8)); // grafted
}

#[test]
fn a_departing_peer_is_dropped_and_its_queued_sends_are_scrubbed() {
    let mut n: Plumtree<u32> = Plumtree::with_split(1, vec![2, 3], vec![4], Config::default());
    n.broadcast(b"x".to_vec()); // queues Sends to 2 and 3
    n.membership(&[], &[3, 4]); // 3 leaves
    assert!(!n.eager().any(|&p| p == 3));
    // The queued Send to the departed peer 3 is gone; the Send to 2 stays.
    let a = n.ready();
    assert!(a.iter().all(|x| !matches!(x, Action::Send(3, _))));
    assert!(a.iter().any(|x| matches!(x, Action::Send(2, _))));
}

#[test]
fn a_down_peer_is_routed_around_then_restored_by_up() {
    let mut n: Plumtree<u32> = Plumtree::with_split(1, vec![2, 3], vec![4], Config::default());
    n.down(&[2]); // peer 2 unreachable
    n.broadcast(b"x".to_vec());
    let a = n.ready();
    // Nothing goes to the down peer 2; the other eager peer 3 still gets it.
    assert!(a.iter().all(|x| !matches!(x, Action::Send(2, _))));
    assert!(a.iter().any(|x| matches!(x, Action::Send(3, _))));
    assert!(!n.eager().any(|&p| p == 2));

    n.up(&[2]); // reachable again -> lazy
    n.broadcast(b"y".to_vec());
    n.tick(1);
    let a = n.ready();
    // 2 hears about messages again, now as a lazy peer (via IHAVE).
    assert!(a
        .iter()
        .any(|x| matches!(x, Action::Send(2, Message::Ihave(_)))));
}

#[test]
fn a_message_from_a_down_peer_restores_it() {
    let mut n: Plumtree<u32> = Plumtree::with_split(1, vec![], vec![2], Config::default());
    n.down(&[2]);
    n.on_message(
        2,
        Message::Gossip {
            id: (2, 0),
            payload: b"p".to_vec(),
            round: 0,
        },
    );
    let _ = n.ready();
    assert!(n.eager().any(|&p| p == 2)); // grafted back in, no longer down
}

#[test]
fn new_picks_eager_peers_by_cost_and_introduces_itself() {
    let cfg = Config {
        fanout: 2,
        ..Config::default()
    };
    let peers = vec![(2, 0), (3, 0), (4, 0), (5, 0), (6, 1), (7, 1), (8, 2)];
    let mut n: Plumtree<u32> = Plumtree::new(1, peers, cfg);
    // Two of the cheapest, then one per other cost.
    assert_eq!(n.eager().copied().collect::<Vec<_>>(), vec![2, 3, 6, 8]);
    assert_eq!(n.lazy().copied().collect::<Vec<_>>(), vec![4, 5, 7]);
    let a = n.ready();
    assert!(a.contains(&Action::Send(2, Message::Graft(None))));
    assert!(a.contains(&Action::Send(4, Message::Ihave(vec![]))));
    // The other end takes a stranger as lazy, and a bare graft as eager.
    let mut m: Plumtree<u32> = Plumtree::with_split(4, vec![], vec![], Config::default());
    m.on_message(1, Message::Ihave(vec![]));
    assert!(m.lazy().any(|&p| p == 1));
    m.on_message(1, Message::Graft(None));
    assert!(m.eager().any(|&p| p == 1));
}

#[test]
fn a_lazy_peer_much_closer_to_the_source_replaces_the_eager_link() {
    // Eager peer 2, lazy peer 3. 3 announces the message at hop 0; 2 delivers it at hop 3.
    let mut n: Plumtree<u32> = Plumtree::with_split(1, vec![2], vec![3], Config::default());
    n.on_message(3, Message::Ihave(vec![((9, 0), 0)]));
    n.on_message(
        2,
        Message::Gossip {
            id: (9, 0),
            payload: b"m".to_vec(),
            round: 3,
        },
    );
    let a = n.ready();
    assert!(a.contains(&Action::Send(3, Message::Graft(None))));
    assert!(a.contains(&Action::Send(2, Message::Prune)));
    assert_eq!(n.eager().copied().collect::<Vec<_>>(), vec![3]);
    assert_eq!(n.lazy().copied().collect::<Vec<_>>(), vec![2]);
}

#[test]
fn the_swap_also_happens_when_the_announcement_comes_second() {
    let mut n: Plumtree<u32> = Plumtree::with_split(1, vec![2], vec![3], Config::default());
    n.on_message(
        2,
        Message::Gossip {
            id: (9, 0),
            payload: b"m".to_vec(),
            round: 3,
        },
    );
    let _ = n.ready();
    n.on_message(3, Message::Ihave(vec![((9, 0), 0)]));
    let a = n.ready();
    assert!(a.contains(&Action::Send(3, Message::Graft(None))));
    assert!(a.contains(&Action::Send(2, Message::Prune)));
}

#[test]
fn a_gap_under_the_threshold_leaves_the_tree_alone() {
    let mut n: Plumtree<u32> = Plumtree::with_split(1, vec![2], vec![3], Config::default());
    n.on_message(3, Message::Ihave(vec![((9, 0), 2)]));
    n.on_message(
        2,
        Message::Gossip {
            id: (9, 0),
            payload: b"m".to_vec(),
            round: 3,
        },
    );
    let a = n.ready();
    assert!(!a
        .iter()
        .any(|x| matches!(x, Action::Send(_, Message::Prune))));
    assert_eq!(n.eager().copied().collect::<Vec<_>>(), vec![2]);
}

#[test]
fn a_costlier_announcer_needs_a_bigger_gap() {
    // 3 is in another domain (cost 1): a gap of 2 is not enough, 3 is.
    let mut n: Plumtree<u32> = Plumtree::new(1, vec![(2, 0), (3, 1)], Config::default());
    n.on_message(3, Message::Prune); // make 3 lazy for the test
    n.on_message(3, Message::Ihave(vec![((9, 0), 1)]));
    n.on_message(
        2,
        Message::Gossip {
            id: (9, 0),
            payload: b"m".to_vec(),
            round: 3,
        },
    );
    let _ = n.ready();
    assert!(
        n.eager().any(|&p| p == 2),
        "gap 2 must not swap to a cost-1 peer"
    );
    n.on_message(3, Message::Ihave(vec![((9, 1), 0)]));
    n.on_message(
        2,
        Message::Gossip {
            id: (9, 1),
            payload: b"m".to_vec(),
            round: 3,
        },
    );
    let a = n.ready();
    assert!(
        a.contains(&Action::Send(3, Message::Graft(None))),
        "gap 3 swaps"
    );
}

#[test]
fn a_duplicate_over_a_cheaper_link_prunes_the_costly_one_instead() {
    // 2 is across a slow link (cost 10), 3 is local. The copy from 2 arrives first.
    let mut n: Plumtree<u32> = Plumtree::new(1, vec![(2, 10), (3, 0)], Config::default());
    let m = |id| Message::Gossip {
        id,
        payload: b"m".to_vec(),
        round: 1,
    };
    n.on_message(2, m((9, 0)));
    let _ = n.ready();
    n.on_message(3, m((9, 0)));
    let a = n.ready();
    assert_eq!(
        a,
        vec![Action::Send(2, Message::Prune)],
        "the slow link goes"
    );
    assert!(n.eager().any(|&p| p == 3));
    assert!(n.lazy().any(|&p| p == 2));
}

#[test]
fn a_cheaper_announcer_is_taken_even_on_a_longer_path() {
    // The eager copy came over a slow link (cost 10) at hop 1; a local lazy peer (cost 0)
    // announces it at hop 6. Five hops farther, ten hops cheaper: swap.
    let mut n: Plumtree<u32> = Plumtree::new(1, vec![(2, 10), (3, 0)], Config::default());
    n.on_message(3, Message::Prune);
    n.on_message(
        2,
        Message::Gossip {
            id: (9, 0),
            payload: b"m".to_vec(),
            round: 1,
        },
    );
    let _ = n.ready();
    n.on_message(3, Message::Ihave(vec![((9, 0), 6)]));
    let a = n.ready();
    assert!(a.contains(&Action::Send(3, Message::Graft(None))));
    assert!(a.contains(&Action::Send(2, Message::Prune)));
}

#[test]
fn a_costly_announcer_is_asked_its_cost_later() {
    // 2 announces over a cost-10 link; 3 (local) has not announced yet. The graft to 2
    // waits graft_timeout + 10, so a local copy has time to arrive.
    let cfg = Config {
        graft_timeout: 5,
        ..Config::default()
    };
    let mut n: Plumtree<u32> = Plumtree::new(1, vec![(2, 10), (3, 0)], cfg);
    let _ = n.ready(); // the introductions
    n.on_message(2, Message::Prune);
    n.on_message(3, Message::Prune);
    n.on_message(2, Message::Ihave(vec![((9, 0), 0)]));
    n.tick(14);
    assert!(n.ready().is_empty(), "not yet");
    n.on_message(3, Message::Ihave(vec![((9, 0), 3)]));
    n.tick(1);
    // 3's own wait is 5 from its announcement; 2's has run out. 2 goes first here.
    assert_eq!(
        n.ready(),
        vec![Action::Send(2, Message::Graft(Some((9, 0))))]
    );
}

#[test]
fn a_bare_graft_promotes_the_link_and_sends_nothing() {
    let mut n: Plumtree<u32> = Plumtree::with_split(1, vec![], vec![2], Config::default());
    n.on_message(2, Message::Graft(None));
    assert!(n.eager().any(|&p| p == 2));
    assert!(n.ready().is_empty());
}

#[test]
fn the_cheapest_announcer_is_grafted_first() {
    let mut n: Plumtree<u32> = Plumtree::new(1, vec![(2, 1), (3, 0)], Config::default());
    n.on_message(2, Message::Prune);
    n.on_message(3, Message::Prune);
    n.on_message(2, Message::Ihave(vec![((9, 0), 0)]));
    n.on_message(3, Message::Ihave(vec![((9, 0), 0)]));
    let _ = n.ready();
    n.tick(Config::default().graft_timeout);
    let a = n.ready();
    assert_eq!(a, vec![Action::Send(3, Message::Graft(Some((9, 0))))]);
}
