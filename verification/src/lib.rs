//! A pure Plumtree state machine for epidemic broadcast.
//!
//! Plumtree spreads a message to every node over a spanning tree, and repairs the tree with
//! lazy gossip when a message is lost. It gives tree-cost delivery (one full message per edge)
//! with gossip-level resilience. The tree is that of Leitão, Pereira and Rodrigues, *Epidemic
//! Broadcast Trees*, IEEE SRDS 2007.
//!
//! This crate is the algorithm only: it reads no clock and no socket. What each call does is
//! stated in its contract as a function on a mathematical [`State`](model::State). What that is
//! for each part of the state stands in [`laws::effects`], and what follows for a node as a whole
//! in the other [`laws`].
//!
//! # Driving it
//!
//! Every input ([`broadcast`](Plumtree::broadcast), [`on_message`](Plumtree::on_message),
//! [`tick`](Plumtree::tick), [`membership`](Plumtree::membership), [`down`](Plumtree::down),
//! [`up`](Plumtree::up)) changes the state and appends to one FIFO queue. You drain the queue
//! with [`ready`](Plumtree::ready) and run the [`Action`]s in order.
//!
//! You do **not** have to drain between inputs. Call several inputs, then drain once; their
//! outputs concatenate in call order. No input reads the queue, so nothing depends on when you
//! process it ([`laws::queue`]).
//!
//! Draining is **edge-triggered**. The three inputs that can produce output (`broadcast`,
//! `on_message`, `tick`) return `true` only when they took the queue from empty to non-empty.
//! That is the moment to wake whoever drains. `membership`, `down` and `up` only ever remove
//! queued sends, so they cannot wake anyone. The drainer must always drain to empty, which
//! `ready` does.
//!
//! # Membership and liveness
//!
//! Two different things change the peer set, and they are separate calls ([`laws::links`]):
//!
//! - [`membership`](Plumtree::membership): a node **joined** the cluster or **left for good**. A
//!   joined node is only known here, at its cost; it becomes a peer when it introduces itself. A
//!   left node is forgotten entirely.
//! - [`down`](Plumtree::down) / [`up`](Plumtree::up): a member became **unreachable** or
//!   **reachable** again. A down node is set aside, so the tree routes around it, but it is kept
//!   and returns on `up`, or as soon as any message from it arrives.
//!
//! In both cases, any queued `Send` to an excluded node is dropped.
//!
//! # The shape of the tree
//!
//! Plumtree has **no single root**. Each broadcast spreads from its own source over the shared
//! eager/lazy mesh, and the mesh tunes itself to whoever is sending ([`laws::tuning`]): a node
//! that hears of a message from a peer [`Config::swap_threshold`] closer to the source than its
//! eager copy makes that peer eager and the old link lazy.
//!
//! Each peer has a [`Cost`], chosen by the caller: 0 for the same failure domain, more for
//! another. A hop over a link of cost `c` counts `c` extra. The tree starts with
//! [`Config::fanout`] cheap eager peers and one eager peer per other cost ([`laws::start`]), and
//! grafts the cheapest announcer first ([`laws::recovery`]).
//!
//! # Loss
//!
//! A graft recovers a message that the eager tree dropped, as long as one lazy peer announced it.
//! If every announcer is unreachable, that one message is lost. So do not rely on any single
//! broadcast: carry state that merges, broadcast it again on a timer, and merge on receipt.
//!
//! # Example
//!
//! ```
//! use plumtree_fsm::{Plumtree, Message, Action, Config};
//!
//! // Node 1 among peers 2..=5 in its own domain (cost 0) and 6 in another (cost 1). With the
//! // default fanout of 3, peers 2, 3, 4 and 6 start eager and 5 starts lazy.
//! let peers = vec![(2, 0), (3, 0), (4, 0), (5, 0), (6, 1)];
//! let mut n: Plumtree<u32> = Plumtree::new(1, peers, Config::default());
//! let _ = n.ready(); // the introductions to its peers
//! n.broadcast(b"hello".to_vec());
//! let actions = n.ready();
//! // A full push to each eager peer.
//! assert!(actions.iter().any(|a| matches!(a, Action::Send(2, Message::Gossip { .. }))));
//! assert!(actions.iter().any(|a| matches!(a, Action::Send(6, Message::Gossip { .. }))));
//! assert!(!actions.iter().any(|a| matches!(a, Action::Send(5, _))));
//! ```
pub mod first_links;
pub mod history;
pub mod laws;
pub mod message;
pub mod model;
pub mod node;
pub mod order;
pub mod seqs;
pub mod validity;

pub use crate::message::{Action, Config, Cost, Message, MsgId};
pub use crate::node::Plumtree;
