# plumtree_fsm

A pure Plumtree state machine for epidemic broadcast, verified with Verus. No IO, no clock: you
feed it events, it returns actions. A caller runs the actions and supplies the clock.

Each node keeps two sets of peers. **Eager** peers get the full message (`Gossip`). **Lazy** peers
get only its id and distance (`Ihave`). A node that is missing a message asks an announcer for it
with a `Graft`, which also makes that link eager. A node that receives the same message twice
removes the redundant link with a `Prune`. The eager links settle into a spanning tree; the lazy
links stay ready to repair it.

```rust
use plumtree_fsm::{Config, Plumtree};

let peers = vec![(2, 0), (3, 0), (4, 0), (5, 0), (6, 10), (7, 10)];
let mut node = Plumtree::new(1u32, peers, Config::default());
let _ = node.ready(); // the introductions: send them like any other action
```

## Layout

- `src/message.rs`: messages, actions and the tuning.
- `src/model.rs`: the state of a node as a mathematical value, and what each input does to it.
- `src/node.rs`: the executable node. Every contract says which state the call leads to.
- `src/validity.rs`: every input takes a valid state to a valid state.
- `src/history.rs`: sequences of calls on a node.
- `src/laws/`: what holds of a node as a whole: the queue, links and liveness, the cache, delivery,
  recovery, the tuning of the tree, the start.
- `src/order.rs`, `src/seqs.rs`, `src/first_links.rs`: the order on ids, and lemmas.
- `tests/`: one node, many nodes, and the laws on concrete values.

## What a caller owes

The id type must be a `lawful_id`: its order is total and agrees with `==`, and a clone of an id
equals the id. Integers are (`order::integers_are_lawful`). The other conditions are limits of the
machine: the sequence number and the times that a node computes must fit in 64 bits.
