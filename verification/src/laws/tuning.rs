//! How the tree tunes itself: duplicates prune links, and shorter paths replace longer ones.
use vstd::prelude::*;

use crate::laws::effects;
use crate::laws::links;
use crate::message::{ActionView, MessageView, MsgId};
use crate::model;
use crate::model::State;
use crate::seqs;

verus! {

/// The bar for a swap, in hops: a copy came over an eager link at `round`, and a peer that is
/// not eager announces `lazy_round`. Each unit of cost that the announcer costs more raises the
/// bar by one, and each unit less lowers it.
pub proof fn swap_bar<Id: Ord>(s: State<Id>, via: Id, round: u16, lazy: Id, lazy_round: u16)
    requires
        lazy != via,
        !s.eager.contains(lazy),
        s.eager.contains(via),
        round + s.cost_of(via) <= u16::MAX,
        lazy_round + s.cost_of(lazy) <= u16::MAX,
    ensures
        s.swaps(
            via,
            model::farther(round, s.cost_of(via) as int),
            lazy,
            model::farther(lazy_round, s.cost_of(lazy) as int),
        ) <==> round - lazy_round >= s.cfg.swap_threshold + s.cost_of(lazy) - s.cost_of(via),
{
}

/// A message is here, over the eager link to `via`, and `from` announces it: if `from` is
/// closer to the source by the threshold, the two change places, and each is told; otherwise
/// nothing is sent, and nobody but a stranger becomes a peer.
pub proof fn announcement_swaps_links<Id: Ord>(
    s: State<Id>,
    from: Id,
    id: MsgId<Id>,
    round: u16,
)
    requires
        from != s.me,
        s.cache.contains_key(id),
    ensures
        ({
            let t = s.on_message(from, MessageView::Ihave(seq![(id, round)]));
            let here = model::farther(round, s.cost_of(from) as int);
            match s.cache[id].from {
                Some(via) if s.swaps(via, s.cache[id].round, from, here) => {
                    &&& t.eager == s.eager.insert(from).remove(via)
                    &&& t.lazy == s.lazy.remove(from).insert(via)
                    &&& t.outbound == s.outbound + seq![
                        ActionView::Send(from, MessageView::Graft(None)),
                        ActionView::Send(via, MessageView::Prune),
                    ]
                },
                _ => t == s.hear(from),
            }
        }),
{
    let heard = s.hear(from);
    let ids = seq![(id, round)];
    let t = s.on_message(from, MessageView::Ihave(ids));
    let here = model::farther(round, s.cost_of(from) as int);
    reveal_with_fuel(State::on_ihave, 2);
    assert(ids.drop_last() =~= Seq::empty());
    assert(t == heard.on_announced(from, id, round));
    if let Some(via) = s.cache[id].from {
        if s.swaps(via, s.cache[id].round, from, here) {
            assert(t.eager =~= s.eager.insert(from).remove(via));
            assert(t.lazy =~= s.lazy.remove(from).insert(via));
            assert(t.outbound =~= s.outbound + seq![
                ActionView::Send(from, MessageView::Graft(None)),
                ActionView::Send(via, MessageView::Prune),
            ]);
        }
    }
}

/// A message arrives for the first time, over a path longer by the threshold than that of an
/// announcer heard before: the first such announcer becomes eager in place of the sender, and
/// each is told. If there is no such announcer, the sender stays eager. (A node that announced
/// the message to itself does not become its own peer.)
pub proof fn first_copy_swaps_links<Id: Ord>(
    s: State<Id>,
    from: Id,
    id: MsgId<Id>,
    payload: Seq<u8>,
    round: u16,
    i: int,
)
    requires
        s.valid(),
        from != s.me,
        !s.cache.contains_key(id),
        0 <= i <= s.announcers(id).len(),
        ({
            let here = model::farther(round, s.cost_of(from) as int);
            let all = s.announcers(id);
            let closer = |j: int|
                all[j].peer != from && !s.eager.contains(all[j].peer) && here - all[j].round
                    >= s.cfg.swap_threshold;
            &&& forall|j: int| 0 <= j < i ==> !#[trigger] closer(j)
            &&& i < all.len() ==> closer(i)
        }),
    ensures
        ({
            let t = s.on_message(from, MessageView::Gossip { id, payload, round });
            let all = s.announcers(id);
            if i < all.len() {
                &&& t.eager == s.graft_in(all[i].peer).eager.remove(from)
                &&& t.lazy == s.graft_in(all[i].peer).lazy.insert(from)
                &&& t.outbound.len() >= 2
                &&& t.outbound[t.outbound.len() - 2] == ActionView::Send(
                    all[i].peer,
                    MessageView::Graft(None),
                )
                &&& t.outbound[t.outbound.len() - 1] == ActionView::Send(from, MessageView::Prune)
            } else {
                &&& t.eager == s.eager.insert(from)
                &&& t.lazy == s.lazy.remove(from)
            }
        }),
{
    let heard = s.hear(from);
    let here = model::farther(round, s.cost_of(from) as int);
    let all = s.announcers(id);
    let closer = |j: int|
        all[j].peer != from && !s.eager.contains(all[j].peer) && here - all[j].round
            >= s.cfg.swap_threshold;
    let b = heard.accept(from, id, payload, here);
    let worth = b.replaces(from, here);
    assert forall|j: int| 0 <= j < all.len() implies worth(#[trigger] all[j]) == closer(j) by {}
    assert forall|j: int| 0 <= j < i implies !worth(#[trigger] all[j]) by {
        assert(!closer(j));
    }
    seqs::lemma_first_where_is(all, worth, i);
    let t = s.on_message(from, MessageView::Gossip { id, payload, round });
    if i < all.len() {
        assert(t.eager =~= s.graft_in(all[i].peer).eager.remove(from));
        assert(t.lazy =~= s.graft_in(all[i].peer).lazy.insert(from));
    } else {
        assert(t.eager =~= s.eager.insert(from));
        assert(t.lazy =~= s.lazy.remove(from));
    }
}

/// A message that is here arrives once more. If the eager link over which it came costs more,
/// that link is pruned and the sender takes its place; otherwise the link to the sender is
/// pruned. Whoever is pruned is told, and nothing else is sent.
pub proof fn duplicate_prunes_one_link<Id: Ord>(
    s: State<Id>,
    from: Id,
    id: MsgId<Id>,
    payload: Seq<u8>,
    round: u16,
)
    requires
        from != s.me,
        s.cache.contains_key(id),
    ensures
        ({
            let t = s.on_message(from, MessageView::Gossip { id, payload, round });
            if s.is_cheaper(from, id) {
                let via = s.cache[id].from->Some_0;
                &&& t.eager == s.eager.insert(from).remove(via)
                &&& t.lazy == s.lazy.remove(from).insert(via)
                &&& t.outbound == s.outbound.push(ActionView::Send(via, MessageView::Prune))
                &&& t.cache[id].from == Some(from)
                &&& t.cache[id].round == model::farther(round, s.cost_of(from) as int)
            } else {
                &&& t.eager == s.eager.remove(from)
                &&& t.lazy == s.lazy.insert(from)
                &&& t.outbound == s.outbound.push(ActionView::Send(from, MessageView::Prune))
                &&& t.cache == s.cache
            }
        }),
{
    let t = s.on_message(from, MessageView::Gossip { id, payload, round });
    if s.is_cheaper(from, id) {
        let via = s.cache[id].from->Some_0;
        assert(t.eager =~= s.eager.insert(from).remove(via));
        assert(t.lazy =~= s.lazy.remove(from).insert(via));
        assert(t.outbound =~= s.outbound.push(ActionView::Send(via, MessageView::Prune)));
    } else {
        assert(t.eager =~= s.eager.remove(from));
        assert(t.lazy =~= s.lazy.insert(from));
        assert(t.outbound =~= s.outbound.push(ActionView::Send(from, MessageView::Prune)));
    }
}

/// Of two links that bring the same message the costlier one goes, and between equals the late
/// one: a message that came over the eager link to `via` comes again from anyone else, be it an
/// eager peer, a lazy one or a stranger. If the sender costs less, it is eager and `via` is lazy
/// and pruned; otherwise `via` stays, and the sender is lazy and pruned.
pub proof fn cheaper_link_wins<Id: Ord>(
    s: State<Id>,
    via: Id,
    from: Id,
    id: MsgId<Id>,
    payload: Seq<u8>,
    round: u16,
)
    requires
        from != s.me,
        from != via,
        s.cache.contains_key(id),
        s.cache[id].from == Some(via),
        s.eager.contains(via),
    ensures
        ({
            let t = s.on_message(from, MessageView::Gossip { id, payload, round });
            let cheaper = effects::price(s, from) < effects::price(s, via);
            &&& t.eager.contains(from) <==> cheaper
            &&& t.eager.contains(via) <==> !cheaper
            &&& cheaper ==> t.lazy.contains(via) && t.outbound == s.outbound.push(
                ActionView::Send(via, MessageView::Prune),
            )
            &&& !cheaper ==> t.lazy.contains(from) && t.outbound == s.outbound.push(
                ActionView::Send(from, MessageView::Prune),
            )
        }),
{
    duplicate_prunes_one_link(s, from, id, payload, round);
}

/// A link that is pruned is lazy at both ends once the prune has arrived.
pub proof fn prune_is_mutual<Id: Ord>(
    a: State<Id>,
    b: State<Id>,
    id: MsgId<Id>,
    payload: Seq<u8>,
    round: u16,
)
    requires
        a.me != b.me,
        b.cache.contains_key(id),
        !b.is_cheaper(a.me, id),
    ensures
        ({
            let pruned = b.on_message(a.me, MessageView::Gossip { id, payload, round });
            let told = a.on_message(b.me, MessageView::Prune);
            &&& pruned.outbound.last() == ActionView::Send(a.me, MessageView::Prune)
            &&& pruned.lazy.contains(a.me) && !pruned.eager.contains(a.me)
            &&& told.lazy.contains(b.me) && !told.eager.contains(b.me)
        }),
{
    duplicate_prunes_one_link(b, a.me, id, payload, round);
    links::bare_graft_and_prune(a, b.me);
}

/// Links that are swapped are the same from both ends once graft and prune have arrived: the
/// new link is eager, and the old one lazy.
pub proof fn swap_is_mutual<Id: Ord>(
    node: State<Id>,
    closer: State<Id>,
    old: State<Id>,
    id: MsgId<Id>,
    round: u16,
)
    requires
        node.me != closer.me,
        node.me != old.me,
        node.cache.contains_key(id),
        node.cache[id].from == Some(old.me),
        node.swaps(
            old.me,
            node.cache[id].round,
            closer.me,
            model::farther(round, node.cost_of(closer.me) as int),
        ),
    ensures
        ({
            let swapped = node.on_message(closer.me, MessageView::Ihave(seq![(id, round)]));
            let grafted = closer.on_message(node.me, MessageView::Graft(None));
            let pruned = old.on_message(node.me, MessageView::Prune);
            &&& swapped.outbound == node.outbound + seq![
                ActionView::Send(closer.me, MessageView::Graft(None)),
                ActionView::Send(old.me, MessageView::Prune),
            ]
            &&& swapped.eager.contains(closer.me) && !swapped.lazy.contains(closer.me)
            &&& grafted.eager.contains(node.me) && !grafted.lazy.contains(node.me)
            &&& swapped.lazy.contains(old.me) && !swapped.eager.contains(old.me)
            &&& pruned.lazy.contains(node.me) && !pruned.eager.contains(node.me)
        }),
{
    announcement_swaps_links(node, closer.me, id, round);
    links::bare_graft_and_prune(closer, node.me);
    links::bare_graft_and_prune(old, node.me);
}

} // verus!
