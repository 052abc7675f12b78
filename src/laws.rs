//! Properties of the broker that relate several of its operations.

use vstd::prelude::*;

use crate::ids::SessionId;
use crate::room::{delivers_once, recipients, Delivery};
use crate::server::{connect_step, disconnect_step, join_step, BrokerState};

verus! {

/// Along a run of connects, each identity stays registered once handed out.
proof fn lemma_connect_keeps<S>(
    states: Seq<BrokerState<S>>,
    ids: Seq<SessionId>,
    sinks: Seq<S>,
    i: int,
    j: int,
)
    requires
        states.len() == ids.len() + 1,
        sinks.len() == ids.len(),
        forall|k: int|
            0 <= k < ids.len() ==> #[trigger] connect_step(states[k], states[k + 1], ids[k], sinks[k]),
        0 <= i < j <= ids.len(),
    ensures
        states[j].registry.contains_key(ids[i]),
    decreases j - i,
{
    let k = j - 1;
    assert(connect_step(states[k], states[k + 1], ids[k], sinks[k]));
    if i < j - 1 {
        lemma_connect_keeps(states, ids, sinks, i, j - 1);
    }
}

/// Sessions that connect one after another get pairwise distinct identities.
pub proof fn connects_are_distinct<S>(states: Seq<BrokerState<S>>, ids: Seq<SessionId>, sinks: Seq<S>)
    requires
        states.len() == ids.len() + 1,
        sinks.len() == ids.len(),
        forall|k: int|
            0 <= k < ids.len() ==> #[trigger] connect_step(states[k], states[k + 1], ids[k], sinks[k]),
    ensures
        forall|i: int, j: int|
            0 <= i < ids.len() && 0 <= j < ids.len() && i != j ==> ids[i] != ids[j],
{
    assert forall|i: int, j: int|
        0 <= i < ids.len() && 0 <= j < ids.len() && i != j implies ids[i] != ids[j] by {
        let (lo, hi) = if i < j {
            (i, j)
        } else {
            (j, i)
        };
        lemma_connect_keeps(states, ids, sinks, lo, hi);
        assert(connect_step(states[hi], states[hi + 1], ids[hi], sinks[hi]));
    }
}

/// After a disconnect the session is neither registered nor in any room, and
/// no later broadcast, to any room, reaches it.
pub proof fn disconnect_purges<S>(pre: BrokerState<S>, post: BrokerState<S>, id: SessionId)
    requires
        disconnect_step(pre, post, id),
    ensures
        !post.registry.contains_key(id),
        forall|room: Seq<char>| !(#[trigger] post.members(room)).contains(id),
        forall|room: Seq<char>, skip: SessionId, text: Seq<char>, ds: Seq<Delivery>|
            #[trigger] delivers_once(ds, post.audience(room, skip), text) ==> !recipients(
                ds,
            ).contains(id),
{
}

/// A connected session that joins one room and then another is a member of
/// the second only.
pub proof fn join_leaves_former_room<S>(
    s0: BrokerState<S>,
    s1: BrokerState<S>,
    s2: BrokerState<S>,
    id: SessionId,
    a: Seq<char>,
    b: Seq<char>,
)
    requires
        s0.registry.contains_key(id),
        join_step(s0, s1, id, a),
        join_step(s1, s2, id, b),
        a != b,
    ensures
        s2.is_in_room(id, b),
        !s2.is_in_room(id, a),
{
}

/// A broadcast never reaches the session that it skips, member or not.
pub proof fn sender_never_hears_itself<S>(
    state: BrokerState<S>,
    room: Seq<char>,
    id: SessionId,
    text: Seq<char>,
    ds: Seq<Delivery>,
)
    requires
        delivers_once(ds, state.audience(room, id), text),
    ensures
        !recipients(ds).contains(id),
{
}

/// A broadcast to a room that does not exist delivers nothing.
pub proof fn unknown_room_reaches_nobody<S>(
    state: BrokerState<S>,
    room: Seq<char>,
    skip: SessionId,
    text: Seq<char>,
    ds: Seq<Delivery>,
)
    requires
        !state.directory.contains_key(room),
        delivers_once(ds, state.audience(room, skip), text),
    ensures
        ds.len() == 0,
{
    if ds.len() > 0 {
        assert(recipients(ds).contains(ds[0].to));
    }
}

} // verus!
