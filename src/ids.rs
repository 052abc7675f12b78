//! Session identities.

use std::collections::HashMap;
use vstd::prelude::*;

verus! {

broadcast use vstd::std_specs::hash::group_hash_axioms;

/// A session identity: the 128 bits of a random (version 4) UUID.
pub type SessionId = u128;

/// Relies on `uuid::Uuid::new_v4` and `uuid::Uuid::as_u128`: a random identity,
/// of which nothing is promised. `new_v4` panics only where the system gives
/// no random bytes, which this library does not model.
#[verifier::external_body]
pub(crate) fn draw_session_id() -> (r: SessionId) {
    uuid::Uuid::new_v4().as_u128()
}

/// Every identity below `k` is in `dom`.
pub open spec fn holds_all_below(dom: Set<SessionId>, k: SessionId) -> bool {
    forall|j: SessionId| j < k ==> #[trigger] dom.contains(j)
}

/// `id` is the smallest identity that `dom` does not hold.
pub open spec fn is_lowest_free(dom: Set<SessionId>, id: SessionId) -> bool {
    !dom.contains(id) && holds_all_below(dom, id)
}

/// A finite set that holds every identity below `k` has at least `k` elements.
proof fn lemma_prefix_bound(dom: Set<SessionId>, k: SessionId)
    requires
        dom.finite(),
        holds_all_below(dom, k),
    ensures
        k <= dom.len(),
    decreases k,
{
    if k > 0 {
        let top = (k - 1) as SessionId;
        let rest = dom.remove(top);
        assert(holds_all_below(rest, top)) by {
            assert forall|j: SessionId| j < top implies #[trigger] rest.contains(j) by {
                assert(dom.contains(j));
            }
        }
        lemma_prefix_bound(rest, top);
    }
}

/// The smallest identity that no session in `sessions` holds.
pub(crate) fn lowest_free_id<S>(sessions: &HashMap<SessionId, S>) -> (r: SessionId)
    ensures
        is_lowest_free(sessions@.dom(), r),
{
    let mut k: SessionId = 0;
    while sessions.contains_key(&k)
        invariant
            holds_all_below(sessions@.dom(), k),
            sessions@.dom().finite(),
            sessions@.dom().len() == sessions.len(),
        decreases sessions@.dom().len() - k,
    {
        proof {
            lemma_prefix_bound(sessions@.dom(), k);
            assert(holds_all_below(sessions@.dom(), (k + 1) as SessionId)) by {
                assert forall|j: SessionId| j < k + 1 implies #[trigger] sessions@.dom().contains(
                    j,
                ) by {
                    if j < k {
                        assert(sessions@.dom().contains(j));
                    }
                }
            }
            lemma_prefix_bound(sessions@.dom(), (k + 1) as SessionId);
        }
        k = k + 1;
    }
    k
}

} // verus!
