//! Rooms and the deliveries that a broadcast to a room produces.

use std::collections::HashMap;
use vstd::prelude::*;

use crate::ids::SessionId;

verus! {

broadcast use vstd::std_specs::hash::group_hash_axioms;

/// One text message to be pushed to one session's sink.
#[derive(Clone, Debug, PartialEq, Eq)]
pub struct Delivery {
    pub to: SessionId,
    pub text: String,
}

/// The sessions that the deliveries `ds` go to.
pub open spec fn recipients(ds: Seq<Delivery>) -> Set<SessionId> {
    Set::new(|id: SessionId| exists|i: int| 0 <= i < ds.len() && (#[trigger] ds[i]).to == id)
}

/// `ds` pushes `text` once to each session of `audience`, and to nobody else.
pub open spec fn delivers_once(ds: Seq<Delivery>, audience: Set<SessionId>, text: Seq<char>) -> bool {
    &&& forall|i: int| 0 <= i < ds.len() ==> (#[trigger] ds[i]).text@ == text
    &&& forall|i: int, j: int|
        0 <= i < ds.len() && 0 <= j < ds.len() && i != j ==> (#[trigger] ds[i]).to != (#[trigger] ds[j]).to
    &&& recipients(ds) == audience
}

/// Those of `members` other than `skip` that have a sink in `registry`.
pub open spec fn reachable<S>(members: Set<SessionId>, skip: SessionId, registry: Map<SessionId, S>) -> Set<SessionId> {
    members.remove(skip).filter(|id: SessionId| registry.contains_key(id))
}

/// A named room and the sessions in it, each listed once.
pub(crate) struct Room {
    pub(crate) name: String,
    pub(crate) members: Vec<SessionId>,
}

impl Room {
    pub(crate) open spec fn wf(&self) -> bool {
        self.members@.no_duplicates()
    }

    pub(crate) open spec fn member_set(&self) -> Set<SessionId> {
        self.members@.to_set()
    }

    /// An empty room called `name`.
    pub(crate) fn empty(name: String) -> (r: Room)
        ensures
            r.wf(),
            r.name@ == name@,
            r.member_set() == Set::<SessionId>::empty(),
    {
        let r = Room { name, members: Vec::new() };
        assert(r.member_set() =~= Set::<SessionId>::empty());
        r
    }

    /// Where `id` stands in the member list, if it is there.
    fn position(&self, id: SessionId) -> (r: Option<usize>)
        ensures
            match r {
                Some(i) => i < self.members@.len() && self.members@[i as int] == id,
                None => !self.members@.contains(id),
            },
    {
        let n = self.members.len();
        let mut i: usize = 0;
        while i < n
            invariant
                n == self.members.len(),
                i <= n,
                forall|k: int| 0 <= k < i ==> self.members@[k] != id,
            decreases n - i,
        {
            if self.members[i] == id {
                return Some(i);
            }
            i = i + 1;
        }
        None
    }

    /// Takes `id` out of the room; says whether it was in.
    pub(crate) fn remove_member(&mut self, id: SessionId) -> (was_in: bool)
        requires
            old(self).wf(),
        ensures
            final(self).wf(),
            final(self).name == old(self).name,
            final(self).member_set() == old(self).member_set().remove(id),
            was_in == old(self).member_set().contains(id),
    {
        match self.position(id) {
            None => {
                assert(self.member_set() =~= self.member_set().remove(id));
                false
            },
            Some(i) => {
                let ghost before = self.members@;
                self.members.remove(i);
                proof {
                    assert forall|a: int, b: int|
                        0 <= a < self.members@.len() && 0 <= b < self.members@.len() && a != b
                        implies self.members@[a] != self.members@[b] by {
                        let a0 = if a < i { a } else { a + 1 };
                        let b0 = if b < i { b } else { b + 1 };
                        assert(before[a0] != before[b0]);
                    }
                    assert forall|x: SessionId|
                        #[trigger] self.member_set().contains(x) <==> before.to_set().remove(id).contains(x) by {
                        if self.member_set().contains(x) {
                            let a = choose|a: int| 0 <= a < self.members@.len() && self.members@[a] == x;
                            let a0 = if a < i { a } else { a + 1 };
                            assert(before[a0] == x);
                            assert(a0 != i);
                        }
                        if before.to_set().remove(id).contains(x) {
                            let a0 = choose|a0: int| 0 <= a0 < before.len() && before[a0] == x;
                            assert(a0 != i);
                            let a = if a0 < i { a0 } else { a0 - 1 };
                            assert(self.members@[a] == x);
                        }
                    }
                    assert(self.member_set() =~= before.to_set().remove(id));
                }
                true
            },
        }
    }

    /// Puts `id` into the room, unless it is in already.
    pub(crate) fn add_member(&mut self, id: SessionId)
        requires
            old(self).wf(),
        ensures
            final(self).wf(),
            final(self).name == old(self).name,
            final(self).member_set() == old(self).member_set().insert(id),
    {
        if self.position(id).is_some() {
            assert(self.member_set() =~= self.member_set().insert(id));
            return;
        }
        let ghost before = self.members@;
        let n = self.members.len();
        self.members.push(id);
        proof {
            assert forall|x: SessionId|
                #[trigger] self.member_set().contains(x) <==> before.to_set().insert(id).contains(x) by {
                if self.member_set().contains(x) && x != id {
                    let a = choose|a: int| 0 <= a < self.members@.len() && self.members@[a] == x;
                    assert(before[a] == x);
                }
                if before.to_set().contains(x) {
                    let a = choose|a: int| 0 <= a < before.len() && before[a] == x;
                    assert(self.members@[a] == x);
                }
                if x == id {
                    assert(self.members@[n as int] == x);
                }
            }
            assert(self.member_set() =~= before.to_set().insert(id));
        }
    }

    /// Appends to `out` one delivery of `text` to each member other than
    /// `skip` that has a sink in `sessions`.
    pub(crate) fn broadcast_into<S>(
        &self,
        sessions: &HashMap<SessionId, S>,
        text: &String,
        skip: SessionId,
        out: &mut Vec<Delivery>,
    )
        requires
            self.wf(),
        ensures
            final(out)@.len() >= old(out)@.len(),
            final(out)@.subrange(0, old(out)@.len() as int) == old(out)@,
            delivers_once(
                final(out)@.subrange(old(out)@.len() as int, final(out)@.len() as int),
                reachable(self.member_set(), skip, sessions@),
                text@,
            ),
    {
        let ghost start = out@.len() as int;
        let ghost pos: Seq<int> = Seq::empty();
        let n = self.members.len();
        let mut j: usize = 0;
        while j < n
            invariant
                n == self.members.len(),
                self.wf(),
                j <= n,
                start == old(out)@.len(),
                start <= out@.len(),
                out@.subrange(0, start) == old(out)@,
                pos.len() == out@.len() - start,
                forall|a: int, b: int| 0 <= a < b < pos.len() ==> pos[a] < pos[b],
                forall|a: int|
                    0 <= a < pos.len() ==> {
                        &&& 0 <= #[trigger] pos[a] < j
                        &&& out@[start + a].to == self.members@[pos[a]]
                        &&& out@[start + a].text@ == text@
                        &&& self.members@[pos[a]] != skip
                        &&& sessions@.contains_key(self.members@[pos[a]])
                    },
                forall|k: int|
                    0 <= k < j && #[trigger] self.members@[k] != skip && sessions@.contains_key(
                        self.members@[k],
                    ) ==> exists|a: int| 0 <= a < pos.len() && pos[a] == k,
            decreases n - j,
        {
            let m = self.members[j];
            if m != skip && sessions.contains_key(&m) {
                let t = text.clone();
                let ghost prev = out@;
                out.push(Delivery { to: m, text: t });
                proof {
                    assert(out@.subrange(0, start) =~= prev.subrange(0, start));
                    assert forall|a: int| 0 <= a < pos.len() implies #[trigger] out@[start + a] == prev[start + a] by {}
                    let old_pos = pos;
                    pos = pos.push(j as int);
                    assert forall|k: int|
                        0 <= k < j + 1 && #[trigger] self.members@[k] != skip
                            && sessions@.contains_key(self.members@[k]) implies exists|a: int|
                        0 <= a < pos.len() && pos[a] == k by {
                        if k < j {
                            let a = choose|a: int| 0 <= a < old_pos.len() && old_pos[a] == k;
                            assert(pos[a] == k);
                        } else {
                            assert(pos[old_pos.len() as int] == k);
                        }
                    }
                }
            }
            j = j + 1;
        }
        proof {
            let ds = out@.subrange(start, out@.len() as int);
            let aud = reachable(self.member_set(), skip, sessions@);
            assert forall|a: int, b: int|
                0 <= a < ds.len() && 0 <= b < ds.len() && a != b implies (#[trigger] ds[a]).to != (
                #[trigger] ds[b]).to by {
                assert(ds[a] == out@[start + a]);
                assert(ds[b] == out@[start + b]);
                assert(pos[a] != pos[b]);
            }
            assert forall|a: int| 0 <= a < ds.len() implies (#[trigger] ds[a]).text@ == text@ by {
                assert(ds[a] == out@[start + a]);
                assert(0 <= pos[a]);
            }
            assert forall|x: SessionId| #[trigger] recipients(ds).contains(x) <==> aud.contains(x) by {
                if recipients(ds).contains(x) {
                    let a = choose|a: int| 0 <= a < ds.len() && (#[trigger] ds[a]).to == x;
                    assert(ds[a] == out@[start + a]);
                    assert(self.members@[pos[a]] == x);
                }
                if aud.contains(x) {
                    let k = choose|k: int| 0 <= k < self.members@.len() && self.members@[k] == x;
                    let a = choose|a: int| 0 <= a < pos.len() && pos[a] == k;
                    assert(ds[a] == out@[start + a]);
                }
            }
            assert(recipients(ds) =~= aud);
        }
    }
}

} // verus!
