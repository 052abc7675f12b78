//! The broker: a registry of sessions and a directory of rooms, changed one
//! event at a time.

use std::collections::HashMap;
use vstd::pervasive::VecAdditionalExecFns;
use vstd::prelude::*;

use crate::ids::{draw_session_id, is_lowest_free, lowest_free_id, SessionId};
use crate::room::{delivers_once, reachable, recipients, Delivery, Room};

verus! {

broadcast use vstd::std_specs::hash::group_hash_axioms;

/// The broker as a mathematical value.
pub struct BrokerState<S> {
    /// The sink of each connected session.
    pub registry: Map<SessionId, S>,
    /// The members of each room that was ever joined.
    pub directory: Map<Seq<char>, Set<SessionId>>,
}

impl<S> BrokerState<S> {
    /// `id` is a member of the room `room`.
    pub open spec fn is_in_room(self, id: SessionId, room: Seq<char>) -> bool {
        self.directory.contains_key(room) && self.directory[room].contains(id)
    }

    /// Every room member is connected, and no session is in two rooms.
    pub open spec fn is_consistent(self) -> bool {
        &&& forall|room: Seq<char>, id: SessionId|
            #[trigger] self.is_in_room(id, room) ==> self.registry.contains_key(id)
        &&& forall|a: Seq<char>, b: Seq<char>, id: SessionId|
            #[trigger] self.is_in_room(id, a) && #[trigger] self.is_in_room(id, b) ==> a == b
    }

    /// The members of `room`; none where the room is unknown.
    pub open spec fn members(self, room: Seq<char>) -> Set<SessionId> {
        if self.directory.contains_key(room) {
            self.directory[room]
        } else {
            Set::empty()
        }
    }

    /// Whom a broadcast to `room` that skips `skip` reaches.
    pub open spec fn audience(self, room: Seq<char>, skip: SessionId) -> Set<SessionId> {
        reachable(self.members(room), skip, self.registry)
    }

    /// Whom the departure of `id` from the rooms it is in is told to.
    pub open spec fn companions(self, id: SessionId) -> Set<SessionId> {
        Set::new(
            |x: SessionId|
                exists|room: Seq<char>| #[trigger]
                    self.is_in_room(id, room) && self.audience(room, id).contains(x),
        )
    }

    /// The directory with `id` taken out of every room; the rooms stay.
    pub open spec fn without(self, id: SessionId) -> Map<Seq<char>, Set<SessionId>> {
        self.directory.map_values(|m: Set<SessionId>| m.remove(id))
    }

    /// The directory after `id` has moved into `room`.
    pub open spec fn moved(self, id: SessionId, room: Seq<char>) -> Map<Seq<char>, Set<SessionId>> {
        let d = self.without(id);
        let before = if d.contains_key(room) {
            d[room]
        } else {
            Set::empty()
        };
        d.insert(room, before.insert(id))
    }
}

/// A state whose memberships all hold in a consistent state, each of a
/// connected session, is consistent.
proof fn lemma_consistent_shrink<S>(pre: BrokerState<S>, post: BrokerState<S>)
    requires
        pre.is_consistent(),
        forall|room: Seq<char>, id: SessionId|
            #[trigger] post.is_in_room(id, room) ==> pre.is_in_room(id, room)
                && post.registry.contains_key(id),
    ensures
        post.is_consistent(),
{
    assert forall|a: Seq<char>, b: Seq<char>, id: SessionId|
        #[trigger] post.is_in_room(id, a) && #[trigger] post.is_in_room(id, b) implies a == b by {
        assert(pre.is_in_room(id, a));
        assert(pre.is_in_room(id, b));
    }
}

/// `post` is `pre` with a new session `id`, whose sink is `sink`.
pub open spec fn connect_step<S>(pre: BrokerState<S>, post: BrokerState<S>, id: SessionId, sink: S) -> bool {
    &&& !pre.registry.contains_key(id)
    &&& post.registry == pre.registry.insert(id, sink)
    &&& post.directory == pre.directory
}

/// `post` is `pre` with session `id` gone from the registry and every room.
pub open spec fn disconnect_step<S>(pre: BrokerState<S>, post: BrokerState<S>, id: SessionId) -> bool {
    &&& post.registry == pre.registry.remove(id)
    &&& post.directory == pre.without(id)
}

/// `post` is `pre` after session `id` asked to join `room`.
pub open spec fn join_step<S>(pre: BrokerState<S>, post: BrokerState<S>, id: SessionId, room: Seq<char>) -> bool {
    &&& post.registry == pre.registry
    &&& pre.registry.contains_key(id) ==> post.directory == pre.moved(id, room)
    &&& !pre.registry.contains_key(id) ==> post.directory == pre.directory
}

/// The text told to a room that a session leaves.
pub open spec fn left_notice() -> Seq<char> {
    "Someone disconnected"@
}

/// The text told to a room that a session joins.
pub open spec fn joined_notice() -> Seq<char> {
    "Someone connected"@
}

/// The session registry and the room directory, with their sinks of type `S`.
pub struct ChatServer<S> {
    sessions: HashMap<SessionId, S>,
    rooms: Vec<Room>,
    directory: Ghost<Map<Seq<char>, Set<SessionId>>>,
}

impl<S> View for ChatServer<S> {
    type V = BrokerState<S>;

    closed spec fn view(&self) -> BrokerState<S> {
        BrokerState { registry: self.sessions@, directory: self.directory@ }
    }
}

impl<S> ChatServer<S> {
    /// The room list stands for the directory: one room per name.
    closed spec fn rooms_match(&self) -> bool {
        &&& forall|i: int|
            0 <= i < self.rooms@.len() ==> {
                &&& (#[trigger] self.rooms@[i]).wf()
                &&& self.directory@.contains_key(self.rooms@[i].name@)
                &&& self.directory@[self.rooms@[i].name@] == self.rooms@[i].member_set()
            }
        &&& forall|i: int, j: int|
            0 <= i < self.rooms@.len() && 0 <= j < self.rooms@.len() && i != j
                ==> (#[trigger] self.rooms@[i]).name@ != (#[trigger] self.rooms@[j]).name@
        &&& forall|room: Seq<char>|
            #[trigger] self.directory@.contains_key(room) ==> exists|i: int|
                0 <= i < self.rooms@.len() && (#[trigger] self.rooms@[i]).name@ == room
    }

    /// The broker's invariant.
    pub closed spec fn wf(&self) -> bool {
        self.rooms_match() && self@.is_consistent()
    }

    /// In a well-formed broker every room member is connected and no session
    /// is in two rooms.
    pub proof fn lemma_consistent(&self)
        requires
            self.wf(),
        ensures
            self@.is_consistent(),
    {
    }

    /// A broker with no session and no room.
    pub fn new() -> (r: Self)
        ensures
            r.wf(),
            r@.registry == Map::<SessionId, S>::empty(),
            r@.directory == Map::<Seq<char>, Set<SessionId>>::empty(),
    {
        ChatServer { sessions: HashMap::new(), rooms: Vec::new(), directory: Ghost(Map::empty()) }
    }

    /// The sink of session `id`, if it is connected.
    pub fn lookup(&self, id: &SessionId) -> (r: Option<&S>)
        ensures
            match r {
                Some(s) => self@.registry.contains_key(*id) && self@.registry[*id] == *s,
                None => !self@.registry.contains_key(*id),
            },
    {
        self.sessions.get(id)
    }

    /// Registers `sink` under `candidate`, or, where a live session holds
    /// `candidate` already, under the smallest identity that none holds.
    pub fn connect_with(&mut self, candidate: SessionId, sink: S) -> (id: SessionId)
        requires
            old(self).wf(),
        ensures
            final(self).wf(),
            !old(self)@.registry.contains_key(candidate) ==> id == candidate,
            old(self)@.registry.contains_key(candidate) ==> is_lowest_free(
                old(self)@.registry.dom(),
                id,
            ),
            connect_step(old(self)@, final(self)@, id, sink),
    {
        let id = if self.sessions.contains_key(&candidate) {
            lowest_free_id(&self.sessions)
        } else {
            candidate
        };
        self.sessions.insert(id, sink);
        proof {
            assert forall|a: Seq<char>, x: SessionId|
                #[trigger] self@.is_in_room(x, a) implies old(self)@.is_in_room(x, a)
                && self@.registry.contains_key(x) by {
                assert(old(self)@.is_in_room(x, a));
            }
            lemma_consistent_shrink(old(self)@, self@);
            assert(self.rooms@ == old(self).rooms@);
            assert(old(self).rooms_match());
        }
        id
    }

    /// Registers `sink` under a fresh random identity and returns it.
    pub fn connect(&mut self, sink: S) -> (id: SessionId)
        requires
            old(self).wf(),
        ensures
            final(self).wf(),
            connect_step(old(self)@, final(self)@, id, sink),
    {
        let candidate = draw_session_id();
        self.connect_with(candidate, sink)
    }

    /// Takes `id` out of every room; returns the index of the room it was
    /// in, if any.
    fn purge(&mut self, id: SessionId) -> (left: Option<usize>)
        requires
            old(self).wf(),
        ensures
            final(self).wf(),
            final(self)@.registry == old(self)@.registry,
            final(self)@.directory == old(self)@.without(id),
            final(self).rooms@.len() == old(self).rooms@.len(),
            forall|i: int|
                0 <= i < final(self).rooms@.len() ==> (#[trigger] final(self).rooms@[i]).name
                    == old(self).rooms@[i].name,
            match left {
                Some(k) => k < final(self).rooms@.len() && old(self)@.is_in_room(
                    id,
                    final(self).rooms@[k as int].name@,
                ),
                None => forall|room: Seq<char>| !(#[trigger] old(self)@.is_in_room(id, room)),
            },
    {
        let ghost pre = self@;
        let ghost old_rooms = self.rooms@;
        let n = self.rooms.len();
        let mut left: Option<usize> = None;
        let mut i: usize = 0;
        while i < n
            invariant
                n == self.rooms@.len(),
                n == old_rooms.len(),
                i <= n,
                self.sessions@ == pre.registry,
                forall|k: int|
                    0 <= k < n ==> (#[trigger] self.rooms@[k]).name == old_rooms[k].name
                        && self.rooms@[k].wf(),
                forall|k: int|
                    0 <= k < i ==> (#[trigger] self.rooms@[k]).member_set()
                        == old_rooms[k].member_set().remove(id),
                forall|k: int| i <= k < n ==> #[trigger] self.rooms@[k] == old_rooms[k],
                match left {
                    Some(k) => k < i && old_rooms[k as int].member_set().contains(id),
                    None => forall|k: int|
                        0 <= k < i ==> !(#[trigger] old_rooms[k]).member_set().contains(id),
                },
            decreases n - i,
        {
            let mut room = Room::empty(String::new());
            self.rooms.set_and_swap(i, &mut room);
            let was_in = room.remove_member(id);
            self.rooms.set_and_swap(i, &mut room);
            if was_in {
                left = Some(i);
            }
            i = i + 1;
        }
        self.directory = Ghost(pre.without(id));
        proof {
            assert forall|k: int|
                0 <= k < n implies old_rooms[k].wf() && pre.directory.contains_key(old_rooms[k].name@)
                && pre.directory[old_rooms[k].name@] == old_rooms[k].member_set() by {
                assert(old_rooms[k] == old(self).rooms@[k]);
            }
            assert forall|room: Seq<char>|
                #[trigger] self.directory@.contains_key(room) implies exists|k: int|
                0 <= k < self.rooms@.len() && (#[trigger] self.rooms@[k]).name@ == room by {
                assert(pre.directory.contains_key(room));
                let k = choose|k: int| 0 <= k < old_rooms.len() && (#[trigger] old_rooms[k]).name@ == room;
                assert(self.rooms@[k].name@ == room);
            }
            assert forall|a: Seq<char>, x: SessionId|
                #[trigger] self@.is_in_room(x, a) implies pre.is_in_room(x, a) by {}
            match left {
                Some(k) => {},
                None => {
                    assert forall|room: Seq<char>| !(#[trigger] pre.is_in_room(id, room)) by {
                        if pre.is_in_room(id, room) {
                            let k = choose|k: int| 0 <= k < old_rooms.len() && (#[trigger] old_rooms[k]).name@ == room;
                            assert(!old_rooms[k].member_set().contains(id));
                        }
                    }
                },
            }
        }
        left
    }

    /// Forgets session `id`: it leaves the registry and every room. Nothing is
    /// told to anyone; an unknown `id` changes nothing.
    pub fn disconnect(&mut self, id: SessionId)
        requires
            old(self).wf(),
        ensures
            final(self).wf(),
            disconnect_step(old(self)@, final(self)@, id),
    {
        self.purge(id);
        let ghost mid = self@;
        let ghost mid_rooms = self.rooms@;
        self.sessions.remove(&id);
        proof {
            assert forall|a: Seq<char>, x: SessionId|
                #[trigger] self@.is_in_room(x, a) implies mid.is_in_room(x, a)
                && self@.registry.contains_key(x) by {
                assert(mid.is_in_room(x, a));
                assert(old(self)@.is_in_room(x, a));
            }
            lemma_consistent_shrink(mid, self@);
            assert(self.rooms@ == mid_rooms);
        }
    }

    /// Where the room called `name` stands in the room list, if it exists.
    fn find_room(&self, name: &String) -> (r: Option<usize>)
        requires
            self.wf(),
        ensures
            match r {
                Some(i) => i < self.rooms@.len() && self.rooms@[i as int].name@ == name@,
                None => !self@.directory.contains_key(name@),
            },
    {
        let n = self.rooms.len();
        let mut i: usize = 0;
        while i < n
            invariant
                n == self.rooms@.len(),
                i <= n,
                forall|k: int| 0 <= k < i ==> (#[trigger] self.rooms@[k]).name@ != name@,
            decreases n - i,
        {
            if self.rooms[i].name == *name {
                return Some(i);
            }
            i = i + 1;
        }
        proof {
            if self@.directory.contains_key(name@) {
                let k = choose|k: int| 0 <= k < self.rooms@.len() && (#[trigger] self.rooms@[k]).name@ == name@;
            }
        }
        None
    }

    /// The deliveries of `message` to every member of `room` but `skip_id`
    /// that is connected; none where the room is unknown.
    pub fn send_message(&self, room: &str, message: &str, skip_id: &SessionId) -> (r: Vec<Delivery>)
        requires
            self.wf(),
        ensures
            delivers_once(r@, self@.audience(room@, *skip_id), message@),
    {
        let name = room.to_owned();
        let mut out: Vec<Delivery> = Vec::new();
        match self.find_room(&name) {
            None => {
                assert(self@.audience(room@, *skip_id) =~= Set::empty());
                assert(recipients(out@) =~= Set::empty());
            },
            Some(i) => {
                let text = message.to_owned();
                self.rooms[i].broadcast_into(&self.sessions, &text, *skip_id, &mut out);
                assert(out@.subrange(0, out@.len() as int) =~= out@);
            },
        }
        out
    }

    /// Session `session` says `text` in `room`: every other connected member
    /// hears it.
    pub fn client_message(&self, session: SessionId, room: &str, text: &str) -> (r: Vec<Delivery>)
        requires
            self.wf(),
        ensures
            delivers_once(r@, self@.audience(room@, session), text@),
    {
        self.send_message(room, text, &session)
    }

    /// Moves session `session` into `room`, creating the room where it is
    /// unknown. The session first leaves every room it is in, whose other
    /// connected members are told so; then the other connected members of
    /// `room` are told that someone joined. Joining the room one is in goes
    /// through both steps. A session that is not connected changes nothing.
    pub fn join_room(&mut self, session: SessionId, room: &str) -> (r: Vec<Delivery>)
        requires
            old(self).wf(),
        ensures
            final(self).wf(),
            join_step(old(self)@, final(self)@, session, room@),
            !old(self)@.registry.contains_key(session) ==> r@.len() == 0,
            old(self)@.registry.contains_key(session) ==> {
                exists|k: int|
                    0 <= k <= r@.len() && delivers_once(
                        #[trigger] r@.subrange(0, k),
                        old(self)@.companions(session),
                        left_notice(),
                    ) && delivers_once(
                        r@.subrange(k, r@.len() as int),
                        final(self)@.audience(room@, session),
                        joined_notice(),
                    )
            },
    {
        if !self.sessions.contains_key(&session) {
            return Vec::new();
        }
        let ghost pre = self@;
        let left = self.purge(session);
        let mut out: Vec<Delivery> = Vec::new();
        match left {
            Some(k) => {
                let notice = "Someone disconnected".to_owned();
                self.rooms[k].broadcast_into(&self.sessions, &notice, session, &mut out);
                proof {
                    let name = self.rooms@[k as int].name@;
                    assert(self.rooms@[k as int].member_set() == pre.directory[name].remove(session));
                    assert forall|x: SessionId|
                        #[trigger] pre.companions(session).contains(x) <==> reachable(
                            self.rooms@[k as int].member_set(),
                            session,
                            pre.registry,
                        ).contains(x) by {
                        if pre.companions(session).contains(x) {
                            let r0 = choose|r0: Seq<char>| #[trigger]
                                pre.is_in_room(session, r0) && pre.audience(r0, session).contains(x);
                            assert(pre.is_in_room(session, name));
                            assert(r0 == name);
                        }
                        if reachable(self.rooms@[k as int].member_set(), session, pre.registry).contains(x) {
                            assert(pre.is_in_room(session, name));
                            assert(pre.audience(name, session).contains(x));
                        }
                    }
                    assert(pre.companions(session) =~= reachable(
                        self.rooms@[k as int].member_set(),
                        session,
                        pre.registry,
                    ));
                    assert(out@.subrange(0, 0) =~= Seq::<Delivery>::empty());
                }
            },
            None => {
                proof {
                    assert(pre.companions(session) =~= Set::empty());
                    assert(recipients(out@) =~= Set::empty());
                }
            },
        }
        let ghost first = out@;
        assert(first.subrange(0, first.len() as int) =~= first);
        let split = out.len();
        let ghost purged = self@;
        let ghost purged_rooms = self.rooms@;
        let name = room.to_owned();
        let i = match self.find_room(&name) {
            Some(i) => i,
            None => {
                self.rooms.push(Room::empty(name));
                self.directory = Ghost(self.directory@.insert(room@, Set::empty()));
                proof {
                    let last = purged_rooms.len() as int;
                    assert(self.rooms@[last].name@ == room@);
                    assert forall|j: int| 0 <= j < last implies (#[trigger] self.rooms@[j]).name@
                        != room@ by {
                        assert(purged_rooms[j] == self.rooms@[j]);
                    }
                    assert forall|r0: Seq<char>|
                        #[trigger] self.directory@.contains_key(r0) implies exists|j: int|
                        0 <= j < self.rooms@.len() && (#[trigger] self.rooms@[j]).name@ == r0 by {
                        if r0 != room@ {
                            let j = choose|j: int|
                                0 <= j < purged_rooms.len() && (#[trigger] purged_rooms[j]).name@ == r0;
                            assert(self.rooms@[j] == purged_rooms[j]);
                        }
                    }
                    assert forall|r0: Seq<char>, x: SessionId|
                        #[trigger] self@.is_in_room(x, r0) implies purged.is_in_room(x, r0)
                        && self@.registry.contains_key(x) by {
                        assert(r0 != room@);
                        assert(self.directory@[r0] == purged.directory[r0]);
                        assert(purged.is_in_room(x, r0));
                    }
                    lemma_consistent_shrink(purged, self@);
                }
                self.rooms.len() - 1
            },
        };
        let ghost added = self@;
        let ghost added_rooms = self.rooms@;
        assert(forall|r0: Seq<char>| !(#[trigger] added.is_in_room(session, r0)));
        let mut target = Room::empty(String::new());
        self.rooms.set_and_swap(i, &mut target);
        target.add_member(session);
        self.rooms.set_and_swap(i, &mut target);
        self.directory = Ghost(self.directory@.insert(room@, self.directory@[room@].insert(session)));
        proof {
            assert(self.rooms@[i as int].member_set() == added.directory[room@].insert(session));
            assert forall|j: int| 0 <= j < self.rooms@.len() && j != i implies #[trigger] self.rooms@[j]
                == added_rooms[j] by {}
            assert forall|r0: Seq<char>|
                #[trigger] self.directory@.contains_key(r0) implies exists|j: int|
                0 <= j < self.rooms@.len() && (#[trigger] self.rooms@[j]).name@ == r0 by {
                let j = choose|j: int| 0 <= j < added_rooms.len() && (#[trigger] added_rooms[j]).name@ == r0;
                assert(self.rooms@[j].name@ == r0);
            }
            assert forall|a: Seq<char>, b: Seq<char>, x: SessionId|
                #[trigger] self@.is_in_room(x, a) && #[trigger] self@.is_in_room(x, b) implies a == b by {
                if x != session {
                    assert(added.is_in_room(x, a));
                    assert(added.is_in_room(x, b));
                } else {
                    assert(!added.is_in_room(x, a));
                    assert(!added.is_in_room(x, b));
                }
            }
            assert forall|a: Seq<char>, x: SessionId|
                #[trigger] self@.is_in_room(x, a) implies self@.registry.contains_key(x) by {
                if x != session {
                    assert(added.is_in_room(x, a));
                }
            }
            assert(self.rooms_match());
            assert(self.directory@ =~= pre.moved(session, room@));
        }
        let notice = "Someone connected".to_owned();
        self.rooms[i].broadcast_into(&self.sessions, &notice, session, &mut out);
        proof {
            assert(out@.subrange(0, split as int) == first);
            assert(self@.audience(room@, session) == reachable(
                self.rooms@[i as int].member_set(),
                session,
                self.sessions@,
            ));
        }
        out
    }
}

} // verus!
