//! The signaling relay's room registry: rooms keyed by a room identifier,
//! each holding at most two participants, each participant owning an
//! outbound message queue. Joining, relaying and disconnecting are the three
//! transitions a connection can drive; their contracts state exactly what
//! changes and what is delivered.

use vstd::prelude::*;
use crate::messages::{SignalMessage, SignalView};
use crate::strutil::str_eq;

verus! {

/// One joined device: its identifier and its outbound message queue. The
/// queue feeds the writer task that drains onto the device's socket.
#[derive(Debug)]
pub struct Participant {
    pub device_id: String,
    pub queue: Vec<SignalMessage>,
}

/// Mathematical view of a [`Participant`].
#[verifier::ext_equal]
pub struct ParticipantView {
    pub device_id: Seq<char>,
    pub queue: Seq<SignalView>,
}

impl View for Participant {
    type V = ParticipantView;

    open spec fn view(&self) -> ParticipantView {
        ParticipantView { device_id: self.device_id@, queue: self.queue.deep_view() }
    }
}

impl DeepView for Participant {
    type V = ParticipantView;

    open spec fn deep_view(&self) -> ParticipantView {
        self.view()
    }
}

/// One room: an ephemeral grouping of up to two participants that share a
/// room identifier.
#[derive(Debug)]
pub struct Room {
    pub room_id: String,
    pub participants: Vec<Participant>,
}

/// Mathematical view of a [`Room`].
#[verifier::ext_equal]
pub struct RoomView {
    pub room_id: Seq<char>,
    pub participants: Seq<ParticipantView>,
}

impl View for Room {
    type V = RoomView;

    open spec fn view(&self) -> RoomView {
        RoomView { room_id: self.room_id@, participants: self.participants.deep_view() }
    }
}

impl DeepView for Room {
    type V = RoomView;

    open spec fn deep_view(&self) -> RoomView {
        self.view()
    }
}

/// The relay's room registry. Constructed once at relay startup and shared
/// by every connection; all access goes through the three transitions.
#[derive(Debug)]
pub struct Registry {
    rooms: Vec<Room>,
}

impl View for Registry {
    type V = Seq<RoomView>;

    closed spec fn view(&self) -> Seq<RoomView> {
        self.rooms.deep_view()
    }
}

/// A room is well formed when it is nonempty (an empty room is deleted the
/// instant it empties), holds at most two participants, and its participant
/// identifiers are distinct.
pub open spec fn room_wf(room: RoomView) -> bool {
    &&& 1 <= room.participants.len() <= 2
    &&& forall|i: int, j: int|
        0 <= i < j < room.participants.len() ==> (#[trigger] room.participants[i]).device_id != (
        #[trigger] room.participants[j]).device_id
}

/// The registry invariant: distinct room identifiers, every room well
/// formed. In particular no room ever holds more than two participants.
pub open spec fn registry_wf(rooms: Seq<RoomView>) -> bool {
    &&& forall|i: int, j: int|
        0 <= i < j < rooms.len() ==> (#[trigger] rooms[i]).room_id != (
        #[trigger] rooms[j]).room_id
    &&& forall|i: int| 0 <= i < rooms.len() ==> room_wf(#[trigger] rooms[i])
}

/// Whether some room carries the given identifier.
pub open spec fn has_room(rooms: Seq<RoomView>, rid: Seq<char>) -> bool {
    exists|i: int| 0 <= i < rooms.len() && (#[trigger] rooms[i]).room_id == rid
}

/// The index of the room carrying the given identifier; unique under
/// [`registry_wf`].
pub open spec fn room_of(rooms: Seq<RoomView>, rid: Seq<char>) -> int {
    choose|i: int| 0 <= i < rooms.len() && (#[trigger] rooms[i]).room_id == rid
}

/// Whether the room holds a participant with the given device identifier.
pub open spec fn has_member(room: RoomView, did: Seq<char>) -> bool {
    exists|k: int|
        0 <= k < room.participants.len() && (#[trigger] room.participants[k]).device_id == did
}

/// The index of the participant with the given device identifier; unique
/// under [`room_wf`].
pub open spec fn member_of(room: RoomView, did: Seq<char>) -> int {
    choose|k: int|
        0 <= k < room.participants.len() && (#[trigger] room.participants[k]).device_id == did
}

/// Whether the room is full: it already holds two participants.
pub open spec fn room_full(room: RoomView) -> bool {
    room.participants.len() >= 2
}

/// The participants after a join: a fresh handle for `did`, replacing an
/// earlier one under the same identifier if there is one (the newer socket
/// supersedes it), appended otherwise.
pub open spec fn participants_after_join(parts: Seq<ParticipantView>, did: Seq<char>) -> Seq<
    ParticipantView,
> {
    let fresh = ParticipantView { device_id: did, queue: Seq::empty() };
    if exists|k: int| 0 <= k < parts.len() && (#[trigger] parts[k]).device_id == did {
        parts.update(
            choose|k: int| 0 <= k < parts.len() && (#[trigger] parts[k]).device_id == did,
            fresh,
        )
    } else {
        parts.push(fresh)
    }
}

/// The room after a message is relayed to its member `target`: exactly that
/// member's queue grows by the message, everything else stands.
pub open spec fn room_after_relay(room: RoomView, target: Seq<char>, msg: SignalView) -> RoomView {
    let k = member_of(room, target);
    RoomView {
        room_id: room.room_id,
        participants: room.participants.update(
            k,
            ParticipantView {
                device_id: room.participants[k].device_id,
                queue: room.participants[k].queue.push(msg),
            },
        ),
    }
}

/// The participants with the member `did` taken out, if it is one of them.
pub open spec fn remove_member(parts: Seq<ParticipantView>, did: Seq<char>) -> Seq<
    ParticipantView,
> {
    if exists|k: int| 0 <= k < parts.len() && (#[trigger] parts[k]).device_id == did {
        parts.remove(choose|k: int| 0 <= k < parts.len() && (#[trigger] parts[k]).device_id == did)
    } else {
        parts
    }
}

/// Every participant's queue grows by exactly one notice that `did` left.
pub open spec fn notify_peer_left(parts: Seq<ParticipantView>, did: Seq<char>) -> Seq<
    ParticipantView,
> {
    parts.map_values(
        |p: ParticipantView|
            ParticipantView {
                device_id: p.device_id,
                queue: p.queue.push(SignalView::PeerDisconnected { device_id: did }),
            },
    )
}

/// The room after its member `did` takes the first message off its queue.
pub open spec fn room_after_pop(room: RoomView, did: Seq<char>) -> RoomView {
    let k = member_of(room, did);
    RoomView {
        room_id: room.room_id,
        participants: room.participants.update(
            k,
            ParticipantView {
                device_id: room.participants[k].device_id,
                queue: room.participants[k].queue.drop_first(),
            },
        ),
    }
}

/// The index of the first participant whose identifier differs from
/// `sender`, or -1 when every participant carries the sender's identifier.
pub open spec fn first_other(parts: Seq<ParticipantView>, sender: Seq<char>) -> int
    decreases parts.len(),
{
    if parts.len() == 0 {
        -1
    } else if parts[0].device_id != sender {
        0
    } else {
        let r = first_other(parts.drop_first(), sender);
        if r == -1 {
            -1
        } else {
            r + 1
        }
    }
}

/// What the literal `"peer"` placeholder names for a sender in a room: the
/// first participant other than the sender, when the room exists and holds
/// one; any other target stands as written. In a two-party room this is
/// exactly the remote device, whose concrete identifier is never exchanged.
pub open spec fn resolve_target(
    rooms: Seq<RoomView>,
    rid: Seq<char>,
    sender: Seq<char>,
    target: Seq<char>,
) -> Seq<char> {
    if target == "peer"@ && has_room(rooms, rid) && first_other(
        rooms[room_of(rooms, rid)].participants,
        sender,
    ) >= 0 {
        rooms[room_of(rooms, rid)].participants[first_other(
            rooms[room_of(rooms, rid)].participants,
            sender,
        )].device_id
    } else {
        target
    }
}

/// Whether a join attempt for `rid` is accepted: always for a never-seen
/// room, and for an existing room only while it has fewer than two
/// participants.
pub open spec fn join_accepted(rooms: Seq<RoomView>, rid: Seq<char>) -> bool {
    !has_room(rooms, rid) || !room_full(rooms[room_of(rooms, rid)])
}

/// The registry after a join attempt: a fresh one-participant room for a
/// never-seen identifier, an untouched registry for a full room, and the
/// joined room updated in place otherwise.
pub open spec fn rooms_after_join(rooms: Seq<RoomView>, rid: Seq<char>, did: Seq<char>) -> Seq<
    RoomView,
> {
    if !has_room(rooms, rid) {
        rooms.push(
            RoomView {
                room_id: rid,
                participants: seq![ParticipantView { device_id: did, queue: Seq::empty() }],
            },
        )
    } else if room_full(rooms[room_of(rooms, rid)]) {
        rooms
    } else {
        rooms.update(
            room_of(rooms, rid),
            RoomView {
                room_id: rid,
                participants: participants_after_join(
                    rooms[room_of(rooms, rid)].participants,
                    did,
                ),
            },
        )
    }
}

/// The registry after a message is relayed: only an existing target inside
/// an existing room sees any change, namely its queue growing by the
/// message; otherwise the message is dropped and nothing moves.
pub open spec fn rooms_after_relay(
    rooms: Seq<RoomView>,
    rid: Seq<char>,
    target: Seq<char>,
    msg: SignalView,
) -> Seq<RoomView> {
    if has_room(rooms, rid) && has_member(rooms[room_of(rooms, rid)], target) {
        rooms.update(
            room_of(rooms, rid),
            room_after_relay(rooms[room_of(rooms, rid)], target, msg),
        )
    } else {
        rooms
    }
}

/// The registry after a device leaves its room: the device is removed, each
/// remaining participant is queued exactly one departure notice, and a room
/// left empty is deleted.
pub open spec fn rooms_after_disconnect(rooms: Seq<RoomView>, rid: Seq<char>, did: Seq<char>) -> Seq<
    RoomView,
> {
    if !has_room(rooms, rid) {
        rooms
    } else {
        let i = room_of(rooms, rid);
        let remaining = remove_member(rooms[i].participants, did);
        if remaining.len() == 0 {
            rooms.remove(i)
        } else {
            rooms.update(
                i,
                RoomView {
                    room_id: rooms[i].room_id,
                    participants: notify_peer_left(remaining, did),
                },
            )
        }
    }
}

/// The outcome a join attempt reports to the joining connection.
#[derive(Debug, Clone, Copy, PartialEq, Eq, Structural)]
pub enum JoinOutcome {
    Joined,
    RoomFull,
}

impl Registry {
    /// A registry with no rooms.
    pub fn new() -> (r: Self)
        ensures
            r@ =~= Seq::<RoomView>::empty(),
            registry_wf(r@),
    {
        let r = Registry { rooms: Vec::new() };
        proof {
            assert(r@ =~= Seq::<RoomView>::empty());
        }
        r
    }

    /// The number of rooms currently alive.
    pub fn room_count(&self) -> (n: usize)
        ensures
            n == self@.len(),
    {
        self.rooms.len()
    }

    /// The index of the room with this identifier, if it exists.
    fn find_room(&self, room_id: &str) -> (r: Option<usize>)
        ensures
            match r {
                Some(i) => i < self@.len() && self@[i as int].room_id == room_id@,
                None => !has_room(self@, room_id@),
            },
    {
        let mut i: usize = 0;
        while i < self.rooms.len()
            invariant
                i <= self@.len(),
                self@.len() == self.rooms@.len(),
                forall|j: int| 0 <= j < i ==> (#[trigger] self@[j]).room_id != room_id@,
            decreases self@.len() - i,
        {
            if str_eq(self.rooms[i].room_id.as_str(), room_id) {
                return Some(i);
            }
            i = i + 1;
        }
        None
    }

    /// The index of the participant with this device identifier, if any.
    fn find_member(room: &Room, device_id: &str) -> (r: Option<usize>)
        ensures
            match r {
                Some(k) => k < room@.participants.len() && room@.participants[k as int].device_id
                    == device_id@,
                None => !has_member(room@, device_id@),
            },
    {
        let mut k: usize = 0;
        while k < room.participants.len()
            invariant
                k <= room.participants@.len(),
                room@.participants.len() == room.participants@.len(),
                forall|j: int|
                    0 <= j < k ==> (#[trigger] room@.participants[j]).device_id != device_id@,
            decreases room.participants@.len() - k,
        {
            if str_eq(room.participants[k].device_id.as_str(), device_id) {
                return Some(k);
            }
            k = k + 1;
        }
        None
    }

    /// The identifier of the first participant other than `sender`.
    fn find_other_id(room: &Room, sender: &str) -> (r: Option<String>)
        ensures
            first_other(room@.participants, sender@) >= 0 ==> (r matches Some(id) && id@
                == room@.participants[first_other(room@.participants, sender@)].device_id),
            first_other(room@.participants, sender@) < 0 ==> r is None,
    {
        let mut k: usize = 0;
        while k < room.participants.len()
            invariant
                k <= room.participants@.len(),
                room@.participants.len() == room.participants@.len(),
                forall|j: int|
                    0 <= j < k ==> (#[trigger] room@.participants[j]).device_id == sender@,
            decreases room.participants@.len() - k,
        {
            if !str_eq(room.participants[k].device_id.as_str(), sender) {
                let id = room.participants[k].device_id.clone();
                proof {
                    lemma_first_other_at(room@.participants, sender@, k as int);
                }
                return Some(id);
            }
            k = k + 1;
        }
        proof {
            lemma_first_other_at(room@.participants, sender@, room@.participants.len() as int);
        }
        None
    }

    /// The device identifier a relayed frame from `sender` is delivered
    /// to: the literal `"peer"` placeholder names the room's first other
    /// participant; any other target stands as written.
    fn resolved_target(&self, room_id: &str, sender: &str, target: &str) -> (r: String)
        requires
            registry_wf(self@),
        ensures
            r@ == resolve_target(self@, room_id@, sender@, target@),
    {
        if str_eq(target, "peer") {
            match self.find_room(room_id) {
                Some(i) => {
                    proof {
                        let ci = room_of(self@, room_id@);
                        assert(0 <= ci < self@.len() && self@[ci].room_id == room_id@);
                        if ci != i {
                            assert(self@[ci].room_id == self@[i as int].room_id);
                            assert(false);
                        }
                    }
                    match Self::find_other_id(&self.rooms[i], sender) {
                        Some(id) => id,
                        None => target.to_owned(),
                    }
                },
                None => target.to_owned(),
            }
        } else {
            target.to_owned()
        }
    }

    /// A connection's join attempt for `room_id` under `device_id`.
    ///
    /// A never-seen `room_id` gets a fresh room holding only the joiner. A
    /// room that already holds two participants rejects the attempt and is
    /// left exactly as it was, as is the rest of the registry. Otherwise the
    /// joiner is registered with an empty queue. Capacity is enforced here
    /// and only here, so no room ever exceeds two participants.
    pub fn join(&mut self, room_id: &str, device_id: &str) -> (r: JoinOutcome)
        requires
            registry_wf(old(self)@),
        ensures
            registry_wf(final(self)@),
            final(self)@ == rooms_after_join(old(self)@, room_id@, device_id@),
            r == (if join_accepted(old(self)@, room_id@) {
                JoinOutcome::Joined
            } else {
                JoinOutcome::RoomFull
            }),
    {
        let ghost old_rooms = self@;
        match self.find_room(room_id) {
            None => {
                let room = Room {
                    room_id: room_id.to_owned(),
                    participants: vec![
                        Participant { device_id: device_id.to_owned(), queue: Vec::new() },
                    ],
                };
                proof {
                    assert(room@.participants =~~= seq![
                        ParticipantView { device_id: device_id@, queue: Seq::empty() },
                    ]);
                }
                self.rooms.push(room);
                proof {
                    assert(self@ =~~= old_rooms.push(
                        RoomView {
                            room_id: room_id@,
                            participants: seq![
                                ParticipantView { device_id: device_id@, queue: Seq::empty() },
                            ],
                        },
                    ));
                    assert forall|a: int, b: int|
                        0 <= a < b < self@.len() implies (#[trigger] self@[a]).room_id != (
                    #[trigger] self@[b]).room_id by {
                        if b < self@.len() - 1 {
                            assert(self@[a] == old_rooms[a] && self@[b] == old_rooms[b]);
                        } else {
                            assert(self@[b].room_id == room_id@);
                            assert(self@[a] == old_rooms[a]);
                            assert(!(0 <= a < old_rooms.len() && old_rooms[a].room_id == room_id@));
                        }
                    }
                    assert(registry_wf(self@));
                    assert(self@ == rooms_after_join(old_rooms, room_id@, device_id@));
                }
                JoinOutcome::Joined
            },
            Some(i) => {
                proof {
                    assert(has_room(old_rooms, room_id@));
                    let ci = room_of(old_rooms, room_id@);
                    assert(0 <= ci < old_rooms.len() && old_rooms[ci].room_id == room_id@);
                    if ci != i {
                        assert(old_rooms[ci].room_id == old_rooms[i as int].room_id);
                        assert(false);
                    }
                }
                if self.rooms[i].participants.len() >= 2 {
                    proof {
                        assert(room_full(old_rooms[room_of(old_rooms, room_id@)]));
                        assert(self@ == rooms_after_join(old_rooms, room_id@, device_id@));
                    }
                    return JoinOutcome::RoomFull;
                }
                let fresh = Participant { device_id: device_id.to_owned(), queue: Vec::new() };
                let ghost old_room = old_rooms[i as int];
                match Self::find_member(&self.rooms[i], device_id) {
                    Some(k) => {
                        proof {
                            let ck = member_of(old_room, device_id@);
                            assert(0 <= ck < old_room.participants.len()
                                && old_room.participants[ck].device_id == device_id@);
                            if ck != k {
                                assert(old_room.participants[ck].device_id
                                    == old_room.participants[k as int].device_id);
                                assert(false);
                            }
                        }
                        self.rooms[i].participants[k] = fresh;
                    },
                    None => {
                        self.rooms[i].participants.push(fresh);
                    },
                }
                proof {
                    let updated = RoomView {
                        room_id: room_id@,
                        participants: participants_after_join(old_room.participants, device_id@),
                    };
                    assert(self@[i as int].participants =~~= updated.participants);
                    assert(self@[i as int] =~~= updated);
                    assert(self@ =~~= old_rooms.update(i as int, updated));
                    assert forall|a: int| 0 <= a < self@.len() implies room_wf(
                        #[trigger] self@[a],
                    ) by {
                        if a != i {
                            assert(self@[a] == old_rooms[a]);
                        } else {
                            assert(room_wf(old_room));
                            if has_member(old_room, device_id@) {
                                let ck = member_of(old_room, device_id@);
                                assert(forall|p: int|
                                    0 <= p < updated.participants.len() && p != ck
                                        ==> #[trigger] updated.participants[p]
                                        == old_room.participants[p]);
                            }
                        }
                    }
                    assert(registry_wf(self@));
                    assert(self@ == rooms_after_join(old_rooms, room_id@, device_id@));
                }
                JoinOutcome::Joined
            },
        }
    }

    /// Relays one negotiation message to `target` inside `room_id`.
    ///
    /// The message is appended verbatim to the target participant's queue;
    /// the relay never interprets its payload. An absent room or an absent
    /// target changes nothing at all: the message is dropped silently, no
    /// error is surfaced, and no other participant is touched.
    pub fn relay(&mut self, room_id: &str, target: &str, msg: SignalMessage)
        requires
            registry_wf(old(self)@),
        ensures
            registry_wf(final(self)@),
            final(self)@ == rooms_after_relay(old(self)@, room_id@, target@, msg@),
    {
        let ghost old_rooms = self@;
        let ghost msg_view0 = msg@;
        match self.find_room(room_id) {
            None => {
                proof {
                    assert(self@ == rooms_after_relay(old_rooms, room_id@, target@, msg_view0));
                }
            },
            Some(i) => {
                proof {
                    let ci = room_of(old_rooms, room_id@);
                    assert(0 <= ci < old_rooms.len() && old_rooms[ci].room_id == room_id@);
                    if ci != i {
                        assert(old_rooms[ci].room_id == old_rooms[i as int].room_id);
                        assert(false);
                    }
                }
                let ghost old_room = old_rooms[i as int];
                match Self::find_member(&self.rooms[i], target) {
                    None => {
                        proof {
                            assert(self@ == rooms_after_relay(
                                old_rooms,
                                room_id@,
                                target@,
                                msg_view0,
                            ));
                        }
                    },
                    Some(k) => {
                        proof {
                            let ck = member_of(old_room, target@);
                            assert(0 <= ck < old_room.participants.len()
                                && old_room.participants[ck].device_id == target@);
                            if ck != k {
                                assert(old_room.participants[ck].device_id
                                    == old_room.participants[k as int].device_id);
                                assert(false);
                            }
                        }
                        let ghost msg_view = msg@;
                        self.rooms[i].participants[k].queue.push(msg);
                        proof {
                            let updated = room_after_relay(old_room, target@, msg_view);
                            assert(self@[i as int].participants[k as int].queue
                                =~= old_room.participants[k as int].queue.push(msg_view));
                            assert(self@[i as int].participants[k as int]
                                =~~= updated.participants[k as int]);
                            assert(self@[i as int].participants =~~= updated.participants);
                            assert(self@[i as int] =~~= updated);
                            assert(self@ =~~= old_rooms.update(i as int, updated));
                            assert forall|a: int| 0 <= a < self@.len() implies room_wf(
                                #[trigger] self@[a],
                            ) by {
                                if a != i {
                                    assert(self@[a] == old_rooms[a]);
                                } else {
                                    assert(room_wf(old_room));
                                    assert(forall|p: int|
                                        0 <= p < self@[a].participants.len()
                                            ==> (#[trigger] self@[a].participants[p]).device_id
                                            == old_room.participants[p].device_id);
                                }
                            }
                            assert(registry_wf(self@));
                            assert(self@ == rooms_after_relay(
                                old_rooms,
                                room_id@,
                                target@,
                                msg_view0,
                            ));
                        }
                    },
                }
            },
        }
    }

    /// A joined connection's departure from its room.
    ///
    /// The leaving device is removed; every remaining participant's queue
    /// grows by exactly one notice that names the departed device; and the
    /// room is deleted the instant its last participant is gone, so a later
    /// join for the same identifier starts a fresh room. An absent room
    /// changes nothing.
    pub fn disconnect(&mut self, room_id: &str, device_id: &str)
        requires
            registry_wf(old(self)@),
        ensures
            registry_wf(final(self)@),
            final(self)@ == rooms_after_disconnect(old(self)@, room_id@, device_id@),
    {
        let ghost old_rooms = self@;
        match self.find_room(room_id) {
            None => {
                proof {
                    assert(self@ == rooms_after_disconnect(old_rooms, room_id@, device_id@));
                }
            },
            Some(i) => {
                proof {
                    let ci = room_of(old_rooms, room_id@);
                    assert(0 <= ci < old_rooms.len() && old_rooms[ci].room_id == room_id@);
                    if ci != i {
                        assert(old_rooms[ci].room_id == old_rooms[i as int].room_id);
                        assert(false);
                    }
                }
                let ghost old_room = old_rooms[i as int];
                match Self::find_member(&self.rooms[i], device_id) {
                    None => {
                        proof {
                            assert(remove_member(old_room.participants, device_id@)
                                == old_room.participants);
                        }
                    },
                    Some(k) => {
                        proof {
                            let ck = member_of(old_room, device_id@);
                            assert(0 <= ck < old_room.participants.len()
                                && old_room.participants[ck].device_id == device_id@);
                            if ck != k {
                                assert(old_room.participants[ck].device_id
                                    == old_room.participants[k as int].device_id);
                                assert(false);
                            }
                        }
                        self.rooms[i].participants.remove(k);
                        proof {
                            assert(self@[i as int].participants =~~= remove_member(
                                old_room.participants,
                                device_id@,
                            ));
                        }
                    },
                }
                let ghost remaining = remove_member(old_room.participants, device_id@);
                proof {
                    assert(self@[i as int].participants =~~= remaining);
                    assert(self@[i as int].room_id == old_room.room_id);
                    assert(forall|a: int|
                        0 <= a < self@.len() && a != i ==> self@[a] == #[trigger] old_rooms[a]);
                    assert(self@.len() == old_rooms.len());
                }
                if self.rooms[i].participants.len() == 0 {
                    self.rooms.remove(i);
                    proof {
                        assert(self@ =~~= old_rooms.remove(i as int));
                        assert forall|a: int| 0 <= a < self@.len() implies room_wf(
                            #[trigger] self@[a],
                        ) && (forall|b: int|
                            0 <= b < a ==> (#[trigger] self@[b]).room_id
                                != self@[a].room_id) by {
                            if a < i {
                                assert(self@[a] == old_rooms[a]);
                            } else {
                                assert(self@[a] == old_rooms[a + 1]);
                            }
                            assert forall|b: int| 0 <= b < a implies (#[trigger] self@[b]).room_id
                                != self@[a].room_id by {
                                if b < i {
                                    assert(self@[b] == old_rooms[b]);
                                } else {
                                    assert(self@[b] == old_rooms[b + 1]);
                                }
                            }
                        }
                        assert(registry_wf(self@));
                        assert(self@ == rooms_after_disconnect(old_rooms, room_id@, device_id@));
                    }
                } else {
                    let n = self.rooms[i].participants.len();
                    let mut k: usize = 0;
                    while k < n
                        invariant
                            registry_wf(old_rooms),
                            0 <= i < self@.len(),
                            self@.len() == old_rooms.len(),
                            self.rooms@.len() == self@.len(),
                            i < self.rooms@.len(),
                            n == self.rooms[i as int].participants@.len(),
                            n == remaining.len(),
                            1 <= n <= 2,
                            k <= n,
                            forall|a: int|
                                0 <= a < self@.len() && a != i ==> self@[a] == #[trigger] old_rooms[a],
                            self@[i as int].room_id == old_room.room_id,
                            self@[i as int].participants.len() == n,
                            forall|j: int|
                                0 <= j < k ==> #[trigger] self@[i as int].participants[j] =~~= (
                                ParticipantView {
                                    device_id: remaining[j].device_id,
                                    queue: remaining[j].queue.push(
                                        SignalView::PeerDisconnected { device_id: device_id@ },
                                    ),
                                }),
                            forall|j: int|
                                k <= j < n ==> #[trigger] self@[i as int].participants[j]
                                    == remaining[j],
                        decreases n - k,
                    {
                        let notice = SignalMessage::PeerDisconnected {
                            device_id: device_id.to_owned(),
                        };
                        let ghost pre = self@;
                        let ghost notice_view = notice@;
                        self.rooms[i].participants[k].queue.push(notice);
                        proof {
                            assert(pre[i as int].participants[k as int] == remaining[k as int]);
                            assert(self.rooms@[i as int].participants@[k as int].queue@.last()
                                == notice);
                            assert(self@[i as int].participants[k as int].queue
                                =~= pre[i as int].participants[k as int].queue.push(notice_view));
                            assert(notice_view == SignalView::PeerDisconnected {
                                device_id: device_id@,
                            });
                            assert(forall|a: int|
                                0 <= a < self@.len() && a != i ==> self@[a] == #[trigger] pre[a]);
                            assert(forall|j: int|
                                0 <= j < n && j != k ==> #[trigger] self@[i as int].participants[j]
                                    == pre[i as int].participants[j]);
                        }
                        k = k + 1;
                    }
                    proof {
                        let updated = RoomView {
                            room_id: old_room.room_id,
                            participants: notify_peer_left(remaining, device_id@),
                        };
                        assert(self@[i as int].participants =~~= updated.participants);
                        assert(self@[i as int] =~~= updated);
                        assert(self@ =~~= old_rooms.update(i as int, updated));
                        assert forall|a: int| 0 <= a < self@.len() implies room_wf(
                            #[trigger] self@[a],
                        ) by {
                            if a != i {
                                assert(self@[a] == old_rooms[a]);
                            } else {
                                assert(room_wf(old_room));
                                if has_member(old_room, device_id@) {
                                    let ck = member_of(old_room, device_id@);
                                    assert(forall|p: int|
                                        0 <= p < remaining.len() ==> (#[trigger] remaining[p])
                                            == (if p < ck {
                                            old_room.participants[p]
                                        } else {
                                            old_room.participants[p + 1]
                                        }));
                                }
                                assert(forall|p: int|
                                    0 <= p < self@[a].participants.len()
                                        ==> (#[trigger] self@[a].participants[p]).device_id
                                        == remaining[p].device_id);
                            }
                        }
                        assert(registry_wf(self@));
                        assert(self@ == rooms_after_disconnect(old_rooms, room_id@, device_id@));
                    }
                }
            },
        }
    }
}

/// Locates the first non-sender participant from a scanned prefix of
/// sender-named ones.
proof fn lemma_first_other_at(parts: Seq<ParticipantView>, sender: Seq<char>, k: int)
    requires
        0 <= k <= parts.len(),
        forall|j: int| 0 <= j < k ==> (#[trigger] parts[j]).device_id == sender,
        k == parts.len() || parts[k].device_id != sender,
    ensures
        first_other(parts, sender) == (if k == parts.len() {
            -1int
        } else {
            k
        }),
    decreases k,
{
    if parts.len() == 0 {
    } else if parts[0].device_id != sender {
        assert(k == 0);
    } else {
        assert(k >= 1);
        assert(forall|j: int|
            0 <= j < k - 1 ==> (#[trigger] parts.drop_first()[j]).device_id == sender);
        lemma_first_other_at(parts.drop_first(), sender, k - 1);
    }
}

/// The protocol state of one relay connection: it starts `Unjoined`, becomes
/// `Joined` under the device identifier of its `Join` message, and is
/// `Closed` when the relay is done with it.
#[derive(Debug, Clone, PartialEq, Eq)]
pub enum ConnState {
    Unjoined,
    Joined { device_id: String },
    Closed,
}

/// Mathematical view of a [`ConnState`].
pub enum ConnStateView {
    Unjoined,
    Joined { device_id: Seq<char> },
    Closed,
}

impl View for ConnState {
    type V = ConnStateView;

    open spec fn view(&self) -> ConnStateView {
        match self {
            ConnState::Unjoined => ConnStateView::Unjoined,
            ConnState::Joined { device_id } => ConnStateView::Joined { device_id: device_id@ },
            ConnState::Closed => ConnStateView::Closed,
        }
    }
}

impl Registry {
    /// Drives one connection's state machine for one incoming frame.
    ///
    /// An `Unjoined` connection is moved to `Joined` by a `Join` frame, or
    /// answered with `Error{"Room is full"}` and `Closed` when the room
    /// already has two participants; a `Joined` connection's `Offer`,
    /// `Answer` and `IceCandidate` frames are relayed within the same room
    /// to their `target` — the literal `"peer"` placeholder naming the
    /// room's other participant, an absent target dropped silently; every
    /// other frame is ignored. The second component of the result is the
    /// direct reply owed to this connection itself.
    pub fn handle_frame(&mut self, state: ConnState, room_id: &str, msg: SignalMessage) -> (r: (
        ConnState,
        Option<SignalMessage>,
    ))
        requires
            registry_wf(old(self)@),
        ensures
            registry_wf(final(self)@),
            match (state@, msg@) {
                (ConnStateView::Unjoined, SignalView::Join { device_id: did }) => {
                    &&& final(self)@ == rooms_after_join(old(self)@, room_id@, did)
                    &&& if join_accepted(old(self)@, room_id@) {
                        r.0@ == (ConnStateView::Joined { device_id: did }) && r.1 is None
                    } else {
                        r.0@ == ConnStateView::Closed && (r.1 matches Some(e) && e@ == (
                        SignalView::Error { message: "Room is full"@ }))
                    }
                },
                (ConnStateView::Joined { device_id: did }, SignalView::Offer { payload: _, target })
                    | (
                    ConnStateView::Joined { device_id: did },
                    SignalView::Answer { payload: _, target },
                )
                    | (
                    ConnStateView::Joined { device_id: did },
                    SignalView::IceCandidate { payload: _, target },
                ) => {
                    &&& final(self)@ == rooms_after_relay(
                        old(self)@,
                        room_id@,
                        resolve_target(old(self)@, room_id@, did, target),
                        msg@,
                    )
                    &&& r.0@ == state@
                    &&& r.1 is None
                },
                _ => { final(self)@ == old(self)@ && r.0@ == state@ && r.1 is None },
            },
    {
        match state {
            ConnState::Unjoined => {
                match msg {
                    SignalMessage::Join { device_id } => {
                        match self.join(room_id, device_id.as_str()) {
                            JoinOutcome::Joined => (
                                ConnState::Joined { device_id },
                                None,
                            ),
                            JoinOutcome::RoomFull => (
                                ConnState::Closed,
                                Some(
                                    SignalMessage::Error {
                                        message: "Room is full".to_owned(),
                                    },
                                ),
                            ),
                        }
                    },
                    _ => (ConnState::Unjoined, None),
                }
            },
            ConnState::Joined { device_id } => {
                match msg {
                    SignalMessage::Offer { payload, target } => {
                        let resolved = self.resolved_target(
                            room_id,
                            device_id.as_str(),
                            target.as_str(),
                        );
                        self.relay(
                            room_id,
                            resolved.as_str(),
                            SignalMessage::Offer { payload, target },
                        );
                        (ConnState::Joined { device_id }, None)
                    },
                    SignalMessage::Answer { payload, target } => {
                        let resolved = self.resolved_target(
                            room_id,
                            device_id.as_str(),
                            target.as_str(),
                        );
                        self.relay(
                            room_id,
                            resolved.as_str(),
                            SignalMessage::Answer { payload, target },
                        );
                        (ConnState::Joined { device_id }, None)
                    },
                    SignalMessage::IceCandidate { payload, target } => {
                        let resolved = self.resolved_target(
                            room_id,
                            device_id.as_str(),
                            target.as_str(),
                        );
                        self.relay(
                            room_id,
                            resolved.as_str(),
                            SignalMessage::IceCandidate { payload, target },
                        );
                        (ConnState::Joined { device_id }, None)
                    },
                    _ => (ConnState::Joined { device_id }, None),
                }
            },
            ConnState::Closed => (ConnState::Closed, None),
        }
    }

    /// The number of participants in the room, zero for an absent room.
    pub fn participant_count(&self, room_id: &str) -> (n: usize)
        requires
            registry_wf(self@),
        ensures
            has_room(self@, room_id@) ==> n == self@[room_of(self@, room_id@)].participants.len(),
            !has_room(self@, room_id@) ==> n == 0,
    {
        match self.find_room(room_id) {
            None => 0,
            Some(i) => {
                proof {
                    let ci = room_of(self@, room_id@);
                    assert(0 <= ci < self@.len() && self@[ci].room_id == room_id@);
                    if ci != i {
                        assert(self@[ci].room_id == self@[i as int].room_id);
                        assert(false);
                    }
                }
                self.rooms[i].participants.len()
            },
        }
    }

    /// Takes the first queued outbound message for `device_id` in
    /// `room_id`, in send order; the writer for that device's socket drains
    /// its queue through this. An absent room, an absent member or an empty
    /// queue yields nothing and changes nothing.
    pub fn pop_message(&mut self, room_id: &str, device_id: &str) -> (r: Option<SignalMessage>)
        requires
            registry_wf(old(self)@),
        ensures
            registry_wf(final(self)@),
            match r {
                Some(m) => {
                    &&& has_room(old(self)@, room_id@)
                    &&& has_member(old(self)@[room_of(old(self)@, room_id@)], device_id@)
                    &&& old(self)@[room_of(old(self)@, room_id@)].participants[member_of(
                        old(self)@[room_of(old(self)@, room_id@)],
                        device_id@,
                    )].queue.len() > 0
                    &&& m@ == old(self)@[room_of(old(self)@, room_id@)].participants[member_of(
                        old(self)@[room_of(old(self)@, room_id@)],
                        device_id@,
                    )].queue[0]
                    &&& final(self)@ == old(self)@.update(
                        room_of(old(self)@, room_id@),
                        room_after_pop(old(self)@[room_of(old(self)@, room_id@)], device_id@),
                    )
                },
                None => final(self)@ == old(self)@ && (!has_room(old(self)@, room_id@)
                    || !has_member(old(self)@[room_of(old(self)@, room_id@)], device_id@)
                    || old(self)@[room_of(old(self)@, room_id@)].participants[member_of(
                    old(self)@[room_of(old(self)@, room_id@)],
                    device_id@,
                )].queue.len() == 0),
            },
    {
        let ghost old_rooms = self@;
        match self.find_room(room_id) {
            None => None,
            Some(i) => {
                proof {
                    let ci = room_of(old_rooms, room_id@);
                    assert(0 <= ci < old_rooms.len() && old_rooms[ci].room_id == room_id@);
                    if ci != i {
                        assert(old_rooms[ci].room_id == old_rooms[i as int].room_id);
                        assert(false);
                    }
                }
                let ghost old_room = old_rooms[i as int];
                match Self::find_member(&self.rooms[i], device_id) {
                    None => None,
                    Some(k) => {
                        proof {
                            let ck = member_of(old_room, device_id@);
                            assert(0 <= ck < old_room.participants.len()
                                && old_room.participants[ck].device_id == device_id@);
                            if ck != k {
                                assert(old_room.participants[ck].device_id
                                    == old_room.participants[k as int].device_id);
                                assert(false);
                            }
                        }
                        if self.rooms[i].participants[k].queue.len() == 0 {
                            return None;
                        }
                        let m = self.rooms[i].participants[k].queue.remove(0);
                        proof {
                            let updated = room_after_pop(old_room, device_id@);
                            assert(self@[i as int].participants[k as int].queue
                                =~= old_room.participants[k as int].queue.drop_first());
                            assert(self@[i as int].participants[k as int]
                                =~~= updated.participants[k as int]);
                            assert(self@[i as int].participants =~~= updated.participants);
                            assert(self@[i as int] =~~= updated);
                            assert(self@ =~~= old_rooms.update(i as int, updated));
                            assert(m@ == old_room.participants[k as int].queue[0]);
                            assert forall|a: int| 0 <= a < self@.len() implies room_wf(
                                #[trigger] self@[a],
                            ) by {
                                if a != i {
                                    assert(self@[a] == old_rooms[a]);
                                } else {
                                    assert(room_wf(old_room));
                                    assert(forall|p: int|
                                        0 <= p < self@[a].participants.len()
                                            ==> (#[trigger] self@[a].participants[p]).device_id
                                            == old_room.participants[p].device_id);
                                }
                            }
                            assert(registry_wf(self@));
                        }
                        Some(m)
                    },
                }
            },
        }
    }

    /// Ends one connection: a `Joined` connection leaves its room with the
    /// full departure effect of [`Registry::disconnect`]; an `Unjoined` or
    /// `Closed` one leaves no trace. The connection is `Closed` either way.
    pub fn handle_close(&mut self, state: ConnState, room_id: &str) -> (r: ConnState)
        requires
            registry_wf(old(self)@),
        ensures
            registry_wf(final(self)@),
            r@ == ConnStateView::Closed,
            match state@ {
                ConnStateView::Joined { device_id: did } => final(self)@ == rooms_after_disconnect(
                    old(self)@,
                    room_id@,
                    did,
                ),
                _ => final(self)@ == old(self)@,
            },
    {
        match state {
            ConnState::Joined { device_id } => {
                self.disconnect(room_id, device_id.as_str());
            },
            _ => {},
        }
        ConnState::Closed
    }
}

// ---------------------------------------------------------------------------
// Laws of the relay
// ---------------------------------------------------------------------------
/// Capacity law: in a well-formed registry no room ever holds more than two
/// participants, and every transition keeps the registry well formed, so
/// the bound holds at every observable instant.
pub proof fn lemma_room_capacity(rooms: Seq<RoomView>, i: int)
    requires
        registry_wf(rooms),
        0 <= i < rooms.len(),
    ensures
        rooms[i].participants.len() <= 2,
{
}

/// Full-room law: a join attempt on a full room is rejected and alters
/// nothing — not the addressed room's membership, not any other room.
pub proof fn lemma_full_room_join_rejected(rooms: Seq<RoomView>, rid: Seq<char>, did: Seq<char>)
    requires
        registry_wf(rooms),
        has_room(rooms, rid),
        room_full(rooms[room_of(rooms, rid)]),
    ensures
        !join_accepted(rooms, rid),
        rooms_after_join(rooms, rid, did) == rooms,
{
}

/// Deletion law: when the last participant leaves, the room is deleted, so
/// a subsequent join for the same identifier starts a fresh one-participant
/// room.
pub proof fn lemma_last_leave_deletes_room(rooms: Seq<RoomView>, rid: Seq<char>, did: Seq<char>)
    requires
        registry_wf(rooms),
        has_room(rooms, rid),
        rooms[room_of(rooms, rid)].participants.len() == 1,
        rooms[room_of(rooms, rid)].participants[0].device_id == did,
    ensures
        !has_room(rooms_after_disconnect(rooms, rid, did), rid),
        rooms_after_join(rooms_after_disconnect(rooms, rid, did), rid, did)
            == rooms_after_disconnect(rooms, rid, did).push(
            RoomView {
                room_id: rid,
                participants: seq![ParticipantView { device_id: did, queue: Seq::empty() }],
            },
        ),
{
    let i = room_of(rooms, rid);
    assert(0 <= i < rooms.len() && rooms[i].room_id == rid);
    assert(has_member(rooms[i], did));
    let ck = member_of(rooms[i], did);
    assert(ck == 0);
    assert(remove_member(rooms[i].participants, did) =~= Seq::<ParticipantView>::empty());
    let after = rooms.remove(i);
    assert(rooms_after_disconnect(rooms, rid, did) == after);
    assert forall|a: int| 0 <= a < after.len() implies (#[trigger] after[a]).room_id != rid by {
        if a < i {
            assert(after[a] == rooms[a]);
        } else {
            assert(after[a] == rooms[a + 1]);
        }
    }
}

/// Departure-notice law: when a device leaves a room that keeps at least one
/// participant, every remaining participant receives exactly one
/// `PeerDisconnected` notice naming the departed device, appended to its
/// queue, and nothing else about it changes.
pub proof fn lemma_disconnect_notifies_each_once(
    rooms: Seq<RoomView>,
    rid: Seq<char>,
    did: Seq<char>,
    p: int,
)
    requires
        registry_wf(rooms),
        has_room(rooms, rid),
        0 <= p < remove_member(rooms[room_of(rooms, rid)].participants, did).len(),
    ensures
        has_room(rooms_after_disconnect(rooms, rid, did), rid),
        rooms_after_disconnect(rooms, rid, did)[room_of(rooms, rid)].participants[p]
            =~~= (ParticipantView {
            device_id: remove_member(rooms[room_of(rooms, rid)].participants, did)[p].device_id,
            queue: remove_member(rooms[room_of(rooms, rid)].participants, did)[p].queue.push(
                SignalView::PeerDisconnected { device_id: did },
            ),
        }),
{
    let i = room_of(rooms, rid);
    let remaining = remove_member(rooms[i].participants, did);
    let after = rooms_after_disconnect(rooms, rid, did);
    assert(after == rooms.update(
        i,
        RoomView { room_id: rooms[i].room_id, participants: notify_peer_left(remaining, did) },
    ));
    assert(after[i].room_id == rid);
    assert(has_room(after, rid));
}

/// Silent-drop law: a message whose target is not a member of the addressed
/// room (or whose room does not exist) has no observable effect on the
/// registry at all.
pub proof fn lemma_absent_target_drops_message(
    rooms: Seq<RoomView>,
    rid: Seq<char>,
    target: Seq<char>,
    msg: SignalView,
)
    requires
        registry_wf(rooms),
        !has_room(rooms, rid) || !has_member(rooms[room_of(rooms, rid)], target),
    ensures
        rooms_after_relay(rooms, rid, target, msg) == rooms,
{
}

} // verus!
