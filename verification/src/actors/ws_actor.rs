//! `ClientWebSocketConnection` keeps the connected sessions, the chat rooms
//! they sit in and the key prefixes they listen to, and decides who receives
//! each message: chat in a room, arrivals and departures, and the writes of
//! keys under the prefixes that sessions listen to.
//!
//! Every handler takes the hub from one state to the next and names the
//! deliveries to be made; the actor that owns the hub performs them.
//! Session ids are the 128-bit values of the sessions' UUIDs.

use crate::actors::named_sets::{elements, holding, lists_each_name_once, members_or_empty, under_prefixes, NamedSets};
use crate::controllers::key_controller::{lemma_encoded_write_round_trips, requested_write, CreateKeyError};
use crate::url_codec::{encode_component, url_encode};
use std::collections::HashMap;
use std::collections::HashSet;
use vstd::prelude::*;

verus! {

broadcast use vstd::std_specs::hash::group_hash_axioms;

/// The text that the hub sends to a session.
pub struct Message(pub String);

/// A new session, reachable at `addr`, asks to be registered.
pub struct Connect<A> {
    pub addr: A,
}

/// Why a session could not be registered.
pub enum ConnectError {
    /// The id drawn for it already belongs to a registered session.
    IdTaken,
}

/// The session `id` is gone.
pub struct Disconnect {
    pub id: u128,
}

/// The session `id` sends `msg` to the room `room`.
pub struct ClientMessage {
    /// Id of the client session
    pub id: u128,
    /// Peer message
    pub msg: String,
    /// Room name
    pub room: String,
}

/// Asks for the names of all rooms.
pub struct ListRooms;

/// The session `id` moves to the room `name`, which is made if it does not exist.
pub struct Join {
    /// Client ID
    pub id: u128,
    /// Room name
    pub name: String,
}

/// The session `id` listens to the keys that start with `key_prefix`.
pub struct Listen {
    /// Client ID
    pub id: u128,
    /// Prefix
    pub key_prefix: String,
}

/// The key `key` now holds `value`.
pub struct KeyWritten {
    pub key: String,
    pub value: String,
}

/// A liveness probe.
pub struct Test {}

/// One message that the actor is to send: `message` to the session `to`.
pub struct Delivery {
    pub to: u128,
    pub message: Message,
}

/// What the hub holds: the address of each session, the members of each
/// room, and the listeners of each key prefix.
pub struct ConnectionView<A> {
    pub sessions: Map<u128, A>,
    pub rooms: Map<Seq<char>, Set<u128>>,
    pub listeners: Map<Seq<char>, Set<u128>>,
}

/// The room that every new session joins.
pub open spec fn main_room() -> Seq<char> {
    "main"@
}

/// The text sent to a room when a session joins it.
pub open spec fn joined_text() -> Seq<char> {
    "Someone connected"@
}

/// The text sent to a room when a session leaves it.
pub open spec fn left_text() -> Seq<char> {
    "Someone disconnected"@
}

/// The text sent to the listeners of a written key: the key and the value,
/// percent-encoded, as `key=value`.
pub open spec fn written_text(key: Seq<char>, value: Seq<char>) -> Seq<char> {
    url_encode(key) + "="@ + url_encode(value)
}

/// The registered sessions that listen to a prefix of `key`.
pub open spec fn key_listeners<A>(v: ConnectionView<A>, key: Seq<char>) -> Set<u128> {
    under_prefixes(v.listeners, key).filter(|id: u128| v.sessions.dom().contains(id))
}

/// `groups` with `id` taken out of every set.
pub open spec fn without_member(groups: Map<Seq<char>, Set<u128>>, id: u128) -> Map<Seq<char>, Set<u128>> {
    groups.map_values(|members: Set<u128>| members.remove(id))
}

/// `groups` with `id` added to the set named `name`, which is made if missing.
pub open spec fn with_member(groups: Map<Seq<char>, Set<u128>>, name: Seq<char>, id: u128) -> Map<Seq<char>, Set<u128>> {
    groups.insert(name, members_or_empty(groups, name).insert(id))
}

/// The hub as it starts: no session, one empty room `main`, no listener.
pub open spec fn initial_hub<A>() -> ConnectionView<A> {
    ConnectionView {
        sessions: Map::empty(),
        rooms: Map::empty().insert(main_room(), Set::empty()),
        listeners: Map::empty(),
    }
}

/// After `Connect`: the session is registered under `id` and sits in `main`.
pub open spec fn after_connect<A>(v: ConnectionView<A>, id: u128, addr: A) -> ConnectionView<A> {
    ConnectionView {
        sessions: v.sessions.insert(id, addr),
        rooms: with_member(v.rooms, main_room(), id),
        listeners: v.listeners,
    }
}

/// After `Disconnect`: a registered session is forgotten and leaves every
/// room; an unknown id changes nothing.
pub open spec fn after_disconnect<A>(v: ConnectionView<A>, id: u128) -> ConnectionView<A> {
    if v.sessions.dom().contains(id) {
        ConnectionView {
            sessions: v.sessions.remove(id),
            rooms: without_member(v.rooms, id),
            listeners: v.listeners,
        }
    } else {
        v
    }
}

/// After `Join`: `id` leaves every room and sits in `name` alone.
pub open spec fn after_join<A>(v: ConnectionView<A>, id: u128, name: Seq<char>) -> ConnectionView<A> {
    ConnectionView {
        sessions: v.sessions,
        rooms: with_member(without_member(v.rooms, id), name, id),
        listeners: v.listeners,
    }
}

/// After `Listen`: `id` joins the listeners of `prefix`, beside those before it.
pub open spec fn after_listen<A>(v: ConnectionView<A>, id: u128, prefix: Seq<char>) -> ConnectionView<A> {
    ConnectionView {
        sessions: v.sessions,
        rooms: v.rooms,
        listeners: with_member(v.listeners, prefix, id),
    }
}

/// Who a message to `room` from `sender` reaches: the registered sessions of
/// the room but the sender.
pub open spec fn recipients<A>(v: ConnectionView<A>, room: Seq<char>, sender: u128) -> Set<u128> {
    members_or_empty(v.rooms, room).filter(|id: u128| id != sender && v.sessions.dom().contains(id))
}

/// Whether `id` is the one that `skip` names.
pub open spec fn skips(skip: Option<u128>, id: u128) -> bool {
    skip == Some(id)
}

/// The registered sessions among `members`, but the one that `skip` names.
pub open spec fn reachable<A>(v: ConnectionView<A>, members: Set<u128>, skip: Option<u128>) -> Set<u128> {
    members.filter(|id: u128| !skips(skip, id) && v.sessions.dom().contains(id))
}

/// Whether `id` is the one that `skip` names.
fn is_skipped(skip: Option<u128>, id: u128) -> (res: bool)
    ensures
        res == skips(skip, id),
{
    match skip {
        Some(s) => s == id,
        None => false,
    }
}

/// `out` sends `text` to each of `targets` exactly once, and to no one else.
pub open spec fn delivers(out: Seq<Delivery>, targets: Set<u128>, text: Seq<char>) -> bool {
    &&& forall|k: int| 0 <= k < out.len() ==> #[trigger] targets.contains(out[k].to)
    &&& forall|k: int| 0 <= k < out.len() ==> #[trigger] out[k].message.0@ == text
    &&& forall|id: u128| targets.contains(id) ==> exists|k: int| 0 <= k < out.len() && #[trigger] out[k].to == id
    &&& forall|a: int, b: int| 0 <= a < out.len() && 0 <= b < out.len() && a != b ==> #[trigger] out[a].to != #[trigger] out[b].to
}

/// The messages that tell one room that a session left it.
pub struct RoomDeliveries {
    pub room: String,
    pub deliveries: Vec<Delivery>,
}

/// `left` tells each room of `v` that held `id`, once, that `id` left it:
/// every other registered session of that room gets the notice once.
pub open spec fn announces_departure<A>(left: Seq<RoomDeliveries>, v: ConnectionView<A>, id: u128) -> bool {
    &&& lists_each_name_once(left.map_values(|r: RoomDeliveries| r.room), holding(v.rooms, id))
    &&& forall|k: int| 0 <= k < left.len() ==> delivers(#[trigger] left[k].deliveries@, recipients(v, left[k].room@, id), left_text())
}

/// Taking `sender` out of every room changes nobody's share of what it sends.
proof fn lemma_recipients_ignore_sender_removal<A>(v: ConnectionView<A>, room: Seq<char>, sender: u128)
    ensures
        recipients(
            ConnectionView { sessions: v.sessions, rooms: without_member(v.rooms, sender), listeners: v.listeners },
            room,
            sender,
        ) == recipients(v, room, sender),
{
    let w = ConnectionView { sessions: v.sessions, rooms: without_member(v.rooms, sender), listeners: v.listeners };
    assert(recipients(w, room, sender) =~= recipients(v, room, sender));
}

/// The ids below `n`.
pub open spec fn ids_below(n: nat) -> Set<u128> {
    Set::new(|id: u128| (id as nat) < n)
}

/// There are exactly `n` ids below `n`.
proof fn lemma_ids_below(n: nat)
    requires
        n <= u128::MAX + 1,
    ensures
        ids_below(n).finite(),
        ids_below(n).len() == n,
    decreases n,
{
    if n == 0 {
        assert(ids_below(0) =~= Set::<u128>::empty());
    } else {
        lemma_ids_below((n - 1) as nat);
        assert(ids_below(n) =~= ids_below((n - 1) as nat).insert((n - 1) as u128));
    }
}

/// The hub: the sessions by id, the chat rooms and the key-prefix listeners.
pub struct ClientWebSocketConnection<A> {
    sessions: HashMap<u128, A>,
    pub rooms: NamedSets,
    pub prefix_listners: NamedSets,
}

impl<A> View for ClientWebSocketConnection<A> {
    type V = ConnectionView<A>;

    closed spec fn view(&self) -> ConnectionView<A> {
        ConnectionView { sessions: self.sessions@, rooms: self.rooms@, listeners: self.prefix_listners@ }
    }
}

impl<A> ClientWebSocketConnection<A> {
    /// Both tables keep their names distinct.
    pub closed spec fn wf(&self) -> bool {
        self.rooms.wf() && self.prefix_listners.wf()
    }

    /// A hub with no session, the empty room `main`, and no listener.
    pub fn new() -> (res: Self)
        ensures
            res.wf(),
            res@ == initial_hub::<A>(),
    {
        let mut rooms = NamedSets::new();
        rooms.set_members(&"main".to_owned(), HashSet::new());
        let res = ClientWebSocketConnection {
            sessions: HashMap::new(),
            rooms,
            prefix_listners: NamedSets::new(),
        };
        proof {
            assert(res@.rooms =~= initial_hub::<A>().rooms);
        }
        res
    }

    /// The address of the session `id`, if it is registered.
    pub fn session(&self, id: u128) -> (res: Option<&A>)
        ensures
            res is Some <==> self@.sessions.dom().contains(id),
            res matches Some(addr) ==> *addr == self@.sessions[id],
    {
        self.sessions.get(&id)
    }

    /// The messages that `message` to the ids of `members` becomes: one to
    /// each registered session among them but `skip`.
    fn deliveries_to(&self, members: &HashSet<u128>, skip: Option<u128>, message: &String) -> (res: Vec<Delivery>)
        ensures
            delivers(res@, reachable(self@, members@, skip), message@),
    {
        let ghost targets = reachable(self@, members@, skip);
        let mut res: Vec<Delivery> = Vec::new();
        let ids = elements(members);
        let mut i: usize = 0;
        while i < ids.len()
            invariant
                i <= ids@.len(),
                ids@.no_duplicates(),
                ids@.to_set() == members@,
                targets == reachable(self@, members@, skip),
                forall|k: int| 0 <= k < res@.len() ==> #[trigger] targets.contains(res@[k].to),
                forall|k: int| 0 <= k < res@.len() ==> #[trigger] res@[k].message.0@ == message@,
                forall|k: int| 0 <= k < res@.len() ==> exists|j: int| 0 <= j < i && #[trigger] ids@[j] == #[trigger] res@[k].to,
                forall|j: int| 0 <= j < i && targets.contains(#[trigger] ids@[j]) ==> exists|k: int| 0 <= k < res@.len() && #[trigger] res@[k].to == ids@[j],
                forall|a: int, b: int| 0 <= a < res@.len() && 0 <= b < res@.len() && a != b ==> #[trigger] res@[a].to != #[trigger] res@[b].to,
            decreases ids@.len() - i,
        {
            let id = ids[i];
            proof {
                assert(ids@.to_set().contains(id));
            }
            let ghost before = res@;
            if !is_skipped(skip, id) && self.sessions.contains_key(&id) {
                proof {
                    assert(targets.contains(id));
                }
                proof {
                    assert forall|k: int| 0 <= k < before.len() implies before[k].to != id by {
                        let j = choose|j: int| 0 <= j < i && #[trigger] ids@[j] == #[trigger] before[k].to;
                        assert(ids@[j] != ids@[i as int]);
                    }
                }
                res.push(Delivery { to: id, message: Message(message.clone()) });
                proof {
                    assert(res@[before.len() as int].to == ids@[i as int]);
                }
            } else {
                proof {
                    assert(!targets.contains(id));
                }
            }
            proof {
                assert forall|j: int| 0 <= j < i + 1 && targets.contains(#[trigger] ids@[j]) implies exists|k: int|
                    0 <= k < res@.len() && #[trigger] res@[k].to == ids@[j] by {
                    if j < i {
                        let k = choose|k: int| 0 <= k < before.len() && #[trigger] before[k].to == ids@[j];
                        assert(res@[k] == before[k]);
                    } else {
                        assert(res@[res@.len() - 1].to == ids@[j]);
                    }
                }
            }
            i = i + 1;
        }
        proof {
            assert forall|id: u128| targets.contains(id) implies exists|k: int| 0 <= k < res@.len() && #[trigger] res@[k].to == id by {
                assert(ids@.to_set().contains(id));
                let j = choose|j: int| 0 <= j < ids@.len() && ids@[j] == id;
                assert(targets.contains(ids@[j]));
            }
        }
        res
    }

    /// The messages that `message` to `room` becomes: one to each registered
    /// session of the room but `skip_id`.
    pub fn send_message(&self, room: &String, message: &String, skip_id: u128) -> (res: Vec<Delivery>)
        requires
            self.wf(),
        ensures
            delivers(res@, recipients(self@, room@, skip_id), message@),
            forall|id: u128| id != skip_id && self@.sessions.dom().contains(id) && self@.rooms.dom().contains(room@)
                && self@.rooms[room@].contains(id) ==> exists|k: int| 0 <= k < res@.len() && #[trigger] res@[k].to == id,
    {
        proof {
            lemma_recipients_are_exactly_other_members(self@, room@, skip_id);
        }
        let res = match self.rooms.members(room) {
            Some(members) => {
                proof {
                    assert(reachable(self@, members@, Some(skip_id)) =~= recipients(self@, room@, skip_id));
                }
                self.deliveries_to(members, Some(skip_id), message)
            },
            None => {
                proof {
                    assert(recipients(self@, room@, skip_id) =~= Set::<u128>::empty());
                }
                Vec::new()
            },
        };
        proof {
            assert forall|id: u128| id != skip_id && self@.sessions.dom().contains(id) && self@.rooms.dom().contains(room@)
                && self@.rooms[room@].contains(id) implies exists|k: int| 0 <= k < res@.len() && #[trigger] res@[k].to == id by {
                assert(recipients(self@, room@, skip_id).contains(id));
            }
        }
        res
    }

    /// Registers the session `addr` under `id` and seats it in `main`
    /// (the room is made again if it is missing).
    pub fn register_session(&mut self, id: u128, addr: A)
        requires
            old(self).wf(),
        ensures
            final(self).wf(),
            final(self)@ == after_connect(old(self)@, id, addr),
    {
        self.sessions.insert(id, addr);
        self.rooms.add_member(&"main".to_owned(), id);
    }

    /// Registers the session `addr` under `id`, seated in `main`, if no
    /// session holds `id` yet; otherwise refuses and changes nothing.
    pub fn connect_as(&mut self, id: u128, addr: A) -> (res: Result<u128, ConnectError>)
        requires
            old(self).wf(),
        ensures
            final(self).wf(),
            !old(self)@.sessions.dom().contains(id) ==> res == Ok::<u128, ConnectError>(id)
                && final(self)@ == after_connect(old(self)@, id, addr),
            old(self)@.sessions.dom().contains(id) ==> res == Err::<u128, ConnectError>(ConnectError::IdTaken)
                && final(self)@ == old(self)@,
    {
        if self.sessions.contains_key(&id) {
            Err(ConnectError::IdTaken)
        } else {
            self.register_session(id, addr);
            Ok(id)
        }
    }

    /// The smallest id that no session holds.
    fn free_id(&self) -> (res: u128)
        ensures
            !self@.sessions.dom().contains(res),
    {
        let len = self.sessions.len();
        let mut candidate: u128 = 0;
        while self.sessions.contains_key(&candidate)
            invariant
                len == self@.sessions.len(),
                candidate as nat <= len,
                forall|x: u128| (x as nat) < candidate ==> #[trigger] self@.sessions.dom().contains(x),
            decreases len as int - candidate as int,
        {
            proof {
                let below = ids_below(candidate as nat + 1);
                lemma_ids_below(candidate as nat + 1);
                assert(below.subset_of(self@.sessions.dom()));
                vstd::set_lib::lemma_len_subset(below, self@.sessions.dom());
            }
            candidate = candidate + 1;
        }
        candidate
    }

    /// Handles `Connect`: registers the session under a random id that no
    /// session holds, seated in `main`, and returns that id. The id is drawn
    /// afresh; should the draw hit an id already taken, the smallest free id
    /// is used instead, so every session gets an id of its own.
    pub fn handle_connect(&mut self, msg: Connect<A>) -> (res: Result<u128, ConnectError>)
        requires
            old(self).wf(),
        ensures
            final(self).wf(),
            res is Ok,
            res matches Ok(id) ==> !old(self)@.sessions.dom().contains(id)
                && final(self)@ == after_connect(old(self)@, id, msg.addr),
            res is Err ==> final(self)@ == old(self)@,
            old(self)@.sessions.dom().is_empty() ==> res is Ok,
    {
        let drawn = new_session_id();
        let id = if self.sessions.contains_key(&drawn) {
            self.free_id()
        } else {
            drawn
        };
        self.register_session(id, msg.addr);
        Ok(id)
    }

    /// Handles `Disconnect`: a registered session is forgotten and taken out
    /// of every room; an unknown id changes nothing.
    pub fn handle_disconnect(&mut self, msg: Disconnect)
        requires
            old(self).wf(),
        ensures
            final(self).wf(),
            final(self)@ == after_disconnect(old(self)@, msg.id),
    {
        let ghost before = self@;
        if self.sessions.remove(&msg.id).is_some() {
            let _left_rooms = self.rooms.remove_everywhere(msg.id);
        } else {
            proof {
                assert(self@.sessions =~= before.sessions);
            }
        }
    }

    /// Handles `ClientMessage`: the message goes to the other registered
    /// sessions of its room.
    pub fn handle_client_message(&self, msg: ClientMessage) -> (res: Vec<Delivery>)
        requires
            self.wf(),
        ensures
            delivers(res@, recipients(self@, msg.room@, msg.id), msg.msg@),
            forall|id: u128| id != msg.id && self@.sessions.dom().contains(id) && self@.rooms.dom().contains(msg.room@)
                && self@.rooms[msg.room@].contains(id) ==> exists|k: int| 0 <= k < res@.len() && #[trigger] res@[k].to == id,
    {
        self.send_message(&msg.room, &msg.msg, msg.id)
    }

    /// Handles `ListRooms`: the name of every room, each once.
    pub fn handle_list_rooms(&self, msg: ListRooms) -> (res: Vec<String>)
        requires
            self.wf(),
        ensures
            lists_each_name_once(res@, self@.rooms),
    {
        self.rooms.names()
    }

    /// Handles `Join`: the session leaves every room, and the other registered
    /// sessions of each room it left are told that someone disconnected; then
    /// it joins `name` (made if missing), and the other registered sessions
    /// there are told that someone connected. Returns the departure notices,
    /// room by room, and the arrival notices.
    pub fn handle_join(&mut self, msg: Join) -> (res: (Vec<RoomDeliveries>, Vec<Delivery>))
        requires
            old(self).wf(),
        ensures
            final(self).wf(),
            final(self)@ == after_join(old(self)@, msg.id, msg.name@),
            announces_departure(res.0@, old(self)@, msg.id),
            delivers(res.1@, recipients(final(self)@, msg.name@, msg.id), joined_text()),
    {
        let Join { id, name } = msg;
        let ghost before = self@;
        let left_rooms = self.rooms.remove_everywhere(id);
        let mut left: Vec<RoomDeliveries> = Vec::new();
        let mut i: usize = 0;
        while i < left_rooms.len()
            invariant
                self.wf(),
                self@ == (ConnectionView { sessions: before.sessions, rooms: without_member(before.rooms, id), listeners: before.listeners }),
                i <= left_rooms@.len(),
                left@.len() == i,
                forall|k: int| 0 <= k < i ==> (#[trigger] left@[k]).room == left_rooms@[k],
                forall|k: int| 0 <= k < i ==> delivers(#[trigger] left@[k].deliveries@, recipients(before, left_rooms@[k]@, id), left_text()),
            decreases left_rooms@.len() - i,
        {
            let deliveries = self.send_message(&left_rooms[i], &"Someone disconnected".to_owned(), id);
            proof {
                lemma_recipients_ignore_sender_removal(before, left_rooms@[i as int]@, id);
            }
            left.push(RoomDeliveries { room: left_rooms[i].clone(), deliveries });
            i = i + 1;
        }
        proof {
            assert(left@.map_values(|r: RoomDeliveries| r.room) =~= left_rooms@);
        }
        self.rooms.add_member(&name, id);
        let joined = self.send_message(&name, &"Someone connected".to_owned(), id);
        (left, joined)
    }

    /// Handles `Listen`: the session joins the listeners of the prefix; the
    /// listeners before it stay.
    pub fn handle_listen(&mut self, msg: Listen)
        requires
            old(self).wf(),
        ensures
            final(self).wf(),
            final(self)@ == after_listen(old(self)@, msg.id, msg.key_prefix@),
    {
        let Listen { id, key_prefix } = msg;
        self.prefix_listners.add_member(&key_prefix, id);
    }

    /// Handles `KeyWritten`: every registered session that listens to a
    /// prefix of the key is sent the key and its new value, once.
    pub fn handle_key_written(&self, msg: KeyWritten) -> (res: Vec<Delivery>)
        requires
            self.wf(),
        ensures
            delivers(res@, key_listeners(self@, msg.key@), written_text(msg.key@, msg.value@)),
    {
        let listeners = self.prefix_listners.members_under_prefixes(msg.key.as_str());
        let mut text = encode_component(msg.key.as_str());
        text.append("=");
        let encoded_value = encode_component(msg.value.as_str());
        text.append(encoded_value.as_str());
        proof {
            assert(reachable(self@, listeners@, None) =~= key_listeners(self@, msg.key@));
        }
        self.deliveries_to(&listeners, None, &text)
    }

    /// Handles `Test`: answers "That worked".
    pub fn handle_test(&self, msg: Test) -> (res: String)
        ensures
            res@ == "That worked"@,
    {
        "That worked".to_owned()
    }
}

/// `uuid::Uuid::new_v4`, read as the UUID's 128-bit value. The id is drawn at
/// random, so nothing is promised of it.
#[verifier::external_body]
fn new_session_id() -> u128 {
    uuid::Uuid::new_v4().as_u128()
}

/// An event that changes the hub, as its handlers see it.
pub enum HubEvent<A> {
    Connect(u128, A),
    Disconnect(u128),
    Join(u128, Seq<char>),
    Listen(u128, Seq<char>),
}

/// The hub after one event.
pub open spec fn step<A>(v: ConnectionView<A>, e: HubEvent<A>) -> ConnectionView<A> {
    match e {
        HubEvent::Connect(id, addr) => after_connect(v, id, addr),
        HubEvent::Disconnect(id) => after_disconnect(v, id),
        HubEvent::Join(id, name) => after_join(v, id, name),
        HubEvent::Listen(id, prefix) => after_listen(v, id, prefix),
    }
}

/// The hub after a sequence of events, in order.
pub open spec fn run<A>(v: ConnectionView<A>, events: Seq<HubEvent<A>>) -> ConnectionView<A>
    decreases events.len(),
{
    if events.len() == 0 {
        v
    } else {
        step(run(v, events.drop_last()), events.last())
    }
}

/// No event removes a room: every room that exists before an event exists after it.
pub proof fn lemma_step_keeps_rooms<A>(v: ConnectionView<A>, e: HubEvent<A>)
    ensures
        v.rooms.dom().subset_of(step(v, e).rooms.dom()),
{
}

/// The room `main` exists in every state the hub reaches from its start.
pub proof fn lemma_main_room_always_exists<A>(events: Seq<HubEvent<A>>)
    ensures
        run(initial_hub::<A>(), events).rooms.dom().contains(main_room()),
    decreases events.len(),
{
    if events.len() > 0 {
        lemma_main_room_always_exists(events.drop_last());
        lemma_step_keeps_rooms(run(initial_hub::<A>(), events.drop_last()), events.last());
    }
}

/// After `Join`, the session sits in the room it joined and in no other;
/// no other session moves.
pub proof fn lemma_join_seats_in_one_room<A>(v: ConnectionView<A>, id: u128, name: Seq<char>)
    ensures
        after_join(v, id, name).rooms.dom().contains(name),
        forall|room: Seq<char>| #[trigger] after_join(v, id, name).rooms.dom().contains(room)
            ==> (after_join(v, id, name).rooms[room].contains(id) <==> room == name),
        forall|room: Seq<char>, other: u128| other != id && v.rooms.dom().contains(room)
            ==> (#[trigger] after_join(v, id, name).rooms[room].contains(other) <==> v.rooms[room].contains(other)),
{
}

/// After `Disconnect` of a registered session, it is no longer registered and
/// sits in no room; no other session moves.
pub proof fn lemma_disconnect_leaves_no_trace<A>(v: ConnectionView<A>, id: u128)
    requires
        v.sessions.dom().contains(id),
    ensures
        !after_disconnect(v, id).sessions.dom().contains(id),
        after_disconnect(v, id).rooms.dom() == v.rooms.dom(),
        forall|room: Seq<char>| #[trigger] after_disconnect(v, id).rooms.dom().contains(room)
            ==> !after_disconnect(v, id).rooms[room].contains(id),
        forall|room: Seq<char>, other: u128| other != id && v.rooms.dom().contains(room)
            ==> (#[trigger] after_disconnect(v, id).rooms[room].contains(other) <==> v.rooms[room].contains(other)),
{
}

/// `Disconnect` undoes `Connect`: a session that connects under a fresh id
/// and then disconnects leaves the hub as it was, once `main` exists.
pub proof fn lemma_disconnect_undoes_connect<A>(v: ConnectionView<A>, id: u128, addr: A)
    requires
        !v.sessions.dom().contains(id),
        v.rooms.dom().contains(main_room()),
        forall|room: Seq<char>| #[trigger] v.rooms.dom().contains(room) ==> !v.rooms[room].contains(id),
    ensures
        after_disconnect(after_connect(v, id, addr), id) == v,
{
    let w = after_disconnect(after_connect(v, id, addr), id);
    assert(w.sessions =~= v.sessions);
    assert forall|room: Seq<char>| #[trigger] w.rooms.dom().contains(room) implies w.rooms[room] == v.rooms[room] by {
        assert(w.rooms[room] =~= v.rooms[room]);
    }
    assert(w.rooms =~= v.rooms);
}

/// A message never goes back to its sender, and reaches only registered
/// sessions of its room.
pub proof fn lemma_recipients_are_other_members<A>(v: ConnectionView<A>, room: Seq<char>, sender: u128)
    ensures
        !recipients(v, room, sender).contains(sender),
        forall|id: u128| #[trigger] recipients(v, room, sender).contains(id) ==> v.sessions.dom().contains(id)
            && v.rooms.dom().contains(room) && v.rooms[room].contains(id),
{
}

/// A message to a room reaches exactly the registered sessions of that room
/// other than its sender: each of them, and no one else.
pub proof fn lemma_recipients_are_exactly_other_members<A>(v: ConnectionView<A>, room: Seq<char>, sender: u128)
    ensures
        forall|id: u128| #[trigger] recipients(v, room, sender).contains(id) <==> (id != sender
            && v.sessions.dom().contains(id) && v.rooms.dom().contains(room) && v.rooms[room].contains(id)),
{
}

/// Handing a message to a set of ids reaches exactly the registered sessions
/// among them, but the one skipped.
pub proof fn lemma_reachable_are_registered_members<A>(v: ConnectionView<A>, members: Set<u128>, skip: Option<u128>)
    ensures
        forall|id: u128| #[trigger] reachable(v, members, skip).contains(id) <==> (members.contains(id)
            && v.sessions.dom().contains(id) && skip != Some(id)),
{
}

/// A write of a key reaches exactly the registered sessions that listen to a
/// prefix of the key.
pub proof fn lemma_key_listeners_exactly<A>(v: ConnectionView<A>, key: Seq<char>)
    ensures
        forall|id: u128| #[trigger] key_listeners(v, key).contains(id) <==> (v.sessions.dom().contains(id)
            && exists|prefix: Seq<char>| #[trigger] v.listeners.dom().contains(prefix) && prefix.is_prefix_of(key)
            && v.listeners[prefix].contains(id)),
{
}

/// After `Listen`, the session listens to its prefix and every earlier
/// listener of that prefix still does; other prefixes keep their listeners,
/// and no session or room changes.
pub proof fn lemma_listen_adds_listener<A>(v: ConnectionView<A>, id: u128, prefix: Seq<char>)
    ensures
        after_listen(v, id, prefix).listeners.dom().contains(prefix),
        after_listen(v, id, prefix).listeners[prefix] == members_or_empty(v.listeners, prefix).insert(id),
        forall|other: Seq<char>| other != prefix ==> #[trigger] after_listen(v, id, prefix).listeners.dom().contains(other)
            == v.listeners.dom().contains(other),
        forall|other: Seq<char>| other != prefix && v.listeners.dom().contains(other)
            ==> #[trigger] after_listen(v, id, prefix).listeners[other] == v.listeners[other],
        after_listen(v, id, prefix).sessions == v.sessions,
        after_listen(v, id, prefix).rooms == v.rooms,
{
}

/// A registered session that listens to a prefix hears of every write of a
/// key with that prefix, from the moment it listens, whatever else listens.
pub proof fn lemma_listener_hears_matching_writes<A>(v: ConnectionView<A>, id: u128, prefix: Seq<char>, key: Seq<char>)
    requires
        v.sessions.dom().contains(id),
        prefix.is_prefix_of(key),
    ensures
        key_listeners(after_listen(v, id, prefix), key).contains(id),
        key_listeners(v, key).subset_of(key_listeners(after_listen(v, id, prefix), key)),
{
    let w = after_listen(v, id, prefix);
    assert(w.listeners.dom().contains(prefix) && w.listeners[prefix].contains(id));
    assert forall|other: u128| key_listeners(v, key).contains(other) implies key_listeners(w, key).contains(other) by {
        let name = choose|name: Seq<char>| #[trigger] v.listeners.dom().contains(name) && name.is_prefix_of(key)
            && v.listeners[name].contains(other);
        assert(w.listeners.dom().contains(name) && w.listeners[name].contains(other));
    }
}

/// Only sessions that listen to a prefix of the key hear of its write.
pub proof fn lemma_only_listeners_hear_writes<A>(v: ConnectionView<A>, key: Seq<char>, id: u128)
    requires
        key_listeners(v, key).contains(id),
    ensures
        v.sessions.dom().contains(id),
        exists|prefix: Seq<char>| #[trigger] v.listeners.dom().contains(prefix) && prefix.is_prefix_of(key)
            && v.listeners[prefix].contains(id),
{
}

/// The text that the listeners of a write receive, read as the body of a
/// write, asks for exactly that write.
pub proof fn lemma_written_text_reads_as_write(key: Seq<char>, value: Seq<char>)
    ensures
        requested_write(written_text(key, value)) == Ok::<(Seq<char>, Seq<char>), CreateKeyError>((key, value)),
{
    lemma_encoded_write_round_trips(key, value);
}

} // verus!
