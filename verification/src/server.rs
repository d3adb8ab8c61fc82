//! The multiplayer server's rooms: each room passes the events of its host
//! to its peer and back, first in, first out. Accepting connections, reading
//! and writing them, and the clock are the caller's.

use vstd::prelude::*;
use std::collections::HashMap;
use crate::codec::{Event, EVENT_JOIN, EVENT_NONE, MSG_CREATE, MSG_EVENT, MSG_JOIN, MSG_POLL, from_u32_bytes,
    to_u32_bytes, u32_from_be, u32_be_bytes, event_from_bytes, event_bytes, spec_event_new};
use crate::game_map::spec_is_err;
use crate::random::{random_in_range, random_u32};

verus! {

broadcast use vstd::std_specs::hash::group_hash_axioms;

/// The network address of a client.
#[derive(Clone, Copy, Debug, PartialEq, Eq, Structural)]
pub enum PeerAddr {
    V4(u32),
    V6(u128),
}

/// A room: its token, the host's and the peer's addresses and tokens, the
/// events waiting for each of them, and when it was last polled (in seconds).
pub struct Room {
    pub token: u32,
    pub host_addr: PeerAddr,
    pub peer_addr: Option<PeerAddr>,
    pub host_token: u32,
    pub peer_token: u32,
    pub host_events: Vec<Event>,
    pub peer_events: Vec<Event>,
    pub last_poll: u64,
}

/// A room after `is_host`'s side at `addr` sent `event`: the host sends to
/// the peer, the peer (once joined) to the host; anyone else is refused.
pub open spec fn spec_pushed(before: Room, after: Room, is_host: bool, addr: PeerAddr, event: Event, r: Result<(), String>) -> bool {
    if is_host && before.host_addr == addr {
        &&& r is Ok
        &&& after.peer_events@ == before.peer_events@.push(event)
        &&& after.host_events@ == before.host_events@
        &&& spec_same_room_but_queues(before, after)
    } else if !is_host && before.peer_addr == Some(addr) {
        &&& r is Ok
        &&& after.host_events@ == before.host_events@.push(event)
        &&& after.peer_events@ == before.peer_events@
        &&& spec_same_room_but_queues(before, after)
    } else {
        &&& spec_is_err(r, "Cannot push_event: Peer has not joined the room"@)
        &&& after.host_events@ == before.host_events@
        &&& after.peer_events@ == before.peer_events@
        &&& spec_same_room_but_queues(before, after)
    }
}

/// Whether two rooms agree on all but their queues.
pub open spec fn spec_same_room_but_queues(a: Room, b: Room) -> bool {
    &&& a.token == b.token
    &&& a.host_addr == b.host_addr
    &&& a.peer_addr == b.peer_addr
    &&& a.host_token == b.host_token
    &&& a.peer_token == b.peer_token
    &&& a.last_poll == b.last_poll
}

/// The queue `is_host`'s side at `addr` reads from: the host's own, or the
/// peer's once joined; none for anyone else.
pub open spec fn spec_own_queue(room: Room, is_host: bool, addr: PeerAddr) -> Option<Seq<Event>> {
    if is_host && room.host_addr == addr {
        Some(room.host_events@)
    } else if !is_host && room.peer_addr == Some(addr) {
        Some(room.peer_events@)
    } else {
        None
    }
}

impl Room {
    /// A room created by the host at `addr` at time `now`, with fresh random
    /// tokens; the peer's queue starts with the notice that it has joined.
    pub fn new(addr: PeerAddr, now: u64) -> (r: Room)
        ensures
            r.host_addr == addr,
            r.peer_addr is None,
            r.host_events@.len() == 0,
            r.peer_events@ == seq![Event { action: EVENT_JOIN, id: 0, from_pos: (0, 0), to_pos: (0, 0), value: 0, from_self: true }],
            r.last_poll == now,
    {
        let mut peer_events: Vec<Event> = Vec::new();
        peer_events.push(Event::new(EVENT_JOIN));
        Room {
            token: random_u32(),
            host_addr: addr,
            peer_addr: None,
            host_token: random_u32(),
            peer_token: random_u32(),
            host_events: Vec::new(),
            peer_events,
            last_poll: now,
        }
    }

    /// Lets the client at `addr` in as the peer, if the room has none yet,
    /// and tells the host it has joined.
    pub fn try_join(&mut self, addr: PeerAddr) -> (r: Result<(), String>)
        ensures
            old(self).peer_addr is None ==> {
                &&& r is Ok
                &&& final(self).peer_addr == Some(addr)
                &&& final(self).host_events@ == old(self).host_events@.push(spec_event_new(EVENT_JOIN))
                &&& final(self).peer_events@ == old(self).peer_events@
                &&& final(self).token == old(self).token
                &&& final(self).host_addr == old(self).host_addr
                &&& final(self).host_token == old(self).host_token
                &&& final(self).peer_token == old(self).peer_token
                &&& final(self).last_poll == old(self).last_poll
            },
            old(self).peer_addr is Some ==> spec_is_err(r, "Room already full"@) && *final(self) == *old(self),
    {
        if self.peer_addr.is_none() {
            self.peer_addr = Some(addr);
            let pushed = self.push_event(false, addr, Event::new(EVENT_JOIN));
            assert(pushed is Ok);
            Ok(())
        } else {
            Err("Room already full".to_string())
        }
    }

    /// The side `is_host` at `addr` sends `event` to the other side (see `spec_pushed`).
    pub fn push_event(&mut self, is_host: bool, addr: PeerAddr, event: Event) -> (r: Result<(), String>)
        ensures
            spec_pushed(*old(self), *final(self), is_host, addr, event, r),
    {
        if is_host && self.host_addr == addr {
            self.peer_events.push(event);
        } else if !is_host && self.peer_addr == Some(addr) {
            self.host_events.push(event);
        } else {
            return Err("Cannot push_event: Peer has not joined the room".to_string());
        }
        Ok(())
    }

    /// The side `is_host` at `addr` takes the oldest event waiting for it, or
    /// an empty event when none is; the room counts as polled at `now`
    /// either way. Anyone else is refused.
    pub fn pop_event(&mut self, is_host: bool, addr: PeerAddr, now: u64) -> (r: Result<Event, String>)
        ensures
            final(self).last_poll == now,
            final(self).token == old(self).token,
            final(self).host_addr == old(self).host_addr,
            final(self).peer_addr == old(self).peer_addr,
            final(self).host_token == old(self).host_token,
            final(self).peer_token == old(self).peer_token,
            match spec_own_queue(*old(self), is_host, addr) {
                None => spec_is_err(r, "Cannot pop_event: Peer has not joined the room"@)
                    && final(self).host_events@ == old(self).host_events@
                    && final(self).peer_events@ == old(self).peer_events@,
                Some(q) => {
                    &&& q.len() == 0 ==> r == Ok::<Event, String>(spec_event_new(EVENT_NONE))
                    &&& q.len() > 0 ==> r == Ok::<Event, String>(q[0])
                    &&& spec_own_queue(*final(self), is_host, addr) == Some(if q.len() == 0 { q } else { q.drop_first() })
                    &&& (is_host && old(self).host_addr == addr) ==> final(self).peer_events@ == old(self).peer_events@
                    &&& !(is_host && old(self).host_addr == addr) ==> final(self).host_events@ == old(self).host_events@
                },
            },
    {
        self.last_poll = now;
        if is_host && self.host_addr == addr {
            if self.host_events.len() == 0 {
                return Ok(Event::new(EVENT_NONE));
            }
            let e = self.host_events.remove(0);
            assert(self.host_events@ =~= old(self).host_events@.drop_first());
            Ok(e)
        } else if !is_host && self.peer_addr == Some(addr) {
            if self.peer_events.len() == 0 {
                return Ok(Event::new(EVENT_NONE));
            }
            let e = self.peer_events.remove(0);
            assert(self.peer_events@ =~= old(self).peer_events@.drop_first());
            Ok(e)
        } else {
            Err("Cannot pop_event: Peer has not joined the room".to_string())
        }
    }
}

/// Events go through a room first in, first out: what the host sends
/// while the peer's queue holds `q` is read by the peer after everything
/// of `q`, and the peer's next read is the head of `q` (or the event itself
/// when `q` was empty).
pub proof fn lemma_room_fifo(r0: Room, r1: Room, r2: Room, addr: PeerAddr, peer: PeerAddr, event: Event,
    pushed: Result<(), String>, popped: Result<Event, String>)
    requires
        r0.host_addr == addr,
        r0.peer_addr == Some(peer),
        spec_pushed(r0, r1, true, addr, event, pushed),
        spec_own_queue(r1, false, peer) matches Some(q) && (q.len() > 0 ==> popped == Ok::<Event, String>(q[0])),
    ensures
        pushed is Ok,
        r0.peer_events@.len() == 0 ==> popped == Ok::<Event, String>(event),
        r0.peer_events@.len() > 0 ==> popped == Ok::<Event, String>(r0.peer_events@[0]),
{
    assert(r1.peer_events@ == r0.peer_events@.push(event));
    assert(spec_own_queue(r1, false, peer) == Some(r1.peer_events@));
}

/// What a request with `header` from `addr` at `now` does to the existing
/// room `before`, and the reply `r`: joining lets the client in as the peer
/// (refused when the room is full); otherwise the room's token and the
/// client's token are checked, and then an event is to be read, or the
/// oldest event waiting for the client is sent back.
pub open spec fn spec_in_room(before: Room, after: Room, header: RequestHeader, addr: PeerAddr, now: u64, r: Result<Reply, String>) -> bool {
    if header.action == MSG_JOIN {
        if before.peer_addr is None {
            &&& r matches Ok(Reply::Tokens(b)) && b@ == spec_tokens(before.peer_token, header.code, before.token)
            &&& after.peer_addr == Some(addr)
            &&& after.host_events@ == before.host_events@.push(spec_event_new(EVENT_JOIN))
            &&& after.peer_events@ == before.peer_events@
            &&& after.token == before.token
            &&& after.host_addr == before.host_addr
            &&& after.host_token == before.host_token
            &&& after.peer_token == before.peer_token
            &&& after.last_poll == before.last_poll
        } else {
            spec_is_err(r, "Room already full"@) && after == before
        }
    } else if header.token != before.token {
        spec_is_err(r, "Invalid request: incorrect token"@) && after == before
    } else if header.user_token != before.host_token && header.user_token != before.peer_token {
        spec_is_err(r, "Invalid request: invalid user token"@) && after == before
    } else {
        let is_host = header.user_token == before.host_token;
        if header.action == MSG_EVENT {
            (r matches Ok(Reply::ReadEvent { code, is_host: h }) && code == header.code && h == is_host) && after == before
        } else if header.action == MSG_POLL {
            &&& after.last_poll == now
            &&& spec_same_room_but_queues(Room { last_poll: now, ..before }, after)
            &&& match spec_own_queue(before, is_host, addr) {
                None => spec_is_err(r, "Cannot pop_event: Peer has not joined the room"@)
                    && after.host_events@ == before.host_events@ && after.peer_events@ == before.peer_events@,
                Some(q) => {
                    &&& r matches Ok(Reply::Event(b)) && b@ == event_bytes(if q.len() == 0 { spec_event_new(EVENT_NONE) } else { q[0] })
                    &&& spec_own_queue(after, is_host, addr) == Some(if q.len() == 0 { q } else { q.drop_first() })
                    &&& (is_host && before.host_addr == addr) ==> after.peer_events@ == before.peer_events@
                    &&& !(is_host && before.host_addr == addr) ==> after.host_events@ == before.host_events@
                },
            }
        } else {
            r matches Ok(Reply::Nothing) && after == before
        }
    }
}

/// The server: its rooms by code.
pub struct Server {
    pub rooms: HashMap<u32, Room>,
}

/// What a request asks of the server, parsed from its 13-byte header: the
/// kind of request, the client's token, the room's code and the room's token.
#[derive(Clone, Copy, Debug)]
pub struct RequestHeader {
    pub action: u8,
    pub user_token: u32,
    pub code: u32,
    pub token: u32,
}

pub open spec fn spec_request_header(b: Seq<u8>) -> RequestHeader {
    RequestHeader {
        action: b[0],
        user_token: u32_from_be(b.subrange(1, 5)),
        code: u32_from_be(b.subrange(5, 9)),
        token: u32_from_be(b.subrange(9, 13)),
    }
}

/// Reads a request's header.
pub fn parse_request_header(buffer: &[u8; 13]) -> (h: RequestHeader)
    ensures
        h == spec_request_header(buffer@),
{
    RequestHeader {
        action: buffer[0],
        user_token: from_u32_bytes(&buffer[1..5]),
        code: from_u32_bytes(&buffer[5..9]),
        token: from_u32_bytes(&buffer[9..13]),
    }
}

/// What a request leads to, once checked.
pub enum Reply {
    /// Twelve bytes to send back: the client's token, the room's code and the room's token.
    Tokens([u8; 12]),
    /// An event is to be read from the client and handed to `accept_event`.
    ReadEvent { code: u32, is_host: bool },
    /// The nineteen bytes of an event to send back.
    Event([u8; 19]),
    /// Nothing to send.
    Nothing,
}

/// Rooms not polled for a day can be given to someone else.
pub const ROOM_EXPIRY_SECS: u64 = 86400;

/// The reply listing `user_token`, `code` and `token`.
pub open spec fn spec_tokens(user_token: u32, code: u32, token: u32) -> Seq<u8> {
    u32_be_bytes(user_token) + u32_be_bytes(code) + u32_be_bytes(token)
}

fn tokens_reply(user_token: u32, code: u32, token: u32) -> (r: [u8; 12])
    ensures
        r@ == spec_tokens(user_token, code, token),
{
    let a = to_u32_bytes(user_token);
    let b = to_u32_bytes(code);
    let c = to_u32_bytes(token);
    let r: [u8; 12] = [a[0], a[1], a[2], a[3], b[0], b[1], b[2], b[3], c[0], c[1], c[2], c[3]];
    assert(r@ =~= spec_tokens(user_token, code, token));
    r
}

/// A code for a new room, drawn uniformly from 1 to 9999.
pub fn draw_room_code() -> (c: u32)
    ensures
        1 <= c <= 9999,
{
    let c = random_in_range(1, 10000);
    c as u32
}

impl Server {
    pub fn new() -> (s: Server)
        ensures
            s.rooms@ == Map::<u32, Room>::empty(),
    {
        Server { rooms: HashMap::new() }
    }

    /// Handles a request with header `header` from the client at `addr` at
    /// time `now`. A room code must be at most 9999, and not 0 but for a
    /// request that creates a room. Creating a room tries the code `new_code`
    /// (drawn by the caller with `draw_room_code`): it
    /// is refused with `None` while a room polled within a day holds that
    /// code, and a room not polled for a day is replaced. Joining lets the
    /// client in as the room's peer. Otherwise the room's token and the
    /// client's token must match: an event is then to be read, or the oldest
    /// event waiting for the client is returned.
    pub fn handle_request(&mut self, header: &RequestHeader, addr: PeerAddr, now: u64, new_code: u32) -> (r: Option<Result<Reply, String>>)
        requires
            1 <= new_code <= 9999,
        ensures
            (header.code > 9999 || (header.code == 0 && header.action != MSG_CREATE)) ==> (r matches Some(res)
                && spec_is_err(res, "Invalid request: code not valid"@) && final(self).rooms@ == old(self).rooms@),
            (header.code <= 9999 && header.action == MSG_CREATE) ==> {
                let taken = old(self).rooms@.contains_key(new_code) && now - old(self).rooms@[new_code].last_poll <= ROOM_EXPIRY_SECS;
                &&& taken ==> r is None && final(self).rooms@ == old(self).rooms@
                &&& !taken ==> (r matches Some(Ok(Reply::Tokens(b))) && final(self).rooms@.contains_key(new_code)
                    && b@ == spec_tokens(final(self).rooms@[new_code].host_token, new_code, final(self).rooms@[new_code].token)
                    && final(self).rooms@[new_code].host_addr == addr
                    && final(self).rooms@ == old(self).rooms@.insert(new_code, final(self).rooms@[new_code]))
            },
            (1 <= header.code <= 9999 && header.action != MSG_CREATE && !old(self).rooms@.contains_key(header.code))
                ==> (r matches Some(res) && spec_is_err(res, "Could not find a matching room"@) && final(self).rooms@ == old(self).rooms@),
            (1 <= header.code <= 9999 && header.action != MSG_CREATE && old(self).rooms@.contains_key(header.code))
                ==> (r matches Some(res) && final(self).rooms@.contains_key(header.code)
                    && final(self).rooms@ == old(self).rooms@.insert(header.code, final(self).rooms@[header.code])
                    && spec_in_room(old(self).rooms@[header.code], final(self).rooms@[header.code], *header, addr, now, res)),
    {
        let code = header.code;
        if code > 9999 || (code == 0 && header.action != MSG_CREATE) {
            return Some(Err("Invalid request: code not valid".to_string()));
        }
        if header.action == MSG_CREATE {
            let existing = self.rooms.get(&new_code);
            match existing {
                Some(room) => {
                    if now >= room.last_poll && now - room.last_poll > ROOM_EXPIRY_SECS {
                        self.rooms.remove(&new_code);
                    } else if now < room.last_poll {
                        return None;
                    } else {
                        return None;
                    }
                },
                None => {},
            }
            let room = Room::new(addr, now);
            let reply = tokens_reply(room.host_token, new_code, room.token);
            self.rooms.insert(new_code, room);
            return Some(Ok(Reply::Tokens(reply)));
        }
        let mut room = match self.rooms.remove(&code) {
            Some(room) => room,
            None => {
                return Some(Err("Could not find a matching room".to_string()));
            },
        };
        let result = Self::handle_in_room(&mut room, header, addr, now);
        self.rooms.insert(code, room);
        Some(result)
    }

    fn handle_in_room(room: &mut Room, header: &RequestHeader, addr: PeerAddr, now: u64) -> (r: Result<Reply, String>)
        ensures
            spec_in_room(*old(room), *final(room), *header, addr, now, r),
    {
        if header.action == MSG_JOIN {
            match room.try_join(addr) {
                Ok(()) => {},
                Err(e) => {
                    return Err(e);
                },
            }
            return Ok(Reply::Tokens(tokens_reply(room.peer_token, header.code, room.token)));
        }
        if header.token != room.token {
            return Err("Invalid request: incorrect token".to_string());
        }
        if header.user_token != room.host_token && header.user_token != room.peer_token {
            return Err("Invalid request: invalid user token".to_string());
        }
        let is_host = header.user_token == room.host_token;
        if header.action == MSG_EVENT {
            Ok(Reply::ReadEvent { code: header.code, is_host })
        } else if header.action == MSG_POLL {
            match room.pop_event(is_host, addr, now) {
                Ok(e) => Ok(Reply::Event(e.to_bytes())),
                Err(e) => Err(e),
            }
        } else {
            Ok(Reply::Nothing)
        }
    }

    /// Hands the event read as `event_buffer` to the room with `code`, from
    /// the side `is_host` at `addr`; the reply to send back is the single byte 1.
    pub fn accept_event(&mut self, code: u32, is_host: bool, addr: PeerAddr, event_buffer: &[u8; 19]) -> (r: Result<[u8; 1], String>)
        ensures
            !old(self).rooms@.contains_key(code) ==> spec_is_err(r, "Could not find a matching room"@) && final(self).rooms@ == old(self).rooms@,
            old(self).rooms@.contains_key(code) ==> {
                &&& final(self).rooms@.dom() == old(self).rooms@.dom()
                &&& spec_pushed(old(self).rooms@[code], final(self).rooms@[code], is_host, addr, event_from_bytes(event_buffer@),
                    match r { Ok(_) => Ok::<(), String>(()), Err(e) => Err::<(), String>(e) })
                &&& r matches Ok(b) ==> b@ == seq![1u8]
                &&& forall|c: u32| c != code && #[trigger] old(self).rooms@.contains_key(c) ==> final(self).rooms@[c] == old(self).rooms@[c]
            },
    {
        let mut room = match self.rooms.remove(&code) {
            Some(room) => room,
            None => {
                return Err("Could not find a matching room".to_string());
            },
        };
        let event = Event::from_bytes(event_buffer);
        let pushed = room.push_event(is_host, addr, event);
        self.rooms.insert(code, room);
        proof {
            assert(self.rooms@.dom() =~= old(self).rooms@.dom());
        }
        match pushed {
            Ok(()) => {
                let b: [u8; 1] = [1];
                assert(b@ =~= seq![1u8]);
                Ok(b)
            },
            Err(e) => Err(e),
        }
    }
}

} // verus!
