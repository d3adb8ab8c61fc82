//! Multiplayer events and their fixed-size byte encoding.

use vstd::prelude::*;

verus! {

/// Request kinds sent to the multiplayer server.
pub const MSG_CREATE: u8 = 0;
pub const MSG_JOIN: u8 = 1;
pub const MSG_EVENT: u8 = 2;
pub const MSG_POLL: u8 = 3;

/// Event actions.
pub const EVENT_NONE: u8 = 0;
pub const EVENT_JOIN: u8 = 1;
pub const EVENT_MOVE: u8 = 2;
pub const EVENT_ATTACK: u8 = 3;
pub const EVENT_END_TURN: u8 = 4;
pub const EVENT_END_GAME: u8 = 5;
pub const EVENT_SPAWN_UNIT: u8 = 6;

/// Team identifiers carried in events.
pub const EVENT_ID_ENEMY: u8 = 0;
pub const EVENT_ID_PLAYER: u8 = 1;
pub const EVENT_ID_BARBARIAN: u8 = 2;

/// Unit classes carried in spawn events.
pub const EVENT_UNIT_ARCHER: u8 = 0;
pub const EVENT_UNIT_GUARD: u8 = 1;
pub const EVENT_UNIT_MAGE: u8 = 2;
pub const EVENT_UNIT_MELEE: u8 = 3;
pub const EVENT_UNIT_SCOUT: u8 = 4;

/// Length in bytes of an encoded event.
pub const EVENT_LEN: usize = 19;

/// The big-endian bytes of a 32-bit number.
pub open spec fn u32_be_bytes(n: u32) -> Seq<u8> {
    seq![(n >> 24u32) as u8, (n >> 16u32) as u8, (n >> 8u32) as u8, n as u8]
}

/// The 32-bit number whose big-endian bytes are the first four of `b`.
pub open spec fn u32_from_be(b: Seq<u8>) -> u32 {
    ((b[0] as u32) << 24u32) | ((b[1] as u32) << 16u32) | ((b[2] as u32) << 8u32) | (b[3] as u32)
}

/// Encodes `num` as four big-endian bytes.
pub fn to_u32_bytes(num: u32) -> (r: [u8; 4])
    ensures
        r@ == u32_be_bytes(num),
{
    [(num >> 24u32) as u8, (num >> 16u32) as u8, (num >> 8u32) as u8, num as u8]
}

/// Decodes the first four bytes of `arr` as a big-endian number.
pub fn from_u32_bytes(arr: &[u8]) -> (r: u32)
    requires
        arr@.len() >= 4,
    ensures
        r == u32_from_be(arr@),
{
    ((arr[0] as u32) << 24u32) | ((arr[1] as u32) << 16u32) | ((arr[2] as u32) << 8u32) | (
    arr[3] as u32)
}

/// Decoding the encoding of a number gives the number back.
pub proof fn lemma_u32_bytes_roundtrip(n: u32)
    ensures
        u32_from_be(u32_be_bytes(n)) == n,
{
    let b = u32_be_bytes(n);
    let b0 = (n >> 24u32) as u8;
    let b1 = (n >> 16u32) as u8;
    let b2 = (n >> 8u32) as u8;
    let b3 = n as u8;
    assert(b[0] == b0 && b[1] == b1 && b[2] == b2 && b[3] == b3);
    assert(((b0 as u32) << 24u32) | ((b1 as u32) << 16u32) | ((b2 as u32) << 8u32) | (b3 as u32)
        == n) by (bit_vector)
        requires
            b0 == (n >> 24u32) as u8,
            b1 == (n >> 16u32) as u8,
            b2 == (n >> 8u32) as u8,
            b3 == n as u8,
    ;
}

/// Encoding the number that four bytes decode to gives those bytes back.
pub proof fn lemma_u32_bytes_roundtrip_rev(b: Seq<u8>)
    requires
        b.len() == 4,
    ensures
        u32_be_bytes(u32_from_be(b)) == b,
{
    let b0 = b[0];
    let b1 = b[1];
    let b2 = b[2];
    let b3 = b[3];
    let n = u32_from_be(b);
    assert(n == ((b0 as u32) << 24u32) | ((b1 as u32) << 16u32) | ((b2 as u32) << 8u32) | (
    b3 as u32));
    assert((n >> 24u32) as u8 == b0 && (n >> 16u32) as u8 == b1 && (n >> 8u32) as u8 == b2 && n as u8
        == b3) by (bit_vector)
        requires
            n == ((b0 as u32) << 24u32) | ((b1 as u32) << 16u32) | ((b2 as u32) << 8u32) | (
            b3 as u32),
    ;
    assert(u32_be_bytes(n) =~= b);
}


/// A game event exchanged between the two clients of a multiplayer room and
/// replayed on each client's map.
#[derive(Clone, Copy, Debug)]
pub struct Event {
    pub action: u8,
    pub id: u8,
    pub from_pos: (u32, u32),
    pub to_pos: (u32, u32),
    pub value: u8,
    pub from_self: bool,
}

/// The 19 bytes an event is sent as: action, id, the two coordinates of
/// `from_pos` and of `to_pos` (each big-endian), then the value.
pub open spec fn event_bytes(e: Event) -> Seq<u8> {
    seq![e.action, e.id] + u32_be_bytes(e.from_pos.0) + u32_be_bytes(e.from_pos.1) + u32_be_bytes(
        e.to_pos.0,
    ) + u32_be_bytes(e.to_pos.1) + seq![e.value]
}

/// The event that 19 received bytes stand for; it always comes from the other side.
pub open spec fn event_from_bytes(b: Seq<u8>) -> Event {
    Event {
        action: b[0],
        id: b[1],
        from_pos: (u32_from_be(b.subrange(2, 6)), u32_from_be(b.subrange(6, 10))),
        to_pos: (u32_from_be(b.subrange(10, 14)), u32_from_be(b.subrange(14, 18))),
        value: b[18],
        from_self: false,
    }
}

/// The event with the given action and every other field zero, sent by this side.
pub open spec fn spec_event_new(action: u8) -> Event {
    Event { action, id: 0, from_pos: (0, 0), to_pos: (0, 0), value: 0, from_self: true }
}

impl Event {
    /// An event with the given action and every other field zero, sent by this side.
    pub fn new(action: u8) -> (e: Event)
        ensures
            e == spec_event_new(action),
    {
        Event { action, id: 0, from_pos: (0, 0), to_pos: (0, 0), value: 0, from_self: true }
    }

    /// An event with the given fields, sent by this side.
    pub fn create(action: u8, id: u8, from_pos: (u32, u32), to_pos: (u32, u32), value: u8) -> (e:
        Event)
        ensures
            e == (Event { action, id, from_pos, to_pos, value, from_self: true }),
    {
        Event { action, id, from_pos, to_pos, value, from_self: true }
    }

    /// Decodes an event received from the other side.
    pub fn from_bytes(arr: &[u8; 19]) -> (e: Event)
        ensures
            e == event_from_bytes(arr@),
    {
        let ghost b = arr@;
        let f0 = from_u32_bytes(&arr[2..6]);
        let f1 = from_u32_bytes(&arr[6..10]);
        let t0 = from_u32_bytes(&arr[10..14]);
        let t1 = from_u32_bytes(&arr[14..18]);
        Event { action: arr[0], id: arr[1], from_pos: (f0, f1), to_pos: (t0, t1), value: arr[18], from_self: false }
    }

    /// Encodes the event for sending.
    pub fn to_bytes(&self) -> (arr: [u8; 19])
        ensures
            arr@ == event_bytes(*self),
    {
        let a = to_u32_bytes(self.from_pos.0);
        let b = to_u32_bytes(self.from_pos.1);
        let c = to_u32_bytes(self.to_pos.0);
        let d = to_u32_bytes(self.to_pos.1);
        let arr: [u8; 19] = [
            self.action,
            self.id,
            a[0],
            a[1],
            a[2],
            a[3],
            b[0],
            b[1],
            b[2],
            b[3],
            c[0],
            c[1],
            c[2],
            c[3],
            d[0],
            d[1],
            d[2],
            d[3],
            self.value,
        ];
        assert(arr@ =~= event_bytes(*self));
        arr
    }
}

/// Decoding an encoded event gives the event back, marked as coming from the other side.
pub proof fn lemma_event_roundtrip(e: Event)
    ensures
        event_from_bytes(event_bytes(e)) == (Event { from_self: false, ..e }),
{
    let b = event_bytes(e);
    lemma_u32_bytes_roundtrip(e.from_pos.0);
    lemma_u32_bytes_roundtrip(e.from_pos.1);
    lemma_u32_bytes_roundtrip(e.to_pos.0);
    lemma_u32_bytes_roundtrip(e.to_pos.1);
    assert(b.subrange(2, 6) =~= u32_be_bytes(e.from_pos.0));
    assert(b.subrange(6, 10) =~= u32_be_bytes(e.from_pos.1));
    assert(b.subrange(10, 14) =~= u32_be_bytes(e.to_pos.0));
    assert(b.subrange(14, 18) =~= u32_be_bytes(e.to_pos.1));
}

/// Encoding the event that 19 bytes decode to gives those bytes back.
pub proof fn lemma_event_bytes_roundtrip(b: Seq<u8>)
    requires
        b.len() == 19,
    ensures
        event_bytes(event_from_bytes(b)) == b,
{
    let e = event_from_bytes(b);
    lemma_u32_bytes_roundtrip_rev(b.subrange(2, 6));
    lemma_u32_bytes_roundtrip_rev(b.subrange(6, 10));
    lemma_u32_bytes_roundtrip_rev(b.subrange(10, 14));
    lemma_u32_bytes_roundtrip_rev(b.subrange(14, 18));
    assert(event_bytes(e) =~= b);
}

} // verus!
