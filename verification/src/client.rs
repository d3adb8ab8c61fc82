//! A client's side of a multiplayer room: the requests it sends and what it
//! makes of the server's replies. Sending, receiving and timing are done by
//! the caller.

use vstd::prelude::*;
use crate::game_map::spec_is_err;
use crate::decimal::{parse_u32, spec_parse_u32};
use crate::codec::{Event, EVENT_JOIN, EVENT_NONE, MSG_CREATE, MSG_JOIN, to_u32_bytes, from_u32_bytes,
    u32_be_bytes, u32_from_be, event_from_bytes};

verus! {

/// A client of the multiplayer server: the room it is in, its token for the
/// room, whether it created the room, and whether the other player has joined.
pub struct Client {
    pub code: u32,
    pub token: u32,
    pub is_host: bool,
    pub is_joined: bool,
    pub addr: String,
}

impl Client {
    /// A client about to enter the room with `code`, or to create a room
    /// when there is none, at server address `addr`.
    pub fn start(code: Option<u32>, addr: String) -> (c: Client)
        ensures
            c.code == (match code { Some(k) => k, None => 0 }),
            c.token == 0,
            c.is_host == (c.code == 0),
            !c.is_joined,
            c.addr@ == addr@,
    {
        let code = match code {
            Some(k) => k,
            None => 0,
        };
        Client { code, token: 0, is_host: code == 0, is_joined: false, addr }
    }

    /// What the first request asks: to create a room, or to join one.
    pub fn first_action(&self) -> (a: u8)
        ensures
            a == (if self.code == 0 { MSG_CREATE } else { MSG_JOIN }),
    {
        if self.code == 0 { MSG_CREATE } else { MSG_JOIN }
    }

    /// The header of a request for `action`: the action, whether this client
    /// is the host, then the room code and the token, each big-endian.
    pub fn request_header(&self, action: u8) -> (h: [u8; 10])
        ensures
            h@ == seq![action, if self.is_host { 1u8 } else { 0u8 }] + u32_be_bytes(self.code) + u32_be_bytes(self.token),
    {
        let c = to_u32_bytes(self.code);
        let t = to_u32_bytes(self.token);
        let h: [u8; 10] = [action, if self.is_host { 1 } else { 0 }, c[0], c[1], c[2], c[3], t[0], t[1], t[2], t[3]];
        assert(h@ =~= seq![action, if self.is_host { 1u8 } else { 0u8 }] + u32_be_bytes(self.code) + u32_be_bytes(self.token));
        h
    }

    /// Enters the room the server's reply `buffer` names (its code, then a
    /// token). A client that asked to join a given room refuses a reply
    /// naming another room.
    pub fn enter(&mut self, buffer: &[u8; 8]) -> (r: Result<(), String>)
        ensures
            ({
                let new_code = u32_from_be(buffer@.subrange(0, 4));
                let new_token = u32_from_be(buffer@.subrange(4, 8));
                if !old(self).is_host && old(self).code != new_code {
                    &&& spec_is_err(r, "Invalid room code returned"@)
                    &&& *final(self) == *old(self)
                } else {
                    &&& r is Ok
                    &&& final(self).code == new_code
                    &&& final(self).token == new_token
                    &&& final(self).is_host == old(self).is_host
                    &&& final(self).is_joined == old(self).is_joined
                    &&& final(self).addr@ == old(self).addr@
                }
            }),
    {
        let new_code = from_u32_bytes(&buffer[0..4]);
        let new_token = from_u32_bytes(&buffer[4..8]);
        proof {
            assert(buffer@.subrange(0, 4) == buffer@.subrange(0, 4));
        }
        if !self.is_host && self.code != new_code {
            return Err("Invalid room code returned".to_string());
        }
        self.code = new_code;
        self.token = new_token;
        Ok(())
    }

    /// Whether an event was taken by the server: its one-byte reply is 1.
    pub fn send(&self, response: &[u8; 1]) -> (r: Result<(), String>)
        ensures
            response@[0] == 1 ==> r is Ok,
            response@[0] != 1 ==> spec_is_err(r, "Event did not receive a successful response from the server"@),
    {
        if response[0] == 1 {
            Ok(())
        } else {
            Err("Event did not receive a successful response from the server".to_string())
        }
    }

    /// What a poll's reply `buffer` brings: nothing when the server had no
    /// event; nothing either, but the other player now in the room, when it
    /// was the join; otherwise the event.
    pub fn poll(&mut self, buffer: &[u8; 19]) -> (r: Result<Option<Event>, String>)
        ensures
            ({
                let e = event_from_bytes(buffer@);
                &&& e.action == EVENT_NONE ==> r == Ok::<Option<Event>, String>(None) && *final(self) == *old(self)
                &&& e.action == EVENT_JOIN ==> r == Ok::<Option<Event>, String>(None) && final(self).is_joined
                    && final(self).code == old(self).code && final(self).token == old(self).token
                    && final(self).is_host == old(self).is_host && final(self).addr@ == old(self).addr@
                &&& (e.action != EVENT_NONE && e.action != EVENT_JOIN) ==> r == Ok::<Option<Event>, String>(Some(e))
                    && *final(self) == *old(self)
            }),
    {
        let e = Event::from_bytes(buffer);
        if e.action == EVENT_NONE {
            Ok(None)
        } else if e.action == EVENT_JOIN {
            self.is_joined = true;
            Ok(None)
        } else {
            Ok(Some(e))
        }
    }
}

/// Whether the poll clock starts again after a poll whose reply is
/// `buffer`: only a reply that brings no event restarts it.
pub fn poll_clock_restarts(buffer: &[u8; 19]) -> (b: bool)
    ensures
        b == (event_from_bytes(buffer@).action == EVENT_NONE),
{
    buffer[0] == EVENT_NONE
}

/// A join code holds at most this many characters.
pub const JOIN_CODE_DIGITS: usize = 4;

/// Whether `c` is numeric as `char::is_numeric` says: one of Unicode's
/// general categories for numbers.
pub uninterp spec fn spec_is_numeric(c: char) -> bool;

/// `char::is_numeric`. The contract claims that the result is a function of
/// `c` alone, and that the decimal digits '0' to '9' are numeric, which std
/// documents; which other characters are numeric is left unsaid.
#[verifier::external_body]
fn is_numeric(c: char) -> (b: bool)
    ensures
        b == spec_is_numeric(c),
        '0' <= c <= '9' ==> b,
{
    c.is_numeric()
}

/// Whether `code` holds at most four characters, each of them numeric.
pub open spec fn spec_join_code_ok(code: Seq<char>) -> bool {
    &&& code.len() <= JOIN_CODE_DIGITS
    &&& forall|i: int| 0 <= i < code.len() ==> spec_is_numeric(#[trigger] code[i])
}

/// The join-code field of the main menu: the code typed so far, and whether
/// the field is selected for typing.
pub struct JoinCodeField {
    code: Vec<char>,
    selected: bool,
}

impl JoinCodeField {
    #[verifier::type_invariant]
    spec fn inv(&self) -> bool {
        spec_join_code_ok(self.code@)
    }

    /// The code typed so far.
    pub closed spec fn code_seq(&self) -> Seq<char> {
        self.code@
    }

    /// Whether the field is selected for typing.
    pub closed spec fn is_selected(&self) -> bool {
        self.selected
    }

    /// An empty field, not selected.
    pub fn new() -> (f: JoinCodeField)
        ensures
            f.code_seq() == Seq::<char>::empty(),
            !f.is_selected(),
    {
        JoinCodeField { code: Vec::new(), selected: false }
    }

    /// The code typed so far; it always holds at most four numeric characters.
    pub fn code(&self) -> (r: &Vec<char>)
        ensures
            r@ == self.code_seq(),
            spec_join_code_ok(r@),
    {
        proof { use_type_invariant(self); }
        &self.code
    }

    /// Whether the field is selected for typing.
    pub fn selected(&self) -> (b: bool)
        ensures
            b == self.is_selected(),
    {
        self.selected
    }

    /// Selects the field (a click on it) or leaves it (a click elsewhere).
    pub fn set_selected(&mut self, selected: bool)
        ensures
            final(self).code_seq() == old(self).code_seq(),
            final(self).is_selected() == selected,
    {
        proof { use_type_invariant(&*self); }
        self.selected = selected;
    }

    /// The key `key` typed: while the field is selected and holds fewer
    /// than four characters, a numeric key is added; anything else changes
    /// nothing. The code still holds at most four numeric characters.
    pub fn type_key(&mut self, key: char)
        ensures
            spec_join_code_ok(final(self).code_seq()),
            final(self).is_selected() == old(self).is_selected(),
            final(self).code_seq() == (if old(self).is_selected() && old(self).code_seq().len() < JOIN_CODE_DIGITS
                && spec_is_numeric(key) {
                old(self).code_seq().push(key)
            } else {
                old(self).code_seq()
            }),
    {
        proof { use_type_invariant(&*self); }
        if self.selected && self.code.len() < JOIN_CODE_DIGITS && is_numeric(key) {
            let ghost before = self.code@;
            let mut code = Vec::new();
            std::mem::swap(&mut code, &mut self.code);
            code.push(key);
            assert forall|i: int| 0 <= i < code@.len() implies spec_is_numeric(#[trigger] code@[i]) by {
                if i < before.len() {
                    assert(code@[i] == before[i]);
                }
            }
            self.code = code;
        }
        proof { use_type_invariant(&*self); }
    }

    /// Backspace: while the field is selected, its last character is taken
    /// off, if any. The code still holds at most four numeric characters.
    pub fn erase(&mut self)
        ensures
            spec_join_code_ok(final(self).code_seq()),
            final(self).is_selected() == old(self).is_selected(),
            final(self).code_seq() == (if old(self).is_selected() && old(self).code_seq().len() > 0 {
                old(self).code_seq().drop_last()
            } else {
                old(self).code_seq()
            }),
    {
        proof { use_type_invariant(&*self); }
        if self.selected && self.code.len() > 0 {
            let ghost before = self.code@;
            let mut code = Vec::new();
            std::mem::swap(&mut code, &mut self.code);
            code.pop();
            assert forall|i: int| 0 <= i < code@.len() implies spec_is_numeric(#[trigger] code@[i]) by {
                assert(code@[i] == before[i]);
            }
            self.code = code;
        }
        proof { use_type_invariant(&*self); }
    }

    /// The room code to join: the field read as an unsigned number, or an
    /// error when it is not one (empty, say).
    pub fn room_code(&self) -> (r: Result<u32, String>)
        ensures
            match spec_parse_u32(self.code_seq()) {
                Some(n) => r == Ok::<u32, String>(n),
                None => spec_is_err(r, "Couldn't parse join code"@),
            },
    {
        match parse_u32(&self.code) {
            Some(n) => Ok(n),
            None => Err("Couldn't parse join code".to_string()),
        }
    }
}

/// Polls are sent at most once a second.
pub fn poll_due(elapsed_secs: u64) -> (b: bool)
    ensures
        b == (elapsed_secs >= 1),
{
    elapsed_secs >= 1
}

} // verus!
