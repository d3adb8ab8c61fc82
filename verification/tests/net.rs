use castle_quest::banner::Banner;
use castle_quest::codec::EVENT_END_TURN;
use castle_quest::multi_player::{end_barbarian_turn, end_turn_clicked, on_polled_event};
use castle_quest::player_state::PlayerState;
use castle_quest::team::Team;
use castle_quest::client::{poll_clock_restarts, poll_due, Client, JoinCodeField};
use castle_quest::codec::{Event, EVENT_JOIN, EVENT_MOVE, EVENT_NONE, MSG_CREATE, MSG_EVENT, MSG_JOIN, MSG_POLL};
use castle_quest::server::{draw_room_code, parse_request_header, PeerAddr, Reply, RequestHeader, Room, Server};

fn header(action: u8, user_token: u32, code: u32, token: u32) -> RequestHeader {
    RequestHeader { action, user_token, code, token }
}

fn be(n: u32) -> [u8; 4] {
    n.to_be_bytes()
}

#[test]
fn a_client_without_a_code_hosts() {
    let c = Client::start(None, "127.0.0.1:7878".to_string());
    assert!(c.is_host);
    assert_eq!(c.code, 0);
    assert_eq!(c.first_action(), MSG_CREATE);
    let j = Client::start(Some(42), "127.0.0.1:7878".to_string());
    assert!(!j.is_host);
    assert_eq!(j.first_action(), MSG_JOIN);
    assert_eq!(j.request_header(MSG_POLL), [MSG_POLL, 0, 0, 0, 0, 42, 0, 0, 0, 0]);
}

#[test]
fn a_joining_client_refuses_another_room() {
    let mut j = Client::start(Some(42), "a".to_string());
    let mut reply = [0u8; 8];
    reply[..4].copy_from_slice(&be(43));
    reply[4..].copy_from_slice(&be(7));
    assert_eq!(j.enter(&reply), Err("Invalid room code returned".to_string()));
    assert_eq!(j.token, 0);
    reply[..4].copy_from_slice(&be(42));
    assert_eq!(j.enter(&reply), Ok(()));
    assert_eq!(j.token, 7);
}

#[test]
fn client_replies_and_polls() {
    let mut c = Client::start(None, "a".to_string());
    assert_eq!(c.send(&[1]), Ok(()));
    assert_eq!(c.send(&[0]), Err("Event did not receive a successful response from the server".to_string()));
    let mut buf = [0u8; 19];
    assert!(c.poll(&buf).unwrap().is_none());
    assert!(!c.is_joined);
    buf[0] = EVENT_JOIN;
    assert!(c.poll(&buf).unwrap().is_none());
    assert!(c.is_joined);
    let ev = Event::create(EVENT_MOVE, 1, (3, 4), (5, 6), 0);
    let got = c.poll(&ev.to_bytes()).unwrap().unwrap();
    assert_eq!((got.action, got.from_pos, got.to_pos, got.from_self), (EVENT_MOVE, (3, 4), (5, 6), false));
    assert!(!poll_due(0));
    assert!(poll_due(1));
}

#[test]
fn request_headers_are_big_endian() {
    let mut b = [0u8; 13];
    b[0] = MSG_POLL;
    b[1..5].copy_from_slice(&be(0x01020304));
    b[5..9].copy_from_slice(&be(12));
    b[9..13].copy_from_slice(&be(99));
    let h = parse_request_header(&b);
    assert_eq!((h.action, h.user_token, h.code, h.token), (MSG_POLL, 0x01020304, 12, 99));
}

#[test]
fn rooms_pass_events_first_in_first_out() {
    let host = PeerAddr::V4(1);
    let peer = PeerAddr::V4(2);
    let mut r = Room::new(host, 10);
    assert_eq!(r.peer_events.len(), 1);
    assert_eq!(r.try_join(peer), Ok(()));
    assert_eq!(r.try_join(PeerAddr::V4(3)), Err("Room already full".to_string()));
    // The host learns that the peer joined, and the peer that it is in.
    assert_eq!(r.pop_event(true, host, 11).unwrap().action, EVENT_JOIN);
    assert_eq!(r.pop_event(false, peer, 11).unwrap().action, EVENT_JOIN);
    assert_eq!(r.pop_event(false, peer, 12).unwrap().action, EVENT_NONE);
    let a = Event::create(EVENT_MOVE, 1, (1, 1), (1, 2), 0);
    let b = Event::create(EVENT_MOVE, 1, (1, 2), (1, 3), 0);
    assert_eq!(r.push_event(true, host, a), Ok(()));
    assert_eq!(r.push_event(true, host, b), Ok(()));
    assert_eq!(r.pop_event(false, peer, 13).unwrap().to_pos, (1, 2));
    assert_eq!(r.pop_event(false, peer, 14).unwrap().to_pos, (1, 3));
    assert_eq!(r.last_poll, 14);
    assert_eq!(
        r.push_event(false, PeerAddr::V4(9), a),
        Err("Cannot push_event: Peer has not joined the room".to_string())
    );
    assert_eq!(
        r.pop_event(true, peer, 15).unwrap_err(),
        "Cannot pop_event: Peer has not joined the room".to_string()
    );
}

#[test]
fn the_server_checks_codes_and_tokens() {
    let host = PeerAddr::V4(1);
    let peer = PeerAddr::V6(2);
    let mut s = Server::new();
    match s.handle_request(&header(MSG_POLL, 0, 0, 0), host, 0, 5) {
        Some(Err(e)) => assert_eq!(e, "Invalid request: code not valid".to_string()),
        _ => panic!("a code of 0 is refused"),
    }
    match s.handle_request(&header(MSG_POLL, 0, 10000, 0), host, 0, 5) {
        Some(Err(e)) => assert_eq!(e, "Invalid request: code not valid".to_string()),
        _ => panic!("a code above 9999 is refused"),
    }
    match s.handle_request(&header(MSG_JOIN, 0, 5, 0), peer, 0, 5) {
        Some(Err(e)) => assert_eq!(e, "Could not find a matching room".to_string()),
        _ => panic!("there is no room yet"),
    }
    // A creation request naming a code makes the room under the drawn code.
    let tokens = match s.handle_request(&header(MSG_CREATE, 0, 1, 0), host, 100, 5) {
        Some(Ok(Reply::Tokens(b))) => b,
        _ => panic!("the room is made"),
    };
    assert_eq!(&tokens[4..8], &be(5));
    let room = s.rooms.get(&5).unwrap();
    assert_eq!(&tokens[0..4], &be(room.host_token));
    assert_eq!(&tokens[8..12], &be(room.token));
    let (room_token, host_token) = (room.token, room.host_token);
    // The code is taken while the room is polled.
    assert!(s.handle_request(&header(MSG_CREATE, 0, 1, 0), host, 200, 5).is_none());
    // Joining hands out the peer's token.
    let peer_tokens = match s.handle_request(&header(MSG_JOIN, 0, 5, 0), peer, 200, 5) {
        Some(Ok(Reply::Tokens(b))) => b,
        _ => panic!("the peer joins"),
    };
    let peer_token = s.rooms.get(&5).unwrap().peer_token;
    assert_eq!(&peer_tokens[0..4], &be(peer_token));
    match s.handle_request(&header(MSG_POLL, host_token, 5, room_token.wrapping_add(1)), host, 200, 5) {
        Some(Err(e)) => assert_eq!(e, "Invalid request: incorrect token".to_string()),
        _ => panic!("a wrong room token is refused"),
    }
    let stranger = if host_token != 1 && peer_token != 1 { 1 } else if host_token != 2 && peer_token != 2 { 2 } else { 3 };
    match s.handle_request(&header(MSG_POLL, stranger, 5, room_token), host, 200, 5) {
        Some(Err(e)) => assert_eq!(e, "Invalid request: invalid user token".to_string()),
        _ => panic!("a wrong user token is refused"),
    }
    // The host sends an event; the peer polls it.
    match s.handle_request(&header(MSG_EVENT, host_token, 5, room_token), host, 200, 5) {
        Some(Ok(Reply::ReadEvent { code, is_host })) => assert_eq!((code, is_host), (5, true)),
        _ => panic!("an event is to be read"),
    }
    let ev = Event::create(EVENT_MOVE, 1, (7, 8), (9, 10), 0);
    assert_eq!(s.accept_event(5, true, host, &ev.to_bytes()), Ok([1]));
    assert_eq!(s.accept_event(6, true, host, &ev.to_bytes()), Err("Could not find a matching room".to_string()));
    // The peer first reads its own join notice, then the host's event.
    match s.handle_request(&header(MSG_POLL, peer_token, 5, room_token), peer, 201, 5) {
        Some(Ok(Reply::Event(b))) => assert_eq!(b[0], EVENT_JOIN),
        _ => panic!("the peer polls"),
    }
    match s.handle_request(&header(MSG_POLL, peer_token, 5, room_token), peer, 202, 5) {
        Some(Ok(Reply::Event(b))) => assert_eq!(b, ev.to_bytes()),
        _ => panic!("the peer polls"),
    }
    // A room not polled for a day is given away.
    match s.handle_request(&header(MSG_CREATE, 0, 1, 0), PeerAddr::V4(7), 202 + 86401, 5) {
        Some(Ok(Reply::Tokens(_))) => {},
        _ => panic!("an old room is replaced"),
    }
    assert_eq!(s.rooms.get(&5).unwrap().host_addr, PeerAddr::V4(7));
}

#[test]
fn turns_pass_between_two_players() {
    // The host plays the player side, the other client the enemy side.
    let mut host = PlayerState::new(Team::Player);
    let mut guest = PlayerState::new(Team::Enemy);
    let mut host_banner = Banner::new();
    let mut guest_banner = Banner::new();

    // A click elsewhere, or on the other side's turn, does nothing.
    assert!(end_turn_clicked(&mut host, &mut host_banner, false).is_none());
    assert!(end_turn_clicked(&mut guest, &mut guest_banner, true).is_none());
    assert_eq!(guest.current_turn, Team::Player);

    let sent = end_turn_clicked(&mut host, &mut host_banner, true).unwrap();
    assert_eq!((sent.action, sent.id), (EVENT_END_TURN, 0));
    assert_eq!(host.current_turn, Team::Enemy);
    assert_eq!(host_banner.banner_key, "p2_banner".to_string());

    on_polled_event(&mut guest, &mut guest_banner, false, &sent);
    assert_eq!(guest.current_turn, Team::Enemy);
    assert_eq!(guest_banner.banner_key, "p2_banner".to_string());
    // The same event again, now on the guest's own turn, does nothing.
    on_polled_event(&mut guest, &mut guest_banner, false, &sent);
    assert_eq!(guest.current_turn, Team::Enemy);

    let sent = end_turn_clicked(&mut guest, &mut guest_banner, true).unwrap();
    on_polled_event(&mut host, &mut host_banner, true, &sent);
    assert_eq!(host.current_turn, Team::Barbarians);
    assert_eq!(host_banner.banner_key, "b_banner".to_string());

    // The host ends the barbarians' turn once their banner has gone.
    assert!(end_barbarian_turn(&mut host, &mut host_banner, true).is_none());
    host_banner.banner_visible = false;
    assert!(end_barbarian_turn(&mut guest, &mut guest_banner, false).is_none());
    let sent = end_barbarian_turn(&mut host, &mut host_banner, true).unwrap();
    assert_eq!((sent.action, sent.id), (EVENT_END_TURN, 1));
    assert_eq!(host.current_turn, Team::Player);
    on_polled_event(&mut guest, &mut guest_banner, false, &sent);
    assert_eq!(guest.current_turn, Team::Player);
    assert_eq!(guest_banner.banner_key, "p1_banner".to_string());
}

#[test]
fn a_host_creates_a_room_with_code_zero() {
    let mut s = Server::new();
    let host = Client::start(None, "127.0.0.1:7878".to_string());
    assert_eq!(host.code, 0);
    let tokens = match s.handle_request(&header(MSG_CREATE, 0, 0, 0), PeerAddr::V4(1), 0, 77) {
        Some(Ok(Reply::Tokens(b))) => b,
        _ => panic!("a creating client sends code 0 and gets a room"),
    };
    assert_eq!(&tokens[4..8], &be(77));
    assert!(s.rooms.contains_key(&77));
    match s.handle_request(&header(MSG_CREATE, 0, 10000, 0), PeerAddr::V4(1), 0, 78) {
        Some(Err(e)) => assert_eq!(e, "Invalid request: code not valid".to_string()),
        _ => panic!("a code above 9999 is refused, also for a new room"),
    }
    match s.handle_request(&header(MSG_JOIN, 0, 0, 0), PeerAddr::V4(2), 0, 78) {
        Some(Err(e)) => assert_eq!(e, "Invalid request: code not valid".to_string()),
        _ => panic!("code 0 names no room to join"),
    }
    assert!(!s.rooms.contains_key(&78));
}

#[test]
fn room_codes_are_drawn_from_one_to_9999() {
    for _ in 0..1000 {
        let c = draw_room_code();
        assert!(c >= 1 && c <= 9999);
    }
}

#[test]
fn only_an_empty_poll_restarts_the_clock() {
    let mut empty = [0u8; 19];
    empty[0] = EVENT_NONE;
    assert!(poll_clock_restarts(&empty));
    let ev = Event::create(EVENT_MOVE, 1, (7, 8), (9, 10), 0);
    assert!(!poll_clock_restarts(&ev.to_bytes()));
    let mut join = [0u8; 19];
    join[0] = EVENT_JOIN;
    assert!(!poll_clock_restarts(&join));
}

#[test]
fn a_join_code_takes_up_to_four_numeric_keys_while_selected() {
    let mut f = JoinCodeField::new();
    f.type_key('1');
    assert!(f.code().is_empty());
    assert_eq!(f.room_code(), Err("Couldn't parse join code".to_string()));
    f.set_selected(true);
    for c in ['1', 'x', '2', '3', '4', '5'] {
        f.type_key(c);
    }
    assert_eq!(f.code(), &vec!['1', '2', '3', '4']);
    assert_eq!(f.room_code(), Ok(1234));
    f.erase();
    assert_eq!(f.code(), &vec!['1', '2', '3']);
    // Any numeric character is taken, but only decimal digits read as a code.
    f.type_key('\u{0663}');
    assert_eq!(f.code().len(), 4);
    assert_eq!(f.room_code(), Err("Couldn't parse join code".to_string()));
    f.set_selected(false);
    f.erase();
    assert_eq!(f.code().len(), 4);
    f.set_selected(true);
    for _ in 0..6 {
        f.erase();
    }
    assert!(f.code().is_empty());
}
