use castle_quest::codec::{from_u32_bytes, to_u32_bytes, Event, EVENT_MOVE};

#[test]
fn u32_bytes_are_big_endian() {
    assert_eq!(to_u32_bytes(0x0102_0304), [1, 2, 3, 4]);
    assert_eq!(from_u32_bytes(&[1, 2, 3, 4]), 0x0102_0304);
}

#[test]
fn event_bytes_round_trip() {
    let e = Event::create(EVENT_MOVE, 1, (3, 4), (5, 6), 7);
    let b = e.to_bytes();
    let d = Event::from_bytes(&b);
    assert_eq!(d.action, EVENT_MOVE);
    assert_eq!(d.id, 1);
    assert_eq!(d.from_pos, (3, 4));
    assert_eq!(d.to_pos, (5, 6));
    assert_eq!(d.value, 7);
    assert!(!d.from_self);
}
