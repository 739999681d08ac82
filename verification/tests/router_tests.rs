use hegel::protocol::router::Router;
use hegel::protocol::{Packet, CLOSE_CHANNEL_BYTE, CLOSE_CHANNEL_MESSAGE_ID};

#[test]
fn client_channels_get_odd_ids_from_three() {
    let mut r = Router::new();
    assert_eq!(r.new_channel_id(), 3);
    assert_eq!(r.new_channel_id(), 5);
    assert_eq!(r.new_channel_id(), 7);
}

#[test]
fn packets_for_the_waiting_channel_are_handed_over() {
    let mut r = Router::new();
    let p = r.route(Packet::request(3, 1, vec![9]), 3).expect("handed over");
    assert_eq!(p.channel, 3);
    assert_eq!(p.payload, vec![9]);
    assert!(r.take_held(3).is_none());
}

#[test]
fn packets_for_other_channels_are_held_in_order() {
    let mut r = Router::new();
    assert!(r.route(Packet::request(5, 1, vec![1]), 3).is_none());
    assert!(r.route(Packet::reply(7, 2, vec![2]), 3).is_none());
    assert!(r.route(Packet::request(5, 3, vec![3]), 3).is_none());
    assert!(r.take_held(3).is_none());
    let first = r.take_held(5).expect("held");
    assert_eq!((first.message_id, first.payload), (1, vec![1]));
    let other = r.take_held(7).expect("held");
    assert!(other.is_reply);
    assert_eq!(other.message_id, 2);
    let second = r.take_held(5).expect("held");
    assert_eq!((second.message_id, second.payload), (3, vec![3]));
    assert!(r.take_held(5).is_none());
}

#[test]
fn closing_a_channel_sends_the_close_request() {
    let p = Packet::close_channel(9);
    assert_eq!(p.channel, 9);
    assert_eq!(p.message_id, CLOSE_CHANNEL_MESSAGE_ID);
    assert_eq!(CLOSE_CHANNEL_MESSAGE_ID, (1u32 << 31) - 1);
    assert!(!p.is_reply);
    assert_eq!(p.payload, vec![CLOSE_CHANNEL_BYTE]);
    assert_eq!(CLOSE_CHANNEL_BYTE, 0xFE);
}
