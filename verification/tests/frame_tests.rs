use ring_cluster::balancer::Dispatcher;
use ring_cluster::frame::{
    answer_request, apply_status, classify_server_datagram, decode_reply, encode_request,
    server_index, ServerDatagram,
};
use ring_cluster::queue::FrameQueue;

#[test]
fn request_frame_carries_port_big_endian() {
    assert_eq!(encode_request([1, 2, 3], 5000), [1, 2, 3, 0x13, 0x88]);
    assert_eq!(encode_request([9, 8, 7], 0), [9, 8, 7, 0, 0]);
    assert_eq!(encode_request([0, 0, 0], 65535), [0, 0, 0, 255, 255]);
}

#[test]
fn reply_frame_gives_data_and_port() {
    assert_eq!(decode_reply([3, 2, 1, 0x13, 0x88]), ([3, 2, 1], 5000));
    assert_eq!(decode_reply([0, 0, 0, 1, 0]), ([0, 0, 0], 256));
}

#[test]
fn server_reverses_data_and_keeps_port() {
    let mut buf = [0u8; 30];
    buf[..5].copy_from_slice(&[1, 2, 3, 0x13, 0x88]);
    assert_eq!(answer_request(&buf), [3, 2, 1, 0x13, 0x88]);
}

#[test]
fn round_trip_returns_reversed_data_to_the_client_port() {
    let frame = encode_request([1, 2, 3], 40000);
    let answer = answer_request(&frame);
    assert_eq!(decode_reply(answer), ([3, 2, 1], 40000));
    assert_eq!(answer_request(&answer), frame);
}

#[test]
fn server_datagrams_are_classified() {
    let buf = [100u8, 7, 7, 7, 7];
    assert_eq!(classify_server_datagram(&buf, 1), ServerDatagram::Status(0));
    let buf = [117u8, 7, 7, 7, 7];
    assert_eq!(classify_server_datagram(&buf, 1), ServerDatagram::Status(1));
    let buf = [120u8, 7, 7, 7, 7];
    assert_eq!(classify_server_datagram(&buf, 1), ServerDatagram::Ignored);
    let buf = [3u8, 2, 1, 0x13, 0x88];
    assert_eq!(classify_server_datagram(&buf, 5), ServerDatagram::Reply([3, 2, 1, 0x13, 0x88]));
    // A two-byte datagram leaves older bytes in the buffer; the whole buffer goes back.
    let buf = [100u8, 117, 1, 2, 3];
    assert_eq!(classify_server_datagram(&buf, 2), ServerDatagram::Reply([100, 117, 1, 2, 3]));
}

#[test]
fn server_index_takes_the_last_match() {
    let servers = vec![b"a:1".to_vec(), b"b:2".to_vec(), b"a:1".to_vec()];
    assert_eq!(server_index(&servers, b"a:1"), Some(2));
    assert_eq!(server_index(&servers, b"b:2"), Some(1));
    assert_eq!(server_index(&servers, b"c:3"), None);
}

#[test]
fn status_notice_updates_table() {
    let mut active = [1u8, 1, 1];
    apply_status(&mut active, [1, 0]);
    assert_eq!(active, [1, 0, 1]);
    apply_status(&mut active, [1, 1]);
    assert_eq!(active, [1, 1, 1]);
}

#[test]
fn round_robin_visits_every_server_in_turn() {
    let mut d = Dispatcher::new();
    let active = [1u8, 1, 1];
    let mut order = Vec::new();
    for _ in 0..6 {
        order.push(d.dispatch(&active).unwrap());
    }
    assert_eq!(order, vec![0, 1, 2, 0, 1, 2]);
    assert_eq!(d.sent, [2, 2, 2]);
    assert_eq!(d.cursor, 0);
}

#[test]
fn round_robin_skips_servers_that_are_down() {
    let mut d = Dispatcher::new();
    let active = [1u8, 0, 1];
    assert_eq!(d.dispatch(&active), Some(0));
    assert_eq!(d.dispatch(&active), Some(2));
    assert_eq!(d.dispatch(&active), Some(0));
    assert_eq!(d.sent, [2, 0, 1]);
    assert_eq!(d.cursor, 1);
}

#[test]
fn round_robin_with_every_server_down_sends_nothing() {
    let mut d = Dispatcher::new();
    assert_eq!(d.dispatch(&[1, 1, 1]), Some(0));
    assert_eq!(d.dispatch(&[0, 0, 0]), None);
    assert_eq!(d.cursor, 1);
    assert_eq!(d.sent, [1, 0, 0]);
}

#[test]
fn frame_queue_is_first_in_first_out() {
    let mut q = FrameQueue::new();
    assert_eq!(q.len(), 0);
    assert_eq!(q.pop(), None);
    q.push([1, 2, 3, 4, 5]);
    q.push([6, 7, 8, 9, 10]);
    assert_eq!(q.len(), 2);
    assert_eq!(q.pop(), Some([1, 2, 3, 4, 5]));
    assert_eq!(q.pop(), Some([6, 7, 8, 9, 10]));
    assert_eq!(q.pop(), None);
    assert_eq!(q.len(), 0);
}
