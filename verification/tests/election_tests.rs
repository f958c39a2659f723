use rand::rngs::StdRng;
use rand::SeedableRng;
use ring_cluster::action::Action;
use ring_cluster::decimal::parse_i32;
use ring_cluster::election::{ElectionError, ElectionNode, DOWN_SECONDS};

const MY: &[u8] = b"127.0.0.1:4243";
const LEFT: &[u8] = b"127.0.0.1:4242";
const RIGHT: &[u8] = b"127.0.0.1:4244";
const OTHER: &[u8] = b"127.0.0.1:4242";

fn buf(bytes: &[u8]) -> Vec<u8> {
    let mut b = vec![0u8; 30];
    b[..bytes.len()].copy_from_slice(bytes);
    b
}

fn send(to: &[u8], payload: &[u8]) -> Action {
    Action::Send { to: to.to_vec(), payload: payload.to_vec() }
}

fn node(value: i32) -> ElectionNode {
    ElectionNode::new(MY, LEFT, RIGHT, value)
}

#[test]
fn agent_request_is_answered_counted_and_remembered() {
    let mut n = node(500);
    let agent: &[u8] = b"127.0.0.1:5000";
    let r = n.receive(agent, &buf(&[1, 2, 3, 0x13, 0x88]), 5).unwrap();
    assert_eq!(r, vec![send(agent, &[3, 2, 1, 0x13, 0x88])]);
    assert_eq!(n.requests(), 1);
    assert_eq!(n.agent_count(), 1);
    let r = n.receive(agent, &buf(&[4, 5, 6, 0, 1]), 5).unwrap();
    assert_eq!(r, vec![send(agent, &[6, 5, 4, 0, 1])]);
    assert_eq!(n.requests(), 2);
    assert_eq!(n.agent_count(), 1);
    n.receive(b"127.0.0.1:5001", &buf(&[1, 1, 1, 0, 0]), 5).unwrap();
    assert_eq!(n.agent_count(), 2);
}

#[test]
fn stronger_nomination_is_passed_to_the_other_side() {
    let mut n = node(500);
    let r = n.receive(LEFT, &buf(b"e,127.0.0.1:4242,700"), 20).unwrap();
    assert_eq!(r, vec![send(RIGHT, b"e,127.0.0.1:4242,700")]);
    assert_eq!(n.nominations().0, b"e,127.0.0.1:4242,700".to_vec());
}

#[test]
fn weaker_nomination_makes_the_node_nominate_itself() {
    let mut n = node(500);
    let r = n.receive(RIGHT, &buf(b"e,127.0.0.1:4244,300"), 20).unwrap();
    assert_eq!(r, vec![send(LEFT, b"e,127.0.0.1:4243,500"), send(RIGHT, b"e,127.0.0.1:4243,500")]);
}

#[test]
fn agreement_on_another_server_announces_the_result() {
    let mut n = node(500);
    n.receive(LEFT, &buf(b"e,127.0.0.1:4242,900"), 20).unwrap();
    let r = n.receive(RIGHT, &buf(b"e,127.0.0.1:4242,900"), 20).unwrap();
    assert_eq!(r, vec![send(LEFT, b"r,127.0.0.1:4242,900"), send(RIGHT, b"r,127.0.0.1:4242,900")]);
    assert_eq!(n.server_down(), OTHER.to_vec());
}

#[test]
fn elected_node_goes_down_and_comes_back() {
    let mut n = node(500);
    let agent: &[u8] = b"127.0.0.1:5000";
    n.receive(agent, &buf(&[1, 2, 3, 0, 1]), 5).unwrap();
    let r = n.receive(LEFT, &buf(b"e,127.0.0.1:4243,500"), 20).unwrap();
    assert_eq!(r, vec![send(RIGHT, b"e,127.0.0.1:4243,500")]);
    let r = n.receive(RIGHT, &buf(b"e,127.0.0.1:4243,500"), 20).unwrap();
    assert_eq!(
        r,
        vec![
            send(agent, b"d"),
            send(LEFT, b"d"),
            send(RIGHT, b"d"),
            Action::Sleep { seconds: DOWN_SECONDS },
            Action::Redraw,
            send(agent, b"u"),
            send(LEFT, b"u"),
            send(RIGHT, b"u"),
            send(LEFT, b"r,127.0.0.1:4243,500"),
            send(RIGHT, b"r,127.0.0.1:4243,500"),
        ]
    );
    assert_eq!(n.server_down(), MY.to_vec());
    assert_eq!(n.nominations(), (Vec::new(), Vec::new()));
    let mut rng = StdRng::seed_from_u64(42);
    n.redraw(&mut rng);
    assert!(0 <= n.value() && n.value() < 100007);
}

#[test]
fn result_from_a_neighbour_records_then_closes_the_election() {
    let mut n = node(500);
    n.receive(LEFT, &buf(b"e,127.0.0.1:4244,900"), 20).unwrap();
    let r = n.receive(LEFT, &buf(b"r,127.0.0.1:4244,900"), 20).unwrap();
    assert!(r.is_empty());
    assert_eq!(n.server_down(), RIGHT.to_vec());
    assert_eq!(n.nominations(), (Vec::new(), Vec::new()));
    let r = n.receive(RIGHT, &buf(b"r,127.0.0.1:4244,900"), 20).unwrap();
    assert!(r.is_empty());
    assert_eq!(n.server_down(), Vec::<u8>::new());
}

#[test]
fn result_naming_this_node_takes_it_down() {
    let mut n = node(500);
    let r = n.receive(LEFT, &buf(b"r,127.0.0.1:4243,500"), 20).unwrap();
    assert_eq!(
        r,
        vec![
            send(LEFT, b"d"),
            send(RIGHT, b"d"),
            Action::Sleep { seconds: DOWN_SECONDS },
            Action::Redraw,
            send(LEFT, b"u"),
            send(RIGHT, b"u"),
        ]
    );
    assert_eq!(n.server_down(), MY.to_vec());
}

#[test]
fn neighbour_down_silences_the_election() {
    let mut n = node(500);
    let r = n.receive(LEFT, &buf(b"d"), 1).unwrap();
    assert!(r.is_empty());
    assert_eq!(n.neighbours_active(), (false, true));
    let r = n.receive(RIGHT, &buf(b"e,127.0.0.1:4244,900"), 20).unwrap();
    assert!(r.is_empty());
    assert_eq!(n.nominations(), (Vec::new(), Vec::new()));
    let r = n.receive(RIGHT, &buf(b"r,127.0.0.1:4244,900"), 20).unwrap();
    assert!(r.is_empty());
    assert_eq!(n.server_down(), Vec::<u8>::new());
    let mut rng = StdRng::seed_from_u64(1);
    assert!(n.start_election(&mut rng).is_empty());
    assert_eq!(n.value(), 500);
    n.receive(LEFT, &buf(b"u"), 1).unwrap();
    assert_eq!(n.neighbours_active(), (true, true));
}

#[test]
fn start_election_nominates_with_a_fresh_value() {
    let mut n = node(500);
    let mut rng = StdRng::seed_from_u64(42);
    let r = n.start_election(&mut rng);
    let v = n.value();
    assert!(0 <= v && v < 100007);
    let text = format!("e,127.0.0.1:4243,{}", v).into_bytes();
    assert_eq!(r, vec![send(LEFT, &text), send(RIGHT, &text)]);
    let r = n.announce_candidacy(12);
    assert_eq!(r, vec![send(LEFT, b"e,127.0.0.1:4243,12"), send(RIGHT, b"e,127.0.0.1:4243,12")]);
    assert_eq!(n.value(), 12);
}

#[test]
fn unreadable_value_is_an_error_and_changes_nothing() {
    let mut n = node(500);
    let r = n.receive(LEFT, &buf(b"e,127.0.0.1:4242,abc"), 20);
    assert_eq!(r, Err(ElectionError::BadValue));
    assert_eq!(n.nominations(), (Vec::new(), Vec::new()));
}

#[test]
fn missing_value_field_is_an_error_and_changes_nothing() {
    let mut n = node(3);
    let r = n.receive(LEFT, &buf(b"e,5"), 3).unwrap();
    assert_eq!(r, vec![send(RIGHT, b"e,5,5")]);
    let r = n.receive(RIGHT, &buf(b"e,5"), 3);
    assert_eq!(r, Err(ElectionError::MissingField));
    assert_eq!(n.nominations(), (b"e,5".to_vec(), Vec::new()));
}

#[test]
fn equal_values_from_different_servers_pass_on_the_last_message() {
    let mut n = node(100);
    n.receive(LEFT, &buf(b"e,A,700"), 7).unwrap();
    let r = n.receive(RIGHT, &buf(b"e,B,700"), 7).unwrap();
    assert_eq!(r, vec![send(LEFT, b"e,B,700")]);
}

#[test]
fn nominated_node_forwards_the_larger_of_two_different_nominations() {
    let mut n = node(100);
    n.receive(LEFT, &buf(b"e,127.0.0.1:4243,100"), 20).unwrap();
    let r = n.receive(RIGHT, &buf(b"e,B,900"), 7).unwrap();
    assert_eq!(r, vec![send(LEFT, b"e,B,900")]);
}

#[test]
fn passes_on_only_values_at_least_its_own() {
    let mut n = node(800);
    n.receive(LEFT, &buf(b"e,A,700"), 7).unwrap();
    let r = n.receive(RIGHT, &buf(b"e,B,750"), 7).unwrap();
    assert_eq!(r, vec![send(LEFT, b"e,127.0.0.1:4243,800"), send(RIGHT, b"e,127.0.0.1:4243,800")]);
    for a in &r {
        if let Action::Send { payload, .. } = a {
            let last = payload.rsplit(|b| *b == b',').next().unwrap();
            assert!(parse_i32(last).unwrap() >= 800);
        }
    }
}

#[test]
fn other_datagrams_from_neighbours_are_ignored() {
    let mut n = node(500);
    let r = n.receive(LEFT, &buf(b"x,1,2"), 5).unwrap();
    assert!(r.is_empty());
    assert_eq!(n.neighbours_active(), (true, true));
    assert_eq!(n.requests(), 0);
}
