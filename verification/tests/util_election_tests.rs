use ring_cluster::action::Action;
use ring_cluster::election::ElectionError;
use ring_cluster::util_election::{UtilElectionNode, UTIL_DOWN_SECONDS};

const MY: &[u8] = b"127.0.0.1:4244";
const LEFT: &[u8] = b"127.0.0.1:4242";
const RIGHT: &[u8] = b"127.0.0.1:4243";

fn buf(bytes: &[u8]) -> Vec<u8> {
    let mut b = vec![0u8; 30];
    b[..bytes.len()].copy_from_slice(bytes);
    b
}

fn send(to: &[u8], payload: &[u8]) -> Action {
    Action::Send { to: to.to_vec(), payload: payload.to_vec() }
}

fn node() -> UtilElectionNode {
    UtilElectionNode::new(MY, LEFT, RIGHT)
}

#[test]
fn round_starts_only_with_nothing_stored() {
    let mut n = node();
    assert_eq!(n.start_round(2510), vec![send(LEFT, b"e,127.0.0.1:4244,2510"), send(RIGHT, b"e,127.0.0.1:4244,2510")]);
    n.receive(LEFT, &buf(b"e,X,1"), 10).unwrap();
    assert!(n.start_round(2510).is_empty());
}

#[test]
fn higher_value_is_passed_on_under_the_neighbours_address() {
    let mut n = node();
    assert!(n.is_nomination(LEFT, &buf(b"e,X,70")));
    let r = n.receive(LEFT, &buf(b"e,X,70"), 50).unwrap();
    assert_eq!(r, vec![send(RIGHT, b"e,127.0.0.1:4242,70")]);
}

#[test]
fn lower_value_makes_the_node_nominate_itself() {
    let mut n = node();
    let r = n.receive(RIGHT, &buf(b"e,X,30"), 50).unwrap();
    assert_eq!(r, vec![send(LEFT, b"e,127.0.0.1:4244,50"), send(RIGHT, b"e,127.0.0.1:4244,50")]);
}

#[test]
fn two_different_nominations_pass_on_the_larger() {
    let mut n = node();
    n.receive(LEFT, &buf(b"e,A,70"), 10).unwrap();
    let r = n.receive(RIGHT, &buf(b"e,B,90"), 10).unwrap();
    assert_eq!(r, vec![send(LEFT, b"e,127.0.0.1:4243,90")]);
    let r = n.receive(LEFT, &buf(b"e,A,95"), 100).unwrap();
    assert_eq!(r, vec![send(LEFT, b"e,127.0.0.1:4244,100"), send(RIGHT, b"e,127.0.0.1:4244,100")]);
}

#[test]
fn identical_nominations_announce_the_result() {
    let mut n = node();
    n.receive(LEFT, &buf(b"e,X,9"), 5).unwrap();
    let r = n.receive(RIGHT, &buf(b"e,X,9"), 5).unwrap();
    assert_eq!(r, vec![send(LEFT, b"r,X,9"), send(RIGHT, b"r,X,9")]);
    assert_eq!(n.server_down(), b"X".to_vec());
}

#[test]
fn elected_node_tells_its_agents() {
    let mut n = node();
    let agent: &[u8] = b"127.0.0.1:6000";
    let r = n.receive(agent, &buf(&[1, 2, 3, 4, 5]), 0).unwrap();
    assert_eq!(r, vec![send(agent, &[3, 2, 1, 4, 5])]);
    assert!(!n.is_nomination(agent, &buf(b"e,X,1")));
    n.receive(LEFT, &buf(b"e,127.0.0.1:4244,9"), 5).unwrap();
    let r = n.receive(RIGHT, &buf(b"e,127.0.0.1:4244,9"), 5).unwrap();
    assert_eq!(
        r,
        vec![
            send(agent, b"d"),
            Action::Sleep { seconds: UTIL_DOWN_SECONDS },
            send(agent, b"u"),
            send(LEFT, b"r,127.0.0.1:4244,9"),
            send(RIGHT, b"r,127.0.0.1:4244,9"),
        ]
    );
}

#[test]
fn result_records_and_then_closes() {
    let mut n = node();
    n.receive(LEFT, &buf(b"e,X,9"), 5).unwrap();
    assert!(n.receive(LEFT, &buf(b"r,X,9"), 5).unwrap().is_empty());
    assert_eq!(n.server_down(), b"X".to_vec());
    assert_eq!(n.nominations(), (Vec::new(), Vec::new()));
    assert!(n.receive(RIGHT, &buf(b"r,X,9"), 5).unwrap().is_empty());
    assert_eq!(n.server_down(), Vec::<u8>::new());
}

#[test]
fn bad_value_is_an_error() {
    let mut n = node();
    assert_eq!(n.receive(LEFT, &buf(b"e,X,?"), 5), Err(ElectionError::BadValue));
    assert_eq!(n.nominations(), (Vec::new(), Vec::new()));
}
