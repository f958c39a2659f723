//! A server's side of the ring election, as a state machine.
//!
//! Each server knows its own address and its two ring neighbours (left and
//! right). A neighbour sends the notices `d` (going down) and `u` (back up),
//! nominations `e,<address>,<value>` and results `r,<address>,<value>`; every
//! other sender is an agent forwarding a client's request. The node keeps the
//! last nomination heard from each side. When both sides nominate the same
//! server it announces the result; the elected server tells everyone it goes
//! down, sleeps, draws a new value and tells everyone it is back up.
//!
//! The node decides; its runtime carries out the returned [`Action`]s in
//! order (sending, sleeping, and calling [`ElectionNode::redraw`]).
use vstd::prelude::*;
use rand::rngs::StdRng;
use crate::action::{effects, push_redraw, push_send, push_sends, push_sleep, sends_to_all, Action, Effect};
use crate::bytes::{bytes_equal, contains_bytes, copy_bytes, lemma_split_head, lemma_split_nonempty, split_bytes, views};
use crate::message::{
    carried_value, field_at, fields, lemma_head_is, lemma_nomination_stored, lemma_nomination_tag,
    lemma_nomination_value, lemma_result_tag, nomination, nomination_bytes, nominee, nominee_of,
    result_bytes, result_notice, stored_ok, stored_value, stored_value_of, until_nul, until_nul_bytes,
};
use crate::frame::{answer_frame, answer_request};
use crate::random::{election_value, ELECTION_MODULUS};

verus! {

/// Size of the buffer a server receives datagrams into.
pub const RECEIVE_BUFFER_LEN: usize = 30;

/// How long the elected server stays down.
pub const DOWN_SECONDS: u64 = 15;

/// Why a datagram could not be handled.
#[derive(Clone, Copy, PartialEq, Eq, Debug)]
pub enum ElectionError {
    /// A stored nomination does not end in a decimal `i32`.
    BadValue,
    /// A nomination or result lacks the address or value field that is used.
    MissingField,
    /// The count of agent requests would pass `u32::MAX`.
    CounterOverflow,
}

/// Which neighbour a datagram came from.
#[derive(Clone, Copy, PartialEq, Eq, Debug)]
pub enum Side {
    Left,
    Right,
}

/// The state of a node, as contracts speak of it.
#[verifier::ext_equal]
pub struct NodeView {
    pub my_address: Seq<u8>,
    pub left: Seq<u8>,
    pub right: Seq<u8>,
    /// Last nomination from the left neighbour (empty: none).
    pub from_left: Seq<u8>,
    /// Last nomination from the right neighbour (empty: none).
    pub from_right: Seq<u8>,
    /// Last result this node announced.
    pub result: Seq<u8>,
    /// Address of the server elected last (empty once its result came back).
    pub server_down: Seq<u8>,
    /// This node's election value.
    pub value: i32,
    pub left_active: bool,
    pub right_active: bool,
    /// Agents that have sent requests, in order of first appearance.
    pub agents: Seq<Seq<u8>>,
    /// Number of agent requests served.
    pub requests: u32,
}

pub open spec fn no_duplicates(a: Seq<Seq<u8>>) -> bool {
    forall|i: int, j: int| 0 <= i < j < a.len() ==> a[i] != a[j]
}

/// What every reachable node state satisfies.
pub open spec fn well_formed(s: NodeView) -> bool {
    &&& stored_ok(s.from_left)
    &&& stored_ok(s.from_right)
    &&& no_duplicates(s.agents)
}

pub open spec fn to_neighbours(s: NodeView, payload: Seq<u8>) -> Seq<Effect> {
    seq![Effect::Send(s.left, payload), Effect::Send(s.right, payload)]
}

/// `payload` to every known agent, then to both neighbours.
pub open spec fn announce(s: NodeView, payload: Seq<u8>) -> Seq<Effect> {
    sends_to_all(s.agents, payload) + to_neighbours(s, payload)
}

/// Going down: `d` to everyone, sleep, draw a new value, `u` to everyone.
pub open spec fn going_down(s: NodeView) -> Seq<Effect> {
    announce(s, seq![100u8]) + seq![Effect::Sleep(DOWN_SECONDS), Effect::Redraw] + announce(
        s,
        seq![117u8],
    )
}

pub open spec fn sender_side(s: NodeView, src: Seq<u8>) -> Option<Side> {
    if src == s.left {
        Some(Side::Left)
    } else if src == s.right {
        Some(Side::Right)
    } else {
        None
    }
}

/// A one-byte `d` or `u` from a neighbour marks it down or up.
pub open spec fn after_notice(s: NodeView, side: Side, buf: Seq<u8>, amt: int) -> NodeView {
    if amt == 1 && (buf[0] == 100u8 || buf[0] == 117u8) {
        let up = buf[0] == 117u8;
        match side {
            Side::Left => NodeView { left_active: up, ..s },
            Side::Right => NodeView { right_active: up, ..s },
        }
    } else {
        s
    }
}

/// A result from a neighbour (while both neighbours are up): if it names the
/// server already recorded as down, that election is over; otherwise the named
/// server is recorded as down (going down if it is this node) and the stored
/// nominations and result are cleared.
pub open spec fn on_result(s: NodeView, buf: Seq<u8>) -> Result<(NodeView, Seq<Effect>), ElectionError> {
    if !(s.left_active && s.right_active) {
        Ok((s, seq![]))
    } else if fields(buf).len() < 2 {
        Err(ElectionError::MissingField)
    } else {
        let named = fields(buf)[1];
        if named == s.server_down {
            Ok((NodeView { server_down: seq![], ..s }, seq![]))
        } else {
            let s2 = NodeView { server_down: named, ..s };
            let eff = if named == s.my_address {
                going_down(s2)
            } else {
                seq![]
            };
            Ok((NodeView { from_left: seq![], from_right: seq![], result: seq![], ..s2 }, eff))
        }
    }
}

pub open spec fn with_stored(s: NodeView, side: Side, msg: Seq<u8>) -> NodeView {
    match side {
        Side::Left => NodeView { from_left: msg, ..s },
        Side::Right => NodeView { from_right: msg, ..s },
    }
}

/// Both sides nominate the same server: record and announce it as elected
/// (going down first if it is this node).
pub open spec fn conclude(s: NodeView) -> Result<(NodeView, Seq<Effect>), ElectionError> {
    if fields(s.from_left).len() < 3 {
        Err(ElectionError::MissingField)
    } else {
        let winner = nominee(s.from_left);
        let notice = result_notice(winner, fields(s.from_left)[2]);
        let s2 = NodeView { result: notice, server_down: winner, ..s };
        if winner == s.my_address {
            Ok(
                (
                    NodeView { from_left: seq![], from_right: seq![], ..s2 },
                    going_down(s2) + to_neighbours(s2, notice),
                ),
            )
        } else {
            Ok((s2, to_neighbours(s2, notice)))
        }
    }
}

/// Whether one of the stored nominations already names this node.
pub open spec fn is_considered(s: NodeView) -> bool {
    (s.from_left.len() > 0 && nominee(s.from_left) == s.my_address) || (s.from_right.len() > 0
        && nominee(s.from_right) == s.my_address)
}

/// The reaction to the nominations stored in `s` after one came in from
/// `side`, whose values are `v1` (left) and `v2` (right).
pub open spec fn decide(s: NodeView, side: Side, v1: i32, v2: i32) -> Result<
    (NodeView, Seq<Effect>),
    ElectionError,
> {
    let dest = match side {
        Side::Left => s.right,
        Side::Right => s.left,
    };
    let e0 = s.from_left;
    let e1 = s.from_right;
    let my = s.my_address;
    let avg = s.value;
    let considered = is_considered(s);
    let fwd0 = seq![Effect::Send(dest, nomination(nominee(e0), v1 as int))];
    let fwd1 = seq![Effect::Send(dest, nomination(nominee(e1), v2 as int))];
    let mine = to_neighbours(s, nomination(my, avg as int));
    if considered {
        if e0.len() == 0 {
            Ok((s, fwd1))
        } else if e1.len() == 0 {
            Ok((s, fwd0))
        } else if nominee(e0) == nominee(e1) {
            conclude(s)
        } else if v1 > v2 {
            Ok((s, fwd0))
        } else {
            Ok((s, fwd1))
        }
    } else {
        if e0.len() == 0 {
            if v2 > avg {
                Ok((s, fwd1))
            } else {
                Ok((s, mine))
            }
        } else if e1.len() == 0 {
            if v1 > avg {
                Ok((s, fwd0))
            } else {
                Ok((s, mine))
            }
        } else if nominee(e0) == nominee(e1) {
            if avg > v1 {
                Ok((s, mine))
            } else {
                conclude(s)
            }
        } else if v1 == v2 && avg <= v1 {
            let last = match side {
                Side::Left => e0,
                Side::Right => e1,
            };
            Ok((s, seq![Effect::Send(dest, last)]))
        } else if v1 > v2 && v1 > avg {
            Ok((s, fwd0))
        } else if v2 > v1 && v2 > avg {
            Ok((s, fwd1))
        } else if avg > v1 && avg > v2 {
            Ok((s, mine))
        } else {
            Ok((s, seq![]))
        }
    }
}

/// A nomination from a neighbour (while both neighbours are up): store it
/// (up to its first NUL) as that side's nomination, then decide.
pub open spec fn on_nomination(s: NodeView, side: Side, buf: Seq<u8>) -> Result<
    (NodeView, Seq<Effect>),
    ElectionError,
> {
    if !(s.left_active && s.right_active) {
        Ok((s, seq![]))
    } else {
        let s1 = with_stored(s, side, until_nul(buf));
        match (stored_value(s1.from_left), stored_value(s1.from_right)) {
            (Some(v1), Some(v2)) => decide(s1, side, v1, v2),
            _ => Err(ElectionError::BadValue),
        }
    }
}

/// A request from an agent: count it, remember the agent, answer it.
pub open spec fn on_agent(s: NodeView, src: Seq<u8>, buf: Seq<u8>) -> Result<
    (NodeView, Seq<Effect>),
    ElectionError,
> {
    if s.requests == u32::MAX {
        Err(ElectionError::CounterOverflow)
    } else {
        let agents = if s.agents.contains(src) {
            s.agents
        } else {
            s.agents.push(src)
        };
        Ok(
            (
                NodeView { requests: (s.requests + 1) as u32, agents: agents, ..s },
                seq![Effect::Send(src, answer_frame(buf))],
            ),
        )
    }
}

/// The node's reaction to `amt` bytes received from `src` into `buf`.
pub open spec fn receive_spec(s: NodeView, src: Seq<u8>, buf: Seq<u8>, amt: int) -> Result<
    (NodeView, Seq<Effect>),
    ElectionError,
> {
    match sender_side(s, src) {
        None => on_agent(s, src, buf),
        Some(side) => {
            let s1 = after_notice(s, side, buf, amt);
            let head = fields(buf)[0];
            if head == seq![114u8] {
                on_result(s1, buf)
            } else if head == seq![101u8] {
                on_nomination(s1, side, buf)
            } else {
                Ok((s1, seq![]))
            }
        },
    }
}

/// `r` is what `o` prescribes: on `Ok`, the state `after` and the effects of
/// the actions; on an error, the same error and the state left as `before`.
pub open spec fn outcome_matches(
    o: Result<(NodeView, Seq<Effect>), ElectionError>,
    before: NodeView,
    after: NodeView,
    r: Result<Vec<Action>, ElectionError>,
) -> bool {
    match r {
        Ok(actions) => o matches Ok(p) && p.0 == after && p.1 == effects(actions@),
        Err(e) => o matches Err(e2) && e2 == e && after == before,
    }
}

/// A server taking part in the ring election.
pub struct ElectionNode {
    my_address: Vec<u8>,
    left: Vec<u8>,
    right: Vec<u8>,
    from_left: Vec<u8>,
    from_right: Vec<u8>,
    result: Vec<u8>,
    server_down: Vec<u8>,
    value: i32,
    left_active: bool,
    right_active: bool,
    agents: Vec<Vec<u8>>,
    requests: u32,
}

impl View for ElectionNode {
    type V = NodeView;

    closed spec fn view(&self) -> NodeView {
        NodeView {
            my_address: self.my_address@,
            left: self.left@,
            right: self.right@,
            from_left: self.from_left@,
            from_right: self.from_right@,
            result: self.result@,
            server_down: self.server_down@,
            value: self.value,
            left_active: self.left_active,
            right_active: self.right_active,
            agents: views(self.agents@),
            requests: self.requests,
        }
    }
}

impl ElectionNode {
    /// A node at `my_address` between `left` and `right`, campaigning with
    /// `value`, with both neighbours up and nothing heard yet.
    pub fn new(my_address: &[u8], left: &[u8], right: &[u8], value: i32) -> (node: Self)
        ensures
            well_formed(node@),
            node@ == (NodeView {
                my_address: my_address@,
                left: left@,
                right: right@,
                from_left: seq![],
                from_right: seq![],
                result: seq![],
                server_down: seq![],
                value: value,
                left_active: true,
                right_active: true,
                agents: seq![],
                requests: 0,
            }),
    {
        let node = ElectionNode {
            my_address: copy_bytes(my_address),
            left: copy_bytes(left),
            right: copy_bytes(right),
            from_left: Vec::new(),
            from_right: Vec::new(),
            result: Vec::new(),
            server_down: Vec::new(),
            value: value,
            left_active: true,
            right_active: true,
            agents: Vec::new(),
            requests: 0,
        };
        assert(views(node.agents@) =~= Seq::<Seq<u8>>::empty());
        node
    }

    /// This node's election value.
    pub fn value(&self) -> (v: i32)
        ensures
            v == self@.value,
    {
        self.value
    }

    /// The number of agent requests served.
    pub fn requests(&self) -> (n: u32)
        ensures
            n == self@.requests,
    {
        self.requests
    }

    /// The address of the server last recorded as elected (empty if none).
    pub fn server_down(&self) -> (a: Vec<u8>)
        ensures
            a@ == self@.server_down,
    {
        copy_bytes(self.server_down.as_slice())
    }

    /// The nominations last stored from the left and the right neighbour.
    pub fn nominations(&self) -> (n: (Vec<u8>, Vec<u8>))
        ensures
            n.0@ == self@.from_left,
            n.1@ == self@.from_right,
    {
        (copy_bytes(self.from_left.as_slice()), copy_bytes(self.from_right.as_slice()))
    }

    /// Whether the left and the right neighbour are up.
    pub fn neighbours_active(&self) -> (a: (bool, bool))
        ensures
            a.0 == self@.left_active,
            a.1 == self@.right_active,
    {
        (self.left_active, self.right_active)
    }

    /// The number of distinct agents heard from.
    pub fn agent_count(&self) -> (n: usize)
        ensures
            n == self@.agents.len(),
    {
        self.agents.len()
    }

    fn push_to_neighbours(&self, actions: &mut Vec<Action>, payload: &[u8])
        ensures
            effects(final(actions)@) == effects(old(actions)@) + to_neighbours(self@, payload@),
    {
        push_send(actions, self.left.as_slice(), payload);
        push_send(actions, self.right.as_slice(), payload);
        assert(effects(final(actions)@) =~= effects(old(actions)@) + to_neighbours(self@, payload@));
    }

    fn push_announce(&self, actions: &mut Vec<Action>, payload: &[u8])
        ensures
            effects(final(actions)@) == effects(old(actions)@) + announce(self@, payload@),
    {
        push_sends(actions, &self.agents, payload);
        self.push_to_neighbours(actions, payload);
        assert(effects(final(actions)@) =~= effects(old(actions)@) + announce(self@, payload@));
    }

    fn push_going_down(&self, actions: &mut Vec<Action>)
        ensures
            effects(final(actions)@) == effects(old(actions)@) + going_down(self@),
    {
        let down: [u8; 1] = [100u8];
        let up: [u8; 1] = [117u8];
        assert(down@ =~= seq![100u8]);
        assert(up@ =~= seq![117u8]);
        self.push_announce(actions, &down);
        push_sleep(actions, DOWN_SECONDS);
        push_redraw(actions);
        self.push_announce(actions, &up);
        assert(effects(final(actions)@) =~= effects(old(actions)@) + going_down(self@));
    }

    fn side_of(&self, src: &[u8]) -> (side: Option<Side>)
        ensures
            side == sender_side(self@, src@),
    {
        if bytes_equal(src, self.left.as_slice()) {
            Some(Side::Left)
        } else if bytes_equal(src, self.right.as_slice()) {
            Some(Side::Right)
        } else {
            None
        }
    }

    fn apply_notice(&mut self, side: Side, buf: &[u8], amt: usize)
        requires
            buf@.len() >= 1,
        ensures
            final(self)@ == after_notice(old(self)@, side, buf@, amt as int),
    {
        if amt == 1 && (buf[0] == 100u8 || buf[0] == 117u8) {
            let up = buf[0] == 117u8;
            match side {
                Side::Left => {
                    self.left_active = up;
                },
                Side::Right => {
                    self.right_active = up;
                },
            }
        }
        assert(self@ =~= after_notice(old(self)@, side, buf@, amt as int));
    }

    fn on_result(&mut self, buf: &[u8]) -> (r: Result<Vec<Action>, ElectionError>)
        requires
            well_formed(old(self)@),
        ensures
            well_formed(final(self)@),
            outcome_matches(on_result(old(self)@, buf@), old(self)@, final(self)@, r),
    {
        let mut actions: Vec<Action> = Vec::new();
        if !(self.left_active && self.right_active) {
            assert(effects(actions@) =~= Seq::<Effect>::empty());
            return Ok(actions);
        }
        let named = match field_at(buf, 1) {
            Some(f) => f,
            None => {
                return Err(ElectionError::MissingField);
            },
        };
        if bytes_equal(named.as_slice(), self.server_down.as_slice()) {
            self.server_down = Vec::new();
            assert(effects(actions@) =~= Seq::<Effect>::empty());
            assert(self@ =~= NodeView { server_down: seq![], ..old(self)@ });
            return Ok(actions);
        }
        let goes_down = bytes_equal(named.as_slice(), self.my_address.as_slice());
        self.server_down = named;
        let ghost s2 = self@;
        assert(s2 =~= NodeView { server_down: fields(buf@)[1], ..old(self)@ });
        if goes_down {
            self.push_going_down(&mut actions);
        }
        self.from_left = Vec::new();
        self.from_right = Vec::new();
        self.result = Vec::new();
        assert(self@ =~= NodeView { from_left: seq![], from_right: seq![], result: seq![], ..s2 });
        assert(effects(actions@) =~= (if fields(buf@)[1] == old(self)@.my_address {
            going_down(s2)
        } else {
            seq![]
        }));
        Ok(actions)
    }

    fn conclude(&mut self) -> (r: Result<Vec<Action>, ElectionError>)
        requires
            well_formed(old(self)@),
        ensures
            well_formed(final(self)@),
            outcome_matches(conclude(old(self)@), old(self)@, final(self)@, r),
    {
        let pieces = split_bytes(self.from_left.as_slice(), 44u8);
        if pieces.len() < 3 {
            return Err(ElectionError::MissingField);
        }
        assert(views(pieces@)[1] == pieces@[1]@);
        assert(views(pieces@)[2] == pieces@[2]@);
        let winner = copy_bytes(pieces[1].as_slice());
        let notice = result_bytes(winner.as_slice(), pieces[2].as_slice());
        let goes_down = bytes_equal(winner.as_slice(), self.my_address.as_slice());
        self.result = copy_bytes(notice.as_slice());
        self.server_down = winner;
        let ghost s2 = self@;
        let ghost s = old(self)@;
        assert(s2 =~= NodeView {
            result: result_notice(nominee(s.from_left), fields(s.from_left)[2]),
            server_down: nominee(s.from_left),
            ..s
        });
        let mut actions: Vec<Action> = Vec::new();
        if goes_down {
            self.push_going_down(&mut actions);
            self.from_left = Vec::new();
            self.from_right = Vec::new();
            assert(self@ =~= NodeView { from_left: seq![], from_right: seq![], ..s2 });
        }
        self.push_to_neighbours(&mut actions, notice.as_slice());
        proof {
            if goes_down {
                assert(effects(actions@) =~= going_down(s2) + to_neighbours(s2, notice@));
            } else {
                assert(effects(actions@) =~= to_neighbours(s2, notice@));
            }
        }
        Ok(actions)
    }

    fn decide(&mut self, side: Side, v1: i32, v2: i32) -> (r: Result<Vec<Action>, ElectionError>)
        requires
            well_formed(old(self)@),
            old(self)@.from_left.len() > 0 || old(self)@.from_right.len() > 0,
        ensures
            well_formed(final(self)@),
            outcome_matches(decide(old(self)@, side, v1, v2), old(self)@, final(self)@, r),
    {
        let ghost s = self@;
        let has0 = self.from_left.len() > 0;
        let has1 = self.from_right.len() > 0;
        let n0 = if has0 {
            nominee_of(self.from_left.as_slice())
        } else {
            Vec::new()
        };
        let n1 = if has1 {
            nominee_of(self.from_right.as_slice())
        } else {
            Vec::new()
        };
        let considered = (has0 && bytes_equal(n0.as_slice(), self.my_address.as_slice())) || (has1
            && bytes_equal(n1.as_slice(), self.my_address.as_slice()));
        let dest = match side {
            Side::Left => copy_bytes(self.right.as_slice()),
            Side::Right => copy_bytes(self.left.as_slice()),
        };
        let avg = self.value;
        let mut actions: Vec<Action> = Vec::new();
        // 0: forward the left nomination, 1: forward the right one,
        // 2: nominate this node, 3: conclude, 4: pass on the last message,
        // 5: nothing.
        let choice: u8 = if considered {
            if !has0 {
                1
            } else if !has1 {
                0
            } else if bytes_equal(n0.as_slice(), n1.as_slice()) {
                3
            } else if v1 > v2 {
                0
            } else {
                1
            }
        } else {
            if !has0 {
                if v2 > avg {
                    1
                } else {
                    2
                }
            } else if !has1 {
                if v1 > avg {
                    0
                } else {
                    2
                }
            } else if bytes_equal(n0.as_slice(), n1.as_slice()) {
                if avg > v1 {
                    2
                } else {
                    3
                }
            } else if v1 == v2 && avg <= v1 {
                4
            } else if v1 > v2 && v1 > avg {
                0
            } else if v2 > v1 && v2 > avg {
                1
            } else if avg > v1 && avg > v2 {
                2
            } else {
                5
            }
        };
        if choice == 3 {
            return self.conclude();
        }
        if choice == 0 {
            let m = nomination_bytes(n0.as_slice(), v1);
            push_send(&mut actions, dest.as_slice(), m.as_slice());
        } else if choice == 1 {
            let m = nomination_bytes(n1.as_slice(), v2);
            push_send(&mut actions, dest.as_slice(), m.as_slice());
        } else if choice == 2 {
            let m = nomination_bytes(self.my_address.as_slice(), avg);
            self.push_to_neighbours(&mut actions, m.as_slice());
        } else if choice == 4 {
            match side {
                Side::Left => push_send(&mut actions, dest.as_slice(), self.from_left.as_slice()),
                Side::Right => push_send(&mut actions, dest.as_slice(), self.from_right.as_slice()),
            }
        }
        proof {
            let dest_s = match side {
                Side::Left => s.right,
                Side::Right => s.left,
            };
            assert(dest@ == dest_s);
            if choice == 0 {
                assert(effects(actions@) =~= seq![
                    Effect::Send(dest_s, nomination(nominee(s.from_left), v1 as int)),
                ]);
            } else if choice == 1 {
                assert(effects(actions@) =~= seq![
                    Effect::Send(dest_s, nomination(nominee(s.from_right), v2 as int)),
                ]);
            } else if choice == 2 {
                assert(effects(actions@) =~= to_neighbours(s, nomination(s.my_address, s.value as int)));
            } else if choice == 4 {
                let last = match side {
                    Side::Left => s.from_left,
                    Side::Right => s.from_right,
                };
                assert(effects(actions@) =~= seq![Effect::Send(dest_s, last)]);
            } else {
                assert(effects(actions@) =~= Seq::<Effect>::empty());
            }
        }
        Ok(actions)
    }

    fn on_nomination(&mut self, side: Side, buf: &[u8]) -> (r: Result<Vec<Action>, ElectionError>)
        requires
            well_formed(old(self)@),
            buf@.len() >= 2,
            buf@[0] == 101u8,
            buf@[1] == 44u8,
        ensures
            well_formed(final(self)@),
            outcome_matches(on_nomination(old(self)@, side, buf@), old(self)@, final(self)@, r),
    {
        if !(self.left_active && self.right_active) {
            let actions: Vec<Action> = Vec::new();
            assert(effects(actions@) =~= Seq::<Effect>::empty());
            return Ok(actions);
        }
        let msg = until_nul_bytes(buf);
        proof {
            lemma_nomination_stored(buf@);
        }
        let ghost s1 = with_stored(self@, side, msg@);
        let saved = match side {
            Side::Left => copy_bytes(self.from_left.as_slice()),
            Side::Right => copy_bytes(self.from_right.as_slice()),
        };
        match side {
            Side::Left => {
                self.from_left = msg;
            },
            Side::Right => {
                self.from_right = msg;
            },
        }
        assert(self@ =~= s1);
        let v1 = stored_value_of(self.from_left.as_slice());
        let v2 = stored_value_of(self.from_right.as_slice());
        match (v1, v2) {
            (Some(a), Some(b)) => {
                let r = self.decide(side, a, b);
                match r {
                    Ok(actions) => Ok(actions),
                    Err(e) => {
                        match side {
                            Side::Left => {
                                self.from_left = saved;
                            },
                            Side::Right => {
                                self.from_right = saved;
                            },
                        }
                        assert(self@ =~= old(self)@);
                        Err(e)
                    },
                }
            },
            _ => {
                match side {
                    Side::Left => {
                        self.from_left = saved;
                    },
                    Side::Right => {
                        self.from_right = saved;
                    },
                }
                assert(self@ =~= old(self)@);
                Err(ElectionError::BadValue)
            },
        }
    }

    fn on_agent(&mut self, src: &[u8], buf: &[u8]) -> (r: Result<Vec<Action>, ElectionError>)
        requires
            well_formed(old(self)@),
            buf@.len() >= 5,
        ensures
            well_formed(final(self)@),
            outcome_matches(on_agent(old(self)@, src@, buf@), old(self)@, final(self)@, r),
    {
        if self.requests == u32::MAX {
            return Err(ElectionError::CounterOverflow);
        }
        self.requests = self.requests + 1;
        let known = contains_bytes(&self.agents, src);
        let ghost agents_before = views(self.agents@);
        if !known {
            self.agents.push(copy_bytes(src));
            assert(views(self.agents@) =~= agents_before.push(src@));
            assert(no_duplicates(views(self.agents@))) by {
                assert forall|i: int, j: int|
                    0 <= i < j < views(self.agents@).len() implies views(self.agents@)[i] != views(
                    self.agents@,
                )[j] by {
                    if j == agents_before.len() {
                        assert(views(self.agents@)[i] == agents_before[i]);
                    } else {
                        assert(views(self.agents@)[i] == agents_before[i]);
                        assert(views(self.agents@)[j] == agents_before[j]);
                    }
                }
            }
        }
        let answer = answer_request(buf);
        let mut actions: Vec<Action> = Vec::new();
        push_send(&mut actions, src, &answer);
        let ghost s = old(self)@;
        let ghost agents = if s.agents.contains(src@) {
            s.agents
        } else {
            s.agents.push(src@)
        };
        assert(self@ =~= NodeView { requests: (s.requests + 1) as u32, agents: agents, ..s });
        assert(effects(actions@) =~= seq![Effect::Send(src@, answer_frame(buf@))]);
        Ok(actions)
    }

    /// Handles `amt` bytes received from `src` into the receive buffer `buf`.
    /// On an error the node is left as it was.
    pub fn receive(&mut self, src: &[u8], buf: &[u8], amt: usize) -> (r: Result<
        Vec<Action>,
        ElectionError,
    >)
        requires
            well_formed(old(self)@),
            buf@.len() == RECEIVE_BUFFER_LEN,
        ensures
            well_formed(final(self)@),
            outcome_matches(receive_spec(old(self)@, src@, buf@, amt as int), old(self)@, final(self)@, r),
    {
        match self.side_of(src) {
            None => self.on_agent(src, buf),
            Some(side) => {
                let ghost s0 = self@;
                self.apply_notice(side, buf, amt);
                let head = match field_at(buf, 0) {
                    Some(f) => f,
                    None => Vec::new(),
                };
                proof {
                    lemma_split_nonempty(buf@, 44u8);
                }
                let r_tag: [u8; 1] = [114u8];
                let e_tag: [u8; 1] = [101u8];
                assert(r_tag@ =~= seq![114u8]);
                assert(e_tag@ =~= seq![101u8]);
                if bytes_equal(head.as_slice(), &r_tag) {
                    proof {
                        lemma_head_is(buf@, 114u8);
                    }
                    self.on_result(buf)
                } else if bytes_equal(head.as_slice(), &e_tag) {
                    proof {
                        lemma_head_is(buf@, 101u8);
                        assert(self@ == s0);
                    }
                    self.on_nomination(side, buf)
                } else {
                    let actions: Vec<Action> = Vec::new();
                    assert(effects(actions@) =~= Seq::<Effect>::empty());
                    Ok(actions)
                }
            },
        }
    }

    /// Sets this node's election value and nominates itself to both
    /// neighbours.
    pub fn announce_candidacy(&mut self, value: i32) -> (actions: Vec<Action>)
        requires
            well_formed(old(self)@),
        ensures
            well_formed(final(self)@),
            final(self)@ == (NodeView { value: value, ..old(self)@ }),
            effects(actions@) == to_neighbours(old(self)@, nomination(old(self)@.my_address, value as int)),
    {
        self.value = value;
        let m = nomination_bytes(self.my_address.as_slice(), value);
        let mut actions: Vec<Action> = Vec::new();
        self.push_to_neighbours(&mut actions, m.as_slice());
        assert(self@ =~= NodeView { value: value, ..old(self)@ });
        assert(effects(actions@) =~= to_neighbours(old(self)@, m@));
        actions
    }

    /// The periodic start of an election: when both neighbours are up, draw a
    /// fresh value from `rng` and nominate this node; otherwise do nothing.
    pub fn start_election(&mut self, rng: &mut StdRng) -> (actions: Vec<Action>)
        requires
            well_formed(old(self)@),
        ensures
            well_formed(final(self)@),
            old(self)@.left_active && old(self)@.right_active ==> {
                &&& 0 <= final(self)@.value < ELECTION_MODULUS
                &&& final(self)@ == (NodeView { value: final(self)@.value, ..old(self)@ })
                &&& effects(actions@) == to_neighbours(
                    old(self)@,
                    nomination(old(self)@.my_address, final(self)@.value as int),
                )
            },
            !(old(self)@.left_active && old(self)@.right_active) ==> {
                &&& final(self)@ == old(self)@
                &&& actions@.len() == 0
            },
    {
        if self.left_active && self.right_active {
            let v = election_value(rng);
            self.announce_candidacy(v)
        } else {
            Vec::new()
        }
    }

    /// Draws a fresh election value from `rng` (the `Redraw` action).
    pub fn redraw(&mut self, rng: &mut StdRng)
        requires
            well_formed(old(self)@),
        ensures
            well_formed(final(self)@),
            0 <= final(self)@.value < ELECTION_MODULUS,
            final(self)@ == (NodeView { value: final(self)@.value, ..old(self)@ }),
    {
        self.value = election_value(rng);
        assert(self@ =~= NodeView { value: self.value, ..old(self)@ });
    }
}

/// A `Send` whose payload starts with `c`.
pub open spec fn sends_tagged(e: Effect, c: u8) -> bool {
    (e matches Effect::Send(_, p) && p.len() > 0 && p[0] == c)
}

/// The node state once a datagram from a neighbour on `side` has been noted
/// and, were it a nomination, stored.
pub open spec fn stored_after(s: NodeView, side: Side, buf: Seq<u8>, amt: int) -> NodeView {
    with_stored(after_notice(s, side, buf, amt), side, until_nul(buf))
}

/// The neighbour opposite `side`.
pub open spec fn opposite(s: NodeView, side: Side) -> Seq<u8> {
    match side {
        Side::Left => s.right,
        Side::Right => s.left,
    }
}

proof fn lemma_announce_payload(s: NodeView, payload: Seq<u8>)
    ensures
        forall|i: int| 0 <= i < announce(s, payload).len() ==> ((#[trigger] announce(s, payload)[i]) matches Effect::Send(_, p) && p == payload),
{
    let a = sends_to_all(s.agents, payload);
    assert forall|i: int| 0 <= i < announce(s, payload).len() implies ((#[trigger] announce(s, payload)[i]) matches Effect::Send(_, p) && p == payload) by {
        if i < a.len() {
            assert(announce(s, payload)[i] == a[i]);
        } else {
            assert(announce(s, payload)[i] == to_neighbours(s, payload)[i - a.len()]);
        }
    }
}

/// Going down sends only `d` and `u`, sleeps and redraws.
proof fn lemma_going_down_shape(s: NodeView)
    ensures
        forall|i: int| 0 <= i < going_down(s).len() ==> {
            ||| ((#[trigger] going_down(s)[i]) matches Effect::Send(_, p) && (p == seq![100u8] || p == seq![117u8]))
            ||| going_down(s)[i] == Effect::Sleep(DOWN_SECONDS)
            ||| going_down(s)[i] == Effect::Redraw
        },
{
    lemma_announce_payload(s, seq![100u8]);
    lemma_announce_payload(s, seq![117u8]);
    let d = announce(s, seq![100u8]);
    let mid = seq![Effect::Sleep(DOWN_SECONDS), Effect::Redraw];
    let u = announce(s, seq![117u8]);
    assert forall|i: int| 0 <= i < going_down(s).len() implies {
        ||| ((#[trigger] going_down(s)[i]) matches Effect::Send(_, p) && (p == seq![100u8] || p == seq![117u8]))
        ||| going_down(s)[i] == Effect::Sleep(DOWN_SECONDS)
        ||| going_down(s)[i] == Effect::Redraw
    } by {
        if i < d.len() {
            assert(going_down(s)[i] == d[i]);
        } else if i < d.len() + 2 {
            assert(going_down(s)[i] == mid[i - d.len()]);
        } else {
            assert(going_down(s)[i] == u[i - d.len() - 2]);
        }
    }
}

/// A node announces a result only when the latest nominations from both
/// neighbours name the same server: the result names that server, which the
/// node records as the one going down.
pub proof fn lemma_result_needs_agreement(s: NodeView, src: Seq<u8>, buf: Seq<u8>, amt: int)
    requires
        well_formed(s),
        buf.len() == RECEIVE_BUFFER_LEN,
        sender_side(s, src) is Some,
    ensures
        receive_spec(s, src, buf, amt) matches Ok(p) ==> forall|i: int|
            0 <= i < p.1.len() && sends_tagged(#[trigger] p.1[i], 114u8) ==> {
                let st = stored_after(s, sender_side(s, src)->0, buf, amt);
                &&& st.from_left.len() > 0
                &&& st.from_right.len() > 0
                &&& nominee(st.from_left) == nominee(st.from_right)
                &&& p.0.server_down == nominee(st.from_left)
                &&& (p.1[i] matches Effect::Send(_, m) && m == result_notice(
                    nominee(st.from_left),
                    fields(st.from_left)[2],
                ))
            },
{
    let side = sender_side(s, src)->0;
    let s1 = after_notice(s, side, buf, amt);
    let head = fields(buf)[0];
    lemma_split_nonempty(buf, 44u8);
    if head == seq![114u8] {
        lemma_head_is(buf, 114u8);
        let s2 = NodeView { server_down: fields(buf)[1], ..s1 };
        lemma_going_down_shape(s2);
    } else if head == seq![101u8] && s1.left_active && s1.right_active {
        lemma_head_is(buf, 101u8);
        lemma_nomination_stored(buf);
        let st = stored_after(s, side, buf, amt);
        if let (Some(v1), Some(v2)) = (stored_value(st.from_left), stored_value(st.from_right)) {
            let dest = opposite(st, side);
            lemma_nomination_tag(nominee(st.from_left), v1 as int);
            lemma_nomination_tag(nominee(st.from_right), v2 as int);
            lemma_nomination_tag(st.my_address, st.value as int);
            if fields(st.from_left).len() >= 3 {
                let winner = nominee(st.from_left);
                let notice = result_notice(winner, fields(st.from_left)[2]);
                lemma_result_tag(winner, notice);
                lemma_result_tag(winner, fields(st.from_left)[2]);
                let s2 = NodeView { result: notice, server_down: winner, ..st };
                lemma_going_down_shape(s2);
                let g = going_down(s2);
                let t = to_neighbours(s2, notice);
                assert forall|i: int| 0 <= i < (g + t).len() && sends_tagged(#[trigger] (g + t)[i], 114u8) implies i >= g.len() by {
                    if i < g.len() {
                        assert((g + t)[i] == g[i]);
                    }
                }
            }
        }
    }
}

/// The node sleeps only when it is the elected server itself; it then first
/// tells every agent and both neighbours `d`, sleeps, draws a new value and
/// tells them all `u`.
pub proof fn lemma_down_only_when_elected(s: NodeView, src: Seq<u8>, buf: Seq<u8>, amt: int)
    requires
        well_formed(s),
        buf.len() == RECEIVE_BUFFER_LEN,
    ensures
        receive_spec(s, src, buf, amt) matches Ok(p) ==> ((exists|i: int|
            0 <= i < p.1.len() && (#[trigger] p.1[i]) is Sleep) ==> {
            &&& p.0.server_down == s.my_address
            &&& p.1.len() >= going_down(s).len()
            &&& p.1.subrange(0, going_down(s).len() as int) == going_down(s)
        }),
{
    lemma_split_nonempty(buf, 44u8);
    match sender_side(s, src) {
        None => {
            if let Ok(p) = receive_spec(s, src, buf, amt) {
                assert(forall|i: int| 0 <= i < p.1.len() ==> (#[trigger] p.1[i]) is Send);
            }
        },
        Some(side) => {
            let s1 = after_notice(s, side, buf, amt);
            let head = fields(buf)[0];
            if head == seq![114u8] {
                lemma_head_is(buf, 114u8);
                let s2 = NodeView { server_down: fields(buf)[1], ..s1 };
                assert(going_down(s2) == going_down(s));
                assert(going_down(s).subrange(0, going_down(s).len() as int) =~= going_down(s));
            } else if head == seq![101u8] && s1.left_active && s1.right_active {
                lemma_head_is(buf, 101u8);
                let st = stored_after(s, side, buf, amt);
                if let (Some(v1), Some(v2)) = (stored_value(st.from_left), stored_value(st.from_right)) {
                    if let Ok(p) = receive_spec(s, src, buf, amt) {
                        if fields(st.from_left).len() >= 3 && nominee(st.from_left) == st.my_address {
                            let winner = nominee(st.from_left);
                            let notice = result_notice(winner, fields(st.from_left)[2]);
                            let s2 = NodeView { result: notice, server_down: winner, ..st };
                            assert(going_down(s2) == going_down(s));
                            let g = going_down(s);
                            let t = to_neighbours(s2, notice);
                            assert((g + t).subrange(0, g.len() as int) =~= g);
                        } else {
                            assert(forall|i: int| 0 <= i < p.1.len() ==> (#[trigger] p.1[i]) is Send);
                        }
                    }
                }
            }
        },
    }
}

/// A result that reaches the node a second time (from either neighbour)
/// closes that election: the node then records no server as down and does
/// nothing more.
pub proof fn lemma_repeated_result_closes(
    s: NodeView,
    src1: Seq<u8>,
    src2: Seq<u8>,
    buf: Seq<u8>,
    amt1: int,
    amt2: int,
)
    requires
        well_formed(s),
        buf.len() == RECEIVE_BUFFER_LEN,
        sender_side(s, src1) is Some,
        sender_side(s, src2) is Some,
        s.left_active && s.right_active,
        fields(buf)[0] == seq![114u8],
        fields(buf)[1] != s.server_down,
    ensures
        receive_spec(s, src1, buf, amt1) matches Ok(p) && p.0.server_down == fields(buf)[1]
            && receive_spec(p.0, src2, buf, amt2) == Ok::<(NodeView, Seq<Effect>), ElectionError>(
            (NodeView { server_down: seq![], ..p.0 }, seq![]),
        ),
{
    lemma_head_is(buf, 114u8);
}

/// The first nomination of a round from one neighbour, naming another
/// server with a value above the node's own, is passed on unchanged (same
/// nominee, same value) to the other neighbour, and to no one else.
pub proof fn lemma_first_stronger_nomination_passed_on(
    s: NodeView,
    src: Seq<u8>,
    buf: Seq<u8>,
    amt: int,
    v: i32,
)
    requires
        well_formed(s),
        buf.len() == RECEIVE_BUFFER_LEN,
        s.left_active && s.right_active,
        fields(buf)[0] == seq![101u8],
        (src == s.left && s.from_right.len() == 0) || (src == s.right && src != s.left
            && s.from_left.len() == 0),
        carried_value(until_nul(buf)) == Some(v),
        v > s.value,
        nominee(until_nul(buf)) != s.my_address,
    ensures
        receive_spec(s, src, buf, amt) matches Ok(p) && p.1 == seq![
            Effect::Send(
                if src == s.left {
                    s.right
                } else {
                    s.left
                },
                nomination(nominee(until_nul(buf)), v as int),
            ),
        ],
{
    lemma_head_is(buf, 101u8);
    lemma_nomination_stored(buf);
    let m = until_nul(buf);
    assert(stored_value(m) == Some(v));
    if src == s.left {
        let st = with_stored(s, Side::Left, m);
        assert(after_notice(s, Side::Left, buf, amt) == s);
        assert(stored_value(st.from_right) == Some(-1i32));
        assert(!is_considered(st));
        assert(decide(st, Side::Left, v, -1i32) == Ok::<(NodeView, Seq<Effect>), ElectionError>(
            (st, seq![Effect::Send(s.right, nomination(nominee(m), v as int))]),
        ));
        assert(sender_side(s, src) == Some(Side::Left));
        assert(seq![101u8][0] != seq![114u8][0]);
        assert(fields(buf)[0] != seq![114u8]);
        assert(on_nomination(s, Side::Left, buf) == decide(st, Side::Left, v, -1i32));
        assert(receive_spec(s, src, buf, amt) == on_nomination(s, Side::Left, buf));
    } else {
        let st = with_stored(s, Side::Right, m);
        assert(after_notice(s, Side::Right, buf, amt) == s);
        assert(stored_value(st.from_left) == Some(-1i32));
        assert(!is_considered(st));
        assert(decide(st, Side::Right, -1i32, v) == Ok::<(NodeView, Seq<Effect>), ElectionError>(
            (st, seq![Effect::Send(s.left, nomination(nominee(m), v as int))]),
        ));
        assert(sender_side(s, src) == Some(Side::Right));
        assert(seq![101u8][0] != seq![114u8][0]);
        assert(fields(buf)[0] != seq![114u8]);
        assert(on_nomination(s, Side::Right, buf) == decide(st, Side::Right, -1i32, v));
        assert(receive_spec(s, src, buf, amt) == on_nomination(s, Side::Right, buf));
    }
}

/// A datagram from anyone but a neighbour is a client request: it is answered
/// with exactly one datagram, sent back to that same source, holding the
/// request's data bytes reversed and its port bytes unchanged; the request is
/// counted once and its source is remembered, and no agent is forgotten.
pub proof fn lemma_request_answered_to_its_sender(s: NodeView, src: Seq<u8>, buf: Seq<u8>, amt: int)
    requires
        well_formed(s),
        buf.len() == RECEIVE_BUFFER_LEN,
        src != s.left,
        src != s.right,
        s.requests < u32::MAX,
    ensures
        receive_spec(s, src, buf, amt) matches Ok(p) && {
            &&& p.1 == seq![Effect::Send(src, seq![buf[2], buf[1], buf[0], buf[3], buf[4]])]
            &&& p.0.requests == s.requests + 1
            &&& p.0.agents.contains(src)
            &&& forall|a: Seq<u8>| s.agents.contains(a) ==> p.0.agents.contains(a)
        },
{
    if let Ok(p) = receive_spec(s, src, buf, amt) {
        if !s.agents.contains(src) {
            assert(p.0.agents == s.agents.push(src));
            assert(p.0.agents[s.agents.len() as int] == src);
            assert forall|a: Seq<u8>| s.agents.contains(a) implies p.0.agents.contains(a) by {
                let k = choose|k: int| 0 <= k < s.agents.len() && s.agents[k] == a;
                assert(p.0.agents[k] == a);
            }
        }
    }
}

/// A one-byte `d` from a neighbour marks exactly that neighbour down, and a
/// one-byte `u` marks it up; nothing else changes and nothing is sent.
pub proof fn lemma_notice_sets_sender_status(s: NodeView, src: Seq<u8>, buf: Seq<u8>)
    requires
        well_formed(s),
        buf.len() == RECEIVE_BUFFER_LEN,
        src == s.left || src == s.right,
        buf[0] == 100u8 || buf[0] == 117u8,
    ensures
        receive_spec(s, src, buf, 1) matches Ok(p) && {
            &&& p.1 == Seq::<Effect>::empty()
            &&& src == s.left ==> p.0 == (NodeView { left_active: buf[0] == 117u8, ..s })
            &&& src != s.left ==> p.0 == (NodeView { right_active: buf[0] == 117u8, ..s })
        },
{
    lemma_split_nonempty(buf, 44u8);
    lemma_split_head(buf, 44u8);
    let h = fields(buf)[0];
    if h == seq![114u8] || h == seq![101u8] {
        assert(h[0] == buf[0]);
    }
}

/// A result from a neighbour (both up) naming this node, when no server is
/// recorded as down under that name, takes the node down: `d` to every agent
/// and both neighbours, a sleep, a fresh value, `u` to every agent and both
/// neighbours, and the node records itself as the server that is down.
pub proof fn lemma_result_naming_self_takes_it_down(s: NodeView, src: Seq<u8>, buf: Seq<u8>, amt: int)
    requires
        well_formed(s),
        buf.len() == RECEIVE_BUFFER_LEN,
        src == s.left || src == s.right,
        s.left_active && s.right_active,
        fields(buf)[0] == seq![114u8],
        fields(buf)[1] == s.my_address,
        s.server_down != s.my_address,
    ensures
        receive_spec(s, src, buf, amt) matches Ok(p) && {
            &&& p.0.server_down == s.my_address
            &&& p.1 == sends_to_all(s.agents, seq![100u8]) + seq![
                Effect::Send(s.left, seq![100u8]),
                Effect::Send(s.right, seq![100u8]),
                Effect::Sleep(DOWN_SECONDS),
                Effect::Redraw,
            ] + sends_to_all(s.agents, seq![117u8]) + seq![
                Effect::Send(s.left, seq![117u8]),
                Effect::Send(s.right, seq![117u8]),
            ]
        },
{
    lemma_head_is(buf, 114u8);
    if let Ok(p) = receive_spec(s, src, buf, amt) {
        let d = sends_to_all(s.agents, seq![100u8]);
        let u = sends_to_all(s.agents, seq![117u8]);
        assert(p.1 =~= d + seq![
            Effect::Send(s.left, seq![100u8]),
            Effect::Send(s.right, seq![100u8]),
            Effect::Sleep(DOWN_SECONDS),
            Effect::Redraw,
        ] + u + seq![Effect::Send(s.left, seq![117u8]), Effect::Send(s.right, seq![117u8])]);
    }
}

/// While a neighbour is down the node ignores every datagram from its
/// neighbours except the one-byte `d` and `u` notices.
pub proof fn lemma_ignores_while_neighbour_down(s: NodeView, src: Seq<u8>, buf: Seq<u8>, amt: int)
    requires
        well_formed(s),
        buf.len() == RECEIVE_BUFFER_LEN,
        sender_side(s, src) is Some,
        !(s.left_active && s.right_active),
        !(amt == 1 && (buf[0] == 100u8 || buf[0] == 117u8)),
    ensures
        receive_spec(s, src, buf, amt) == Ok::<(NodeView, Seq<Effect>), ElectionError>((s, seq![])),
{
}

/// Every nomination a node sends in reply to a neighbour goes to the
/// neighbour opposite the sender, except its own candidacy (its address with
/// its own value), which goes to both.
pub proof fn lemma_nominations_move_on(s: NodeView, src: Seq<u8>, buf: Seq<u8>, amt: int)
    requires
        well_formed(s),
        buf.len() == RECEIVE_BUFFER_LEN,
        sender_side(s, src) is Some,
    ensures
        receive_spec(s, src, buf, amt) matches Ok(p) ==> forall|i: int|
            0 <= i < p.1.len() && sends_tagged(#[trigger] p.1[i], 101u8) ==> {
                ||| (p.1[i] matches Effect::Send(to, _) && to == opposite(s, sender_side(s, src)->0))
                ||| (p.1[i] matches Effect::Send(_, m) && m == nomination(s.my_address, s.value as int))
            },
{
    let side = sender_side(s, src)->0;
    let s1 = after_notice(s, side, buf, amt);
    let head = fields(buf)[0];
    lemma_split_nonempty(buf, 44u8);
    if head == seq![114u8] {
        lemma_head_is(buf, 114u8);
        let s2 = NodeView { server_down: fields(buf)[1], ..s1 };
        lemma_going_down_shape(s2);
    } else if head == seq![101u8] && s1.left_active && s1.right_active {
        lemma_head_is(buf, 101u8);
        lemma_nomination_stored(buf);
        let st = stored_after(s, side, buf, amt);
        if fields(st.from_left).len() >= 3 {
            let winner = nominee(st.from_left);
            let notice = result_notice(winner, fields(st.from_left)[2]);
            lemma_result_tag(winner, fields(st.from_left)[2]);
            let s2 = NodeView { result: notice, server_down: winner, ..st };
            lemma_going_down_shape(s2);
            let g = going_down(s2);
            let t = to_neighbours(s2, notice);
            assert forall|i: int| 0 <= i < (g + t).len() implies !sends_tagged(#[trigger] (g + t)[i], 101u8) by {
                if i < g.len() {
                    assert((g + t)[i] == g[i]);
                } else {
                    assert((g + t)[i] == t[i - g.len()]);
                }
            }
        }
    }
}

/// A node that no stored nomination names yet passes on only nominations
/// whose value is at least its own: the strongest candidate it knows of.
pub proof fn lemma_passes_on_stronger(s: NodeView, src: Seq<u8>, buf: Seq<u8>, amt: int)
    requires
        well_formed(s),
        buf.len() == RECEIVE_BUFFER_LEN,
        sender_side(s, src) is Some,
        !is_considered(stored_after(s, sender_side(s, src)->0, buf, amt)),
    ensures
        receive_spec(s, src, buf, amt) matches Ok(p) ==> forall|i: int|
            0 <= i < p.1.len() && sends_tagged(#[trigger] p.1[i], 101u8) ==> (p.1[i] matches Effect::Send(
                _,
                m,
            ) && carried_value(m) matches Some(v) && v >= s.value),
{
    let side = sender_side(s, src)->0;
    let s1 = after_notice(s, side, buf, amt);
    let head = fields(buf)[0];
    lemma_split_nonempty(buf, 44u8);
    if head == seq![114u8] {
        lemma_head_is(buf, 114u8);
        let s2 = NodeView { server_down: fields(buf)[1], ..s1 };
        lemma_going_down_shape(s2);
    } else if head == seq![101u8] && s1.left_active && s1.right_active {
        lemma_head_is(buf, 101u8);
        lemma_nomination_stored(buf);
        let st = stored_after(s, side, buf, amt);
        assert(st.value == s.value);
        if let (Some(v1), Some(v2)) = (stored_value(st.from_left), stored_value(st.from_right)) {
            lemma_nomination_value(nominee(st.from_left), v1);
            lemma_nomination_value(nominee(st.from_right), v2);
            lemma_nomination_value(st.my_address, st.value);
            if fields(st.from_left).len() >= 3 {
                let winner = nominee(st.from_left);
                let notice = result_notice(winner, fields(st.from_left)[2]);
                lemma_result_tag(winner, fields(st.from_left)[2]);
                let s2 = NodeView { result: notice, server_down: winner, ..st };
                lemma_going_down_shape(s2);
                let g = going_down(s2);
                let t = to_neighbours(s2, notice);
                assert forall|i: int| 0 <= i < (g + t).len() implies !sends_tagged(#[trigger] (g + t)[i], 101u8) by {
                    if i < g.len() {
                        assert((g + t)[i] == g[i]);
                    } else {
                        assert((g + t)[i] == t[i - g.len()]);
                    }
                }
            }
        }
    }
}

} // verus!
