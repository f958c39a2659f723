//! The ring election run with CPU utilisation as each server's value.
//!
//! This variant samples the server's utilisation whenever a nomination
//! arrives and campaigns with it; it keeps no status of its neighbours, and
//! the elected server tells only the agents that it goes down and comes back.
//! A node starts a round only when it holds no nomination.
use vstd::prelude::*;
use crate::action::{effects, push_send, push_sends, push_sleep, sends_to_all, Action, Effect};
use crate::bytes::{bytes_equal, contains_bytes, copy_bytes, lemma_split_head, lemma_split_nonempty, split_bytes, views};
use crate::election::{no_duplicates, ElectionError, Side, RECEIVE_BUFFER_LEN};
use crate::frame::{answer_frame, answer_request};
use crate::message::{
    carried_value, field_at, fields, lemma_head_is, lemma_nomination_value, lemma_nomination_stored, lemma_nomination_tag,
    lemma_result_tag, nomination, nomination_bytes, nominee, result_bytes, result_notice,
    stored_ok, stored_value, stored_value_of, until_nul, until_nul_bytes,
};

verus! {

/// How long the elected server stays down.
pub const UTIL_DOWN_SECONDS: u64 = 3;

/// The state of a node, as contracts speak of it.
#[verifier::ext_equal]
pub struct UtilNodeView {
    pub my_address: Seq<u8>,
    pub left: Seq<u8>,
    pub right: Seq<u8>,
    pub from_left: Seq<u8>,
    pub from_right: Seq<u8>,
    pub result: Seq<u8>,
    pub server_down: Seq<u8>,
    pub agents: Seq<Seq<u8>>,
}

/// What every reachable node state satisfies.
pub open spec fn util_well_formed(s: UtilNodeView) -> bool {
    &&& stored_ok(s.from_left)
    &&& stored_ok(s.from_right)
    &&& no_duplicates(s.agents)
}

pub open spec fn util_sender_side(s: UtilNodeView, src: Seq<u8>) -> Option<Side> {
    if src == s.left {
        Some(Side::Left)
    } else if src == s.right {
        Some(Side::Right)
    } else {
        None
    }
}

pub open spec fn util_to_neighbours(s: UtilNodeView, payload: Seq<u8>) -> Seq<Effect> {
    seq![Effect::Send(s.left, payload), Effect::Send(s.right, payload)]
}

/// Going down: `d` to every agent, sleep, `u` to every agent.
pub open spec fn util_going_down(s: UtilNodeView) -> Seq<Effect> {
    sends_to_all(s.agents, seq![100u8]) + seq![Effect::Sleep(UTIL_DOWN_SECONDS)] + sends_to_all(
        s.agents,
        seq![117u8],
    )
}

/// A result from a neighbour: if it names the server already recorded as
/// down, that election is over; otherwise the named server is recorded as
/// down (going down if it is this node) and the nominations and result are
/// cleared.
pub open spec fn util_on_result(s: UtilNodeView, buf: Seq<u8>) -> Result<(UtilNodeView, Seq<Effect>), ElectionError> {
    if fields(buf).len() < 2 {
        Err(ElectionError::MissingField)
    } else {
        let named = fields(buf)[1];
        if named == s.server_down {
            Ok((UtilNodeView { server_down: seq![], ..s }, seq![]))
        } else {
            let s2 = UtilNodeView { server_down: named, ..s };
            let eff = if named == s.my_address {
                util_going_down(s2)
            } else {
                seq![]
            };
            Ok((UtilNodeView { from_left: seq![], from_right: seq![], result: seq![], ..s2 }, eff))
        }
    }
}

pub open spec fn util_with_stored(s: UtilNodeView, side: Side, msg: Seq<u8>) -> UtilNodeView {
    match side {
        Side::Left => UtilNodeView { from_left: msg, ..s },
        Side::Right => UtilNodeView { from_right: msg, ..s },
    }
}

/// The comparison after a nomination is stored: with one side heard from,
/// pass on that side's value (under the neighbour's own address, to the
/// other neighbour) if it beats `util`, else nominate this node; with two
/// different nominations, do the same with the larger of their values.
pub open spec fn util_compare(s: UtilNodeView, util: i32, v1: i32, v2: i32) -> Seq<Effect> {
    let e0 = s.from_left;
    let e1 = s.from_right;
    let mine = util_to_neighbours(s, nomination(s.my_address, util as int));
    let from_right = seq![Effect::Send(s.left, nomination(s.right, v2 as int))];
    let from_left = seq![Effect::Send(s.right, nomination(s.left, v1 as int))];
    if e0.len() == 0 && e1.len() == 0 {
        mine
    } else if e0.len() == 0 {
        if v2 > util {
            from_right
        } else {
            mine
        }
    } else if e1.len() == 0 {
        if v1 > util {
            from_left
        } else {
            mine
        }
    } else if e0 != e1 {
        if v1 > v2 {
            if v1 > util {
                from_left
            } else {
                mine
            }
        } else if v2 > util {
            from_right
        } else {
            mine
        }
    } else {
        seq![]
    }
}

/// Two identical nominations: record and announce their nominee as elected
/// (going down first if it is this node).
pub open spec fn util_conclude(s: UtilNodeView) -> Result<(UtilNodeView, Seq<Effect>), ElectionError> {
    if s.from_left == s.from_right && s.from_left.len() > 0 {
        if fields(s.from_left).len() < 3 {
            Err(ElectionError::MissingField)
        } else {
            let winner = nominee(s.from_left);
            let notice = result_notice(winner, fields(s.from_left)[2]);
            let s2 = UtilNodeView { result: notice, server_down: winner, ..s };
            let down = if winner == s.my_address {
                util_going_down(s2)
            } else {
                seq![]
            };
            Ok((s2, down + util_to_neighbours(s2, notice)))
        }
    } else {
        Ok((s, seq![]))
    }
}

/// A nomination from a neighbour, with the node's current utilisation `util`.
pub open spec fn util_on_nomination(s: UtilNodeView, side: Side, buf: Seq<u8>, util: i32) -> Result<
    (UtilNodeView, Seq<Effect>),
    ElectionError,
> {
    let s1 = util_with_stored(s, side, until_nul(buf));
    match (stored_value(s1.from_left), stored_value(s1.from_right)) {
        (Some(v1), Some(v2)) => match util_conclude(s1) {
            Ok(p) => Ok((p.0, util_compare(s1, util, v1, v2) + p.1)),
            Err(e) => Err(e),
        },
        _ => Err(ElectionError::BadValue),
    }
}

/// A request from an agent: remember the agent and answer it.
pub open spec fn util_on_agent(s: UtilNodeView, src: Seq<u8>, buf: Seq<u8>) -> (UtilNodeView, Seq<Effect>) {
    let agents = if s.agents.contains(src) {
        s.agents
    } else {
        s.agents.push(src)
    };
    (UtilNodeView { agents: agents, ..s }, seq![Effect::Send(src, answer_frame(buf))])
}

/// The node's reaction to the receive buffer `buf` from `src`, with `util`
/// its utilisation when the datagram is a nomination.
pub open spec fn util_receive_spec(s: UtilNodeView, src: Seq<u8>, buf: Seq<u8>, util: i32) -> Result<
    (UtilNodeView, Seq<Effect>),
    ElectionError,
> {
    match util_sender_side(s, src) {
        None => Ok(util_on_agent(s, src, buf)),
        Some(side) => {
            let head = fields(buf)[0];
            if head == seq![114u8] {
                util_on_result(s, buf)
            } else if head == seq![101u8] {
                util_on_nomination(s, side, buf, util)
            } else {
                Ok((s, seq![]))
            }
        },
    }
}

/// `r` is what `o` prescribes: on `Ok`, the state `after` and the effects of
/// the actions; on an error, the same error and the state left as `before`.
pub open spec fn util_outcome_matches(
    o: Result<(UtilNodeView, Seq<Effect>), ElectionError>,
    before: UtilNodeView,
    after: UtilNodeView,
    r: Result<Vec<Action>, ElectionError>,
) -> bool {
    match r {
        Ok(actions) => o matches Ok(p) && p.0 == after && p.1 == effects(actions@),
        Err(e) => o matches Err(e2) && e2 == e && after == before,
    }
}

/// A server taking part in the utilisation election.
pub struct UtilElectionNode {
    my_address: Vec<u8>,
    left: Vec<u8>,
    right: Vec<u8>,
    from_left: Vec<u8>,
    from_right: Vec<u8>,
    result: Vec<u8>,
    server_down: Vec<u8>,
    agents: Vec<Vec<u8>>,
}

impl View for UtilElectionNode {
    type V = UtilNodeView;

    closed spec fn view(&self) -> UtilNodeView {
        UtilNodeView {
            my_address: self.my_address@,
            left: self.left@,
            right: self.right@,
            from_left: self.from_left@,
            from_right: self.from_right@,
            result: self.result@,
            server_down: self.server_down@,
            agents: views(self.agents@),
        }
    }
}

impl UtilElectionNode {
    /// A node at `my_address` between `left` and `right` that has heard
    /// nothing yet.
    pub fn new(my_address: &[u8], left: &[u8], right: &[u8]) -> (node: Self)
        ensures
            util_well_formed(node@),
            node@ == (UtilNodeView {
                my_address: my_address@,
                left: left@,
                right: right@,
                from_left: seq![],
                from_right: seq![],
                result: seq![],
                server_down: seq![],
                agents: seq![],
            }),
    {
        let node = UtilElectionNode {
            my_address: copy_bytes(my_address),
            left: copy_bytes(left),
            right: copy_bytes(right),
            from_left: Vec::new(),
            from_right: Vec::new(),
            result: Vec::new(),
            server_down: Vec::new(),
            agents: Vec::new(),
        };
        assert(views(node.agents@) =~= Seq::<Seq<u8>>::empty());
        node
    }

    /// The address of the server last recorded as elected (empty if none).
    pub fn server_down(&self) -> (a: Vec<u8>)
        ensures
            a@ == self@.server_down,
    {
        copy_bytes(self.server_down.as_slice())
    }

    /// The nominations last stored from the left and the right neighbour.
    pub fn nominations(&self) -> (n: (Vec<u8>, Vec<u8>))
        ensures
            n.0@ == self@.from_left,
            n.1@ == self@.from_right,
    {
        (copy_bytes(self.from_left.as_slice()), copy_bytes(self.from_right.as_slice()))
    }

    fn push_to_neighbours(&self, actions: &mut Vec<Action>, payload: &[u8])
        ensures
            effects(final(actions)@) == effects(old(actions)@) + util_to_neighbours(self@, payload@),
    {
        push_send(actions, self.left.as_slice(), payload);
        push_send(actions, self.right.as_slice(), payload);
        assert(effects(final(actions)@) =~= effects(old(actions)@) + util_to_neighbours(self@, payload@));
    }

    fn push_going_down(&self, actions: &mut Vec<Action>)
        ensures
            effects(final(actions)@) == effects(old(actions)@) + util_going_down(self@),
    {
        let down: [u8; 1] = [100u8];
        let up: [u8; 1] = [117u8];
        assert(down@ =~= seq![100u8]);
        assert(up@ =~= seq![117u8]);
        push_sends(actions, &self.agents, &down);
        push_sleep(actions, UTIL_DOWN_SECONDS);
        push_sends(actions, &self.agents, &up);
        assert(effects(final(actions)@) =~= effects(old(actions)@) + util_going_down(self@));
    }

    fn side_of(&self, src: &[u8]) -> (side: Option<Side>)
        ensures
            side == util_sender_side(self@, src@),
    {
        if bytes_equal(src, self.left.as_slice()) {
            Some(Side::Left)
        } else if bytes_equal(src, self.right.as_slice()) {
            Some(Side::Right)
        } else {
            None
        }
    }

    /// Whether a datagram from `src` in `buf` is a nomination, for which the
    /// runtime samples the utilisation to hand to `receive`.
    pub fn is_nomination(&self, src: &[u8], buf: &[u8]) -> (yes: bool)
        ensures
            yes == (util_sender_side(self@, src@) is Some && fields(buf@)[0] == seq![101u8]),
    {
        proof {
            lemma_split_nonempty(buf@, 44u8);
        }
        if self.side_of(src).is_none() {
            return false;
        }
        let head = match field_at(buf, 0) {
            Some(f) => f,
            None => Vec::new(),
        };
        let e_tag: [u8; 1] = [101u8];
        assert(e_tag@ =~= seq![101u8]);
        bytes_equal(head.as_slice(), &e_tag)
    }

    /// The periodic start of a round: with no nomination held, nominate this
    /// node with utilisation `util` to both neighbours.
    pub fn start_round(&self, util: i32) -> (actions: Vec<Action>)
        ensures
            self@.from_left.len() == 0 && self@.from_right.len() == 0 ==> effects(actions@)
                == util_to_neighbours(self@, nomination(self@.my_address, util as int)),
            !(self@.from_left.len() == 0 && self@.from_right.len() == 0) ==> actions@.len() == 0,
    {
        let mut actions: Vec<Action> = Vec::new();
        if self.from_left.len() == 0 && self.from_right.len() == 0 {
            let m = nomination_bytes(self.my_address.as_slice(), util);
            self.push_to_neighbours(&mut actions, m.as_slice());
            assert(effects(actions@) =~= util_to_neighbours(self@, m@));
        }
        actions
    }

    fn on_result(&mut self, buf: &[u8]) -> (r: Result<Vec<Action>, ElectionError>)
        requires
            util_well_formed(old(self)@),
        ensures
            util_well_formed(final(self)@),
            util_outcome_matches(util_on_result(old(self)@, buf@), old(self)@, final(self)@, r),
    {
        let mut actions: Vec<Action> = Vec::new();
        let named = match field_at(buf, 1) {
            Some(f) => f,
            None => {
                return Err(ElectionError::MissingField);
            },
        };
        if bytes_equal(named.as_slice(), self.server_down.as_slice()) {
            self.server_down = Vec::new();
            assert(effects(actions@) =~= Seq::<Effect>::empty());
            assert(self@ =~= UtilNodeView { server_down: seq![], ..old(self)@ });
            return Ok(actions);
        }
        let goes_down = bytes_equal(named.as_slice(), self.my_address.as_slice());
        self.server_down = named;
        let ghost s2 = self@;
        assert(s2 =~= UtilNodeView { server_down: fields(buf@)[1], ..old(self)@ });
        if goes_down {
            self.push_going_down(&mut actions);
        }
        self.from_left = Vec::new();
        self.from_right = Vec::new();
        self.result = Vec::new();
        assert(self@ =~= UtilNodeView { from_left: seq![], from_right: seq![], result: seq![], ..s2 });
        assert(effects(actions@) =~= (if fields(buf@)[1] == old(self)@.my_address {
            util_going_down(s2)
        } else {
            seq![]
        }));
        Ok(actions)
    }

    fn compare(&self, actions: &mut Vec<Action>, util: i32, v1: i32, v2: i32)
        ensures
            effects(final(actions)@) == effects(old(actions)@) + util_compare(self@, util, v1, v2),
    {
        let has0 = self.from_left.len() > 0;
        let has1 = self.from_right.len() > 0;
        // 0: pass on the left value, 1: pass on the right value,
        // 2: nominate this node, 3: nothing.
        let choice: u8 = if !has0 && !has1 {
            2
        } else if !has0 {
            if v2 > util {
                1
            } else {
                2
            }
        } else if !has1 {
            if v1 > util {
                0
            } else {
                2
            }
        } else if !bytes_equal(self.from_left.as_slice(), self.from_right.as_slice()) {
            if v1 > v2 {
                if v1 > util {
                    0
                } else {
                    2
                }
            } else if v2 > util {
                1
            } else {
                2
            }
        } else {
            3
        };
        let ghost before = effects(actions@);
        if choice == 0 {
            let m = nomination_bytes(self.left.as_slice(), v1);
            push_send(actions, self.right.as_slice(), m.as_slice());
        } else if choice == 1 {
            let m = nomination_bytes(self.right.as_slice(), v2);
            push_send(actions, self.left.as_slice(), m.as_slice());
        } else if choice == 2 {
            let m = nomination_bytes(self.my_address.as_slice(), util);
            self.push_to_neighbours(actions, m.as_slice());
        }
        proof {
            let s = self@;
            if choice == 0 {
                assert(effects(actions@) =~= before + seq![Effect::Send(s.right, nomination(s.left, v1 as int))]);
            } else if choice == 1 {
                assert(effects(actions@) =~= before + seq![Effect::Send(s.left, nomination(s.right, v2 as int))]);
            } else if choice == 2 {
                assert(effects(actions@) =~= before + util_to_neighbours(s, nomination(s.my_address, util as int)));
            } else {
                assert(effects(actions@) =~= before + Seq::<Effect>::empty());
            }
        }
    }

    fn conclude(&mut self, actions: &mut Vec<Action>) -> (r: Result<(), ElectionError>)
        requires
            util_well_formed(old(self)@),
        ensures
            util_well_formed(final(self)@),
            match r {
                Ok(_) => util_conclude(old(self)@) matches Ok(p) && p.0 == final(self)@ && effects(final(actions)@) == effects(old(actions)@) + p.1,
                Err(e) => util_conclude(old(self)@) matches Err(e2) && e2 == e && final(self)@ == old(self)@,
            },
    {
        let same = self.from_left.len() > 0 && bytes_equal(self.from_left.as_slice(), self.from_right.as_slice());
        if !same {
            assert(effects(actions@) =~= effects(old(actions)@) + Seq::<Effect>::empty());
            return Ok(());
        }
        let pieces = split_bytes(self.from_left.as_slice(), 44u8);
        if pieces.len() < 3 {
            return Err(ElectionError::MissingField);
        }
        assert(views(pieces@)[1] == pieces@[1]@);
        assert(views(pieces@)[2] == pieces@[2]@);
        let winner = copy_bytes(pieces[1].as_slice());
        let notice = result_bytes(winner.as_slice(), pieces[2].as_slice());
        let goes_down = bytes_equal(winner.as_slice(), self.my_address.as_slice());
        self.result = copy_bytes(notice.as_slice());
        self.server_down = winner;
        let ghost s = old(self)@;
        assert(self@ =~= UtilNodeView {
            result: result_notice(nominee(s.from_left), fields(s.from_left)[2]),
            server_down: nominee(s.from_left),
            ..s
        });
        let ghost mid = effects(actions@);
        if goes_down {
            self.push_going_down(actions);
        }
        self.push_to_neighbours(actions, notice.as_slice());
        proof {
            let s2 = self@;
            if goes_down {
                assert(effects(actions@) =~= effects(old(actions)@) + (util_going_down(s2) + util_to_neighbours(s2, notice@)));
            } else {
                assert(effects(actions@) =~= effects(old(actions)@) + (Seq::<Effect>::empty() + util_to_neighbours(s2, notice@)));
            }
        }
        Ok(())
    }

    fn on_nomination(&mut self, side: Side, buf: &[u8], util: i32) -> (r: Result<Vec<Action>, ElectionError>)
        requires
            util_well_formed(old(self)@),
            buf@.len() >= 2,
            buf@[0] == 101u8,
            buf@[1] == 44u8,
        ensures
            util_well_formed(final(self)@),
            util_outcome_matches(util_on_nomination(old(self)@, side, buf@, util), old(self)@, final(self)@, r),
    {
        let msg = until_nul_bytes(buf);
        proof {
            lemma_nomination_stored(buf@);
        }
        let ghost s1 = util_with_stored(self@, side, msg@);
        let saved = match side {
            Side::Left => copy_bytes(self.from_left.as_slice()),
            Side::Right => copy_bytes(self.from_right.as_slice()),
        };
        match side {
            Side::Left => {
                self.from_left = msg;
            },
            Side::Right => {
                self.from_right = msg;
            },
        }
        assert(self@ =~= s1);
        let v1 = stored_value_of(self.from_left.as_slice());
        let v2 = stored_value_of(self.from_right.as_slice());
        match (v1, v2) {
            (Some(a), Some(b)) => {
                let mut actions: Vec<Action> = Vec::new();
                self.compare(&mut actions, util, a, b);
                assert(effects(actions@) =~= util_compare(s1, util, a, b));
                match self.conclude(&mut actions) {
                    Ok(_) => Ok(actions),
                    Err(e) => {
                        match side {
                            Side::Left => {
                                self.from_left = saved;
                            },
                            Side::Right => {
                                self.from_right = saved;
                            },
                        }
                        assert(self@ =~= old(self)@);
                        Err(e)
                    },
                }
            },
            _ => {
                match side {
                    Side::Left => {
                        self.from_left = saved;
                    },
                    Side::Right => {
                        self.from_right = saved;
                    },
                }
                assert(self@ =~= old(self)@);
                Err(ElectionError::BadValue)
            },
        }
    }

    fn on_agent(&mut self, src: &[u8], buf: &[u8]) -> (actions: Vec<Action>)
        requires
            util_well_formed(old(self)@),
            buf@.len() >= 5,
        ensures
            util_well_formed(final(self)@),
            (final(self)@, effects(actions@)) == util_on_agent(old(self)@, src@, buf@),
    {
        let known = contains_bytes(&self.agents, src);
        let ghost agents_before = views(self.agents@);
        if !known {
            self.agents.push(copy_bytes(src));
            assert(views(self.agents@) =~= agents_before.push(src@));
            assert(no_duplicates(views(self.agents@))) by {
                assert forall|i: int, j: int|
                    0 <= i < j < views(self.agents@).len() implies views(self.agents@)[i] != views(
                    self.agents@,
                )[j] by {
                    assert(views(self.agents@)[i] == agents_before[i]);
                    if j < agents_before.len() {
                        assert(views(self.agents@)[j] == agents_before[j]);
                    }
                }
            }
        }
        let answer = answer_request(buf);
        let mut actions: Vec<Action> = Vec::new();
        push_send(&mut actions, src, &answer);
        let ghost s = old(self)@;
        let ghost agents = if s.agents.contains(src@) {
            s.agents
        } else {
            s.agents.push(src@)
        };
        assert(self@ =~= UtilNodeView { agents: agents, ..s });
        assert(effects(actions@) =~= seq![Effect::Send(src@, answer_frame(buf@))]);
        actions
    }

    /// Handles the receive buffer `buf` from `src`; `util` is the node's
    /// utilisation, read when the datagram is a nomination. On an error the
    /// node is left as it was.
    pub fn receive(&mut self, src: &[u8], buf: &[u8], util: i32) -> (r: Result<Vec<Action>, ElectionError>)
        requires
            util_well_formed(old(self)@),
            buf@.len() == RECEIVE_BUFFER_LEN,
        ensures
            util_well_formed(final(self)@),
            util_outcome_matches(util_receive_spec(old(self)@, src@, buf@, util), old(self)@, final(self)@, r),
    {
        match self.side_of(src) {
            None => Ok(self.on_agent(src, buf)),
            Some(side) => {
                let head = match field_at(buf, 0) {
                    Some(f) => f,
                    None => Vec::new(),
                };
                proof {
                    lemma_split_nonempty(buf@, 44u8);
                }
                let r_tag: [u8; 1] = [114u8];
                let e_tag: [u8; 1] = [101u8];
                assert(r_tag@ =~= seq![114u8]);
                assert(e_tag@ =~= seq![101u8]);
                if bytes_equal(head.as_slice(), &r_tag) {
                    self.on_result(buf)
                } else if bytes_equal(head.as_slice(), &e_tag) {
                    proof {
                        lemma_head_is(buf@, 101u8);
                    }
                    self.on_nomination(side, buf, util)
                } else {
                    let actions: Vec<Action> = Vec::new();
                    assert(effects(actions@) =~= Seq::<Effect>::empty());
                    Ok(actions)
                }
            },
        }
    }
}

/// A `Send` whose payload starts with `c`.
pub open spec fn util_sends_tagged(e: Effect, c: u8) -> bool {
    (e matches Effect::Send(_, p) && p.len() > 0 && p[0] == c)
}

proof fn lemma_util_going_down_shape(s: UtilNodeView)
    ensures
        forall|i: int| 0 <= i < util_going_down(s).len() ==> {
            ||| ((#[trigger] util_going_down(s)[i]) matches Effect::Send(_, p) && (p == seq![100u8] || p == seq![117u8]))
            ||| util_going_down(s)[i] == Effect::Sleep(UTIL_DOWN_SECONDS)
        },
{
    let d = sends_to_all(s.agents, seq![100u8]);
    let u = sends_to_all(s.agents, seq![117u8]);
    assert forall|i: int| 0 <= i < util_going_down(s).len() implies {
        ||| ((#[trigger] util_going_down(s)[i]) matches Effect::Send(_, p) && (p == seq![100u8] || p == seq![117u8]))
        ||| util_going_down(s)[i] == Effect::Sleep(UTIL_DOWN_SECONDS)
    } by {
        if i < d.len() {
            assert(util_going_down(s)[i] == d[i]);
        } else if i > d.len() {
            assert(util_going_down(s)[i] == u[i - d.len() - 1]);
        }
    }
}

/// A node announces a result only when it holds the same nomination from both
/// neighbours; the result names that nomination's server, which the node
/// records as the one going down, and only that server sleeps.
pub proof fn lemma_util_result_needs_agreement(s: UtilNodeView, src: Seq<u8>, buf: Seq<u8>, util: i32)
    requires
        util_well_formed(s),
        buf.len() == RECEIVE_BUFFER_LEN,
        util_sender_side(s, src) is Some,
    ensures
        util_receive_spec(s, src, buf, util) matches Ok(p) ==> forall|i: int|
            0 <= i < p.1.len() && util_sends_tagged(#[trigger] p.1[i], 114u8) ==> {
                let st = util_with_stored(s, util_sender_side(s, src)->0, until_nul(buf));
                &&& st.from_left.len() > 0
                &&& st.from_left == st.from_right
                &&& p.0.server_down == nominee(st.from_left)
                &&& (p.1[i] matches Effect::Send(_, m) && m == result_notice(
                    nominee(st.from_left),
                    fields(st.from_left)[2],
                ))
            },
        util_receive_spec(s, src, buf, util) matches Ok(p) ==> ((exists|i: int|
            0 <= i < p.1.len() && (#[trigger] p.1[i]) is Sleep) ==> p.0.server_down == s.my_address),
{
    let side = util_sender_side(s, src)->0;
    let head = fields(buf)[0];
    lemma_split_nonempty(buf, 44u8);
    if head == seq![114u8] {
        lemma_head_is(buf, 114u8);
        let s2 = UtilNodeView { server_down: fields(buf)[1], ..s };
        lemma_util_going_down_shape(s2);
    } else if head == seq![101u8] {
        lemma_head_is(buf, 101u8);
        lemma_nomination_stored(buf);
        let st = util_with_stored(s, side, until_nul(buf));
        if let (Some(v1), Some(v2)) = (stored_value(st.from_left), stored_value(st.from_right)) {
            let c = util_compare(st, util, v1, v2);
            lemma_nomination_tag(st.left, v1 as int);
            lemma_nomination_tag(st.right, v2 as int);
            lemma_nomination_tag(st.my_address, util as int);
            assert forall|i: int| 0 <= i < c.len() implies ((#[trigger] c[i]) is Send && !util_sends_tagged(c[i], 114u8)) by {}
            if st.from_left == st.from_right && st.from_left.len() > 0 && fields(st.from_left).len() >= 3 {
                let winner = nominee(st.from_left);
                let notice = result_notice(winner, fields(st.from_left)[2]);
                lemma_result_tag(winner, fields(st.from_left)[2]);
                let s2 = UtilNodeView { result: notice, server_down: winner, ..st };
                lemma_util_going_down_shape(s2);
                let g = if winner == st.my_address { util_going_down(s2) } else { seq![] };
                let t = util_to_neighbours(s2, notice);
                let all = c + (g + t);
                assert forall|i: int| 0 <= i < all.len() && util_sends_tagged(#[trigger] all[i], 114u8) implies all[i] == t[i - c.len() - g.len()] by {
                    if i < c.len() {
                        assert(all[i] == c[i]);
                    } else if i < c.len() + g.len() {
                        assert(all[i] == g[i - c.len()]);
                    }
                }
                assert forall|i: int| 0 <= i < all.len() && (#[trigger] all[i]) is Sleep implies winner == st.my_address by {
                    if i < c.len() {
                        assert(all[i] == c[i]);
                    } else if i < c.len() + g.len() {
                        assert(all[i] == g[i - c.len()]);
                    } else {
                        assert(all[i] == t[i - c.len() - g.len()]);
                    }
                }
            } else {
                assert(c + Seq::<Effect>::empty() =~= c);
            }
        }
    }
}

/// Whether the stored nomination `e` is present and carries the value `v`.
pub open spec fn util_held(e: Seq<u8>, v: i32) -> bool {
    e.len() > 0 && carried_value(e) == Some(v)
}

/// Whether one of the nominations `st` holds carries the value `v`.
pub open spec fn util_holds_value(st: UtilNodeView, v: i32) -> bool {
    util_held(st.from_left, v) || util_held(st.from_right, v)
}

/// Whether `e` sends the payload `m`.
pub open spec fn util_sends_payload(e: Effect, m: Seq<u8>) -> bool {
    (e matches Effect::Send(_, x) && x == m)
}

/// When a nomination arrives and the node then holds two different
/// nominations, or one only, the strongest value it holds decides: if it
/// beats the node's utilisation, exactly one nomination goes out, carrying
/// that value; the node nominates itself (with its utilisation) only when
/// its utilisation is at least every value it holds.
pub proof fn lemma_util_strongest_value_decides(s: UtilNodeView, src: Seq<u8>, buf: Seq<u8>, util: i32)
    requires
        util_well_formed(s),
        buf.len() == RECEIVE_BUFFER_LEN,
        src == s.left || src == s.right,
        fields(buf)[0] == seq![101u8],
    ensures
        ({
            let st = util_with_stored(s, util_sender_side(s, src)->0, until_nul(buf));
            util_receive_spec(s, src, buf, util) matches Ok(p) ==> (st.from_left != st.from_right ==> {
                &&& forall|v: i32|
                    #![trigger util_holds_value(st, v)]
                    util_holds_value(st, v) && v > util && (forall|w: i32| util_holds_value(st, w) ==> w <= v)
                        ==> (p.1.len() == 1 && (p.1[0] matches Effect::Send(_, m) && carried_value(m) == Some(v)))
                &&& forall|i: int|
                    0 <= i < p.1.len() && util_sends_payload(#[trigger] p.1[i], nomination(st.my_address, util as int))
                        ==> forall|w: i32| util_holds_value(st, w) ==> w <= util
            })
        }),
{
    lemma_head_is(buf, 101u8);
    lemma_nomination_stored(buf);
    let side = util_sender_side(s, src)->0;
    let st = util_with_stored(s, side, until_nul(buf));
    if let (Some(v1), Some(v2)) = (stored_value(st.from_left), stored_value(st.from_right)) {
        lemma_nomination_value(st.left, v1);
        lemma_nomination_value(st.right, v2);
        lemma_nomination_value(st.my_address, util);
        assert(st.from_left.len() > 0 ==> carried_value(st.from_left) == Some(v1));
        assert(st.from_right.len() > 0 ==> carried_value(st.from_right) == Some(v2));
        if st.from_left != st.from_right {
            assert(util_conclude(st) == Ok::<(UtilNodeView, Seq<Effect>), ElectionError>((st, seq![])));
            let c = util_compare(st, util, v1, v2);
            assert(c + Seq::<Effect>::empty() =~= c);
            assert(seq![101u8][0] != seq![114u8][0]);
            assert(util_receive_spec(s, src, buf, util) == Ok::<(UtilNodeView, Seq<Effect>), ElectionError>((st, c)));
            assert forall|w: i32| util_holds_value(st, w) implies (st.from_left.len() > 0 && w == v1) || (st.from_right.len() > 0 && w == v2) by {}
            let mine = nomination(st.my_address, util as int);
            if st.from_left.len() == 0 {
                assert(util_holds_value(st, v2));
            } else if st.from_right.len() == 0 {
                assert(util_holds_value(st, v1));
            } else {
                assert(util_holds_value(st, v1));
                assert(util_holds_value(st, v2));
            }
            assert forall|i: int| 0 <= i < c.len() && util_sends_payload(#[trigger] c[i], mine) implies forall|w: i32| util_holds_value(st, w) ==> w <= util by {
                if c[i] == Effect::Send(st.right, nomination(st.left, v1 as int)) {
                    assert(carried_value(mine) == Some(v1));
                } else if c[i] == Effect::Send(st.left, nomination(st.right, v2 as int)) {
                    assert(carried_value(mine) == Some(v2));
                }
            }
        }
    }
}

/// A result from a neighbour naming this node, when no server is recorded as
/// down under that name, takes the node down: `d` to every agent, a sleep,
/// `u` to every agent; the node records itself as the server that is down.
pub proof fn lemma_util_result_naming_self_takes_it_down(s: UtilNodeView, src: Seq<u8>, buf: Seq<u8>, util: i32)
    requires
        util_well_formed(s),
        buf.len() == RECEIVE_BUFFER_LEN,
        src == s.left || src == s.right,
        fields(buf)[0] == seq![114u8],
        fields(buf)[1] == s.my_address,
        s.server_down != s.my_address,
    ensures
        util_receive_spec(s, src, buf, util) matches Ok(p) && {
            &&& p.0.server_down == s.my_address
            &&& p.1 == sends_to_all(s.agents, seq![100u8]) + seq![Effect::Sleep(UTIL_DOWN_SECONDS)]
                + sends_to_all(s.agents, seq![117u8])
        },
{
    lemma_head_is(buf, 114u8);
}

} // verus!
