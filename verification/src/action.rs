//! What a server asks its runtime to do after each decision.
use vstd::prelude::*;

verus! {

/// The effect of an [`Action`], as contracts speak of it.
pub enum Effect {
    /// Send `payload` in one datagram to the address `to`.
    Send(Seq<u8>, Seq<u8>),
    /// Stop answering for this many seconds.
    Sleep(u64),
    /// Draw a fresh election value (see `redraw` on the nodes).
    Redraw,
}

/// One step of work for the runtime, carried out in order.
#[derive(Clone, PartialEq, Eq, Debug)]
pub enum Action {
    Send { to: Vec<u8>, payload: Vec<u8> },
    Sleep { seconds: u64 },
    Redraw,
}

impl View for Action {
    type V = Effect;

    open spec fn view(&self) -> Effect {
        match self {
            Action::Send { to, payload } => Effect::Send(to@, payload@),
            Action::Sleep { seconds } => Effect::Sleep(*seconds),
            Action::Redraw => Effect::Redraw,
        }
    }
}

/// The effects of a list of actions.
pub open spec fn effects(actions: Seq<Action>) -> Seq<Effect> {
    actions.map_values(|a: Action| a@)
}

/// One `Send` of `payload` to each address of `to`, in order.
pub open spec fn sends_to_all(to: Seq<Seq<u8>>, payload: Seq<u8>) -> Seq<Effect> {
    to.map_values(|a: Seq<u8>| Effect::Send(a, payload))
}

/// Appends a `Send` action.
pub fn push_send(actions: &mut Vec<Action>, to: &[u8], payload: &[u8])
    ensures
        effects(final(actions)@) == effects(old(actions)@).push(Effect::Send(to@, payload@)),
{
    let a = Action::Send { to: crate::bytes::copy_bytes(to), payload: crate::bytes::copy_bytes(payload) };
    actions.push(a);
    assert(effects(final(actions)@) =~= effects(old(actions)@).push(Effect::Send(to@, payload@)));
}

/// Appends a `Send` of `payload` to every address of `to`, in order.
pub fn push_sends(actions: &mut Vec<Action>, to: &Vec<Vec<u8>>, payload: &[u8])
    ensures
        effects(final(actions)@) == effects(old(actions)@) + sends_to_all(crate::bytes::views(to@), payload@),
{
    let mut i: usize = 0;
    while i < to.len()
        invariant
            i <= to@.len(),
            effects(actions@) == effects(old(actions)@) + sends_to_all(crate::bytes::views(to@).take(i as int), payload@),
        decreases to@.len() - i,
    {
        push_send(actions, to[i].as_slice(), payload);
        i = i + 1;
        assert(sends_to_all(crate::bytes::views(to@).take(i as int), payload@) =~= sends_to_all(
            crate::bytes::views(to@).take(i - 1),
            payload@,
        ).push(Effect::Send(to@[i - 1]@, payload@)));
        assert(effects(actions@) =~= effects(old(actions)@) + sends_to_all(
            crate::bytes::views(to@).take(i as int),
            payload@,
        ));
    }
    assert(crate::bytes::views(to@).take(to@.len() as int) =~= crate::bytes::views(to@));
}

/// Appends a `Sleep` action.
pub fn push_sleep(actions: &mut Vec<Action>, seconds: u64)
    ensures
        effects(final(actions)@) == effects(old(actions)@).push(Effect::Sleep(seconds)),
{
    actions.push(Action::Sleep { seconds });
    assert(effects(final(actions)@) =~= effects(old(actions)@).push(Effect::Sleep(seconds)));
}

/// Appends a `Redraw` action.
pub fn push_redraw(actions: &mut Vec<Action>)
    ensures
        effects(final(actions)@) == effects(old(actions)@).push(Effect::Redraw),
{
    actions.push(Action::Redraw);
    assert(effects(final(actions)@) =~= effects(old(actions)@).push(Effect::Redraw));
}

} // verus!
