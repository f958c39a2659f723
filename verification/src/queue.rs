//! The agent's first-in first-out buffers of frames, kept in a
//! `queues::Queue`.
use vstd::prelude::*;
use queues::IsQueue;
use queues::Queue;

verus! {

#[verifier::external_type_specification]
#[verifier::external_body]
#[verifier::reject_recursive_types(T)]
pub struct ExQueue<T: Clone>(Queue<T>);

/// The frames held in `q`, oldest first.
pub uninterp spec fn queue_frames(q: Queue<[u8; 5]>) -> Seq<[u8; 5]>;

/// `Queue::new`: the queue it returns is empty.
#[verifier::external_body]
fn queue_new() -> (q: Queue<[u8; 5]>)
    ensures
        queue_frames(q) == Seq::<[u8; 5]>::empty(),
{
    Queue::new()
}

/// `IsQueue::add` on a `Queue`: appends the frame at the back and returns
/// `Ok(None)` (the error is mapped to `()`).
#[verifier::external_body]
fn queue_add(q: &mut Queue<[u8; 5]>, frame: [u8; 5]) -> (r: Result<Option<[u8; 5]>, ()>)
    ensures
        r matches Ok(None),
        queue_frames(*final(q)) == queue_frames(*old(q)).push(frame),
{
    q.add(frame).map_err(|_e| ())
}

/// `IsQueue::peek` on a `Queue`: a copy of the oldest frame, or an error (here
/// `()`) when the queue is empty.
#[verifier::external_body]
fn queue_peek(q: &Queue<[u8; 5]>) -> (r: Result<[u8; 5], ()>)
    ensures
        r is Err <==> queue_frames(*q).len() == 0,
        r matches Ok(f) ==> f == queue_frames(*q)[0],
{
    q.peek().map_err(|_e| ())
}

/// `IsQueue::remove` on a `Queue`: takes out and returns the oldest frame,
/// or returns an error (here `()`) and leaves the queue as it is when it is
/// empty.
#[verifier::external_body]
fn queue_remove(q: &mut Queue<[u8; 5]>) -> (r: Result<[u8; 5], ()>)
    ensures
        queue_frames(*old(q)).len() > 0 ==> {
            &&& r matches Ok(f) && f == queue_frames(*old(q))[0]
            &&& queue_frames(*final(q)) == queue_frames(*old(q)).drop_first()
        },
        queue_frames(*old(q)).len() == 0 ==> {
            &&& r is Err
            &&& queue_frames(*final(q)) == queue_frames(*old(q))
        },
{
    q.remove().map_err(|_e| ())
}

/// `IsQueue::size` on a `Queue`: the number of frames held.
#[verifier::external_body]
fn queue_size(q: &Queue<[u8; 5]>) -> (n: usize)
    ensures
        n == queue_frames(*q).len(),
{
    q.size()
}

/// A first-in first-out buffer of frames between an agent's threads.
pub struct FrameQueue {
    inner: Queue<[u8; 5]>,
}

impl View for FrameQueue {
    type V = Seq<[u8; 5]>;

    closed spec fn view(&self) -> Seq<[u8; 5]> {
        queue_frames(self.inner)
    }
}

impl FrameQueue {
    /// An empty buffer.
    pub fn new() -> (q: Self)
        ensures
            q@ == Seq::<[u8; 5]>::empty(),
    {
        FrameQueue { inner: queue_new() }
    }

    /// Puts a frame at the back.
    pub fn push(&mut self, frame: [u8; 5])
        ensures
            final(self)@ == old(self)@.push(frame),
    {
        let _ = queue_add(&mut self.inner, frame);
    }

    /// Takes the oldest frame out, if there is one: the agent's threads peek
    /// at the front and then remove it.
    pub fn pop(&mut self) -> (front: Option<[u8; 5]>)
        ensures
            old(self)@.len() > 0 ==> front == Some(old(self)@[0]) && final(self)@ == old(self)@.drop_first(),
            old(self)@.len() == 0 ==> front is None && final(self)@ == old(self)@,
    {
        if queue_size(&self.inner) > 0 {
            match queue_peek(&self.inner) {
                Ok(frame) => {
                    let _ = queue_remove(&mut self.inner);
                    Some(frame)
                },
                Err(_) => None,
            }
        } else {
            None
        }
    }

    /// The number of frames held.
    pub fn len(&self) -> (n: usize)
        ensures
            n == self@.len(),
    {
        queue_size(&self.inner)
    }
}

} // verus!
