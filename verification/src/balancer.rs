//! Round-robin choice among the servers that are currently up.
//!
//! The agent keeps a cursor into the fixed list of servers. Each request goes
//! to the first server at or after the cursor (wrapping around) whose status
//! is up; the cursor then moves one past that server.
use vstd::prelude::*;

verus! {

/// The number of servers an agent balances over.
pub const SERVER_COUNT: usize = 3;

/// The server that the next request goes to when the cursor is at `start`:
/// the first one, looking around the ring from `start`, whose status is not
/// 0; `None` when every server is down.
pub open spec fn next_up(active: Seq<u8>, start: int) -> Option<int> {
    if active[start % 3] != 0 {
        Some(start % 3)
    } else if active[(start + 1) % 3] != 0 {
        Some((start + 1) % 3)
    } else if active[(start + 2) % 3] != 0 {
        Some((start + 2) % 3)
    } else {
        None
    }
}

/// The agent's sending side: the round-robin cursor and the number of
/// requests sent to each server so far.
pub struct Dispatcher {
    pub cursor: usize,
    pub sent: [u128; 3],
}

impl Dispatcher {
    /// The cursor points at a server.
    pub open spec fn wf(&self) -> bool {
        self.cursor < SERVER_COUNT
    }

    /// A dispatcher at the first server, with nothing sent yet.
    pub fn new() -> (d: Self)
        ensures
            d.wf(),
            d.cursor == 0,
            d.sent@ == seq![0u128, 0u128, 0u128],
    {
        let d = Dispatcher { cursor: 0, sent: [0, 0, 0] };
        assert(d.sent@ =~= seq![0u128, 0u128, 0u128]);
        d
    }

    /// Chooses the server for the next request, counts the request against
    /// it and moves the cursor past it. Returns `None`, and changes nothing,
    /// when every server is down.
    pub fn dispatch(&mut self, active: &[u8; 3]) -> (choice: Option<usize>)
        requires
            old(self).wf(),
            forall|i: int| 0 <= i < 3 ==> old(self).sent@[i] < u128::MAX,
        ensures
            final(self).wf(),
            match next_up(active@, old(self).cursor as int) {
                Some(j) => {
                    &&& choice == Some(j as usize)
                    &&& active@[j] != 0
                    &&& final(self).cursor == (j + 1) % 3
                    &&& final(self).sent@ == old(self).sent@.update(j, (old(self).sent@[j] + 1) as u128)
                },
                None => {
                    &&& choice is None
                    &&& *final(self) == *old(self)
                },
            },
    {
        let c = self.cursor;
        let c1 = (c + 1) % 3;
        let c2 = (c + 2) % 3;
        let j: usize = if active[c] != 0 {
            c
        } else if active[c1] != 0 {
            c1
        } else if active[c2] != 0 {
            c2
        } else {
            return None;
        };
        self.sent[j] = self.sent[j] + 1;
        self.cursor = (j + 1) % 3;
        Some(j)
    }
}

/// With every server up, three requests in a row go to three different
/// servers, one each, in list order from the cursor, and the cursor comes back
/// to where it started.
pub proof fn lemma_all_up_rotation(active: Seq<u8>, cursor: int)
    requires
        active.len() == 3,
        0 <= cursor < 3,
        forall|i: int| 0 <= i < 3 ==> active[i] != 0,
    ensures
        next_up(active, cursor) == Some(cursor),
        next_up(active, (cursor + 1) % 3) == Some((cursor + 1) % 3),
        next_up(active, (cursor + 2) % 3) == Some((cursor + 2) % 3),
        (cursor + 3) % 3 == cursor,
        set![cursor, (cursor + 1) % 3, (cursor + 2) % 3] == set![0int, 1int, 2int],
{
    assert(set![cursor, (cursor + 1) % 3, (cursor + 2) % 3] =~= set![0int, 1int, 2int]);
}

/// A server that is down is never chosen, and every server skipped on the
/// way to the chosen one is down.
pub proof fn lemma_skips_only_down(active: Seq<u8>, cursor: int)
    requires
        active.len() == 3,
        0 <= cursor < 3,
    ensures
        match next_up(active, cursor) {
            Some(j) => {
                &&& active[j] != 0
                &&& j != cursor ==> active[cursor] == 0
                &&& j == (cursor + 2) % 3 ==> active[(cursor + 1) % 3] == 0
            },
            None => forall|i: int| 0 <= i < 3 ==> active[i] == 0,
        },
{
}

} // verus!
