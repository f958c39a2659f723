//! Byte layouts exchanged between clients, agents and servers.
//!
//! A client request is three data bytes. The agent forwards it to a server
//! as a five-byte frame: the three data bytes, then the client's port, most
//! significant byte first. A server answers with the same frame whose data
//! bytes are reversed; the agent strips the port and returns the data.
use vstd::prelude::*;
use crate::bytes::bytes_equal;

verus! {

/// Port carried in bytes 3 and 4 of a frame (big-endian).
pub open spec fn frame_port(frame: Seq<u8>) -> int {
    frame[3] * 256 + frame[4]
}

/// The frame an agent builds for `data` received from a client on `port`.
pub open spec fn request_frame(data: Seq<u8>, port: u16) -> Seq<u8> {
    seq![data[0], data[1], data[2], (port / 256) as u8, (port % 256) as u8]
}

/// Builds the frame that an agent forwards to a server for a client request.
pub fn encode_request(data: [u8; 3], port: u16) -> (frame: [u8; 5])
    ensures
        frame@ == request_frame(data@, port),
{
    let hi: u8 = (port >> 8u16) as u8;
    let lo: u8 = port as u8;
    assert(hi == port / 256 && lo == port % 256) by (bit_vector)
        requires
            hi == (port >> 8u16) as u8,
            lo == port as u8,
    ;
    let frame = [data[0], data[1], data[2], hi, lo];
    assert(frame@ =~= request_frame(data@, port));
    frame
}

/// Splits a server's answer into the data for the client and the client's port.
pub fn decode_reply(frame: [u8; 5]) -> (out: ([u8; 3], u16))
    ensures
        out.0@ == frame@.subrange(0, 3),
        out.1 == frame_port(frame@),
{
    let hi: u16 = frame[3] as u16;
    let lo: u16 = frame[4] as u16;
    let port: u16 = (hi << 8u16) | lo;
    assert(port == hi * 256 + lo) by (bit_vector)
        requires
            hi < 256,
            lo < 256,
            port == (hi << 8u16) | lo,
    ;
    let data = [frame[0], frame[1], frame[2]];
    assert(data@ =~= frame@.subrange(0, 3));
    (data, port)
}


/// The frame a server sends back for the frame at the start of `received`:
/// the three data bytes in reverse order, then the two port bytes unchanged.
pub open spec fn answer_frame(received: Seq<u8>) -> Seq<u8> {
    seq![received[2], received[1], received[0], received[3], received[4]]
}

/// Builds a server's answer to the agent frame at the start of its receive
/// buffer.
pub fn answer_request(received: &[u8]) -> (answer: [u8; 5])
    requires
        received@.len() >= 5,
    ensures
        answer@ == answer_frame(received@),
{
    let answer = [received[2], received[1], received[0], received[3], received[4]];
    assert(answer@ =~= answer_frame(received@));
    answer
}

/// A datagram that an agent receives from a server.
#[derive(Clone, Copy, PartialEq, Eq, Debug)]
pub enum ServerDatagram {
    /// The one-byte notice `d` (status 0) or `u` (status 1).
    Status(u8),
    /// An answer frame, to be returned to its client.
    Reply([u8; 5]),
    /// A one-byte datagram that is neither notice.
    Ignored,
}

/// How an agent reads the `len` bytes just received into `buffer` (which
/// still holds older bytes past `len`): a one-byte `d` or `u` is a status
/// notice, any other one-byte datagram is dropped, and anything else is an
/// answer made of the whole buffer.
pub open spec fn server_datagram(buffer: Seq<u8>, len: usize) -> ServerDatagram {
    if len == 1 {
        if buffer[0] == 100u8 {
            ServerDatagram::Status(0)
        } else if buffer[0] == 117u8 {
            ServerDatagram::Status(1)
        } else {
            ServerDatagram::Ignored
        }
    } else {
        ServerDatagram::Reply([buffer[0], buffer[1], buffer[2], buffer[3], buffer[4]])
    }
}

/// Classifies what an agent received from a server.
pub fn classify_server_datagram(buffer: &[u8; 5], len: usize) -> (kind: ServerDatagram)
    ensures
        kind == server_datagram(buffer@, len),
        kind matches ServerDatagram::Reply(f) ==> f@ == buffer@,
{
    if len == 1 {
        if buffer[0] == 100u8 {
            ServerDatagram::Status(0)
        } else if buffer[0] == 117u8 {
            ServerDatagram::Status(1)
        } else {
            ServerDatagram::Ignored
        }
    } else {
        let f = [buffer[0], buffer[1], buffer[2], buffer[3], buffer[4]];
        assert(f@ =~= buffer@);
        ServerDatagram::Reply(f)
    }
}

/// Looks up the index under which an agent files a server's address: the
/// last position that holds it (later entries replace earlier ones).
pub fn server_index(servers: &Vec<Vec<u8>>, address: &[u8]) -> (index: Option<u8>)
    requires
        servers@.len() <= 256,
    ensures
        match index {
            Some(i) => {
                &&& i < servers@.len()
                &&& servers@[i as int]@ == address@
                &&& forall|j: int| i < j < servers@.len() ==> servers@[j]@ != address@
            },
            None => forall|j: int| 0 <= j < servers@.len() ==> servers@[j]@ != address@,
        },
{
    let mut found: Option<u8> = None;
    let mut i: usize = 0;
    while i < servers.len()
        invariant
            i <= servers@.len() <= 256,
            match found {
                Some(k) => {
                    &&& k < i
                    &&& servers@[k as int]@ == address@
                    &&& forall|j: int| k < j < i ==> servers@[j]@ != address@
                },
                None => forall|j: int| 0 <= j < i ==> servers@[j]@ != address@,
            },
        decreases servers@.len() - i,
    {
        if bytes_equal(servers[i].as_slice(), address) {
            found = Some(i as u8);
        }
        i = i + 1;
    }
    found
}

/// Records a status notice `[index, status]` in the agent's table of servers.
pub fn apply_status(active: &mut [u8; 3], notice: [u8; 2])
    requires
        notice[0] < 3,
    ensures
        final(active)@ == old(active)@.update(notice[0] as int, notice[1]),
{
    let i = notice[0] as usize;
    active[i] = notice[1];
}

/// A client's request makes the round trip agent, server, agent with its
/// port intact and its data reversed.
pub proof fn lemma_round_trip(data: Seq<u8>, port: u16)
    requires
        data.len() == 3,
    ensures
        answer_frame(request_frame(data, port)).subrange(0, 3) == data.reverse(),
        frame_port(answer_frame(request_frame(data, port))) == port,
{
    let f = answer_frame(request_frame(data, port));
    assert(f.subrange(0, 3) =~= data.reverse());
    assert(port == (port / 256) * 256 + port % 256);
}

/// Answering twice gives back the frame that was received.
pub proof fn lemma_answer_twice(frame: Seq<u8>)
    requires
        frame.len() == 5,
    ensures
        answer_frame(answer_frame(frame)) == frame,
{
    assert(answer_frame(answer_frame(frame)) =~= frame);
}

} // verus!
