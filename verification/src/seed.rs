//! The seeding side: what to make of a datagram that asks for a block, and
//! the datagram that answers it.
//!
//! Receiving, queueing and sending stand outside the library. A worker
//! there reads a request with `read_request`, fetches the block, and builds
//! the answer with `build_reply`; `serve` does all three for a file that is
//! in memory.

use vstd::prelude::*;
use vstd::string::*;
use std::collections::VecDeque;
use crate::bytes::ascii_safe;
use crate::fsnp::{
    parse, Datagram, Protocol, ACTION_REPLY, ACTION_REQUEST, MAX_CHUNK_SIZE, MAX_NAME_SIZE,
};
use crate::partial_file::{read_file, read_file_result};

verus! {

/// The number of workers that serve requests.
pub const MAX_NUMBER_THREADS: usize = 2;

/// Most datagrams that wait to be served at one time.
pub const QUEUE_LIMIT: usize = 256;

/// A received datagram that waits to be served, and where it came from.
#[derive(Debug)]
pub struct Job {
    pub packet: Vec<u8>,
    pub peer: u32,
    pub port: u16,
}

/// The datagrams that wait to be served, oldest first. A queue that starts
/// empty never holds more than `QUEUE_LIMIT` of them.
pub struct WorkQueue {
    pub jobs: VecDeque<Job>,
}

impl View for WorkQueue {
    type V = Seq<Job>;

    open spec fn view(&self) -> Seq<Job> {
        self.jobs@
    }
}

impl WorkQueue {
    /// A queue in which nothing waits.
    pub fn new() -> (r: WorkQueue)
        ensures
            r@ == Seq::<Job>::empty(),
    {
        WorkQueue { jobs: VecDeque::new() }
    }

    /// The number of datagrams that wait.
    pub fn len(&self) -> (n: usize)
        ensures
            n == self@.len(),
    {
        self.jobs.len()
    }

    /// Puts a datagram at the end of the queue and says whether there was
    /// room for it; a full queue drops it and stays as it was.
    pub fn push(&mut self, job: Job) -> (taken: bool)
        ensures
            taken == (old(self)@.len() < QUEUE_LIMIT),
            taken ==> final(self)@ == old(self)@.push(job),
            !taken ==> final(self)@ == old(self)@,
            old(self)@.len() <= QUEUE_LIMIT ==> final(self)@.len() <= QUEUE_LIMIT,
    {
        if self.jobs.len() < QUEUE_LIMIT {
            self.jobs.push_back(job);
            true
        } else {
            false
        }
    }

    /// Takes the datagram that has waited longest, if any waits.
    pub fn pop(&mut self) -> (r: Option<Job>)
        ensures
            old(self)@.len() == 0 ==> r is None && final(self)@ == old(self)@,
            old(self)@.len() > 0 ==> r == Some(old(self)@[0]) && final(self)@ == old(self)@.subrange(
                1,
                old(self)@.len() as int,
            ),
    {
        self.jobs.pop_front()
    }
}

/// Whether `d` is a request that is to be served: it asks, and it carries
/// no payload.
pub open spec fn is_request(d: Datagram) -> bool {
    d.action == ACTION_REQUEST && d.payload.len() == 0
}

/// The reply to the request `d` that carries `payload`.
pub open spec fn reply_to(d: Datagram, payload: Seq<u8>) -> Datagram {
    Datagram { action: ACTION_REPLY, chunk_id: d.chunk_id, name: d.name, payload }
}

/// Reads a received datagram as a request. Anything else is dropped: bytes
/// that are no datagram, a datagram that does not ask, and a request with
/// a payload.
pub fn read_request<'a>(packet: &'a [u8]) -> (r: Option<Protocol<'a>>)
    ensures
        match parse(packet@) {
            Ok(d) => if is_request(d) {
                r is Some && r.unwrap()@ == d
            } else {
                r is None
            },
            Err(_) => r is None,
        },
{
    match Protocol::read_datagram(packet) {
        Ok(p) => {
            if p.action == ACTION_REQUEST && p.len_chunk == 0 {
                Some(p)
            } else {
                None
            }
        },
        Err(_) => None,
    }
}

/// The datagram that answers `request` with the first `bytes_read` bytes of
/// `data`. There is no answer where nothing was read, or more than a block,
/// or more than `data` holds, or where the name of the request is one that
/// no datagram can carry.
pub fn build_reply(request: &Protocol, data: &[u8], bytes_read: usize) -> (r: Option<Vec<u8>>)
    ensures
        r is Some <==> 0 < bytes_read <= MAX_CHUNK_SIZE && bytes_read <= data@.len()
            && request@.name.len() <= MAX_NAME_SIZE && ascii_safe(request@.name),
        r is Some ==> r.unwrap()@ == reply_to(request@, data@.subrange(0, bytes_read as int)).wire(),
{
    if bytes_read == 0 || bytes_read > MAX_CHUNK_SIZE || bytes_read > data.len() {
        return None;
    }
    let mut chunk: [u8; MAX_CHUNK_SIZE] = [0u8; MAX_CHUNK_SIZE];
    let mut i: usize = 0;
    while i < bytes_read
        invariant
            i <= bytes_read <= MAX_CHUNK_SIZE,
            bytes_read <= data@.len(),
            forall|k: int| 0 <= k < i ==> chunk@[k] == data@[k],
        decreases bytes_read - i,
    {
        chunk[i] = data[i];
        i += 1;
    }
    let reply = Protocol {
        action: ACTION_REPLY,
        chunk_id: request.chunk_id,
        filename: request.filename,
        len_chunk: bytes_read as u16,
        chunk_data: chunk,
    };
    assert(reply.payload() =~= data@.subrange(0, bytes_read as int));
    match reply.to_datagram() {
        Ok(bytes) => Some(bytes),
        Err(_) => None,
    }
}

/// What a seeder answers to the received bytes `packet` when the file that
/// is asked for is stored under `stored_name` with the bytes `content`: the
/// reply, or nothing where the bytes are no request to serve, the block
/// cannot be read, or it is empty.
pub open spec fn served(packet: Seq<u8>, stored_name: Seq<char>, content: Seq<u8>) -> Option<
    Seq<u8>,
> {
    match parse(packet) {
        Ok(d) => if !is_request(d) {
            None
        } else {
            match read_file_result(stored_name, content, d.chunk_id, MAX_CHUNK_SIZE as int) {
                Ok(bytes) => if bytes.len() == 0 {
                    None
                } else {
                    Some(reply_to(d, bytes).wire())
                },
                Err(_) => None,
            }
        },
        Err(_) => None,
    }
}

/// Answers the received bytes `packet` from the file stored under
/// `stored_name` with the bytes `content`, as `served` says.
pub fn serve(packet: &[u8], stored_name: &str, content: &[u8]) -> (r: Option<Vec<u8>>)
    ensures
        match served(packet@, stored_name@, content@) {
            Some(bytes) => r is Some && r.unwrap()@ == bytes,
            None => r is None,
        },
{
    let request = match read_request(packet) {
        Some(p) => p,
        None => {
            return None;
        },
    };
    proof {
        crate::fsnp::lemma_wire_parse(packet@);
    }
    let mut chunk: Vec<u8> = vec![0u8; MAX_CHUNK_SIZE];
    let bytes_read: usize = match read_file(
        stored_name,
        content,
        request.chunk_id,
        chunk.as_mut_slice(),
    ) {
        Ok(n) => n,
        Err(_) => {
            return None;
        },
    };
    build_reply(&request, chunk.as_slice(), bytes_read)
}

} // verus!
