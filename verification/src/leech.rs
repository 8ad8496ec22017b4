//! The download scheduler: which peer a worker asks for a block, how long
//! it waits, and what it does with each thing that happens while it waits.
//!
//! The worker itself, which owns the socket and the file, stands outside the
//! library. It hands each event to `Attempt::step` and carries out the
//! action that comes back.

use vstd::prelude::*;
use vstd::string::*;
use vstd::utf8::encode_utf8;
use std::collections::HashSet;
use crate::bytes::ascii_safe;
use crate::fsnp::{
    is_reply_for, parse, request_for, Datagram, FsnpError, Protocol, ACTION_REPLY,
    MAX_CHUNK_SIZE, MAX_NAME_SIZE,
};
use crate::fstp::{
    add_block_wire, encode_add_block, ControlMessage, Flag, FstpError, FstpMessage,
    MAX_DATA_SIZE,
};
use crate::shared::{LeechState, Shared};

verus! {

broadcast use vstd::std_specs::hash::group_hash_axioms;

/// How long a worker waits for a peer of unknown latency, in milliseconds.
pub const DEFAULT_TIMEOUT_MS: u32 = 500;

/// The number of failed tries in a row after which a worker leaves a peer.
pub const MAX_RETRIES: u8 = 3;

/// The latency that is known of peer `p`; zero where none was measured.
pub open spec fn known_latency(rtt: Map<u32, u16>, p: u32) -> u16 {
    if rtt.contains_key(p) {
        rtt[p]
    } else {
        0
    }
}

/// Whether peer `p` is at least as good a choice as peer `q`: it was never
/// measured, or both were and `p` is not the slower one.
pub open spec fn no_worse(rtt: Map<u32, u16>, p: u32, q: u32) -> bool {
    !rtt.contains_key(p) || (rtt.contains_key(q) && rtt[p] <= rtt[q])
}

/// Whether `list[k]` is the peer to pick among the first `n` peers of
/// `list`: it is not avoided, no candidate is a better choice, and every
/// candidate in front of it is a worse one.
pub open spec fn is_pick_of(
    list: Seq<u32>,
    avoid: Set<u32>,
    rtt: Map<u32, u16>,
    k: int,
    n: int,
) -> bool {
    &&& 0 <= k < n <= list.len()
    &&& !avoid.contains(list[k])
    &&& forall|j: int|
        0 <= j < n && !avoid.contains(#[trigger] list[j]) ==> no_worse(rtt, list[k], list[j])
    &&& forall|j: int|
        0 <= j < k && !avoid.contains(#[trigger] list[j]) ==> !no_worse(rtt, list[j], list[k])
}

/// Whether `list[k]` is the peer to pick from `list`.
pub open spec fn is_pick(list: Seq<u32>, avoid: Set<u32>, rtt: Map<u32, u16>, k: int) -> bool {
    is_pick_of(list, avoid, rtt, k, list.len() as int)
}

/// The peer to ask next: among the holders in `list` that are not avoided,
/// one that was never measured if there is any, else one of the lowest
/// latency; of several such, the first in `list`. None where every holder
/// is avoided.
pub open spec fn pick_of(list: Seq<u32>, avoid: Set<u32>, rtt: Map<u32, u16>) -> Option<u32> {
    if exists|k: int| is_pick(list, avoid, rtt, k) {
        Some(list[choose|k: int| is_pick(list, avoid, rtt, k)])
    } else {
        None
    }
}

/// There is at most one pick.
pub proof fn lemma_pick_unique(list: Seq<u32>, avoid: Set<u32>, rtt: Map<u32, u16>, a: int, b: int)
    requires
        is_pick(list, avoid, rtt, a),
        is_pick(list, avoid, rtt, b),
    ensures
        a == b,
{
    if a < b {
        assert(!no_worse(rtt, list[a], list[b]));
        assert(no_worse(rtt, list[a], list[b]));
    } else if b < a {
        assert(!no_worse(rtt, list[b], list[a]));
        assert(no_worse(rtt, list[b], list[a]));
    }
}

/// There is a pick exactly if some holder is not avoided, and the pick is
/// such a holder.
pub proof fn lemma_pick_exists(list: Seq<u32>, avoid: Set<u32>, rtt: Map<u32, u16>)
    ensures
        pick_of(list, avoid, rtt) is Some <==> exists|j: int|
            0 <= j < list.len() && !avoid.contains(#[trigger] list[j]),
        pick_of(list, avoid, rtt) is Some ==> list.contains(pick_of(list, avoid, rtt).unwrap())
            && !avoid.contains(pick_of(list, avoid, rtt).unwrap()),
{
    let n: int = list.len() as int;
    if exists|j: int| 0 <= j < list.len() && !avoid.contains(#[trigger] list[j]) {
        lemma_pick_among(list, avoid, rtt, n);
        let k: int = choose|k: int| is_pick_of(list, avoid, rtt, k, n);
        assert(is_pick(list, avoid, rtt, k));
    }
    if pick_of(list, avoid, rtt) is Some {
        let k: int = choose|k: int| is_pick(list, avoid, rtt, k);
        assert(list[k] == pick_of(list, avoid, rtt).unwrap());
        assert(0 <= k < list.len() && !avoid.contains(list[k]));
    }
}

/// Among the first `n` holders there is a pick if one of them is not
/// avoided.
proof fn lemma_pick_among(list: Seq<u32>, avoid: Set<u32>, rtt: Map<u32, u16>, n: int)
    requires
        0 <= n <= list.len(),
        exists|j: int| 0 <= j < n && !avoid.contains(#[trigger] list[j]),
    ensures
        exists|k: int| is_pick_of(list, avoid, rtt, k, n),
    decreases n,
{
    let m: int = n - 1;
    let last: u32 = list[m];
    if exists|j: int| 0 <= j < m && !avoid.contains(#[trigger] list[j]) {
        lemma_pick_among(list, avoid, rtt, m);
        let k: int = choose|k: int| is_pick_of(list, avoid, rtt, k, m);
        if avoid.contains(last) || no_worse(rtt, list[k], last) {
            assert(is_pick_of(list, avoid, rtt, k, n));
        } else {
            assert(is_pick_of(list, avoid, rtt, n - 1, n)) by {
                assert forall|j: int|
                    0 <= j < n && !avoid.contains(#[trigger] list[j]) implies no_worse(
                    rtt,
                    last,
                    list[j],
                ) by {
                    if j < n - 1 {
                        assert(no_worse(rtt, list[k], list[j]));
                    }
                }
                assert forall|j: int|
                    0 <= j < n - 1 && !avoid.contains(#[trigger] list[j]) implies !no_worse(
                    rtt,
                    list[j],
                    last,
                ) by {
                    assert(no_worse(rtt, list[k], list[j]));
                }
            }
        }
    } else {
        assert(is_pick_of(list, avoid, rtt, n - 1, n));
    }
}

/// How long to wait for a peer whose known latency is `latency_ms`: half as
/// long again, or `DEFAULT_TIMEOUT_MS` where the latency is zero, which
/// stands for a peer that was not measured.
pub open spec fn timeout_of(latency_ms: u16) -> u32 {
    if latency_ms > 0 {
        (latency_ms as int * 3 / 2) as u32
    } else {
        DEFAULT_TIMEOUT_MS
    }
}

/// Whether a reply that took `d` milliseconds is outside the band of half
/// the estimate `r` on either side of it.
pub open spec fn outside_band(d: u64, r: u16) -> bool {
    2 * d >= 3 * r || 2 * d <= r
}

/// The latencies after a reply of peer `p` took `d` milliseconds: the
/// estimate of `p` becomes the low 16 bits of `d` if `d` is outside the band
/// around the estimate so far (zero if there is none), and stays otherwise.
pub open spec fn rtt_after(rtt: Map<u32, u16>, p: u32, d: u64) -> Map<u32, u16> {
    if outside_band(d, known_latency(rtt, p)) {
        rtt.insert(p, (d % 0x1_0000) as u16)
    } else {
        rtt
    }
}

/// Where a worker stands with the block it has claimed.
///
/// Picking a peer and backing off from one take no time of their own: they
/// happen within the step that leads to the next wait.
#[derive(Debug, Clone, Copy, PartialEq, Eq, Structural)]
pub enum Phase {
    /// No block is being fetched.
    Idle,
    /// A request is out and the worker waits for the reply.
    AwaitReply,
    /// The block has arrived and is being written.
    Commit,
}

/// What happened while the worker waited.
#[derive(Debug)]
pub enum Event {
    /// A datagram arrived, `elapsed_ms` after the last request was sent.
    Datagram { bytes: Vec<u8>, elapsed_ms: u64 },
    /// Nothing arrived in time.
    Timeout,
    /// The request could not be sent, or the socket failed.
    SendFailed,
    /// The block was written to the partial file.
    Stored,
    /// The block could not be written.
    StoreFailed,
}

/// What the worker is to do next.
#[derive(Debug)]
pub enum Action {
    /// Send `datagram` to `peer` and wait up to `timeout_ms` for the reply.
    Request { peer: u32, timeout_ms: u32, datagram: Vec<u8> },
    /// Keep waiting, under the deadline that is running.
    Wait,
    /// Write `payload` as block `index` of the partial file.
    Store { index: u32, payload: Vec<u8> },
    /// Send `frame` to the tracker. The block is done.
    Announce { frame: Vec<u8> },
    /// The block cannot be fetched.
    GiveUp,
}

/// What an action says.
pub enum ActionView {
    Request { peer: u32, timeout_ms: u32, datagram: Seq<u8> },
    Wait,
    Store { index: u32, payload: Seq<u8> },
    Announce { frame: Seq<u8> },
    GiveUp,
}

impl View for Action {
    type V = ActionView;

    open spec fn view(&self) -> ActionView {
        match self {
            Action::Request { peer, timeout_ms, datagram } => ActionView::Request {
                peer: *peer,
                timeout_ms: *timeout_ms,
                datagram: datagram@,
            },
            Action::Wait => ActionView::Wait,
            Action::Store { index, payload } => ActionView::Store {
                index: *index,
                payload: payload@,
            },
            Action::Announce { frame } => ActionView::Announce { frame: frame@ },
            Action::GiveUp => ActionView::GiveUp,
        }
    }
}

/// One worker's work on one block.
#[derive(Debug)]
pub struct Attempt {
    pub phase: Phase,
    pub chunk_id: u32,
    pub peer: u32,
    pub latency_ms: u16,
    pub retries: u8,
    pub avoid: HashSet<u32>,
    pub elapsed_ms: u64,
}

/// What an attempt says.
pub struct AttemptView {
    pub phase: Phase,
    pub chunk_id: u32,
    pub peer: u32,
    pub latency_ms: u16,
    pub retries: u8,
    pub avoid: Set<u32>,
    pub elapsed_ms: u64,
}

impl View for Attempt {
    type V = AttemptView;

    open spec fn view(&self) -> AttemptView {
        AttemptView {
            phase: self.phase,
            chunk_id: self.chunk_id,
            peer: self.peer,
            latency_ms: self.latency_ms,
            retries: self.retries,
            avoid: self.avoid@,
            elapsed_ms: self.elapsed_ms,
        }
    }
}

/// The file's name as the datagrams carry it.
pub open spec fn name_bytes(s: LeechState) -> Seq<u8> {
    encode_utf8(s.file_name)
}

/// Whether a datagram can carry the file's name.
pub open spec fn can_request(s: LeechState) -> bool {
    name_bytes(s).len() <= MAX_NAME_SIZE && ascii_safe(name_bytes(s))
}

/// Whether a control frame can carry the file's name behind a block index.
pub open spec fn can_announce(s: LeechState) -> bool {
    name_bytes(s).len() + 8 <= MAX_DATA_SIZE
}

/// The frame that announces block `chunk_id` of the file `name`.
pub open spec fn announce_frame(chunk_id: u32, name: Seq<char>) -> Seq<u8> {
    (ControlMessage { flag: Flag::AddBlock, data: add_block_wire(chunk_id, name) }).wire()
}

/// The attempt gives the block up: the block is marked as failed.
pub open spec fn aborted(a: AttemptView, s: LeechState) -> (AttemptView, LeechState, ActionView) {
    (
        AttemptView { phase: Phase::Idle, ..a },
        LeechState { failed: s.failed.insert(a.chunk_id), ..s },
        ActionView::GiveUp,
    )
}

/// The attempt asks its peer again.
pub open spec fn resent(a: AttemptView, s: LeechState) -> (AttemptView, LeechState, ActionView) {
    if can_request(s) {
        (
            a,
            s,
            ActionView::Request {
                peer: a.peer,
                timeout_ms: timeout_of(a.latency_ms),
                datagram: request_for(a.chunk_id, name_bytes(s)).wire(),
            },
        )
    } else {
        aborted(a, s)
    }
}

/// The attempt turns to a fresh peer: the one that `pick_of` names among
/// the holders of the block, which is then asked and counts as taken. With
/// no peer left, a name that no datagram can carry, or a block that the
/// file does not have, the block is given up.
pub open spec fn repicked(a: AttemptView, s: LeechState) -> (AttemptView, LeechState, ActionView) {
    if !can_request(s) || a.chunk_id >= s.holders.len() {
        aborted(AttemptView { retries: 0, ..a }, s)
    } else {
        match pick_of(s.holders[a.chunk_id as int], a.avoid, s.rtt) {
            Some(p) => (
                AttemptView {
                    phase: Phase::AwaitReply,
                    peer: p,
                    latency_ms: known_latency(s.rtt, p),
                    retries: 0,
                    ..a
                },
                LeechState { taken: s.taken.insert(p), ..s },
                ActionView::Request {
                    peer: p,
                    timeout_ms: timeout_of(known_latency(s.rtt, p)),
                    datagram: request_for(a.chunk_id, name_bytes(s)).wire(),
                },
            ),
            None => aborted(AttemptView { retries: 0, ..a }, s),
        }
    }
}

/// A try has failed. The third failure in a row puts the peer on the avoid
/// list, and the attempt turns to a fresh peer; before that, the same peer
/// is asked again.
pub open spec fn struck(a: AttemptView, s: LeechState) -> (AttemptView, LeechState, ActionView) {
    if a.retries + 1 >= MAX_RETRIES {
        repicked(AttemptView { avoid: a.avoid.insert(a.peer), ..a }, s)
    } else {
        resent(AttemptView { retries: (a.retries + 1) as u8, ..a }, s)
    }
}

/// A datagram has arrived. The reply to the request is handed on to be
/// written. Any other datagram that can be read is passed over, and the
/// wait goes on. Bytes that are no datagram make the attempt ask again.
pub open spec fn heard(a: AttemptView, s: LeechState, bytes: Seq<u8>, elapsed_ms: u64) -> (
    AttemptView,
    LeechState,
    ActionView,
) {
    match parse(bytes) {
        Ok(d) => if is_reply_for(d, a.chunk_id, name_bytes(s)) {
            (
                AttemptView { phase: Phase::Commit, elapsed_ms, ..a },
                s,
                ActionView::Store { index: a.chunk_id, payload: d.payload },
            )
        } else {
            (a, s, ActionView::Wait)
        },
        Err(_) => resent(a, s),
    }
}

/// The block has been written: it is marked as received, the peer's
/// latency is brought up to date, and the tracker is told.
pub open spec fn committed(a: AttemptView, s: LeechState) -> (
    AttemptView,
    LeechState,
    ActionView,
) {
    if can_announce(s) {
        (
            AttemptView { phase: Phase::Idle, ..a },
            LeechState {
                rtt: rtt_after(s.rtt, a.peer, a.elapsed_ms),
                received: s.received.insert(a.chunk_id),
                ..s
            },
            ActionView::Announce { frame: announce_frame(a.chunk_id, s.file_name) },
        )
    } else {
        aborted(a, s)
    }
}

/// The attempt at the start of its work on block `chunk_id`.
pub open spec fn fresh(chunk_id: u32) -> AttemptView {
    AttemptView {
        phase: Phase::Idle,
        chunk_id,
        peer: 0,
        latency_ms: 0,
        retries: 0,
        avoid: Set::empty(),
        elapsed_ms: 0,
    }
}

/// What an attempt makes of an event: the attempt and the shared state
/// afterwards, and the action to take.
pub open spec fn stepped(a: AttemptView, s: LeechState, e: Event) -> (
    AttemptView,
    LeechState,
    ActionView,
) {
    match a.phase {
        Phase::Idle => (a, s, ActionView::Wait),
        Phase::AwaitReply => match e {
            Event::Datagram { bytes, elapsed_ms } => heard(a, s, bytes@, elapsed_ms),
            Event::Timeout => struck(a, s),
            Event::SendFailed => struck(a, s),
            Event::Stored => (a, s, ActionView::Wait),
            Event::StoreFailed => (a, s, ActionView::Wait),
        },
        Phase::Commit => match e {
            Event::Stored => committed(a, s),
            Event::StoreFailed => aborted(a, s),
            Event::Datagram { bytes, elapsed_ms } => (a, s, ActionView::Wait),
            Event::Timeout => (a, s, ActionView::Wait),
            Event::SendFailed => (a, s, ActionView::Wait),
        },
    }
}

/// The number of holders of the attempt's block that it may still turn to.
pub open spec fn peers_left(a: AttemptView, s: LeechState) -> nat {
    s.holders[a.chunk_id as int].to_set().difference(a.avoid).len()
}

/// The number of failed tries that an attempt can still take before it
/// gives its block up: three for each peer that is left, less those that
/// the peer in hand has used.
pub open spec fn tries_left(a: AttemptView, s: LeechState) -> int {
    3 * peers_left(a, s) - a.retries
}

/// Whether the attempt waits for a holder of its block that it does not
/// avoid, with fewer failed tries than make it leave a peer.
pub open spec fn engaged(a: AttemptView, s: LeechState) -> bool {
    &&& a.phase == Phase::AwaitReply
    &&& a.retries < MAX_RETRIES
    &&& a.chunk_id < s.holders.len()
    &&& s.holders[a.chunk_id as int].contains(a.peer)
    &&& !a.avoid.contains(a.peer)
}

/// An attempt that has asked a peer is engaged, and has a try left.
pub proof fn lemma_begin_engaged(chunk_id: u32, s: LeechState)
    requires
        chunk_id < s.holders.len(),
    ensures
        repicked(fresh(chunk_id), s).2 is GiveUp || (engaged(
            repicked(fresh(chunk_id), s).0,
            repicked(fresh(chunk_id), s).1,
        ) && tries_left(repicked(fresh(chunk_id), s).0, repicked(fresh(chunk_id), s).1) >= 1),
{
    let a: AttemptView = fresh(chunk_id);
    let list: Seq<u32> = s.holders[chunk_id as int];
    lemma_pick_exists(list, a.avoid, s.rtt);
    if !(repicked(a, s).2 is GiveUp) {
        lemma_peers_left_counts(repicked(a, s).0, repicked(a, s).1);
    }
}

/// An engaged attempt has a peer left: the one it waits for.
proof fn lemma_peers_left_counts(a: AttemptView, s: LeechState)
    requires
        engaged(a, s),
    ensures
        peers_left(a, s) >= 1,
        tries_left(a, s) >= 1,
{
    let left: Set<u32> = s.holders[a.chunk_id as int].to_set().difference(a.avoid);
    vstd::seq_lib::seq_to_set_is_finite(s.holders[a.chunk_id as int]);
    assert(left.finite());
    assert(left.contains(a.peer));
    if left.len() == 0 {
        assert(left =~= Set::<u32>::empty());
    }
}

/// Every failed try brings an attempt nearer to its end: either it gives
/// the block up, or it is engaged again with fewer tries left. So an attempt
/// gives up after at most three failed tries for each holder of its block.
pub proof fn lemma_failed_try_progress(a: AttemptView, s: LeechState)
    requires
        engaged(a, s),
    ensures
        tries_left(a, s) >= 1,
        struck(a, s).2 is GiveUp || (engaged(struck(a, s).0, struck(a, s).1) && tries_left(
            struck(a, s).0,
            struck(a, s).1,
        ) < tries_left(a, s)),
{
    lemma_peers_left_counts(a, s);
    let list: Seq<u32> = s.holders[a.chunk_id as int];
    vstd::seq_lib::seq_to_set_is_finite(list);
    if a.retries + 1 >= MAX_RETRIES {
        let b: AttemptView = AttemptView { avoid: a.avoid.insert(a.peer), ..a };
        let before: Set<u32> = list.to_set().difference(a.avoid);
        let after: Set<u32> = list.to_set().difference(b.avoid);
        assert(after =~= before.remove(a.peer));
        assert(before.contains(a.peer));
        assert(after.len() == before.len() - 1);
        lemma_pick_exists(list, b.avoid, s.rtt);
        if !(struck(a, s).2 is GiveUp) {
            let a2: AttemptView = struck(a, s).0;
            let s2: LeechState = struck(a, s).1;
            assert(a2.avoid == b.avoid);
            assert(s2.holders == s.holders);
            assert(engaged(a2, s2));
        }
    } else {
        if !(struck(a, s).2 is GiveUp) {
            let a2: AttemptView = struck(a, s).0;
            assert(a2.avoid == a.avoid);
        }
    }
}

/// A datagram leaves an engaged attempt engaged, with as many tries left,
/// unless it is the reply, which is then stored, or the block is given up.
pub proof fn lemma_heard_keeps_engaged(a: AttemptView, s: LeechState, bytes: Seq<u8>, elapsed: u64)
    requires
        engaged(a, s),
    ensures
        heard(a, s, bytes, elapsed).2 is GiveUp || heard(a, s, bytes, elapsed).2 is Store || (
        engaged(heard(a, s, bytes, elapsed).0, heard(a, s, bytes, elapsed).1) && tries_left(
            heard(a, s, bytes, elapsed).0,
            heard(a, s, bytes, elapsed).1,
        ) == tries_left(a, s)),
{
}

/// How long to wait for a peer whose known latency is `latency_ms`.
pub fn timeout_ms(latency_ms: u16) -> (r: u32)
    ensures
        r == timeout_of(latency_ms),
{
    if latency_ms > 0 {
        (latency_ms as u32) * 3 / 2
    } else {
        DEFAULT_TIMEOUT_MS
    }
}

/// Picks the peer to ask for block `chunk_id`, as `pick_of` says, and marks
/// it as taken. It comes with its known latency, zero for none. None where
/// the file has no such block or every holder of it is avoided.
pub fn peer_picker(chunk_id: u32, avoid_peers: &HashSet<u32>, data: &mut Shared) -> (r: Option<
    (u32, u16),
>)
    ensures
        chunk_id >= old(data)@.block_count() ==> r is None && final(data)@ == old(data)@,
        chunk_id < old(data)@.block_count() ==> match pick_of(
            old(data)@.holders[chunk_id as int],
            avoid_peers@,
            old(data)@.rtt,
        ) {
            Some(p) => r == Some((p, known_latency(old(data)@.rtt, p))) && final(data)@ == (
            LeechState { taken: old(data)@.taken.insert(p), ..old(data)@ }),
            None => r is None && final(data)@ == old(data)@,
        },
{
    if chunk_id as usize >= data.peers_to_chunk.len() {
        return None;
    }
    let ghost list: Seq<u32> = data@.holders[chunk_id as int];
    let ghost rtt: Map<u32, u16> = data@.rtt;
    let ghost avoid: Set<u32> = avoid_peers@;
    let n: usize = data.peers_to_chunk[chunk_id as usize].len();
    assert(list == data.peers_to_chunk@[chunk_id as int]@);
    let mut best: Option<(u32, Option<u16>)> = None;
    let ghost mut at: int = 0;
    let mut k: usize = 0;
    while k < n
        invariant
            k <= n,
            chunk_id < data.peers_to_chunk@.len(),
            list == data.peers_to_chunk@[chunk_id as int]@,
            n == list.len(),
            rtt == data.peers_latency@,
            avoid == avoid_peers@,
            match best {
                Some((p, lat)) => is_pick_of(list, avoid, rtt, at, k as int) && list[at] == p && (
                match lat {
                    Some(v) => rtt.contains_key(p) && rtt[p] == v,
                    None => !rtt.contains_key(p),
                }),
                None => forall|j: int| 0 <= j < k ==> avoid.contains(#[trigger] list[j]),
            },
        decreases n - k,
    {
        let p: u32 = data.peers_to_chunk[chunk_id as usize][k];
        if !avoid_peers.contains(&p) {
            let lat: Option<u16> = match data.peers_latency.get(&p) {
                Some(v) => Some(*v),
                None => None,
            };
            let better: bool = match best {
                None => true,
                Some((_, None)) => false,
                Some((_, Some(b))) => match lat {
                    None => true,
                    Some(a) => a < b,
                },
            };
            if better {
                proof {
                    match best {
                        Some((q, _)) => {
                            assert forall|j: int|
                                0 <= j < k + 1 && !avoid.contains(#[trigger] list[j]) implies no_worse(
                                rtt,
                                p,
                                list[j],
                            ) by {
                                if j < k {
                                    assert(no_worse(rtt, q, list[j]));
                                }
                            }
                            assert forall|j: int|
                                0 <= j < k && !avoid.contains(#[trigger] list[j]) implies !no_worse(
                                rtt,
                                list[j],
                                p,
                            ) by {
                                assert(no_worse(rtt, q, list[j]));
                            }
                        },
                        None => {},
                    }
                    at = k as int;
                }
                best = Some((p, lat));
            }
        }
        k += 1;
    }
    match best {
        Some((p, lat)) => {
            proof {
                assert(is_pick(list, avoid, rtt, at));
                let c: int = choose|c: int| is_pick(list, avoid, rtt, c);
                lemma_pick_unique(list, avoid, rtt, at, c);
            }
            data.peers_taken.insert(p);
            let latency: u16 = match lat {
                Some(v) => v,
                None => 0,
            };
            Some((p, latency))
        },
        None => {
            proof {
                if exists|c: int| is_pick(list, avoid, rtt, c) {
                    let c: int = choose|c: int| is_pick(list, avoid, rtt, c);
                    assert(avoid.contains(list[c]));
                }
            }
            None
        },
    }
}

/// Takes the latency `new_latency_ms` as the estimate of peer `ip`.
pub fn update_peer_latency(new_latency_ms: u16, ip: u32, data: &mut Shared)
    ensures
        final(data)@ == (LeechState {
            rtt: old(data)@.rtt.insert(ip, new_latency_ms),
            ..old(data)@
        }),
{
    data.peers_latency.insert(ip, new_latency_ms);
}

/// Takes note that a reply of peer `ip` took `elapsed_ms` milliseconds, as
/// `rtt_after` says.
pub fn observe_latency(elapsed_ms: u64, ip: u32, data: &mut Shared)
    ensures
        final(data)@ == (LeechState {
            rtt: rtt_after(old(data)@.rtt, ip, elapsed_ms),
            ..old(data)@
        }),
{
    let current: u16 = match data.peers_latency.get(&ip) {
        Some(v) => *v,
        None => 0,
    };
    let twice: u128 = 2 * (elapsed_ms as u128);
    if twice >= 3 * (current as u128) || twice <= current as u128 {
        update_peer_latency((elapsed_ms % 0x1_0000) as u16, ip, data);
    }
}

/// The datagram that asks for block `chunk_id` of the file `filename`.
/// Fails where the name is too long for a datagram or not plain ASCII.
pub fn request_chunk(chunk_id: u32, filename: &str) -> (r: Result<Vec<u8>, FsnpError>)
    ensures
        match r {
            Ok(bytes) => filename.spec_bytes().len() <= MAX_NAME_SIZE && ascii_safe(
                filename.spec_bytes(),
            ) && bytes@ == request_for(chunk_id, filename.spec_bytes()).wire(),
            Err(e) => if filename.spec_bytes().len() > MAX_NAME_SIZE {
                e == FsnpError::NameTooLong
            } else {
                e == FsnpError::BadName && !ascii_safe(filename.spec_bytes())
            },
        },
{
    Protocol::request(chunk_id, filename).to_datagram()
}

/// The control frame that tells the tracker that block `chunk_id` of the
/// file `filename` is now held here. Fails with `BadLength` where the name
/// is too long for a frame.
pub fn update_tracker_chunks(chunk_id: u32, filename: &str) -> (r: Result<Vec<u8>, FstpError>)
    ensures
        filename.spec_bytes().len() + 8 <= MAX_DATA_SIZE ==> r is Ok && r.unwrap()@
            == announce_frame(chunk_id, filename@),
        filename.spec_bytes().len() + 8 > MAX_DATA_SIZE ==> r == Err::<Vec<u8>, FstpError>(
            FstpError::BadLength,
        ),
{
    let data: Vec<u8> = match encode_add_block(chunk_id, filename) {
        Ok(d) => d,
        Err(e) => {
            return Err(e);
        },
    };
    proof {
        crate::fstp::lemma_add_block_roundtrip(chunk_id, filename@);
    }
    let msg: FstpMessage = match FstpMessage::new(Flag::AddBlock, data.as_slice()) {
        Ok(m) => m,
        Err(e) => {
            return Err(e);
        },
    };
    msg.as_bytes()
}

impl Attempt {
    /// The block is given up.
    fn abort(&mut self, shared: &mut Shared) -> (action: Action)
        ensures
            (final(self)@, final(shared)@, action@) == aborted(old(self)@, old(shared)@),
    {
        self.phase = Phase::Idle;
        shared.failed.insert(self.chunk_id);
        Action::GiveUp
    }

    /// The same peer is asked again.
    fn resend(&mut self, shared: &mut Shared) -> (action: Action)
        ensures
            (final(self)@, final(shared)@, action@) == resent(old(self)@, old(shared)@),
    {
        match request_chunk(self.chunk_id, shared.filename.as_str()) {
            Ok(datagram) => Action::Request {
                peer: self.peer,
                timeout_ms: timeout_ms(self.latency_ms),
                datagram,
            },
            Err(_) => self.abort(shared),
        }
    }

    /// A fresh peer is picked and asked.
    fn repick(&mut self, shared: &mut Shared) -> (action: Action)
        ensures
            (final(self)@, final(shared)@, action@) == repicked(old(self)@, old(shared)@),
    {
        self.retries = 0;
        let datagram: Vec<u8> = match request_chunk(self.chunk_id, shared.filename.as_str()) {
            Ok(d) => d,
            Err(_) => {
                return self.abort(shared);
            },
        };
        match peer_picker(self.chunk_id, &self.avoid, shared) {
            Some((peer, latency)) => {
                self.phase = Phase::AwaitReply;
                self.peer = peer;
                self.latency_ms = latency;
                Action::Request { peer, timeout_ms: timeout_ms(latency), datagram }
            },
            None => self.abort(shared),
        }
    }

    /// Starts the work on block `chunk_id`: picks the first peer to ask, as
    /// `repicked` says of a fresh attempt.
    pub fn begin(chunk_id: u32, shared: &mut Shared) -> (r: (Attempt, Action))
        ensures
            (r.0@, final(shared)@, r.1@) == repicked(fresh(chunk_id), old(shared)@),
            old(shared).well_formed() && chunk_id < old(shared)@.block_count()
                ==> final(shared).well_formed(),
            r.0.chunk_id == chunk_id,
    {
        let mut attempt = Attempt {
            phase: Phase::Idle,
            chunk_id,
            peer: 0,
            latency_ms: 0,
            retries: 0,
            avoid: HashSet::new(),
            elapsed_ms: 0,
        };
        assert(attempt@ == fresh(chunk_id));
        let action: Action = attempt.repick(shared);
        (attempt, action)
    }

    /// Takes an event and says what to do next, as `stepped` says.
    pub fn step(&mut self, shared: &mut Shared, event: Event) -> (action: Action)
        ensures
            (final(self)@, final(shared)@, action@) == stepped(old(self)@, old(shared)@, event),
            old(shared).well_formed() && old(self).chunk_id < old(shared)@.block_count()
                ==> final(shared).well_formed(),
            final(self).chunk_id == old(self).chunk_id,
    {
        match self.phase {
            Phase::Idle => Action::Wait,
            Phase::AwaitReply => match event {
                Event::Datagram { bytes, elapsed_ms } => {
                    match Protocol::read_datagram(bytes.as_slice()) {
                        Ok(reply) => {
                            if reply.action == ACTION_REPLY && reply.chunk_id == self.chunk_id
                                && crate::bytes::same_text(
                                reply.filename,
                                shared.filename.as_str(),
                            ) {
                                proof {
                                    crate::bytes::lemma_text_roundtrip(reply.filename@);
                                    crate::bytes::lemma_text_roundtrip(shared.filename@);
                                }
                                let mut payload: Vec<u8> = Vec::new();
                                let mut i: usize = 0;
                                while i < reply.len_chunk as usize
                                    invariant
                                        i <= reply.len_chunk <= MAX_CHUNK_SIZE,
                                        payload@ == reply.chunk_data@.subrange(0, i as int),
                                    decreases reply.len_chunk - i,
                                {
                                    payload.push(reply.chunk_data[i]);
                                    i += 1;
                                    assert(payload@ =~= reply.chunk_data@.subrange(0, i as int));
                                }
                                self.phase = Phase::Commit;
                                self.elapsed_ms = elapsed_ms;
                                Action::Store { index: self.chunk_id, payload }
                            } else {
                                proof {
                                    crate::bytes::lemma_text_roundtrip(reply.filename@);
                                    crate::bytes::lemma_text_roundtrip(shared.filename@);
                                }
                                Action::Wait
                            }
                        },
                        Err(_) => self.resend(shared),
                    }
                },
                Event::Timeout => self.strike(shared),
                Event::SendFailed => self.strike(shared),
                Event::Stored => Action::Wait,
                Event::StoreFailed => Action::Wait,
            },
            Phase::Commit => match event {
                Event::Stored => {
                    match update_tracker_chunks(self.chunk_id, shared.filename.as_str()) {
                        Ok(frame) => {
                            self.phase = Phase::Idle;
                            observe_latency(self.elapsed_ms, self.peer, shared);
                            shared.received.insert(self.chunk_id);
                            Action::Announce { frame }
                        },
                        Err(_) => self.abort(shared),
                    }
                },
                Event::StoreFailed => self.abort(shared),
                Event::Datagram { bytes, elapsed_ms } => Action::Wait,
                Event::Timeout => Action::Wait,
                Event::SendFailed => Action::Wait,
            },
        }
    }

    /// A try has failed.
    fn strike(&mut self, shared: &mut Shared) -> (action: Action)
        ensures
            (final(self)@, final(shared)@, action@) == struck(old(self)@, old(shared)@),
    {
        if self.retries >= MAX_RETRIES - 1 {
            self.avoid.insert(self.peer);
            self.repick(shared)
        } else {
            self.retries = self.retries + 1;
            self.resend(shared)
        }
    }
}

} // verus!
