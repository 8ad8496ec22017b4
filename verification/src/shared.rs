//! The state that the workers of one download share: who holds which block,
//! the order in which blocks are claimed, and what has been learnt of the
//! peers so far.

use vstd::prelude::*;
use std::collections::HashMap;
use std::collections::HashSet;
use crate::peers::{add_missing, lemma_with_missing, with_missing};
use crate::peers_with_blocks::lists_view;

verus! {

broadcast use vstd::std_specs::hash::group_hash_axioms;

/// Port on which peers serve blocks.
pub const PORT: u16 = 9090;

/// Most workers that one download runs.
pub const MAX_LEECH_THREADS: u8 = 5;

/// The shared state of one download.
///
/// `peers_to_chunk[i]` lists the peers that can serve block `i`, and
/// `rarity_ids` is the order in which the blocks are claimed.
#[derive(Debug)]
pub struct Shared {
    pub filename: String,
    pub rarity_ids: Vec<u32>,
    pub peers_to_chunk: Vec<Vec<u32>>,
    pub peers_taken: HashSet<u32>,
    pub peers_latency: HashMap<u32, u16>,
    pub next_index: u32,
    pub peer_count: usize,
    pub received: HashSet<u32>,
    pub failed: HashSet<u32>,
}

/// What the shared state says.
pub struct LeechState {
    pub file_name: Seq<char>,
    pub holders: Seq<Seq<u32>>,
    pub order: Seq<u32>,
    pub next_index: nat,
    pub taken: Set<u32>,
    pub rtt: Map<u32, u16>,
    pub peer_count: nat,
    pub received: Set<u32>,
    pub failed: Set<u32>,
}

/// Whether block `x` comes before block `y` in a rarest-first order: it has
/// fewer holders, or as many and the lower index.
pub open spec fn rarer(holders: Seq<Seq<u32>>, x: int, y: int) -> bool {
    holders[x].len() < holders[y].len() || (holders[x].len() == holders[y].len() && x < y)
}

/// Whether `order` lists the first `count` blocks, each once, rarest first.
pub open spec fn rarest_first_of(holders: Seq<Seq<u32>>, order: Seq<u32>, count: int) -> bool {
    &&& order.len() == count
    &&& forall|k: int| 0 <= k < order.len() ==> (#[trigger] order[k]) < count
    &&& forall|a: int, b: int|
        0 <= a < b < order.len() ==> rarer(
            holders,
            #[trigger] order[a] as int,
            #[trigger] order[b] as int,
        )
    &&& forall|x: u32| 0 <= x < count ==> order.contains(x)
}

/// Whether `order` lists every block, each once, rarest first.
pub open spec fn rarest_first(holders: Seq<Seq<u32>>, order: Seq<u32>) -> bool {
    rarest_first_of(holders, order, holders.len() as int)
}

/// The peers that hold a block among the first `count` blocks.
pub open spec fn peers_of(holders: Seq<Seq<u32>>, count: int) -> Set<u32> {
    Set::new(
        |p: u32|
            exists|i: int|
                0 <= i < count && i < holders.len() && (#[trigger] holders[i]).contains(p),
    )
}

/// The peers that hold any block.
pub open spec fn all_peers(holders: Seq<Seq<u32>>) -> Set<u32> {
    peers_of(holders, holders.len() as int)
}

impl LeechState {
    /// The number of blocks.
    pub open spec fn block_count(self) -> nat {
        self.holders.len()
    }

    /// The state is sound: no list names a peer twice, the claim order is
    /// rarest first, the claim counter is within it, the peer count is the
    /// number of peers, and only blocks of the file are marked.
    pub open spec fn well_formed(self) -> bool {
        &&& self.holders.len() <= u32::MAX
        &&& forall|i: int| 0 <= i < self.holders.len() ==> (#[trigger] self.holders[i]).no_duplicates()
        &&& rarest_first(self.holders, self.order)
        &&& self.next_index <= self.holders.len()
        &&& self.peer_count == all_peers(self.holders).len()
        &&& forall|b: u32| self.received.contains(b) ==> b < self.holders.len()
        &&& forall|b: u32| self.failed.contains(b) ==> b < self.holders.len()
    }

    /// Whether a block is left to claim. In a sound state that is so until
    /// every block has been claimed.
    pub open spec fn can_claim(self) -> bool {
        self.next_index < self.order.len() && self.next_index < u32::MAX
    }

    /// The block that the `k`-th claim of the download takes.
    pub open spec fn claim_at(self, k: int) -> u32 {
        self.order[k]
    }

    /// Whether every block has been received.
    pub open spec fn done(self) -> bool {
        self.received.len() == self.holders.len()
    }
}

/// Blocks are claimed rarest first: of two claims, the earlier takes a block
/// with at most as many holders as the later, and on a tie the lower index.
pub proof fn lemma_rarest_first(s: LeechState, earlier: int, later: int)
    requires
        s.well_formed(),
        0 <= earlier < later < s.block_count(),
    ensures
        s.holders[s.claim_at(earlier) as int].len() <= s.holders[s.claim_at(later) as int].len(),
        s.holders[s.claim_at(earlier) as int].len() == s.holders[s.claim_at(later) as int].len()
            ==> s.claim_at(earlier) < s.claim_at(later),
        s.claim_at(earlier) != s.claim_at(later),
{
    assert(rarer(s.holders, s.order[earlier] as int, s.order[later] as int));
}

/// Each block is claimed exactly once in a whole pass over the order.
pub proof fn lemma_every_block_claimed(s: LeechState, block: u32)
    requires
        s.well_formed(),
        block < s.block_count(),
    ensures
        exists|k: int| 0 <= k < s.block_count() && s.claim_at(k) == block,
{
    assert(s.order.contains(block));
    let k: int = choose|k: int| 0 <= k < s.order.len() && s.order[k] == block;
    assert(s.claim_at(k) == block);
}

/// The blocks of `holders`, rarest first; ties go to the lower index.
pub fn ord_chunks_by_rarity(holders: &Vec<Vec<u32>>) -> (r: Vec<u32>)
    requires
        holders@.len() <= u32::MAX,
    ensures
        rarest_first(lists_view(holders@), r@),
{
    let ghost h: Seq<Seq<u32>> = lists_view(holders@);
    let n: u32 = holders.len() as u32;
    let mut order: Vec<u32> = Vec::new();
    let mut b: u32 = 0;
    while b < n
        invariant
            b <= n,
            n == holders@.len(),
            h == lists_view(holders@),
            rarest_first_of(h, order@, b as int),
        decreases n - b,
    {
        let count: usize = holders[b as usize].len();
        assert(h[b as int].len() == count);
        let mut pos: usize = 0;
        while pos < order.len() && holders[order[pos] as usize].len() <= count
            invariant
                pos <= order@.len(),
                b < n,
                n == holders@.len(),
                h == lists_view(holders@),
                rarest_first_of(h, order@, b as int),
                count == h[b as int].len(),
                forall|a: int| 0 <= a < pos ==> h[(#[trigger] order@[a]) as int].len() <= count,
            decreases order@.len() - pos,
        {
            pos += 1;
        }
        let ghost before: Seq<u32> = order@;
        order.insert(pos, b);
        proof {
            let now: Seq<u32> = order@;
            assert(now == before.insert(pos as int, b));
            assert forall|x: int, y: int| 0 <= x < y < now.len() implies rarer(
                h,
                #[trigger] now[x] as int,
                #[trigger] now[y] as int,
            ) by {
                if y < pos {
                    assert(now[x] == before[x] && now[y] == before[y]);
                } else if y == pos {
                    assert(now[x] == before[x]);
                    assert(before[x] < b);
                } else {
                    assert(now[y] == before[y - 1]);
                    if x < pos {
                        assert(now[x] == before[x]);
                    } else if x == pos {
                        // The block at `pos` before the insert has more holders
                        // than the new one, and so has every block behind it.
                        assert(h[before[pos as int] as int].len() > count);
                        if y - 1 > pos {
                            assert(rarer(h, before[pos as int] as int, before[y - 1] as int));
                        }
                    } else {
                        assert(now[x] == before[x - 1]);
                    }
                }
            }
            assert forall|x: u32| 0 <= x < b + 1 implies now.contains(x) by {
                if x == b {
                    assert(now[pos as int] == b);
                } else {
                    assert(before.contains(x));
                    let k: int = choose|k: int| 0 <= k < before.len() && before[k] == x;
                    if k < pos {
                        assert(now[k] == x);
                    } else {
                        assert(now[k + 1] == x);
                    }
                }
            }
            assert forall|k: int| 0 <= k < now.len() implies (#[trigger] now[k]) < b + 1 by {
                if k < pos {
                    assert(now[k] == before[k]);
                } else if k > pos {
                    assert(now[k] == before[k - 1]);
                }
            }
        }
        b += 1;
    }
    order
}

/// The number of peers that hold any block.
pub fn peer_count(holders: &Vec<Vec<u32>>) -> (r: usize)
    ensures
        r == all_peers(lists_view(holders@)).len(),
{
    let ghost h: Seq<Seq<u32>> = lists_view(holders@);
    let mut seen: HashSet<u32> = HashSet::new();
    let mut i: usize = 0;
    assert(seen@ =~= peers_of(h, 0));
    while i < holders.len()
        invariant
            i <= holders@.len(),
            h == lists_view(holders@),
            seen@ == peers_of(h, i as int),
        decreases holders@.len() - i,
    {
        let list: &Vec<u32> = &holders[i];
        assert(h[i as int] == list@);
        let mut j: usize = 0;
        while j < list.len()
            invariant
                j <= list@.len(),
                i < holders@.len(),
                h == lists_view(holders@),
                h[i as int] == list@,
                forall|p: u32|
                    seen@.contains(p) <==> peers_of(h, i as int).contains(p) || exists|k: int|
                        0 <= k < j && list@[k] == p,
            decreases list@.len() - j,
        {
            let ghost before: Set<u32> = seen@;
            seen.insert(list[j]);
            j += 1;
            assert forall|p: u32|
                seen@.contains(p) <==> peers_of(h, i as int).contains(p) || exists|k: int|
                    0 <= k < j && list@[k] == p by {
                if p == list@[j - 1] {
                } else if exists|k: int| 0 <= k < j && list@[k] == p {
                    let k: int = choose|k: int| 0 <= k < j && list@[k] == p;
                    assert(k < j - 1);
                }
            }
        }
        proof {
            assert forall|p: u32| seen@.contains(p) <==> peers_of(h, i + 1).contains(p) by {
                if peers_of(h, i as int).contains(p) {
                    let a: int = choose|a: int|
                        0 <= a < i && a < h.len() && (#[trigger] h[a]).contains(p);
                    assert(0 <= a < i + 1 && h[a].contains(p));
                }
                if exists|k: int| 0 <= k < list@.len() && list@[k] == p {
                    assert(h[i as int].contains(p));
                }
                if peers_of(h, i + 1).contains(p) {
                    let a: int = choose|a: int|
                        0 <= a < i + 1 && a < h.len() && (#[trigger] h[a]).contains(p);
                    if a == i {
                        let k: int = choose|k: int| 0 <= k < list@.len() && list@[k] == p;
                    }
                }
            }
            assert(seen@ =~= peers_of(h, i + 1));
        }
        i += 1;
    }
    seen.len()
}

impl Shared {
    /// The state is sound, as `LeechState::well_formed` says.
    pub open spec fn well_formed(&self) -> bool {
        self@.well_formed()
    }

    /// The state of a download of the file `f` at its start. In
    /// `p_to_c[i]` stand the peers that can serve block `i`; a peer that is
    /// named twice for a block counts once.
    pub fn new(f: String, p_to_c: Vec<Vec<u32>>) -> (r: Shared)
        requires
            p_to_c@.len() <= u32::MAX,
        ensures
            r.well_formed(),
            r@.file_name == f@,
            r@.holders.len() == p_to_c@.len(),
            forall|i: int|
                0 <= i < p_to_c@.len() ==> (#[trigger] r@.holders[i]) == with_missing(
                    Seq::empty(),
                    p_to_c@[i]@,
                ),
            r@.next_index == 0,
            r@.taken == Set::<u32>::empty(),
            r@.rtt == Map::<u32, u16>::empty(),
            r@.received == Set::<u32>::empty(),
            r@.failed == Set::<u32>::empty(),
    {
        let mut holders: Vec<Vec<u32>> = Vec::new();
        let mut i: usize = 0;
        while i < p_to_c.len()
            invariant
                i <= p_to_c@.len(),
                holders@.len() == i,
                forall|k: int|
                    0 <= k < i ==> (#[trigger] holders@[k])@ == with_missing(
                        Seq::empty(),
                        p_to_c@[k]@,
                    ),
            decreases p_to_c@.len() - i,
        {
            let mut list: Vec<u32> = Vec::new();
            add_missing(&mut list, &p_to_c[i]);
            holders.push(list);
            i += 1;
        }
        let rarity_ids: Vec<u32> = ord_chunks_by_rarity(&holders);
        let counter: usize = peer_count(&holders);
        let r = Shared {
            filename: f,
            rarity_ids,
            peers_to_chunk: holders,
            peers_taken: HashSet::new(),
            peers_latency: HashMap::new(),
            next_index: 0,
            peer_count: counter,
            received: HashSet::new(),
            failed: HashSet::new(),
        };
        proof {
            assert forall|k: int| 0 <= k < r@.holders.len() implies (#[trigger] r@.holders[k])
                == with_missing(Seq::empty(), p_to_c@[k]@) && r@.holders[k].no_duplicates() by {
                lemma_with_missing(Seq::empty(), p_to_c@[k]@);
            }
        }
        r
    }

    /// Claims the next block, rarest first; none when every block has been
    /// claimed.
    pub fn claim(&mut self) -> (r: Option<u32>)
        ensures
            old(self).well_formed() ==> final(self).well_formed(),
            old(self)@.can_claim() ==> r == Some(old(self)@.claim_at(old(self)@.next_index as int))
                && final(self)@ == (LeechState {
                next_index: old(self)@.next_index + 1,
                ..old(self)@
            }),
            !old(self)@.can_claim() ==> r is None && final(self)@ == old(self)@,
            old(self).well_formed() && r is Some ==> r.unwrap() < old(self)@.block_count(),
    {
        if (self.next_index as usize) < self.rarity_ids.len() && self.next_index < u32::MAX {
            let block: u32 = self.rarity_ids[self.next_index as usize];
            self.next_index = self.next_index + 1;
            Some(block)
        } else {
            None
        }
    }

    /// Marks block `id` as received or as failed.
    pub fn record(&mut self, id: u32, success: bool)
        ensures
            old(self).well_formed() && id < old(self)@.block_count() ==> final(self).well_formed(),
            success ==> final(self)@ == (LeechState {
                received: old(self)@.received.insert(id),
                ..old(self)@
            }),
            !success ==> final(self)@ == (LeechState {
                failed: old(self)@.failed.insert(id),
                ..old(self)@
            }),
    {
        if success {
            self.received.insert(id);
        } else {
            self.failed.insert(id);
        }
    }

    /// Whether every block has been received.
    pub fn is_done(&self) -> (r: bool)
        ensures
            r == self@.done(),
    {
        self.received.len() == self.peers_to_chunk.len()
    }

    /// The number of workers to run: one for each peer, up to
    /// `MAX_LEECH_THREADS`.
    pub fn worker_count(&self) -> (r: usize)
        ensures
            r == (if self@.peer_count < MAX_LEECH_THREADS {
                self@.peer_count
            } else {
                MAX_LEECH_THREADS as nat
            }),
    {
        if self.peer_count < MAX_LEECH_THREADS as usize {
            self.peer_count
        } else {
            MAX_LEECH_THREADS as usize
        }
    }
}

impl View for Shared {
    type V = LeechState;

    open spec fn view(&self) -> LeechState {
        LeechState {
            file_name: self.filename@,
            holders: lists_view(self.peers_to_chunk@),
            order: self.rarity_ids@,
            next_index: self.next_index as nat,
            taken: self.peers_taken@,
            rtt: self.peers_latency@,
            peer_count: self.peer_count as nat,
            received: self.received@,
            failed: self.failed@,
        }
    }
}

} // verus!
