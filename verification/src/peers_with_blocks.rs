//! The tracker's answer to a file lookup: who holds the whole file, and
//! who holds which block.
//!
//! Layout: file size (4, little-endian) | number of full holders (2,
//! big-endian) | their addresses (4 each, big-endian) | then for each block
//! of the file, in order: number of holders (4, big-endian) | their
//! addresses.

use vstd::prelude::*;
use crate::bytes::{
    lemma_u16_bytes_roundtrip, lemma_u16_roundtrip, lemma_u32_bytes_roundtrip,
    lemma_u32_roundtrip, push_u16_be, push_u32_be, push_u32_le, read_u16_be, read_u32_be,
    read_u32_le, spec_u16_be, spec_u16_from_be, spec_u32_be, spec_u32_from_be, spec_u32_from_le,
    spec_u32_le,
};
use crate::file_meta::{block_count, block_count_of};
use crate::fstp::FstpError;
use crate::peers::{add_missing, has_no_duplicates, lemma_with_missing, with_missing};

verus! {

/// The answer to a lookup. `peers_with_blocks[i]` lists the peers that are
/// known to hold block `i` without holding the whole file.
#[derive(Debug)]
pub struct PeersWithFile {
    pub file_size: u32,
    pub n_blocks: u32,
    pub peers_with_file: Vec<u32>,
    pub peers_with_blocks: Vec<Vec<u32>>,
}

/// What an answer says.
pub struct Availability {
    pub file_size: u32,
    pub full: Seq<u32>,
    pub blocks: Seq<Seq<u32>>,
}

/// The bytes of a list of addresses.
pub open spec fn addrs_wire(s: Seq<u32>) -> Seq<u8>
    decreases s.len(),
{
    if s.len() == 0 {
        Seq::empty()
    } else {
        addrs_wire(s.drop_last()) + spec_u32_be(s.last())
    }
}

/// The `count` addresses at the start of `b`.
pub open spec fn parse_addrs(b: Seq<u8>, count: int) -> Seq<u32> {
    Seq::new(count as nat, |i: int| spec_u32_from_be(b.subrange(4 * i, 4 * i + 4)))
}

/// The bytes of the per-block lists: for each, its length and its addresses.
pub open spec fn groups_wire(g: Seq<Seq<u32>>) -> Seq<u8>
    decreases g.len(),
{
    if g.len() == 0 {
        Seq::empty()
    } else {
        spec_u32_be(g[0].len() as u32) + addrs_wire(g[0]) + groups_wire(g.drop_first())
    }
}

/// The `count` per-block lists that fill `b` from its first byte to its
/// last, if `b` is made of that many lists, none of which names a peer
/// twice.
pub open spec fn parse_groups(b: Seq<u8>, count: nat) -> Option<Seq<Seq<u32>>>
    decreases count,
{
    if count == 0 {
        if b.len() == 0 {
            Some(Seq::empty())
        } else {
            None
        }
    } else if b.len() < 4 {
        None
    } else {
        let k = spec_u32_from_be(b.subrange(0, 4)) as int;
        if 4 + 4 * k > b.len() {
            None
        } else if !parse_addrs(b.subrange(4, 4 + 4 * k), k).no_duplicates() {
            None
        } else {
            match parse_groups(b.subrange(4 + 4 * k, b.len() as int), (count - 1) as nat) {
                Some(rest) => Some(seq![parse_addrs(b.subrange(4, 4 + 4 * k), k)] + rest),
                None => None,
            }
        }
    }
}

/// Whether no list of `g` names a peer twice and each is short enough for
/// its length field.
pub open spec fn groups_well_formed(g: Seq<Seq<u32>>) -> bool {
    forall|i: int|
        0 <= i < g.len() ==> (#[trigger] g[i]).no_duplicates() && g[i].len() <= u32::MAX
}

impl Availability {
    /// The answer keeps the rules of the format: there is one list for each
    /// block of a file of this size, no list names a peer twice, and each is
    /// short enough for its length field.
    pub open spec fn well_formed(self) -> bool {
        &&& self.full.len() <= u16::MAX
        &&& self.full.no_duplicates()
        &&& self.blocks.len() == block_count_of(self.file_size as int)
        &&& groups_well_formed(self.blocks)
    }

    /// The bytes that go on the wire.
    pub open spec fn wire(self) -> Seq<u8> {
        spec_u32_le(self.file_size) + spec_u16_be(self.full.len() as u16) + addrs_wire(self.full)
            + groups_wire(self.blocks)
    }

    /// The peers that can serve block `i`: the full holders and the holders
    /// of that block.
    pub open spec fn servers_of(self, i: int) -> Set<u32> {
        self.full.to_set().union(self.blocks[i].to_set())
    }

    /// Whether nobody is known to hold any of the file.
    pub open spec fn unavailable(self) -> bool {
        &&& self.full.len() == 0
        &&& forall|i: int| 0 <= i < self.blocks.len() ==> (#[trigger] self.blocks[i]).len() == 0
    }
}

/// The answer that the data `b` spells, if it is one: a header, the full
/// holders, and one list for each block of a file of the declared size, to
/// the last byte of `b`; no list names a peer twice.
pub open spec fn parse_availability(b: Seq<u8>) -> Option<Availability> {
    if b.len() < 6 {
        None
    } else {
        let file_size = spec_u32_from_le(b.subrange(0, 4));
        let fc = spec_u16_from_be(b.subrange(4, 6)) as int;
        if 6 + 4 * fc > b.len() {
            None
        } else if !parse_addrs(b.subrange(6, 6 + 4 * fc), fc).no_duplicates() {
            None
        } else {
            match parse_groups(
                b.subrange(6 + 4 * fc, b.len() as int),
                block_count_of(file_size as int) as nat,
            ) {
                Some(g) => Some(
                    Availability {
                        file_size,
                        full: parse_addrs(b.subrange(6, 6 + 4 * fc), fc),
                        blocks: g,
                    },
                ),
                None => None,
            }
        }
    }
}

/// The bytes of a list of addresses are four for each, and the addresses
/// are read back from them, whatever follows.
pub proof fn lemma_addrs_roundtrip(s: Seq<u32>, rest: Seq<u8>)
    ensures
        addrs_wire(s).len() == 4 * s.len(),
        parse_addrs(addrs_wire(s) + rest, s.len() as int) == s,
    decreases s.len(),
{
    if s.len() == 0 {
        assert(parse_addrs(addrs_wire(s) + rest, 0) =~= s);
    } else {
        let front: Seq<u32> = s.drop_last();
        let tail: Seq<u8> = spec_u32_be(s.last()) + rest;
        lemma_addrs_roundtrip(front, tail);
        lemma_u32_roundtrip(s.last());
        let b: Seq<u8> = addrs_wire(s) + rest;
        assert(b =~= addrs_wire(front) + tail);
        let n: int = s.len() as int;
        assert(b.subrange(4 * (n - 1), 4 * (n - 1) + 4) =~= spec_u32_be(s.last()));
        assert(parse_addrs(b, n) =~= s) by {
            assert forall|i: int| 0 <= i < n implies parse_addrs(b, n)[i] == s[i] by {
                if i < n - 1 {
                    assert(parse_addrs(b, n - 1)[i] == front[i]);
                }
            }
        }
    }
}

/// The addresses that were read are written back as the bytes they were
/// read from.
pub proof fn lemma_addrs_bytes_roundtrip(b: Seq<u8>, count: int)
    requires
        0 <= count,
        b.len() == 4 * count,
    ensures
        addrs_wire(parse_addrs(b, count)) == b,
    decreases count,
{
    let s: Seq<u32> = parse_addrs(b, count);
    if count == 0 {
        assert(addrs_wire(s) =~= b);
    } else {
        let front_bytes: Seq<u8> = b.subrange(0, 4 * (count - 1));
        lemma_addrs_bytes_roundtrip(front_bytes, count - 1);
        assert(s.drop_last() =~= parse_addrs(front_bytes, count - 1)) by {
            assert forall|i: int| 0 <= i < count - 1 implies s.drop_last()[i] == parse_addrs(
                front_bytes,
                count - 1,
            )[i] by {
                assert(b.subrange(4 * i, 4 * i + 4) =~= front_bytes.subrange(4 * i, 4 * i + 4));
            }
        }
        let last_bytes: Seq<u8> = b.subrange(4 * (count - 1), 4 * (count - 1) + 4);
        lemma_u32_bytes_roundtrip(last_bytes);
        assert(s.last() == spec_u32_from_be(last_bytes));
        assert(addrs_wire(s) =~= front_bytes + last_bytes);
        assert(front_bytes + last_bytes =~= b);
    }
}

/// Written per-block lists are read back as they were.
pub proof fn lemma_groups_roundtrip(g: Seq<Seq<u32>>)
    requires
        groups_well_formed(g),
    ensures
        parse_groups(groups_wire(g), g.len()) == Some(g),
    decreases g.len(),
{
    if g.len() == 0 {
    } else {
        let rest: Seq<Seq<u32>> = g.drop_first();
        assert(groups_well_formed(rest)) by {
            assert forall|i: int| 0 <= i < rest.len() implies (#[trigger] rest[i]).no_duplicates()
                && rest[i].len() <= u32::MAX by {
                assert(rest[i] == g[i + 1]);
            }
        }
        lemma_groups_roundtrip(rest);
        let b: Seq<u8> = groups_wire(g);
        let k: int = g[0].len() as int;
        lemma_u32_roundtrip(k as u32);
        lemma_addrs_roundtrip(g[0], Seq::empty());
        assert(addrs_wire(g[0]) + Seq::<u8>::empty() =~= addrs_wire(g[0]));
        assert(b.subrange(0, 4) =~= spec_u32_be(k as u32));
        assert(b.subrange(4, 4 + 4 * k) =~= addrs_wire(g[0]));
        assert(b.subrange(4 + 4 * k, b.len() as int) =~= groups_wire(rest));
        assert(seq![g[0]] + rest =~= g);
    }
}

/// Per-block lists that were read are well formed and are written back as
/// the bytes they were read from.
pub proof fn lemma_groups_bytes_roundtrip(b: Seq<u8>, count: nat)
    requires
        parse_groups(b, count) is Some,
    ensures
        parse_groups(b, count).unwrap().len() == count,
        groups_well_formed(parse_groups(b, count).unwrap()),
        groups_wire(parse_groups(b, count).unwrap()) == b,
    decreases count,
{
    let g: Seq<Seq<u32>> = parse_groups(b, count).unwrap();
    if count == 0 {
        assert(groups_wire(g) =~= b);
    } else {
        let k: int = spec_u32_from_be(b.subrange(0, 4)) as int;
        let first: Seq<u32> = parse_addrs(b.subrange(4, 4 + 4 * k), k);
        let tail: Seq<u8> = b.subrange(4 + 4 * k, b.len() as int);
        lemma_groups_bytes_roundtrip(tail, (count - 1) as nat);
        let rest: Seq<Seq<u32>> = parse_groups(tail, (count - 1) as nat).unwrap();
        assert(g == seq![first] + rest);
        assert(g.drop_first() =~= rest);
        assert(g[0] == first);
        assert forall|i: int| 0 <= i < g.len() implies (#[trigger] g[i]).no_duplicates()
            && g[i].len() <= u32::MAX by {
            if i > 0 {
                assert(g[i] == rest[i - 1]);
            }
        }
        lemma_u32_bytes_roundtrip(b.subrange(0, 4));
        lemma_addrs_bytes_roundtrip(b.subrange(4, 4 + 4 * k), k);
        assert(groups_wire(g) =~= b.subrange(0, 4) + b.subrange(4, 4 + 4 * k) + tail);
        assert(b.subrange(0, 4) + b.subrange(4, 4 + 4 * k) + tail =~= b);
    }
}

/// A written answer is read back as it was.
pub proof fn lemma_availability_roundtrip(a: Availability)
    requires
        a.well_formed(),
    ensures
        parse_availability(a.wire()) == Some(a),
{
    let b: Seq<u8> = a.wire();
    let fc: int = a.full.len() as int;
    lemma_u32_roundtrip(a.file_size);
    lemma_u16_roundtrip(fc as u16);
    lemma_addrs_roundtrip(a.full, Seq::empty());
    assert(addrs_wire(a.full) + Seq::<u8>::empty() =~= addrs_wire(a.full));
    lemma_groups_roundtrip(a.blocks);
    assert(b.subrange(0, 4) =~= spec_u32_le(a.file_size));
    assert(b.subrange(4, 6) =~= spec_u16_be(fc as u16));
    assert(b.subrange(6, 6 + 4 * fc) =~= addrs_wire(a.full));
    assert(b.subrange(6 + 4 * fc, b.len() as int) =~= groups_wire(a.blocks));
}

/// An answer that was read is well formed and is written back as the bytes
/// it was read from.
pub proof fn lemma_availability_bytes_roundtrip(b: Seq<u8>)
    requires
        parse_availability(b) is Some,
    ensures
        parse_availability(b).unwrap().well_formed(),
        parse_availability(b).unwrap().wire() == b,
{
    let a: Availability = parse_availability(b).unwrap();
    let fc: int = spec_u16_from_be(b.subrange(4, 6)) as int;
    let tail: Seq<u8> = b.subrange(6 + 4 * fc, b.len() as int);
    lemma_u32_bytes_roundtrip(b.subrange(0, 4));
    lemma_u16_bytes_roundtrip(b.subrange(4, 6));
    lemma_addrs_bytes_roundtrip(b.subrange(6, 6 + 4 * fc), fc);
    lemma_groups_bytes_roundtrip(tail, block_count_of(a.file_size as int) as nat);
    assert(a.wire() =~= b.subrange(0, 4) + b.subrange(4, 6) + b.subrange(6, 6 + 4 * fc) + tail);
    assert(b.subrange(0, 4) + b.subrange(4, 6) + b.subrange(6, 6 + 4 * fc) + tail =~= b);
}

/// What each list of `v` holds, in the order of `v`.
pub open spec fn lists_view(v: Seq<Vec<u32>>) -> Seq<Seq<u32>> {
    Seq::new(v.len(), |i: int| v[i]@)
}

/// Appends the bytes of the addresses of `peers`.
fn push_addrs(out: &mut Vec<u8>, peers: &Vec<u32>)
    ensures
        final(out)@ == old(out)@ + addrs_wire(peers@),
{
    let mut i: usize = 0;
    assert(peers@.subrange(0, 0) =~= Seq::<u32>::empty());
    assert(out@ =~= old(out)@ + addrs_wire(peers@.subrange(0, 0)));
    while i < peers.len()
        invariant
            i <= peers@.len(),
            out@ == old(out)@ + addrs_wire(peers@.subrange(0, i as int)),
        decreases peers@.len() - i,
    {
        push_u32_be(out, peers[i]);
        proof {
            let s: Seq<u32> = peers@.subrange(0, i + 1);
            assert(s.drop_last() =~= peers@.subrange(0, i as int));
            assert(s.last() == peers@[i as int]);
            assert(out@ =~= old(out)@ + addrs_wire(s));
        }
        i += 1;
    }
    assert(peers@.subrange(0, peers@.len() as int) =~= peers@);
}

/// Reads `count` addresses of `b` from `at` on.
fn read_addrs(b: &[u8], at: usize, count: usize) -> (r: Vec<u32>)
    requires
        at + 4 * count <= b@.len(),
    ensures
        r@ == parse_addrs(b@.subrange(at as int, at + 4 * count), count as int),
{
    let ghost part: Seq<u8> = b@.subrange(at as int, at + 4 * count);
    let total: usize = b.len();
    let mut out: Vec<u32> = Vec::new();
    let mut i: usize = 0;
    while i < count
        invariant
            i <= count,
            at + 4 * count <= b@.len() <= usize::MAX,
            part == b@.subrange(at as int, at + 4 * count),
            out@ == parse_addrs(part, count as int).subrange(0, i as int),
        decreases count - i,
    {
        let p: u32 = read_u32_be(b, at + 4 * i);
        proof {
            assert(part.subrange(4 * i, 4 * i + 4) =~= b@.subrange(at + 4 * i, at + 4 * i + 4));
        }
        out.push(p);
        i += 1;
        assert(out@ =~= parse_addrs(part, count as int).subrange(0, i as int));
    }
    assert(parse_addrs(part, count as int).subrange(0, count as int) =~= parse_addrs(
        part,
        count as int,
    ));
    out
}

impl PeersWithFile {
    /// The block count agrees with the lists, and the answer keeps the rules
    /// of the format.
    pub open spec fn well_formed(&self) -> bool {
        &&& self.n_blocks == self.peers_with_blocks@.len()
        &&& self@.well_formed()
    }

    /// An answer for a file of `file_size` bytes that names no holder yet.
    pub fn new(file_size: u32) -> (r: PeersWithFile)
        ensures
            r.well_formed(),
            r@.file_size == file_size,
            r@.unavailable(),
            r@.full == Seq::<u32>::empty(),
            r@.blocks.len() == block_count_of(file_size as int),
    {
        let n: u32 = block_count(file_size as u64) as u32;
        let mut lists: Vec<Vec<u32>> = Vec::new();
        let mut i: u32 = 0;
        while i < n
            invariant
                i <= n,
                lists@.len() == i,
                forall|k: int| 0 <= k < i ==> (#[trigger] lists@[k])@ == Seq::<u32>::empty(),
            decreases n - i,
        {
            lists.push(Vec::new());
            i += 1;
        }
        PeersWithFile {
            file_size,
            n_blocks: n,
            peers_with_file: Vec::new(),
            peers_with_blocks: lists,
        }
    }

    /// Whether the answer is well formed.
    pub fn is_well_formed(&self) -> (r: bool)
        ensures
            r == self.well_formed(),
    {
        if self.peers_with_blocks.len() as u64 != self.n_blocks as u64 {
            return false;
        }
        if self.n_blocks as u64 != block_count(self.file_size as u64) {
            return false;
        }
        if self.peers_with_file.len() > u16::MAX as usize || !has_no_duplicates(
            &self.peers_with_file,
        ) {
            return false;
        }
        let mut i: usize = 0;
        while i < self.peers_with_blocks.len()
            invariant
                i <= self.peers_with_blocks@.len(),
                forall|k: int|
                    0 <= k < i ==> (#[trigger] self@.blocks[k]).no_duplicates()
                        && self@.blocks[k].len() <= u32::MAX,
            decreases self.peers_with_blocks@.len() - i,
        {
            let list: &Vec<u32> = &self.peers_with_blocks[i];
            assert(self@.blocks[i as int] == list@);
            if list.len() as u64 > u32::MAX as u64 || !has_no_duplicates(list) {
                return false;
            }
            i += 1;
        }
        true
    }

    /// Whether nobody is known to hold any of the file.
    pub fn is_unavailable(&self) -> (r: bool)
        ensures
            r == self@.unavailable(),
    {
        if self.peers_with_file.len() != 0 {
            return false;
        }
        let mut i: usize = 0;
        while i < self.peers_with_blocks.len()
            invariant
                i <= self.peers_with_blocks@.len(),
                forall|k: int| 0 <= k < i ==> (#[trigger] self@.blocks[k]).len() == 0,
            decreases self.peers_with_blocks@.len() - i,
        {
            let list: &Vec<u32> = &self.peers_with_blocks[i];
            assert(self@.blocks[i as int] == list@);
            if list.len() != 0 {
                return false;
            }
            i += 1;
        }
        true
    }

    /// The bytes of the answer; `MalformedPayload` for an answer that is not
    /// well formed.
    pub fn to_bytes(&self) -> (r: Result<Vec<u8>, FstpError>)
        ensures
            self.well_formed() ==> r is Ok && r.unwrap()@ == self@.wire(),
            !self.well_formed() ==> r == Err::<Vec<u8>, FstpError>(FstpError::MalformedPayload),
    {
        if !self.is_well_formed() {
            return Err(FstpError::MalformedPayload);
        }
        let mut out: Vec<u8> = Vec::new();
        push_u32_le(&mut out, self.file_size);
        push_u16_be(&mut out, self.peers_with_file.len() as u16);
        push_addrs(&mut out, &self.peers_with_file);
        let ghost all: Seq<Seq<u32>> = self@.blocks;
        let n: usize = self.peers_with_blocks.len();
        // The lists are written from the last to the first, each in front of
        // those behind it.
        let mut tail: Vec<u8> = Vec::new();
        let mut i: usize = n;
        assert(all.subrange(n as int, n as int) =~= Seq::<Seq<u32>>::empty());
        while i > 0
            invariant
                i <= n,
                n == self.peers_with_blocks@.len(),
                all == self@.blocks,
                groups_well_formed(all),
                tail@ == groups_wire(all.subrange(i as int, n as int)),
            decreases i,
        {
            i -= 1;
            let list: &Vec<u32> = &self.peers_with_blocks[i];
            assert(all[i as int] == list@);
            let mut one: Vec<u8> = Vec::new();
            push_u32_be(&mut one, list.len() as u32);
            push_addrs(&mut one, list);
            crate::bytes::push_all(&mut one, tail.as_slice());
            proof {
                let s: Seq<Seq<u32>> = all.subrange(i as int, n as int);
                assert(s.drop_first() =~= all.subrange(i + 1, n as int));
                assert(s[0] == list@);
                assert(one@ =~= groups_wire(s));
            }
            tail = one;
        }
        assert(all.subrange(0, n as int) =~= all);
        crate::bytes::push_all(&mut out, tail.as_slice());
        assert(out@ =~= self@.wire());
        Ok(out)
    }

    /// Reads an answer; `MalformedPayload` where `parse_availability` finds
    /// none.
    #[verifier::loop_isolation(false)]
    pub fn from_bytes(bytes: &[u8]) -> (r: Result<PeersWithFile, FstpError>)
        ensures
            match parse_availability(bytes@) {
                Some(a) => r is Ok && r.unwrap()@ == a && r.unwrap().well_formed(),
                None => r == Err::<PeersWithFile, FstpError>(FstpError::MalformedPayload),
            },
    {
        if bytes.len() < 6 {
            return Err(FstpError::MalformedPayload);
        }
        let file_size: u32 = read_u32_le(bytes, 0);
        let fc: usize = read_u16_be(bytes, 4) as usize;
        if 6 + 4 * fc > bytes.len() {
            return Err(FstpError::MalformedPayload);
        }
        let full: Vec<u32> = read_addrs(bytes, 6, fc);
        if !has_no_duplicates(&full) {
            return Err(FstpError::MalformedPayload);
        }
        let n: u32 = block_count(file_size as u64) as u32;
        let start: usize = 6 + 4 * fc;
        let ghost body: Seq<u8> = bytes@.subrange(start as int, bytes@.len() as int);
        let mut lists: Vec<Vec<u32>> = Vec::new();
        let mut at: usize = start;
        let mut done: u32 = 0;
        assert(lists_view(lists@) =~= Seq::<Seq<u32>>::empty());
        proof {
            match parse_groups(body, n as nat) {
                Some(rest) => {
                    assert(Seq::<Seq<u32>>::empty() + rest =~= rest);
                },
                None => {},
            }
        }
        while done < n
            invariant
                done <= n,
                start <= at <= bytes@.len() <= usize::MAX,
                body == bytes@.subrange(start as int, bytes@.len() as int),
                lists@.len() == done,
                parse_groups(body, n as nat) == (match parse_groups(
                    bytes@.subrange(at as int, bytes@.len() as int),
                    (n - done) as nat,
                ) {
                    Some(rest) => Some(lists_view(lists@) + rest),
                    None => None,
                }),
            decreases n - done,
        {
            let ghost here: Seq<u8> = bytes@.subrange(at as int, bytes@.len() as int);
            let ghost before: Seq<Seq<u32>> = lists_view(lists@);
            if bytes.len() - at < 4 {
                return Err(FstpError::MalformedPayload);
            }
            let k: u32 = read_u32_be(bytes, at);
            assert(here.subrange(0, 4) =~= bytes@.subrange(at as int, at + 4));
            if (bytes.len() - at - 4) as u64 / 4 < k as u64 {
                return Err(FstpError::MalformedPayload);
            }
            let list: Vec<u32> = read_addrs(bytes, at + 4, k as usize);
            assert(here.subrange(4, 4 + 4 * k) =~= bytes@.subrange(at + 4, at + 4 + 4 * k));
            if !has_no_duplicates(&list) {
                return Err(FstpError::MalformedPayload);
            }
            let ghost first: Seq<u32> = list@;
            lists.push(list);
            at = at + 4 + 4 * (k as usize);
            done += 1;
            proof {
                let next: Seq<u8> = bytes@.subrange(at as int, bytes@.len() as int);
                assert(here.subrange(4 + 4 * k, here.len() as int) =~= next);
                assert(lists_view(lists@) =~= before + seq![first]);
                match parse_groups(next, (n - done) as nat) {
                    Some(rest) => {
                        assert(before + (seq![first] + rest) =~= lists_view(lists@) + rest);
                    },
                    None => {},
                }
            }
        }
        if at != bytes.len() {
            return Err(FstpError::MalformedPayload);
        }
        proof {
            let rest: Seq<Seq<u32>> = Seq::empty();
            assert(lists_view(lists@) + rest =~= lists_view(lists@));
            lemma_availability_bytes_roundtrip(bytes@);
        }
        Ok(PeersWithFile { file_size, n_blocks: n, peers_with_file: full, peers_with_blocks: lists })
    }

    /// For each block, the peers that can serve it: the holders of the
    /// block, followed by the full holders that are not among them.
    pub fn effective_holders(&self) -> (r: Vec<Vec<u32>>)
        ensures
            r@.len() == self@.blocks.len(),
            forall|i: int|
                0 <= i < r@.len() ==> (#[trigger] r@[i])@ == with_missing(
                    self@.blocks[i],
                    self@.full,
                ),
    {
        let mut out: Vec<Vec<u32>> = Vec::new();
        let mut i: usize = 0;
        while i < self.peers_with_blocks.len()
            invariant
                i <= self.peers_with_blocks@.len(),
                out@.len() == i,
                forall|k: int|
                    0 <= k < i ==> (#[trigger] out@[k])@ == with_missing(
                        self@.blocks[k],
                        self@.full,
                    ),
            decreases self.peers_with_blocks@.len() - i,
        {
            let mut list: Vec<u32> = self.peers_with_blocks[i].clone();
            assert(self@.blocks[i as int] == self.peers_with_blocks@[i as int]@);
            add_missing(&mut list, &self.peers_with_file);
            out.push(list);
            i += 1;
        }
        out
    }
}

impl View for PeersWithFile {
    type V = Availability;

    open spec fn view(&self) -> Availability {
        Availability {
            file_size: self.file_size,
            full: self.peers_with_file@,
            blocks: lists_view(self.peers_with_blocks@),
        }
    }
}

/// In a well-formed answer, the effective holders of a block are, as a set,
/// the full holders together with the holders of the block, and none of them
/// is listed twice.
pub proof fn lemma_effective_holders(a: Availability, i: int)
    requires
        a.well_formed(),
        0 <= i < a.blocks.len(),
    ensures
        with_missing(a.blocks[i], a.full).no_duplicates(),
        with_missing(a.blocks[i], a.full).to_set() == a.servers_of(i),
{
    lemma_with_missing(a.blocks[i], a.full);
    let r: Seq<u32> = with_missing(a.blocks[i], a.full);
    assert(r.to_set() =~= a.servers_of(i)) by {
        assert forall|p: u32| r.to_set().contains(p) <==> a.servers_of(i).contains(p) by {
            assert(r.to_set().contains(p) <==> r.contains(p));
            assert(a.full.to_set().contains(p) <==> a.full.contains(p));
            assert(a.blocks[i].to_set().contains(p) <==> a.blocks[i].contains(p));
        }
    }
}

} // verus!
