//! The tracker's catalogue: which peer announced which file, with which
//! blocks, and the answers to the directory queries.
//!
//! The catalogue is one list of records in the order of their announcement.
//! The two views of it, by peer and by file, are read off that list, so
//! they cannot disagree.

use vstd::prelude::*;
use vstd::string::*;
use crate::bytes::{same_text, string_of};
use crate::file_meta::{
    block_count, block_count_of, decode_inventory, entries_view, parse_inventory, FileMeta,
    InventoryEntry,
};
use crate::fstp::{
    decode_add_block, encode_list, list_wire, parse_add_block, parse_frame, texts_view,
    ControlMessage, Flag, FstpError, FstpMessage, MAX_DATA_SIZE,
};
use crate::peers::contains_peer;
use crate::peers_with_blocks::{Availability, PeersWithFile};
use vstd::utf8::{decode_utf8, valid_utf8};

verus! {

/// One announced file of one peer.
#[derive(Debug)]
pub struct Record {
    pub peer: u32,
    pub meta: FileMeta,
}

/// The catalogue.
#[derive(Debug)]
pub struct Tracker {
    pub records: Vec<Record>,
}

/// What the catalogue says: peers and their entries, in announcement order.
pub type Catalogue = Seq<(u32, InventoryEntry)>;

impl View for Record {
    type V = (u32, InventoryEntry);

    open spec fn view(&self) -> (u32, InventoryEntry) {
        (self.peer, self.meta@)
    }
}

impl View for Tracker {
    type V = Catalogue;

    open spec fn view(&self) -> Catalogue {
        Seq::new(self.records@.len(), |i: int| self.records@[i]@)
    }
}

/// Picks the records of peer `p`.
pub open spec fn held_by(p: u32) -> spec_fn((u32, InventoryEntry)) -> bool {
    |r: (u32, InventoryEntry)| r.0 == p
}

/// Picks the records of every peer but `p`.
pub open spec fn not_held_by(p: u32) -> spec_fn((u32, InventoryEntry)) -> bool {
    |r: (u32, InventoryEntry)| r.0 != p
}

/// Picks the records of the file `name`.
pub open spec fn named(name: Seq<char>) -> spec_fn((u32, InventoryEntry)) -> bool {
    |r: (u32, InventoryEntry)| r.1.name == name
}

/// The entry of a record.
pub open spec fn entry_of() -> spec_fn((u32, InventoryEntry)) -> InventoryEntry {
    |r: (u32, InventoryEntry)| r.1
}

/// The entries that peer `p` announced, in their order.
pub open spec fn by_peer(recs: Catalogue, p: u32) -> Seq<InventoryEntry> {
    recs.filter(held_by(p)).map_values(entry_of())
}

/// The peers that announced the file `name`, each with its entry, in their
/// order.
pub open spec fn by_file(recs: Catalogue, name: Seq<char>) -> Catalogue {
    recs.filter(named(name))
}

/// The two views agree: a peer stands with an entry under a file's name
/// exactly if the entry stands under the peer and bears that name.
pub proof fn lemma_views_agree(recs: Catalogue, p: u32, name: Seq<char>, e: InventoryEntry)
    ensures
        by_file(recs, name).contains((p, e)) <==> by_peer(recs, p).contains(e) && e.name == name,
{
    let of_peer = held_by(p);
    let of_file = named(name);
    let second = entry_of();
    let mine: Catalogue = recs.filter(of_peer);
    let named: Catalogue = recs.filter(of_file);
    if named.contains((p, e)) {
        let j: int = choose|j: int| 0 <= j < named.len() && named[j] == (p, e);
        recs.lemma_filter_pred(of_file, j);
        recs.lemma_filter_contains_rev(of_file, (p, e));
        let i: int = choose|i: int| 0 <= i < recs.len() && recs[i] == (p, e);
        recs.lemma_filter_contains(of_peer, i);
        let k: int = choose|k: int| 0 <= k < mine.len() && mine[k] == (p, e);
        assert(mine.map_values(second)[k] == e);
    }
    if by_peer(recs, p).contains(e) && e.name == name {
        let k: int = choose|k: int|
            0 <= k < mine.map_values(second).len() && mine.map_values(second)[k] == e;
        recs.lemma_filter_pred(of_peer, k);
        assert(mine[k] == (p, e));
        assert(mine.contains((p, e)));
        recs.lemma_filter_contains_rev(of_peer, (p, e));
        let i: int = choose|i: int| 0 <= i < recs.len() && recs[i] == (p, e);
        recs.lemma_filter_contains(of_file, i);
    }
}

/// Whether peer `p` has announced a file of the name `name`.
pub open spec fn announced(recs: Catalogue, p: u32, name: Seq<char>) -> bool {
    exists|i: int| 0 <= i < recs.len() && (#[trigger] recs[i]).0 == p && recs[i].1.name == name
}

/// The catalogue after peer `p` announces `e`: a first announcement of a
/// name is appended, a later one of the same name changes nothing.
pub open spec fn add_one(recs: Catalogue, p: u32, e: InventoryEntry) -> Catalogue {
    if announced(recs, p, e.name) {
        recs
    } else {
        recs.push((p, e))
    }
}

/// The catalogue after peer `p` announces the entries `es`, one by one.
pub open spec fn add_all(recs: Catalogue, p: u32, es: Seq<InventoryEntry>) -> Catalogue
    decreases es.len(),
{
    if es.len() == 0 {
        recs
    } else {
        add_one(add_all(recs, p, es.drop_last()), p, es.last())
    }
}

/// The entry `e` after block `index` is announced: its flag is set, unless
/// the file is complete or has no such block.
pub open spec fn with_block(e: InventoryEntry, index: int) -> InventoryEntry {
    if !e.complete && 0 <= index < e.have.len() {
        InventoryEntry { have: e.have.update(index, true), ..e }
    } else {
        e
    }
}

/// The catalogue after peer `p` announces block `index` of the file `name`:
/// the peer's entries of that name get the block, and nothing else changes.
pub open spec fn mark_block(recs: Catalogue, p: u32, index: int, name: Seq<char>) -> Catalogue {
    Seq::new(
        recs.len(),
        |i: int|
            if recs[i].0 == p && recs[i].1.name == name {
                (p, with_block(recs[i].1, index))
            } else {
                recs[i]
            },
    )
}

/// The catalogue without the records of peer `p`.
pub open spec fn without_peer(recs: Catalogue, p: u32) -> Catalogue {
    recs.filter(not_held_by(p))
}

/// Whether the catalogue is sound: no peer stands twice under one name, and
/// every entry is well formed.
pub open spec fn sound(recs: Catalogue) -> bool {
    &&& forall|i: int, j: int|
        0 <= i < j < recs.len() ==> !((#[trigger] recs[i]).0 == (#[trigger] recs[j]).0
            && recs[i].1.name == recs[j].1.name)
    &&& forall|i: int| 0 <= i < recs.len() ==> (#[trigger] recs[i]).1.well_formed()
}

/// Taking an inventory of well-formed entries keeps the catalogue sound.
pub proof fn lemma_add_all_sound(recs: Catalogue, p: u32, es: Seq<InventoryEntry>)
    requires
        sound(recs),
        crate::file_meta::all_well_formed(es),
    ensures
        sound(add_all(recs, p, es)),
    decreases es.len(),
{
    if es.len() > 0 {
        let front: Seq<InventoryEntry> = es.drop_last();
        assert(crate::file_meta::all_well_formed(front)) by {
            assert forall|i: int| 0 <= i < front.len() implies (#[trigger] front[i]).well_formed() by {
                assert(front[i] == es[i]);
            }
        }
        lemma_add_all_sound(recs, p, front);
        let before: Catalogue = add_all(recs, p, front);
        let e: InventoryEntry = es.last();
        assert(e == es[es.len() - 1]);
        if !announced(before, p, e.name) {
            let after: Catalogue = before.push((p, e));
            assert forall|i: int, j: int| 0 <= i < j < after.len() implies !((#[trigger] after[i]).0
                == (#[trigger] after[j]).0 && after[i].1.name == after[j].1.name) by {
                if j == before.len() {
                    assert(after[i] == before[i]);
                } else {
                    assert(after[i] == before[i] && after[j] == before[j]);
                }
            }
            assert forall|i: int| 0 <= i < after.len() implies (#[trigger] after[i]).1.well_formed() by {
                if i < before.len() {
                    assert(after[i] == before[i]);
                }
            }
        }
    }
}

/// Marking a block keeps the catalogue sound.
pub proof fn lemma_mark_block_sound(recs: Catalogue, p: u32, index: int, name: Seq<char>)
    requires
        sound(recs),
    ensures
        sound(mark_block(recs, p, index, name)),
{
    let after: Catalogue = mark_block(recs, p, index, name);
    assert forall|i: int| 0 <= i < after.len() implies (#[trigger] after[i]).1.well_formed()
        && after[i].0 == recs[i].0 && after[i].1.name == recs[i].1.name by {
        let e: InventoryEntry = recs[i].1;
        assert(e.well_formed());
        if recs[i].0 == p && e.name == name && !e.complete && 0 <= index < e.have.len() {
            assert(with_block(e, index).have.len() == e.have.len());
        }
    }
    assert forall|i: int, j: int| 0 <= i < j < after.len() implies !((#[trigger] after[i]).0
        == (#[trigger] after[j]).0 && after[i].1.name == after[j].1.name) by {
        assert(after[i].0 == recs[i].0 && after[i].1.name == recs[i].1.name);
        assert(after[j].0 == recs[j].0 && after[j].1.name == recs[j].1.name);
    }
}

/// Forgetting a peer keeps the catalogue sound, and leaves no record of the
/// peer in it.
pub proof fn lemma_without_peer_sound(recs: Catalogue, p: u32)
    requires
        sound(recs),
    ensures
        sound(without_peer(recs, p)),
        forall|i: int| 0 <= i < without_peer(recs, p).len() ==> (#[trigger] without_peer(recs, p)[i]).0 != p,
        by_peer(without_peer(recs, p), p) == Seq::<InventoryEntry>::empty(),
    decreases recs.len(),
{
    let keep = not_held_by(p);
    let after: Catalogue = recs.filter(keep);
    assert forall|i: int| 0 <= i < after.len() implies (#[trigger] after[i]).0 != p by {
        recs.lemma_filter_pred(keep, i);
    }
    if recs.len() > 0 {
        let front: Catalogue = recs.drop_last();
        let last: (u32, InventoryEntry) = recs.last();
        assert(last == recs[recs.len() - 1]);
        assert(sound(front)) by {
            assert forall|i: int, j: int| 0 <= i < j < front.len() implies !((#[trigger] front[i]).0
                == (#[trigger] front[j]).0 && front[i].1.name == front[j].1.name) by {
                assert(front[i] == recs[i] && front[j] == recs[j]);
            }
            assert forall|i: int| 0 <= i < front.len() implies (#[trigger] front[i]).1.well_formed() by {
                assert(front[i] == recs[i]);
            }
        }
        lemma_without_peer_sound(front, p);
        let kept: Catalogue = front.filter(keep);
        assert(front.push(last) =~= recs);
        front.lemma_filter_push(last, keep);
        if keep(last) {
            assert(after == kept.push(last));
            assert forall|i: int, j: int| 0 <= i < j < after.len() implies !((#[trigger] after[i]).0
                == (#[trigger] after[j]).0 && after[i].1.name == after[j].1.name) by {
                if j == kept.len() {
                    assert(after[i] == kept[i]);
                    assert(kept.contains(kept[i]));
                    front.lemma_filter_contains_rev(keep, kept[i]);
                    let k: int = choose|k: int| 0 <= k < front.len() && front[k] == kept[i];
                    assert(recs[k] == kept[i]);
                } else {
                    assert(after[i] == kept[i] && after[j] == kept[j]);
                }
            }
            assert forall|i: int| 0 <= i < after.len() implies (#[trigger] after[i]).1.well_formed() by {
                if i < kept.len() {
                    assert(after[i] == kept[i]);
                }
            }
        } else {
            assert(after == kept);
        }
    }
    let mine: Catalogue = after.filter(held_by(p));
    if mine.len() > 0 {
        after.lemma_filter_pred(held_by(p), 0);
        assert(mine.contains(mine[0]));
        after.lemma_filter_contains_rev(held_by(p), mine[0]);
        let k: int = choose|k: int| 0 <= k < after.len() && after[k] == mine[0];
        assert(after[k].0 != p);
    }
    assert(by_peer(after, p) =~= Seq::<InventoryEntry>::empty());
}

/// The names of the catalogue, each once, in the order of their first
/// announcement.
pub open spec fn names_of(recs: Catalogue) -> Seq<Seq<char>>
    decreases recs.len(),
{
    if recs.len() == 0 {
        Seq::empty()
    } else {
        let before = names_of(recs.drop_last());
        if before.contains(recs.last().1.name) {
            before
        } else {
            before.push(recs.last().1.name)
        }
    }
}

/// The size under which the file `name` was first announced, if it was.
pub open spec fn first_size(recs: Catalogue, name: Seq<char>) -> Option<u64>
    decreases recs.len(),
{
    if recs.len() == 0 {
        None
    } else {
        match first_size(recs.drop_last(), name) {
            Some(size) => Some(size),
            None => if recs.last().1.name == name {
                Some(recs.last().1.size)
            } else {
                None
            },
        }
    }
}

/// The peers that announced the file `name` as complete, each once, in the
/// order of their announcement.
pub open spec fn full_holders(recs: Catalogue, name: Seq<char>) -> Seq<u32>
    decreases recs.len(),
{
    if recs.len() == 0 {
        Seq::empty()
    } else {
        let before = full_holders(recs.drop_last(), name);
        let r = recs.last();
        if r.1.name == name && r.1.complete && !before.contains(r.0) {
            before.push(r.0)
        } else {
            before
        }
    }
}

/// Whether the entry `e` is partial and flags block `i`.
pub open spec fn holds_block(e: InventoryEntry, i: int) -> bool {
    !e.complete && 0 <= i < e.have.len() && e.have[i]
}

/// The peers that announced the file `name` as partial with block `i`, each
/// once, in the order of their announcement.
pub open spec fn block_holders(recs: Catalogue, name: Seq<char>, i: int) -> Seq<u32>
    decreases recs.len(),
{
    if recs.len() == 0 {
        Seq::empty()
    } else {
        let before = block_holders(recs.drop_last(), name, i);
        let r = recs.last();
        if r.1.name == name && holds_block(r.1, i) && !before.contains(r.0) {
            before.push(r.0)
        } else {
            before
        }
    }
}

/// The size that the answer reports: the low 32 bits of the announced one.
pub open spec fn reported_size(size: u64) -> u32 {
    (size % 0x1_0000_0000) as u32
}

/// The answer to a lookup of the file `name`. A file that nobody announced
/// has size zero and no holders. Otherwise the size is that of the first
/// announcement, there is one list for each block of a file of that size,
/// and the lists are as `full_holders` and `block_holders` say.
pub open spec fn lookup(recs: Catalogue, name: Seq<char>) -> Availability {
    match first_size(recs, name) {
        None => Availability { file_size: 0, full: Seq::empty(), blocks: Seq::empty() },
        Some(size) => Availability {
            file_size: reported_size(size),
            full: full_holders(recs, name),
            blocks: Seq::new(
                block_count_of(reported_size(size) as int) as nat,
                |i: int| block_holders(recs, name, i),
            ),
        },
    }
}

/// A name is listed exactly if some peer announced a file of that name, and
/// no name is listed twice.
pub proof fn lemma_names_of(recs: Catalogue)
    ensures
        names_of(recs).no_duplicates(),
        forall|name: Seq<char>|
            names_of(recs).contains(name) <==> exists|k: int|
                0 <= k < recs.len() && (#[trigger] recs[k]).1.name == name,
    decreases recs.len(),
{
    if recs.len() > 0 {
        let front: Catalogue = recs.drop_last();
        let before: Seq<Seq<char>> = names_of(front);
        let last: Seq<char> = recs.last().1.name;
        let now: Seq<Seq<char>> = names_of(recs);
        lemma_names_of(front);
        assert(recs[recs.len() - 1] == recs.last());
        assert forall|name: Seq<char>|
            now.contains(name) <==> exists|k: int|
                0 <= k < recs.len() && (#[trigger] recs[k]).1.name == name by {
            if now.contains(name) {
                if before.contains(name) {
                    let k: int = choose|k: int|
                        0 <= k < front.len() && (#[trigger] front[k]).1.name == name;
                    assert(recs[k] == front[k]);
                } else {
                    let j: int = choose|j: int| 0 <= j < now.len() && now[j] == name;
                    if j < before.len() {
                        assert(before[j] == name);
                    }
                }
            }
            if exists|k: int| 0 <= k < recs.len() && (#[trigger] recs[k]).1.name == name {
                let k: int = choose|k: int|
                    0 <= k < recs.len() && (#[trigger] recs[k]).1.name == name;
                if k < front.len() {
                    assert(front[k] == recs[k]);
                }
                if before.contains(name) {
                    let j: int = choose|j: int| 0 <= j < before.len() && before[j] == name;
                    assert(now[j] == name);
                } else {
                    assert(now[now.len() - 1] == name);
                }
            }
        }
    }
}

/// The first size of a file is the size in the first record of its name;
/// there is none exactly if nobody announced the file.
pub proof fn lemma_first_size(recs: Catalogue, name: Seq<char>)
    ensures
        first_size(recs, name) is None <==> forall|k: int|
            0 <= k < recs.len() ==> (#[trigger] recs[k]).1.name != name,
        first_size(recs, name) is Some ==> exists|k: int|
            0 <= k < recs.len() && (#[trigger] recs[k]).1.name == name && recs[k].1.size
                == first_size(recs, name).unwrap() && forall|j: int|
                0 <= j < k ==> (#[trigger] recs[j]).1.name != name,
    decreases recs.len(),
{
    if recs.len() > 0 {
        let front: Catalogue = recs.drop_last();
        lemma_first_size(front, name);
        assert(recs[recs.len() - 1] == recs.last());
        assert forall|k: int| 0 <= k < front.len() implies front[k] == recs[k] by {}
        match first_size(front, name) {
            Some(size) => {
                let k: int = choose|k: int|
                    0 <= k < front.len() && (#[trigger] front[k]).1.name == name && front[k].1.size
                        == size && forall|j: int| 0 <= j < k ==> (#[trigger] front[j]).1.name != name;
                assert(recs[k] == front[k]);
                assert forall|j: int| 0 <= j < k implies (#[trigger] recs[j]).1.name != name by {
                    assert(front[j] == recs[j]);
                }
            },
            None => {
                assert forall|j: int| 0 <= j < recs.len() - 1 implies (#[trigger] recs[j]).1.name
                    != name by {
                    assert(front[j] == recs[j]);
                }
                if recs.last().1.name == name {
                    let k: int = recs.len() - 1;
                    assert(recs[k].1.name == name && recs[k].1.size == first_size(
                        recs,
                        name,
                    ).unwrap());
                }
            },
        }
    }
}

/// A peer is a full holder of a file exactly if it announced the file as
/// complete, and no peer is listed twice.
pub proof fn lemma_full_holders(recs: Catalogue, name: Seq<char>)
    ensures
        full_holders(recs, name).no_duplicates(),
        forall|p: u32|
            full_holders(recs, name).contains(p) <==> exists|k: int|
                0 <= k < recs.len() && (#[trigger] recs[k]).0 == p && recs[k].1.name == name
                    && recs[k].1.complete,
    decreases recs.len(),
{
    if recs.len() > 0 {
        let front: Catalogue = recs.drop_last();
        let before: Seq<u32> = full_holders(front, name);
        let r: (u32, InventoryEntry) = recs.last();
        let now: Seq<u32> = full_holders(recs, name);
        let hit: bool = r.1.name == name && r.1.complete;
        lemma_full_holders(front, name);
        assert forall|p: u32| now.contains(p) <==> exists|k: int|
            0 <= k < recs.len() && (#[trigger] recs[k]).0 == p && recs[k].1.name == name
                && recs[k].1.complete by {
            if now.contains(p) {
                if before.contains(p) {
                    let k: int = choose|k: int|
                        0 <= k < front.len() && (#[trigger] front[k]).0 == p && front[k].1.name
                            == name && front[k].1.complete;
                    assert(recs[k] == front[k]);
                } else {
                    let j: int = choose|j: int| 0 <= j < now.len() && now[j] == p;
                    if j < before.len() {
                        assert(before[j] == p);
                    }
                    assert(recs[recs.len() - 1] == r);
                }
            }
            if exists|k: int|
                0 <= k < recs.len() && (#[trigger] recs[k]).0 == p && recs[k].1.name == name
                    && recs[k].1.complete {
                let k: int = choose|k: int|
                    0 <= k < recs.len() && (#[trigger] recs[k]).0 == p && recs[k].1.name == name
                        && recs[k].1.complete;
                if k < front.len() {
                    assert(front[k] == recs[k]);
                    assert(before.contains(p));
                    let j: int = choose|j: int| 0 <= j < before.len() && before[j] == p;
                    assert(now[j] == p);
                } else {
                    if before.contains(p) {
                        let j: int = choose|j: int| 0 <= j < before.len() && before[j] == p;
                        assert(now[j] == p);
                    } else {
                        assert(now[now.len() - 1] == p);
                    }
                }
            }
        }
    }
}

/// A peer is listed for a block exactly if it announced the file as partial
/// with that block, and no peer is listed twice.
pub proof fn lemma_block_holders(recs: Catalogue, name: Seq<char>, i: int)
    ensures
        block_holders(recs, name, i).no_duplicates(),
        forall|p: u32|
            block_holders(recs, name, i).contains(p) <==> exists|k: int|
                0 <= k < recs.len() && (#[trigger] recs[k]).0 == p && recs[k].1.name == name
                    && holds_block(recs[k].1, i),
    decreases recs.len(),
{
    if recs.len() > 0 {
        let front: Catalogue = recs.drop_last();
        let before: Seq<u32> = block_holders(front, name, i);
        let r: (u32, InventoryEntry) = recs.last();
        let now: Seq<u32> = block_holders(recs, name, i);
        lemma_block_holders(front, name, i);
        assert forall|p: u32| now.contains(p) <==> exists|k: int|
            0 <= k < recs.len() && (#[trigger] recs[k]).0 == p && recs[k].1.name == name
                && holds_block(recs[k].1, i) by {
            if now.contains(p) {
                if before.contains(p) {
                    let k: int = choose|k: int|
                        0 <= k < front.len() && (#[trigger] front[k]).0 == p && front[k].1.name
                            == name && holds_block(front[k].1, i);
                    assert(recs[k] == front[k]);
                } else {
                    let j: int = choose|j: int| 0 <= j < now.len() && now[j] == p;
                    if j < before.len() {
                        assert(before[j] == p);
                    }
                    assert(recs[recs.len() - 1] == r);
                }
            }
            if exists|k: int|
                0 <= k < recs.len() && (#[trigger] recs[k]).0 == p && recs[k].1.name == name
                    && holds_block(recs[k].1, i) {
                let k: int = choose|k: int|
                    0 <= k < recs.len() && (#[trigger] recs[k]).0 == p && recs[k].1.name == name
                        && holds_block(recs[k].1, i);
                if k < front.len() {
                    assert(front[k] == recs[k]);
                    assert(before.contains(p));
                    let j: int = choose|j: int| 0 <= j < before.len() && before[j] == p;
                    assert(now[j] == p);
                } else {
                    if before.contains(p) {
                        let j: int = choose|j: int| 0 <= j < before.len() && before[j] == p;
                        assert(now[j] == p);
                    } else {
                        assert(now[now.len() - 1] == p);
                    }
                }
            }
        }
    }
}

/// The reply that carries `data`, if one frame can carry it.
pub open spec fn answer(recs: Catalogue, data: Seq<u8>) -> Result<
    (Catalogue, Option<Seq<u8>>),
    FstpError,
> {
    if data.len() > MAX_DATA_SIZE {
        Err(FstpError::BadLength)
    } else {
        Ok((recs, Some((ControlMessage { flag: Flag::Okay, data }).wire())))
    }
}

/// What the tracker makes of the bytes `b` that it read from `peer`: the
/// catalogue afterwards and the frame to send back, if any, or the error
/// that ends the connection.
///
/// An inventory is taken in and a block announcement is marked, without a
/// reply. A list query is answered with the names, a lookup with the
/// holders of the named file. A message of kind OK is ignored. No error
/// changes the catalogue.
pub open spec fn outcome(recs: Catalogue, peer: u32, b: Seq<u8>) -> Result<
    (Catalogue, Option<Seq<u8>>),
    FstpError,
> {
    match parse_frame(b) {
        Err(e) => Err(e),
        Ok(m) => match m.flag {
            Flag::Okay => Ok((recs, None)),
            Flag::Add => match parse_inventory(m.data) {
                Some(es) => Ok((add_all(recs, peer, es), None)),
                None => Err(FstpError::MalformedPayload),
            },
            Flag::AddBlock => match parse_add_block(m.data) {
                Some((index, name)) => Ok((mark_block(recs, peer, index as int, name), None)),
                None => Err(FstpError::MalformedPayload),
            },
            Flag::List => answer(recs, list_wire(names_of(recs))),
            Flag::File => if !valid_utf8(m.data) {
                Err(FstpError::MalformedPayload)
            } else if !lookup(recs, decode_utf8(m.data)).well_formed() {
                Err(FstpError::BadLength)
            } else {
                answer(recs, lookup(recs, decode_utf8(m.data)).wire())
            },
        },
    }
}

/// Whatever is read from a peer, a sound catalogue stays sound: a frame
/// that is taken leaves it sound, and one that is refused leaves it as it
/// was.
pub proof fn lemma_outcome_sound(recs: Catalogue, peer: u32, b: Seq<u8>)
    requires
        sound(recs),
    ensures
        match outcome(recs, peer, b) {
            Ok((after, _)) => sound(after),
            Err(_) => true,
        },
{
    match parse_frame(b) {
        Ok(m) => match m.flag {
            Flag::Add => match parse_inventory(m.data) {
                Some(es) => {
                    crate::file_meta::lemma_wire_parse_inventory(m.data);
                    lemma_add_all_sound(recs, peer, es);
                },
                None => {},
            },
            Flag::AddBlock => match parse_add_block(m.data) {
                Some((index, name)) => {
                    lemma_mark_block_sound(recs, peer, index as int, name);
                },
                None => {},
            },
            _ => {},
        },
        Err(_) => {},
    }
}

/// Whether `name` occurs in `v`.
fn contains_text(v: &Vec<String>, name: &str) -> (r: bool)
    ensures
        r == texts_view(v@).contains(name@),
{
    let mut i: usize = 0;
    while i < v.len()
        invariant
            i <= v@.len(),
            forall|k: int| 0 <= k < i ==> texts_view(v@)[k] != name@,
        decreases v@.len() - i,
    {
        if same_text(v[i].as_str(), name) {
            assert(texts_view(v@)[i as int] == name@);
            return true;
        }
        i += 1;
    }
    false
}

/// The frame of a reply that carries `data`.
fn reply_with(data: Vec<u8>) -> (r: Result<Vec<u8>, FstpError>)
    ensures
        data@.len() > MAX_DATA_SIZE ==> r == Err::<Vec<u8>, FstpError>(FstpError::BadLength),
        data@.len() <= MAX_DATA_SIZE ==> r is Ok && r.unwrap()@ == (ControlMessage {
            flag: Flag::Okay,
            data: data@,
        }).wire(),
{
    let m: FstpMessage = match FstpMessage::new(Flag::Okay, data.as_slice()) {
        Ok(m) => m,
        Err(e) => {
            return Err(e);
        },
    };
    m.as_bytes()
}

impl Tracker {
    /// A catalogue without records.
    pub fn new() -> (r: Tracker)
        ensures
            r@ == Seq::<(u32, InventoryEntry)>::empty(),
    {
        let t = Tracker { records: Vec::new() };
        assert(t@ =~= Seq::<(u32, InventoryEntry)>::empty());
        t
    }

    /// Whether peer `peer` has announced a file of the name `name`.
    pub fn has_announced(&self, peer: u32, name: &str) -> (r: bool)
        ensures
            r == announced(self@, peer, name@),
    {
        let mut i: usize = 0;
        while i < self.records.len()
            invariant
                i <= self.records@.len(),
                forall|k: int|
                    0 <= k < i ==> !((#[trigger] self@[k]).0 == peer && self@[k].1.name == name@),
            decreases self.records@.len() - i,
        {
            let rec: &Record = &self.records[i];
            assert(self@[i as int] == rec@);
            if rec.peer == peer && same_text(rec.meta.name.as_str(), name) {
                return true;
            }
            i += 1;
        }
        false
    }

    /// Takes the inventory that `peer` announces. An entry whose name the
    /// peer has announced before is dropped: the first announcement stands.
    pub fn add(&mut self, peer: u32, entries: Vec<FileMeta>)
        ensures
            final(self)@ == add_all(old(self)@, peer, crate::file_meta::entries_view(entries@)),
    {
        let ghost es: Seq<InventoryEntry> = crate::file_meta::entries_view(entries@);
        let mut i: usize = 0;
        assert(es.subrange(0, 0) =~= Seq::<InventoryEntry>::empty());
        while i < entries.len()
            invariant
                i <= entries@.len(),
                es == crate::file_meta::entries_view(entries@),
                self@ == add_all(old(self)@, peer, es.subrange(0, i as int)),
            decreases entries@.len() - i,
        {
            let entry: &FileMeta = &entries[i];
            let ghost before: Catalogue = self@;
            proof {
                let s: Seq<InventoryEntry> = es.subrange(0, i + 1);
                assert(s.drop_last() =~= es.subrange(0, i as int));
                assert(s.last() == entry@);
            }
            if !self.has_announced(peer, entry.name.as_str()) {
                let rec = Record { peer, meta: entry.duplicate() };
                self.records.push(rec);
                assert(self@ =~= before.push((peer, entry@)));
            }
            i += 1;
        }
        assert(es.subrange(0, es.len() as int) =~= es);
    }

    /// Takes the announcement that `peer` now holds block `index` of the
    /// file `name`. It changes the peer's entry of that name, and only if
    /// that entry is partial and has such a block.
    pub fn add_block(&mut self, peer: u32, index: u32, name: &str)
        ensures
            final(self)@ == mark_block(old(self)@, peer, index as int, name@),
    {
        let n: usize = self.records.len();
        let mut i: usize = 0;
        while i < n
            invariant
                i <= n,
                n == self.records@.len(),
                n == old(self)@.len(),
                forall|k: int|
                    0 <= k < i ==> (#[trigger] self@[k]) == mark_block(
                        old(self)@,
                        peer,
                        index as int,
                        name@,
                    )[k],
                forall|k: int| i <= k < n ==> (#[trigger] self@[k]) == old(self)@[k],
            decreases n - i,
        {
            let ghost before: Catalogue = self@;
            let hit: bool = self.records[i].peer == peer && same_text(
                self.records[i].meta.name.as_str(),
                name,
            );
            assert(before[i as int] == self.records@[i as int]@);
            if hit && !self.records[i].meta.has_full_file {
                self.records[i].meta.blocks.set(index as usize, true);
                proof {
                    // Only record `i` was touched.
                    assert forall|k: int| 0 <= k < n && k != i implies (#[trigger] self@[k])
                        == before[k] by {
                        assert(self@[k] == self.records@[k]@);
                    }
                }
            }
            i += 1;
        }
        assert(self@ =~= mark_block(old(self)@, peer, index as int, name@));
    }

    /// Forgets every record of `peer`: the peer has closed its connection.
    pub fn disconnect(&mut self, peer: u32)
        ensures
            final(self)@ == without_peer(old(self)@, peer),
    {
        let ghost start: Catalogue = self@;
        let ghost keep = not_held_by(peer);
        let mut i: usize = 0;
        let ghost mut seen: int = 0;
        assert(start.subrange(0, 0) =~= Seq::<(u32, InventoryEntry)>::empty());
        assert(self@ =~= start.subrange(0, 0).filter(keep) + start.subrange(0, start.len() as int));
        while i < self.records.len()
            invariant
                0 <= seen <= start.len(),
                i <= self.records@.len(),
                start == old(self)@,
                keep == not_held_by(peer),
                i == start.subrange(0, seen).filter(keep).len(),
                self@ == start.subrange(0, seen).filter(keep) + start.subrange(
                    seen,
                    start.len() as int,
                ),
            decreases self.records@.len() - i,
        {
            let ghost before: Catalogue = self@;
            let ghost done: Catalogue = start.subrange(0, seen).filter(keep);
            let ghost rest: Catalogue = start.subrange(seen + 1, start.len() as int);
            proof {
                assert(before[i as int] == start[seen]);
                assert(start.subrange(0, seen + 1) =~= start.subrange(0, seen).push(start[seen]));
                start.subrange(0, seen).lemma_filter_push(start[seen], keep);
            }
            assert(before[i as int] == self.records@[i as int]@);
            if self.records[i].peer == peer {
                let ghost recs_before: Seq<Record> = self.records@;
                self.records.remove(i);
                proof {
                    assert(self.records@ == recs_before.remove(i as int));
                    assert(self@ =~= before.remove(i as int));
                    assert(before.remove(i as int) =~= done + rest);
                    seen = seen + 1;
                }
            } else {
                i += 1;
                proof {
                    assert(before =~= done.push(start[seen]) + rest);
                    seen = seen + 1;
                }
            }
        }
        proof {
            assert(seen == start.len());
            assert(start.subrange(0, seen) =~= start);
            assert(self@ =~= start.filter(keep));
        }
    }

    /// The names of the catalogue, each once, in the order of their first
    /// announcement.
    pub fn list(&self) -> (r: Vec<String>)
        ensures
            texts_view(r@) == names_of(self@),
    {
        let mut out: Vec<String> = Vec::new();
        let mut i: usize = 0;
        assert(self@.subrange(0, 0) =~= Seq::<(u32, InventoryEntry)>::empty());
        assert(texts_view(out@) =~= Seq::<Seq<char>>::empty());
        while i < self.records.len()
            invariant
                i <= self.records@.len(),
                texts_view(out@) == names_of(self@.subrange(0, i as int)),
            decreases self.records@.len() - i,
        {
            let rec: &Record = &self.records[i];
            let ghost before: Seq<Seq<char>> = texts_view(out@);
            proof {
                let s: Catalogue = self@.subrange(0, i + 1);
                assert(s.drop_last() =~= self@.subrange(0, i as int));
                assert(s.last() == rec@);
            }
            if !contains_text(&out, rec.meta.name.as_str()) {
                out.push(rec.meta.name.clone());
                assert(texts_view(out@) =~= before.push(rec.meta.name@));
            }
            i += 1;
        }
        assert(self@.subrange(0, self@.len() as int) =~= self@);
        out
    }

    /// The size under which the file `name` was first announced, if it was.
    pub fn size_of(&self, name: &str) -> (r: Option<u64>)
        ensures
            r == first_size(self@, name@),
    {
        let mut i: usize = 0;
        assert(self@.subrange(0, 0) =~= Seq::<(u32, InventoryEntry)>::empty());
        while i < self.records.len()
            invariant
                i <= self.records@.len(),
                first_size(self@.subrange(0, i as int), name@) is None,
            decreases self.records@.len() - i,
        {
            let rec: &Record = &self.records[i];
            proof {
                let s: Catalogue = self@.subrange(0, i + 1);
                assert(s.drop_last() =~= self@.subrange(0, i as int));
                assert(s.last() == rec@);
            }
            if same_text(rec.meta.name.as_str(), name) {
                proof {
                    lemma_first_size_stays(self@, i + 1, name@);
                }
                return Some(rec.meta.f_size);
            }
            i += 1;
        }
        assert(self@.subrange(0, self@.len() as int) =~= self@);
        None
    }

    /// The answer to a lookup of the file `name`, as `lookup` says.
    pub fn file(&self, name: &str) -> (r: PeersWithFile)
        ensures
            r@ == lookup(self@, name@),
            r.n_blocks == r@.blocks.len(),
    {
        let size: u64 = match self.size_of(name) {
            Some(size) => size,
            None => {
                let r = PeersWithFile {
                    file_size: 0,
                    n_blocks: 0,
                    peers_with_file: Vec::new(),
                    peers_with_blocks: Vec::new(),
                };
                assert(r@.blocks =~= Seq::<Seq<u32>>::empty());
                return r;
            },
        };
        let file_size: u32 = (size % 0x1_0000_0000) as u32;
        let n: u32 = block_count(file_size as u64) as u32;
        let mut full: Vec<u32> = Vec::new();
        let mut lists: Vec<Vec<u32>> = Vec::new();
        let mut b: u32 = 0;
        while b < n
            invariant
                b <= n,
                lists@.len() == b,
                forall|i: int| 0 <= i < b ==> (#[trigger] lists@[i])@ == Seq::<u32>::empty(),
            decreases n - b,
        {
            lists.push(Vec::new());
            b += 1;
        }
        let mut k: usize = 0;
        assert(self@.subrange(0, 0) =~= Seq::<(u32, InventoryEntry)>::empty());
        while k < self.records.len()
            invariant
                k <= self.records@.len(),
                lists@.len() == n,
                full@ == full_holders(self@.subrange(0, k as int), name@),
                forall|i: int|
                    0 <= i < n ==> (#[trigger] lists@[i])@ == block_holders(
                        self@.subrange(0, k as int),
                        name@,
                        i,
                    ),
            decreases self.records@.len() - k,
        {
            let rec: &Record = &self.records[k];
            let ghost front: Catalogue = self@.subrange(0, k as int);
            let ghost upto: Catalogue = self@.subrange(0, k + 1);
            proof {
                assert(upto.drop_last() =~= front);
                assert(upto.last() == rec@);
            }
            let hit: bool = same_text(rec.meta.name.as_str(), name);
            if hit && rec.meta.has_full_file {
                if !contains_peer(&full, rec.peer) {
                    full.push(rec.peer);
                }
            }
            let mut i: u32 = 0;
            while i < n
                invariant
                    i <= n,
                    lists@.len() == n,
                    upto.drop_last() == front,
                    upto.last() == rec@,
                    upto.len() > 0,
                    hit == (rec@.1.name == name@),
                    forall|j: int|
                        0 <= j < i ==> (#[trigger] lists@[j])@ == block_holders(upto, name@, j),
                    forall|j: int|
                        i <= j < n ==> (#[trigger] lists@[j])@ == block_holders(front, name@, j),
                decreases n - i,
            {
                let has: bool = match rec.meta.blocks.get(i as usize) {
                    Some(bit) => bit,
                    None => false,
                };
                assert(has == (0 <= i < rec@.1.have.len() && rec@.1.have[i as int]));
                if hit && !rec.meta.has_full_file && has {
                    if !contains_peer(&lists[i as usize], rec.peer) {
                        lists[i as usize].push(rec.peer);
                    }
                }
                i += 1;
            }
            k += 1;
        }
        assert(self@.subrange(0, self@.len() as int) =~= self@);
        let r = PeersWithFile {
            file_size,
            n_blocks: n,
            peers_with_file: full,
            peers_with_blocks: lists,
        };
        assert(r@.blocks =~= lookup(self@, name@).blocks);
        r
    }

    /// Takes the bytes that were read from the connection of `peer` and
    /// gives the frame to send back, if there is one. An error means that
    /// the connection is to be closed; it leaves the catalogue as it was.
    /// What happens is what `outcome` says.
    pub fn handle(&mut self, peer: u32, buffer: &[u8]) -> (r: Result<Option<Vec<u8>>, FstpError>)
        ensures
            match outcome(old(self)@, peer, buffer@) {
                Ok((recs, reply)) => final(self)@ == recs && r is Ok && (match reply {
                    Some(frame) => r.unwrap() is Some && r.unwrap().unwrap()@ == frame,
                    None => r.unwrap() is None,
                }),
                Err(e) => r == Err::<Option<Vec<u8>>, FstpError>(e) && final(self)@ == old(self)@,
            },
    {
        let msg: FstpMessage = match FstpMessage::from_bytes(buffer) {
            Ok(m) => m,
            Err(e) => {
                return Err(e);
            },
        };
        let empty: [u8; 0] = [];
        let data: &[u8] = match msg.data {
            Some(d) => d,
            None => {
                assert(empty@ =~= Seq::<u8>::empty());
                vstd::array::array_as_slice(&empty)
            },
        };
        assert(data@ == msg@.data);
        match msg.header.flag {
            Flag::Okay => Ok(None),
            Flag::Add => match decode_inventory(data) {
                Ok(entries) => {
                    self.add(peer, entries);
                    Ok(None)
                },
                Err(e) => Err(e),
            },
            Flag::AddBlock => match decode_add_block(data) {
                Ok((index, name)) => {
                    self.add_block(peer, index, name.as_str());
                    Ok(None)
                },
                Err(e) => Err(e),
            },
            Flag::List => {
                let names: Vec<String> = self.list();
                match reply_with(encode_list(&names)) {
                    Ok(frame) => Ok(Some(frame)),
                    Err(e) => Err(e),
                }
            },
            Flag::File => {
                let name: String = match string_of(data) {
                    Some(name) => name,
                    None => {
                        return Err(FstpError::MalformedPayload);
                    },
                };
                let found: PeersWithFile = self.file(name.as_str());
                let payload: Vec<u8> = match found.to_bytes() {
                    Ok(p) => p,
                    Err(_) => {
                        return Err(FstpError::BadLength);
                    },
                };
                match reply_with(payload) {
                    Ok(frame) => Ok(Some(frame)),
                    Err(e) => Err(e),
                }
            },
        }
    }
}

/// Once a file's first size is found among the first `k` records, it is the
/// first size in the whole catalogue.
proof fn lemma_first_size_stays(recs: Catalogue, k: int, name: Seq<char>)
    requires
        0 <= k <= recs.len(),
        first_size(recs.subrange(0, k), name) is Some,
    ensures
        first_size(recs, name) == first_size(recs.subrange(0, k), name),
    decreases recs.len() - k,
{
    if k < recs.len() {
        let s: Catalogue = recs.subrange(0, k + 1);
        assert(s.drop_last() =~= recs.subrange(0, k));
        lemma_first_size_stays(recs, k + 1, name);
    } else {
        assert(recs.subrange(0, k) =~= recs);
    }
}

} // verus!
