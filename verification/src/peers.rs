//! Lists of peer addresses that stand for sets: nothing occurs twice, and
//! what came first stays first. A peer is an IPv4 address as a number.

use vstd::prelude::*;

verus! {

/// Whether `p` occurs in `v`.
pub fn contains_peer(v: &Vec<u32>, p: u32) -> (r: bool)
    ensures
        r == v@.contains(p),
{
    let mut i: usize = 0;
    while i < v.len()
        invariant
            i <= v@.len(),
            forall|k: int| 0 <= k < i ==> v@[k] != p,
        decreases v@.len() - i,
    {
        if v[i] == p {
            return true;
        }
        i += 1;
    }
    false
}

/// `base`, followed by those of `extra` that did not occur before, each
/// once and in the order of `extra`.
pub open spec fn with_missing(base: Seq<u32>, extra: Seq<u32>) -> Seq<u32>
    decreases extra.len(),
{
    if extra.len() == 0 {
        base
    } else {
        let before = with_missing(base, extra.drop_last());
        if before.contains(extra.last()) {
            before
        } else {
            before.push(extra.last())
        }
    }
}

/// Adding what is missing keeps a list free of repetitions, keeps `base` at
/// its front, and gives the union of the two as a set.
pub proof fn lemma_with_missing(base: Seq<u32>, extra: Seq<u32>)
    requires
        base.no_duplicates(),
    ensures
        with_missing(base, extra).no_duplicates(),
        base.len() <= with_missing(base, extra).len() <= base.len() + extra.len(),
        with_missing(base, extra).subrange(0, base.len() as int) == base,
        forall|p: u32|
            with_missing(base, extra).contains(p) <==> base.contains(p) || extra.contains(p),
    decreases extra.len(),
{
    let r: Seq<u32> = with_missing(base, extra);
    if extra.len() == 0 {
        assert(r.subrange(0, base.len() as int) =~= base);
    } else {
        let front: Seq<u32> = extra.drop_last();
        let last: u32 = extra.last();
        let before: Seq<u32> = with_missing(base, front);
        lemma_with_missing(base, front);
        assert(r.subrange(0, base.len() as int) =~= before.subrange(0, base.len() as int));
        assert forall|p: u32| r.contains(p) <==> base.contains(p) || extra.contains(p) by {
            if extra.contains(p) {
                let k: int = choose|k: int| 0 <= k < extra.len() && extra[k] == p;
                if k < front.len() {
                    assert(front[k] == p);
                    assert(front.contains(p));
                }
            }
            if front.contains(p) {
                let k: int = choose|k: int| 0 <= k < front.len() && front[k] == p;
                assert(extra[k] == p);
            }
            assert(extra[extra.len() - 1] == last);
            if before.contains(p) {
                let k: int = choose|k: int| 0 <= k < before.len() && before[k] == p;
                if !before.contains(last) {
                    assert(r[k] == p);
                }
            }
            if r.contains(p) && !before.contains(last) {
                let k: int = choose|k: int| 0 <= k < r.len() && r[k] == p;
                if k < before.len() {
                    assert(before[k] == p);
                }
            }
            if p == last && !before.contains(last) {
                assert(r[r.len() - 1] == p);
            }
        }
    }
}

/// Adding a list without repetitions to an empty list gives that list.
pub proof fn lemma_with_missing_fresh(extra: Seq<u32>)
    requires
        extra.no_duplicates(),
    ensures
        with_missing(Seq::empty(), extra) == extra,
    decreases extra.len(),
{
    if extra.len() == 0 {
        assert(with_missing(Seq::empty(), extra) =~= extra);
    } else {
        let front: Seq<u32> = extra.drop_last();
        lemma_with_missing_fresh(front);
        assert(!front.contains(extra.last())) by {
            if front.contains(extra.last()) {
                let k: int = choose|k: int| 0 <= k < front.len() && front[k] == extra.last();
                assert(extra[k] == extra[extra.len() - 1]);
            }
        }
        assert(front.push(extra.last()) =~= extra);
    }
}

/// Appends to `v` each peer of `extra` that `v` does not hold yet.
pub fn add_missing(v: &mut Vec<u32>, extra: &Vec<u32>)
    ensures
        final(v)@ == with_missing(old(v)@, extra@),
{
    let mut i: usize = 0;
    assert(extra@.subrange(0, 0) =~= Seq::<u32>::empty());
    while i < extra.len()
        invariant
            i <= extra@.len(),
            v@ == with_missing(old(v)@, extra@.subrange(0, i as int)),
        decreases extra@.len() - i,
    {
        let p: u32 = extra[i];
        proof {
            let s: Seq<u32> = extra@.subrange(0, i + 1);
            assert(s.drop_last() =~= extra@.subrange(0, i as int));
            assert(s.last() == p);
        }
        if !contains_peer(v, p) {
            v.push(p);
        }
        i += 1;
    }
    assert(extra@.subrange(0, extra@.len() as int) =~= extra@);
}

/// Whether nothing occurs twice in `v`.
pub fn has_no_duplicates(v: &Vec<u32>) -> (r: bool)
    ensures
        r == v@.no_duplicates(),
{
    let mut i: usize = 0;
    while i < v.len()
        invariant
            i <= v@.len(),
            forall|a: int, b: int| 0 <= a < b < i ==> v@[a] != v@[b],
        decreases v@.len() - i,
    {
        let mut j: usize = 0;
        while j < i
            invariant
                j <= i < v@.len(),
                forall|a: int| 0 <= a < j ==> v@[a] != v@[i as int],
            decreases i - j,
        {
            if v[j] == v[i] {
                return false;
            }
            j += 1;
        }
        i += 1;
    }
    assert forall|a: int, b: int| 0 <= a < v@.len() && 0 <= b < v@.len() && a != b implies v@[a]
        != v@[b] by {
        if a < b {
        } else {
            assert(v@[b] != v@[a]);
        }
    }
    true
}

} // verus!
