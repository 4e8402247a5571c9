//! The list of snapshots, newest first.

use vstd::prelude::*;
use vstd::seq_lib::*;
use vstd::set_lib::*;
use crate::digest::hash_eq;
use crate::error::Error;
use crate::error::ErrorView;
use crate::error::Result;
use crate::snapshot::Manifest;
use crate::snapshot::ManifestView;
use crate::snapshot::hash_opt;

verus! {

/// A stored manifest: its id and what loading it gave.
#[derive(Debug)]
pub struct Stored {
    pub id: crate::Hash,
    pub loaded: Result<Manifest>,
}

/// A snapshot in the list: its id and its manifest.
pub struct Listed {
    pub id: Seq<u8>,
    pub manifest: ManifestView,
}

/// The ids and manifests of a list of snapshots.
pub open spec fn listed(v: Seq<(crate::Hash, Manifest)>) -> Seq<Listed> {
    v.map_values(|e: (crate::Hash, Manifest)| Listed { id: e.0@, manifest: e.1@ })
}

/// The snapshot at position `i`, whose manifest did load.
pub open spec fn listed_at(stored: Seq<Stored>, i: int) -> Listed {
    Listed { id: stored[i].id@, manifest: stored[i].loaded->Ok_0@ }
}

/// Whether `i` is the first position with this id.
pub open spec fn first_at(stored: Seq<Stored>, id: Seq<u8>, i: int) -> bool {
    0 <= i < stored.len() && stored[i].id@ == id && forall|j: int|
        0 <= j < i ==> (#[trigger] stored[j]).id@ != id
}

/// The snapshots at the given positions.
pub open spec fn listed_all(stored: Seq<Stored>, chain: Seq<usize>) -> Seq<Listed> {
    chain.map_values(|i: usize| listed_at(stored, i as int))
}

/// Whether some snapshot of the list has this id.
pub open spec fn has_id(s: Seq<Listed>, id: Seq<u8>) -> bool {
    exists|k: int| 0 <= k < s.len() && (#[trigger] s[k]).id == id
}

/// The id that comes behind the first `n` snapshots of a walk: HEAD, then
/// each time the parent.
pub open spec fn id_at(head: Option<Seq<u8>>, walk: Seq<Listed>, n: int) -> Option<Seq<u8>> {
    if n == 0 {
        head
    } else {
        walk[n - 1].manifest.parent
    }
}

/// Whether the positions are a walk from HEAD along the parents, without
/// repetition.
pub open spec fn is_walk(stored: Seq<Stored>, head: Option<Seq<u8>>, chain: Seq<usize>) -> bool {
    let walk = listed_all(stored, chain);
    &&& forall|k: int|
        0 <= k < chain.len() ==> stored[#[trigger] chain[k] as int].loaded is Ok && first_at(
            stored,
            walk[k].id,
            chain[k] as int,
        ) && id_at(head, walk, k) == Some(walk[k].id)
    &&& forall|k: int, l: int|
        0 <= k < l < chain.len() ==> (#[trigger] walk[k]).id != (#[trigger] walk[l]).id
}

/// Whether a walk has come to its end: no parent, or one that was visited
/// already.
pub open spec fn walk_ends(head: Option<Seq<u8>>, walk: Seq<Listed>) -> bool {
    let next = id_at(head, walk, walk.len() as int);
    next is None || has_id(walk, next->0)
}

/// The snapshots among the first `n` that are not in the walk: those that
/// load, each id once.
pub open spec fn orphans(stored: Seq<Stored>, walk: Seq<Listed>, n: int) -> Seq<Listed>
    decreases n,
{
    if n <= 0 {
        Seq::empty()
    } else {
        let rest = orphans(stored, walk, n - 1);
        if stored[n - 1].loaded is Ok && !has_id(walk, stored[n - 1].id@) && first_at(
            stored,
            stored[n - 1].id@,
            n - 1,
        ) {
            rest.push(listed_at(stored, n - 1))
        } else {
            rest
        }
    }
}

/// `x` put behind everything that is not older.
pub open spec fn insert_newest(s: Seq<Listed>, x: Listed) -> Seq<Listed>
    decreases s.len(),
{
    if s.len() == 0 || s.last().manifest.timestamp_secs >= x.manifest.timestamp_secs {
        s.push(x)
    } else {
        insert_newest(s.drop_last(), x).push(s.last())
    }
}

/// The snapshots in descending order of their time; those of one time stay in
/// their order.
pub open spec fn newest_first(s: Seq<Listed>) -> Seq<Listed>
    decreases s.len(),
{
    if s.len() == 0 {
        s
    } else {
        insert_newest(newest_first(s.drop_last()), s.last())
    }
}

/// What listing gives when the walk from HEAD is `chain`.
pub open spec fn list_outcome(
    stored: Seq<Stored>,
    head: Option<Seq<u8>>,
    chain: Seq<usize>,
    r: Result<Vec<(crate::Hash, Manifest)>>,
) -> bool {
    let walk = listed_all(stored, chain);
    let next = id_at(head, walk, walk.len() as int);
    match r {
        Ok(v) => walk_ends(head, walk) && listed(v@) == newest_first(
            walk + orphans(stored, walk, stored.len() as int),
        ),
        Err(e) => !walk_ends(head, walk) && (forall|i: int| #[trigger]
            first_at(stored, next->0, i) ==> stored[i].loaded is Err && e@
                == stored[i].loaded->Err_0@) && ((forall|i: int|
            0 <= i < stored.len() ==> (#[trigger] stored[i]).id@ != next->0) ==> e@
            == ErrorView::MissingObject(next->0)),
    }
}

/// Whether `r` is what listing gives.
pub open spec fn listed_as(
    stored: Seq<Stored>,
    head: Option<Seq<u8>>,
    r: Result<Vec<(crate::Hash, Manifest)>>,
) -> bool {
    exists|chain: Seq<usize>| #[trigger]
        is_walk(stored, head, chain) && list_outcome(stored, head, chain, r)
}

/// The first position with this id.
fn find(stored: &Vec<Stored>, id: &crate::Hash) -> (r: Option<usize>)
    ensures
        match r {
            Some(i) => first_at(stored@, id@, i as int),
            None => forall|i: int| 0 <= i < stored@.len() ==> (#[trigger] stored@[i]).id@ != id@,
        },
{
    let mut i: usize = 0;
    while i < stored.len()
        invariant
            i <= stored@.len(),
            forall|j: int| 0 <= j < i ==> (#[trigger] stored@[j]).id@ != id@,
        decreases stored@.len() - i,
    {
        if hash_eq(&stored[i].id, id) {
            return Some(i);
        }
        i = i + 1;
    }
    None
}

/// Whether one of the positions has this id.
fn visited(stored: &Vec<Stored>, chain: &Vec<usize>, id: &crate::Hash) -> (r: bool)
    requires
        forall|k: int| 0 <= k < chain@.len() ==> (#[trigger] chain@[k]) < stored@.len(),
    ensures
        r == has_id(listed_all(stored@, chain@), id@),
{
    let ghost walk = listed_all(stored@, chain@);
    let mut k: usize = 0;
    while k < chain.len()
        invariant
            k <= chain@.len(),
            walk == listed_all(stored@, chain@),
            forall|j: int| 0 <= j < chain@.len() ==> (#[trigger] chain@[j]) < stored@.len(),
            forall|j: int| 0 <= j < k ==> (#[trigger] walk[j]).id != id@,
        decreases chain@.len() - k,
    {
        assert(walk[k as int].id == stored@[chain@[k as int] as int].id@);
        if hash_eq(&stored[chain[k]].id, id) {
            return true;
        }
        k = k + 1;
    }
    false
}

/// A walk visits no position twice.
proof fn lemma_walk_bounded(stored: Seq<Stored>, head: Option<Seq<u8>>, chain: Seq<usize>)
    requires
        is_walk(stored, head, chain),
    ensures
        chain.len() <= stored.len(),
{
    let walk = listed_all(stored, chain);
    let at = chain.map_values(|i: usize| i as int);
    assert forall|k: int, l: int| 0 <= k < at.len() && 0 <= l < at.len() && k != l implies at[k]
        != at[l] by {
        assert(walk[k].id == stored[at[k]].id@);
        assert(walk[l].id == stored[at[l]].id@);
        if k < l {
            assert(walk[k].id != walk[l].id);
        } else {
            assert(walk[l].id != walk[k].id);
        }
    }
    assert(at.no_duplicates());
    at.unique_seq_to_set();
    let all = set_int_range(0, stored.len() as int);
    lemma_int_range(0, stored.len() as int);
    assert(at.to_set().subset_of(all)) by {
        assert forall|x: int| at.to_set().contains(x) implies all.contains(x) by {
            let k = choose|k: int| 0 <= k < at.len() && at[k] == x;
            assert(first_at(stored, walk[k].id, chain[k] as int));
        }
    }
    lemma_len_subset(at.to_set(), all);
}

proof fn lemma_walk_push(
    stored: Seq<Stored>,
    head: Option<Seq<u8>>,
    chain: Seq<usize>,
    i: usize,
)
    requires
        is_walk(stored, head, chain),
        stored[i as int].loaded is Ok,
        id_at(head, listed_all(stored, chain), chain.len() as int) == Some(stored[i as int].id@),
        first_at(stored, stored[i as int].id@, i as int),
        !has_id(listed_all(stored, chain), stored[i as int].id@),
    ensures
        is_walk(stored, head, chain.push(i)),
        listed_all(stored, chain.push(i)) == listed_all(stored, chain).push(
            listed_at(stored, i as int),
        ),
{
    let walk = listed_all(stored, chain);
    let more = listed_all(stored, chain.push(i));
    assert(more =~= walk.push(listed_at(stored, i as int)));
    assert forall|k: int| 0 <= k < chain.push(i).len() implies stored[#[trigger] chain.push(
        i,
    )[k] as int].loaded is Ok && first_at(stored, more[k].id, chain.push(i)[k] as int) && id_at(
        head,
        more,
        k,
    ) == Some(more[k].id) by {
        if k < chain.len() {
            assert(stored[chain[k] as int].loaded is Ok);
            assert(more[k] == walk[k]);
            assert(id_at(head, more, k) == id_at(head, walk, k));
        }
    }
    assert forall|k: int, l: int| 0 <= k < l < more.len() implies (#[trigger] more[k]).id != (
    #[trigger] more[l]).id by {
        if l < walk.len() {
            assert(walk[k].id != walk[l].id);
        } else {
            assert(walk[k].id != stored[i as int].id@);
        }
    }
}

/// Inserting by time is inserting at one position.
proof fn lemma_insert_newest(s: Seq<Listed>, x: Listed, k: int)
    requires
        0 <= k <= s.len(),
        k > 0 ==> s[k - 1].manifest.timestamp_secs >= x.manifest.timestamp_secs,
        forall|j: int|
            k <= j < s.len() ==> (#[trigger] s[j]).manifest.timestamp_secs
                < x.manifest.timestamp_secs,
    ensures
        insert_newest(s, x) == s.insert(k, x),
    decreases s.len(),
{
    if k == s.len() {
        assert(s.insert(k, x) =~= s.push(x));
    } else {
        lemma_insert_newest(s.drop_last(), x, k);
        assert(s.insert(k, x) =~= s.drop_last().insert(k, x).push(s.last()));
    }
}

/// Puts a snapshot into a list that is ordered by time.
fn insert(out: &mut Vec<(crate::Hash, Manifest)>, id: crate::Hash, m: Manifest)
    ensures
        listed(final(out)@) == insert_newest(listed(old(out)@), Listed { id: id@, manifest: m@ }),
{
    let ghost s = listed(out@);
    let ghost x = Listed { id: id@, manifest: m@ };
    let ts: u64 = m.timestamp_secs;
    let mut k: usize = out.len();
    while k > 0 && out[k - 1].1.timestamp_secs < ts
        invariant
            k <= out@.len(),
            s == listed(out@),
            x.manifest.timestamp_secs == ts,
            forall|j: int|
                k <= j < s.len() ==> (#[trigger] s[j]).manifest.timestamp_secs
                    < x.manifest.timestamp_secs,
        decreases k,
    {
        assert(s[k - 1].manifest.timestamp_secs == out@[k - 1].1.timestamp_secs);
        k = k - 1;
    }
    proof {
        if k > 0 {
            assert(s[k - 1].manifest.timestamp_secs == out@[k - 1].1.timestamp_secs);
        }
        lemma_insert_newest(s, x, k as int);
    }
    let ghost before = out@;
    out.insert(k, (id, m));
    assert(listed(out@) =~= s.insert(k as int, x));
}

/// Enumerate snapshots: those on HEAD's parent chain, then any stored
/// manifests not reachable from HEAD (e.g. pulled from a peer), ordered by
/// time, newest first. A manifest on the chain has to load; one that is not
/// reachable is passed over where it does not.
pub fn list(head: Option<crate::Hash>, stored: Vec<Stored>) -> (r: Result<
    Vec<(crate::Hash, Manifest)>,
>)
    ensures
        listed_as(stored@, hash_opt(head), r),
{
    let ghost top = hash_opt(head);
    let mut chain: Vec<usize> = Vec::new();
    let mut cur: Option<crate::Hash> = head;
    let mut out: Vec<(crate::Hash, Manifest)> = Vec::new();
    let mut going: bool = true;
    assert(listed_all(stored@, chain@) =~= Seq::empty());
    assert(listed(out@) =~= Seq::empty());
    while going
        invariant
            is_walk(stored@, top, chain@),
            chain@.len() <= stored@.len(),
            top == hash_opt(head),
            hash_opt(cur) == id_at(top, listed_all(stored@, chain@), chain@.len() as int),
            listed(out@) == newest_first(listed_all(stored@, chain@)),
            !going ==> walk_ends(top, listed_all(stored@, chain@)),
        decreases stored@.len() - chain@.len() + if going { 1int } else { 0int },
    {
        let ghost walk = listed_all(stored@, chain@);
        match cur {
            None => {
                going = false;
            },
            Some(id) => {
                assert forall|k: int| 0 <= k < chain@.len() implies (#[trigger] chain@[k])
                    < stored@.len() by {
                    assert(first_at(stored@, walk[k].id, chain@[k] as int));
                }
                if visited(&stored, &chain, &id) {
                    // Cycle guard.
                    going = false;
                } else {
                    match find(&stored, &id) {
                        None => {
                            let r: Result<Vec<(crate::Hash, Manifest)>> = Err(
                                Error::MissingObject(id),
                            );
                            assert(list_outcome(stored@, top, chain@, r));
                            return r;
                        },
                        Some(i) => {
                            match &stored[i].loaded {
                                Err(_) => {
                                    let r = take_failed(stored, i);
                                    proof {
                                        assert forall|j: int| #[trigger]
                                            first_at(stored@, id@, j) implies j == i by {}
                                        assert(list_outcome(stored@, top, chain@, r));
                                    }
                                    return r;
                                },
                                Ok(m) => {
                                    proof {
                                        lemma_walk_push(stored@, top, chain@, i);
                                        assert(walk.push(
                                            listed_at(stored@, i as int),
                                        ).drop_last() =~= walk);
                                    }
                                    cur = m.parent;
                                    let c = m.copy();
                                    insert(&mut out, id, c);
                                    chain.push(i);
                                    proof {
                                        lemma_walk_bounded(stored@, top, chain@);
                                    }
                                },
                            }
                        },
                    }
                }
            },
        }
    }
    let ghost walk = listed_all(stored@, chain@);
    assert forall|k: int| 0 <= k < chain@.len() implies (#[trigger] chain@[k]) < stored@.len() by {
        assert(first_at(stored@, walk[k].id, chain@[k] as int));
    }
    let mut i: usize = 0;
    assert(walk + orphans(stored@, walk, 0) =~= walk);
    while i < stored.len()
        invariant
            i <= stored@.len(),
            walk == listed_all(stored@, chain@),
            forall|k: int| 0 <= k < chain@.len() ==> (#[trigger] chain@[k]) < stored@.len(),
            listed(out@) == newest_first(walk + orphans(stored@, walk, i as int)),
        decreases stored@.len() - i,
    {
        let id = stored[i].id;
        let ghost before = walk + orphans(stored@, walk, i as int);
        let first: bool = match find(&stored, &id) {
            Some(j) => j == i,
            None => false,
        };
        if first && !visited(&stored, &chain, &id) {
            match &stored[i].loaded {
                Ok(m) => {
                    proof {
                        let more = walk + orphans(stored@, walk, i as int + 1);
                        assert(more =~= before.push(listed_at(stored@, i as int)));
                        assert(more.drop_last() =~= before);
                    }
                    let c = m.copy();
                    insert(&mut out, id, c);
                },
                Err(_) => {},
            }
        }
        i = i + 1;
    }
    let r: Result<Vec<(crate::Hash, Manifest)>> = Ok(out);
    assert(list_outcome(stored@, top, chain@, r));
    r
}

/// The error with which the manifest at `i` did not load.
fn take_failed(stored: Vec<Stored>, i: usize) -> (r: Result<Vec<(crate::Hash, Manifest)>>)
    requires
        i < stored@.len(),
        stored@[i as int].loaded is Err,
    ensures
        r is Err,
        r->Err_0@ == stored@[i as int].loaded->Err_0@,
{
    let mut rest = stored;
    match rest.swap_remove(i).loaded {
        Err(e) => Err(e),
        Ok(_) => Ok(Vec::new()),
    }
}

/// Whether the times never rise.
pub open spec fn newest_order(s: Seq<Listed>) -> bool {
    forall|i: int, j: int|
        0 <= i < j < s.len() ==> (#[trigger] s[i]).manifest.timestamp_secs >= (
        #[trigger] s[j]).manifest.timestamp_secs
}

proof fn lemma_insert_newest_order(s: Seq<Listed>, x: Listed)
    requires
        newest_order(s),
    ensures
        newest_order(insert_newest(s, x)),
        insert_newest(s, x).to_multiset() == s.to_multiset().insert(x),
        forall|j: int|
            0 <= j < insert_newest(s, x).len() ==> (#[trigger] insert_newest(s, x)[j]) == x
                || s.contains(insert_newest(s, x)[j]),
    decreases s.len(),
{
    broadcast use group_to_multiset_ensures;

    let t = insert_newest(s, x);
    if s.len() == 0 || s.last().manifest.timestamp_secs >= x.manifest.timestamp_secs {
        assert forall|i: int, j: int| 0 <= i < j < t.len() implies (
        #[trigger] t[i]).manifest.timestamp_secs >= (#[trigger] t[j]).manifest.timestamp_secs by {
            if j == s.len() && i < s.len() - 1 {
                assert(s[i].manifest.timestamp_secs >= s[s.len() - 1].manifest.timestamp_secs);
            }
        }
        assert forall|j: int| 0 <= j < t.len() implies (#[trigger] t[j]) == x || s.contains(
            t[j],
        ) by {
            if j < s.len() {
                assert(s[j] == t[j]);
            }
        }
    } else {
        let rest = s.drop_last();
        lemma_insert_newest_order(rest, x);
        let u = insert_newest(rest, x);
        assert forall|j: int| 0 <= j < u.len() implies (
        #[trigger] u[j]).manifest.timestamp_secs >= s.last().manifest.timestamp_secs && (u[j] == x
            || s.contains(u[j])) by {
            if u[j] != x {
                assert(rest.contains(u[j]));
                let k = choose|k: int| 0 <= k < rest.len() && rest[k] == u[j];
                assert(s[k] == u[j]);
                assert(s[k].manifest.timestamp_secs >= s[s.len() - 1].manifest.timestamp_secs);
            }
        }
        assert forall|i: int, j: int| 0 <= i < j < t.len() implies (
        #[trigger] t[i]).manifest.timestamp_secs >= (#[trigger] t[j]).manifest.timestamp_secs by {
            if j < u.len() {
                assert(u[i].manifest.timestamp_secs >= u[j].manifest.timestamp_secs);
            }
        }
        assert forall|j: int| 0 <= j < t.len() implies (#[trigger] t[j]) == x || s.contains(
            t[j],
        ) by {
            if j == u.len() {
                assert(s[s.len() - 1] == t[j]);
            } else {
                assert(u[j] == t[j]);
            }
        }
        assert(s =~= rest.push(s.last()));
        assert(t.to_multiset() =~= s.to_multiset().insert(x));
    }
}

/// The list is ordered newest first and holds exactly the snapshots that were
/// found.
pub proof fn list_is_newest_first(s: Seq<Listed>)
    ensures
        newest_order(newest_first(s)),
        newest_first(s).to_multiset() == s.to_multiset(),
    decreases s.len(),
{
    broadcast use group_to_multiset_ensures;

    if s.len() > 0 {
        list_is_newest_first(s.drop_last());
        lemma_insert_newest_order(newest_first(s.drop_last()), s.last());
        assert(s =~= s.drop_last().push(s.last()));
    }
}

proof fn lemma_orphans(stored: Seq<Stored>, walk: Seq<Listed>, n: int)
    requires
        0 <= n <= stored.len(),
    ensures
        forall|i: int|
            0 <= i < n && (#[trigger] stored[i]).loaded is Ok && first_at(stored, stored[i].id@, i)
                && !has_id(walk, stored[i].id@) ==> orphans(stored, walk, n).contains(
                listed_at(stored, i),
            ),
        forall|k: int|
            0 <= k < orphans(stored, walk, n).len() ==> exists|i: int|
                0 <= i < n && stored[i].loaded is Ok && #[trigger] first_at(
                    stored,
                    stored[i].id@,
                    i,
                ) && !has_id(walk, stored[i].id@) && (#[trigger] orphans(stored, walk, n)[k])
                    == listed_at(stored, i),
        forall|k: int, l: int|
            0 <= k < l < orphans(stored, walk, n).len() ==> (#[trigger] orphans(
                stored,
                walk,
                n,
            )[k]).id != (#[trigger] orphans(stored, walk, n)[l]).id,
    decreases n,
{
    if n > 0 {
        lemma_orphans(stored, walk, n - 1);
        let rest = orphans(stored, walk, n - 1);
        let all = orphans(stored, walk, n);
        let x = listed_at(stored, n - 1);
        let taken = stored[n - 1].loaded is Ok && !has_id(walk, stored[n - 1].id@) && first_at(
            stored,
            stored[n - 1].id@,
            n - 1,
        );
        assert forall|i: int|
            0 <= i < n && (#[trigger] stored[i]).loaded is Ok && first_at(stored, stored[i].id@, i)
                && !has_id(walk, stored[i].id@) implies all.contains(listed_at(stored, i)) by {
            if i < n - 1 {
                assert(rest.contains(listed_at(stored, i)));
                let k = choose|k: int| 0 <= k < rest.len() && rest[k] == listed_at(stored, i);
                assert(all[k] == listed_at(stored, i));
            } else {
                assert(all[all.len() - 1] == x);
            }
        }
        assert forall|k: int| 0 <= k < all.len() implies exists|i: int|
            0 <= i < n && stored[i].loaded is Ok && #[trigger] first_at(stored, stored[i].id@, i)
                && !has_id(walk, stored[i].id@) && (#[trigger] all[k]) == listed_at(stored, i) by {
            if k < rest.len() {
                let i = choose|i: int|
                    0 <= i < n - 1 && stored[i].loaded is Ok && #[trigger] first_at(
                        stored,
                        stored[i].id@,
                        i,
                    ) && !has_id(walk, stored[i].id@) && rest[k] == listed_at(stored, i);
                assert(first_at(stored, stored[i].id@, i));
                assert(all[k] == rest[k]);
            } else {
                assert(taken);
                assert(first_at(stored, stored[n - 1].id@, n - 1));
            }
        }
        assert forall|k: int, l: int| 0 <= k < l < all.len() implies (#[trigger] all[k]).id != (
        #[trigger] all[l]).id by {
            if l < rest.len() {
                assert(rest[k].id != rest[l].id);
            } else {
                let i = choose|i: int|
                    0 <= i < n - 1 && stored[i].loaded is Ok && #[trigger] first_at(
                        stored,
                        stored[i].id@,
                        i,
                    ) && !has_id(walk, stored[i].id@) && rest[k] == listed_at(stored, i);
                assert(first_at(stored, stored[n - 1].id@, n - 1));
                assert(stored[i].id@ != stored[n - 1].id@);
            }
        }
    }
}

/// Two lists with the same elements, counted, hold the same elements.
proof fn lemma_same_elements(a: Seq<Listed>, b: Seq<Listed>)
    requires
        a.to_multiset() == b.to_multiset(),
    ensures
        forall|x: Listed| #[trigger] a.contains(x) <==> b.contains(x),
{
    broadcast use group_to_multiset_ensures;

    assert forall|x: Listed| #[trigger] a.contains(x) <==> b.contains(x) by {
        assert(a.contains(x) <==> a.to_multiset().count(x) > 0);
        assert(b.contains(x) <==> b.to_multiset().count(x) > 0);
    }
}

/// The snapshots that listing finds, before it orders them: the walk and what
/// it did not reach.
proof fn lemma_found_once(stored: Seq<Stored>, head: Option<Seq<u8>>, chain: Seq<usize>)
    requires
        is_walk(stored, head, chain),
    ensures
        ({
            let walk = listed_all(stored, chain);
            let all = walk + orphans(stored, walk, stored.len() as int);
            &&& forall|k: int, l: int|
                0 <= k < l < all.len() ==> (#[trigger] all[k]).id != (#[trigger] all[l]).id
            &&& forall|i: int|
                (#[trigger] stored[i]).loaded is Ok && first_at(stored, stored[i].id@, i)
                    ==> all.contains(listed_at(stored, i))
            &&& forall|k: int|
                0 <= k < all.len() ==> exists|i: int|
                    stored[i].loaded is Ok && #[trigger] first_at(stored, stored[i].id@, i) && (
                    #[trigger] all[k]) == listed_at(stored, i)
        }),
{
    let walk = listed_all(stored, chain);
    let rest = orphans(stored, walk, stored.len() as int);
    let all = walk + rest;
    lemma_orphans(stored, walk, stored.len() as int);
    assert forall|k: int, l: int| 0 <= k < l < all.len() implies (#[trigger] all[k]).id != (
    #[trigger] all[l]).id by {
        if l < walk.len() {
            assert(walk[k].id != walk[l].id);
        } else if k >= walk.len() {
            assert(rest[k - walk.len()].id != rest[l - walk.len()].id);
        } else {
            let m = l - walk.len();
            let i = choose|i: int|
                0 <= i < stored.len() && stored[i].loaded is Ok && #[trigger] first_at(
                    stored,
                    stored[i].id@,
                    i,
                ) && !has_id(walk, stored[i].id@) && rest[m] == listed_at(stored, i);
            assert(walk[k].id != stored[i].id@);
        }
    }
    assert forall|i: int|
        (#[trigger] stored[i]).loaded is Ok && first_at(
            stored,
            stored[i].id@,
            i,
        ) implies all.contains(listed_at(stored, i)) by {
        let x = listed_at(stored, i);
        if has_id(walk, stored[i].id@) {
            let k = choose|k: int| 0 <= k < walk.len() && (#[trigger] walk[k]).id == x.id;
            assert(first_at(stored, walk[k].id, chain[k] as int));
            assert(chain[k] as int == i);
            assert(all[k] == x);
        } else {
            assert(rest.contains(x));
            let k = choose|k: int| 0 <= k < rest.len() && rest[k] == x;
            assert(all[walk.len() + k] == x);
        }
    }
    assert forall|k: int| 0 <= k < all.len() implies exists|i: int|
        stored[i].loaded is Ok && #[trigger] first_at(stored, stored[i].id@, i) && (
        #[trigger] all[k]) == listed_at(stored, i) by {
        if k < walk.len() {
            assert(stored[chain[k] as int].loaded is Ok);
            assert(first_at(stored, walk[k].id, chain[k] as int));
            assert(all[k] == listed_at(stored, chain[k] as int));
            assert(first_at(stored, stored[chain[k] as int].id@, chain[k] as int));
        } else {
            let i = choose|i: int|
                0 <= i < stored.len() && stored[i].loaded is Ok && #[trigger] first_at(
                    stored,
                    stored[i].id@,
                    i,
                ) && !has_id(walk, stored[i].id@) && rest[k - walk.len()] == listed_at(stored, i);
            assert(first_at(stored, stored[i].id@, i));
        }
    }
}

/// Ordering by time keeps what there is, and no id comes twice where none did.
proof fn lemma_ordered_once(all: Seq<Listed>, out: Seq<Listed>)
    requires
        forall|k: int, l: int|
            0 <= k < l < all.len() ==> (#[trigger] all[k]).id != (#[trigger] all[l]).id,
        out == newest_first(all),
    ensures
        forall|x: Listed| #[trigger] all.contains(x) <==> out.contains(x),
        forall|k: int, l: int|
            0 <= k < l < out.len() ==> (#[trigger] out[k]).id != (#[trigger] out[l]).id
                && out[k].manifest.timestamp_secs >= out[l].manifest.timestamp_secs,
{
    list_is_newest_first(all);
    lemma_same_elements(all, out);
    assert(all.no_duplicates());
    all.lemma_multiset_has_no_duplicates();
    out.lemma_multiset_has_no_duplicates_conv();
    assert forall|k: int, l: int| 0 <= k < l < out.len() implies (#[trigger] out[k]).id != (
    #[trigger] out[l]).id && out[k].manifest.timestamp_secs >= out[l].manifest.timestamp_secs by {
        assert(out.contains(out[k]) && out.contains(out[l]));
        assert(all.contains(out[k]) && all.contains(out[l]));
        let a = choose|a: int| 0 <= a < all.len() && all[a] == out[k];
        let b = choose|b: int| 0 <= b < all.len() && all[b] == out[l];
        assert(out[k] != out[l]);
        if a < b {
            assert(all[a].id != all[b].id);
        } else {
            assert(all[b].id != all[a].id);
        }
    }
}

/// Nothing that is stored is lost from the log, and nothing else is in it:
/// where listing succeeds, every stored id whose manifest loads at its first
/// position is listed, with its manifest, once; everything listed is such an
/// id; and the times never rise. Whether HEAD's chain leads there does not
/// matter.
pub proof fn list_holds_every_stored_snapshot(
    stored: Seq<Stored>,
    head: Option<Seq<u8>>,
    r: Result<Vec<(crate::Hash, Manifest)>>,
)
    requires
        listed_as(stored, head, r),
        r is Ok,
    ensures
        forall|i: int|
            0 <= i < stored.len() && (#[trigger] stored[i]).loaded is Ok && (forall|j: int|
                0 <= j < i ==> (#[trigger] stored[j]).id@ != stored[i].id@) ==> exists|k: int|
                0 <= k < r->Ok_0@.len() && (#[trigger] r->Ok_0@[k]).0@ == stored[i].id@
                    && r->Ok_0@[k].1@ == stored[i].loaded->Ok_0@,
        forall|k: int|
            0 <= k < r->Ok_0@.len() ==> exists|i: int|
                0 <= i < stored.len() && (#[trigger] stored[i]).loaded is Ok && (forall|j: int|
                    0 <= j < i ==> (#[trigger] stored[j]).id@ != stored[i].id@) && (
                #[trigger] r->Ok_0@[k]).0@ == stored[i].id@ && r->Ok_0@[k].1@
                    == stored[i].loaded->Ok_0@,
        forall|k: int, l: int|
            0 <= k < l < r->Ok_0@.len() ==> (#[trigger] r->Ok_0@[k]).0@ != (
            #[trigger] r->Ok_0@[l]).0@ && r->Ok_0@[k].1@.timestamp_secs
                >= r->Ok_0@[l].1@.timestamp_secs,
{
    let v = r->Ok_0@;
    let out = listed(v);
    let chain = choose|chain: Seq<usize>| #[trigger]
        is_walk(stored, head, chain) && list_outcome(stored, head, chain, r);
    let walk = listed_all(stored, chain);
    let all = walk + orphans(stored, walk, stored.len() as int);
    lemma_found_once(stored, head, chain);
    lemma_ordered_once(all, out);
    assert forall|k: int, l: int| 0 <= k < l < v.len() implies (#[trigger] v[k]).0@ != (
    #[trigger] v[l]).0@ && v[k].1@.timestamp_secs >= v[l].1@.timestamp_secs by {
        assert(out[k].id != out[l].id);
    }
    assert forall|i: int|
        0 <= i < stored.len() && (#[trigger] stored[i]).loaded is Ok && (forall|j: int|
            0 <= j < i ==> (#[trigger] stored[j]).id@ != stored[i].id@) implies exists|k: int|
        0 <= k < v.len() && (#[trigger] v[k]).0@ == stored[i].id@ && v[k].1@
            == stored[i].loaded->Ok_0@ by {
        let x = listed_at(stored, i);
        assert(first_at(stored, stored[i].id@, i));
        assert(all.contains(x));
        assert(out.contains(x));
        let k = choose|k: int| 0 <= k < out.len() && out[k] == x;
        assert(v[k].0@ == stored[i].id@);
    }
    assert forall|k: int| 0 <= k < v.len() implies exists|i: int|
        0 <= i < stored.len() && (#[trigger] stored[i]).loaded is Ok && (forall|j: int|
            0 <= j < i ==> (#[trigger] stored[j]).id@ != stored[i].id@) && (#[trigger] v[k]).0@
            == stored[i].id@ && v[k].1@ == stored[i].loaded->Ok_0@ by {
        assert(out.contains(out[k]));
        assert(all.contains(out[k]));
        let a = choose|a: int| 0 <= a < all.len() && all[a] == out[k];
        let i = choose|i: int|
            stored[i].loaded is Ok && #[trigger] first_at(stored, stored[i].id@, i) && all[a]
                == listed_at(stored, i);
        assert(stored[i].loaded is Ok && v[k].0@ == stored[i].id@);
    }
}

/// Listing fails only for want of a manifest on HEAD's chain: where HEAD and
/// every parent are stored, and all that is stored loads, it succeeds.
pub proof fn complete_history_can_be_listed(
    stored: Seq<Stored>,
    head: Option<Seq<u8>>,
    r: Result<Vec<(crate::Hash, Manifest)>>,
)
    requires
        listed_as(stored, head, r),
        forall|i: int| 0 <= i < stored.len() ==> (#[trigger] stored[i]).loaded is Ok,
        head is Some ==> exists|i: int|
            0 <= i < stored.len() && (#[trigger] stored[i]).id@ == head->Some_0,
        forall|i: int|
            0 <= i < stored.len() && (#[trigger] stored[i]).loaded->Ok_0@.parent is Some ==> exists|
                j: int,
            |
                0 <= j < stored.len() && (#[trigger] stored[j]).id@
                    == stored[i].loaded->Ok_0@.parent->Some_0,
    ensures
        r is Ok,
{
    let chain = choose|chain: Seq<usize>| #[trigger]
        is_walk(stored, head, chain) && list_outcome(stored, head, chain, r);
    let walk = listed_all(stored, chain);
    if r is Err {
        let next = id_at(head, walk, walk.len() as int)->Some_0;
        if chain.len() > 0 {
            let k = chain.len() - 1;
            assert(first_at(stored, walk[k].id, chain[k] as int));
            assert(stored[chain[k] as int].loaded is Ok);
            assert(walk[k].manifest == stored[chain[k] as int].loaded->Ok_0@);
        }
        let i = choose|i: int| 0 <= i < stored.len() && (#[trigger] stored[i]).id@ == next;
        lemma_first(stored, next, i);
    }
}

/// An id that is stored has a first position.
proof fn lemma_first(stored: Seq<Stored>, id: Seq<u8>, i: int)
    requires
        0 <= i < stored.len(),
        stored[i].id@ == id,
    ensures
        exists|k: int| #[trigger] first_at(stored, id, k) && k <= i,
    decreases i,
{
    if exists|j: int| 0 <= j < i && (#[trigger] stored[j]).id@ == id {
        let j = choose|j: int| 0 <= j < i && (#[trigger] stored[j]).id@ == id;
        lemma_first(stored, id, j);
    } else {
        assert(first_at(stored, id, i));
    }
}

/// Snapshots of one second keep the order in which they were found: those on
/// HEAD's chain from HEAD down, then the others as they are stored.
pub proof fn snapshots_of_one_time_keep_their_order(s: Seq<Listed>, t: u64)
    ensures
        newest_first(s).filter(|x: Listed| x.manifest.timestamp_secs == t) == s.filter(
            |x: Listed| x.manifest.timestamp_secs == t,
        ),
    decreases s.len(),
{
    reveal(Seq::filter);
    if s.len() > 0 {
        snapshots_of_one_time_keep_their_order(s.drop_last(), t);
        lemma_insert_keeps_order(newest_first(s.drop_last()), s.last(), t);
    }
}

proof fn lemma_insert_keeps_order(s: Seq<Listed>, x: Listed, t: u64)
    ensures
        insert_newest(s, x).filter(|x: Listed| x.manifest.timestamp_secs == t) == if x.manifest.timestamp_secs
            == t {
            s.filter(|x: Listed| x.manifest.timestamp_secs == t).push(x)
        } else {
            s.filter(|x: Listed| x.manifest.timestamp_secs == t)
        },
    decreases s.len(),
{
    reveal(Seq::filter);
    let f = |x: Listed| x.manifest.timestamp_secs == t;
    if s.len() == 0 || s.last().manifest.timestamp_secs >= x.manifest.timestamp_secs {
        assert(s.push(x).drop_last() =~= s);
    } else {
        lemma_insert_keeps_order(s.drop_last(), x, t);
        let u = insert_newest(s.drop_last(), x);
        assert(u.push(s.last()).drop_last() =~= u);
    }
}

/// The walk that a list begins with goes from HEAD along the parents, as far as
/// they lead: it ends only where there is no parent, or at one that it has come
/// by.
pub proof fn walk_follows_the_parents(
    stored: Seq<Stored>,
    head: Option<Seq<u8>>,
    chain: Seq<usize>,
    k: int,
)
    requires
        is_walk(stored, head, chain),
        0 <= k < chain.len(),
    ensures
        0 <= chain[k] < stored.len(),
        stored[chain[k] as int].loaded is Ok,
        k == 0 ==> head == Some(stored[chain[0] as int].id@),
        k > 0 ==> stored[chain[k - 1] as int].loaded->Ok_0@.parent == Some(
            stored[chain[k] as int].id@,
        ),
        walk_ends(head, listed_all(stored, chain)) && k == chain.len() - 1 ==> {
            let p = stored[chain[k] as int].loaded->Ok_0@.parent;
            p is None || exists|l: int|
                0 <= l < chain.len() && stored[#[trigger] chain[l] as int].id@ == p->Some_0
        },
{
    let walk = listed_all(stored, chain);
    assert(first_at(stored, walk[k].id, chain[k] as int));
    assert(id_at(head, walk, k) == Some(walk[k].id));
    if k > 0 {
        assert(walk[k - 1].manifest == stored[chain[k - 1] as int].loaded->Ok_0@);
    }
    if walk_ends(head, walk) && k == chain.len() - 1 {
        let p = walk[k].manifest.parent;
        assert(p == id_at(head, walk, walk.len() as int));
        if p is Some {
            let l = choose|l: int| 0 <= l < walk.len() && (#[trigger] walk[l]).id == p->Some_0;
            assert(stored[chain[l] as int].id@ == p->Some_0);
        }
    }
}

} // verus!
