//! Watch mode: which of the paths that file system events name are reported.
//! Events are debounced by draining a window; each window reports the touched
//! relative paths once, in order.

use vstd::prelude::*;
use vstd::string::*;
use crate::capture::slashed;
use crate::capture::with_slashes;
use crate::index::TextIndex;
use crate::index::lists;
use crate::paths::excluded;
use crate::paths::is_excluded;
use crate::text::lemma_push_has;
use crate::text::lemma_strs_push;
use crate::text::strs;

verus! {

/// Whether a path is reported: one that a snapshot does not leave out.
pub open spec fn watched(rel: Seq<char>) -> bool {
    !is_excluded(rel)
}

/// Same rule as snapshot/drift: fabric internals, .git and .DS_Store are
/// excluded by component, not by prefix (so `.github` still reports).
pub fn is_tracked(rel: &str) -> (r: bool)
    ensures
        r == watched(rel@),
        r == !is_excluded(rel@),
{
    !excluded(rel)
}

/// The paths that a window reports: those that are watched.
pub open spec fn reported(rels: Seq<Seq<char>>) -> spec_fn(Seq<char>) -> bool {
    |p: Seq<char>|
        exists|i: int| 0 <= i < rels.len() && watched(#[trigger] rels[i]) && slashed(rels[i]) == p
}

/// The deduplicated relative paths of one debounce window, in order. `rels`
/// are the paths, relative to the worktree root, that its events name.
pub fn changed_paths(rels: &Vec<String>) -> (r: Vec<String>)
    ensures
        lists(strs(r@), reported(strs(rels@))),
        forall|p: Seq<char>| #[trigger]
            strs(r@).contains(p) <==> exists|i: int|
                0 <= i < rels@.len() && !is_excluded((#[trigger] rels@[i])@) && slashed(rels@[i]@)
                    == p,
{
    let ghost all = strs(rels@);
    let mut kept: Vec<String> = Vec::new();
    let mut i: usize = 0;
    assert(strs(kept@) =~= Seq::empty());
    while i < rels.len()
        invariant
            i <= rels@.len(),
            all == strs(rels@),
            forall|p: Seq<char>| #[trigger]
                strs(kept@).contains(p) <==> reported(all.take(i as int))(p),
        decreases rels@.len() - i,
    {
        let ghost before = strs(kept@);
        let ghost seen = all.take(i as int);
        let ghost more = all.take(i + 1);
        assert(all[i as int] == rels@[i as int]@);
        assert(more =~= seen.push(all[i as int]));
        if is_tracked(rels[i].as_str()) {
            let p = with_slashes(rels[i].as_str());
            proof {
                lemma_strs_push(kept@, p);
            }
            kept.push(p);
        }
        proof {
            assert forall|p: Seq<char>| #[trigger] strs(kept@).contains(p) <==> reported(
                more,
            )(p) by {
                lemma_reported_push(seen, all[i as int], p);
                lemma_push_has(before, slashed(all[i as int]), p);
                assert(before.contains(p) <==> reported(seen)(p));
            }
        }
        i = i + 1;
    }
    assert(all.take(i as int) =~= all);
    let index = TextIndex::new(&kept);
    let ghost keys = index.keys();
    let n: usize = index.len();
    let mut out: Vec<String> = Vec::new();
    let mut k: usize = 0;
    assert(strs(out@) =~= keys.take(0));
    while k < n
        invariant
            k <= n,
            n == keys.len(),
            keys == index.keys(),
            index.source() == strs(kept@),
            strs(out@) == keys.take(k as int),
        decreases n - k,
    {
        let at: usize = index.position(k);
        let c = kept[at].clone();
        proof {
            assert(strs(kept@)[at as int] == c@);
            lemma_strs_push(out@, c);
            assert(keys.take(k + 1) =~= keys.take(k as int).push(c@));
        }
        out.push(c);
        k = k + 1;
    }
    proof {
        assert(keys.take(k as int) =~= keys);
        assert forall|p: Seq<char>| #[trigger] keys.contains(p) <==> reported(all)(p) by {
            assert(strs(kept@).contains(p) <==> reported(all)(p));
        }
    }
    proof {
        assert forall|p: Seq<char>| #[trigger] strs(out@).contains(p) <==> exists|i: int|
            0 <= i < rels@.len() && !is_excluded((#[trigger] rels@[i])@) && slashed(rels@[i]@)
                == p by {
            assert(strs(out@).contains(p) <==> reported(all)(p));
            if reported(all)(p) {
                let i = choose|i: int|
                    0 <= i < all.len() && watched(#[trigger] all[i]) && slashed(all[i]) == p;
                assert(all[i] == rels@[i]@);
            }
            if exists|i: int|
                0 <= i < rels@.len() && !is_excluded((#[trigger] rels@[i])@) && slashed(rels@[i]@)
                    == p {
                let i = choose|i: int|
                    0 <= i < rels@.len() && !is_excluded((#[trigger] rels@[i])@) && slashed(
                        rels@[i]@,
                    ) == p;
                assert(all[i] == rels@[i]@);
                assert(watched(all[i]));
            }
        }
    }
    out
}

proof fn lemma_reported_push(seen: Seq<Seq<char>>, x: Seq<char>, p: Seq<char>)
    ensures
        reported(seen.push(x))(p) <==> reported(seen)(p) || (watched(x) && slashed(x) == p),
{
    let more = seen.push(x);
    if reported(seen)(p) {
        let i = choose|i: int|
            0 <= i < seen.len() && watched(#[trigger] seen[i]) && slashed(seen[i]) == p;
        assert(more[i] == seen[i]);
    }
    assert(more[seen.len() as int] == x);
    if reported(more)(p) {
        let i = choose|i: int|
            0 <= i < more.len() && watched(#[trigger] more[i]) && slashed(more[i]) == p;
        if i < seen.len() {
            assert(seen[i] == more[i]);
        }
    }
}

} // verus!
