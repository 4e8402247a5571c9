//! Sets of hashes as strictly ascending lists.

use vstd::prelude::*;
use crate::digest::hash_eq;
use crate::snapshot::hashes;
use crate::text::lemma_plus_has;
use crate::text::lemma_push_has;

verus! {

/// Whether `a` comes before `b`: the first byte in which they differ decides.
pub open spec fn bytes_before(a: Seq<u8>, b: Seq<u8>) -> bool
    decreases a.len(),
{
    if a.len() == 0 || b.len() == 0 {
        a.len() < b.len()
    } else if a[0] != b[0] {
        a[0] < b[0]
    } else {
        bytes_before(a.drop_first(), b.drop_first())
    }
}

/// A list of byte strings in strictly ascending order.
pub open spec fn ascending_bytes(s: Seq<Seq<u8>>) -> bool {
    forall|i: int, j: int|
        0 <= i < j < s.len() ==> bytes_before(#[trigger] s[i], #[trigger] s[j])
}

proof fn lemma_before_transitive(a: Seq<u8>, b: Seq<u8>, c: Seq<u8>)
    requires
        bytes_before(a, b),
        bytes_before(b, c),
    ensures
        bytes_before(a, c),
    decreases a.len(),
{
    if a.len() > 0 && c.len() > 0 && a[0] == b[0] && b[0] == c[0] {
        lemma_before_transitive(a.drop_first(), b.drop_first(), c.drop_first());
    }
}

proof fn lemma_before_irreflexive(a: Seq<u8>)
    ensures
        !bytes_before(a, a),
    decreases a.len(),
{
    if a.len() > 0 {
        lemma_before_irreflexive(a.drop_first());
    }
}

/// A list of distinct hashes holds nothing twice: no object is asked for a
/// second time.
pub proof fn distinct_hashes_occur_once(s: Seq<Seq<u8>>, i: int, j: int)
    requires
        ascending_bytes(s),
        0 <= i < j < s.len(),
    ensures
        s[i] != s[j],
{
    assert(bytes_before(s[i], s[j]));
    lemma_before_irreflexive(s[i]);
}

/// How two hashes stand to each other.
enum Place {
    Before,
    Same,
    Behind,
}

fn place(a: &crate::Hash, b: &crate::Hash) -> (r: Place)
    ensures
        match r {
            Place::Before => bytes_before(a@, b@),
            Place::Same => a@ == b@,
            Place::Behind => bytes_before(b@, a@),
        },
{
    let mut i: usize = 0;
    assert(a@.skip(0) =~= a@);
    assert(b@.skip(0) =~= b@);
    while i < 32
        invariant
            i <= 32,
            a@.len() == 32,
            b@.len() == 32,
            a@.take(i as int) == b@.take(i as int),
            bytes_before(a@, b@) == bytes_before(a@.skip(i as int), b@.skip(i as int)),
            bytes_before(b@, a@) == bytes_before(b@.skip(i as int), a@.skip(i as int)),
        decreases 32 - i,
    {
        let x: u8 = a[i];
        let y: u8 = b[i];
        assert(a@.skip(i as int)[0] == x);
        assert(b@.skip(i as int)[0] == y);
        assert(a@.skip(i as int).drop_first() =~= a@.skip(i + 1));
        assert(b@.skip(i as int).drop_first() =~= b@.skip(i + 1));
        if x < y {
            return Place::Before;
        }
        if y < x {
            return Place::Behind;
        }
        i = i + 1;
        assert(a@.take(i as int) =~= b@.take(i as int));
    }
    assert(a@ =~= a@.take(32));
    assert(b@ =~= b@.take(32));
    Place::Same
}

/// Whether the hashes of `r` are those of `a` and `b` together.
#[verifier::opaque]
spec fn both(r: Seq<Seq<u8>>, a: Seq<Seq<u8>>, b: Seq<Seq<u8>>) -> bool {
    forall|x: Seq<u8>| #[trigger] r.contains(x) <==> a.contains(x) || b.contains(x)
}

proof fn lemma_both_push(r: Seq<Seq<u8>>, a: Seq<Seq<u8>>, b: Seq<Seq<u8>>, x: Seq<u8>)
    requires
        both(r, a, b),
    ensures
        both(r.push(x), a.push(x), b),
        both(r.push(x), a, b.push(x)),
        both(r.push(x), a.push(x), b.push(x)),
{
    reveal(both);
    assert forall|y: Seq<u8>| #[trigger] r.push(x).contains(y) <==> r.contains(y) || x == y by {
        lemma_push_has(r, x, y);
    }
    assert forall|y: Seq<u8>| #[trigger] a.push(x).contains(y) <==> a.contains(y) || x == y by {
        lemma_push_has(a, x, y);
    }
    assert forall|y: Seq<u8>| #[trigger] b.push(x).contains(y) <==> b.contains(y) || x == y by {
        lemma_push_has(b, x, y);
    }
    assert forall|y: Seq<u8>| #[trigger] r.push(x).contains(y) <==> a.push(x).contains(y)
        || b.contains(y) by {
        assert(r.contains(y) <==> a.contains(y) || b.contains(y));
        assert(a.push(x).contains(y) <==> a.contains(y) || x == y);
    }
    assert forall|y: Seq<u8>| #[trigger] r.push(x).contains(y) <==> a.contains(y) || b.push(
        x,
    ).contains(y) by {
        assert(r.contains(y) <==> a.contains(y) || b.contains(y));
        assert(b.push(x).contains(y) <==> b.contains(y) || x == y);
    }
    assert forall|y: Seq<u8>| #[trigger] r.push(x).contains(y) <==> a.push(x).contains(y)
        || b.push(x).contains(y) by {
        assert(r.contains(y) <==> a.contains(y) || b.contains(y));
        assert(a.push(x).contains(y) <==> a.contains(y) || x == y);
        assert(b.push(x).contains(y) <==> b.contains(y) || x == y);
    }
}

/// The last hash of `s` comes before the hash at `i` in `t`, where both are
/// there.
spec fn below(s: Seq<Seq<u8>>, t: Seq<Seq<u8>>, i: int) -> bool {
    s.len() > 0 && i < t.len() ==> bytes_before(s.last(), t[i])
}

proof fn lemma_ascending_push(s: Seq<Seq<u8>>, x: Seq<u8>)
    requires
        ascending_bytes(s),
        s.len() > 0 ==> bytes_before(s.last(), x),
    ensures
        ascending_bytes(s.push(x)),
{
    let t = s.push(x);
    assert forall|i: int, j: int| 0 <= i < j < t.len() implies bytes_before(
        #[trigger] t[i],
        #[trigger] t[j],
    ) by {
        if j == s.len() {
            if i < s.len() - 1 {
                assert(bytes_before(s[i], s[s.len() - 1]));
                lemma_before_transitive(s[i], s.last(), x);
            }
        } else {
            assert(bytes_before(s[i], s[j]));
        }
    }
}

/// Merges two ascending lists; what both hold is kept once.
fn merge(a: &Vec<crate::Hash>, b: &Vec<crate::Hash>) -> (r: Vec<crate::Hash>)
    requires
        ascending_bytes(hashes(a@)),
        ascending_bytes(hashes(b@)),
    ensures
        ascending_bytes(hashes(r@)),
        both(hashes(r@), hashes(a@), hashes(b@)),
{
    let ghost ha = hashes(a@);
    let ghost hb = hashes(b@);
    let mut out: Vec<crate::Hash> = Vec::new();
    let mut i: usize = 0;
    let mut j: usize = 0;
    assert(both(hashes(out@), ha.take(0), hb.take(0))) by {
        reveal(both);
    }
    while i < a.len() || j < b.len()
        invariant
            i <= a@.len(),
            j <= b@.len(),
            ha == hashes(a@),
            hb == hashes(b@),
            ascending_bytes(ha),
            ascending_bytes(hb),
            ascending_bytes(hashes(out@)),
            below(hashes(out@), ha, i as int),
            below(hashes(out@), hb, j as int),
            both(hashes(out@), ha.take(i as int), hb.take(j as int)),
        decreases a@.len() - i + b@.len() - j,
    {
        let ghost before = hashes(out@);
        let p = if i >= a.len() {
            Place::Behind
        } else if j >= b.len() {
            Place::Before
        } else {
            place(&a[i], &b[j])
        };
        match p {
            Place::Before => {
                let x = a[i];
                out.push(x);
                proof {
                    assert(ha[i as int] == x@);
                    assert(hashes(out@) =~= before.push(x@));
                    assert(ha.take(i + 1) =~= ha.take(i as int).push(x@));
                    lemma_ascending_push(before, x@);
                    lemma_both_push(before, ha.take(i as int), hb.take(j as int), x@);
                    if i + 1 < a@.len() {
                        assert(bytes_before(ha[i as int], ha[i + 1]));
                    }
                    if j < b@.len() {
                        assert(hb[j as int] == b@[j as int]@);
                    }
                }
                i = i + 1;
            },
            Place::Behind => {
                let x = b[j];
                out.push(x);
                proof {
                    assert(hb[j as int] == x@);
                    assert(hashes(out@) =~= before.push(x@));
                    assert(hb.take(j + 1) =~= hb.take(j as int).push(x@));
                    lemma_ascending_push(before, x@);
                    lemma_both_push(before, ha.take(i as int), hb.take(j as int), x@);
                    if j + 1 < b@.len() {
                        assert(bytes_before(hb[j as int], hb[j + 1]));
                    }
                    if i < a@.len() {
                        assert(ha[i as int] == a@[i as int]@);
                    }
                }
                j = j + 1;
            },
            Place::Same => {
                let x = a[i];
                out.push(x);
                proof {
                    assert(ha[i as int] == x@);
                    assert(hb[j as int] == b@[j as int]@);
                    assert(hashes(out@) =~= before.push(x@));
                    assert(ha.take(i + 1) =~= ha.take(i as int).push(x@));
                    assert(hb.take(j + 1) =~= hb.take(j as int).push(x@));
                    lemma_ascending_push(before, x@);
                    lemma_both_push(before, ha.take(i as int), hb.take(j as int), x@);
                    if i + 1 < a@.len() {
                        assert(bytes_before(ha[i as int], ha[i + 1]));
                    }
                    if j + 1 < b@.len() {
                        assert(bytes_before(hb[j as int], hb[j + 1]));
                    }
                }
                i = i + 1;
                j = j + 1;
            },
        }
    }
    assert(ha.take(i as int) =~= ha);
    assert(hb.take(j as int) =~= hb);
    out
}

/// Whether `r` holds the hashes of `s`, in ascending order and each once.
pub open spec fn distinct_of(r: Seq<Seq<u8>>, s: Seq<Seq<u8>>) -> bool {
    ascending_bytes(r) && forall|x: Seq<u8>| #[trigger] r.contains(x) <==> s.contains(x)
}

/// The distinct hashes of `v[lo..hi]`, in ascending order.
fn distinct_between(v: &Vec<crate::Hash>, lo: usize, hi: usize) -> (r: Vec<crate::Hash>)
    requires
        lo <= hi <= v@.len(),
    ensures
        distinct_of(hashes(r@), hashes(v@).subrange(lo as int, hi as int)),
    decreases hi - lo,
{
    let ghost all = hashes(v@);
    if hi - lo <= 1 {
        let mut out: Vec<crate::Hash> = Vec::new();
        if lo < hi {
            out.push(v[lo]);
        }
        assert(hashes(out@) =~= all.subrange(lo as int, hi as int));
        return out;
    }
    let mid: usize = lo + (hi - lo) / 2;
    let a = distinct_between(v, lo, mid);
    let b = distinct_between(v, mid, hi);
    let r = merge(&a, &b);
    proof {
        reveal(both);
        let s = all.subrange(lo as int, mid as int);
        let t = all.subrange(mid as int, hi as int);
        assert(all.subrange(lo as int, hi as int) =~= s + t);
        assert forall|x: Seq<u8>| #[trigger] hashes(r@).contains(x) <==> (s + t).contains(x) by {
            lemma_plus_has(s, t, x);
            assert(hashes(a@).contains(x) <==> s.contains(x));
            assert(hashes(b@).contains(x) <==> t.contains(x));
        }
    }
    r
}

/// The distinct hashes of `v`, in ascending order.
pub fn distinct(v: &Vec<crate::Hash>) -> (r: Vec<crate::Hash>)
    ensures
        distinct_of(hashes(r@), hashes(v@)),
{
    let r = distinct_between(v, 0, v.len());
    assert(hashes(v@).subrange(0, v@.len() as int) =~= hashes(v@));
    r
}

/// Whether `h` is among the hashes `v`.
pub fn has_hash(v: &Vec<crate::Hash>, h: &crate::Hash) -> (r: bool)
    ensures
        r == hashes(v@).contains(h@),
{
    let ghost all = hashes(v@);
    let mut i: usize = 0;
    while i < v.len()
        invariant
            i <= v@.len(),
            all == hashes(v@),
            forall|k: int| 0 <= k < i ==> #[trigger] all[k] != h@,
        decreases v@.len() - i,
    {
        assert(all[i as int] == v@[i as int]@);
        if hash_eq(&v[i], h) {
            return true;
        }
        i = i + 1;
    }
    false
}

/// The order of hashes: the first byte in which they differ decides.
pub proof fn first_differing_byte_decides(a: Seq<u8>, b: Seq<u8>, k: int)
    requires
        0 <= k < a.len(),
        k < b.len(),
        a.take(k) == b.take(k),
        a[k] != b[k],
    ensures
        bytes_before(a, b) <==> a[k] < b[k],
    decreases a.len(),
{
    if k > 0 {
        assert(a[0] == a.take(k)[0] && b[0] == b.take(k)[0]);
        let x = a.drop_first();
        let y = b.drop_first();
        assert(x.take(k - 1) =~= a.take(k).drop_first());
        assert(y.take(k - 1) =~= b.take(k).drop_first());
        first_differing_byte_decides(x, y, k - 1);
    }
}

} // verus!
