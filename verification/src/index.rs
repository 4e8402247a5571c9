//! Lookup of texts in a list.

use vstd::prelude::*;
use vstd::relations::*;
use vstd::string::*;
use crate::order::lemma_text_order;
use crate::order::sorted_positions;
use crate::order::text_le;
use crate::order::text_not_after;
use crate::order::text_order;
use crate::text::lemma_push_has;
use crate::text::lemma_strs_push;
use crate::text::strs;
use crate::text::text_eq;

verus! {

/// A list of texts in strictly ascending order.
pub open spec fn ascending(s: Seq<Seq<char>>) -> bool {
    forall|i: int, j: int|
        0 <= i < j < s.len() ==> text_le(#[trigger] s[i], #[trigger] s[j]) && s[i] != s[j]
}

/// Whether `i` is the last position of `p` in `s`.
pub open spec fn is_last(s: Seq<Seq<char>>, p: Seq<char>, i: int) -> bool {
    0 <= i < s.len() && s[i] == p && forall|j: int| i < j < s.len() ==> #[trigger] s[j] != p
}

/// The distinct texts of a list in ascending order, each with its last
/// position.
pub struct TextIndex {
    keys: Vec<String>,
    at: Vec<usize>,
    source: Ghost<Seq<Seq<char>>>,
}

impl TextIndex {
    /// The list that is indexed.
    pub closed spec fn source(&self) -> Seq<Seq<char>> {
        self.source@
    }

    /// The distinct texts in order.
    pub closed spec fn keys(&self) -> Seq<Seq<char>> {
        strs(self.keys@)
    }

    #[verifier::type_invariant]
    spec fn wf(&self) -> bool {
        indexes(strs(self.keys@), self.at@, self.source@)
    }

    /// Indexes the list `v`.
    pub fn new(v: &Vec<String>) -> (r: TextIndex)
        ensures
            r.source() == strs(v@),
    {
        let idx = sorted_positions(v);
        let size: usize = v.len();
        let mut keys: Vec<String> = Vec::new();
        let mut at: Vec<usize> = Vec::new();
        let ghost src = strs(v@);
        let mut k: usize = 0;
        proof {
            lemma_text_order();
        }
        while k < idx.len()
            invariant
                k <= idx@.len(),
                src == strs(v@),
                total_ordering(text_order()),
                forall|m: int| 0 <= m < idx@.len() ==> (#[trigger] idx@[m]) < v@.len(),
                forall|m: int, n: int|
                    0 <= m < n < idx@.len() ==> text_le(
                        v@[#[trigger] idx@[m] as int]@,
                        v@[#[trigger] idx@[n] as int]@,
                    ),
                keys@.len() == at@.len(),
                ascending(strs(keys@)),
                k > 0 ==> keys@.len() > 0 && keys@.last()@ == v@[idx@[k - 1] as int]@,
                k == 0 ==> keys@.len() == 0,
                forall|i: int|
                    0 <= i < at@.len() ==> (#[trigger] at@[i]) < src.len() && src[at@[i] as int]
                        == strs(keys@)[i],
                forall|m: int|
                    0 <= m < k ==> exists|i: int|
                        0 <= i < at@.len() && #[trigger] strs(keys@)[i]
                            == src[#[trigger] idx@[m] as int] && idx@[m] <= at@[i],
            decreases idx@.len() - k,
        {
            let p: usize = idx[k];
            let n: usize = keys.len();
            let ghost ks = strs(keys@);
            let ghost old_at = at@;
            assert(src[p as int] == v@[p as int]@);
            if n > 0 && text_eq(keys[n - 1].as_str(), v[p].as_str()) {
                assert(ks[n - 1] == keys@[n - 1]@);
                if at[n - 1] < p {
                    at.set(n - 1, p);
                }
                proof {
                    assert forall|m: int| 0 <= m < k + 1 implies exists|i: int|
                        0 <= i < at@.len() && #[trigger] strs(keys@)[i]
                            == src[#[trigger] idx@[m] as int] && idx@[m] <= at@[i] by {
                        if m < k {
                            let i = choose|i: int|
                                0 <= i < old_at.len() && #[trigger] ks[i]
                                    == src[idx@[m] as int] && idx@[m] <= old_at[i];
                            assert(strs(keys@)[i] == src[idx@[m] as int] && idx@[m] <= at@[i]);
                        } else {
                            assert(strs(keys@)[n - 1] == src[idx@[m] as int]);
                        }
                    }
                }
            } else {
                let key = v[p].clone();
                proof {
                    lemma_strs_push(keys@, key);
                    assert forall|i: int, j: int| 0 <= i < j < ks.push(key@).len() implies text_le(
                        #[trigger] ks.push(key@)[i],
                        #[trigger] ks.push(key@)[j],
                    ) && ks.push(key@)[i] != ks.push(key@)[j] by {
                        if j == n {
                            assert(ks[n - 1] == keys@[n - 1]@);
                            assert(text_order()(ks[n - 1], key@));
                            if i < n - 1 {
                                assert(text_order()(ks[i], ks[n - 1]));
                                if ks[i] == key@ {
                                    assert(text_order()(ks[n - 1], ks[i]));
                                }
                            }
                        }
                    }
                }
                keys.push(key);
                at.push(p);
                proof {
                    assert(strs(keys@) == ks.push(key@));
                    assert forall|m: int| 0 <= m < k + 1 implies exists|i: int|
                        0 <= i < at@.len() && #[trigger] strs(keys@)[i]
                            == src[#[trigger] idx@[m] as int] && idx@[m] <= at@[i] by {
                        if m < k {
                            let i = choose|i: int|
                                0 <= i < old_at.len() && #[trigger] ks[i]
                                    == src[idx@[m] as int] && idx@[m] <= old_at[i];
                            assert(strs(keys@)[i] == src[idx@[m] as int] && idx@[m] <= at@[i]);
                        } else {
                            assert(strs(keys@)[n as int] == src[idx@[m] as int]);
                        }
                    }
                }
            }
            k = k + 1;
        }
        proof {
            assert(size == src.len());
            lemma_indexes(strs(keys@), at@, src, idx@);
        }
        TextIndex { keys, at, source: Ghost(src) }
    }

    /// How many distinct texts there are: those of the list, in strictly
    /// ascending order.
    pub fn len(&self) -> (r: usize)
        ensures
            r == self.keys().len(),
            ascending(self.keys()),
            forall|p: Seq<char>| self.keys().contains(p) <==> self.source().contains(p),
    {
        proof {
            use_type_invariant(self);
            lemma_keys(strs(self.keys@), self.at@, self.source@);
        }
        self.keys.len()
    }

    /// The last position of the `i`th distinct text.
    pub fn position(&self, i: usize) -> (r: usize)
        requires
            i < self.keys().len(),
        ensures
            is_last(self.source(), self.keys()[i as int], r as int),
    {
        proof {
            use_type_invariant(self);
        }
        self.at[i]
    }

    /// The last position of `p` in the list, where it is there.
    pub fn lookup(&self, p: &str) -> (r: Option<usize>)
        ensures
            match r {
                Some(i) => is_last(self.source(), p@, i as int),
                None => !self.source().contains(p@),
            },
    {
        proof {
            use_type_invariant(self);
            lemma_text_order();
            lemma_keys(strs(self.keys@), self.at@, self.source@);
        }
        let ghost ks = strs(self.keys@);
        let mut lo: usize = 0;
        let mut hi: usize = self.keys.len();
        while lo < hi
            invariant
                lo <= hi <= self.keys@.len(),
                ks == strs(self.keys@),
                ascending(ks),
                total_ordering(text_order()),
                forall|i: int| 0 <= i < lo ==> text_le(#[trigger] ks[i], p@),
                forall|i: int| hi <= i < ks.len() ==> !text_le(#[trigger] ks[i], p@),
            decreases hi - lo,
        {
            let mid: usize = lo + (hi - lo) / 2;
            assert(ks[mid as int] == self.keys@[mid as int]@);
            if text_not_after(self.keys[mid].as_str(), p) {
                proof {
                    assert forall|i: int| 0 <= i < mid + 1 implies text_le(
                        #[trigger] ks[i],
                        p@,
                    ) by {
                        if i < mid {
                            assert(text_order()(ks[i], ks[mid as int]));
                            assert(text_order()(ks[mid as int], p@));
                            assert(text_order()(ks[i], p@));
                        }
                    }
                }
                lo = mid + 1;
            } else {
                proof {
                    assert forall|i: int| mid <= i < ks.len() implies !text_le(
                        #[trigger] ks[i],
                        p@,
                    ) by {
                        if i > mid && text_le(ks[i], p@) {
                            assert(text_order()(ks[mid as int], ks[i]));
                            assert(text_order()(ks[i], p@));
                            assert(text_order()(ks[mid as int], p@));
                        }
                    }
                }
                hi = mid;
            }
        }
        if lo > 0 && text_eq(self.keys[lo - 1].as_str(), p) {
            assert(ks[lo - 1] == self.keys@[lo - 1]@);
            return Some(self.at[lo - 1]);
        }
        proof {
            if ks.contains(p@) {
                let i = choose|i: int| 0 <= i < ks.len() && ks[i] == p@;
                assert(text_order()(p@, p@));
                assert(text_le(ks[i], p@));
                assert(i < lo);
                assert(ks[lo - 1] == self.keys@[lo - 1]@);
                if i < lo - 1 {
                    assert(text_order()(ks[i], ks[lo - 1]));
                    assert(text_order()(ks[lo - 1], ks[i]));
                }
            }
        }
        None
    }
}

/// Whether `keys` are the distinct texts of `src` in ascending order and `at`
/// their last positions.
spec fn indexes(keys: Seq<Seq<char>>, at: Seq<usize>, src: Seq<Seq<char>>) -> bool {
    &&& keys.len() == at.len()
    &&& ascending(keys)
    &&& forall|i: int| 0 <= i < keys.len() ==> is_last(src, #[trigger] keys[i], at[i] as int)
    &&& forall|j: int| 0 <= j < src.len() ==> #[trigger] held(keys, at, src[j], j)
}

/// Whether `p`, standing at `j`, is among the keys, with a position not before
/// `j`.
spec fn held(keys: Seq<Seq<char>>, at: Seq<usize>, p: Seq<char>, j: int) -> bool {
    exists|i: int| 0 <= i < keys.len() && #[trigger] keys[i] == p && j <= at[i]
}

proof fn lemma_indexes(ks: Seq<Seq<char>>, at: Seq<usize>, src: Seq<Seq<char>>, idx: Seq<usize>)
    requires
        src.len() <= usize::MAX,
        ks.len() == at.len(),
        ascending(ks),
        forall|x: usize| x < src.len() ==> #[trigger] idx.contains(x),
        forall|i: int|
            0 <= i < at.len() ==> (#[trigger] at[i]) < src.len() && src[at[i] as int] == ks[i],
        forall|m: int|
            0 <= m < idx.len() ==> exists|i: int|
                0 <= i < at.len() && #[trigger] ks[i] == src[#[trigger] idx[m] as int] && idx[m]
                    <= at[i],
    ensures
        indexes(ks, at, src),
{
    assert forall|j: int| 0 <= j < src.len() implies #[trigger] held(ks, at, src[j], j) by {
        assert(idx.contains(j as usize));
        let m = choose|m: int| 0 <= m < idx.len() && idx[m] == j as usize;
        let i = choose|i: int|
            0 <= i < at.len() && #[trigger] ks[i] == src[idx[m] as int] && idx[m] <= at[i];
        assert(ks[i] == src[j]);
    }
    assert forall|i: int| 0 <= i < ks.len() implies is_last(
        src,
        #[trigger] ks[i],
        at[i] as int,
    ) by {
        assert forall|j: int| at[i] < j < src.len() implies #[trigger] src[j] != ks[i] by {
            if src[j] == ks[i] {
                assert(held(ks, at, src[j], j));
                let i2 = choose|i2: int|
                    0 <= i2 < ks.len() && #[trigger] ks[i2] == src[j] && j <= at[i2];
                if i2 != i {
                    assert(ks[i2] != ks[i]);
                }
            }
        }
    }
}

proof fn lemma_keys(keys: Seq<Seq<char>>, at: Seq<usize>, src: Seq<Seq<char>>)
    requires
        indexes(keys, at, src),
    ensures
        forall|p: Seq<char>| keys.contains(p) <==> src.contains(p),
{
    assert forall|p: Seq<char>| keys.contains(p) <==> src.contains(p) by {
        if keys.contains(p) {
            let i = choose|i: int| 0 <= i < keys.len() && keys[i] == p;
            assert(is_last(src, keys[i], at[i] as int));
            assert(src[at[i] as int] == p);
        }
        if src.contains(p) {
            let j = choose|j: int| 0 <= j < src.len() && src[j] == p;
            assert(held(keys, at, src[j], j));
            let i = choose|i: int|
                0 <= i < keys.len() && #[trigger] keys[i] == src[j] && j <= at[i];
            assert(keys[i] == p);
        }
    }
}

/// Whether `v` lists exactly the texts that `pred` holds of, in ascending
/// order and each once.
pub open spec fn lists(v: Seq<Seq<char>>, pred: spec_fn(Seq<char>) -> bool) -> bool {
    ascending(v) && forall|p: Seq<char>| #[trigger] v.contains(p) <==> pred(p)
}

/// Those of the texts that `pred` holds of.
pub open spec fn chosen(
    keys: Seq<Seq<char>>,
    pred: spec_fn(Seq<char>) -> bool,
) -> Seq<Seq<char>>
    decreases keys.len(),
{
    if keys.len() == 0 {
        keys
    } else if pred(keys.last()) {
        chosen(keys.drop_last(), pred).push(keys.last())
    } else {
        chosen(keys.drop_last(), pred)
    }
}

/// One text more to choose from.
pub proof fn lemma_chosen_step(keys: Seq<Seq<char>>, i: int, pred: spec_fn(Seq<char>) -> bool)
    requires
        0 <= i < keys.len(),
    ensures
        chosen(keys.take(i + 1), pred) == if pred(keys[i]) {
            chosen(keys.take(i), pred).push(keys[i])
        } else {
            chosen(keys.take(i), pred)
        },
{
    assert(keys.take(i + 1).drop_last() =~= keys.take(i));
}

/// What is chosen from an ascending list is ascending.
pub proof fn lemma_chosen(keys: Seq<Seq<char>>, pred: spec_fn(Seq<char>) -> bool)
    requires
        ascending(keys),
    ensures
        ascending(chosen(keys, pred)),
        forall|p: Seq<char>| #[trigger]
            chosen(keys, pred).contains(p) <==> keys.contains(p) && pred(p),
    decreases keys.len(),
{
    if keys.len() > 0 {
        let rest = keys.drop_last();
        let l = keys.last();
        let c = chosen(rest, pred);
        lemma_chosen(rest, pred);
        assert(keys =~= rest.push(l));
        assert forall|p: Seq<char>| #[trigger]
            chosen(keys, pred).contains(p) <==> keys.contains(p) && pred(p) by {
            lemma_push_has(rest, l, p);
            lemma_push_has(c, l, p);
            assert(c.contains(p) <==> rest.contains(p) && pred(p));
        }
        if pred(l) {
            assert forall|i: int, j: int| 0 <= i < j < c.push(l).len() implies text_le(
                #[trigger] c.push(l)[i],
                #[trigger] c.push(l)[j],
            ) && c.push(l)[i] != c.push(l)[j] by {
                if j == c.len() {
                    assert(c.contains(c[i]));
                    assert(rest.contains(c[i]));
                    let k = choose|k: int| 0 <= k < rest.len() && rest[k] == c[i];
                    assert(keys[k] == c[i] && keys[keys.len() - 1] == l);
                } else {
                    assert(text_le(c[i], c[j]) && c[i] != c[j]);
                }
            }
        }
    }
}

/// Two strictly ascending lists of the same texts are equal.
pub proof fn lemma_ascending_unique(a: Seq<Seq<char>>, b: Seq<Seq<char>>)
    requires
        ascending(a),
        ascending(b),
        forall|p: Seq<char>| a.contains(p) <==> b.contains(p),
    ensures
        a == b,
    decreases a.len(),
{
    lemma_text_order();
    if a.len() == 0 {
        if b.len() > 0 {
            assert(b.contains(b[0]));
        }
        assert(a =~= b);
    } else if b.len() == 0 {
        assert(a.contains(a[0]));
    } else {
        let x = a.last();
        let y = b.last();
        assert(b.contains(x)) by {
            assert(a.contains(x));
        }
        assert(a.contains(y)) by {
            assert(b.contains(y));
        }
        let i = choose|i: int| 0 <= i < b.len() && b[i] == x;
        let j = choose|j: int| 0 <= j < a.len() && a[j] == y;
        assert(text_order()(x, y)) by {
            if i < b.len() - 1 {
                assert(text_le(b[i], b[b.len() - 1]));
            } else {
                assert(text_order()(x, x));
            }
        }
        assert(text_order()(y, x)) by {
            if j < a.len() - 1 {
                assert(text_le(a[j], a[a.len() - 1]));
            } else {
                assert(text_order()(y, y));
            }
        }
        assert(x == y);
        let ra = a.drop_last();
        let rb = b.drop_last();
        assert forall|p: Seq<char>| ra.contains(p) <==> rb.contains(p) by {
            if ra.contains(p) {
                let k = choose|k: int| 0 <= k < ra.len() && ra[k] == p;
                assert(a[k] == p && a[k] != a[a.len() - 1]);
                assert(a.contains(p));
                let l = choose|l: int| 0 <= l < b.len() && b[l] == p;
                assert(rb[l] == p);
            }
            if rb.contains(p) {
                let k = choose|k: int| 0 <= k < rb.len() && rb[k] == p;
                assert(b[k] == p && b[k] != b[b.len() - 1]);
                assert(b.contains(p));
                let l = choose|l: int| 0 <= l < a.len() && a[l] == p;
                assert(ra[l] == p);
            }
        }
        lemma_ascending_unique(ra, rb);
        assert(a =~= ra.push(x));
        assert(b =~= rb.push(y));
    }
}

} // verus!
