//! Texts in order of their code points, and sorting by it.

use vstd::prelude::*;
use vstd::relations::*;
use vstd::seq_lib::*;
use vstd::std_specs::iter::IteratorSpec;
use vstd::string::*;
use crate::text::lemma_strs_push;
use crate::text::strs;

verus! {

/// Whether `a` comes before `b` or equals it: the first character in which
/// they differ decides, and a text comes before its extensions.
pub open spec fn text_le(a: Seq<char>, b: Seq<char>) -> bool
    decreases a.len(),
{
    if a.len() == 0 {
        true
    } else if b.len() == 0 {
        false
    } else if a[0] != b[0] {
        (a[0] as u32) < (b[0] as u32)
    } else {
        text_le(a.drop_first(), b.drop_first())
    }
}

/// The order of texts as a relation.
pub open spec fn text_order() -> spec_fn(Seq<char>, Seq<char>) -> bool {
    |a: Seq<char>, b: Seq<char>| text_le(a, b)
}

/// A list of texts in ascending order.
pub open spec fn sorted(s: Seq<Seq<char>>) -> Seq<Seq<char>> {
    s.sort_by(text_order())
}

proof fn lemma_le_reflexive(a: Seq<char>)
    ensures
        text_le(a, a),
    decreases a.len(),
{
    if a.len() > 0 {
        lemma_le_reflexive(a.drop_first());
    }
}

proof fn lemma_le_antisymmetric(a: Seq<char>, b: Seq<char>)
    requires
        text_le(a, b),
        text_le(b, a),
    ensures
        a == b,
    decreases a.len(),
{
    if a.len() == 0 {
        assert(a =~= b);
    } else {
        lemma_le_antisymmetric(a.drop_first(), b.drop_first());
        assert(a =~= seq![a[0]] + a.drop_first());
        assert(b =~= seq![b[0]] + b.drop_first());
    }
}

proof fn lemma_le_transitive(a: Seq<char>, b: Seq<char>, c: Seq<char>)
    requires
        text_le(a, b),
        text_le(b, c),
    ensures
        text_le(a, c),
    decreases a.len(),
{
    if a.len() > 0 && a[0] == b[0] && b[0] == c[0] {
        lemma_le_transitive(a.drop_first(), b.drop_first(), c.drop_first());
    }
}

proof fn lemma_le_total(a: Seq<char>, b: Seq<char>)
    ensures
        text_le(a, b) || text_le(b, a),
    decreases a.len(),
{
    if a.len() > 0 && b.len() > 0 && a[0] == b[0] {
        lemma_le_total(a.drop_first(), b.drop_first());
    } else if a.len() > 0 && b.len() > 0 {
        vstd::utf8::char_u32_cast(a[0], a[0] as u32);
        vstd::utf8::char_u32_cast(b[0], b[0] as u32);
        assert(a[0] as u32 != b[0] as u32);
    }
}

/// The order of texts is total.
pub proof fn lemma_text_order()
    ensures
        total_ordering(text_order()),
{
    let r = text_order();
    assert forall|x: Seq<char>| #[trigger] r(x, x) by {
        lemma_le_reflexive(x);
    }
    assert forall|x: Seq<char>, y: Seq<char>| #[trigger] r(x, y) && #[trigger] r(y, x) implies x
        == y by {
        lemma_le_antisymmetric(x, y);
    }
    assert forall|x: Seq<char>, y: Seq<char>, z: Seq<char>| #[trigger] r(x, y) && #[trigger] r(y, z)
        implies r(x, z) by {
        lemma_le_transitive(x, y, z);
    }
    assert forall|x: Seq<char>, y: Seq<char>| #[trigger] r(x, y) || #[trigger] r(y, x) by {
        lemma_le_total(x, y);
    }
}

/// Sorting keeps exactly the texts that were there.
pub proof fn lemma_sorted_elements(s: Seq<Seq<char>>)
    ensures
        sorted(s).len() == s.len(),
        sorted(s).to_multiset() == s.to_multiset(),
        sorted_by(sorted(s), text_order()),
        forall|x: Seq<char>| sorted(s).contains(x) <==> s.contains(x),
{
    broadcast use group_to_multiset_ensures;

    lemma_text_order();
    s.lemma_sort_by_ensures(text_order());
    assert(sorted(s).to_multiset().len() == s.to_multiset().len());
    assert forall|x: Seq<char>| sorted(s).contains(x) <==> s.contains(x) by {
        assert(sorted(s).to_multiset().count(x) == s.to_multiset().count(x));
    }
}

/// Whether `a` comes before `b` or equals it.
pub fn text_not_after(a: &str, b: &str) -> (r: bool)
    ensures
        r == text_le(a@, b@),
{
    broadcast use axiom_spec_iter;
    broadcast use next_postcondition;

    let mut x = a.chars();
    let mut y = b.chars();
    loop
        invariant
            x.obeys_prophetic_iter_laws(),
            y.obeys_prophetic_iter_laws(),
            x.decrease() is Some,
            text_le(a@, b@) == text_le(x.remaining(), y.remaining()),
        decreases x.decrease()->0,
    {
        match x.next() {
            None => {
                return true;
            },
            Some(c) => {
                match y.next() {
                    None => {
                        return false;
                    },
                    Some(d) => {
                        if c != d {
                            return (c as u32) < (d as u32);
                        }
                    },
                }
            },
        }
    }
}

/// The texts at the given positions.
spec fn picked(v: Seq<String>, idx: Seq<usize>) -> Seq<Seq<char>> {
    idx.map_values(|i: usize| v[i as int]@)
}

spec fn in_range(v: Seq<String>, idx: Seq<usize>) -> bool {
    forall|k: int| 0 <= k < idx.len() ==> (#[trigger] idx[k]) < v.len()
}

/// Whether `r` holds what `a` and `b` hold together.
#[verifier::opaque]
spec fn union_of(r: Seq<usize>, a: Seq<usize>, b: Seq<usize>) -> bool {
    forall|x: usize| #[trigger] r.contains(x) <==> a.contains(x) || b.contains(x)
}

proof fn lemma_union_push(r: Seq<usize>, a: Seq<usize>, b: Seq<usize>, x: usize)
    requires
        union_of(r, a, b),
    ensures
        union_of(r.push(x), a.push(x), b),
        union_of(r.push(x), a, b.push(x)),
{
    reveal(union_of);
    lemma_push_contains(r, x);
    lemma_push_contains(a, x);
    lemma_push_contains(b, x);
    assert forall|y: usize| #[trigger] r.push(x).contains(y) implies (a.push(x).contains(y)
        || b.contains(y)) && (a.contains(y) || b.push(x).contains(y)) by {
        assert(r.contains(y) || y == x);
    }
    assert forall|y: usize|
        a.push(x).contains(y) || b.contains(y) || a.contains(y) || b.push(x).contains(y) implies
        #[trigger] r.push(x).contains(y) by {
        assert(a.push(x).contains(y) <==> a.contains(y) || y == x);
        assert(b.push(x).contains(y) <==> b.contains(y) || y == x);
        assert(r.contains(y) <==> a.contains(y) || b.contains(y));
    }
}

proof fn lemma_push_contains(s: Seq<usize>, x: usize)
    ensures
        forall|y: usize| #[trigger] s.push(x).contains(y) <==> s.contains(y) || y == x,
{
    assert forall|y: usize| s.push(x).contains(y) <==> s.contains(y) || y == x by {
        if s.contains(y) {
            let i = choose|i: int| 0 <= i < s.len() && s[i] == y;
            assert(s.push(x)[i] == y);
        }
        assert(s.push(x)[s.len() as int] == x);
        if s.push(x).contains(y) {
            let i = choose|i: int| 0 <= i < s.push(x).len() && s.push(x)[i] == y;
            if i < s.len() {
                assert(s[i] == y);
            }
        }
    }
}

/// Merges two sorted lists of positions into one.
fn merge(v: &Vec<String>, a: &Vec<usize>, b: &Vec<usize>) -> (r: Vec<usize>)
    requires
        in_range(v@, a@),
        in_range(v@, b@),
        sorted_by(picked(v@, a@), text_order()),
        sorted_by(picked(v@, b@), text_order()),
    ensures
        in_range(v@, r@),
        sorted_by(picked(v@, r@), text_order()),
        picked(v@, r@).to_multiset() == picked(v@, a@).to_multiset().add(
            picked(v@, b@).to_multiset(),
        ),
        union_of(r@, a@, b@),
{
    proof {
        lemma_text_order();
    }
    let ghost pa = picked(v@, a@);
    let ghost pb = picked(v@, b@);
    let mut out: Vec<usize> = Vec::new();
    let mut i: usize = 0;
    let mut j: usize = 0;
    assert(union_of(out@, a@.take(0), b@.take(0))) by {
        reveal(union_of);
    }
    assert(picked(v@, out@).to_multiset() =~= pa.take(0).to_multiset().add(
        pb.take(0).to_multiset(),
    )) by {
        broadcast use group_to_multiset_ensures;

        assert(pa.take(0).to_multiset().len() == 0);
        assert(pb.take(0).to_multiset().len() == 0);
        assert(picked(v@, out@).to_multiset().len() == 0);
    }
    while i < a.len() || j < b.len()
        invariant
            union_of(out@, a@.take(i as int), b@.take(j as int)),
            i <= a@.len(),
            j <= b@.len(),
            pa == picked(v@, a@),
            pb == picked(v@, b@),
            in_range(v@, a@),
            in_range(v@, b@),
            in_range(v@, out@),
            total_ordering(text_order()),
            sorted_by(pa, text_order()),
            sorted_by(pb, text_order()),
            sorted_by(picked(v@, out@), text_order()),
            out@.len() > 0 && i < a@.len() ==> text_le(picked(v@, out@).last(), pa[i as int]),
            out@.len() > 0 && j < b@.len() ==> text_le(picked(v@, out@).last(), pb[j as int]),
            picked(v@, out@).to_multiset() == pa.take(i as int).to_multiset().add(
                pb.take(j as int).to_multiset(),
            ),
        decreases a@.len() - i + b@.len() - j,
    {
        broadcast use group_to_multiset_ensures;

        let ghost before = picked(v@, out@);
        let ghost taken = out@;
        let left: bool = if i >= a.len() {
            false
        } else if j >= b.len() {
            true
        } else {
            text_not_after(v[a[i]].as_str(), v[b[j]].as_str())
        };
        if left {
            proof {
                assert(pa.take(i as int + 1) =~= pa.take(i as int).push(pa[i as int]));
                if i + 1 < a@.len() {
                    assert(text_order()(pa[i as int], pa[i as int + 1]));
                }
                assert(text_order()(pa[i as int], pa[i as int]));
            }
            out.push(a[i]);
            i = i + 1;
            proof {
                assert(a@.take(i as int) =~= a@.take(i - 1).push(a@[i - 1]));
                lemma_union_push(taken, a@.take(i - 1), b@.take(j as int), a@[i - 1]);
                assert(picked(v@, out@) =~= before.push(pa[i as int - 1]));
                assert(picked(v@, out@).to_multiset() =~= pa.take(i as int).to_multiset().add(
                    pb.take(j as int).to_multiset(),
                ));
            }
        } else {
            proof {
                assert(pb.take(j as int + 1) =~= pb.take(j as int).push(pb[j as int]));
                if j + 1 < b@.len() {
                    assert(text_order()(pb[j as int], pb[j as int + 1]));
                }
                if i < a@.len() {
                    assert(text_order()(pb[j as int], pa[i as int]) || text_order()(
                        pa[i as int],
                        pb[j as int],
                    ));
                }
                assert(text_order()(pb[j as int], pb[j as int]));
            }
            out.push(b[j]);
            j = j + 1;
            proof {
                assert(b@.take(j as int) =~= b@.take(j - 1).push(b@[j - 1]));
                lemma_union_push(taken, a@.take(i as int), b@.take(j - 1), b@[j - 1]);
                assert(picked(v@, out@) =~= before.push(pb[j as int - 1]));
                assert(picked(v@, out@).to_multiset() =~= pa.take(i as int).to_multiset().add(
                    pb.take(j as int).to_multiset(),
                ));
            }
        }
        proof {
            let after = picked(v@, out@);
            let n = before.len() as int;
            assert(after.drop_last() =~= before);
            assert forall|p: int, q: int| 0 <= p < q < after.len() implies text_order()(
                #[trigger] after[p],
                #[trigger] after[q],
            ) by {
                if q < n {
                    assert(text_order()(before[p], before[q]));
                } else {
                    assert(text_order()(before.last(), after[n]));
                    if p < n - 1 {
                        assert(text_order()(before[p], before[n - 1]));
                    }
                }
            }
        }
    }
    assert(pa.take(i as int) =~= pa);
    assert(pb.take(j as int) =~= pb);
    assert(a@.take(i as int) =~= a@);
    assert(b@.take(j as int) =~= b@);
    out
}

/// The positions `lo..hi`, in the order of their texts.
fn sort_range(v: &Vec<String>, lo: usize, hi: usize) -> (r: Vec<usize>)
    requires
        lo <= hi <= v@.len(),
    ensures
        in_range(v@, r@),
        sorted_by(picked(v@, r@), text_order()),
        picked(v@, r@).to_multiset() == strs(v@).subrange(
            lo as int,
            hi as int,
        ).to_multiset(),
        forall|x: usize| r@.contains(x) <==> lo <= x < hi,
    decreases hi - lo,
{
    let ghost all = strs(v@);
    if hi - lo <= 1 {
        let mut out: Vec<usize> = Vec::new();
        if lo < hi {
            out.push(lo);
        }
        assert(picked(v@, out@) =~= all.subrange(lo as int, hi as int));
        assert(lo < hi ==> out@[0] == lo);
        return out;
    }
    let mid: usize = lo + (hi - lo) / 2;
    let a = sort_range(v, lo, mid);
    let b = sort_range(v, mid, hi);
    let r = merge(v, &a, &b);
    proof {
        reveal(union_of);
        let s = all.subrange(lo as int, mid as int);
        let t = all.subrange(mid as int, hi as int);
        assert(all.subrange(lo as int, hi as int) =~= s + t);
        lemma_multiset_commutative(s, t);
    }
    r
}

/// All positions of `v`, in the order of their texts.
pub fn sorted_positions(v: &Vec<String>) -> (r: Vec<usize>)
    ensures
        forall|x: usize| r@.contains(x) <==> x < v@.len(),
        forall|k: int| 0 <= k < r@.len() ==> (#[trigger] r@[k]) < v@.len(),
        forall|m: int, n: int|
            0 <= m < n < r@.len() ==> text_le(
                v@[#[trigger] r@[m] as int]@,
                v@[#[trigger] r@[n] as int]@,
            ),
{
    let r = sort_range(v, 0, v.len());
    proof {
        let p = picked(v@, r@);
        assert forall|m: int, n: int| 0 <= m < n < r@.len() implies text_le(
            v@[#[trigger] r@[m] as int]@,
            v@[#[trigger] r@[n] as int]@,
        ) by {
            assert(text_order()(p[m], p[n]));
        }
    }
    r
}

/// The texts in ascending order.
pub fn sort_texts(v: &Vec<String>) -> (r: Vec<String>)
    ensures
        strs(r@) == sorted(strs(v@)),
{
    let idx = sort_range(v, 0, v.len());
    let mut out: Vec<String> = Vec::new();
    let mut i: usize = 0;
    while i < idx.len()
        invariant
            i <= idx@.len(),
            in_range(v@, idx@),
            strs(out@) == picked(v@, idx@).take(i as int),
        decreases idx@.len() - i,
    {
        let c = v[idx[i]].clone();
        proof {
            lemma_strs_push(out@, c);
            assert(picked(v@, idx@).take(i as int + 1) =~= picked(v@, idx@).take(i as int).push(
                c@,
            ));
        }
        out.push(c);
        i = i + 1;
    }
    proof {
        let all = strs(v@);
        assert(all.subrange(0, all.len() as int) =~= all);
        assert(picked(v@, idx@).take(i as int) =~= picked(v@, idx@));
        lemma_text_order();
        lemma_sorted_elements(all);
        lemma_sorted_unique(picked(v@, idx@), sorted(all), text_order());
    }
    out
}

/// The order of texts: one comes before another, or equals it, exactly where
/// it is its beginning, or at the first place where they differ has the lower
/// character.
pub proof fn first_difference_decides(a: Seq<char>, b: Seq<char>)
    ensures
        text_le(a, b) <==> a.is_prefix_of(b) || exists|k: int|
            0 <= k < a.len() && k < b.len() && #[trigger] a.take(k) == b.take(k) && (a[k] as u32) < (
            b[k] as u32),
    decreases a.len(),
{
    if a.len() == 0 {
        assert(a =~= b.subrange(0, 0));
    } else if b.len() == 0 {
    } else if a[0] != b[0] {
        if (a[0] as u32) < (b[0] as u32) {
            assert(a.take(0) =~= b.take(0));
        }
        if a.is_prefix_of(b) {
            assert(a[0] == b.subrange(0, a.len() as int)[0]);
        }
        if exists|k: int|
            0 <= k < a.len() && k < b.len() && #[trigger] a.take(k) == b.take(k) && (a[k] as u32) < (
            b[k] as u32) {
            let k = choose|k: int|
                0 <= k < a.len() && k < b.len() && #[trigger] a.take(k) == b.take(k) && (a[k] as u32)
                    < (b[k] as u32);
            if k > 0 {
                assert(a.take(k)[0] == b.take(k)[0]);
            }
        }
    } else {
        let x = a.drop_first();
        let y = b.drop_first();
        first_difference_decides(x, y);
        if x.is_prefix_of(y) {
            assert forall|i: int| 0 <= i < a.len() implies a[i] == b.subrange(
                0,
                a.len() as int,
            )[i] by {
                if i > 0 {
                    assert(x[i - 1] == y.subrange(0, x.len() as int)[i - 1]);
                }
            }
            assert(a =~= b.subrange(0, a.len() as int));
        }
        if a.is_prefix_of(b) {
            assert forall|i: int| 0 <= i < x.len() implies x[i] == y.subrange(
                0,
                x.len() as int,
            )[i] by {
                assert(a[i + 1] == b.subrange(0, a.len() as int)[i + 1]);
            }
            assert(x =~= y.subrange(0, x.len() as int));
        }
        if exists|k: int|
            0 <= k < x.len() && k < y.len() && #[trigger] x.take(k) == y.take(k) && (x[k] as u32) < (
            y[k] as u32) {
            let k = choose|k: int|
                0 <= k < x.len() && k < y.len() && #[trigger] x.take(k) == y.take(k) && (x[k] as u32)
                    < (y[k] as u32);
            assert(a.take(k + 1) =~= seq![a[0]] + x.take(k));
            assert(b.take(k + 1) =~= seq![b[0]] + y.take(k));
            assert((a[k + 1] as u32) < (b[k + 1] as u32));
        }
        if exists|k: int|
            0 <= k < a.len() && k < b.len() && #[trigger] a.take(k) == b.take(k) && (a[k] as u32) < (
            b[k] as u32) {
            let k = choose|k: int|
                0 <= k < a.len() && k < b.len() && #[trigger] a.take(k) == b.take(k) && (a[k] as u32)
                    < (b[k] as u32);
            assert(k > 0);
            assert(x.take(k - 1) =~= a.take(k).drop_first());
            assert(y.take(k - 1) =~= b.take(k).drop_first());
            assert((x[k - 1] as u32) < (y[k - 1] as u32));
        }
    }
}

} // verus!
