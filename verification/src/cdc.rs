//! Content-defined chunking (FastCDC).
//!
//! Cut points are derived from content, not position: a byte inserted
//! at the front of a file shifts one boundary instead of invalidating
//! every downstream chunk, so dedup survives edits that fixed-size
//! chunking cannot. Normalized chunking (level 2) keeps sizes clustered
//! near CDC_AVG; CDC_MIN/CDC_MAX bound the tails.
//!
//! Chunk boundaries are implicit in the object set: manifests record
//! only the ordered hash list, so changing the splitter does not change
//! the manifest format. Fixed-chunk objects remain readable.

use vstd::prelude::*;
use crate::error::Result;

verus! {

/// Size of a fixed chunk, the unit in which files were once split.
pub const CHUNK_SIZE: usize = 65536;

/// No chunk but the last of a file is shorter than this.
pub const CDC_MIN: usize = 16384;

/// The size around which chunks cluster.
pub const CDC_AVG: usize = 65536;

/// No chunk is longer than this.
pub const CDC_MAX: usize = 131072;

/// The bytes of a list of byte strings.
pub open spec fn pieces(v: Seq<Vec<u8>>) -> Seq<Seq<u8>> {
    v.map_values(|p: Vec<u8>| p@)
}

/// Byte strings one behind the other.
pub open spec fn concat(ps: Seq<Seq<u8>>) -> Seq<u8>
    decreases ps.len(),
{
    if ps.len() == 0 {
        Seq::empty()
    } else {
        concat(ps.drop_last()) + ps.last()
    }
}

/// The sum of a list of lengths.
pub open spec fn total(lens: Seq<usize>) -> int
    decreases lens.len(),
{
    if lens.len() == 0 {
        0
    } else {
        total(lens.drop_last()) + lens.last()
    }
}

/// `data` cut into pieces of the given lengths, from the front.
pub open spec fn cut(data: Seq<u8>, lens: Seq<usize>) -> Seq<Seq<u8>> {
    Seq::new(
        lens.len(),
        |i: int| data.subrange(total(lens.take(i)), total(lens.take(i)) + lens[i]),
    )
}

/// The lengths of the chunks into which FastCDC (v2020, normalization level
/// 2) splits `data`, for the given minimum, average and maximum size.
pub uninterp spec fn fastcdc_lengths(data: Seq<u8>, min: u32, avg: u32, max: u32) -> Seq<usize>;

/// `fastcdc::v2020::FastCDC::with_level` at normalization level 2, run to its
/// end: the chunks follow one another without gaps from the first byte to the
/// last, none is empty or longer than `max`, and only the last may be shorter
/// than `min`. The size arguments are within the bounds that the constructor
/// asserts.
#[verifier::external_body]
fn fastcdc_split(data: &[u8], min: u32, avg: u32, max: u32) -> (r: Vec<usize>)
    requires
        64 <= min <= 1048576,
        256 <= avg <= 4194304,
        1024 <= max <= 16777216,
        min <= avg <= max,
        min % 2 == 0,
    ensures
        r@ == fastcdc_lengths(data@, min, avg, max),
        total(r@) == data@.len(),
        forall|i: int| 0 <= i < r@.len() ==> 0 < #[trigger] r@[i] <= max,
        forall|i: int| 0 <= i < r@.len() - 1 ==> min <= #[trigger] r@[i],
{
    let level = fastcdc::v2020::Normalization::Level2;
    fastcdc::v2020::FastCDC::with_level(data, min, avg, max, level).map(|c| c.length).collect()
}

/// A sum of lengths grows with their number.
proof fn lemma_total_monotonic(lens: Seq<usize>, i: int)
    requires
        0 <= i < lens.len(),
    ensures
        total(lens.take(i + 1)) == total(lens.take(i)) + lens[i],
        total(lens.take(i)) + lens[i] <= total(lens),
    decreases lens.len() - i,
{
    assert(lens.take(i + 1).drop_last() =~= lens.take(i));
    if i + 1 < lens.len() {
        lemma_total_monotonic(lens, i + 1);
    } else {
        assert(lens.take(i + 1) =~= lens);
    }
}

/// Split `data` into content-defined chunks. Each chunk is handed to
/// `Store::put_object` by the caller; sizes stay inside [CDC_MIN, CDC_MAX],
/// but for a shorter last chunk.
pub fn chunk_bytes(data: &[u8]) -> (r: Result<Vec<Vec<u8>>>)
    ensures
        r is Ok,
        pieces(r->Ok_0@) == cut(
            data@,
            fastcdc_lengths(data@, CDC_MIN as u32, CDC_AVG as u32, CDC_MAX as u32),
        ),
        concat(pieces(r->Ok_0@)) == data@,
        forall|i: int|
            0 <= i < r->Ok_0@.len() ==> 0 < (#[trigger] r->Ok_0@[i])@.len() <= CDC_MAX,
        forall|i: int| 0 <= i < r->Ok_0@.len() - 1 ==> CDC_MIN <= (#[trigger] r->Ok_0@[i])@.len(),
{
    let lens = fastcdc_split(data, CDC_MIN as u32, CDC_AVG as u32, CDC_MAX as u32);
    let size: usize = data.len();
    let mut out: Vec<Vec<u8>> = Vec::new();
    let mut at: usize = 0;
    let mut i: usize = 0;
    assert(lens@.take(0) =~= Seq::empty());
    assert(pieces(out@) =~= Seq::empty());
    assert(data@.take(0) =~= Seq::empty());
    while i < lens.len()
        invariant
            i <= lens@.len(),
            total(lens@) == data@.len(),
            at == total(lens@.take(i as int)),
            size == data@.len(),
            at <= size,
            out@.len() == i,
            pieces(out@) == cut(data@, lens@).take(i as int),
            concat(pieces(out@)) == data@.take(at as int),
            forall|k: int| 0 <= k < i ==> (#[trigger] out@[k])@.len() == lens@[k],
        decreases lens@.len() - i,
    {
        proof {
            lemma_total_monotonic(lens@, i as int);
        }
        let n: usize = lens[i];
        let piece = vstd::slice::slice_to_vec(vstd::slice::slice_subrange(data, at, at + n));
        let ghost before = pieces(out@);
        out.push(piece);
        at = at + n;
        i = i + 1;
        proof {
            assert(pieces(out@) =~= before.push(piece@));
            assert(pieces(out@).drop_last() =~= before);
            assert(cut(data@, lens@).take(i as int) =~= before.push(piece@));
            assert(data@.take(at as int) =~= data@.take(at - n) + piece@);
        }
    }
    assert(lens@.take(i as int) =~= lens@);
    assert(cut(data@, lens@).take(i as int) =~= cut(data@, lens@));
    assert(data@.take(at as int) =~= data@);
    Ok(out)
}

/// Pieces one behind the other are their bytes in order, none left out.
pub proof fn pieces_follow_each_other(ps: Seq<Seq<u8>>)
    ensures
        concat(ps) == ps.flatten(),
    decreases ps.len(),
{
    ps.lemma_flatten_and_flatten_alt_are_equivalent();
    if ps.len() > 0 {
        let rest = ps.drop_last();
        pieces_follow_each_other(rest);
        rest.lemma_flatten_and_flatten_alt_are_equivalent();
    }
}

} // verus!
