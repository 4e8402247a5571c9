//! Content addresses: BLAKE3 digests and their hexadecimal form.

use vstd::prelude::*;
use vstd::string::*;
use vstd::utf8::*;
use crate::error::Error;
use crate::error::ErrorView;
use crate::error::Result;
use crate::text::bytes_eq;
use crate::text::is_white;

verus! {

/// The 32 bytes that BLAKE3 gives for `data` in its default hash mode.
pub uninterp spec fn blake3_hash(data: Seq<u8>) -> Seq<u8>;

/// `blake3::hash`: the digest depends on the bytes alone.
#[verifier::external_body]
fn blake3_digest(data: &[u8]) -> (r: crate::Hash)
    ensures
        r@ == blake3_hash(data@),
{
    *blake3::hash(data).as_bytes()
}

/// `blake3::Hasher`, an incremental BLAKE3 computation.
#[verifier::external_type_specification]
#[verifier::external_body]
pub struct ExHasher(blake3::Hasher);

/// The bytes that a hasher has taken in since it was made.
pub uninterp spec fn hasher_fed(h: blake3::Hasher) -> Seq<u8>;

/// `blake3::Hasher::new`: a hasher in the default hash mode that has taken in
/// nothing yet.
#[verifier::external_body]
pub(crate) fn hasher_new() -> (h: blake3::Hasher)
    ensures
        hasher_fed(h) == Seq::<u8>::empty(),
{
    blake3::Hasher::new()
}

/// `blake3::Hasher::update`: takes in `data` behind what came before.
#[verifier::external_body]
pub(crate) fn hasher_update(h: &mut blake3::Hasher, data: &[u8])
    ensures
        hasher_fed(*final(h)) == hasher_fed(*old(h)) + data@,
{
    h.update(data);
}

/// `blake3::Hasher::finalize`: the digest of everything taken in, the same
/// that `blake3::hash` gives for those bytes in one piece.
#[verifier::external_body]
pub(crate) fn hasher_finalize(h: &blake3::Hasher) -> (r: crate::Hash)
    ensures
        r@ == blake3_hash(hasher_fed(*h)),
{
    *h.finalize().as_bytes()
}

/// Hash bytes with BLAKE3.
pub fn hash_bytes(data: &[u8]) -> (r: crate::Hash)
    ensures
        r@ == blake3_hash(data@),
{
    blake3_digest(data)
}

/// Whether two hashes are equal.
pub fn hash_eq(a: &crate::Hash, b: &crate::Hash) -> (r: bool)
    ensures
        r == (a@ == b@),
{
    bytes_eq(a.as_slice(), b.as_slice())
}

/// The lowercase hexadecimal digit for `n`.
pub open spec fn nibble_char(n: int) -> char {
    if n < 10 {
        (48 + n) as u8 as char
    } else {
        (87 + n) as u8 as char
    }
}

/// Lowercase hexadecimal: two digits for each byte, the high half first.
pub open spec fn hex_text(b: Seq<u8>) -> Seq<char> {
    Seq::new(
        2 * b.len(),
        |i: int|
            if i % 2 == 0 {
                nibble_char(b[i / 2] as int / 16)
            } else {
                nibble_char(b[i / 2] as int % 16)
            },
    )
}

/// Whether the byte `c` is a hexadecimal digit of either case.
pub open spec fn is_hex_digit(c: u8) -> bool {
    48 <= c <= 57 || 65 <= c <= 70 || 97 <= c <= 102
}

/// The value of a hexadecimal digit.
pub open spec fn hex_digit_value(c: u8) -> int {
    if c <= 57 {
        c - 48
    } else if c <= 70 {
        c - 55
    } else {
        c - 87
    }
}

/// Whether `s` is an even number of hexadecimal digits.
pub open spec fn is_hex(s: Seq<u8>) -> bool {
    s.len() % 2 == 0 && forall|i: int| 0 <= i < s.len() ==> is_hex_digit(#[trigger] s[i])
}

/// The bytes that hexadecimal digits stand for.
pub open spec fn unhex(s: Seq<u8>) -> Seq<u8> {
    Seq::new(
        s.len() / 2,
        |i: int| (16 * hex_digit_value(s[2 * i]) + hex_digit_value(s[2 * i + 1])) as u8,
    )
}

/// `hex::FromHexError`, carried through unread.
#[verifier::external_type_specification]
#[verifier::external_body]
pub struct ExFromHexError(hex::FromHexError);

/// `hex::encode`: two lowercase digits for each byte.
#[verifier::external_body]
pub(crate) fn hex_encode(data: &[u8]) -> (r: String)
    ensures
        r@ == hex_text(data@),
{
    hex::encode(data)
}

/// `hex::decode`: succeeds exactly on an even number of hexadecimal digits of
/// either case, with the bytes they stand for.
#[verifier::external_body]
pub(crate) fn hex_decode(s: &str) -> (r: std::result::Result<Vec<u8>, hex::FromHexError>)
    ensures
        match r {
            Ok(v) => is_hex(encode_utf8(s@)) && v@ == unhex(encode_utf8(s@)),
            Err(_) => !is_hex(encode_utf8(s@)),
        },
{
    hex::decode(s)
}

/// The 32 bytes of `v` as an array.
pub fn array32(v: &[u8]) -> (r: crate::Hash)
    requires
        v@.len() == 32,
    ensures
        r@ == v@,
{
    let mut a: crate::Hash = [0u8; 32];
    let mut i: usize = 0;
    while i < 32
        invariant
            i <= 32,
            v@.len() == 32,
            a@.len() == 32,
            forall|k: int| 0 <= k < i ==> a@[k] == #[trigger] v@[k],
        decreases 32 - i,
    {
        a[i] = v[i];
        i = i + 1;
    }
    assert(a@ =~= v@);
    a
}

/// What a text says as a hash: 64 hexadecimal digits of either case, or
/// nothing.
pub open spec fn hash_of_text(s: Seq<char>) -> Option<Seq<u8>> {
    let b = encode_utf8(s);
    if is_hex(b) && b.len() == 64 {
        Some(unhex(b))
    } else {
        None
    }
}

/// Parse a 64-char hex string into a hash.
pub fn parse_hash(s: &str) -> (r: Result<crate::Hash>)
    ensures
        match r {
            Ok(h) => hash_of_text(s@) == Some(h@),
            Err(e) => hash_of_text(s@) is None && e@ == ErrorView::BadHash(s@),
        },
{
    match hex_decode(s) {
        Ok(v) => {
            if v.len() == 32 {
                Ok(array32(v.as_slice()))
            } else {
                Err(Error::BadHash(s.to_owned()))
            }
        },
        Err(_) => Err(Error::BadHash(s.to_owned())),
    }
}

/// Format a hash as lowercase hex.
pub fn hash_hex(h: &crate::Hash) -> (r: String)
    ensures
        r@ == hex_text(h@),
        r@.len() == 64,
{
    hex_encode(h.as_slice())
}

/// Short hash prefix for display.
pub fn short(h: &crate::Hash) -> (r: String)
    ensures
        r@ == hex_text(h@.subrange(0, 6)),
{
    let v = h.as_slice();
    hex_encode(vstd::slice::slice_subrange(v, 0, 6))
}

/// Whether the bytes are 64 lowercase hexadecimal digits.
pub open spec fn hash_name(b: Seq<u8>) -> bool {
    b.len() == 64 && forall|i: int|
        0 <= i < 64 ==> 48 <= #[trigger] b[i] <= 57 || 97 <= b[i] <= 102
}

/// True if `name` is exactly 64 lowercase hex chars, the on-disk shape
/// of object and manifest ids. Used to skip foreign files (`.tmp`,
/// editor droppings) inside store fan-out dirs.
pub fn is_hash_name(name: &str) -> (r: bool)
    ensures
        r == hash_name(encode_utf8(name@)),
{
    let b = name.as_bytes();
    if b.len() != 64 {
        return false;
    }
    let mut i: usize = 0;
    while i < 64
        invariant
            i <= 64,
            b@.len() == 64,
            b@ == encode_utf8(name@),
            forall|k: int| 0 <= k < i ==> 48 <= #[trigger] b@[k] <= 57 || 97 <= b@[k] <= 102,
        decreases 64 - i,
    {
        let c: u8 = b[i];
        if !((48 <= c && c <= 57) || (97 <= c && c <= 102)) {
            return false;
        }
        i = i + 1;
    }
    true
}

/// Hexadecimal text is ASCII, so its bytes are its characters.
pub proof fn lemma_hex_text_bytes(b: Seq<u8>)
    ensures
        encode_utf8(hex_text(b)).len() == 2 * b.len(),
        forall|i: int|
            0 <= i < 2 * b.len() ==> #[trigger] encode_utf8(hex_text(b))[i] == hex_text(b)[i] as u8,
        is_hex(encode_utf8(hex_text(b))),
{
    let t = hex_text(b);
    assert forall|i: int| 0 <= i < t.len() implies (0 <= #[trigger] t[i] as u32) && (t[i] as u32)
        < 128 && is_hex_digit(t[i] as u8) by {
        let q = b[i / 2] as int;
        assert(0 <= q / 16 < 16 && 0 <= q % 16 < 16);
    }
    assert(is_ascii_chars(t));
    is_ascii_chars_encode_utf8(t);
    assert forall|i: int| 0 <= i < t.len() implies is_hex_digit(#[trigger] encode_utf8(t)[i]) by {
        assert(is_hex_digit(t[i] as u8));
    }
}

/// No digit is a separator or whitespace.
pub proof fn lemma_hex_chars(b: Seq<u8>)
    ensures
        hex_text(b).len() == 2 * b.len(),
        forall|i: int|
            0 <= i < hex_text(b).len() ==> (#[trigger] hex_text(b)[i]) != '/' && !is_white(
                hex_text(b)[i],
            ),
{
    let t = hex_text(b);
    assert forall|i: int| 0 <= i < t.len() implies (#[trigger] t[i]) != '/' && !is_white(t[i]) by {
        let q = b[i / 2] as int;
        assert(0 <= q / 16 < 16 && 0 <= q % 16 < 16);
    }
}

/// Decoding gives back what was encoded.
pub proof fn lemma_unhex_hex(b: Seq<u8>)
    ensures
        unhex(encode_utf8(hex_text(b))) == b,
{
    lemma_hex_text_bytes(b);
    let e = encode_utf8(hex_text(b));
    assert forall|i: int| 0 <= i < b.len() implies #[trigger] unhex(e)[i] == b[i] by {
        let q = b[i] as int;
        assert((2 * i) / 2 == i && (2 * i + 1) / 2 == i && (2 * i) % 2 == 0 && (2 * i + 1) % 2 == 1);
        assert(0 <= q / 16 < 16 && 0 <= q % 16 < 16);
        assert(e[2 * i] == nibble_char(q / 16) as u8);
        assert(e[2 * i + 1] == nibble_char(q % 16) as u8);
        assert(hex_digit_value(e[2 * i]) == q / 16);
        assert(hex_digit_value(e[2 * i + 1]) == q % 16);
    }
    assert(unhex(e) =~= b);
}

/// Parsing the hexadecimal form of a hash gives the hash back.
pub proof fn hash_text_round_trip(h: Seq<u8>)
    requires
        h.len() == 32,
    ensures
        hash_of_text(hex_text(h)) == Some(h),
        hash_name(encode_utf8(hex_text(h))),
{
    lemma_hex_text_bytes(h);
    lemma_unhex_hex(h);
    let t = hex_text(h);
    assert forall|i: int| 0 <= i < 64 implies 48 <= #[trigger] encode_utf8(t)[i] <= 57 || 97
        <= encode_utf8(t)[i] <= 102 by {
        let q = h[i / 2] as int;
        assert(0 <= q / 16 < 16 && 0 <= q % 16 < 16);
        assert(encode_utf8(t)[i] == t[i] as u8);
    }
}

/// Different hashes have different hexadecimal forms.
pub proof fn hash_text_injective(a: Seq<u8>, b: Seq<u8>)
    requires
        hex_text(a) == hex_text(b),
    ensures
        a == b,
{
    lemma_unhex_hex(a);
    lemma_unhex_hex(b);
}

/// The names of stored files are 64 digits or small letters up to `f`, and
/// nothing else is one; a hash can be given in either case.
pub proof fn hashes_are_64_digits(name: Seq<char>)
    ensures
        ({
            let b = encode_utf8(name);
            &&& hash_name(b) <==> b.len() == 64 && forall|i: int|
                0 <= i < b.len() ==> (48 <= #[trigger] b[i] && b[i] <= 57) || (97 <= b[i] && b[i]
                    <= 102)
            &&& hash_of_text(name) is Some <==> b.len() == 64 && forall|i: int|
                0 <= i < b.len() ==> (48 <= #[trigger] b[i] && b[i] <= 57) || (65 <= b[i] && b[i]
                    <= 70) || (97 <= b[i] && b[i] <= 102)
            &&& hash_of_text(name) is Some ==> hash_of_text(name)->Some_0 == unhex(b)
        }),
{
    let b = encode_utf8(name);
    if hash_of_text(name) is Some {
        assert forall|i: int| 0 <= i < b.len() implies (48 <= #[trigger] b[i] && b[i] <= 57) || (65
            <= b[i] && b[i] <= 70) || (97 <= b[i] && b[i] <= 102) by {
            assert(is_hex_digit(b[i]));
        }
    }
    if b.len() == 64 && forall|i: int|
        0 <= i < b.len() ==> (48 <= #[trigger] b[i] && b[i] <= 57) || (65 <= b[i] && b[i] <= 70) || (
        97 <= b[i] && b[i] <= 102) {
        assert forall|i: int| 0 <= i < b.len() implies is_hex_digit(#[trigger] b[i]) by {}
    }
}

} // verus!
