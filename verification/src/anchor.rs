//! Anchors: signed checkpoints of fabric state, held *outside* the
//! fabric they describe.
//!
//! The audit chain proves internal consistency, not continuity: an
//! attacker with write access to `.respawn/` can replace the whole log
//! with a fresh, self-consistent one. An anchor closes that: a signed
//! statement of (fabric_id, HEAD, audit length, audit tip) written to a
//! path the operator chooses. `verify` later confirms the signature *and*
//! that the anchored tip is still a valid prefix of the live log, which
//! catches truncation, splicing, and wholesale replacement.
//!
//! The pubkey is printed once at key generation: record it. `verify` checks
//! the signer identity so a swapped key produces a swapped key, not a
//! passed check.

use vstd::prelude::*;
use vstd::string::*;
use vstd::utf8::*;
use crate::audit::EntryView;
use crate::audit::LogLine;
use crate::audit::anchored_prefix_is_intact;
use crate::audit::chain_tip;
use crate::audit::chained;
use crate::audit::collide;
use crate::audit::entries;
use crate::audit::growth_is_legal;
use crate::audit::hashed_bytes;
use crate::audit::log_view;
use crate::audit::prefix_result;
use crate::audit::tip_is_prefix;
use crate::audit::well_read;
use crate::digest::array32;
use crate::digest::blake3_hash;
use crate::digest::hash_bytes;
use crate::digest::hash_hex;
use crate::digest::hash_text_injective;
use crate::digest::hex_decode;
use crate::digest::hex_encode;
use crate::digest::hex_text;
use crate::digest::is_hex;
use crate::digest::lemma_hex_chars;
use crate::digest::lemma_hex_text_bytes;
use crate::digest::lemma_unhex_hex;
use crate::digest::unhex;
use crate::error::Error;
use crate::error::ErrorView;
use crate::error::Result;
use crate::error::corrupt;
use crate::index::TextIndex;
use crate::keychain::TextRead;
use crate::keys::ed25519_is_key;
use crate::keys::ed25519_public;
use crate::keys::ed25519_signature;
use crate::keys::ed25519_verifies;
use crate::keys::is_key;
use crate::keys::public_of;
use crate::keys::random32;
use crate::keys::sign_message;
use crate::keys::verifies;
use crate::paths::join;
use crate::paths::join_text;
use crate::revert::name_list;
use crate::revert::names_of;
use crate::snapshot::lowered;
use crate::snapshot::to_lower;
use crate::store::Store;
use crate::store::head_of_text;
use crate::text::chars_eq;
use crate::text::chars_of;
use crate::text::dec;
use crate::text::is_digit;
use crate::text::is_white;
use crate::text::lemma_dec_digits;
use crate::text::lemma_dec_injective;
use crate::text::lemma_strs_push;
use crate::text::push_dec;
use crate::text::push_dec_wide;
use crate::text::strs;
use crate::text::text_eq;
use crate::text::trim;
use crate::text::trimmed;

verus! {

/// The version of the signed statement.
pub const ANCHOR_VERSION: u32 = 1;

/// Anchors are tiny JSON; a cap rejects memory-exhaustion inputs before
/// they are read, not after.
pub const MAX_ANCHOR_BYTES: u64 = 4194304;

/// Canonical signed statement. Serialized into `payload` inside the
/// anchor file: the signature covers the payload *string*, so
/// verification never depends on re-serialization byte-compatibility.
#[derive(Debug)]
pub struct AnchorPayload {
    /// "respawn-anchor"
    pub kind: String,
    pub version: u32,
    pub fabric_id: String,
    /// Number of audit entries the anchor covers, also the anchor seq.
    pub audit_len: u64,
    /// Hash of the last covered audit entry; empty when the log was empty.
    pub audit_tip: String,
    /// HEAD snapshot at anchor time (hex), or none.
    pub head: Option<String>,
    /// BLAKE3 of the previous anchor *file* (the whole signed document,
    /// signature included). None on the first anchor, and absent in
    /// anchors written before chaining existed.
    pub prev_anchor: Option<String>,
    pub ts: u64,
}

#[derive(Debug)]
pub struct AnchorFile {
    /// "respawn-anchor/v1"
    pub format: String,
    pub pubkey: String,
    pub payload: String,
    pub sig: String,
}

/// An anchor file as it was read: its bytes, what the JSON parser makes of
/// them, and what it makes of the payload inside; where one does not parse,
/// the parser's message.
#[derive(Debug)]
pub struct AnchorDoc {
    pub bytes: Vec<u8>,
    pub file: std::result::Result<AnchorFile, String>,
    pub payload: std::result::Result<AnchorPayload, String>,
}

/// The characters of a text that may be missing.
pub open spec fn text_opt(t: Option<String>) -> Option<Seq<char>> {
    match t {
        Some(t) => Some(t@),
        None => None,
    }
}

/// Where the fabric's id lies.
pub fn fabric_id_path(store: &Store) -> (r: String)
    ensures
        r@ == join_text(store.fabric_text(), "fabric_id"@),
{
    join(store.fabric_dir().as_str(), "fabric_id")
}

/// Where the hash of the most recently minted anchor file lies: the link the
/// next anchor signs. Anchors form a chain: verify pairwise and a
/// deleted, spliced, or substituted anchor file breaks the sequence.
pub fn last_anchor_path(store: &Store) -> (r: String)
    ensures
        r@ == join_text(store.fabric_text(), "last_anchor"@),
{
    join(store.fabric_dir().as_str(), "last_anchor")
}

/// 32 random bytes in hexadecimal.
fn random_hex32() -> (r: Result<String>)
    ensures
        r is Ok ==> exists|b: Seq<u8>| b.len() == 32 && r->Ok_0@ == #[trigger] hex_text(b),
        r is Err ==> r->Err_0 is Io,
{
    match random32() {
        Ok(b) => {
            assert(b@.len() == 32);
            Ok(hash_hex(&b))
        },
        Err(e) => Err(Error::Io(e)),
    }
}

/// Fabric identity: a random id minted at init (or lazily on first
/// anchor use for fabrics created before anchors existed). Anchors are
/// bound to it, so a checkpoint from one fabric cannot be replayed
/// against another. Returns the id, and whether it is new and has to be
/// written.
pub fn fabric_id(read: TextRead) -> (r: Result<(String, bool)>)
    ensures
        match read {
            TextRead::Text(t) => r is Ok && r->Ok_0.0@ == trim(t@) && !r->Ok_0.1,
            TextRead::Failed(e) => r is Err && r->Err_0@ == ErrorView::Io(e),
            TextRead::Missing => match r {
                Ok(p) => p.1 && exists|b: Seq<u8>|
                    b.len() == 32 && p.0@ == #[trigger] hex_text(b),
                Err(e) => e is Io,
            },
        },
{
    match read {
        TextRead::Text(t) => Ok((trimmed(t.as_str()), false)),
        TextRead::Failed(e) => Err(Error::Io(e)),
        TextRead::Missing => match random_hex32() {
            Ok(id) => Ok((id, true)),
            Err(e) => Err(e),
        },
    }
}

/// Generate the anchor signing key: the seed and its public key in
/// hexadecimal. Refuses to overwrite: a swapped key is indistinguishable
/// from an attacker swapping keys unless the original pubkey was recorded
/// off-fabric, so clobbering is never done silently.
pub fn keygen(key_exists: bool) -> (r: Result<(crate::Hash, String)>)
    ensures
        key_exists ==> r is Err && r->Err_0@ == ErrorView::Corrupt("anchor key already exists"@),
        !key_exists ==> match r {
            Ok(k) => k.1@ == hex_text(ed25519_public(k.0@)),
            Err(e) => e is Io,
        },
{
    if key_exists {
        return Err(corrupt("anchor key already exists"));
    }
    match random32() {
        Err(e) => Err(Error::Io(e)),
        Ok(seed) => {
            let pk = pubkey(&seed);
            Ok((seed, pk))
        },
    }
}

/// The public key of a seed, in hexadecimal.
pub fn pubkey(seed: &crate::Hash) -> (r: String)
    ensures
        r@ == hex_text(ed25519_public(seed@)),
{
    hash_hex(&public_of(seed))
}

/// What `create`/`next` did: the covered audit count plus any
/// operator note the secret layer produced (migration, fallback).
#[derive(Debug)]
pub struct CreateOutcome {
    pub audit_len: u64,
    pub note: Option<String>,
}

/// Whether `candidate` lies at or under `dir`: the names along `dir` are the
/// first along `candidate`, and both are absolute or both are not.
pub open spec fn lies_under(candidate: Seq<char>, dir: Seq<char>) -> bool {
    &&& (candidate.len() > 0 && candidate[0] == '/') == (dir.len() > 0 && dir[0] == '/')
    &&& names_of(dir).is_prefix_of(names_of(candidate))
}

/// Whether the names `b` are the first of the names `a`.
fn begins_names(a: &Vec<String>, b: &Vec<String>) -> (r: bool)
    ensures
        r == strs(b@).is_prefix_of(strs(a@)),
{
    let ghost sa = strs(a@);
    let ghost sb = strs(b@);
    if b.len() > a.len() {
        return false;
    }
    let mut i: usize = 0;
    while i < b.len()
        invariant
            i <= b@.len() <= a@.len(),
            sa == strs(a@),
            sb == strs(b@),
            forall|k: int| 0 <= k < i ==> #[trigger] sa[k] == sb[k],
        decreases b@.len() - i,
    {
        assert(sa[i as int] == a@[i as int]@);
        assert(sb[i as int] == b@[i as int]@);
        if !text_eq(a[i].as_str(), b[i].as_str()) {
            proof {
                if sb.is_prefix_of(sa) {
                    assert(sb =~= sa.subrange(0, sb.len() as int));
                    assert(sa.subrange(0, sb.len() as int)[i as int] == sa[i as int]);
                }
            }
            return false;
        }
        i = i + 1;
    }
    assert(sb =~= sa.subrange(0, sb.len() as int));
    true
}

/// Whether a path is absolute.
pub open spec fn rooted(p: Seq<char>) -> bool {
    p.len() > 0 && p[0] == '/'
}

fn is_rooted(p: &str) -> (r: bool)
    ensures
        r == rooted(p@),
{
    let c = chars_of(p);
    c.len() > 0 && c[0] == '/'
}

/// Whether `candidate` lies at or under `dir`, both in canonical form.
pub fn inside(candidate: &str, dir: &str) -> (r: bool)
    ensures
        r == lies_under(candidate@, dir@),
{
    if is_rooted(candidate) != is_rooted(dir) {
        return false;
    }
    begins_names(&name_list(candidate), &name_list(dir))
}

/// The names along the way from `at` to where the steps `rest` lead: `.`
/// stays, `..` goes up, any other name goes down.
pub open spec fn led(at: Seq<Seq<char>>, rest: Seq<Seq<char>>) -> Seq<Seq<char>>
    decreases rest.len(),
{
    if rest.len() == 0 {
        at
    } else {
        let on = led(at, rest.drop_last());
        if rest.last() == "."@ {
            on
        } else if rest.last() == ".."@ {
            if on.len() == 0 {
                on
            } else {
                on.drop_last()
            }
        } else {
            on.push(rest.last())
        }
    }
}

/// Whether the path `rest`, taken from the directory `base`, leads to `dir` or
/// under it.
pub open spec fn leads_under(base: Seq<char>, rest: Seq<char>, dir: Seq<char>) -> bool {
    &&& rooted(base) == rooted(dir)
    &&& names_of(dir).is_prefix_of(led(names_of(base), names_of(rest)))
}

/// Whether a path leads to `dir` or under it. The path may not exist yet:
/// `base` is the canonical form of the nearest directory along it that does,
/// and `rest` what the path says behind that; `dir` is in canonical form.
pub fn leads_inside(base: &str, rest: &str, dir: &str) -> (r: bool)
    ensures
        r == leads_under(base@, rest@, dir@),
{
    if is_rooted(base) != is_rooted(dir) {
        return false;
    }
    let mut at = name_list(base);
    let steps = name_list(rest);
    let ghost from = names_of(base@);
    let ghost way = names_of(rest@);
    let mut i: usize = 0;
    assert(way.take(0) =~= Seq::empty());
    while i < steps.len()
        invariant
            i <= steps@.len(),
            way == strs(steps@),
            strs(at@) == led(from, way.take(i as int)),
        decreases steps@.len() - i,
    {
        let ghost on = strs(at@);
        proof {
            assert(way[i as int] == steps@[i as int]@);
            assert(way.take(i + 1).drop_last() =~= way.take(i as int));
            assert(way.take(i + 1).last() == way[i as int]);
        }
        if text_eq(steps[i].as_str(), ".") {
        } else if text_eq(steps[i].as_str(), "..") {
            let ghost had = at@;
            let up = at.pop();
            proof {
                if had.len() > 0 {
                    assert(strs(at@) =~= on.drop_last());
                } else {
                    assert(strs(at@) =~= on);
                }
            }
        } else {
            let name = steps[i].clone();
            proof {
                lemma_strs_push(at@, name);
            }
            at.push(name);
        }
        i = i + 1;
    }
    assert(way.take(i as int) =~= way);
    begins_names(&at, &name_list(dir))
}

/// An anchor inside the fabric it anchors can be replaced alongside
/// the log it claims to prove: refused outright. `base` and `rest` say where
/// the anchor would go, as in `leads_inside`, `fabric` where the fabric lies,
/// in canonical form.
pub fn check_outside(base: &str, rest: &str, fabric: &str) -> (r: Result<()>)
    ensures
        match r {
            Ok(_) => !leads_under(base@, rest@, fabric@),
            Err(e) => leads_under(base@, rest@, fabric@) && e@ == ErrorView::Corrupt(
                "anchor must live outside .respawn/ \u{2014} inside the fabric it proves nothing"@,
            ),
        },
{
    if leads_inside(base, rest, fabric) {
        return Err(
            corrupt(
                "anchor must live outside .respawn/ \u{2014} inside the fabric it proves nothing",
            ),
        );
    }
    Ok(())
}

/// The statement to sign: the fabric, the audit log's length and tip, HEAD,
/// and the link to the previous anchor. `last_anchor` is the text of the
/// marker file: a convenience, whose value is checked against the signed
/// payload at verify-link time, so tampering with the marker only ever
/// desynchronizes, never forges.
pub fn statement(
    fabric_id: String,
    audit: (u64, String),
    head: Option<crate::Hash>,
    last_anchor: Option<&str>,
    ts: u64,
) -> (r: AnchorPayload)
    ensures
        r.kind@ == "respawn-anchor"@,
        r.version == ANCHOR_VERSION,
        r.fabric_id@ == fabric_id@,
        r.audit_len == audit.0,
        r.audit_tip@ == audit.1@,
        text_opt(r.head) == match head {
            Some(h) => Some(hex_text(h@)),
            None => None,
        },
        text_opt(r.prev_anchor) == match last_anchor {
            Some(t) => Some(trim(t@)),
            None => None,
        },
        r.ts == ts,
{
    AnchorPayload {
        kind: String::from_str("respawn-anchor"),
        version: ANCHOR_VERSION,
        fabric_id,
        audit_len: audit.0,
        audit_tip: audit.1,
        head: match head {
            Some(h) => Some(hash_hex(&h)),
            None => None,
        },
        prev_anchor: match last_anchor {
            Some(t) => Some(trimmed(t)),
            None => None,
        },
        ts,
    }
}

/// Signs a serialized statement.
pub fn sign(seed: &crate::Hash, payload: &str) -> (r: AnchorFile)
    ensures
        signed_by(r, seed@, payload@),
        signature_stands(r),
{
    let key = public_of(seed);
    let sig = sign_message(seed, payload.as_bytes());
    let f = AnchorFile {
        format: String::from_str("respawn-anchor/v1"),
        pubkey: hash_hex(&key),
        payload: payload.to_owned(),
        sig: hex_encode(sig.as_slice()),
    };
    proof {
        lemma_hex_text_bytes(key@);
        lemma_unhex_hex(key@);
        lemma_hex_text_bytes(sig@);
        lemma_unhex_hex(sig@);
    }
    f
}

/// The link that the next anchor signs: the BLAKE3 of an anchor file's exact
/// bytes, in hexadecimal.
pub fn link_of(bytes: &[u8]) -> (r: String)
    ensures
        r@ == hex_text(blake3_hash(bytes@)),
{
    hash_hex(&hash_bytes(bytes))
}

/// The file that a seed's signature over a statement makes.
pub open spec fn signed_by(f: AnchorFile, seed: Seq<u8>, payload: Seq<char>) -> bool {
    &&& f.format@ == "respawn-anchor/v1"@
    &&& f.pubkey@ == hex_text(ed25519_public(seed))
    &&& f.payload@ == payload
    &&& f.sig@ == hex_text(ed25519_signature(seed, encode_utf8(payload)))
}

/// The key, as bytes, that a file names.
pub open spec fn key_bytes(f: AnchorFile) -> Seq<u8> {
    encode_utf8(f.pubkey@)
}

/// The signature, as bytes, that a file names.
pub open spec fn sig_bytes(f: AnchorFile) -> Seq<u8> {
    encode_utf8(f.sig@)
}

/// Whether a file's format is known and its signature over the payload
/// verifies under the key it names.
pub open spec fn signature_stands(f: AnchorFile) -> bool {
    signature_fault(f) is None
}

/// What is wrong with a file's format, key or signature, where something is.
pub open spec fn signature_fault(f: AnchorFile) -> Option<Seq<char>> {
    if f.format@ != "respawn-anchor/v1"@ {
        Some("unknown anchor format "@ + f.format@)
    } else if !is_hex(key_bytes(f)) {
        Some("anchor pubkey is not hex"@)
    } else if key_bytes(f).len() != 64 {
        Some("anchor pubkey is not 32 bytes"@)
    } else if !ed25519_is_key(unhex(key_bytes(f))) {
        Some("anchor pubkey is not a valid ed25519 key"@)
    } else if !is_hex(sig_bytes(f)) {
        Some("anchor sig is not hex"@)
    } else if sig_bytes(f).len() != 128 {
        Some("anchor sig is not 64 bytes"@)
    } else if !ed25519_verifies(
        unhex(key_bytes(f)),
        encode_utf8(f.payload@),
        unhex(sig_bytes(f)),
    ) {
        Some("anchor signature invalid"@)
    } else {
        None
    }
}

/// What is wrong with an anchor, where something is.
pub open spec fn anchor_fault(doc: AnchorDoc) -> Option<Seq<char>> {
    match doc.file {
        Err(m) => Some("anchor file unparsable: "@ + m@),
        Ok(f) => match signature_fault(f) {
            Some(m) => Some(m),
            None => match doc.payload {
                Err(m) => Some("anchor payload unparsable: "@ + m@),
                Ok(p) => if p.kind@ != "respawn-anchor"@ || p.version != ANCHOR_VERSION {
                    Some("anchor payload version/type mismatch"@)
                } else {
                    None
                },
            },
        },
    }
}

/// The 64 bytes of `v` as an array.
fn array64(v: &Vec<u8>) -> (r: [u8; 64])
    requires
        v@.len() == 64,
    ensures
        r@ == v@,
{
    let mut a: [u8; 64] = [0u8; 64];
    let mut i: usize = 0;
    while i < 64
        invariant
            i <= 64,
            v@.len() == 64,
            a@.len() == 64,
            forall|k: int| 0 <= k < i ==> a@[k] == #[trigger] v@[k],
        decreases 64 - i,
    {
        a[i] = v[i];
        i = i + 1;
    }
    assert(a@ =~= v@);
    a
}

/// Checks a file's format, key and signature.
fn check_file(f: &AnchorFile) -> (r: Result<()>)
    ensures
        match signature_fault(*f) {
            None => r is Ok,
            Some(m) => r is Err && r->Err_0@ == ErrorView::Corrupt(m),
        },
{
    if !text_eq(f.format.as_str(), "respawn-anchor/v1") {
        let mut m: String = String::from_str("unknown anchor format ");
        m.append(f.format.as_str());
        return Err(Error::Corrupt(m));
    }
    let pk = match hex_decode(f.pubkey.as_str()) {
        Ok(v) => v,
        Err(_) => {
            return Err(corrupt("anchor pubkey is not hex"));
        },
    };
    if pk.len() != 32 {
        return Err(corrupt("anchor pubkey is not 32 bytes"));
    }
    let key = array32(pk.as_slice());
    if !is_key(&key) {
        return Err(corrupt("anchor pubkey is not a valid ed25519 key"));
    }
    let sig = match hex_decode(f.sig.as_str()) {
        Ok(v) => v,
        Err(_) => {
            return Err(corrupt("anchor sig is not hex"));
        },
    };
    if sig.len() != 64 {
        return Err(corrupt("anchor sig is not 64 bytes"));
    }
    let sig = array64(&sig);
    if !verifies(&key, f.payload.as_str().as_bytes(), &sig) {
        return Err(corrupt("anchor signature invalid"));
    }
    Ok(())
}

/// The error text for an anchor file that is too large.
pub open spec fn oversized_text() -> Seq<char> {
    "anchor file exceeds "@ + dec(MAX_ANCHOR_BYTES as nat) + " bytes"@
}

/// What is wrong with an anchor file, where something is: its size comes
/// first, then what it holds.
pub open spec fn read_fault(doc: AnchorDoc) -> Option<Seq<char>> {
    if doc.bytes@.len() > MAX_ANCHOR_BYTES {
        Some(oversized_text())
    } else {
        anchor_fault(doc)
    }
}

/// What is wrong with an anchor file or its signer, where something is.
pub open spec fn signer_fault(doc: AnchorDoc, pinned: Option<&str>) -> Option<Seq<char>> {
    match read_fault(doc) {
        Some(m) => Some(m),
        None => {
            let f = doc.file->Ok_0;
            if pinned is Some && lowered(pinned->Some_0@) != lowered(f.pubkey@) {
                Some(
                    "anchor signer "@ + f.pubkey@ + " does not match expected key "@
                        + pinned->Some_0@,
                )
            } else {
                None
            }
        },
    }
}

/// Parse an anchor file and verify its signature: format check, key
/// and signature decoding, ed25519 verify over the payload string.
/// Returns the file and its decoded payload: the shared front half of
/// every verification entry point.
pub fn checked_anchor(doc: AnchorDoc) -> (r: Result<(AnchorFile, AnchorPayload)>)
    ensures
        match anchor_fault(doc) {
            None => r is Ok && doc.file == std::result::Result::<AnchorFile, String>::Ok(
                r->Ok_0.0,
            ) && doc.payload == std::result::Result::<AnchorPayload, String>::Ok(r->Ok_0.1),
            Some(m) => r is Err && r->Err_0@ == ErrorView::Corrupt(m),
        },
{
    match check_anchor(&doc) {
        Ok(_) => {},
        Err(e) => {
            return Err(e);
        },
    }
    match (doc.file, doc.payload) {
        (Ok(f), Ok(p)) => Ok((f, p)),
        _ => Err(corrupt("anchor file unparsable")),
    }
}

/// Checks an anchor file: its format, its signature, its statement.
fn check_anchor(doc: &AnchorDoc) -> (r: Result<()>)
    ensures
        match anchor_fault(*doc) {
            None => r is Ok,
            Some(m) => r is Err && r->Err_0@ == ErrorView::Corrupt(m),
        },
{
    let file = match &doc.file {
        Ok(f) => f,
        Err(m) => {
            let mut t: String = String::from_str("anchor file unparsable: ");
            t.append(m.as_str());
            return Err(Error::Corrupt(t));
        },
    };
    match check_file(file) {
        Ok(_) => {},
        Err(e) => {
            return Err(e);
        },
    }
    let payload = match &doc.payload {
        Ok(p) => p,
        Err(m) => {
            let mut t: String = String::from_str("anchor payload unparsable: ");
            t.append(m.as_str());
            return Err(Error::Corrupt(t));
        },
    };
    if !text_eq(payload.kind.as_str(), "respawn-anchor") || payload.version != ANCHOR_VERSION {
        return Err(corrupt("anchor payload version/type mismatch"));
    }
    Ok(())
}

/// Checks an anchor file, its size first.
fn check_read(doc: &AnchorDoc) -> (r: Result<()>)
    ensures
        match read_fault(*doc) {
            None => r is Ok,
            Some(m) => r is Err && r->Err_0@ == ErrorView::Corrupt(m),
        },
{
    match check_size(doc.bytes.len() as u64) {
        Ok(_) => check_anchor(doc),
        Err(e) => Err(e),
    }
}

/// Checks an anchor file and its signer, pinned via `expected_pubkey` or any:
/// what there is to check before the fabric itself is asked.
pub fn check_signer(doc: &AnchorDoc, expected_pubkey: Option<&str>) -> (r: Result<()>)
    ensures
        match signer_fault(*doc, expected_pubkey) {
            None => r is Ok,
            Some(m) => r is Err && r->Err_0@ == ErrorView::Corrupt(m),
        },
{
    match check_read(doc) {
        Ok(_) => {},
        Err(e) => {
            return Err(e);
        },
    }
    match (&doc.file, expected_pubkey) {
        (Ok(file), Some(want)) => {
            let a = to_lower(want);
            let b = to_lower(file.pubkey.as_str());
            if !chars_eq(&a, &b) {
                let mut m: String = String::from_str("anchor signer ");
                m.append(file.pubkey.as_str());
                m.append(" does not match expected key ");
                m.append(want);
                return Err(Error::Corrupt(m));
            }
        },
        _ => {},
    }
    Ok(())
}

/// The name of the `n`th anchor of a millisecond: `anchor-<unix-millis>.json`,
/// with a `-n` suffix if the same millisecond is claimed again.
pub open spec fn anchor_name_text(millis: nat, n: nat) -> Seq<char> {
    if n == 0 {
        "anchor-"@ + dec(millis) + ".json"@
    } else {
        "anchor-"@ + dec(millis) + "-"@ + dec(n) + ".json"@
    }
}

fn anchor_name(millis: u128, n: u64) -> (r: String)
    ensures
        r@ == anchor_name_text(millis as nat, n as nat),
{
    let mut s: String = String::from_str("anchor-");
    push_dec_wide(&mut s, millis);
    if n > 0 {
        s.append("-");
        push_dec(&mut s, n);
    }
    s.append(".json");
    s
}

/// How many anchors one millisecond can have.
pub const MAX_SAME_MILLIS: u64 = 1000;

/// The name for the next chained anchor in a directory that holds the names
/// `taken`: the first of the millisecond that is free. The name scheme keeps
/// a stored series ordered and traversable for pairwise chain verification.
pub fn next_name(millis: u128, taken: &Vec<String>) -> (r: Result<String>)
    ensures
        match r {
            Ok(name) => exists|n: nat|
                n < MAX_SAME_MILLIS && name@ == #[trigger] anchor_name_text(millis as nat, n)
                    && !strs(taken@).contains(name@) && forall|k: nat|
                    k < n ==> strs(taken@).contains(#[trigger] anchor_name_text(millis as nat, k)),
            Err(e) => e@ == ErrorView::Corrupt("could not allocate a timestamped anchor name"@)
                && forall|k: nat|
                k < MAX_SAME_MILLIS ==> strs(taken@).contains(
                    #[trigger] anchor_name_text(millis as nat, k),
                ),
        },
{
    let used = TextIndex::new(taken);
    let mut n: u64 = 0;
    while n < MAX_SAME_MILLIS
        invariant
            n <= MAX_SAME_MILLIS,
            used.source() == strs(taken@),
            forall|k: nat|
                k < n ==> strs(taken@).contains(#[trigger] anchor_name_text(millis as nat, k)),
        decreases MAX_SAME_MILLIS - n,
    {
        let name = anchor_name(millis, n);
        match used.lookup(name.as_str()) {
            None => {
                assert(name@ == anchor_name_text(millis as nat, n as nat));
                return Ok(name);
            },
            Some(i) => {
                assert(strs(taken@)[i as int] == name@);
            },
        }
        n = n + 1;
    }
    Err(corrupt("could not allocate a timestamped anchor name"))
}

/// Refuses an anchor file that is too large to be one.
pub fn check_size(len: u64) -> (r: Result<()>)
    ensures
        match r {
            Ok(_) => len <= MAX_ANCHOR_BYTES,
            Err(e) => len > MAX_ANCHOR_BYTES && e@ == ErrorView::Corrupt(oversized_text()),
        },
{
    if len > MAX_ANCHOR_BYTES {
        let mut m: String = String::from_str("anchor file exceeds ");
        push_dec(&mut m, MAX_ANCHOR_BYTES);
        m.append(" bytes");
        return Err(Error::Corrupt(m));
    }
    Ok(())
}

#[derive(Debug)]
pub struct VerifyOutcome {
    pub signer_pubkey: String,
    pub audit_len: u64,
    /// HEAD recorded in the anchor.
    pub anchored_head: Option<String>,
    /// HEAD right now: divergence is normal (new snapshots), reported
    /// for visibility, not treated as tampering.
    pub current_head: Option<String>,
    /// BLAKE3 hex of the anchor file itself, the link the next anchor
    /// in the chain should carry.
    pub file_hash: String,
    /// Hash of the previous anchor this one chains to, if any.
    pub prev_anchor: Option<String>,
}

/// The outcome for an anchor that stands.
pub open spec fn outcome_of(
    doc: AnchorDoc,
    head: Option<Seq<u8>>,
    v: VerifyOutcome,
) -> bool {
    let f = doc.file->Ok_0;
    let p = doc.payload->Ok_0;
    &&& v.signer_pubkey@ == f.pubkey@
    &&& v.audit_len == p.audit_len
    &&& text_opt(v.anchored_head) == text_opt(p.head)
    &&& text_opt(v.current_head) == match head {
        Some(h) => Some(hex_text(h)),
        None => None,
    }
    &&& v.file_hash@ == hex_text(blake3_hash(doc.bytes@))
    &&& text_opt(v.prev_anchor) == text_opt(p.prev_anchor)
}

/// What verifying an anchor gives: the checks of its file, signer, fabric, log
/// and HEAD in this order.
pub open spec fn verified(
    doc: AnchorDoc,
    pinned: Option<&str>,
    id: Result<String>,
    log: Option<Vec<LogLine>>,
    head: Option<&str>,
    r: Result<VerifyOutcome>,
) -> bool {
    let p = doc.payload->Ok_0;
    if signer_fault(doc, pinned) is Some {
        r is Err && r->Err_0@ == ErrorView::Corrupt(signer_fault(doc, pinned)->Some_0)
    } else if id is Err {
        r is Err && r->Err_0 == id->Err_0
    } else if p.fabric_id@ != id->Ok_0@ {
        r is Err && r->Err_0@ == ErrorView::Corrupt("anchor belongs to a different fabric"@)
    } else {
        exists|t: Result<()>| #[trigger]
            prefix_result(log, p.audit_len, p.audit_tip@, t) && match t {
                Err(e) => r is Err && r->Err_0@ == e@,
                Ok(_) => match head_of_text(head) {
                    Err(m) => r is Err && r->Err_0@ == ErrorView::BadHash(m),
                    Ok(h) => r is Ok && outcome_of(doc, h, r->Ok_0),
                },
            }
    }
}

/// Verify an anchor: signature over the payload, signer identity
/// (optionally pinned via `expected_pubkey`), fabric id match, and,
/// the actual point, that the anchored audit tip is still a valid
/// prefix of the live log. A file over the size cap is refused before
/// anything else. `id` is the fabric's id, `log` its audit log where there is
/// one, `head` the text of its HEAD file.
pub fn verify(
    doc: AnchorDoc,
    expected_pubkey: Option<&str>,
    id: Result<String>,
    log: Option<Vec<LogLine>>,
    head: Option<&str>,
) -> (r: Result<VerifyOutcome>)
    ensures
        verified(doc, expected_pubkey, id, log, head, r),
{
    match check_signer(&doc, expected_pubkey) {
        Ok(_) => {},
        Err(e) => {
            return Err(e);
        },
    }
    let file_hash = link_of(doc.bytes.as_slice());
    let (file, payload) = match checked_anchor(doc) {
        Ok(p) => p,
        Err(e) => {
            return Err(e);
        },
    };
    let live = match id {
        Ok(s) => s,
        Err(e) => {
            return Err(e);
        },
    };
    if !text_eq(payload.fabric_id.as_str(), live.as_str()) {
        return Err(corrupt("anchor belongs to a different fabric"));
    }
    // The anchored tip must still be a *prefix* of the live log:
    // extension after anchoring is legal work; a shorter log or a tip
    // that no longer matches is tampering.
    let t = tip_is_prefix(log, payload.audit_len, payload.audit_tip.as_str());
    assert(prefix_result(log, payload.audit_len, payload.audit_tip@, t));
    match t {
        Err(e) => {
            return Err(e);
        },
        Ok(_) => {},
    }
    let current = match Store::head(head) {
        Err(e) => {
            return Err(e);
        },
        Ok(h) => h,
    };
    Ok(
        VerifyOutcome {
            signer_pubkey: file.pubkey,
            audit_len: payload.audit_len,
            anchored_head: payload.head,
            current_head: match current {
                Some(h) => Some(hash_hex(&h)),
                None => None,
            },
            file_hash,
            prev_anchor: payload.prev_anchor,
        },
    )
}

/// What checking the link between two anchors that stand gives.
pub open spec fn linked(cur: AnchorPayload, prev_bytes: Seq<u8>) -> std::result::Result<
    (),
    Seq<char>,
> {
    match text_opt(cur.prev_anchor) {
        None => Err("anchor has no chain link (first anchor, or pre-chain format)"@),
        Some(h) => if h == hex_text(blake3_hash(prev_bytes)) {
            Ok(())
        } else {
            Err("anchor does not chain to the given predecessor"@)
        },
    }
}

/// What checking the link between two anchor files gives.
pub open spec fn link_result(cur: AnchorDoc, prev: AnchorDoc) -> std::result::Result<
    (),
    Seq<char>,
> {
    match read_fault(prev) {
        Some(m) => Err(m),
        None => match read_fault(cur) {
            Some(m) => Err(m),
            None => linked(cur.payload->Ok_0, prev.bytes@),
        },
    }
}

/// Verify that `cur` chains to `prev`: both must be well-formed signed
/// anchors, and `cur`'s signed `prev_anchor` must equal the BLAKE3 of
/// `prev`'s exact bytes. Pairwise application over a stored anchor
/// series proves the *sequence* was not spliced, substituted, or had
/// members deleted, shrinking the unverifiable window to "since the
/// last anchor" instead of "since anchoring began."
pub fn verify_link(cur: AnchorDoc, prev: AnchorDoc) -> (r: Result<()>)
    ensures
        match link_result(cur, prev) {
            Ok(_) => r is Ok,
            Err(m) => r is Err && r->Err_0@ == ErrorView::Corrupt(m),
        },
{
    // prev must itself be a valid signed anchor: a link into garbage
    // is not a link.
    match check_read(&prev) {
        Ok(_) => {},
        Err(e) => {
            return Err(e);
        },
    }
    let prev_hash = link_of(prev.bytes.as_slice());
    match check_read(&cur) {
        Ok(_) => {},
        Err(e) => {
            return Err(e);
        },
    }
    match checked_anchor(cur) {
        Err(e) => Err(e),
        Ok((_, payload)) => match &payload.prev_anchor {
            Some(h) => {
                if text_eq(h.as_str(), prev_hash.as_str()) {
                    return Ok(());
                }
                Err(corrupt("anchor does not chain to the given predecessor"))
            },
            None => Err(
                corrupt("anchor has no chain link (first anchor, or pre-chain format)"),
            ),
        },
    }
}

/// Sanity: the bytes parse and their signature verifies without
/// touching a fabric, used when checking an anchor away from its
/// worktree. Returns the signer's key.
pub fn verify_detached_bytes(doc: AnchorDoc) -> (r: Result<String>)
    ensures
        match anchor_fault(doc) {
            None => r is Ok && r->Ok_0@ == doc.file->Ok_0.pubkey@,
            Some(m) => r is Err && r->Err_0@ == ErrorView::Corrupt(m),
        },
{
    match checked_anchor(doc) {
        Ok((file, _)) => Ok(file.pubkey),
        Err(e) => Err(e),
    }
}

/// Sanity: the file is no larger than an anchor can be and its signature
/// verifies without touching a fabric.
pub fn verify_detached(doc: AnchorDoc) -> (r: Result<String>)
    ensures
        match read_fault(doc) {
            None => r is Ok && r->Ok_0@ == doc.file->Ok_0.pubkey@,
            Some(m) => r is Err && r->Err_0@ == ErrorView::Corrupt(m),
        },
{
    match check_size(doc.bytes.len() as u64) {
        Err(e) => Err(e),
        Ok(_) => verify_detached_bytes(doc),
    }
}

/// An anchor that was signed passes the check of its signature, and names its
/// signer.
pub proof fn signed_anchor_stands(
    doc: AnchorDoc,
    seed: Seq<u8>,
    payload: Seq<char>,
    p: AnchorPayload,
)
    requires
        doc.file is Ok,
        signed_by(doc.file->Ok_0, seed, payload),
        signature_stands(doc.file->Ok_0),
        doc.payload == std::result::Result::<AnchorPayload, String>::Ok(p),
        p.kind@ == "respawn-anchor"@,
        p.version == ANCHOR_VERSION,
    ensures
        anchor_fault(doc) is None,
        doc.file->Ok_0.pubkey@ == hex_text(ed25519_public(seed)),
{
}

/// An anchor made over a chained log, checked against that log later, with
/// anything appended that is well read, passes the check of the log.
pub proof fn fresh_anchor_covers_its_log(
    recorded: Seq<EntryView>,
    log: Vec<LogLine>,
    len: u64,
    t: Result<()>,
)
    requires
        chained(recorded),
        recorded.len() == len,
        recorded.is_prefix_of(entries(log_view(log@))),
        forall|j: int| 0 <= j < log@.len() ==> well_read(#[trigger] log_view(log@)[j]),
        prefix_result(Some(log), len, chain_tip(recorded), t),
    ensures
        t is Ok,
{
    if len > 0 {
        growth_is_legal(log_view(log@), len, recorded, t);
    }
}

/// An anchor that passes verification vouches for the log: it still begins
/// with the entries that were anchored, unless an entry collides with an
/// anchored one under BLAKE3.
pub proof fn passed_anchor_vouches_for_the_log(
    doc: AnchorDoc,
    pinned: Option<&str>,
    id: Result<String>,
    log: Vec<LogLine>,
    head: Option<&str>,
    r: Result<VerifyOutcome>,
    recorded: Seq<EntryView>,
)
    requires
        verified(doc, pinned, id, Some(log), head, r),
        r is Ok,
        chained(recorded),
        recorded.len() == doc.payload->Ok_0.audit_len,
        chain_tip(recorded) == doc.payload->Ok_0.audit_tip@,
    ensures
        recorded.is_prefix_of(entries(log_view(log@))) || exists|i: int|
            0 <= i < recorded.len() && i < entries(log_view(log@)).len() && #[trigger] collide(
                hashed_bytes(recorded, i),
                hashed_bytes(entries(log_view(log@)), i),
            ),
{
    let p = doc.payload->Ok_0;
    let t = choose|t: Result<()>| #[trigger]
        prefix_result(Some(log), p.audit_len, p.audit_tip@, t) && match t {
            Err(e) => r is Err && r->Err_0@ == e@,
            Ok(_) => match head_of_text(head) {
                Err(m) => r is Err && r->Err_0@ == ErrorView::BadHash(m),
                Ok(h) => r is Ok && outcome_of(doc, h, r->Ok_0),
            },
        };
    if p.audit_len > 0 {
        anchored_prefix_is_intact(log_view(log@), p.audit_len, recorded, t);
    } else {
        assert(recorded =~= entries(log_view(log@)).subrange(0, 0));
    }
}

/// An anchor chains to one file only: two files that both pass as its
/// predecessor are equal or collide under BLAKE3.
pub proof fn link_fixes_the_predecessor(cur: AnchorPayload, a: Seq<u8>, b: Seq<u8>)
    requires
        linked(cur, a) is Ok,
        linked(cur, b) is Ok,
    ensures
        a == b || collide(a, b),
{
    hash_text_injective(blake3_hash(a), blake3_hash(b));
}

/// The next anchor chains to the one whose link was recorded as the last.
pub proof fn next_anchor_chains(cur: AnchorPayload, prev_bytes: Seq<u8>)
    requires
        text_opt(cur.prev_anchor) == Some(trim(hex_text(blake3_hash(prev_bytes)))),
    ensures
        linked(cur, prev_bytes) is Ok,
{
    let h = blake3_hash(prev_bytes);
    lemma_hex_chars(h);
    let s = hex_text(h);
    if s.len() > 0 {
        assert(!is_white(s[0]));
        assert(!is_white(s.last()));
    }
    assert(trim(s) =~= s);
}

/// An anchor chains to another exactly where both are signed anchors within
/// the size cap and the one's signed link is the BLAKE3 of the other's exact
/// bytes.
pub proof fn link_holds_exactly(cur: AnchorDoc, prev: AnchorDoc)
    ensures
        link_result(cur, prev) is Ok <==> {
            &&& cur.bytes@.len() <= MAX_ANCHOR_BYTES
            &&& prev.bytes@.len() <= MAX_ANCHOR_BYTES
            &&& anchor_fault(cur) is None
            &&& anchor_fault(prev) is None
            &&& text_opt(cur.payload->Ok_0.prev_anchor) == Some(
                hex_text(blake3_hash(prev.bytes@)),
            )
        },
{
}

/// Whether a file is an anchor as it is made: within the size cap, its
/// signature standing, over a statement whose link is what the marker of the
/// last anchor said.
pub open spec fn made_after(marker: Option<Seq<char>>, doc: AnchorDoc) -> bool {
    &&& doc.bytes@.len() <= MAX_ANCHOR_BYTES
    &&& doc.file is Ok
    &&& signature_stands(doc.file->Ok_0)
    &&& doc.payload is Ok
    &&& doc.payload->Ok_0.kind@ == "respawn-anchor"@
    &&& doc.payload->Ok_0.version == ANCHOR_VERSION
    &&& text_opt(doc.payload->Ok_0.prev_anchor) == match marker {
        Some(t) => Some(trim(t)),
        None => None,
    }
}

/// Of two anchors made in turn the later chains to the earlier. The earlier
/// chains to the later only where the marker from before it, `marker`, names
/// the later file already: never where there was no anchor before, and where
/// the marker names a file `before`, only if that is the later one over again
/// or collides with it under BLAKE3.
pub proof fn anchors_chain_backwards_only(
    marker: Option<Seq<char>>,
    before: Seq<u8>,
    first: AnchorDoc,
    second: AnchorDoc,
)
    requires
        made_after(marker, first),
        made_after(Some(hex_text(blake3_hash(first.bytes@))), second),
    ensures
        link_result(second, first) is Ok,
        link_result(first, second) is Ok <==> marker is Some && trim(marker->Some_0) == hex_text(
            blake3_hash(second.bytes@),
        ),
        marker is None ==> link_result(first, second) is Err,
        marker == Some(hex_text(blake3_hash(before))) ==> link_result(first, second) is Err
            || before == second.bytes@ || collide(before, second.bytes@),
{
    next_anchor_chains(second.payload->Ok_0, first.bytes@);
    if marker == Some(hex_text(blake3_hash(before))) && link_result(first, second) is Ok {
        next_anchor_chains(first.payload->Ok_0, before);
        link_fixes_the_predecessor(first.payload->Ok_0, before, second.bytes@);
    }
}

/// A created anchor verifies: one that a key signed over a statement about a
/// chained log passes against the fabric it is about, with that key pinned or
/// none, for as long as the log begins with what was anchored and HEAD is
/// readable.
pub proof fn created_anchor_verifies(
    doc: AnchorDoc,
    seed: Seq<u8>,
    pinned: Option<&str>,
    id: String,
    log: Vec<LogLine>,
    head: Option<&str>,
    recorded: Seq<EntryView>,
    r: Result<VerifyOutcome>,
)
    requires
        read_fault(doc) is None,
        signed_by(doc.file->Ok_0, seed, doc.file->Ok_0.payload@),
        pinned is Some ==> pinned->Some_0@ == hex_text(ed25519_public(seed)),
        doc.payload->Ok_0.fabric_id@ == id@,
        doc.payload->Ok_0.audit_len == recorded.len(),
        doc.payload->Ok_0.audit_tip@ == chain_tip(recorded),
        chained(recorded),
        recorded.is_prefix_of(entries(log_view(log@))),
        forall|j: int| 0 <= j < log@.len() ==> well_read(#[trigger] log_view(log@)[j]),
        head_of_text(head) is Ok,
        verified(
            doc,
            pinned,
            std::result::Result::<String, Error>::Ok(id),
            Some(log),
            head,
            r,
        ),
    ensures
        r is Ok,
{
    let p = doc.payload->Ok_0;
    let t = choose|t: Result<()>| #[trigger]
        prefix_result(Some(log), p.audit_len, p.audit_tip@, t) && match t {
            Err(e) => r is Err && r->Err_0@ == e@,
            Ok(_) => match head_of_text(head) {
                Err(m) => r is Err && r->Err_0@ == ErrorView::BadHash(m),
                Ok(h) => r is Ok && outcome_of(doc, h, r->Ok_0),
            },
        };
    fresh_anchor_covers_its_log(recorded, log, p.audit_len, t);
}

/// What an anchor that passes has proved: its file is within four MiB; its
/// signature over the payload verifies under the key it names; the payload is
/// an anchor's, version 1; the key is the pinned one, where one is pinned,
/// whatever the case of its digits; it is about this fabric; and the log still
/// holds what it covers. The report says what the anchor says.
pub proof fn passed_anchor_has_proved(
    doc: AnchorDoc,
    pinned: Option<&str>,
    id: Result<String>,
    log: Option<Vec<LogLine>>,
    head: Option<&str>,
    r: Result<VerifyOutcome>,
)
    requires
        verified(doc, pinned, id, log, head, r),
        r is Ok,
    ensures
        doc.bytes@.len() <= 4_194_304,
        doc.file is Ok,
        doc.payload is Ok,
        ({
            let f = doc.file->Ok_0;
            let p = doc.payload->Ok_0;
            let v = r->Ok_0;
            &&& f.format@ == "respawn-anchor/v1"@
            &&& is_hex(encode_utf8(f.pubkey@)) && encode_utf8(f.pubkey@).len() == 64
            &&& is_hex(encode_utf8(f.sig@)) && encode_utf8(f.sig@).len() == 128
            &&& ed25519_is_key(unhex(encode_utf8(f.pubkey@)))
            &&& ed25519_verifies(
                unhex(encode_utf8(f.pubkey@)),
                encode_utf8(f.payload@),
                unhex(encode_utf8(f.sig@)),
            )
            &&& p.kind@ == "respawn-anchor"@
            &&& p.version == 1
            &&& pinned is Some ==> lowered(pinned->Some_0@) == lowered(f.pubkey@)
            &&& id is Ok && p.fabric_id@ == id->Ok_0@
            &&& prefix_result(log, p.audit_len, p.audit_tip@, Ok(()))
            &&& head_of_text(head) is Ok
            &&& v.signer_pubkey@ == f.pubkey@
            &&& v.audit_len == p.audit_len
            &&& v.anchored_head is Some == p.head is Some
            &&& v.anchored_head is Some ==> v.anchored_head->Some_0@ == p.head->Some_0@
            &&& v.current_head is Some ==> head_of_text(head)->Ok_0 is Some
                && v.current_head->Some_0@ == hex_text(head_of_text(head)->Ok_0->Some_0)
            &&& v.current_head is None ==> head_of_text(head)->Ok_0 is None
            &&& v.file_hash@ == hex_text(blake3_hash(doc.bytes@))
            &&& v.prev_anchor is Some == p.prev_anchor is Some
            &&& v.prev_anchor is Some ==> v.prev_anchor->Some_0@ == p.prev_anchor->Some_0@
        }),
{
    let p = doc.payload->Ok_0;
    let t = choose|t: Result<()>| #[trigger]
        prefix_result(log, p.audit_len, p.audit_tip@, t) && match t {
            Err(e) => r is Err && r->Err_0@ == e@,
            Ok(_) => match head_of_text(head) {
                Err(m) => r is Err && r->Err_0@ == ErrorView::BadHash(m),
                Ok(h) => r is Ok && outcome_of(doc, h, r->Ok_0),
            },
        };
    let h = head_of_text(head)->Ok_0;
    assert(t is Ok);
    assert(t->Ok_0 == ());
    assert(t == std::result::Result::<(), Error>::Ok(()));
}

/// An anchor is refused where its signer is not the pinned one, and where it is
/// about another fabric, whatever else it says.
pub proof fn foreign_anchor_is_refused(
    doc: AnchorDoc,
    pinned: Option<&str>,
    id: String,
    log: Option<Vec<LogLine>>,
    head: Option<&str>,
    r: Result<VerifyOutcome>,
)
    requires
        verified(doc, pinned, Ok(id), log, head, r),
        doc.file is Ok && doc.payload is Ok,
        (pinned is Some && lowered(pinned->Some_0@) != lowered(doc.file->Ok_0.pubkey@))
            || doc.payload->Ok_0.fabric_id@ != id@,
    ensures
        r is Err,
{
}

/// An anchor whose file is sound passes exactly where its signer, its fabric,
/// the log and HEAD do: nothing else can fail it.
pub proof fn sound_anchor_fails_for_a_reason(
    doc: AnchorDoc,
    pinned: Option<&str>,
    id: String,
    log: Option<Vec<LogLine>>,
    head: Option<&str>,
    r: Result<VerifyOutcome>,
)
    requires
        verified(doc, pinned, Ok(id), log, head, r),
        doc.bytes@.len() <= 4_194_304,
        doc.file is Ok && doc.payload is Ok,
        signature_stands(doc.file->Ok_0),
        doc.payload->Ok_0.kind@ == "respawn-anchor"@,
        doc.payload->Ok_0.version == 1,
        pinned is Some ==> lowered(pinned->Some_0@) == lowered(doc.file->Ok_0.pubkey@),
        doc.payload->Ok_0.fabric_id@ == id@,
        head_of_text(head) is Ok,
        r is Err,
    ensures
        exists|t: Result<()>|
            t is Err && #[trigger] prefix_result(
                log,
                doc.payload->Ok_0.audit_len,
                doc.payload->Ok_0.audit_tip@,
                t,
            ),
{
    let p = doc.payload->Ok_0;
    let t = choose|t: Result<()>| #[trigger]
        prefix_result(log, p.audit_len, p.audit_tip@, t) && match t {
            Err(e) => r is Err && r->Err_0@ == e@,
            Ok(_) => match head_of_text(head) {
                Err(m) => r is Err && r->Err_0@ == ErrorView::BadHash(m),
                Ok(h) => r is Ok && outcome_of(doc, h, r->Ok_0),
            },
        };
    assert(t is Err);
}

/// When a signature stands: the format is the known one, key and signature are
/// 32 and 64 bytes in hexadecimal, and the signature verifies.
pub proof fn signature_stands_exactly(f: AnchorFile)
    ensures
        signature_stands(f) <==> {
            &&& f.format@ == "respawn-anchor/v1"@
            &&& is_hex(encode_utf8(f.pubkey@)) && encode_utf8(f.pubkey@).len() == 64
            &&& is_hex(encode_utf8(f.sig@)) && encode_utf8(f.sig@).len() == 128
            &&& ed25519_is_key(unhex(encode_utf8(f.pubkey@)))
            &&& ed25519_verifies(
                unhex(encode_utf8(f.pubkey@)),
                encode_utf8(f.payload@),
                unhex(encode_utf8(f.sig@)),
            )
        },
{
}

proof fn lemma_led_plain(at: Seq<Seq<char>>, rest: Seq<Seq<char>>)
    requires
        forall|i: int| 0 <= i < rest.len() ==> (#[trigger] rest[i]) != "."@ && rest[i] != ".."@,
    ensures
        led(at, rest) == at + rest,
    decreases rest.len(),
{
    if rest.len() == 0 {
        assert(at + rest =~= at);
    } else {
        let fewer = rest.drop_last();
        assert forall|i: int| 0 <= i < fewer.len() implies (#[trigger] fewer[i]) != "."@ && fewer[i]
            != ".."@ by {
            assert(rest[i] != "."@ && rest[i] != ".."@);
        }
        lemma_led_plain(at, fewer);
        assert(rest[rest.len() - 1] != "."@ && rest[rest.len() - 1] != ".."@);
        assert((at + fewer).push(rest.last()) =~= at + rest);
    }
}

/// An anchor inside the fabric is refused, however deep, and one outside is
/// not: a path of plain names leads under a directory exactly where the names
/// of the directory are the first of its own. A step `.` stays, and a step `..`
/// takes back the step before it.
pub proof fn places_are_compared_by_names(
    base: Seq<char>,
    dir: Seq<char>,
    rest: Seq<char>,
    at: Seq<Seq<char>>,
    name: Seq<char>,
)
    ensures
        (forall|i: int|
            0 <= i < names_of(rest).len() ==> (#[trigger] names_of(rest)[i]) != "."@ && names_of(
                rest,
            )[i] != ".."@) ==> (leads_under(base, rest, dir) <==> (base.len() > 0 && base[0] == '/')
            == (dir.len() > 0 && dir[0] == '/') && names_of(dir).is_prefix_of(
            names_of(base) + names_of(rest),
        )),
        led(at, seq!["."@]) == at,
        name != "."@ && name != ".."@ ==> led(at, seq![name, ".."@]) == at,
        led(Seq::empty(), seq![".."@]) == Seq::<Seq<char>>::empty(),
        lies_under(base, dir) <==> (base.len() > 0 && base[0] == '/') == (dir.len() > 0 && dir[0]
            == '/') && names_of(dir).is_prefix_of(names_of(base)),
{
    reveal_strlit(".");
    reveal_strlit("..");
    assert("."@.len() == 1 && ".."@.len() == 2);
    if forall|i: int|
        0 <= i < names_of(rest).len() ==> (#[trigger] names_of(rest)[i]) != "."@ && names_of(
            rest,
        )[i] != ".."@ {
        lemma_led_plain(names_of(base), names_of(rest));
    }
    let none = Seq::<Seq<char>>::empty();
    assert(seq!["."@].drop_last() =~= none);
    assert(seq![".."@].drop_last() =~= none);
    assert(led(at, none) == at);
    assert(led(none, none) == none);
    assert(led(none, seq![".."@]) == none);
    if name != "."@ && name != ".."@ {
        assert(seq![name, ".."@].drop_last() =~= seq![name]);
        assert(seq![name].drop_last() =~= none);
        assert(led(at, seq![name]) == at.push(name));
        assert(at.push(name).drop_last() =~= at);
    }
}

/// The names of anchors in one directory differ, and a later millisecond never
/// takes an earlier one's name.
pub proof fn anchor_names_differ(m: nat, n: nat, k: nat, l: nat)
    requires
        anchor_name_text(m, k) == anchor_name_text(n, l),
    ensures
        m == n && k == l,
        anchor_name_text(m, 0) == "anchor-"@ + dec(m) + ".json"@,
        k > 0 ==> anchor_name_text(m, k) == "anchor-"@ + dec(m) + "-"@ + dec(k) + ".json"@,
{
    lemma_anchor_name(m, k);
    lemma_anchor_name(n, l);
    let s = anchor_name_text(m, k);
    let t = s.subrange(7, s.len() - 5);
    reveal_strlit("-");
    lemma_dec_digits(m);
    lemma_dec_digits(n);
    lemma_dec_digits(k);
    lemma_dec_digits(l);
    let a = dec(m);
    let b = dec(n);
    assert('-' as u32 == 45);
    if k == 0 && l == 0 {
        assert(t == a && t == b);
        lemma_dec_injective(m, n);
    } else if k == 0 {
        // A hyphen in the one and not in the other.
        assert(t[b.len() as int] == '-');
        assert(is_digit(a[b.len() as int]));
    } else if l == 0 {
        assert(t[a.len() as int] == '-');
        assert(is_digit(b[a.len() as int]));
    } else {
        assert(a.len() == b.len()) by {
            if a.len() < b.len() {
                assert(t[a.len() as int] == '-');
                assert(is_digit(b[a.len() as int]));
            }
            if b.len() < a.len() {
                assert(t[b.len() as int] == '-');
                assert(is_digit(a[b.len() as int]));
            }
        }
        assert(a =~= t.take(a.len() as int));
        assert(b =~= t.take(b.len() as int));
        assert(dec(k) =~= t.skip((a.len() + 1) as int));
        assert(dec(l) =~= t.skip((b.len() + 1) as int));
        lemma_dec_injective(m, n);
        lemma_dec_injective(k, l);
    }
}

proof fn lemma_anchor_name(m: nat, k: nat)
    ensures
        ({
            let s = anchor_name_text(m, k);
            let t = s.subrange(7, s.len() - 5);
            &&& s.len() >= 12
            &&& "anchor-"@.is_prefix_of(s)
            &&& ".json"@.is_suffix_of(s)
            &&& k == 0 ==> t == dec(m)
            &&& k > 0 ==> t == dec(m) + seq!['-'] + dec(k)
        }),
{
    reveal_strlit("anchor-");
    reveal_strlit(".json");
    reveal_strlit("-");
    lemma_dec_digits(m);
    let s = anchor_name_text(m, k);
    assert("-"@ =~= seq!['-']);
    assert("anchor-"@ =~= s.subrange(0, 7));
    assert(".json"@ =~= s.subrange(s.len() - 5, s.len() as int));
    if k == 0 {
        assert(s.subrange(7, s.len() - 5) =~= dec(m));
    } else {
        assert(s.subrange(7, s.len() - 5) =~= dec(m) + seq!['-'] + dec(k));
    }
}

/// Which anchor files stand on their own: those within four MiB that parse, are
/// signed, and hold an anchor's statement of version 1; with a key pinned,
/// those of that key.
pub proof fn anchor_files_stand_exactly(doc: AnchorDoc, pinned: Option<&str>)
    ensures
        anchor_fault(doc) is None <==> doc.file is Ok && signature_stands(doc.file->Ok_0)
            && doc.payload is Ok && doc.payload->Ok_0.kind@ == "respawn-anchor"@
            && doc.payload->Ok_0.version == 1,
        read_fault(doc) is None <==> doc.bytes@.len() <= 4_194_304 && anchor_fault(doc) is None,
        signer_fault(doc, pinned) is None <==> read_fault(doc) is None && (pinned is Some ==> lowered(
            pinned->Some_0@,
        ) == lowered(doc.file->Ok_0.pubkey@)),
{
}

/// A signed file names its signer's key and carries the signature of its
/// payload under that key.
pub proof fn signed_files_name_their_signer(f: AnchorFile, seed: Seq<u8>, payload: Seq<char>)
    requires
        signed_by(f, seed, payload),
    ensures
        f.format@ == "respawn-anchor/v1"@,
        f.pubkey@ == hex_text(ed25519_public(seed)),
        f.payload@ == payload,
        f.sig@ == hex_text(ed25519_signature(seed, encode_utf8(payload))),
{
}

} // verus!
