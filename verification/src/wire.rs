//! Little-endian numbers and the frames of the sync protocol.
//!
//! Wire protocol (TCP, little-endian):
//!   frame = u32 len + payload
//!   payload\[0\] = opcode
//!     0x01 GET_HEAD      gives \[has:u8\]\[hash:32\]
//!     0x02 GET_MANIFEST  + hash gives u64 len + bytes (0 = missing)
//!     0x03 HAVE          + u32 n + n hashes gives n bytes (0/1)
//!     0x04 GET_OBJECT    + hash gives u64 len + bytes (0 = missing)

use vstd::prelude::*;
use vstd::string::*;
use crate::cdc::concat;
use crate::cdc::pieces_follow_each_other;
use crate::digest::array32;
use crate::error::Error;
use crate::error::ErrorView;
use crate::error::Result;
use crate::snapshot::hashes;
use crate::text::bytes_eq;
use crate::text::chars_of;
use crate::text::dec;
use crate::text::push_dec;
use crate::text::text_eq;

verus! {

pub const DEFAULT_PORT: u16 = 4789;

pub const BEACON_PORT: u16 = 47810;

pub const OP_GET_HEAD: u8 = 1;

pub const OP_GET_MANIFEST: u8 = 2;

pub const OP_HAVE: u8 = 3;

pub const OP_GET_OBJECT: u8 = 4;

/// The longest payload of a frame.
pub const MAX_FRAME: usize = 67108864;

/// How many connections are served at a time: each costs a thread, so
/// an unbounded accept loop would be a one-line DoS.
pub const MAX_CONNECTIONS: usize = 64;

/// The `k` lowest bytes of `n`, the lowest first.
pub open spec fn le_bytes(n: nat, k: nat) -> Seq<u8>
    decreases k,
{
    if k == 0 {
        Seq::empty()
    } else {
        seq![(n % 256) as u8] + le_bytes(n / 256, (k - 1) as nat)
    }
}

/// The number that bytes stand for, the lowest first.
pub open spec fn le_value(b: Seq<u8>) -> nat
    decreases b.len(),
{
    if b.len() == 0 {
        0
    } else {
        b[0] as nat + 256 * le_value(b.drop_first())
    }
}

/// 256 to the power `k`.
pub open spec fn radix(k: nat) -> nat
    decreases k,
{
    if k == 0 {
        1
    } else {
        256 * radix((k - 1) as nat)
    }
}

proof fn lemma_le_len(n: nat, k: nat)
    ensures
        le_bytes(n, k).len() == k,
    decreases k,
{
    if k > 0 {
        lemma_le_len(n / 256, (k - 1) as nat);
    }
}

/// A number that fits is given back by its bytes.
pub proof fn le_round_trip(n: nat, k: nat)
    requires
        n < radix(k),
    ensures
        le_bytes(n, k).len() == k,
        le_value(le_bytes(n, k)) == n,
    decreases k,
{
    if k > 0 {
        let r = radix((k - 1) as nat);
        assert(n / 256 < r) by (nonlinear_arith)
            requires
                n < 256 * r,
        ;
        le_round_trip(n / 256, (k - 1) as nat);
        assert(le_bytes(n, k).drop_first() =~= le_bytes(n / 256, (k - 1) as nat));
    }
}

/// The radices of the two widths in use.
pub proof fn lemma_radix()
    ensures
        radix(2) == 0x1_0000,
        radix(4) == 0x1_0000_0000,
        radix(8) == 0x1_0000_0000_0000_0000,
{
    reveal_with_fuel(radix, 9);
}

proof fn lemma_le_value_bound(b: Seq<u8>)
    ensures
        le_value(b) < radix(b.len()),
    decreases b.len(),
{
    if b.len() > 0 {
        lemma_le_value_bound(b.drop_first());
    }
}

/// Appends the `k` lowest bytes of `n`.
pub fn push_le(out: &mut Vec<u8>, n: u64, k: usize)
    ensures
        final(out)@ == old(out)@ + le_bytes(n as nat, k as nat),
{
    let ghost before = out@;
    let mut rest: u64 = n;
    let mut i: usize = k;
    assert(out@ + le_bytes(n as nat, k as nat) =~= before + le_bytes(n as nat, k as nat));
    while i > 0
        invariant
            i <= k,
            out@ + le_bytes(rest as nat, i as nat) == before + le_bytes(n as nat, k as nat),
        decreases i,
    {
        let ghost had = out@;
        let low: u8 = (rest % 256) as u8;
        out.push(low);
        assert(out@ + le_bytes((rest / 256) as nat, (i - 1) as nat) =~= had + le_bytes(
            rest as nat,
            i as nat,
        ));
        rest = rest / 256;
        i = i - 1;
    }
    assert(out@ + le_bytes(rest as nat, 0) =~= out@);
}

/// The number that the bytes `b` stand for; at most eight of them.
pub fn read_le(b: &[u8]) -> (r: u64)
    requires
        b@.len() <= 8,
    ensures
        r == le_value(b@),
{
    proof {
        lemma_radix();
        reveal_with_fuel(radix, 9);
    }
    let mut i: usize = b.len();
    let mut n: u64 = 0;
    assert(b@.skip(i as int) =~= Seq::empty());
    while i > 0
        invariant
            i <= b@.len() <= 8,
            n == le_value(b@.skip(i as int)),
        decreases i,
    {
        proof {
            lemma_le_value_bound(b@.skip(i as int));
            lemma_radix_bound((b@.len() - i) as nat);
            assert(b@.skip(i - 1).drop_first() =~= b@.skip(i as int));
            assert(b@.skip(i - 1)[0] == b@[i - 1]);
        }
        i = i - 1;
        n = 256 * n + b[i] as u64;
    }
    assert(b@.skip(0) =~= b@);
    n
}

proof fn lemma_radix_bound(k: nat)
    requires
        k <= 7,
    ensures
        radix(k) <= 0x100_0000_0000_0000,
{
    reveal_with_fuel(radix, 8);
    assert(k == 0 || k == 1 || k == 2 || k == 3 || k == 4 || k == 5 || k == 6 || k == 7);
}

/// A sync error with the given message.
pub fn sync_error(m: &str) -> (r: Error)
    ensures
        r@ == ErrorView::Sync(m@),
{
    Error::Sync(m.to_owned())
}

/// A frame: its payload behind the payload's length.
pub fn write_frame(payload: &[u8]) -> (r: Vec<u8>)
    ensures
        r@ == le_bytes(payload@.len() as u32 as nat, 4) + payload@,
{
    let n: usize = payload.len();
    let mut out: Vec<u8> = Vec::new();
    push_le(&mut out, (n as u32) as u64, 4);
    assert(out@ =~= le_bytes(n as u32 as nat, 4));
    out.extend_from_slice(payload);
    assert(out@ =~= le_bytes(n as u32 as nat, 4) + payload@);
    out
}

/// The length that the four bytes in front of a payload announce; an error
/// where it is longer than a frame may be.
pub fn frame_len(header: &[u8]) -> (r: Result<usize>)
    requires
        header@.len() == 4,
    ensures
        if le_value(header@) > MAX_FRAME {
            r is Err && r->Err_0@ == ErrorView::Sync("frame too large"@)
        } else {
            r is Ok && r->Ok_0 == le_value(header@)
        },
{
    let n: u64 = read_le(header);
    if n > MAX_FRAME as u64 {
        return Err(sync_error("frame too large"));
    }
    Ok(n as usize)
}

/// What is written as a frame is announced with its length.
pub proof fn frame_announces_its_length(payload: Seq<u8>)
    requires
        payload.len() <= MAX_FRAME,
    ensures
        le_value((le_bytes(payload.len() as u32 as nat, 4) + payload).take(4)) == payload.len(),
        (le_bytes(payload.len() as u32 as nat, 4) + payload).skip(4) == payload,
{
    let n = payload.len() as u32 as nat;
    lemma_radix();
    le_round_trip(n, 4);
    let f = le_bytes(n, 4) + payload;
    assert(f.take(4) =~= le_bytes(n, 4));
    assert(f.skip(4) =~= payload);
}

/// The number in front of a reply.
pub fn read_u64(frame: &[u8]) -> (r: Result<u64>)
    ensures
        if frame@.len() < 8 {
            r is Err && r->Err_0@ == ErrorView::Sync("short frame"@)
        } else {
            r is Ok && r->Ok_0 == le_value(frame@.take(8))
        },
{
    if frame.len() < 8 {
        return Err(sync_error("short frame"));
    }
    let head = vstd::slice::slice_subrange(frame, 0, 8);
    assert(frame@.subrange(0, 8) =~= frame@.take(8));
    Ok(read_le(head))
}

/// What a reply carries behind its length, or why it carries nothing.
pub open spec fn payload_of(frame: Seq<u8>) -> std::result::Result<Seq<u8>, Seq<char>> {
    if frame.len() < 8 {
        Err("short frame"@)
    } else {
        let n = le_value(frame.take(8));
        if n > frame.len() - 8 {
            Err("truncated frame payload"@)
        } else {
            Ok(frame.subrange(8, 8 + n as int))
        }
    }
}

/// What a reply carries behind its length.
pub fn frame_payload(frame: &[u8]) -> (r: Result<&[u8]>)
    ensures
        match payload_of(frame@) {
            Ok(p) => r is Ok && r->Ok_0@ == p,
            Err(m) => r is Err && r->Err_0@ == ErrorView::Sync(m),
        },
{
    let n: u64 = match read_u64(frame) {
        Ok(n) => n,
        Err(e) => {
            return Err(e);
        },
    };
    let size: usize = frame.len();
    if n > (size - 8) as u64 {
        return Err(sync_error("truncated frame payload"));
    }
    Ok(vstd::slice::slice_subrange(frame, 8, 8 + n as usize))
}

/// A reply that carries bytes: their number and they themselves.
pub open spec fn blob_text(data: Seq<u8>) -> Seq<u8> {
    le_bytes(data.len(), 8) + data
}

/// A reply that carries bytes; none stands for "missing".
pub fn blob_reply(data: &[u8]) -> (r: Vec<u8>)
    ensures
        r@ == blob_text(data@),
{
    let mut out: Vec<u8> = Vec::new();
    push_le(&mut out, data.len() as u64, 8);
    assert(out@ =~= le_bytes(data@.len(), 8));
    out.extend_from_slice(data);
    assert(out@ =~= blob_text(data@));
    out
}

/// What a reply carries can be read from it.
pub proof fn blob_round_trip(data: Seq<u8>)
    requires
        data.len() <= u64::MAX,
    ensures
        payload_of(blob_text(data)) == std::result::Result::<Seq<u8>, Seq<char>>::Ok(data),
{
    lemma_radix();
    le_round_trip(data.len(), 8);
    let f = blob_text(data);
    assert(f.take(8) =~= le_bytes(data.len(), 8));
    assert(f.subrange(8, 8 + data.len() as int) =~= data);
}

/// A request to a peer.
#[derive(Debug)]
pub enum Request {
    GetHead,
    GetManifest(crate::Hash),
    Have(Vec<crate::Hash>),
    GetObject(crate::Hash),
}

/// A request with its hashes as bytes.
pub enum RequestView {
    GetHead,
    GetManifest(Seq<u8>),
    Have(Seq<Seq<u8>>),
    GetObject(Seq<u8>),
}

impl View for Request {
    type V = RequestView;

    open spec fn view(&self) -> RequestView {
        match self {
            Request::GetHead => RequestView::GetHead,
            Request::GetManifest(h) => RequestView::GetManifest(h@),
            Request::Have(hs) => RequestView::Have(hashes(hs@)),
            Request::GetObject(h) => RequestView::GetObject(h@),
        }
    }
}

/// The payload of a request.
pub open spec fn request_text(r: RequestView) -> Seq<u8> {
    match r {
        RequestView::GetHead => seq![OP_GET_HEAD],
        RequestView::GetManifest(h) => seq![OP_GET_MANIFEST] + h,
        RequestView::Have(hs) => seq![OP_HAVE] + le_bytes(hs.len(), 4) + concat(hs),
        RequestView::GetObject(h) => seq![OP_GET_OBJECT] + h,
    }
}

/// The `n` hashes that stand in `b` one behind the other.
pub open spec fn hashes_in(b: Seq<u8>, n: nat) -> Seq<Seq<u8>> {
    Seq::new(n, |i: int| b.subrange(32 * i, 32 * i + 32))
}

/// What a payload asks for, or why it asks for nothing.
pub open spec fn request_of(frame: Seq<u8>) -> std::result::Result<RequestView, Seq<char>> {
    if frame.len() > 0 && frame[0] == OP_GET_HEAD {
        Ok(RequestView::GetHead)
    } else if frame.len() == 33 && frame[0] == OP_GET_MANIFEST {
        Ok(RequestView::GetManifest(frame.skip(1)))
    } else if frame.len() >= 5 && frame[0] == OP_HAVE {
        let n = le_value(frame.subrange(1, 5));
        if frame.len() != 5 + 32 * n {
            Err("malformed HAVE"@)
        } else {
            Ok(RequestView::Have(hashes_in(frame.skip(5), n)))
        }
    } else if frame.len() == 33 && frame[0] == OP_GET_OBJECT {
        Ok(RequestView::GetObject(frame.skip(1)))
    } else {
        Err("unknown opcode"@)
    }
}

/// The hash that stands at position `at`.
fn hash_at(frame: &[u8], at: usize) -> (r: crate::Hash)
    requires
        at + 32 <= frame@.len() <= usize::MAX,
    ensures
        r@ == frame@.subrange(at as int, at + 32),
{
    array32(vstd::slice::slice_subrange(frame, at, at + 32))
}

/// Reads a request. Whatever bytes a peer sends, the result is a request or
/// an error.
pub fn parse_request(frame: &[u8]) -> (r: Result<Request>)
    ensures
        match request_of(frame@) {
            Ok(q) => r is Ok && r->Ok_0@ == q,
            Err(m) => r is Err && r->Err_0@ == ErrorView::Sync(m),
        },
{
    let size: usize = frame.len();
    if size == 0 {
        return Err(sync_error("unknown opcode"));
    }
    let op: u8 = frame[0];
    if op == OP_GET_HEAD {
        return Ok(Request::GetHead);
    }
    if size == 33 && (op == OP_GET_MANIFEST || op == OP_GET_OBJECT) {
        let h = hash_at(frame, 1);
        assert(h@ =~= frame@.skip(1));
        return if op == OP_GET_MANIFEST {
            Ok(Request::GetManifest(h))
        } else {
            Ok(Request::GetObject(h))
        };
    }
    if op != OP_HAVE || size < 5 {
        return Err(sync_error("unknown opcode"));
    }
    let n: u64 = read_le(vstd::slice::slice_subrange(frame, 1, 5));
    proof {
        lemma_le_value_bound(frame@.subrange(1, 5));
        lemma_radix();
    }
    if (size - 5) as u64 != 32 * n {
        return Err(sync_error("malformed HAVE"));
    }
    let mut hs: Vec<crate::Hash> = Vec::new();
    let ghost body = frame@.skip(5);
    let mut i: usize = 0;
    assert(hashes(hs@) =~= hashes_in(body, 0));
    while i < n as usize
        invariant
            i <= n,
            frame@.len() == size,
            size == 5 + 32 * n,
            body == frame@.skip(5),
            hashes(hs@) == hashes_in(body, i as nat),
        decreases n - i,
    {
        let ghost before = hashes(hs@);
        let h = hash_at(frame, 5 + 32 * i);
        hs.push(h);
        proof {
            assert(h@ =~= body.subrange(32 * i, 32 * i + 32));
            assert(hashes(hs@) =~= before.push(h@));
            assert(hashes_in(body, (i + 1) as nat) =~= before.push(h@));
        }
        i = i + 1;
    }
    Ok(Request::Have(hs))
}

/// The payload of a request for hashes.
pub fn have_request(hs: &[crate::Hash]) -> (r: Vec<u8>)
    requires
        hs@.len() <= u32::MAX,
    ensures
        r@ == request_text(RequestView::Have(hashes(hs@))),
{
    let mut out: Vec<u8> = Vec::new();
    out.push(OP_HAVE);
    push_le(&mut out, hs.len() as u64, 4);
    let ghost head = seq![OP_HAVE] + le_bytes(hs@.len(), 4);
    let ghost all = hashes(hs@);
    assert(out@ =~= head);
    let mut i: usize = 0;
    assert(all.take(0) =~= Seq::empty());
    assert(head + concat(all.take(0)) =~= head);
    while i < hs.len()
        invariant
            i <= hs@.len(),
            all == hashes(hs@),
            out@ == head + concat(all.take(i as int)),
        decreases hs@.len() - i,
    {
        proof {
            assert(all.take(i + 1).drop_last() =~= all.take(i as int));
            assert(all.take(i + 1).last() == hs@[i as int]@);
        }
        let h = hs[i];
        out.extend_from_slice(h.as_slice());
        i = i + 1;
        assert(out@ =~= head + concat(all.take(i as int)));
    }
    assert(all.take(i as int) =~= all);
    out
}

/// The payload of a request for what has the hash `h`.
fn hash_request(op: u8, h: &crate::Hash) -> (r: Vec<u8>)
    ensures
        r@ == seq![op] + h@,
{
    let mut out: Vec<u8> = Vec::new();
    out.push(op);
    out.extend_from_slice(h.as_slice());
    assert(out@ =~= seq![op] + h@);
    out
}

/// The payload that asks for HEAD.
pub fn head_request() -> (r: Vec<u8>)
    ensures
        r@ == request_text(RequestView::GetHead),
{
    let mut out: Vec<u8> = Vec::new();
    out.push(OP_GET_HEAD);
    assert(out@ =~= seq![OP_GET_HEAD]);
    out
}

/// The payload that asks for a manifest.
pub fn manifest_request(h: &crate::Hash) -> (r: Vec<u8>)
    ensures
        r@ == request_text(RequestView::GetManifest(h@)),
{
    hash_request(OP_GET_MANIFEST, h)
}

/// The payload that asks for an object.
pub fn object_request(h: &crate::Hash) -> (r: Vec<u8>)
    ensures
        r@ == request_text(RequestView::GetObject(h@)),
{
    hash_request(OP_GET_OBJECT, h)
}

/// The reply to GET_HEAD.
pub open spec fn head_text(h: Option<Seq<u8>>) -> Seq<u8> {
    match h {
        None => seq![0u8],
        Some(h) => seq![1u8] + h,
    }
}

/// The reply to GET_HEAD.
pub fn head_reply(head: Option<&crate::Hash>) -> (r: Vec<u8>)
    ensures
        r@ == head_text(
            match head {
                Some(h) => Some(h@),
                None => None,
            },
        ),
{
    let mut out: Vec<u8> = Vec::new();
    match head {
        None => {
            out.push(0);
            assert(out@ =~= seq![0u8]);
        },
        Some(h) => {
            out.push(1);
            out.extend_from_slice(h.as_slice());
            assert(out@ =~= seq![1u8] + h@);
        },
    }
    out
}

/// What a reply to GET_HEAD says: a hash, that there is no HEAD, or neither.
pub open spec fn head_in(resp: Seq<u8>) -> Option<Option<Seq<u8>>> {
    if resp.len() == 33 && resp[0] == 1 {
        Some(Some(resp.skip(1)))
    } else if resp.len() > 0 && resp[0] == 0 {
        Some(None)
    } else {
        None
    }
}

/// The reply to HAVE: a one for each hash that is there, a zero for the rest.
pub open spec fn have_text(flags: Seq<bool>) -> Seq<u8> {
    flags.map_values(
        |b: bool|
            if b {
                1u8
            } else {
                0u8
            },
    )
}

/// The reply to HAVE.
pub fn have_reply(flags: &Vec<bool>) -> (r: Vec<u8>)
    ensures
        r@ == have_text(flags@),
{
    let mut out: Vec<u8> = Vec::new();
    let mut i: usize = 0;
    while i < flags.len()
        invariant
            i <= flags@.len(),
            out@ == have_text(flags@).take(i as int),
        decreases flags@.len() - i,
    {
        out.push(
            if flags[i] {
                1
            } else {
                0
            },
        );
        i = i + 1;
        assert(out@ =~= have_text(flags@).take(i as int));
    }
    assert(out@ =~= have_text(flags@));
    out
}

/// Hashes one behind the other can be told apart by their length.
pub proof fn lemma_concat_hashes(hs: Seq<Seq<u8>>)
    requires
        forall|i: int| 0 <= i < hs.len() ==> (#[trigger] hs[i]).len() == 32,
    ensures
        concat(hs).len() == 32 * hs.len(),
        hashes_in(concat(hs), hs.len()) == hs,
    decreases hs.len(),
{
    if hs.len() > 0 {
        let rest = hs.drop_last();
        lemma_concat_hashes(rest);
        let c = concat(hs);
        assert forall|i: int| 0 <= i < hs.len() implies hashes_in(c, hs.len())[i] == hs[i] by {
            if i < rest.len() {
                assert(hashes_in(concat(rest), rest.len())[i] == rest[i]);
                assert(c.subrange(32 * i, 32 * i + 32) =~= concat(rest).subrange(
                    32 * i,
                    32 * i + 32,
                ));
            } else {
                assert(c.subrange(32 * i, 32 * i + 32) =~= hs[i]);
            }
        }
    }
    assert(hashes_in(concat(hs), hs.len()) =~= hs);
}

/// Every request is understood as what it was meant to ask.
pub proof fn request_round_trip(r: RequestView)
    requires
        match r {
            RequestView::GetHead => true,
            RequestView::GetManifest(h) => h.len() == 32,
            RequestView::Have(hs) => hs.len() <= u32::MAX && forall|i: int|
                0 <= i < hs.len() ==> (#[trigger] hs[i]).len() == 32,
            RequestView::GetObject(h) => h.len() == 32,
        },
    ensures
        request_of(request_text(r)) == std::result::Result::<RequestView, Seq<char>>::Ok(r),
{
    let f = request_text(r);
    match r {
        RequestView::GetHead => {},
        RequestView::GetManifest(h) => {
            assert(f.skip(1) =~= h);
        },
        RequestView::GetObject(h) => {
            assert(f.skip(1) =~= h);
        },
        RequestView::Have(hs) => {
            lemma_radix();
            le_round_trip(hs.len(), 4);
            lemma_concat_hashes(hs);
            assert(f.subrange(1, 5) =~= le_bytes(hs.len(), 4));
            assert(f.skip(5) =~= concat(hs));
        },
    }
}

/// The reply to GET_HEAD says the HEAD.
pub proof fn head_reply_round_trip(h: Option<Seq<u8>>)
    requires
        h is Some ==> h->0.len() == 32,
    ensures
        head_in(head_text(h)) == Some(h),
{
    match h {
        None => {},
        Some(x) => {
            assert(head_text(h).skip(1) =~= x);
        },
    }
}

/// Peer addresses become filenames under `.respawn/remotes/`: only letters,
/// digits, dots and hyphens are kept, everything else becomes an underscore.
pub open spec fn kept_in_name(c: char) -> bool {
    let n = c as u32;
    48 <= n <= 57 || 65 <= n <= 90 || 97 <= n <= 122 || c == '.' || c == '-'
}

/// The file name for a peer address.
pub open spec fn peer_name(addr: Seq<char>) -> Seq<char> {
    addr.map_values(
        |c: char|
            if kept_in_name(c) {
                c
            } else {
                '_'
            },
    )
}

/// Peer addresses become filenames under `.respawn/remotes/`: keep
/// only characters that can never traverse or surprise a filesystem.
pub fn sanitize(addr: &str) -> (r: String)
    ensures
        r@ == peer_name(addr@),
{
    let v = chars_of(addr);
    let mut out: String = String::new();
    let mut i: usize = 0;
    while i < v.len()
        invariant
            i <= v@.len(),
            out@ == peer_name(v@).take(i as int),
        decreases v@.len() - i,
    {
        let c = v[i];
        let n: u32 = c as u32;
        let keep: bool = (48 <= n && n <= 57) || (65 <= n && n <= 90) || (97 <= n && n <= 122) || c
            == '.' || c == '-';
        out.push(
            if keep {
                c
            } else {
                '_'
            },
        );
        i = i + 1;
        assert(out@ =~= peer_name(v@).take(i as int));
    }
    assert(out@ =~= peer_name(v@));
    out
}

/// A peer's file name holds no separator.
pub proof fn peer_name_has_no_separator(addr: Seq<char>)
    ensures
        !peer_name(addr).contains('/'),
        !peer_name(addr).contains('\\'),
{
}

/// The beacon's first bytes: "SFAB1".
pub open spec fn beacon_magic() -> Seq<u8> {
    seq![83u8, 70u8, 65u8, 66u8, 49u8]
}

/// A beacon: the magic, the port, and a one behind them where the listener is
/// secured.
pub open spec fn beacon_text(port: u16, secured: bool) -> Seq<u8> {
    beacon_magic() + le_bytes(port as nat, 2) + if secured {
        seq![1u8]
    } else {
        Seq::<u8>::empty()
    }
}

fn push_magic(out: &mut Vec<u8>)
    ensures
        final(out)@ == old(out)@ + beacon_magic(),
{
    out.push(83);
    out.push(70);
    out.push(65);
    out.push(66);
    out.push(49);
    assert(out@ =~= old(out)@ + beacon_magic());
}

/// The beacon that announces a listener on `port`.
pub fn beacon(port: u16, secured: bool) -> (r: Vec<u8>)
    ensures
        r@ == beacon_text(port, secured),
{
    let mut out: Vec<u8> = Vec::new();
    push_magic(&mut out);
    push_le(&mut out, port as u64, 2);
    if secured {
        out.push(1);
    }
    assert(out@ =~= beacon_text(port, secured));
    out
}

/// What a datagram announces, where it is a beacon.
pub open spec fn beacon_of(b: Seq<u8>) -> Option<(nat, bool)> {
    if (b.len() == 7 || (b.len() == 8 && b[7] == 1)) && b.take(5) == beacon_magic() {
        Some((le_value(b.subrange(5, 7)), b.len() == 8))
    } else {
        None
    }
}

/// Reads a datagram: the port, and whether the listener is secured.
pub fn parse_beacon(b: &[u8]) -> (r: Option<(u16, bool)>)
    ensures
        match beacon_of(b@) {
            Some(p) => r is Some && r->Some_0.0 == p.0 && r->Some_0.1 == p.1,
            None => r is None,
        },
{
    let n: usize = b.len();
    if !(n == 7 || (n == 8 && b[7] == 1)) {
        return None;
    }
    let mut magic: Vec<u8> = Vec::new();
    push_magic(&mut magic);
    assert(magic@ =~= beacon_magic());
    assert(b@.subrange(0, 5) =~= b@.take(5));
    if !bytes_eq(vstd::slice::slice_subrange(b, 0, 5), magic.as_slice()) {
        return None;
    }
    let port: u64 = read_le(vstd::slice::slice_subrange(b, 5, 7));
    proof {
        lemma_le_value_bound(b@.subrange(5, 7));
        lemma_radix();
    }
    Some((port as u16, n == 8))
}

/// A beacon announces what it was made for.
pub proof fn beacon_round_trip(port: u16, secured: bool)
    ensures
        beacon_of(beacon_text(port, secured)) == Some((port as nat, secured)),
{
    lemma_radix();
    le_round_trip(port as nat, 2);
    let b = beacon_text(port, secured);
    assert(b.take(5) =~= beacon_magic());
    assert(b.subrange(5, 7) =~= le_bytes(port as nat, 2));
}

/// Whether one more connection is served when `open` are.
pub fn admits(open: usize) -> (r: bool)
    ensures
        r == (open < MAX_CONNECTIONS),
{
    open < MAX_CONNECTIONS
}

/// A peer found on the LAN.
#[derive(Debug)]
pub struct Peer {
    pub addr: String,
    pub secured: bool,
}

/// Whether a peer is among those found.
pub open spec fn knows(peers: Seq<Peer>, addr: Seq<char>, secured: bool) -> bool {
    exists|i: int|
        0 <= i < peers.len() && (#[trigger] peers[i]).addr@ == addr && peers[i].secured == secured
}

/// Adds the peer that a datagram from `ip` announces; one that is known
/// already, or a datagram that is no beacon, changes nothing.
pub fn note_beacon(peers: &mut Vec<Peer>, ip: &str, datagram: &[u8])
    ensures
        match beacon_of(datagram@) {
            None => final(peers)@ == old(peers)@,
            Some(p) => {
                let addr = ip@ + ":"@ + dec(p.0);
                &&& exists|i: int|
                    0 <= i < final(peers)@.len() && (#[trigger] final(peers)@[i]).addr@ == addr
                        && final(peers)@[i].secured == p.1
                &&& (exists|i: int|
                    0 <= i < old(peers)@.len() && (#[trigger] old(peers)@[i]).addr@ == addr
                        && old(peers)@[i].secured == p.1) <==> final(peers)@.len()
                    == old(peers)@.len()
                &&& if knows(old(peers)@, addr, p.1) {
                    final(peers)@ == old(peers)@
                } else {
                    &&& final(peers)@.len() == old(peers)@.len() + 1
                    &&& final(peers)@.drop_last() == old(peers)@
                    &&& final(peers)@.last().addr@ == addr
                    &&& final(peers)@.last().secured == p.1
                }
            },
        },
{
    match parse_beacon(datagram) {
        None => {},
        Some((port, secured)) => {
            let mut addr: String = ip.to_owned();
            addr.append(":");
            push_dec(&mut addr, port as u64);
            let mut i: usize = 0;
            while i < peers.len()
                invariant
                    i <= peers@.len(),
                    peers@ == old(peers)@,
                    beacon_of(datagram@) is Some,
                    addr@ == ip@ + ":"@ + dec(beacon_of(datagram@)->Some_0.0),
                    secured == beacon_of(datagram@)->Some_0.1,
                    forall|k: int|
                        0 <= k < i ==> !((#[trigger] peers@[k]).addr@ == addr@ && peers@[k].secured
                            == secured),
                decreases peers@.len() - i,
            {
                if peers[i].secured == secured && text_eq(peers[i].addr.as_str(), addr.as_str()) {
                    return ;
                }
                i = i + 1;
            }
            peers.push(Peer { addr, secured });
            assert(peers@.drop_last() =~= old(peers)@);
            assert(peers@[peers@.len() - 1].addr@ == addr@);
        },
    }
}

/// The lowest byte of a number comes first on the wire, and each further one
/// counts 256 times as much.
pub proof fn lowest_byte_comes_first(n: nat, k: nat, b: Seq<u8>)
    ensures
        le_bytes(n, k + 1).len() == k + 1,
        le_bytes(n, k + 1)[0] == n % 256,
        le_bytes(n, k + 1).skip(1) == le_bytes(n / 256, k),
        b.len() > 0 ==> le_value(b) == b[0] + 256 * le_value(b.skip(1)),
{
    lemma_le_len(n, k + 1);
    assert(le_bytes(n, k + 1).skip(1) =~= le_bytes(n / 256, k));
    if b.len() > 0 {
        assert(b.skip(1) =~= b.drop_first());
    }
}

/// What a peer asks for, byte by byte: HEAD is asked for by a one, a manifest
/// by a two and its hash, an object by a four and its hash, and which of a list
/// of objects are there by a three, their number in four bytes, and the hashes.
/// Anything else is refused.
pub proof fn requests_are_opcodes_and_hashes(frame: Seq<u8>, h: Seq<u8>, hs: Seq<Seq<u8>>)
    requires
        h.len() == 32,
    ensures
        request_text(RequestView::GetHead) == seq![1u8],
        request_text(RequestView::GetManifest(h)) == seq![2u8] + h,
        request_text(RequestView::Have(hs)) == seq![3u8] + le_bytes(hs.len(), 4) + hs.flatten(),
        request_text(RequestView::GetObject(h)) == seq![4u8] + h,
        request_of(frame) == std::result::Result::<RequestView, Seq<char>>::Ok(
            RequestView::GetManifest(h),
        ) <==> frame == seq![2u8] + h,
        request_of(frame) == std::result::Result::<RequestView, Seq<char>>::Ok(
            RequestView::GetObject(h),
        ) <==> frame == seq![4u8] + h,
        request_of(frame) == std::result::Result::<RequestView, Seq<char>>::Ok(RequestView::GetHead)
            <==> frame.len() > 0 && frame[0] == 1,
        request_of(frame) is Ok && frame[0] == 3 ==> frame.len() == 5 + 32 * le_value(
            frame.subrange(1, 5),
        ),
        frame.len() == 0 || frame[0] == 0 || frame[0] > 4 ==> request_of(frame) is Err,
        (frame.len() > 0 && (frame[0] == 2 || frame[0] == 4) && frame.len() != 33) ==> request_of(
            frame,
        ) is Err,
{
    pieces_follow_each_other(hs);
    if frame == seq![2u8] + h || frame == seq![4u8] + h {
        assert(frame.skip(1) =~= h);
    }
    if frame.len() == 33 && frame.skip(1) == h {
        assert(frame =~= seq![frame[0]] + h);
    }
}

/// A list of hashes that is asked about is read hash by hash.
pub proof fn asked_hashes_are_read_in_order(b: Seq<u8>, n: nat, i: int)
    requires
        0 <= i < n,
    ensures
        hashes_in(b, n).len() == n,
        hashes_in(b, n)[i] == b.subrange(32 * i, 32 * i + 32),
{
}

/// What a reply carries: as many bytes behind the first eight as these say, and
/// nothing where there are fewer.
pub proof fn reply_carries_what_its_length_says(n: nat, rest: Seq<u8>, short: Seq<u8>)
    requires
        n <= u64::MAX,
        short.len() < 8,
    ensures
        n <= rest.len() ==> payload_of(le_bytes(n, 8) + rest) == std::result::Result::<
            Seq<u8>,
            Seq<char>,
        >::Ok(rest.take(n as int)),
        n > rest.len() ==> payload_of(le_bytes(n, 8) + rest) is Err,
        payload_of(short) is Err,
        blob_text(rest) == le_bytes(rest.len(), 8) + rest,
{
    lemma_radix();
    le_round_trip(n, 8);
    let f = le_bytes(n, 8) + rest;
    assert(f.take(8) =~= le_bytes(n, 8));
    if n <= rest.len() {
        assert(f.subrange(8, 8 + n as int) =~= rest.take(n as int));
    }
}

/// What a peer says of its HEAD: a one and the 32 bytes of its hash, or a zero
/// where it has none; anything else says nothing.
pub proof fn head_replies_are_flag_and_hash(resp: Seq<u8>, h: Seq<u8>)
    ensures
        head_text(Some(h)) == seq![1u8] + h,
        head_text(None) == seq![0u8],
        head_in(resp) == Some(Some(h)) <==> resp == seq![1u8] + h && h.len() == 32,
        head_in(resp) == Some(None::<Seq<u8>>) <==> resp.len() > 0 && resp[0] == 0,
{
    if resp == seq![1u8] + h {
        assert(resp.skip(1) =~= h);
    }
    if resp.len() == 33 && resp[0] == 1 && resp.skip(1) == h {
        assert(resp =~= seq![1u8] + h);
    }
}

/// The answer about a list of objects: one byte for each, one where it is
/// there, zero where it is not.
pub proof fn have_replies_are_flags(flags: Seq<bool>)
    ensures
        have_text(flags).len() == flags.len(),
        forall|i: int|
            0 <= i < flags.len() ==> (#[trigger] have_text(flags)[i] == 1 <==> flags[i]) && (
            have_text(flags)[i] == 0 <==> !flags[i]),
{
}

/// The file name of a peer keeps letters, digits, dots and hyphens in their
/// places and has an underscore for everything else.
pub proof fn peer_names_keep_safe_characters(addr: Seq<char>, i: int)
    requires
        0 <= i < addr.len(),
    ensures
        peer_name(addr).len() == addr.len(),
        ({
            let n = addr[i] as u32;
            peer_name(addr)[i] == if (48 <= n && n <= 57) || (65 <= n && n <= 90) || (97 <= n && n
                <= 122) || addr[i] == '.' || addr[i] == '-' {
                addr[i]
            } else {
                '_'
            }
        }),
{
}

/// A datagram is a beacon exactly where it was made as one: five bytes of
/// magic, the port in two, and a one behind them for a secured listener.
pub proof fn only_beacons_announce(b: Seq<u8>, port: u16, secured: bool)
    ensures
        beacon_of(b) == Some((port as nat, secured)) <==> b == seq![
            83u8,
            70u8,
            65u8,
            66u8,
            49u8,
        ] + le_bytes(port as nat, 2) + if secured {
            seq![1u8]
        } else {
            Seq::<u8>::empty()
        },
{
    beacon_round_trip(port, secured);
    let magic = seq![83u8, 70u8, 65u8, 66u8, 49u8];
    assert(magic =~= beacon_magic());
    if beacon_of(b) == Some((port as nat, secured)) {
        let t = b.subrange(5, 7);
        reveal_with_fuel(le_value, 3);
        reveal_with_fuel(le_bytes, 3);
        let u = t.drop_first();
        assert(u.drop_first().len() == 0);
        assert(u[0] == t[1]);
        assert(le_value(u) == u[0] as nat);
        assert(le_value(t) == t[0] as nat + 256 * (t[1] as nat));
        let n = port as nat;
        assert(n % 256 == t[0] as nat) by (nonlinear_arith)
            requires
                n == t[0] as nat + 256 * (t[1] as nat),
                (t[0] as nat) < 256,
        ;
        assert(n / 256 == t[1] as nat) by (nonlinear_arith)
            requires
                n == t[0] as nat + 256 * (t[1] as nat),
                (t[0] as nat) < 256,
        ;
        assert((n / 256) % 256 == t[1] as nat);
        assert(le_bytes(n / 256, 1) =~= seq![t[1]]);
        assert(le_bytes(n, 2) =~= t);
        assert(b.take(5) == magic);
        assert forall|i: int| 0 <= i < 5 implies b[i] == magic[i] by {
            assert(b.take(5)[i] == b[i]);
        }
        assert(t[0] == b[5] && t[1] == b[6]);
        assert(b =~= magic + le_bytes(n, 2) + if secured {
            seq![1u8]
        } else {
            Seq::<u8>::empty()
        });
    }
}

/// A request is understood as what it is.
pub proof fn requests_are_told_apart(h: crate::Hash, hs: Vec<crate::Hash>, i: int)
    requires
        0 <= i < hs@.len(),
    ensures
        Request::GetHead@ == RequestView::GetHead,
        Request::GetManifest(h)@ == RequestView::GetManifest(h@),
        Request::GetObject(h)@ == RequestView::GetObject(h@),
        Request::Have(hs)@ is Have,
        (Request::Have(hs)@)->Have_0.len() == hs@.len(),
        (Request::Have(hs)@)->Have_0[i] == hs@[i]@,
{
}

} // verus!
