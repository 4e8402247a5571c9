//! Secured transport for sync: Noise NNpsk0 over TCP.
//!
//! `Noise_NNpsk0_25519_ChaChaPoly_BLAKE2s`: mutual authentication from
//! a shared passphrase (mixed at position 0, so a wrong-PSK peer cannot
//! complete the handshake) plus forward secrecy from the ephemeral DH
//! exchange. No certificates, no PKI: the passphrase is the credential,
//! which fits "sync between machines I own" exactly.
//!
//! Connection prologue: the client sends `SFAB` + version + mode before
//! anything else. A plaintext client (no --psk) sends nothing and uses
//! the plain framing; a --psk client sends
//! MODE_NOISE and handshakes. A --psk *server* rejects non-selector
//! connections, so security cannot be silently downgraded: the operator
//! on the serving side decides the floor.
//!
//! Transport framing: each app frame is sent as a length header carried
//! inside a Noise message, then Noise messages of <= 48 KiB plaintext.
//! Frame sizes are encrypted too: the wire shows only ciphertext.

use vstd::prelude::*;
use vstd::string::*;
use vstd::utf8::*;
use crate::error::Error;
use crate::error::ErrorView;
use crate::error::Result;
use crate::text::bytes_eq;
use crate::wire::MAX_FRAME;
use crate::wire::le_bytes;
use crate::wire::le_round_trip;
use crate::wire::le_value;
use crate::wire::lemma_radix;
use crate::wire::push_le;
use crate::wire::read_le;
use crate::wire::sync_error;

verus! {

pub const PROTO_VERSION: u8 = 2;

pub const MODE_NOISE: u8 = 1;

/// Noise transport messages cap near 64 KiB; 48 KiB leaves headroom.
pub const PLAINTEXT_MSG: usize = 49152;

/// The longest Noise message on the wire.
pub const MAX_SEALED: usize = 49216;

/// The longest handshake message.
pub const MAX_HS_MSG: usize = 1024;

/// The bytes "SFAB".
pub open spec fn proto_magic() -> Seq<u8> {
    seq![83u8, 70u8, 65u8, 66u8]
}

/// What a secured client sends first: magic, version and mode.
pub open spec fn selector_text() -> Seq<u8> {
    proto_magic() + seq![PROTO_VERSION, MODE_NOISE]
}

/// What a secured client sends first.
pub fn selector() -> (r: Vec<u8>)
    ensures
        r@ == selector_text(),
{
    let mut out: Vec<u8> = Vec::new();
    out.push(83);
    out.push(70);
    out.push(65);
    out.push(66);
    out.push(PROTO_VERSION);
    out.push(MODE_NOISE);
    assert(out@ =~= selector_text());
    out
}

/// Whether a connection's first bytes ask for the secured transport; a
/// secured server refuses all others.
pub fn is_selector(b: &[u8]) -> (r: bool)
    ensures
        r == (b@ == selector_text()),
{
    bytes_eq(b, selector().as_slice())
}

/// Lets a connection to a secured listener go on only if its first bytes ask
/// for the secured transport: a plaintext peer is refused outright.
pub fn let_in(first: &[u8]) -> (r: Result<()>)
    ensures
        match r {
            Ok(_) => first@ == selector_text(),
            Err(e) => first@ != selector_text() && e@ == ErrorView::Sync(
                "peer did not ask for the secured transport"@,
            ),
        },
{
    if is_selector(first) {
        return Ok(());
    }
    Err(sync_error("peer did not ask for the secured transport"))
}

/// The 32 bytes that BLAKE3 gives in its key derivation mode for a context
/// and key material.
pub uninterp spec fn blake3_derived(context: Seq<char>, material: Seq<u8>) -> Seq<u8>;

/// `blake3::derive_key`: the key depends on context and material alone.
#[verifier::external_body]
fn blake3_derive(context: &str, material: &[u8]) -> (r: crate::Hash)
    ensures
        r@ == blake3_derived(context@, material@),
{
    blake3::derive_key(context, material)
}

/// Derive the 32-byte pre-shared key from a passphrase. A bearer
/// credential: anyone holding it can authenticate to the fabric.
pub fn derive_psk(passphrase: &str) -> (r: crate::Hash)
    ensures
        r@ == blake3_derived("respawn sync psk v1"@, encode_utf8(passphrase@)),
{
    blake3_derive("respawn sync psk v1", passphrase.as_bytes())
}

/// A Noise message on the wire, behind its length.
pub fn write_msg(data: &[u8]) -> (r: Result<Vec<u8>>)
    ensures
        if data@.len() > MAX_SEALED {
            r is Err && r->Err_0@ == ErrorView::Sync("noise message oversized"@)
        } else {
            r is Ok && r->Ok_0@ == le_bytes(data@.len(), 4) + data@
        },
{
    if data.len() > MAX_SEALED {
        return Err(sync_error("noise message oversized"));
    }
    let mut out: Vec<u8> = Vec::new();
    push_le(&mut out, data.len() as u64, 4);
    assert(out@ =~= le_bytes(data@.len(), 4));
    out.extend_from_slice(data);
    assert(out@ =~= le_bytes(data@.len(), 4) + data@);
    Ok(out)
}

/// The length that the four bytes in front of a Noise message announce: at
/// least one byte, at most `cap`.
pub fn msg_len(header: &[u8], cap: usize) -> (r: Result<usize>)
    requires
        header@.len() == 4,
    ensures
        if le_value(header@) == 0 || le_value(header@) > cap {
            r is Err && r->Err_0@ == ErrorView::Sync("noise message length invalid"@)
        } else {
            r is Ok && r->Ok_0 == le_value(header@)
        },
{
    let n: u64 = read_le(header);
    if n == 0 || n > cap as u64 {
        return Err(sync_error("noise message length invalid"));
    }
    Ok(n as usize)
}

/// `snow::params::NoiseParams`, a parsed protocol name.
#[verifier::external_type_specification]
#[verifier::external_body]
pub struct ExNoiseParams(snow::params::NoiseParams);

/// `snow::HandshakeState`, a handshake in progress.
#[verifier::external_type_specification]
#[verifier::external_body]
pub struct ExHandshakeState(snow::HandshakeState);

/// `snow::TransportState`, what a finished handshake leaves to seal and open
/// messages with.
#[verifier::external_type_specification]
#[verifier::external_body]
pub struct ExTransportState(snow::TransportState);

/// The Noise protocol of the secured transport.
pub open spec fn protocol_name() -> Seq<char> {
    "Noise_NNpsk0_25519_ChaChaPoly_BLAKE2s"@
}

/// One side of a handshake, and of the channel that comes out of it: the
/// protocol it follows, the pre-shared key it was built with, whether it sends
/// the first message, the messages it wrote, and those of the peer's that it
/// accepted.
pub struct Session {
    pub protocol: Seq<char>,
    pub psk: Seq<u8>,
    pub initiates: bool,
    pub said: Seq<Seq<u8>>,
    pub heard: Seq<Seq<u8>>,
}

impl Session {
    /// The session after one more message was written.
    pub open spec fn saying(self, m: Seq<u8>) -> Session {
        Session { said: self.said.push(m), ..self }
    }

    /// The session after one more message was accepted.
    pub open spec fn hearing(self, m: Seq<u8>) -> Session {
        Session { heard: self.heard.push(m), ..self }
    }

    /// The session of the other side: the same key, and what one side said is
    /// what the other heard.
    pub open spec fn peer(self) -> Session {
        Session {
            initiates: !self.initiates,
            said: self.heard,
            heard: self.said,
            ..self
        }
    }

    /// Whether it is this side's turn to write: at once for the side that
    /// sends the first message, behind one message for the other.
    pub open spec fn may_write(self) -> bool {
        self.said.len() == 0 && self.heard.len() == if self.initiates {
            0nat
        } else {
            1nat
        }
    }
}

/// The session of a handshake that was built and not used yet.
pub open spec fn begun(psk: Seq<u8>, initiates: bool) -> Session {
    Session {
        protocol: protocol_name(),
        psk,
        initiates,
        said: Seq::empty(),
        heard: Seq::empty(),
    }
}

/// The protocol name that parameters were parsed from.
pub uninterp spec fn params_name(p: snow::params::NoiseParams) -> Seq<char>;

/// The session of a handshake so far.
pub uninterp spec fn handshake_session(hs: snow::HandshakeState) -> Session;

/// Whether `read_message` of a handshake accepts a message, given room for
/// its payload.
pub uninterp spec fn noise_accepts(hs: snow::HandshakeState, msg: Seq<u8>) -> bool;

/// The session that a transport came out of.
pub uninterp spec fn transport_session(t: snow::TransportState) -> Session;

/// The payloads that a transport has sealed.
pub uninterp spec fn transport_sealed(t: snow::TransportState) -> Seq<Seq<u8>>;

/// The payloads that came out of the messages that a transport has opened.
pub uninterp spec fn transport_opened(t: snow::TransportState) -> Seq<Seq<u8>>;

/// The message that `write_message` of a transport makes of a payload.
pub uninterp spec fn noise_sealed(t: snow::TransportState, payload: Seq<u8>) -> Seq<u8>;

/// The payload that `read_message` of a transport finds in a message, given
/// room for it, or nothing where it refuses the message.
pub uninterp spec fn noise_opened(t: snow::TransportState, msg: Seq<u8>) -> Option<Seq<u8>>;

/// Whether some handshake came to this session.
pub open spec fn came_about(s: Session) -> bool {
    exists|hs: snow::HandshakeState| handshake_session(hs) == s
}

/// Whether `m` is what a transport of this session makes of the payload `p`
/// once it has sealed `before`.
pub open spec fn sealed_in_turn(
    session: Session,
    before: Seq<Seq<u8>>,
    p: Seq<u8>,
    m: Seq<u8>,
) -> bool {
    exists|t: snow::TransportState|
        transport_session(t) == session && transport_sealed(t) == before && m
            == #[trigger] noise_sealed(t, p)
}

/// `snow::params::NoiseParams::from_str`: the name of the secured transport's
/// protocol parses. Its five parts between the underscores are each one that
/// the parser knows: the base `Noise`, the pattern `NN` with the modifier
/// `psk0`, and the primitives. The parameters carry the name. Which other
/// names parse is left unsaid; an error comes as its debug text.
#[verifier::external_body]
fn noise_params(name: &str) -> (r: std::result::Result<snow::params::NoiseParams, String>)
    ensures
        name@ == protocol_name() ==> r is Ok,
        r is Ok ==> params_name(r->Ok_0) == name@,
{
    name.parse().map_err(|e: snow::Error| format!("{e:?}"))
}

/// `snow::Builder::build_initiator` with a pre-shared key at position 0: a
/// handshake of that protocol with that key, in which nothing was said or
/// heard. Of the secured transport's protocol, which needs no static keys and
/// whose primitives the default resolver has, it always succeeds. An error
/// comes as its text.
#[verifier::external_body]
fn noise_initiator(params: snow::params::NoiseParams, psk: &crate::Hash) -> (r: std::result::Result<
    snow::HandshakeState,
    String,
>)
    ensures
        params_name(params) == protocol_name() ==> r is Ok && handshake_session(r->Ok_0) == begun(
            psk@,
            true,
        ),
{
    snow::Builder::new(params).psk(0, psk).build_initiator().map_err(|e| e.to_string())
}

/// `snow::Builder::build_responder` with a pre-shared key at position 0: as
/// `build_initiator`, for the other side. An error comes as its text.
#[verifier::external_body]
fn noise_responder(params: snow::params::NoiseParams, psk: &crate::Hash) -> (r: std::result::Result<
    snow::HandshakeState,
    String,
>)
    ensures
        params_name(params) == protocol_name() ==> r is Ok && handshake_session(r->Ok_0) == begun(
            psk@,
            false,
        ),
{
    snow::Builder::new(params).psk(0, psk).build_responder().map_err(|e| e.to_string())
}

/// `snow::HandshakeState::write_message` with an empty payload, into a buffer
/// of `cap` bytes: a message that was written counts as said, and nothing else
/// of the session changes. In the secured transport's protocol a message is an
/// ephemeral key and a tag, 48 bytes, and is written whenever it is this
/// side's turn. The ephemeral key is drawn at random, so which bytes it holds
/// is not claimed. An error comes as its text.
#[verifier::external_body]
fn noise_hs_write(hs: &mut snow::HandshakeState, cap: usize) -> (r: std::result::Result<
    Vec<u8>,
    String,
>)
    ensures
        handshake_session(*final(hs)) == match r {
            Ok(m) => handshake_session(*old(hs)).saying(m@),
            Err(_) => handshake_session(*old(hs)),
        },
        handshake_session(*old(hs)).protocol == protocol_name() && handshake_session(
            *old(hs),
        ).may_write() && cap >= 48 ==> r is Ok && r->Ok_0@.len() == 48,
{
    let mut buf = vec![0u8; cap];
    let n = hs.write_message(&[], &mut buf).map_err(|e| e.to_string())?;
    buf.truncate(n);
    Ok(buf)
}

/// `snow::HandshakeState::read_message` into a buffer of `cap` bytes: a
/// message that was accepted counts as heard, and nothing else of the session
/// changes. Whether a message is accepted depends on the handshake and the
/// message, where the message is not longer than the buffer. In the secured
/// transport's protocol the next message of a peer with the same key, which
/// heard what this side said, is accepted: both sides derive the same keys
/// from it. That a message made with another key is refused rests on the
/// cipher, and is not claimed. An error comes as its text.
#[verifier::external_body]
fn noise_hs_read(hs: &mut snow::HandshakeState, msg: &[u8], cap: usize) -> (r: std::result::Result<
    usize,
    String,
>)
    ensures
        handshake_session(*final(hs)) == if r is Ok {
            handshake_session(*old(hs)).hearing(msg@)
        } else {
            handshake_session(*old(hs))
        },
        r is Ok ==> noise_accepts(*old(hs), msg@),
        r is Err ==> !noise_accepts(*old(hs), msg@) || msg@.len() > cap,
        handshake_session(*old(hs)).protocol == protocol_name() && came_about(
            handshake_session(*old(hs)).hearing(msg@).peer(),
        ) ==> r is Ok || msg@.len() > cap,
{
    let mut buf = vec![0u8; cap];
    hs.read_message(msg, &mut buf).map_err(|e| e.to_string())
}

/// `snow::HandshakeState::into_transport_mode`: the session carries over to a
/// transport that has sealed and opened nothing. It succeeds once the two
/// messages of the secured transport's protocol are through. An error comes as
/// its text.
#[verifier::external_body]
fn noise_transport(hs: snow::HandshakeState) -> (r: std::result::Result<
    snow::TransportState,
    String,
>)
    ensures
        r is Ok ==> {
            let t = r->Ok_0;
            &&& transport_session(t) == handshake_session(hs)
            &&& transport_sealed(t) == Seq::<Seq<u8>>::empty()
            &&& transport_opened(t) == Seq::<Seq<u8>>::empty()
        },
        handshake_session(hs).protocol == protocol_name() && handshake_session(hs).said.len()
            + handshake_session(hs).heard.len() == 2 ==> r is Ok,
{
    hs.into_transport_mode().map_err(|e| e.to_string())
}

/// `snow::TransportState::write_message` into a buffer of `cap` bytes: a
/// payload that was sealed counts as such, and neither the session nor what
/// was opened changes. The message depends on the transport and the payload,
/// and is 16 bytes longer than the payload. In the secured transport's
/// protocol sealing fails only where payload and tag exceed the buffer or
/// 65535 bytes, or all numbers for messages are used up. An error comes as its
/// text.
#[verifier::external_body]
fn noise_seal(t: &mut snow::TransportState, payload: &[u8], cap: usize) -> (r: std::result::Result<
    Vec<u8>,
    String,
>)
    ensures
        transport_session(*final(t)) == transport_session(*old(t)),
        transport_opened(*final(t)) == transport_opened(*old(t)),
        transport_sealed(*final(t)) == if r is Ok {
            transport_sealed(*old(t)).push(payload@)
        } else {
            transport_sealed(*old(t))
        },
        r is Ok ==> r->Ok_0@ == noise_sealed(*old(t), payload@) && r->Ok_0@.len() == payload@.len()
            + 16,
        transport_session(*old(t)).protocol == protocol_name() && payload@.len() + 16 <= cap
            && payload@.len() + 16 <= 65535 && transport_sealed(*old(t)).len() < u64::MAX ==> r is Ok,
{
    let mut buf = vec![0u8; cap];
    let n = t.write_message(payload, &mut buf).map_err(|e| e.to_string())?;
    buf.truncate(n);
    Ok(buf)
}

/// `snow::TransportState::read_message` into a buffer of `cap` bytes: the
/// payload of an accepted message counts as opened, and neither the session
/// nor what was sealed changes. Whether a message is accepted, and what it
/// holds, depends on the transport and the message, where the payload fits the
/// buffer; the payload is 16 bytes shorter than the message. In the secured
/// transport's protocol a message that the peer's transport sealed opens to
/// the payload, in its turn: when as many were opened here as were sealed
/// there before it. That any other message is refused rests on the cipher, and
/// is not claimed. An error comes as its text.
#[verifier::external_body]
fn noise_open(t: &mut snow::TransportState, msg: &[u8], cap: usize) -> (r: std::result::Result<
    Vec<u8>,
    String,
>)
    ensures
        transport_session(*final(t)) == transport_session(*old(t)),
        transport_sealed(*final(t)) == transport_sealed(*old(t)),
        transport_opened(*final(t)) == match r {
            Ok(p) => transport_opened(*old(t)).push(p@),
            Err(_) => transport_opened(*old(t)),
        },
        match r {
            Ok(p) => noise_opened(*old(t), msg@) == Some(p@) && p@.len() + 16 == msg@.len(),
            Err(_) => noise_opened(*old(t), msg@) is None || msg@.len() > cap + 16,
        },
        forall|before: Seq<Seq<u8>>, p: Seq<u8>|
            transport_session(*old(t)).protocol == protocol_name() && before.len()
                == transport_opened(*old(t)).len() && before.len() < u64::MAX && p.len() <= cap
                && p.len() + 16 <= 65535 && #[trigger] sealed_in_turn(
                transport_session(*old(t)).peer(),
                before,
                p,
                msg@,
            ) ==> r is Ok && r->Ok_0@ == p,
{
    let mut buf = vec![0u8; cap];
    let n = t.read_message(msg, &mut buf).map_err(|e| e.to_string())?;
    buf.truncate(n);
    Ok(buf)
}

/// A sync error with the text of an outside error behind a label.
fn noise_error(label: &str, e: &str) -> (r: Error)
    ensures
        r@ == ErrorView::Sync(label@ + e@),
{
    Error::Sync(String::from_str(label).concat(e))
}

/// Whether an error is a sync error whose message begins with `label`.
pub open spec fn labelled(e: Error, label: Seq<char>) -> bool {
    e@ is Sync && label.is_prefix_of(e@->Sync_0)
}

/// The parameters of the secured transport's protocol, which always parse.
fn hs_params() -> (r: Result<snow::params::NoiseParams>)
    ensures
        r is Ok,
        params_name(r->Ok_0) == protocol_name(),
{
    match noise_params("Noise_NNpsk0_25519_ChaChaPoly_BLAKE2s") {
        Ok(p) => Ok(p),
        Err(e) => Err(noise_error("noise params: ", e.as_str())),
    }
}

/// The length of a handshake message.
pub const HS_MSG: usize = 48;

/// The side that opens the handshake, waiting for the reply.
pub struct Initiator {
    hs: snow::HandshakeState,
}

/// Whether `r` is a handshake begun with the key `psk`, and its first message.
pub open spec fn started(psk: Seq<u8>, r: Result<(Initiator, Vec<u8>)>) -> bool {
    &&& r is Ok
    &&& r->Ok_0.1@.len() == HS_MSG
    &&& r->Ok_0.0.session() == begun(psk, true).saying(r->Ok_0.1@)
    &&& came_about(r->Ok_0.0.session())
}

/// Whether `r` is what comes of a reply: a channel where the handshake accepts
/// it, as it does where the reply comes from a peer with the same key that
/// heard this side's message.
pub open spec fn finished(ini: Initiator, reply: Seq<u8>, r: Result<Channel>) -> bool {
    &&& match r {
        Ok(c) => ini.accepts(reply) && c.fresh(ini.session().hearing(reply)),
        Err(e) => (!ini.accepts(reply) || reply.len() > MAX_HS_MSG) && labelled(
            e,
            "noise handshake rejected: "@,
        ),
    }
    &&& came_about(ini.session().hearing(reply).peer()) && reply.len() <= MAX_HS_MSG ==> r is Ok
}

impl Initiator {
    /// The session so far.
    pub closed spec fn session(&self) -> Session {
        handshake_session(self.hs)
    }

    /// Whether the handshake accepts a reply.
    pub closed spec fn accepts(&self, reply: Seq<u8>) -> bool {
        noise_accepts(self.hs, reply)
    }

    #[verifier::type_invariant]
    spec fn waits(&self) -> bool {
        let s = handshake_session(self.hs);
        s.protocol == protocol_name() && s.initiates && s.said.len() == 1 && s.heard.len() == 0
    }

    /// Initiator side of NNpsk0, first half: `-> e, psk`. Returns the message
    /// to send.
    pub fn start(psk: &crate::Hash) -> (r: Result<(Initiator, Vec<u8>)>)
        ensures
            started(psk@, r),
    {
        let params = match hs_params() {
            Ok(p) => p,
            Err(e) => {
                return Err(e);
            },
        };
        let mut hs = match noise_initiator(params, psk) {
            Ok(h) => h,
            Err(e) => {
                return Err(noise_error("noise init: ", e.as_str()));
            },
        };
        match noise_hs_write(&mut hs, MAX_HS_MSG) {
            Ok(m) => {
                assert(came_about(handshake_session(hs)));
                Ok((Initiator { hs }, m))
            },
            Err(e) => Err(noise_error("noise write: ", e.as_str())),
        }
    }

    /// Initiator side, second half: takes the reply `<- e, ee`. A reply that
    /// the handshake does not accept, such as one made with another key, gives
    /// no channel.
    pub fn finish(self, reply: &[u8]) -> (r: Result<Channel>)
        ensures
            finished(self, reply@, r),
    {
        proof {
            use_type_invariant(&self);
        }
        let mut hs = self.hs;
        match noise_hs_read(&mut hs, reply, MAX_HS_MSG) {
            Ok(_) => into_channel(hs),
            Err(e) => {
                let x = noise_error("noise handshake rejected: ", e.as_str());
                assert("noise handshake rejected: "@.is_prefix_of(x@->Sync_0));
                Err(x)
            },
        }
    }
}

/// A finished handshake turned into a channel.
fn into_channel(hs: snow::HandshakeState) -> (r: Result<Channel>)
    requires
        handshake_session(hs).protocol == protocol_name(),
        handshake_session(hs).said.len() == 1,
        handshake_session(hs).heard.len() == 1,
    ensures
        r is Ok,
        r->Ok_0.fresh(handshake_session(hs)),
{
    match noise_transport(hs) {
        Ok(transport) => Ok(Channel { transport }),
        Err(e) => Err(noise_error("noise transport: ", e.as_str())),
    }
}

/// The error for a handshake that the peer ended.
pub fn handshake_ended(e: &Error) -> (r: Error)
    ensures
        !(e is Io) ==> r@ == ErrorView::Sync(
            "peer ended the handshake (wrong --psk or unsecured listener?): "@ + e@.message(),
        ),
        labelled(r, "peer ended the handshake (wrong --psk or unsecured listener?): "@),
{
    let m = e.message();
    let x = noise_error(
        "peer ended the handshake (wrong --psk or unsecured listener?): ",
        m.as_str(),
    );
    assert("peer ended the handshake (wrong --psk or unsecured listener?): "@.is_prefix_of(
        x@->Sync_0,
    ));
    x
}

/// Whether `r` is what comes of a first message: a channel and the reply to
/// send where a handshake with the key `psk` accepts it, as it does where the
/// message comes from a peer with that key.
pub open spec fn responded(psk: Seq<u8>, first: Seq<u8>, r: Result<(Channel, Vec<u8>)>) -> bool {
    &&& match r {
        Ok(p) => {
            &&& p.0.fresh(begun(psk, false).hearing(first).saying(p.1@))
            &&& p.1@.len() == HS_MSG
            &&& came_about(p.0.session())
            &&& exists|hs: snow::HandshakeState|
                handshake_session(hs) == begun(psk, false) && #[trigger] noise_accepts(hs, first)
        },
        Err(e) => {
            &&& labelled(e, "noise handshake rejected: "@)
            &&& first.len() > MAX_HS_MSG || exists|hs: snow::HandshakeState|
                handshake_session(hs) == begun(psk, false) && !#[trigger] noise_accepts(hs, first)
        },
    }
    &&& came_about(begun(psk, true).saying(first)) && first.len() <= MAX_HS_MSG ==> r is Ok
}

/// Responder side of NNpsk0: takes the first message, and gives the reply to
/// send. A first message that a handshake with this key does not accept, such
/// as one made with another key, is refused.
pub fn respond_handshake(psk: &crate::Hash, first: &[u8]) -> (r: Result<(Channel, Vec<u8>)>)
    ensures
        responded(psk@, first@, r),
{
    let params = match hs_params() {
        Ok(p) => p,
        Err(e) => {
            return Err(e);
        },
    };
    let mut hs = match noise_responder(params, psk) {
        Ok(h) => h,
        Err(e) => {
            return Err(noise_error("noise init: ", e.as_str()));
        },
    };
    proof {
        let s = begun(psk@, false).hearing(first@).peer();
        assert(s.said =~= begun(psk@, true).saying(first@).said);
        assert(s == begun(psk@, true).saying(first@));
    }
    match noise_hs_read(&mut hs, first, MAX_HS_MSG) {
        Ok(_) => {},
        Err(e) => {
            let x = noise_error("noise handshake rejected: ", e.as_str());
            assert("noise handshake rejected: "@.is_prefix_of(x@->Sync_0));
            return Err(x);
        },
    }
    let reply = match noise_hs_write(&mut hs, MAX_HS_MSG) {
        Ok(m) => m,
        Err(e) => {
            return Err(noise_error("noise write: ", e.as_str()));
        },
    };
    assert(came_about(handshake_session(hs)));
    match into_channel(hs) {
        Ok(c) => Ok((c, reply)),
        Err(e) => Err(e),
    }
}

/// The plaintexts in which a frame's payload travels behind its length: 48
/// KiB each, the last one shorter.
pub open spec fn slices(payload: Seq<u8>) -> Seq<Seq<u8>>
    decreases payload.len(),
{
    if payload.len() == 0 {
        Seq::empty()
    } else if payload.len() <= PLAINTEXT_MSG {
        seq![payload]
    } else {
        seq![payload.take(PLAINTEXT_MSG as int)] + slices(payload.skip(PLAINTEXT_MSG as int))
    }
}

/// The plaintexts in which a frame travels: its length, then its payload.
pub open spec fn plaintexts(payload: Seq<u8>) -> Seq<Seq<u8>> {
    seq![le_bytes(payload.len(), 4)] + slices(payload)
}

/// An encrypted channel: what a handshake left to seal and open plaintexts
/// with.
pub struct Channel {
    transport: snow::TransportState,
}

/// Whether `ms` are the messages of a frame, one for each of its plaintexts,
/// as a channel of this session makes them once it has sealed `before`.
pub open spec fn sealed_frame(
    session: Session,
    before: Seq<Seq<u8>>,
    payload: Seq<u8>,
    ms: Seq<Vec<u8>>,
) -> bool {
    let all = plaintexts(payload);
    &&& ms.len() == all.len()
    &&& forall|i: int|
        0 <= i < ms.len() ==> (#[trigger] ms[i])@.len() == all[i].len() + 16 && sealed_in_turn(
            session,
            before + all.take(i),
            all[i],
            ms[i]@,
        )
}

/// Whether `r` is what a channel, as it is before, makes of a message, and the
/// channel after that: the plaintext that is in the message, as it is where
/// the peer's channel sealed it and its turn has come.
pub open spec fn opened(before: Channel, msg: Seq<u8>, r: Result<Vec<u8>>, after: Channel) -> bool {
    &&& after.session() == before.session()
    &&& after.sent() == before.sent()
    &&& match r {
        Ok(p) => {
            &&& before.opens(msg) == Some(p@)
            &&& after.got() == before.got().push(p@)
            &&& p@.len() + 16 == msg.len()
        },
        Err(e) => {
            &&& before.opens(msg) is None || msg.len() > MAX_SEALED + 16
            &&& after.got() == before.got()
            &&& labelled(e, "noise decrypt: "@)
        },
    }
    &&& forall|sent: Seq<Seq<u8>>, p: Seq<u8>|
        before.secured() && sent.len() == before.got().len() && sent.len() < u64::MAX && p.len()
            <= MAX_SEALED && #[trigger] sealed_in_turn(before.session().peer(), sent, p, msg)
            ==> r is Ok && r->Ok_0@ == p
}

impl Channel {
    /// The handshake that the channel came out of.
    pub closed spec fn session(&self) -> Session {
        transport_session(self.transport)
    }

    /// The plaintexts that were sealed.
    pub closed spec fn sent(&self) -> Seq<Seq<u8>> {
        transport_sealed(self.transport)
    }

    /// The plaintexts that came out of accepted messages.
    pub closed spec fn got(&self) -> Seq<Seq<u8>> {
        transport_opened(self.transport)
    }

    /// What the channel finds in a message, or nothing where it refuses it.
    pub closed spec fn opens(&self, msg: Seq<u8>) -> Option<Seq<u8>> {
        noise_opened(self.transport, msg)
    }

    /// Whether the channel speaks the protocol of the secured transport, as
    /// every channel does that a handshake here gives.
    pub open spec fn secured(&self) -> bool {
        self.session().protocol == protocol_name()
    }

    /// Whether the channel came out of the given handshake, and was not used
    /// yet.
    pub open spec fn fresh(&self, session: Session) -> bool {
        &&& self.secured()
        &&& self.session() == session
        &&& self.sent() == Seq::<Seq<u8>>::empty()
        &&& self.got() == Seq::<Seq<u8>>::empty()
    }

    /// Seals one plaintext that fits a message.
    fn seal(&mut self, plaintext: &[u8]) -> (r: Result<Vec<u8>>)
        requires
            plaintext@.len() + 16 <= MAX_SEALED,
        ensures
            final(self).session() == old(self).session(),
            final(self).got() == old(self).got(),
            match r {
                Ok(m) => {
                    &&& final(self).sent() == old(self).sent().push(plaintext@)
                    &&& m@.len() == plaintext@.len() + 16
                    &&& sealed_in_turn(old(self).session(), old(self).sent(), plaintext@, m@)
                },
                Err(e) => {
                    &&& old(self).secured() ==> old(self).sent().len() >= u64::MAX
                    &&& final(self).sent() == old(self).sent()
                    &&& labelled(e, "noise encrypt: "@)
                },
            },
    {
        match noise_seal(&mut self.transport, plaintext, MAX_SEALED) {
            Ok(m) => Ok(m),
            Err(e) => {
                let x = noise_error("noise encrypt: ", e.as_str());
                assert("noise encrypt: "@.is_prefix_of(x@->Sync_0));
                Err(x)
            },
        }
    }

    /// Opens one message.
    pub fn open(&mut self, msg: &[u8]) -> (r: Result<Vec<u8>>)
        ensures
            opened(*old(self), msg@, r, *final(self)),
    {
        match noise_open(&mut self.transport, msg, MAX_SEALED) {
            Ok(p) => Ok(p),
            Err(e) => {
                let x = noise_error("noise decrypt: ", e.as_str());
                assert("noise decrypt: "@.is_prefix_of(x@->Sync_0));
                Err(x)
            },
        }
    }

    /// Seals a frame: the messages to send, one for each of its plaintexts,
    /// in turn. A frame within the cap is sealed as long as there are numbers
    /// left for its messages.
    pub fn write_frame(&mut self, payload: &[u8]) -> (r: Result<Vec<Vec<u8>>>)
        ensures
            final(self).session() == old(self).session(),
            final(self).got() == old(self).got(),
            if payload@.len() > MAX_FRAME {
                r is Err && r->Err_0@ == ErrorView::Sync("frame too large"@) && final(self).sent()
                    == old(self).sent()
            } else {
                match r {
                    Ok(ms) => {
                        &&& final(self).sent() == old(self).sent() + plaintexts(payload@)
                        &&& sealed_frame(old(self).session(), old(self).sent(), payload@, ms@)
                    },
                    Err(e) => {
                        &&& old(self).secured() ==> old(self).sent().len() + plaintexts(
                            payload@,
                        ).len() > u64::MAX
                        &&& labelled(e, "noise encrypt: "@)
                    },
                }
            },
    {
        if payload.len() > MAX_FRAME {
            return Err(sync_error("frame too large"));
        }
        let ghost all = plaintexts(payload@);
        let ghost before = self.sent();
        let ghost session = self.session();
        let mut out: Vec<Vec<u8>> = Vec::new();
        let mut header: Vec<u8> = Vec::new();
        push_le(&mut header, payload.len() as u64, 4);
        assert(header@ =~= le_bytes(payload@.len(), 4));
        proof {
            plaintexts_fit_a_message(payload@, 0);
            assert(before + all.take(0) =~= before);
        }
        match self.seal(header.as_slice()) {
            Ok(m) => {
                out.push(m);
            },
            Err(e) => {
                return Err(e);
            },
        }
        let n: usize = payload.len();
        let mut at: usize = 0;
        assert(payload@.skip(0) =~= payload@);
        assert(all.skip(1) =~= slices(payload@));
        assert(all[0] == header@);
        assert(self.sent() =~= before + all.take(1));
        while at < n
            invariant
                at <= n,
                n == payload@.len(),
                n <= MAX_FRAME,
                self.got() == old(self).got(),
                self.session() == old(self).session(),
                session == old(self).session(),
                before == old(self).sent(),
                all == plaintexts(payload@),
                out@.len() <= all.len(),
                self.sent() == before + all.take(out@.len() as int),
                slices(payload@.skip(at as int)) == all.skip(out@.len() as int),
                forall|i: int|
                    0 <= i < out@.len() ==> (#[trigger] out@[i])@.len() == all[i].len() + 16
                        && sealed_in_turn(session, before + all.take(i), all[i], out@[i]@),
            decreases n - at,
        {
            let ghost rest = payload@.skip(at as int);
            let ghost k = out@.len() as int;
            let len: usize = if n - at < PLAINTEXT_MSG {
                n - at
            } else {
                PLAINTEXT_MSG
            };
            let piece = vstd::slice::slice_subrange(payload, at, at + len);
            proof {
                assert(piece@ =~= rest.take(len as int));
                assert(rest.len() <= PLAINTEXT_MSG ==> rest.take(len as int) =~= rest);
                assert(slices(rest)[0] == piece@);
                assert(slices(rest).len() >= 1);
                assert(all.skip(k).len() == all.len() - k);
                assert(all.skip(k)[0] == all[k]);
                assert(all[k] == piece@);
                assert(payload@.skip(at + len) =~= rest.skip(len as int));
                assert(slices(payload@.skip(at + len)) =~= all.skip(k + 1)) by {
                    assert(all.skip(k + 1) =~= all.skip(k).skip(1));
                    assert(slices(rest).skip(1) =~= slices(rest.skip(len as int)));
                }
                assert(all.take(k + 1) =~= all.take(k).push(piece@));
            }
            match self.seal(piece) {
                Ok(m) => {
                    out.push(m);
                },
                Err(e) => {
                    return Err(e);
                },
            }
            at = at + len;
            assert(self.sent() =~= before + all.take(k + 1));
        }
        proof {
            assert(payload@.skip(at as int) =~= Seq::empty());
            assert(all.skip(out@.len() as int).len() == 0);
            assert(all.take(out@.len() as int) =~= all);
        }
        Ok(out)
    }
}

/// What has been read of a frame: how long it is, once that is known, and its
/// bytes so far.
pub enum Reading {
    Header,
    Body(nat, Seq<u8>),
}

/// What reading one more plaintext gives, or the message of the error.
pub open spec fn read_on(s: Reading, p: Seq<u8>) -> std::result::Result<Reading, Seq<char>> {
    match s {
        Reading::Header => if p.len() != 4 {
            Err("noise frame header malformed"@)
        } else if le_value(p) > MAX_FRAME {
            Err("frame too large"@)
        } else {
            Ok(Reading::Body(le_value(p), Seq::empty()))
        },
        Reading::Body(n, out) => if out.len() + p.len() > n {
            Err("noise frame overflow"@)
        } else if p.len() == 0 {
            Err("noise frame stalled"@)
        } else {
            Ok(Reading::Body(n, out + p))
        },
    }
}

/// A frame that is read from its plaintexts. A peer can claim a 64 MB frame
/// then trickle: nothing is reserved for the claim, the buffer grows with
/// what actually arrives.
pub struct FrameReader {
    len: Option<usize>,
    out: Vec<u8>,
}

impl FrameReader {
    /// What has been read.
    pub closed spec fn reading(&self) -> Reading {
        match self.len {
            None => Reading::Header,
            Some(n) => Reading::Body(n as nat, self.out@),
        }
    }

    #[verifier::type_invariant]
    spec fn wf(&self) -> bool {
        match self.len {
            None => self.out@.len() == 0,
            Some(n) => self.out@.len() <= n <= MAX_FRAME,
        }
    }

    /// A frame of which nothing was read.
    pub fn new() -> (r: FrameReader)
        ensures
            r.reading() is Header,
    {
        FrameReader { len: None, out: Vec::new() }
    }

    /// Takes the next plaintext.
    pub fn push(self, p: &[u8]) -> (r: Result<FrameReader>)
        ensures
            match read_on(self.reading(), p@) {
                Ok(s) => r is Ok && r->Ok_0.reading() == s,
                Err(m) => r is Err && r->Err_0@ == ErrorView::Sync(m),
            },
    {
        proof {
            use_type_invariant(&self);
        }
        match self.len {
            None => {
                if p.len() != 4 {
                    return Err(sync_error("noise frame header malformed"));
                }
                let n: u64 = read_le(p);
                if n > MAX_FRAME as u64 {
                    return Err(sync_error("frame too large"));
                }
                let out: Vec<u8> = Vec::new();
                assert(out@ =~= Seq::empty());
                Ok(FrameReader { len: Some(n as usize), out })
            },
            Some(n) => {
                if p.len() > n - self.out.len() {
                    return Err(sync_error("noise frame overflow"));
                }
                if p.len() == 0 {
                    return Err(sync_error("noise frame stalled"));
                }
                let mut out = self.out;
                let ghost before = out@;
                out.extend_from_slice(p);
                assert(out@ =~= before + p@);
                Ok(FrameReader { len: Some(n), out })
            },
        }
    }

    /// Whether the frame is complete.
    pub fn complete(&self) -> (r: bool)
        ensures
            r == match self.reading() {
                Reading::Header => false,
                Reading::Body(n, out) => out.len() == n,
            },
    {
        proof {
            use_type_invariant(self);
        }
        match self.len {
            None => false,
            Some(n) => self.out.len() >= n,
        }
    }

    /// The bytes that were read.
    pub fn into_frame(self) -> (r: Vec<u8>)
        ensures
            match self.reading() {
                Reading::Header => r@.len() == 0,
                Reading::Body(_, out) => r@ == out,
            },
    {
        proof {
            use_type_invariant(&self);
        }
        self.out
    }
}

/// What reading a list of plaintexts gives.
pub open spec fn read_all(s: Reading, ps: Seq<Seq<u8>>) -> std::result::Result<Reading, Seq<char>>
    decreases ps.len(),
{
    if ps.len() == 0 {
        Ok(s)
    } else {
        match read_on(s, ps[0]) {
            Err(m) => Err(m),
            Ok(t) => read_all(t, ps.drop_first()),
        }
    }
}

proof fn lemma_slices_read(n: nat, out: Seq<u8>, payload: Seq<u8>)
    requires
        out.len() + payload.len() == n,
    ensures
        read_all(Reading::Body(n, out), slices(payload)) == std::result::Result::<
            Reading,
            Seq<char>,
        >::Ok(Reading::Body(n, out + payload)),
    decreases payload.len(),
{
    let ps = slices(payload);
    if payload.len() == 0 {
        assert(out + payload =~= out);
    } else if payload.len() <= PLAINTEXT_MSG {
        assert(ps.drop_first() =~= Seq::empty());
        assert(read_all(Reading::Body(n, out + payload), ps.drop_first()) == std::result::Result::<
            Reading,
            Seq<char>,
        >::Ok(Reading::Body(n, out + payload)));
    } else {
        let a = payload.take(PLAINTEXT_MSG as int);
        let b = payload.skip(PLAINTEXT_MSG as int);
        lemma_slices_read(n, out + a, b);
        assert(ps.drop_first() =~= slices(b));
        assert((out + a) + b =~= out + payload);
    }
}

/// A frame that is sent in its plaintexts is read back whole: the reader ends
/// with the payload, complete.
pub proof fn frame_survives_the_channel(payload: Seq<u8>)
    requires
        payload.len() <= MAX_FRAME,
    ensures
        read_all(Reading::Header, plaintexts(payload)) == std::result::Result::<
            Reading,
            Seq<char>,
        >::Ok(Reading::Body(payload.len(), payload)),
{
    lemma_radix();
    le_round_trip(payload.len(), 4);
    let ps = plaintexts(payload);
    assert(ps.drop_first() =~= slices(payload));
    lemma_slices_read(payload.len(), Seq::empty(), payload);
    assert(Seq::<u8>::empty() + payload =~= payload);
}

/// Two ends that know one key meet: the handshake succeeds on both sides, and
/// each comes out of it as the other's peer.
pub proof fn one_key_opens_a_channel(
    psk: Seq<u8>,
    a: Result<(Initiator, Vec<u8>)>,
    b: Result<(Channel, Vec<u8>)>,
    c: Result<Channel>,
)
    requires
        started(psk, a),
        responded(psk, a->Ok_0.1@, b),
        b is Ok ==> finished(a->Ok_0.0, b->Ok_0.1@, c),
    ensures
        b is Ok,
        c is Ok,
        c->Ok_0.session() == b->Ok_0.0.session().peer(),
        b->Ok_0.0.session() == c->Ok_0.session().peer(),
        c->Ok_0.session().psk == psk,
        c->Ok_0.secured(),
        b->Ok_0.0.secured(),
        c->Ok_0.sent().len() == 0 && c->Ok_0.got().len() == 0,
        b->Ok_0.0.sent().len() == 0 && b->Ok_0.0.got().len() == 0,
{
    let first = a->Ok_0.1@;
    assert(b is Ok);
    let reply = b->Ok_0.1@;
    let mine = begun(psk, true).saying(first).hearing(reply);
    let theirs = begun(psk, false).hearing(first).saying(reply);
    assert(mine.peer() == theirs) by {
        assert(mine.peer().said =~= theirs.said);
        assert(mine.peer().heard =~= theirs.heard);
    }
    assert(theirs.peer() == mine);
}

proof fn lemma_opened_in_turn(
    session: Session,
    before: Seq<Seq<u8>>,
    payload: Seq<u8>,
    ms: Seq<Vec<u8>>,
    cs: Seq<Channel>,
    rs: Seq<Result<Vec<u8>>>,
    n: int,
)
    requires
        payload.len() <= MAX_FRAME,
        session.protocol == protocol_name(),
        sealed_frame(session, before, payload, ms),
        before.len() + ms.len() <= u64::MAX,
        rs.len() == ms.len(),
        cs.len() == ms.len() + 1,
        cs[0].session() == session.peer(),
        cs[0].got().len() == before.len(),
        forall|i: int|
            0 <= i < ms.len() ==> opened(#[trigger] cs[i], ms[i]@, rs[i], cs[i + 1]),
        0 <= n <= ms.len(),
    ensures
        forall|i: int|
            0 <= i < n ==> (#[trigger] rs[i]) is Ok && rs[i]->Ok_0@ == plaintexts(payload)[i],
        cs[n].session() == session.peer(),
        cs[n].got().len() == before.len() + n,
    decreases n,
{
    if n > 0 {
        let k = n - 1;
        lemma_opened_in_turn(session, before, payload, ms, cs, rs, k);
        let all = plaintexts(payload);
        let c = cs[k];
        let sent = before + all.take(k);
        assert(opened(cs[k], ms[k]@, rs[k], cs[k + 1]));
        assert(ms[k]@.len() == all[k].len() + 16);
        assert(session.peer().peer() == session);
        assert(sealed_in_turn(c.session().peer(), sent, all[k], ms[k]@));
        plaintexts_fit_a_message(payload, k);
        assert(rs[k] is Ok && rs[k]->Ok_0@ == all[k]);
    }
}

/// A frame that one end of a channel seals is read back whole at the other:
/// each message opens to its plaintext, in turn, and the plaintexts make up
/// the frame. `cs` are the receiving end before and after each message, `rs`
/// what opening them gave.
pub proof fn sealed_frame_is_read_back(
    session: Session,
    before: Seq<Seq<u8>>,
    payload: Seq<u8>,
    ms: Seq<Vec<u8>>,
    cs: Seq<Channel>,
    rs: Seq<Result<Vec<u8>>>,
)
    requires
        payload.len() <= MAX_FRAME,
        session.protocol == protocol_name(),
        sealed_frame(session, before, payload, ms),
        before.len() + ms.len() <= u64::MAX,
        rs.len() == ms.len(),
        cs.len() == ms.len() + 1,
        cs[0].session() == session.peer(),
        cs[0].got().len() == before.len(),
        forall|i: int|
            0 <= i < ms.len() ==> opened(#[trigger] cs[i], ms[i]@, rs[i], cs[i + 1]),
    ensures
        forall|i: int| 0 <= i < rs.len() ==> (#[trigger] rs[i]) is Ok,
        read_all(Reading::Header, rs.map_values(|r: Result<Vec<u8>>| r->Ok_0@))
            == std::result::Result::<Reading, Seq<char>>::Ok(
            Reading::Body(payload.len(), payload),
        ),
        cs.last().session() == session.peer(),
        cs.last().got().len() == before.len() + plaintexts(payload).len(),
{
    lemma_opened_in_turn(session, before, payload, ms, cs, rs, ms.len() as int);
    assert(rs.map_values(|r: Result<Vec<u8>>| r->Ok_0@) =~= plaintexts(payload));
    frame_survives_the_channel(payload);
}

proof fn lemma_slice_len(payload: Seq<u8>, i: int)
    requires
        0 <= i < slices(payload).len(),
    ensures
        0 < slices(payload)[i].len() <= PLAINTEXT_MSG,
    decreases payload.len(),
{
    if payload.len() > PLAINTEXT_MSG && i > 0 {
        let rest = payload.skip(PLAINTEXT_MSG as int);
        lemma_slice_len(rest, i - 1);
        assert(slices(payload)[i] == slices(rest)[i - 1]);
    }
}

/// Every plaintext of a frame is short enough to be sealed and sent in one
/// message.
pub proof fn plaintexts_fit_a_message(payload: Seq<u8>, i: int)
    requires
        0 <= i < plaintexts(payload).len(),
        payload.len() <= MAX_FRAME,
    ensures
        plaintexts(payload)[i].len() + 16 <= MAX_SEALED,
{
    if i > 0 {
        lemma_slice_len(payload, i - 1);
        assert(plaintexts(payload)[i] == slices(payload)[i - 1]);
    } else {
        lemma_radix();
        le_round_trip(payload.len(), 4);
    }
}

/// A stream that begins with a plaintext frame never begins with the selector,
/// and the selector never announces a plaintext frame: neither side can take the other's transport
/// for its own, so security is not silently downgraded.
pub proof fn transports_are_not_confused(payload: Seq<u8>, rest: Seq<u8>)
    requires
        payload.len() <= MAX_FRAME,
    ensures
        !selector_text().is_prefix_of(le_bytes(payload.len() as u32 as nat, 4) + payload + rest),
        le_value(selector_text().take(4)) > MAX_FRAME,
{
    let s = selector_text();
    let head = s.take(4);
    assert(head =~= seq![83u8, 70u8, 65u8, 66u8]);
    reveal_with_fuel(le_value, 5);
    let h1 = head.drop_first();
    let h2 = h1.drop_first();
    let h3 = h2.drop_first();
    let h4 = h3.drop_first();
    assert(h1[0] == 70 && h2[0] == 65 && h3[0] == 66 && h4.len() == 0);
    assert(le_value(h4) == 0);
    assert(le_value(h3) == 66);
    assert(le_value(h2) == 65 + 256 * 66);
    assert(le_value(h1) == 70 + 256 * (65 + 256 * 66));
    assert(le_value(head) == 83 + 256 * (70 + 256 * (65 + 256 * 66)));
    let n = payload.len() as u32 as nat;
    lemma_radix();
    le_round_trip(n, 4);
    let f = le_bytes(n, 4) + payload + rest;
    if s.is_prefix_of(f) {
        assert(s.take(4) =~= f.take(4));
        assert(f.take(4) =~= le_bytes(n, 4));
    }
}

/// What a secured client sends first, byte by byte: "SFAB", version 2, mode 1.
pub proof fn selector_is_six_bytes()
    ensures
        selector_text() == seq![83u8, 70u8, 65u8, 66u8, 2u8, 1u8],
{
    assert(selector_text() =~= seq![83u8, 70u8, 65u8, 66u8, 2u8, 1u8]);
}

/// A frame is read from its plaintexts exactly as far as they fit: four bytes
/// of length within the cap first, then bytes up to that length; one byte too
/// many, and a plaintext without bytes, end it.
pub proof fn frames_are_read_as_announced(n: nat, out: Seq<u8>, p: Seq<u8>)
    ensures
        read_on(Reading::Header, p) is Ok <==> p.len() == 4 && le_value(p) <= 67_108_864,
        read_on(Reading::Header, p) is Ok ==> read_on(Reading::Header, p)->Ok_0 == Reading::Body(
            le_value(p),
            Seq::empty(),
        ),
        read_on(Reading::Body(n, out), p) is Ok <==> 0 < p.len() && out.len() + p.len() <= n,
        read_on(Reading::Body(n, out), p) is Ok ==> read_on(Reading::Body(n, out), p)->Ok_0
            == Reading::Body(n, out + p),
{
}

/// A frame travels as its length in four bytes, then its payload, no byte left
/// out, moved or sent twice.
pub proof fn frame_travels_whole(payload: Seq<u8>)
    ensures
        plaintexts(payload).len() > 0,
        plaintexts(payload)[0] == le_bytes(payload.len(), 4),
        plaintexts(payload).skip(1).flatten() == payload,
{
    assert(plaintexts(payload).skip(1) =~= slices(payload));
    lemma_slices_flatten(payload);
}

proof fn lemma_slices_flatten(payload: Seq<u8>)
    ensures
        slices(payload).flatten() == payload,
    decreases payload.len(),
{
    let ps = slices(payload);
    if payload.len() == 0 {
        assert(ps.flatten() =~= payload);
    } else if payload.len() <= PLAINTEXT_MSG {
        assert(ps.drop_first() =~= Seq::empty());
        assert(ps.drop_first().flatten() =~= Seq::empty());
        assert(ps.flatten() =~= payload);
    } else {
        let a = payload.take(PLAINTEXT_MSG as int);
        let b = payload.skip(PLAINTEXT_MSG as int);
        lemma_slices_flatten(b);
        assert(ps.drop_first() =~= slices(b));
        assert(ps.first() == a);
        assert(a + b =~= payload);
    }
}

/// Whoever does not hold the key gets no channel, and nothing that was not
/// sealed for this channel gets through it: a reply that the handshake does not
/// accept gives no channel, a first message that no handshake with this key
/// accepts is refused, and a message that the channel does not open is an
/// error, never a plaintext.
pub proof fn what_is_not_accepted_is_refused(
    ini: Initiator,
    reply: Seq<u8>,
    f: Result<Channel>,
    psk: Seq<u8>,
    first: Seq<u8>,
    s: Result<(Channel, Vec<u8>)>,
    before: Channel,
    msg: Seq<u8>,
    o: Result<Vec<u8>>,
    after: Channel,
)
    requires
        finished(ini, reply, f),
        responded(psk, first, s),
        opened(before, msg, o, after),
    ensures
        !ini.accepts(reply) ==> f is Err,
        f is Ok ==> f->Ok_0.session().psk == ini.session().psk && f->Ok_0.session().heard
            == ini.session().heard.push(reply),
        ini.accepts(reply) && reply.len() <= 1024 ==> f is Ok,
        (forall|hs: snow::HandshakeState|
            handshake_session(hs) == begun(psk, false) ==> !#[trigger] noise_accepts(hs, first))
            ==> s is Err,
        (forall|hs: snow::HandshakeState|
            handshake_session(hs) == begun(psk, false) ==> #[trigger] noise_accepts(hs, first))
            && first.len() <= 1024 ==> s is Ok,
        s is Ok ==> s->Ok_0.0.session().psk == psk && !s->Ok_0.0.session().initiates
            && s->Ok_0.0.session().heard == seq![first] && s->Ok_0.0.session().said == seq![
            s->Ok_0.1@,
        ],
        before.opens(msg) is None ==> o is Err,
        before.opens(msg) is Some && msg.len() <= 49_232 ==> o is Ok && Some(o->Ok_0@)
            == before.opens(msg),
        o is Err ==> after.got() == before.got(),
        o is Ok ==> after.got() == before.got().push(o->Ok_0@),
        after.sent() == before.sent() && after.session() == before.session(),
{
    if s is Ok {
        assert(s->Ok_0.0.session().heard =~= seq![first]);
        assert(s->Ok_0.0.session().said =~= seq![s->Ok_0.1@]);
    }
}

/// A handshake begins with the key it is given, on the side that speaks first,
/// and has said what it hands out.
pub proof fn handshake_begins_with_its_key(psk: Seq<u8>, r: Result<(Initiator, Vec<u8>)>)
    requires
        started(psk, r),
    ensures
        r is Ok,
        r->Ok_0.0.session().psk == psk,
        r->Ok_0.0.session().initiates,
        r->Ok_0.0.session().said == seq![r->Ok_0.1@],
        r->Ok_0.0.session().heard.len() == 0,
        r->Ok_0.0.session().protocol == "Noise_NNpsk0_25519_ChaChaPoly_BLAKE2s"@,
        r->Ok_0.1@.len() == 48,
{
    assert(r->Ok_0.0.session().said =~= seq![r->Ok_0.1@]);
}

/// A sealed frame is one message for each of its plaintexts, each sixteen bytes
/// longer, made in turn.
pub proof fn sealed_frame_is_one_message_each(
    session: Session,
    before: Seq<Seq<u8>>,
    payload: Seq<u8>,
    ms: Seq<Vec<u8>>,
    i: int,
)
    requires
        sealed_frame(session, before, payload, ms),
        0 <= i < ms.len(),
    ensures
        ms.len() == plaintexts(payload).len(),
        ms[i]@.len() == plaintexts(payload)[i].len() + 16,
        exists|t: snow::TransportState|
            transport_session(t) == session && transport_sealed(t) == before + plaintexts(
                payload,
            ).take(i) && ms[i]@ == #[trigger] noise_sealed(t, plaintexts(payload)[i]),
{
    assert(sealed_in_turn(
        session,
        before + plaintexts(payload).take(i),
        plaintexts(payload)[i],
        ms[i]@,
    ));
}

} // verus!
