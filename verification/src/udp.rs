//! Decisions of the UDP media transport: RTP/RTCP demultiplexing, routing of
//! SRTP, DTLS and STUN datagrams given what the room and session lookups
//! returned, the ICE username split, and the cadence of stale DTLS session
//! sweeps. The lookups, the cryptography and the socket stay with the caller.

use vstd::prelude::*;
use vstd::string::*;

verus! {

/// Number of received datagrams between two sweeps of stale DTLS sessions.
pub const STALE_SWEEP_INTERVAL: u64 = 1000;

/// RFC 5761 demultiplexing: an SRTP-path packet is RTCP when the low seven
/// bits of its second byte (the RTP payload-type field) are 72 to 79.
pub open spec fn is_rtcp_spec(buf: Seq<u8>) -> bool {
    buf.len() >= 2 && 72 <= buf[1] % 128 <= 79
}

/// Whether a packet on the SRTP path is RTCP (RFC 5761), which is not relayed.
pub fn is_rtcp(buf: &[u8]) -> (r: bool)
    ensures
        r == is_rtcp_spec(buf@),
{
    if buf.len() < 2 {
        return false;
    }
    let b = buf[1];
    assert(b & 0x7F == b % 128) by (bit_vector);
    let pt = b & 0x7F;
    72 <= pt && pt <= 79
}

/// The demultiplexing rule by payload-type byte: a packet is RTCP exactly
/// when its second byte is one of the RTCP packet types 200..=207 (SR, RR,
/// SDES, BYE, APP, RTPFB, PSFB, XR), which carry the top bit, or one of
/// 72..=79, the same types without it; every RTP payload type outside
/// 72..=79 is media, with or without the marker bit.
pub proof fn lemma_rtcp_types(buf: Seq<u8>)
    requires
        buf.len() >= 2,
    ensures
        is_rtcp_spec(buf) == ((200 <= buf[1] <= 207) || (72 <= buf[1] <= 79)),
{
}

/// Counts one more received datagram and says whether the stale DTLS
/// sessions are due for a sweep: on every `STALE_SWEEP_INTERVAL`-th one.
pub fn count_datagram(pkt_count: u64) -> (r: (u64, bool))
    requires
        pkt_count < u64::MAX,
    ensures
        r.0 == pkt_count + 1,
        r.1 == (r.0 % STALE_SWEEP_INTERVAL == 0),
{
    let next = pkt_count + 1;
    (next, next % STALE_SWEEP_INTERVAL == 0)
}

/// The server's ICE username fragment in a STUN USERNAME
/// `server_ufrag:client_ufrag`: everything before the first `:`, or the
/// whole username when there is none.
pub fn server_ufrag(username: &str) -> (r: &str)
    ensures
        r@ == username@.take(r@.len() as int),
        !r@.contains(':'),
        r@.len() == username@.len() || username@[r@.len() as int] == ':',
{
    let n = username.unicode_len();
    let mut i: usize = 0;
    while i < n
        invariant
            n == username@.len(),
            i <= n,
            forall|k: int| 0 <= k < i ==> username@[k] != ':',
        ensures
            i <= n,
            forall|k: int| 0 <= k < i ==> username@[k] != ':',
            i == n || username@[i as int] == ':',
        decreases n - i,
    {
        if username.get_char(i) == ':' {
            break;
        }
        i += 1;
    }
    let r = username.substring_char(0, i);
    assert(r@ =~= username@.take(i as int));
    assert(!r@.contains(':')) by {
        assert forall|k: int| 0 <= k < r@.len() implies r@[k] != ':' by {
            assert(r@[k] == username@[k]);
        }
    }
    r
}

/// What the SRTP path does with a datagram from a latched sender.
#[derive(Clone, Copy, PartialEq, Eq, Structural, Debug)]
pub enum SrtpRoute {
    /// The sender's DTLS handshake has not finished: drop.
    NotReady,
    /// SRTCP: decrypt and consume, never relay.
    Rtcp,
    /// SRTP media: decrypt and relay to the other participants.
    Rtp,
}

/// Routes a datagram on the SRTP path of a latched sender.
pub fn route_srtp(sender_media_ready: bool, buf: &[u8]) -> (r: SrtpRoute)
    ensures
        r == (if !sender_media_ready {
            SrtpRoute::NotReady
        } else if is_rtcp_spec(buf@) {
            SrtpRoute::Rtcp
        } else {
            SrtpRoute::Rtp
        }),
{
    if !sender_media_ready {
        SrtpRoute::NotReady
    } else if is_rtcp(buf) {
        SrtpRoute::Rtcp
    } else {
        SrtpRoute::Rtp
    }
}

/// Whether a room member receives a relayed packet: its media path is ready
/// and its address is known.
pub fn is_relay_target(media_ready: bool, has_address: bool) -> (r: bool)
    ensures
        r == (media_ready && has_address),
{
    media_ready && has_address
}

/// What the DTLS path does with a handshake datagram.
#[derive(Clone, Copy, PartialEq, Eq, Structural, Debug)]
pub enum DtlsRoute {
    /// An existing session took the datagram.
    Delivered,
    /// The sender is latched but has no session: start one, then deliver.
    StartSession,
    /// Unknown sender: drop.
    Drop,
}

/// Routes a DTLS datagram: to the running session if it accepted it, else to
/// a new session when the sender's address is latched to a participant.
pub fn route_dtls(delivered_to_session: bool, sender_latched: bool) -> (r: DtlsRoute)
    ensures
        r == (if delivered_to_session {
            DtlsRoute::Delivered
        } else if sender_latched {
            DtlsRoute::StartSession
        } else {
            DtlsRoute::Drop
        }),
{
    if delivered_to_session {
        DtlsRoute::Delivered
    } else if sender_latched {
        DtlsRoute::StartSession
    } else {
        DtlsRoute::Drop
    }
}

/// What the STUN path does with a Binding Request from a latched participant.
#[derive(Clone, Copy, PartialEq, Eq, Structural, Debug)]
pub enum StunReply {
    /// Not a Binding Request, or MESSAGE-INTEGRITY does not verify: no reply.
    Ignore,
    /// Send a Binding Success Response.
    Respond,
    /// Send the response and start the DTLS handshake (USE-CANDIDATE set and
    /// no session running for the address).
    RespondAndStartDtls,
}

/// Decides the reply to a STUN message whose USERNAME named a known
/// participant.
pub fn stun_reply(
    is_binding_request: bool,
    integrity_ok: bool,
    use_candidate: bool,
    dtls_session_running: bool,
) -> (r: StunReply)
    ensures
        r == (if !is_binding_request || !integrity_ok {
            StunReply::Ignore
        } else if use_candidate && !dtls_session_running {
            StunReply::RespondAndStartDtls
        } else {
            StunReply::Respond
        }),
{
    if !is_binding_request || !integrity_ok {
        StunReply::Ignore
    } else if use_candidate && !dtls_session_running {
        StunReply::RespondAndStartDtls
    } else {
        StunReply::Respond
    }
}

} // verus!
