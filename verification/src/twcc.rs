//! Transport-wide sequence numbers: extraction from the RTP one-byte header
//! extension (RFC 5285) and the per-publisher arrival recorder.

use vstd::prelude::*;

use crate::config::{RTCP_PT_RTPFB, RTP_HEADER_MIN_SIZE, TWCC_RECORDER_CAPACITY};

verus! {

// ============================================================================
// Byte-level helpers
// ============================================================================

/// The 16-bit big-endian value of the two bytes `hi`, `lo`.
pub open spec fn be16(hi: u8, lo: u8) -> u16 {
    (hi as int * 256 + lo as int) as u16
}

pub fn be16_exec(hi: u8, lo: u8) -> (r: u16)
    ensures
        r == be16(hi, lo),
{
    (hi as u16) * 256 + (lo as u16)
}

/// Forward distance from `from` to `to` on the 16-bit sequence-number circle.
pub open spec fn seq_distance(from: u16, to: u16) -> u16 {
    ((to as int - from as int) % 65536) as u16
}

/// `seq` plus `n` on the 16-bit sequence-number circle.
pub open spec fn seq_add(seq: u16, n: u16) -> u16 {
    ((seq as int + n as int) % 65536) as u16
}

/// `a` lies strictly ahead of `b`, less than half the circle away.
pub open spec fn seq_ahead(a: u16, b: u16) -> bool {
    0 < seq_distance(b, a) < 0x8000
}

// ============================================================================
// RTP header extension parsing
// ============================================================================

/// Result of walking the one-byte-header elements held in `buf[pos..end]`,
/// looking for the element with ID `id` that carries at least two bytes.
///
/// Each element starts with a byte `[ID:4 | L:4]` followed by `L + 1` data
/// bytes; a zero byte is padding, ID 15 terminates the list, and an element
/// running past `end` ends the walk.
pub open spec fn scan_elements(buf: Seq<u8>, pos: int, end: int, id: u8) -> Option<u16>
    decreases end - pos,
{
    if pos >= end {
        None
    } else {
        let b = buf[pos];
        if b == 0 {
            scan_elements(buf, pos + 1, end, id)
        } else {
            let eid = b / 16;
            let len = b % 16 + 1;
            if eid == 15 {
                None
            } else if pos + 1 + len > end {
                None
            } else if eid == id && len >= 2 {
                Some(be16(buf[pos + 1], buf[pos + 2]))
            } else {
                scan_elements(buf, pos + 1 + len, end, id)
            }
        }
    }
}

/// Offset of the header extension in an RTP packet whose first byte is `b0`:
/// the 12-byte fixed header followed by `CC` CSRC identifiers.
pub open spec fn extension_offset(b0: u8) -> int {
    12 + 4 * (b0 % 16) as int
}

/// The transport-wide sequence number carried by the RTP packet `buf` in the
/// one-byte-header extension element with ID `extmap_id`, if there is one.
pub open spec fn twcc_seq_of(buf: Seq<u8>, extmap_id: u8) -> Option<u16> {
    if buf.len() < RTP_HEADER_MIN_SIZE {
        None
    } else if (buf[0] / 16) % 2 == 0 {
        // X bit clear: no header extension
        None
    } else {
        let off = extension_offset(buf[0]);
        if buf.len() < off + 4 {
            None
        } else if be16(buf[off], buf[off + 1]) != 0xBEDE {
            None
        } else {
            let start = off + 4;
            let end = start + 4 * be16(buf[off + 2], buf[off + 3]) as int;
            if buf.len() < end {
                None
            } else {
                scan_elements(buf, start, end, extmap_id)
            }
        }
    }
}

/// Extracts the transport-wide sequence number from the header extension of
/// the RTP packet `buf` (header and payload), in the element whose ID is
/// `extmap_id`. Only the one-byte-header form (profile 0xBEDE) is read.
pub fn parse_twcc_seq(buf: &[u8], extmap_id: u8) -> (r: Option<u16>)
    ensures
        r == twcc_seq_of(buf@, extmap_id),
{
    if buf.len() < RTP_HEADER_MIN_SIZE {
        return None;
    }
    let b0 = buf[0];
    assert((b0 & 0x10 != 0) == ((b0 / 16) % 2 == 1)) by (bit_vector);
    assert(b0 & 0x0F == b0 % 16) by (bit_vector);
    let has_extension = (b0 & 0x10) != 0;
    if !has_extension {
        return None;
    }
    let cc = (b0 & 0x0F) as usize;
    let ext_offset = 12 + cc * 4;
    if buf.len() < ext_offset + 4 {
        return None;
    }
    let profile = be16_exec(buf[ext_offset], buf[ext_offset + 1]);
    let ext_len_words = be16_exec(buf[ext_offset + 2], buf[ext_offset + 3]) as usize;
    if profile != 0xBEDE {
        return None;
    }
    let ext_data_start = ext_offset + 4;
    let ext_data_end = ext_data_start + ext_len_words * 4;
    if buf.len() < ext_data_end {
        return None;
    }
    let mut pos = ext_data_start;
    while pos < ext_data_end
        invariant
            ext_data_start <= pos <= ext_data_end,
            ext_data_end <= buf.len(),
            scan_elements(buf@, pos as int, ext_data_end as int, extmap_id) == twcc_seq_of(
                buf@,
                extmap_id,
            ),
        decreases ext_data_end - pos,
    {
        let byte = buf[pos];
        if byte == 0 {
            pos += 1;
            continue;
        }
        assert((byte >> 4) & 0x0F == byte / 16) by (bit_vector);
        assert(byte & 0x0F == byte % 16) by (bit_vector);
        let id = (byte >> 4) & 0x0F;
        let len = (byte & 0x0F) as usize + 1;
        if id == 15 {
            return None;
        }
        pos += 1;
        if len > ext_data_end - pos {
            return None;
        }
        if id == extmap_id && len >= 2 {
            let twcc_seq = be16_exec(buf[pos], buf[pos + 1]);
            return Some(twcc_seq);
        }
        pos += len;
    }
    None
}


// ============================================================================
// TwccRecorder — arrival ring buffer
// ============================================================================

/// One recorded arrival: the transport-wide sequence number and the arrival
/// time, in nanoseconds of a monotonic clock.
#[derive(Clone, Copy, PartialEq, Eq, Debug)]
pub struct ArrivalEntry {
    pub twcc_seq: u16,
    pub arrival: u64,
}

/// Per-publisher recorder of arrival times, indexed by transport-wide
/// sequence number in a ring buffer of `TWCC_RECORDER_CAPACITY` slots.
/// `build_twcc_feedback` turns the pending window
/// `[pending_base_seq, max_seq]` into a TWCC feedback packet.
pub struct TwccRecorder {
    /// Slot `twcc_seq % capacity` holds the last arrival recorded there.
    arrivals: Vec<Option<ArrivalEntry>>,
    capacity: usize,
    /// First sequence number not yet covered by a feedback packet.
    pub pending_base_seq: u16,
    /// Largest (wrap-aware) sequence number recorded so far.
    pub max_seq: u16,
    /// Whether any packet has been recorded.
    pub started: bool,
    /// Number of packets recorded.
    pub count: u64,
    /// Arrival time of the first recorded packet (reference for feedback).
    pub base_time: Option<u64>,
    /// Counter of emitted feedback packets (8-bit, wrapping).
    pub fb_pkt_count: u8,
}

/// Ring-buffer slot of a sequence number.
pub open spec fn slot_index(seq: u16) -> int {
    seq as int % TWCC_RECORDER_CAPACITY as int
}

/// Abstract state of a `TwccRecorder`.
pub struct RecorderView {
    pub slots: Seq<Option<ArrivalEntry>>,
    pub pending_base_seq: u16,
    pub max_seq: u16,
    pub started: bool,
    pub count: u64,
    pub base_time: Option<u64>,
    pub fb_pkt_count: u8,
}

impl RecorderView {
    /// The state of a new recorder: every slot empty, nothing started.
    pub open spec fn empty() -> RecorderView {
        RecorderView {
            slots: Seq::new(TWCC_RECORDER_CAPACITY as nat, |i: int| None),
            pending_base_seq: 0,
            max_seq: 0,
            started: false,
            count: 0,
            base_time: None,
            fb_pkt_count: 0,
        }
    }

    /// The arrival recorded for `seq`, if its slot still holds it.
    pub open spec fn arrival_of(self, seq: u16) -> Option<ArrivalEntry> {
        let e = self.slots[slot_index(seq)];
        if e matches Some(entry) && entry.twcc_seq == seq {
            e
        } else {
            None
        }
    }

    /// Number of sequence numbers in the pending window.
    pub open spec fn pending_count(self) -> u16 {
        if !self.started {
            0
        } else {
            seq_add(seq_distance(self.pending_base_seq, self.max_seq), 1)
        }
    }

    /// The state after recording that packet `seq` arrived at `arrival`: the
    /// slot of `seq` holds the new entry, the count grows by one, the first
    /// packet opens the window and sets the time reference, and a later packet
    /// becomes `max_seq` when it lies ahead of it.
    pub open spec fn after_record(self, seq: u16, arrival: u64) -> RecorderView {
        RecorderView {
            slots: self.slots.update(slot_index(seq), Some(ArrivalEntry { twcc_seq: seq, arrival })),
            pending_base_seq: if self.started { self.pending_base_seq } else { seq },
            max_seq: if !self.started || seq_ahead(seq, self.max_seq) { seq } else { self.max_seq },
            started: true,
            count: (self.count + 1) as u64,
            base_time: if self.started { self.base_time } else { Some(arrival) },
            fb_pkt_count: self.fb_pkt_count,
        }
    }

    /// The same state with the pending window starting at `base`.
    pub open spec fn with_base(self, base: u16) -> RecorderView {
        RecorderView { pending_base_seq: base, ..self }
    }
}

impl View for TwccRecorder {
    type V = RecorderView;

    closed spec fn view(&self) -> RecorderView {
        RecorderView {
            slots: self.arrivals@,
            pending_base_seq: self.pending_base_seq,
            max_seq: self.max_seq,
            started: self.started,
            count: self.count,
            base_time: self.base_time,
            fb_pkt_count: self.fb_pkt_count,
        }
    }
}

impl TwccRecorder {
    /// The ring buffer has exactly `TWCC_RECORDER_CAPACITY` slots.
    pub closed spec fn wf(&self) -> bool {
        &&& self.capacity == TWCC_RECORDER_CAPACITY
        &&& self.arrivals@.len() == TWCC_RECORDER_CAPACITY
    }

    /// An empty recorder: every slot empty, nothing started.
    pub fn new() -> (r: Self)
        ensures
            r.wf(),
            r@ == RecorderView::empty(),
    {
        let mut arrivals: Vec<Option<ArrivalEntry>> = Vec::with_capacity(TWCC_RECORDER_CAPACITY);
        let mut i: usize = 0;
        while i < TWCC_RECORDER_CAPACITY
            invariant
                i <= TWCC_RECORDER_CAPACITY,
                arrivals@.len() == i,
                forall|j: int| 0 <= j < i ==> #[trigger] arrivals@[j] is None,
            decreases TWCC_RECORDER_CAPACITY - i,
        {
            arrivals.push(None);
            i += 1;
        }
        assert(arrivals@ =~= Seq::new(TWCC_RECORDER_CAPACITY as nat, |i: int| None));
        TwccRecorder {
            arrivals,
            capacity: TWCC_RECORDER_CAPACITY,
            pending_base_seq: 0,
            max_seq: 0,
            started: false,
            count: 0,
            base_time: None,
            fb_pkt_count: 0,
        }
    }

    /// Records that packet `twcc_seq` arrived at `arrival` (nanoseconds).
    /// The first recorded packet opens the pending window and sets the time
    /// reference; later ones move `max_seq` forward when they lie ahead of it.
    pub fn record(&mut self, twcc_seq: u16, arrival: u64)
        requires
            old(self).wf(),
            old(self)@.count < u64::MAX,
        ensures
            final(self).wf(),
            final(self)@ == old(self)@.after_record(twcc_seq, arrival),
    {
        let idx = (twcc_seq as usize) % self.capacity;
        self.arrivals.set(idx, Some(ArrivalEntry { twcc_seq, arrival }));
        self.count += 1;
        if !self.started {
            self.started = true;
            self.pending_base_seq = twcc_seq;
            self.max_seq = twcc_seq;
            self.base_time = Some(arrival);
        } else {
            let diff = twcc_seq.wrapping_sub(self.max_seq);
            if diff > 0 && diff < 0x8000 {
                self.max_seq = twcc_seq;
            }
        }
    }

    /// The arrival recorded for `twcc_seq`, if its slot still holds it.
    pub fn get(&self, twcc_seq: u16) -> (r: Option<&ArrivalEntry>)
        requires
            self.wf(),
        ensures
            match r {
                Some(e) => self@.arrival_of(twcc_seq) == Some(*e),
                None => self@.arrival_of(twcc_seq) is None,
            },
    {
        let idx = (twcc_seq as usize) % self.capacity;
        match &self.arrivals[idx] {
            Some(e) => {
                if e.twcc_seq == twcc_seq {
                    Some(e)
                } else {
                    None
                }
            },
            None => None,
        }
    }

    /// First sequence number not yet covered by a feedback packet.
    pub fn pending_base_seq(&self) -> (r: u16)
        ensures
            r == self@.pending_base_seq,
    {
        self.pending_base_seq
    }

    /// Largest (wrap-aware) sequence number recorded so far.
    pub fn max_seq(&self) -> (r: u16)
        ensures
            r == self@.max_seq,
    {
        self.max_seq
    }

    /// Whether any packet has been recorded.
    pub fn started(&self) -> (r: bool)
        ensures
            r == self@.started,
    {
        self.started
    }

    /// Number of packets recorded.
    pub fn count(&self) -> (r: u64)
        ensures
            r == self@.count,
    {
        self.count
    }

    /// Arrival time of the first recorded packet.
    pub fn base_time(&self) -> (r: Option<u64>)
        ensures
            r == self@.base_time,
    {
        self.base_time
    }

    /// Number of feedback packets emitted, modulo 256.
    pub fn fb_pkt_count(&self) -> (r: u8)
        ensures
            r == self@.fb_pkt_count,
    {
        self.fb_pkt_count
    }

    /// Moves the start of the pending window to `new_base`.
    pub fn advance_base(&mut self, new_base: u16)
        ensures
            final(self)@ == old(self)@.with_base(new_base),
            final(self).wf() == old(self).wf(),
    {
        self.pending_base_seq = new_base;
    }

    /// Number of sequence numbers in the pending window
    /// `[pending_base_seq, max_seq]`; zero before the first packet.
    pub fn pending_count(&self) -> (r: u16)
        ensures
            r == self@.pending_count(),
    {
        if !self.started {
            return 0;
        }
        self.max_seq.wrapping_sub(self.pending_base_seq).wrapping_add(1)
    }
}


impl Default for TwccRecorder {
    fn default() -> (r: Self)
        ensures
            r.wf(),
            r@ == RecorderView::empty(),
    {
        Self::new()
    }
}

// ============================================================================
// TWCC feedback encoding (draft-holmer-rmcat-transport-wide-cc-extensions)
// ============================================================================

/// Reception status of one packet in a feedback window (2-bit symbol).
#[derive(Clone, Copy, PartialEq, Eq, Structural, Debug)]
pub enum PacketStatus {
    NotReceived,
    SmallDelta,
    LargeDelta,
}

/// The 2-bit symbol of a status: 0 not received, 1 small delta, 2 large delta.
pub open spec fn symbol(s: PacketStatus) -> u16 {
    match s {
        PacketStatus::NotReceived => 0,
        PacketStatus::SmallDelta => 1,
        PacketStatus::LargeDelta => 2,
    }
}

pub fn symbol_exec(s: PacketStatus) -> (r: u16)
    ensures
        r == symbol(s),
{
    match s {
        PacketStatus::NotReceived => 0,
        PacketStatus::SmallDelta => 1,
        PacketStatus::LargeDelta => 2,
    }
}

/// Symbol of position `i`; positions past the end are padding (not received).
pub open spec fn symbol_at(statuses: Seq<PacketStatus>, i: int) -> int {
    if 0 <= i < statuses.len() {
        symbol(statuses[i]) as int
    } else {
        0
    }
}

/// Chunk `c` of the 2-bit status vector encoding: bits 15-14 are `11`
/// (status vector, 2-bit symbols) and bits 13-0 hold the symbols of positions
/// `7c .. 7c + 6`, the first one in the most significant pair.
pub open spec fn status_chunk(statuses: Seq<PacketStatus>, c: int) -> u16 {
    let b = 7 * c;
    (0xC000 + symbol_at(statuses, b) * 4096 + symbol_at(statuses, b + 1) * 1024 + symbol_at(
        statuses,
        b + 2,
    ) * 256 + symbol_at(statuses, b + 3) * 64 + symbol_at(statuses, b + 4) * 16 + symbol_at(
        statuses,
        b + 5,
    ) * 4 + symbol_at(statuses, b + 6)) as u16
}

/// Number of chunks needed for `n` statuses: seven symbols per chunk.
pub open spec fn num_chunks(n: nat) -> nat {
    (n + 6) / 7
}

/// The status vector chunks encoding `statuses`.
pub open spec fn status_chunks(statuses: Seq<PacketStatus>) -> Seq<u16> {
    Seq::new(num_chunks(statuses.len()), |c: int| status_chunk(statuses, c))
}

fn symbol_in(statuses: &[PacketStatus], base: usize, slot: usize) -> (r: u16)
    ensures
        r == symbol_at(statuses@, base + slot),
{
    if base < statuses.len() && slot < statuses.len() - base {
        symbol_exec(statuses[base + slot])
    } else {
        0
    }
}

/// Encodes packet statuses as 2-bit status vector chunks, seven symbols per
/// chunk, padding the last chunk with "not received".
pub fn encode_status_chunks(statuses: &[PacketStatus]) -> (chunks: Vec<u16>)
    ensures
        chunks@ == status_chunks(statuses@),
{
    let n = statuses.len();
    let n_chunks = n / 7 + if n % 7 == 0 { 0 } else { 1 };
    assert(n_chunks == num_chunks(n as nat));
    let mut chunks: Vec<u16> = Vec::new();
    let mut c: usize = 0;
    while c < n_chunks
        invariant
            n == statuses@.len(),
            n_chunks == num_chunks(n as nat),
            c <= n_chunks,
            chunks@.len() == c,
            forall|k: int| 0 <= k < c ==> #[trigger] chunks@[k] == status_chunk(statuses@, k),
        decreases n_chunks - c,
    {
        let base = c * 7;
        let chunk: u16 = 0xC000 + symbol_in(statuses, base, 0) * 4096 + symbol_in(statuses, base, 1)
            * 1024 + symbol_in(statuses, base, 2) * 256 + symbol_in(statuses, base, 3) * 64
            + symbol_in(statuses, base, 4) * 16 + symbol_in(statuses, base, 5) * 4 + symbol_in(
            statuses,
            base,
            6,
        );
        chunks.push(chunk);
        c += 1;
    }
    assert(chunks@ =~= status_chunks(statuses@));
    chunks
}


/// `v` limited to `[lo, hi]`.
pub open spec fn clamp(v: int, lo: int, hi: int) -> int {
    if v < lo {
        lo
    } else if v > hi {
        hi
    } else {
        v
    }
}

/// The two bytes, big-endian, of the 16-bit two's complement form of `v`.
pub open spec fn be16_bytes(v: int) -> Seq<u8> {
    seq![((v % 65536) / 256) as u8, (v % 256) as u8]
}

/// The receive-delta bytes of one received packet: a small delta is one
/// unsigned byte, a large delta two signed bytes (both in 250 µs units).
pub open spec fn delta_field(status: PacketStatus, d: i64) -> Seq<u8> {
    match status {
        PacketStatus::SmallDelta => seq![clamp(d as int, 0, 255) as u8],
        PacketStatus::LargeDelta => be16_bytes(clamp(d as int, -8192, 8191)),
        PacketStatus::NotReceived => Seq::empty(),
    }
}

/// The receive-delta bytes of the first `n` statuses, and how many deltas
/// they used: each received status takes the next delta, while any remain.
pub open spec fn recv_delta_prefix(statuses: Seq<PacketStatus>, deltas: Seq<i64>, n: nat) -> (
    Seq<u8>,
    nat,
)
    decreases n,
{
    if n == 0 {
        (Seq::empty(), 0)
    } else {
        let (bytes, used) = recv_delta_prefix(statuses, deltas, (n - 1) as nat);
        let s = statuses[n - 1];
        if s is NotReceived || used >= deltas.len() {
            (bytes, used)
        } else {
            (bytes + delta_field(s, deltas[used as int]), used + 1)
        }
    }
}

/// The receive-delta bytes of a whole feedback window.
pub open spec fn recv_delta_bytes(statuses: Seq<PacketStatus>, deltas: Seq<i64>) -> Seq<u8> {
    recv_delta_prefix(statuses, deltas, statuses.len()).0
}

/// Each status contributes at most two bytes and uses at most one delta.
pub proof fn lemma_recv_delta_prefix_len(statuses: Seq<PacketStatus>, deltas: Seq<i64>, n: nat)
    requires
        n <= statuses.len(),
    ensures
        recv_delta_prefix(statuses, deltas, n).0.len() <= 2 * n,
        recv_delta_prefix(statuses, deltas, n).1 <= n,
        recv_delta_prefix(statuses, deltas, n).1 <= deltas.len(),
    decreases n,
{
    if n > 0 {
        lemma_recv_delta_prefix_len(statuses, deltas, (n - 1) as nat);
    }
}

/// Encodes the receive deltas: for each received status in order, the next
/// delta as one unsigned byte (small, clamped to 0..=255) or two signed
/// big-endian bytes (large, clamped to -8192..=8191).
pub fn encode_recv_deltas(statuses: &[PacketStatus], deltas: &[i64]) -> (bytes: Vec<u8>)
    ensures
        bytes@ == recv_delta_bytes(statuses@, deltas@),
{
    let mut bytes: Vec<u8> = Vec::new();
    let mut delta_idx: usize = 0;
    let mut i: usize = 0;
    while i < statuses.len()
        invariant
            i <= statuses@.len(),
            recv_delta_prefix(statuses@, deltas@, i as nat) == (bytes@, delta_idx as nat),
        decreases statuses.len() - i,
    {
        proof {
            lemma_recv_delta_prefix_len(statuses@, deltas@, i as nat);
        }
        match statuses[i] {
            PacketStatus::SmallDelta => {
                if delta_idx < deltas.len() {
                    let v = deltas[delta_idx];
                    let d: u8 = if v < 0 {
                        0
                    } else if v > 255 {
                        255
                    } else {
                        v as u8
                    };
                    bytes.push(d);
                    delta_idx += 1;
                }
            },
            PacketStatus::LargeDelta => {
                if delta_idx < deltas.len() {
                    let v = deltas[delta_idx];
                    let d: i64 = if v < -8192 {
                        -8192
                    } else if v > 8191 {
                        8191
                    } else {
                        v
                    };
                    let u: u16 = if d >= 0 {
                        d as u16
                    } else {
                        (d + 65536) as u16
                    };
                    bytes.push((u / 256) as u8);
                    bytes.push((u % 256) as u8);
                    delta_idx += 1;
                }
            },
            PacketStatus::NotReceived => {},
        }
        i += 1;
        assert(recv_delta_prefix(statuses@, deltas@, i as nat) == (bytes@, delta_idx as nat));
    }
    assert(statuses@.len() == i);
    bytes
}


/// The bytes, big-endian, of a 32-bit value.
pub open spec fn be32_bytes(v: u32) -> Seq<u8> {
    seq![
        (v / 16777216) as u8,
        ((v / 65536) % 256) as u8,
        ((v / 256) % 256) as u8,
        (v % 256) as u8,
    ]
}

/// The chunks, each as two big-endian bytes.
pub open spec fn chunk_bytes(chunks: Seq<u16>) -> Seq<u8>
    decreases chunks.len(),
{
    if chunks.len() == 0 {
        Seq::empty()
    } else {
        chunk_bytes(chunks.drop_last()) + be16_bytes(chunks.last() as int)
    }
}

pub proof fn lemma_chunk_bytes_len(chunks: Seq<u16>)
    ensures
        chunk_bytes(chunks).len() == 2 * chunks.len(),
    decreases chunks.len(),
{
    if chunks.len() > 0 {
        lemma_chunk_bytes_len(chunks.drop_last());
    }
}

/// Length of a feedback packet before padding: the 20-byte fixed header
/// (RTCP header, sender and media SSRC, base sequence number and status
/// count, reference time and feedback count), two bytes per status chunk,
/// and the receive-delta bytes.
pub open spec fn feedback_body_len(n_chunks: nat, n_delta_bytes: nat) -> nat {
    20 + 2 * n_chunks + n_delta_bytes
}

/// `n` rounded up to a multiple of four.
pub open spec fn round_up4(n: nat) -> nat {
    (n + 3) / 4 * 4
}

/// The TWCC feedback RTCP packet (V=2, FMT=15, PT=205): RTCP header with the
/// padding bit and the length field (length in 32-bit words minus one),
/// sender SSRC 1, media SSRC, base sequence number, packet status count,
/// 24-bit reference time, feedback packet count, status chunks and receive
/// deltas, then `pad` padding bytes that round the packet up to a multiple of
/// four: zero, except the last, which holds `pad` (RFC 3550). The padding bit
/// is set exactly when `pad` is not zero.
#[verifier::opaque]
pub open spec fn feedback_packet(
    media_ssrc: u32,
    base_seq: u16,
    status_count: u16,
    reference_time: u32,
    fb_count: u8,
    chunks: Seq<u16>,
    delta_bytes: Seq<u8>,
) -> Seq<u8> {
    let body_len = feedback_body_len(chunks.len(), delta_bytes.len());
    let padded = round_up4(body_len);
    let pad = padded - body_len;
    let byte0: u8 = if pad > 0 { 0xAF } else { 0x8F };
    let head = seq![byte0, RTCP_PT_RTPFB] + be16_bytes(padded / 4 - 1) + be32_bytes(1) + be32_bytes(
        media_ssrc,
    ) + be16_bytes(base_seq as int) + be16_bytes(status_count as int) + seq![
        (reference_time / 65536) as u8,
        ((reference_time / 256) % 256) as u8,
        (reference_time % 256) as u8,
        fb_count,
    ];
    let tail = if pad > 0 {
        Seq::new((pad - 1) as nat, |i: int| 0u8) + seq![pad as u8]
    } else {
        Seq::empty()
    };
    head + chunk_bytes(chunks) + delta_bytes + tail
}

fn push_be16(buf: &mut Vec<u8>, v: u16)
    ensures
        final(buf)@ == old(buf)@ + be16_bytes(v as int),
{
    buf.push((v / 256) as u8);
    buf.push((v % 256) as u8);
    assert(final(buf)@ =~= old(buf)@ + be16_bytes(v as int));
}

fn push_be32(buf: &mut Vec<u8>, v: u32)
    ensures
        final(buf)@ == old(buf)@ + be32_bytes(v),
{
    buf.push((v / 16777216) as u8);
    buf.push(((v / 65536) % 256) as u8);
    buf.push(((v / 256) % 256) as u8);
    buf.push((v % 256) as u8);
    assert(final(buf)@ =~= old(buf)@ + be32_bytes(v));
}

/// Assembles the feedback packet from its fields.
fn assemble_feedback(
    media_ssrc: u32,
    base_seq: u16,
    status_count: u16,
    reference_time: u32,
    fb_count: u8,
    chunks: &Vec<u16>,
    delta_bytes: &Vec<u8>,
) -> (buf: Vec<u8>)
    requires
        reference_time < 0x1000000,
        chunks.len() <= 2048,
        delta_bytes.len() <= 16384,
    ensures
        buf@ == feedback_packet(
            media_ssrc,
            base_seq,
            status_count,
            reference_time,
            fb_count,
            chunks@,
            delta_bytes@,
        ),
{
    reveal(feedback_packet);
    let body_len = 20 + chunks.len() * 2 + delta_bytes.len();
    let total_len = (body_len + 3) / 4 * 4;
    let need_padding = total_len > body_len;
    let mut buf: Vec<u8> = Vec::with_capacity(total_len);
    let byte0: u8 = if need_padding { 0xAF } else { 0x8F };
    buf.push(byte0);
    buf.push(RTCP_PT_RTPFB);
    push_be16(&mut buf, (total_len / 4 - 1) as u16);
    push_be32(&mut buf, 1);
    push_be32(&mut buf, media_ssrc);
    push_be16(&mut buf, base_seq);
    push_be16(&mut buf, status_count);
    buf.push((reference_time / 65536) as u8);
    buf.push(((reference_time / 256) % 256) as u8);
    buf.push((reference_time % 256) as u8);
    buf.push(fb_count);
    let ghost head = buf@;
    assert(head =~= seq![byte0, RTCP_PT_RTPFB] + be16_bytes((total_len / 4 - 1) as int) + be32_bytes(
        1,
    ) + be32_bytes(media_ssrc) + be16_bytes(base_seq as int) + be16_bytes(status_count as int)
        + seq![
        (reference_time / 65536) as u8,
        ((reference_time / 256) % 256) as u8,
        (reference_time % 256) as u8,
        fb_count,
    ]);
    let mut k: usize = 0;
    while k < chunks.len()
        invariant
            k <= chunks@.len(),
            buf@ == head + chunk_bytes(chunks@.take(k as int)),
        decreases chunks.len() - k,
    {
        push_be16(&mut buf, chunks[k]);
        assert(chunks@.take(k + 1).drop_last() =~= chunks@.take(k as int));
        k += 1;
    }
    assert(chunks@.take(k as int) =~= chunks@);
    let ghost with_chunks = buf@;
    let mut j: usize = 0;
    while j < delta_bytes.len()
        invariant
            j <= delta_bytes@.len(),
            buf@ == with_chunks + delta_bytes@.take(j as int),
        decreases delta_bytes.len() - j,
    {
        buf.push(delta_bytes[j]);
        assert(delta_bytes@.take(j + 1) =~= delta_bytes@.take(j as int).push(delta_bytes@[j as int]));
        j += 1;
    }
    assert(delta_bytes@.take(j as int) =~= delta_bytes@);
    let ghost content = buf@;
    proof {
        lemma_chunk_bytes_len(chunks@);
    }
    assert(content.len() == body_len);
    while buf.len() < total_len
        invariant
            content.len() == body_len,
            body_len <= buf@.len() <= total_len,
            buf@ == content + Seq::new((buf@.len() - body_len) as nat, |i: int| 0u8),
        decreases total_len - buf.len(),
    {
        let ghost before = buf@;
        buf.push(0);
        assert(buf@ =~= content + Seq::new((buf@.len() - body_len) as nat, |i: int| 0u8));
    }
    if need_padding {
        let pad_count = total_len - body_len;
        let last = buf.len() - 1;
        buf.set(last, pad_count as u8);
        assert(buf@ =~= content + (Seq::new((pad_count - 1) as nat, |i: int| 0u8) + seq![
            pad_count as u8,
        ]));
    } else {
        assert(buf@ =~= content + Seq::<u8>::empty());
    }
    buf
}


// ============================================================================
// Feedback window analysis
// ============================================================================

/// Time from `from` to `to` (nanoseconds) in 250 µs units, signed: the
/// magnitude in whole microseconds, divided by 250 and rounded down.
pub open spec fn delta_250us(from: u64, to: u64) -> i64 {
    if to >= from {
        ((to - from) / 1000 / 250) as i64
    } else {
        (-((from - to) / 1000 / 250)) as i64
    }
}

/// Offset of `at` from the time reference `base` (nanoseconds) in 250 µs
/// units, from whole microseconds, rounded down; zero when `at` is earlier than `base`.
pub open spec fn offset_250us(base: u64, at: u64) -> int {
    if at >= base {
        (at - base) / 1000 / 250
    } else {
        0
    }
}

/// Delta of the first received packet of a window: its offset from the
/// reference time, which is the offset rounded down to a multiple of 256.
pub open spec fn first_delta(base: u64, at: u64) -> i64 {
    (offset_250us(base, at) % 256) as i64
}

/// The 24-bit reference time (64 ms units) of a window whose first received
/// packet arrived at `first`.
pub open spec fn reference_time(base: u64, first: u64) -> int {
    (offset_250us(base, first) / 256) % 0x1000000
}

/// Status of a received packet with delta `d`: small when it fits in one
/// unsigned byte, large otherwise.
pub open spec fn classify_delta(d: i64) -> PacketStatus {
    if 0 <= d <= 255 {
        PacketStatus::SmallDelta
    } else {
        PacketStatus::LargeDelta
    }
}

/// Arrival time of the last received packet among the first `n` of a window.
pub open spec fn last_received(arr: Seq<Option<u64>>, n: int) -> Option<u64>
    decreases n,
{
    if n <= 0 {
        None
    } else if arr[n - 1] is Some {
        arr[n - 1]
    } else {
        last_received(arr, n - 1)
    }
}

/// Arrival time of the first received packet among the first `n` of a window.
pub open spec fn first_received(arr: Seq<Option<u64>>, n: int) -> Option<u64>
    decreases n,
{
    if n <= 0 {
        None
    } else {
        match first_received(arr, n - 1) {
            Some(a) => Some(a),
            None => arr[n - 1],
        }
    }
}

/// Delta of received position `i`: from the previous received packet, or,
/// for the first one, from the reference time.
pub open spec fn slot_delta(arr: Seq<Option<u64>>, base: u64, i: int) -> i64 {
    match last_received(arr, i) {
        Some(prev) => delta_250us(prev, arr[i]->0),
        None => first_delta(base, arr[i]->0),
    }
}

/// Status of position `i` of a window.
pub open spec fn slot_status(arr: Seq<Option<u64>>, base: u64, i: int) -> PacketStatus {
    match arr[i] {
        None => PacketStatus::NotReceived,
        Some(_) => classify_delta(slot_delta(arr, base, i)),
    }
}

/// Statuses of all positions of a window.
pub open spec fn window_statuses(arr: Seq<Option<u64>>, base: u64) -> Seq<PacketStatus> {
    Seq::new(arr.len(), |i: int| slot_status(arr, base, i))
}

/// Deltas of the received packets among the first `n` positions, in order.
pub open spec fn received_deltas(arr: Seq<Option<u64>>, base: u64, n: int) -> Seq<i64>
    decreases n,
{
    if n <= 0 {
        Seq::empty()
    } else if arr[n - 1] is Some {
        received_deltas(arr, base, n - 1).push(slot_delta(arr, base, n - 1))
    } else {
        received_deltas(arr, base, n - 1)
    }
}

impl RecorderView {
    /// Arrival times of the pending window `[pending_base_seq, max_seq]`:
    /// position `i` holds the arrival of `pending_base_seq + i`, if recorded.
    #[verifier::opaque]
    pub open spec fn window_arrivals(self) -> Seq<Option<u64>> {
        Seq::new(
            self.pending_count() as nat,
            |i: int|
                match self.arrival_of(seq_add(self.pending_base_seq, i as u16)) {
                    Some(e) => Some(e.arrival),
                    None => None,
                },
        )
    }

    /// A feedback packet can be considered: packets were recorded, the
    /// pending window is not empty and the time reference is set.
    pub open spec fn feedback_ready(self) -> bool {
        self.started && self.pending_count() != 0 && self.base_time is Some
    }

    /// The pending window is larger than the ring buffer.
    pub open spec fn window_too_large(self) -> bool {
        self.pending_count() > TWCC_RECORDER_CAPACITY
    }

    /// Some packet of the pending window was received.
    pub open spec fn window_has_arrival(self) -> bool {
        first_received(self.window_arrivals(), self.pending_count() as int) is Some
    }

    /// The feedback packet for the pending window, sent for media source
    /// `media_ssrc`, or `None` when no feedback is due.
    pub open spec fn feedback(self, media_ssrc: u32) -> Option<Seq<u8>> {
        if !self.feedback_ready() || self.window_too_large() || !self.window_has_arrival() {
            None
        } else {
            let arr = self.window_arrivals();
            let base = self.base_time->0;
            let first = first_received(arr, arr.len() as int)->0;
            let statuses = window_statuses(arr, base);
            Some(
                feedback_packet(
                    media_ssrc,
                    self.pending_base_seq,
                    self.pending_count(),
                    reference_time(base, first) as u32,
                    self.fb_pkt_count,
                    status_chunks(statuses),
                    recv_delta_bytes(statuses, received_deltas(arr, base, arr.len() as int)),
                ),
            )
        }
    }

    /// The recorder state after a feedback attempt: an emitted packet moves
    /// the window past `max_seq` and counts the packet; an oversized window
    /// is cut to restart 100 before `max_seq`; otherwise nothing changes.
    pub open spec fn after_feedback(self) -> RecorderView {
        if !self.feedback_ready() {
            self
        } else if self.window_too_large() {
            self.with_base(seq_distance(100, self.max_seq))
        } else if !self.window_has_arrival() {
            self
        } else {
            RecorderView {
                pending_base_seq: seq_add(self.pending_base_seq, self.pending_count()),
                fb_pkt_count: ((self.fb_pkt_count + 1) % 256) as u8,
                ..self
            }
        }
    }
}

/// Statuses, receive deltas and first arrival of the pending window.
fn analyze_window(recorder: &TwccRecorder, base_time: u64) -> (r: (
    Vec<PacketStatus>,
    Vec<i64>,
    Option<u64>,
))
    requires
        recorder.wf(),
        recorder@.base_time == Some(base_time),
        recorder@.pending_count() <= TWCC_RECORDER_CAPACITY,
    ensures
        recorder@.window_arrivals().len() == recorder@.pending_count(),
        r.0@ == window_statuses(recorder@.window_arrivals(), base_time),
        r.1@ == received_deltas(
            recorder@.window_arrivals(),
            base_time,
            recorder@.pending_count() as int,
        ),
        r.2 == first_received(recorder@.window_arrivals(), recorder@.pending_count() as int),
{
    let base_seq = recorder.pending_base_seq;
    let pkt_status_count = recorder.pending_count();
    let ghost view = recorder@;
    let ghost arr = view.window_arrivals();
    proof {
        reveal(RecorderView::window_arrivals);
    }
    assert(arr.len() == pkt_status_count);
    let mut statuses: Vec<PacketStatus> = Vec::with_capacity(pkt_status_count as usize);
    let mut deltas: Vec<i64> = Vec::new();
    let mut first_arrival: Option<u64> = None;
    let mut prev_arrival: Option<u64> = None;
    let mut i: u16 = 0;
    while i < pkt_status_count
        invariant
            recorder.wf(),
            recorder@ == view,
            arr == view.window_arrivals(),
            view.base_time == Some(base_time),
            view.pending_base_seq == base_seq,
            pkt_status_count == view.pending_count(),
            pkt_status_count <= TWCC_RECORDER_CAPACITY,
            arr.len() == pkt_status_count,
            i <= pkt_status_count,
            statuses@.len() == i,
            forall|k: int| 0 <= k < i ==> #[trigger] statuses@[k] == slot_status(arr, base_time, k),
            deltas@ == received_deltas(arr, base_time, i as int),
            prev_arrival == last_received(arr, i as int),
            first_arrival == first_received(arr, i as int),
        decreases pkt_status_count - i,
    {
        proof {
            reveal(RecorderView::window_arrivals);
        }
        let seq = base_seq.wrapping_add(i);
        assert(seq == seq_add(base_seq, i));
        match recorder.get(seq) {
            Some(entry) => {
                let arrival = entry.arrival;
                assert(arr[i as int] == Some(arrival));
                let delta_250us: i64 = match prev_arrival {
                    Some(prev) => {
                        if arrival >= prev {
                            ((arrival - prev) / 1000 / 250) as i64
                        } else {
                            -(((prev - arrival) / 1000 / 250) as i64)
                        }
                    },
                    None => {
                        let offset_ns = if arrival >= base_time {
                            arrival - base_time
                        } else {
                            0
                        };
                        ((offset_ns / 1000 / 250) % 256) as i64
                    },
                };
                assert(delta_250us == slot_delta(arr, base_time, i as int));
                let status = if delta_250us >= 0 && delta_250us <= 255 {
                    PacketStatus::SmallDelta
                } else {
                    PacketStatus::LargeDelta
                };
                if first_arrival.is_none() {
                    first_arrival = Some(arrival);
                }
                statuses.push(status);
                deltas.push(delta_250us);
                prev_arrival = Some(arrival);
            },
            None => {
                assert(arr[i as int] is None);
                statuses.push(PacketStatus::NotReceived);
            },
        }
        i += 1;
    }
    assert(statuses@ =~= window_statuses(arr, base_time));
    (statuses, deltas, first_arrival)
}

/// Builds the TWCC feedback RTCP packet (before SRTCP protection) for the
/// pending window `[pending_base_seq, max_seq]` of `recorder`, and advances
/// the window past it. Returns `None` when nothing is pending or no packet of
/// the window was received; a window larger than the ring buffer is cut to
/// start 100 before `max_seq` instead.
pub fn build_twcc_feedback(recorder: &mut TwccRecorder, media_ssrc: u32) -> (r: Option<Vec<u8>>)
    requires
        old(recorder).wf(),
    ensures
        final(recorder).wf(),
        final(recorder)@ == old(recorder)@.after_feedback(),
        match r {
            Some(pkt) => old(recorder)@.feedback(media_ssrc) == Some(pkt@),
            None => old(recorder)@.feedback(media_ssrc) is None,
        },
{
    if !recorder.started || recorder.pending_count() == 0 {
        return None;
    }
    let base_time = match recorder.base_time {
        Some(t) => t,
        None => return None,
    };
    let base_seq = recorder.pending_base_seq;
    let pkt_status_count = recorder.pending_count();
    if pkt_status_count > TWCC_RECORDER_CAPACITY as u16 {
        let new_base = recorder.max_seq.wrapping_sub(100);
        recorder.advance_base(new_base);
        return None;
    }
    let (statuses, deltas, first_arrival) = analyze_window(recorder, base_time);
    let ghost arr = recorder@.window_arrivals();
    let first = match first_arrival {
        Some(a) => a,
        None => return None,
    };
    let first_offset_ns = if first >= base_time {
        first - base_time
    } else {
        0
    };
    let reference_time_24: u32 = ((first_offset_ns / 1000 / 250 / 256) % 0x1000000) as u32;
    let chunks = encode_status_chunks(statuses.as_slice());
    let delta_bytes = encode_recv_deltas(statuses.as_slice(), deltas.as_slice());
    proof {
        lemma_recv_delta_prefix_len(statuses@, deltas@, statuses@.len());
    }
    let fb_pkt_count = recorder.fb_pkt_count;
    recorder.fb_pkt_count = recorder.fb_pkt_count.wrapping_add(1);
    let buf = assemble_feedback(
        media_ssrc,
        base_seq,
        pkt_status_count,
        reference_time_24,
        fb_pkt_count,
        &chunks,
        &delta_bytes,
    );
    recorder.advance_base(base_seq.wrapping_add(pkt_status_count));
    Some(buf)
}


// ============================================================================
// Laws
// ============================================================================

/// A read after a write: once `seq` is recorded at `arrival`, looking up
/// `seq` gives that arrival; another sequence number sharing its ring slot is
/// no longer found; every other sequence number reads as before.
pub proof fn lemma_lookup_after_record(rec: TwccRecorder, seq: u16, arrival: u64, other: u16)
    requires
        rec.wf(),
    ensures
        rec@.after_record(seq, arrival).arrival_of(seq) == Some(
            ArrivalEntry { twcc_seq: seq, arrival },
        ),
        other != seq && slot_index(other) == slot_index(seq) ==> rec@.after_record(
            seq,
            arrival,
        ).arrival_of(other) is None,
        slot_index(other) != slot_index(seq) ==> rec@.after_record(seq, arrival).arrival_of(other)
            == rec@.arrival_of(other),
{
}

/// Recording never moves `max_seq` backwards: the new maximum is the old one
/// or lies less than half the sequence circle ahead of it.
pub proof fn lemma_record_max_moves_forward(rec: TwccRecorder, seq: u16, arrival: u64)
    requires
        rec.wf(),
        rec@.started,
    ensures
        seq_distance(rec@.max_seq, rec@.after_record(seq, arrival).max_seq) < 0x8000,
{
}

/// An emitted feedback packet covers the whole pending window: afterwards
/// nothing is pending, the feedback counter has moved on by one (mod 256)
/// and the recorded arrivals are untouched.
pub proof fn lemma_feedback_consumes_window(rec: TwccRecorder, media_ssrc: u32)
    requires
        rec.wf(),
        rec@.feedback(media_ssrc) is Some,
    ensures
        rec@.after_feedback().pending_count() == 0,
        rec@.after_feedback().fb_pkt_count == (rec@.fb_pkt_count + 1) % 256,
        rec@.after_feedback().slots == rec@.slots,
        rec@.after_feedback().max_seq == rec@.max_seq,
{
    let v = rec@;
    assert(v.feedback_ready() && !v.window_too_large() && v.window_has_arrival());
    let after = v.after_feedback();
    assert(after.pending_base_seq == seq_add(v.pending_base_seq, v.pending_count()));
    assert(after.started && after.max_seq == v.max_seq);
}

/// Without an emitted packet the recorded arrivals, the counter and, unless
/// the window was oversized, the whole state stay as they were.
pub proof fn lemma_no_feedback_keeps_state(rec: TwccRecorder, media_ssrc: u32)
    requires
        rec.wf(),
        rec@.feedback(media_ssrc) is None,
    ensures
        rec@.after_feedback().slots == rec@.slots,
        rec@.after_feedback().fb_pkt_count == rec@.fb_pkt_count,
        !(rec@.feedback_ready() && rec@.window_too_large()) ==> rec@.after_feedback() == rec@,
{
}

/// Weight of symbol slot `slot` (0..7) in a status vector chunk.
pub open spec fn slot_weight(slot: int) -> int {
    if slot == 0 {
        4096
    } else if slot == 1 {
        1024
    } else if slot == 2 {
        256
    } else if slot == 3 {
        64
    } else if slot == 4 {
        16
    } else if slot == 5 {
        4
    } else {
        1
    }
}

/// Digit extraction in base 4: the digit of weight `w` of
/// `high * 4 * w + d * w + low` is `d`.
proof fn lemma_base4_digit(x: int, high: int, d: int, low: int, w: int)
    requires
        0 <= high,
        0 <= d < 4,
        0 <= low < w,
        x == (high * 4 + d) * w + low,
    ensures
        (x / w) % 4 == d,
{
    vstd::arithmetic::div_mod::lemma_fundamental_div_mod_converse(x, w, high * 4 + d, low);
}

/// The seven base-4 digits below the leading `11` of a chunk value.
proof fn lemma_chunk_digits(a0: int, a1: int, a2: int, a3: int, a4: int, a5: int, a6: int)
    requires
        0 <= a0 < 4,
        0 <= a1 < 4,
        0 <= a2 < 4,
        0 <= a3 < 4,
        0 <= a4 < 4,
        0 <= a5 < 4,
        0 <= a6 < 4,
    ensures
        ({
            let v = 0xC000 + a0 * 4096 + a1 * 1024 + a2 * 256 + a3 * 64 + a4 * 16 + a5 * 4 + a6;
            &&& v / 16384 == 3
            &&& (v / 4096) % 4 == a0
            &&& (v / 1024) % 4 == a1
            &&& (v / 256) % 4 == a2
            &&& (v / 64) % 4 == a3
            &&& (v / 16) % 4 == a4
            &&& (v / 4) % 4 == a5
            &&& (v / 1) % 4 == a6
        }),
{
    let v = 0xC000 + a0 * 4096 + a1 * 1024 + a2 * 256 + a3 * 64 + a4 * 16 + a5 * 4 + a6;
    lemma_base4_digit(v, 0, 3, a0 * 4096 + a1 * 1024 + a2 * 256 + a3 * 64 + a4 * 16 + a5 * 4 + a6, 16384);
    lemma_base4_digit(v, 3, a0, a1 * 1024 + a2 * 256 + a3 * 64 + a4 * 16 + a5 * 4 + a6, 4096);
    lemma_base4_digit(v, 12 + a0, a1, a2 * 256 + a3 * 64 + a4 * 16 + a5 * 4 + a6, 1024);
    lemma_base4_digit(v, 48 + a0 * 4 + a1, a2, a3 * 64 + a4 * 16 + a5 * 4 + a6, 256);
    lemma_base4_digit(v, 192 + a0 * 16 + a1 * 4 + a2, a3, a4 * 16 + a5 * 4 + a6, 64);
    lemma_base4_digit(v, 768 + a0 * 64 + a1 * 16 + a2 * 4 + a3, a4, a5 * 4 + a6, 16);
    lemma_base4_digit(v, 3072 + a0 * 256 + a1 * 64 + a2 * 16 + a3 * 4 + a4, a5, a6, 4);
    lemma_base4_digit(
        v,
        12288 + a0 * 1024 + a1 * 256 + a2 * 64 + a3 * 16 + a4 * 4 + a5,
        a6,
        0,
        1,
    );
}

/// Status vector chunks decode back to the statuses: each chunk carries the
/// `11` type bits on top, the symbol in slot `i % 7` of chunk `i / 7` is the
/// symbol of status `i`, and the slots past the last status hold zero.
pub proof fn lemma_status_chunks_decode(statuses: Seq<PacketStatus>, i: int)
    requires
        0 <= i < 7 * num_chunks(statuses.len()),
    ensures
        status_chunks(statuses).len() == num_chunks(statuses.len()),
        i / 7 < status_chunks(statuses).len(),
        status_chunks(statuses)[i / 7] / 16384 == 3,
        (status_chunks(statuses)[i / 7] as int / slot_weight(i % 7)) % 4 == symbol_at(
            statuses,
            i,
        ),
        i < statuses.len() ==> (status_chunks(statuses)[i / 7] as int / slot_weight(i % 7)) % 4
            == symbol(statuses[i]),
{
    let c = i / 7;
    let b = 7 * c;
    let a0 = symbol_at(statuses, b);
    let a1 = symbol_at(statuses, b + 1);
    let a2 = symbol_at(statuses, b + 2);
    let a3 = symbol_at(statuses, b + 3);
    let a4 = symbol_at(statuses, b + 4);
    let a5 = symbol_at(statuses, b + 5);
    let a6 = symbol_at(statuses, b + 6);
    lemma_chunk_digits(a0, a1, a2, a3, a4, a5, a6);
    let v = 0xC000 + a0 * 4096 + a1 * 1024 + a2 * 256 + a3 * 64 + a4 * 16 + a5 * 4 + a6;
    assert(status_chunks(statuses)[c] == status_chunk(statuses, c));
    assert(status_chunk(statuses, c) == v);
    assert(i == b + i % 7);
}

/// Before the first received position no position is received.
proof fn lemma_no_first_means_no_last(arr: Seq<Option<u64>>, n: int)
    requires
        0 <= n <= arr.len(),
        first_received(arr, n) is None,
    ensures
        last_received(arr, n) is None,
    decreases n,
{
    if n > 0 {
        lemma_no_first_means_no_last(arr, n - 1);
    }
}

/// The first received packet of a window always gets a small delta: its
/// delta is its offset from the reference time, which is below 256.
pub proof fn lemma_first_arrival_small(arr: Seq<Option<u64>>, base: u64, i: int)
    requires
        0 <= i < arr.len(),
        arr[i] is Some,
        first_received(arr, i) is None,
    ensures
        0 <= slot_delta(arr, base, i) <= 255,
        slot_status(arr, base, i) == PacketStatus::SmallDelta,
{
    lemma_no_first_means_no_last(arr, i);
}

/// Deltas of the received packets among the first `n` positions come first,
/// in the same order, among those of the first `m >= n` positions.
proof fn lemma_received_deltas_prefix(arr: Seq<Option<u64>>, base: u64, n: int, m: int)
    requires
        0 <= n <= m <= arr.len(),
    ensures
        received_deltas(arr, base, n).len() <= received_deltas(arr, base, m).len(),
        forall|k: int|
            0 <= k < received_deltas(arr, base, n).len() ==> received_deltas(arr, base, m)[k]
                == received_deltas(arr, base, n)[k],
    decreases m,
{
    if m > n {
        lemma_received_deltas_prefix(arr, base, n, m - 1);
    }
}

/// The receive-delta fields of the first `n` positions of a window: one field
/// per received packet, carrying its own delta under its own status.
pub open spec fn window_delta_fields(arr: Seq<Option<u64>>, base: u64, n: int) -> Seq<u8>
    decreases n,
{
    if n <= 0 {
        Seq::empty()
    } else if arr[n - 1] is Some {
        window_delta_fields(arr, base, n - 1) + delta_field(
            slot_status(arr, base, n - 1),
            slot_delta(arr, base, n - 1),
        )
    } else {
        window_delta_fields(arr, base, n - 1)
    }
}

proof fn lemma_window_delta_prefix(arr: Seq<Option<u64>>, base: u64, n: int)
    requires
        0 <= n <= arr.len(),
    ensures
        recv_delta_prefix(
            window_statuses(arr, base),
            received_deltas(arr, base, arr.len() as int),
            n as nat,
        ) == (window_delta_fields(arr, base, n), received_deltas(arr, base, n).len()),
    decreases n,
{
    if n > 0 {
        lemma_window_delta_prefix(arr, base, n - 1);
        lemma_received_deltas_prefix(arr, base, n, arr.len() as int);
        lemma_received_deltas_prefix(arr, base, n - 1, n);
        if arr[n - 1] is Some {
            let rd = received_deltas(arr, base, n);
            assert(rd == received_deltas(arr, base, n - 1).push(slot_delta(arr, base, n - 1)));
            assert(rd[rd.len() - 1] == slot_delta(arr, base, n - 1));
        }
    }
}

/// Every received packet of a feedback window gets a receive-delta field of
/// its own, in window order, and no delta is left over: the delta bytes of
/// the window are exactly the fields of its received packets.
pub proof fn lemma_window_deltas_all_encoded(arr: Seq<Option<u64>>, base: u64)
    ensures
        recv_delta_bytes(
            window_statuses(arr, base),
            received_deltas(arr, base, arr.len() as int),
        ) == window_delta_fields(arr, base, arr.len() as int),
        recv_delta_prefix(
            window_statuses(arr, base),
            received_deltas(arr, base, arr.len() as int),
            arr.len(),
        ).1 == received_deltas(arr, base, arr.len() as int).len(),
{
    lemma_window_delta_prefix(arr, base, arr.len() as int);
}

/// The reference time (64 ms units) and the first delta (250 µs units)
/// together give back the first arrival's offset from the time reference,
/// as long as that offset fits the 24-bit reference time.
pub proof fn lemma_reference_time_and_first_delta(base: u64, first: u64)
    requires
        offset_250us(base, first) < 0x1000000 * 256,
    ensures
        reference_time(base, first) * 256 + first_delta(base, first) == offset_250us(base, first),
        0 <= first_delta(base, first) <= 255,
{
}

/// The value a receive-delta field carries: one unsigned byte, or two bytes
/// of a signed 16-bit big-endian number.
pub open spec fn decode_delta_field(bytes: Seq<u8>) -> int {
    if bytes.len() == 1 {
        bytes[0] as int
    } else {
        let v = bytes[0] as int * 256 + bytes[1] as int;
        if v >= 32768 {
            v - 65536
        } else {
            v
        }
    }
}

/// Receive deltas within the signed 14-bit range are encoded without loss
/// under the status they are classified with.
pub proof fn lemma_delta_field_roundtrip(d: i64)
    requires
        -8192 <= d <= 8191,
    ensures
        decode_delta_field(delta_field(classify_delta(d), d)) == d,
{
}

/// Shape of every feedback packet. With `L` the length of the fixed header,
/// chunks and deltas: the packet is `L` rounded up to a multiple of four
/// bytes long, its RTCP length field is its length in 32-bit words minus
/// one, and the padding bit is set exactly when `L` is not a multiple of
/// four, in which case the padding bytes are zero except the last, which
/// holds their number. Version 2, FMT 15, payload type 205, sender SSRC 1,
/// the media SSRC, base sequence number, status count, reference time and
/// feedback count sit at their offsets, the status chunks follow the 20-byte
/// header and the receive deltas follow the chunks.
#[verifier::spinoff_prover]
#[verifier::rlimit(50)]
pub proof fn lemma_feedback_packet_shape(
    media_ssrc: u32,
    base_seq: u16,
    status_count: u16,
    reference_time: u32,
    fb_count: u8,
    chunks: Seq<u16>,
    delta_bytes: Seq<u8>,
)
    requires
        reference_time < 0x1000000,
        chunks.len() <= 2048,
        delta_bytes.len() <= 16384,
    ensures
        ({
            let p = feedback_packet(
                media_ssrc,
                base_seq,
                status_count,
                reference_time,
                fb_count,
                chunks,
                delta_bytes,
            );
            let l = 20 + 2 * chunks.len() + delta_bytes.len();
            &&& p.len() == (l + 3) / 4 * 4
            &&& (be16(p[2], p[3]) + 1) * 4 == p.len()
            &&& p[0] / 64 == 2
            &&& ((p[0] / 32) % 2 == 1) == (l % 4 != 0)
            &&& p[0] % 32 == 15
            &&& p[1] == RTCP_PT_RTPFB
            &&& p.subrange(4, 8) == be32_bytes(1)
            &&& p.subrange(8, 12) == be32_bytes(media_ssrc)
            &&& be16(p[12], p[13]) == base_seq
            &&& be16(p[14], p[15]) == status_count
            &&& p[16] as int * 65536 + p[17] as int * 256 + p[18] as int == reference_time
            &&& p[19] == fb_count
            &&& p.subrange(20, 20 + 2 * chunks.len() as int) == chunk_bytes(chunks)
            &&& p.subrange(20 + 2 * chunks.len() as int, l as int) == delta_bytes
            &&& l % 4 != 0 ==> p[p.len() - 1] == p.len() - l
            &&& forall|k: int| l <= k < p.len() - 1 ==> p[k] == 0
        }),
{
    reveal(feedback_packet);
    lemma_chunk_bytes_len(chunks);
    let p = feedback_packet(
        media_ssrc,
        base_seq,
        status_count,
        reference_time,
        fb_count,
        chunks,
        delta_bytes,
    );
    let body_len = feedback_body_len(chunks.len(), delta_bytes.len());
    let padded = round_up4(body_len);
    let pad = padded - body_len;
    let byte0: u8 = if pad > 0 { 0xAF } else { 0x8F };
    let head = seq![byte0, RTCP_PT_RTPFB] + be16_bytes(padded / 4 - 1) + be32_bytes(1)
        + be32_bytes(media_ssrc) + be16_bytes(base_seq as int) + be16_bytes(status_count as int)
        + seq![
        (reference_time / 65536) as u8,
        ((reference_time / 256) % 256) as u8,
        (reference_time % 256) as u8,
        fb_count,
    ];
    let tail = if pad > 0 {
        Seq::new((pad - 1) as nat, |i: int| 0u8) + seq![pad as u8]
    } else {
        Seq::empty()
    };
    let cb = chunk_bytes(chunks);
    let content = head + cb + delta_bytes;
    assert(p == content + tail);
    assert(padded % 4 == 0 && body_len <= padded < body_len + 4);
    assert(pad > 0 <==> body_len % 4 != 0);
    assert(tail.len() == pad);
    assert(head.len() == 20);
    assert(content.len() == body_len);
    assert(p.len() == padded);
    assert forall|k: int| 0 <= k < 20 implies p[k] == head[k] by {
        assert((content + tail)[k] == content[k]);
        assert(content[k] == (head + cb)[k]);
        assert((head + cb)[k] == head[k]);
    }
    assert(p.subrange(20, 20 + 2 * chunks.len() as int) =~= cb) by {
        assert forall|k: int| 0 <= k < cb.len() implies p[20 + k] == cb[k] by {
            assert((content + tail)[20 + k] == content[20 + k]);
            assert(content[20 + k] == (head + cb)[20 + k]);
        }
    }
    assert(p.subrange(20 + 2 * chunks.len() as int, body_len as int) =~= delta_bytes) by {
        assert forall|k: int| 0 <= k < delta_bytes.len() implies p[20 + cb.len() + k]
            == delta_bytes[k] by {
            assert((content + tail)[20 + cb.len() + k] == content[20 + cb.len() + k]);
        }
    }
    assert forall|k: int| body_len <= k < p.len() - 1 implies p[k] == 0 by {
        assert(p[k] == tail[k - body_len]);
    }
    if pad > 0 {
        assert(p[p.len() - 1] == tail[pad - 1]);
    }
    assert(head[0] == byte0 && head[1] == RTCP_PT_RTPFB);
    assert(head[2] == (((padded / 4 - 1) as int % 65536) / 256) as u8);
    assert(head[3] == ((padded / 4 - 1) as int % 256) as u8);
    assert(be16(head[2], head[3]) == padded / 4 - 1);
    assert(head.subrange(4, 8) =~= be32_bytes(1));
    assert(head.subrange(8, 12) =~= be32_bytes(media_ssrc));
    assert(p.subrange(4, 8) =~= head.subrange(4, 8));
    assert(p.subrange(8, 12) =~= head.subrange(8, 12));
    assert(head[12] == ((base_seq as int % 65536) / 256) as u8);
    assert(head[13] == (base_seq as int % 256) as u8);
    assert(head[14] == ((status_count as int % 65536) / 256) as u8);
    assert(head[15] == (status_count as int % 256) as u8);
    assert(head[16] == (reference_time / 65536) as u8);
    assert(head[17] == ((reference_time / 256) % 256) as u8);
    assert(head[18] == (reference_time % 256) as u8);
    assert(head[19] == fb_count);
}

/// Chunk `k` sits at bytes `2k` and `2k + 1` of the chunk bytes.
proof fn lemma_chunk_bytes_index(chunks: Seq<u16>, k: int)
    requires
        0 <= k < chunks.len(),
    ensures
        be16(chunk_bytes(chunks)[2 * k], chunk_bytes(chunks)[2 * k + 1]) == chunks[k],
    decreases chunks.len(),
{
    let init = chunks.drop_last();
    lemma_chunk_bytes_len(init);
    if k < chunks.len() - 1 {
        lemma_chunk_bytes_index(init, k);
        assert(chunk_bytes(chunks)[2 * k] == chunk_bytes(init)[2 * k]);
        assert(chunk_bytes(chunks)[2 * k + 1] == chunk_bytes(init)[2 * k + 1]);
    } else {
        assert(chunk_bytes(chunks)[2 * k] == be16_bytes(chunks.last() as int)[0]);
        assert(chunk_bytes(chunks)[2 * k + 1] == be16_bytes(chunks.last() as int)[1]);
    }
}

/// A feedback packet reports exactly which packets of the pending window
/// arrived: the 2-bit symbol of position `i`, read from the status chunks
/// after the 20-byte header, is zero ("not received") exactly when no
/// arrival is recorded for sequence number `pending_base_seq + i`.
pub proof fn lemma_feedback_reports_arrivals(rec: TwccRecorder, media_ssrc: u32, i: int)
    requires
        rec.wf(),
        rec@.feedback(media_ssrc) is Some,
        0 <= i < rec@.pending_count(),
    ensures
        ({
            let p = rec@.feedback(media_ssrc)->0;
            let c = i / 7;
            let chunk = be16(p[20 + 2 * c], p[21 + 2 * c]);
            ((chunk as int / slot_weight(i % 7)) % 4 == 0) <==> rec@.arrival_of(
                seq_add(rec@.pending_base_seq, i as u16),
            ) is None
        }),
{
    let v = rec@;
    let arr = v.window_arrivals();
    let base = v.base_time->0;
    let first = first_received(arr, arr.len() as int)->0;
    let statuses = window_statuses(arr, base);
    let deltas = received_deltas(arr, base, arr.len() as int);
    let chunks = status_chunks(statuses);
    let delta_bytes = recv_delta_bytes(statuses, deltas);
    reveal(RecorderView::window_arrivals);
    assert(arr.len() == v.pending_count());
    lemma_recv_delta_prefix_len(statuses, deltas, statuses.len());
    let p = feedback_packet(
        media_ssrc,
        v.pending_base_seq,
        v.pending_count(),
        reference_time(base, first) as u32,
        v.fb_pkt_count,
        chunks,
        delta_bytes,
    );
    assert(v.feedback(media_ssrc) == Some(p));
    lemma_feedback_packet_shape(
        media_ssrc,
        v.pending_base_seq,
        v.pending_count(),
        reference_time(base, first) as u32,
        v.fb_pkt_count,
        chunks,
        delta_bytes,
    );
    lemma_status_chunks_decode(statuses, i);
    let c = i / 7;
    lemma_chunk_bytes_index(chunks, c);
    lemma_chunk_bytes_len(chunks);
    let sub = p.subrange(20, 20 + 2 * chunks.len() as int);
    assert(sub[2 * c] == p[20 + 2 * c]);
    assert(sub[2 * c + 1] == p[21 + 2 * c]);
    assert(statuses[i] == slot_status(arr, base, i));
}

/// Status chunk `j` of a feedback packet, read from its bytes.
pub open spec fn packet_chunk(p: Seq<u8>, j: int) -> u16 {
    be16(p[20 + 2 * j], p[21 + 2 * j])
}

/// The 2-bit symbol of window position `k` in a feedback packet, read from
/// its bytes: slot `k % 7` of chunk `k / 7`, most significant pair first.
pub open spec fn packet_symbol(p: Seq<u8>, k: int) -> u16 {
    (packet_chunk(p, k / 7) >> ((12 - 2 * (k % 7)) as u16)) & 3
}

/// Shifting and masking reads the base-4 digit of weight `slot_weight(s)`.
proof fn lemma_shift_digit(x: u16, s: int)
    requires
        0 <= s < 7,
    ensures
        (x >> ((12 - 2 * s) as u16)) & 3 == (x as int / slot_weight(s)) % 4,
        (x & 0xC000 == 0xC000) == (x as int / 16384 == 3),
{
    assert((x & 0xC000 == 0xC000) == (x / 16384 == 3)) by (bit_vector);
    if s == 0 {
        assert((x >> 12u16) & 3 == (x / 4096) % 4) by (bit_vector);
    } else if s == 1 {
        assert((x >> 10u16) & 3 == (x / 1024) % 4) by (bit_vector);
    } else if s == 2 {
        assert((x >> 8u16) & 3 == (x / 256) % 4) by (bit_vector);
    } else if s == 3 {
        assert((x >> 6u16) & 3 == (x / 64) % 4) by (bit_vector);
    } else if s == 4 {
        assert((x >> 4u16) & 3 == (x / 16) % 4) by (bit_vector);
    } else if s == 5 {
        assert((x >> 2u16) & 3 == (x / 4) % 4) by (bit_vector);
    } else {
        assert((x >> 0u16) & 3 == x % 4) by (bit_vector);
    }
}

/// No position before `n` is received, so there is no first arrival yet.
proof fn lemma_none_received_before(arr: Seq<Option<u64>>, n: int)
    requires
        0 <= n <= arr.len(),
        forall|j: int| 0 <= j < n ==> arr[j] is None,
    ensures
        first_received(arr, n) is None,
    decreases n,
{
    if n > 0 {
        lemma_none_received_before(arr, n - 1);
    }
}

/// Chunk `j` of a feedback packet, read from its bytes, is chunk `j` of the
/// window's status encoding, and each position's symbol read from the bytes
/// is the symbol of its status (zero past the window).
proof fn lemma_packet_symbol_is_status(rec: TwccRecorder, media_ssrc: u32, k: int)
    requires
        rec.wf(),
        rec@.feedback(media_ssrc) is Some,
        0 <= k < 7 * num_chunks(rec@.pending_count() as nat),
    ensures
        ({
            let v = rec@;
            let p = v.feedback(media_ssrc)->0;
            let statuses = window_statuses(v.window_arrivals(), v.base_time->0);
            &&& statuses.len() == v.pending_count()
            &&& packet_chunk(p, k / 7) == status_chunks(statuses)[k / 7]
            &&& packet_chunk(p, k / 7) & 0xC000 == 0xC000
            &&& packet_symbol(p, k) == symbol_at(statuses, k)
        }),
{
    let v = rec@;
    let arr = v.window_arrivals();
    let base = v.base_time->0;
    let first = first_received(arr, arr.len() as int)->0;
    let statuses = window_statuses(arr, base);
    let deltas = received_deltas(arr, base, arr.len() as int);
    let chunks = status_chunks(statuses);
    let delta_bytes = recv_delta_bytes(statuses, deltas);
    reveal(RecorderView::window_arrivals);
    assert(arr.len() == v.pending_count());
    lemma_recv_delta_prefix_len(statuses, deltas, statuses.len());
    let p = feedback_packet(
        media_ssrc,
        v.pending_base_seq,
        v.pending_count(),
        reference_time(base, first) as u32,
        v.fb_pkt_count,
        chunks,
        delta_bytes,
    );
    assert(v.feedback(media_ssrc) == Some(p));
    lemma_feedback_packet_shape(
        media_ssrc,
        v.pending_base_seq,
        v.pending_count(),
        reference_time(base, first) as u32,
        v.fb_pkt_count,
        chunks,
        delta_bytes,
    );
    lemma_status_chunks_decode(statuses, k);
    let c = k / 7;
    lemma_chunk_bytes_index(chunks, c);
    lemma_chunk_bytes_len(chunks);
    let sub = p.subrange(20, 20 + 2 * chunks.len() as int);
    assert(sub[2 * c] == p[20 + 2 * c]);
    assert(sub[2 * c + 1] == p[21 + 2 * c]);
    assert(packet_chunk(p, c) == chunks[c]);
    lemma_shift_digit(chunks[c], k % 7);
}

/// What the status chunks of a feedback packet say, read from its bytes with
/// shifts and masks: every chunk has the `11` type bits on top; the symbol of
/// each window position is never 3 and is zero ("not received") exactly when
/// no arrival is recorded for `pending_base_seq + k`; the slots past the
/// window are zero; and the first nonzero symbol is 1 (small delta).
pub proof fn lemma_feedback_status_symbols(rec: TwccRecorder, media_ssrc: u32)
    requires
        rec.wf(),
        rec@.feedback(media_ssrc) is Some,
    ensures
        ({
            let v = rec@;
            let p = v.feedback(media_ssrc)->0;
            let n = v.pending_count() as int;
            let c = num_chunks(n as nat) as int;
            &&& forall|j: int| 0 <= j < c ==> #[trigger] packet_chunk(p, j) & 0xC000 == 0xC000
            &&& forall|k: int|
                0 <= k < n ==> #[trigger] packet_symbol(p, k) != 3 && (packet_symbol(p, k) == 0
                    <==> v.arrival_of(seq_add(v.pending_base_seq, k as u16)) is None)
            &&& forall|k: int| n <= k < 7 * c ==> #[trigger] packet_symbol(p, k) == 0
            &&& forall|k: int|
                0 <= k < n && #[trigger] packet_symbol(p, k) != 0 && (forall|j: int|
                    0 <= j < k ==> packet_symbol(p, j) == 0) ==> packet_symbol(p, k) == 1
        }),
{
    let v = rec@;
    let p = v.feedback(media_ssrc)->0;
    let n = v.pending_count() as int;
    let c = num_chunks(n as nat) as int;
    let arr = v.window_arrivals();
    let base = v.base_time->0;
    let statuses = window_statuses(arr, base);
    reveal(RecorderView::window_arrivals);
    assert(arr.len() == n);
    assert forall|j: int| 0 <= j < c implies #[trigger] packet_chunk(p, j) & 0xC000 == 0xC000 by {
        lemma_packet_symbol_is_status(rec, media_ssrc, 7 * j);
        assert((7 * j) / 7 == j);
    }
    assert forall|k: int| 0 <= k < n implies #[trigger] packet_symbol(p, k) != 3 && (packet_symbol(
        p,
        k,
    ) == 0 <==> v.arrival_of(seq_add(v.pending_base_seq, k as u16)) is None) by {
        lemma_packet_symbol_is_status(rec, media_ssrc, k);
        assert(statuses[k] == slot_status(arr, base, k));
    }
    assert forall|k: int| n <= k < 7 * c implies #[trigger] packet_symbol(p, k) == 0 by {
        lemma_packet_symbol_is_status(rec, media_ssrc, k);
    }
    assert forall|k: int|
        0 <= k < n && #[trigger] packet_symbol(p, k) != 0 && (forall|j: int|
            0 <= j < k ==> packet_symbol(p, j) == 0) implies packet_symbol(p, k) == 1 by {
        assert forall|j: int| 0 <= j < k implies arr[j] is None by {
            lemma_packet_symbol_is_status(rec, media_ssrc, j);
            assert(packet_symbol(p, j) == 0);
            assert(statuses[j] == slot_status(arr, base, j));
        }
        lemma_none_received_before(arr, k);
        lemma_packet_symbol_is_status(rec, media_ssrc, k);
        assert(statuses[k] == slot_status(arr, base, k));
        lemma_first_arrival_small(arr, base, k);
    }
}

/// What the timing fields of a feedback packet say, read from its bytes:
/// the 24-bit reference time at bytes 16..19 is the first arrival's offset
/// from the time reference in 64 ms units (modulo 2^24), and the bytes after
/// the status chunks start with one receive-delta field per received packet
/// in window order: the first one's offset below the reference time, each
/// later one's signed distance from the previous received packet, as one
/// byte when it lies in 0..=255 and otherwise as two signed bytes clamped to
/// -8192..=8191.
pub proof fn lemma_feedback_timing_bytes(rec: TwccRecorder, media_ssrc: u32)
    requires
        rec.wf(),
        rec@.feedback(media_ssrc) is Some,
    ensures
        ({
            let v = rec@;
            let p = v.feedback(media_ssrc)->0;
            let arr = v.window_arrivals();
            let n = v.pending_count() as int;
            let c = num_chunks(n as nat) as int;
            let fields = window_delta_fields(arr, v.base_time->0, n);
            let first = first_received(arr, n)->0;
            &&& arr.len() == n
            &&& first_received(arr, n) is Some
            &&& p[16] as int * 65536 + p[17] as int * 256 + p[18] as int == reference_time(
                v.base_time->0,
                first,
            )
            &&& 20 + 2 * c + fields.len() <= p.len()
            &&& p.subrange(20 + 2 * c, 20 + 2 * c + fields.len()) == fields
        }),
{
    let v = rec@;
    let arr = v.window_arrivals();
    let base = v.base_time->0;
    let n = v.pending_count() as int;
    let first = first_received(arr, arr.len() as int)->0;
    let statuses = window_statuses(arr, base);
    let deltas = received_deltas(arr, base, arr.len() as int);
    let chunks = status_chunks(statuses);
    let delta_bytes = recv_delta_bytes(statuses, deltas);
    reveal(RecorderView::window_arrivals);
    assert(arr.len() == n);
    lemma_recv_delta_prefix_len(statuses, deltas, statuses.len());
    lemma_window_deltas_all_encoded(arr, base);
    let p = feedback_packet(
        media_ssrc,
        v.pending_base_seq,
        v.pending_count(),
        reference_time(base, first) as u32,
        v.fb_pkt_count,
        chunks,
        delta_bytes,
    );
    assert(v.feedback(media_ssrc) == Some(p));
    lemma_feedback_packet_shape(
        media_ssrc,
        v.pending_base_seq,
        v.pending_count(),
        reference_time(base, first) as u32,
        v.fb_pkt_count,
        chunks,
        delta_bytes,
    );
}

/// How recording moves the pending window: the first packet opens it at its
/// own sequence number and sets the time reference; afterwards `max_seq`
/// becomes the new number exactly when it lies less than half the circle
/// ahead (`0 < seq - max_seq < 0x8000`, wrapping), so a late or duplicate
/// number never moves it back, and the window start stays put.
pub proof fn lemma_record_window(rec: TwccRecorder, seq: u16, arrival: u64)
    requires
        rec.wf(),
    ensures
        ({
            let old_v = rec@;
            let new_v = rec@.after_record(seq, arrival);
            let d = seq.wrapping_sub(old_v.max_seq);
            &&& new_v.started
            &&& !old_v.started ==> {
                &&& new_v.pending_base_seq == seq
                &&& new_v.max_seq == seq
                &&& new_v.base_time == Some(arrival)
            }
            &&& old_v.started ==> {
                &&& new_v.pending_base_seq == old_v.pending_base_seq
                &&& new_v.base_time == old_v.base_time
                &&& new_v.max_seq == (if 0 < d && d < 0x8000 {
                    seq
                } else {
                    old_v.max_seq
                })
            }
        }),
{
}

/// A call on a recorder, as its effect on the recorder's state.
pub enum RecorderOp {
    /// `record(seq, arrival)`
    Record(u16, u64),
    /// `advance_base(base)`
    AdvanceBase(u16),
    /// `build_twcc_feedback(..)`
    Feedback,
}

impl RecorderView {
    /// The state after one call.
    pub open spec fn apply(self, op: RecorderOp) -> RecorderView {
        match op {
            RecorderOp::Record(seq, arrival) => self.after_record(seq, arrival),
            RecorderOp::AdvanceBase(base) => self.with_base(base),
            RecorderOp::Feedback => self.after_feedback(),
        }
    }
}

/// The state reached from `v` by the calls `ops`, in order.
pub open spec fn replay(v: RecorderView, ops: Seq<RecorderOp>) -> RecorderView
    decreases ops.len(),
{
    if ops.len() == 0 {
        v
    } else {
        replay(v, ops.drop_last()).apply(ops.last())
    }
}

/// The last `record` call among `ops` whose sequence number falls in ring
/// slot `slot`.
pub open spec fn last_record_in_slot(ops: Seq<RecorderOp>, slot: int) -> Option<(u16, u64)>
    decreases ops.len(),
{
    if ops.len() == 0 {
        None
    } else {
        match ops.last() {
            RecorderOp::Record(seq, arrival) => if slot_index(seq) == slot {
                Some((seq, arrival))
            } else {
                last_record_in_slot(ops.drop_last(), slot)
            },
            _ => last_record_in_slot(ops.drop_last(), slot),
        }
    }
}

/// Lookups over a whole history: on a recorder built by `new` and then any
/// calls of `record`, `advance_base` and `build_twcc_feedback`, `seq` is
/// found exactly when the last `record` into its ring slot was for `seq`
/// itself, and then with the arrival time of that call.
pub proof fn lemma_lookup_after_history(ops: Seq<RecorderOp>, seq: u16)
    ensures
        replay(RecorderView::empty(), ops).slots.len() == TWCC_RECORDER_CAPACITY,
        replay(RecorderView::empty(), ops).arrival_of(seq) == (match last_record_in_slot(
            ops,
            slot_index(seq),
        ) {
            Some((s, t)) => if s == seq {
                Some(ArrivalEntry { twcc_seq: seq, arrival: t })
            } else {
                None
            },
            None => None,
        }),
    decreases ops.len(),
{
    if ops.len() > 0 {
        lemma_lookup_after_history(ops.drop_last(), seq);
        let prev = replay(RecorderView::empty(), ops.drop_last());
        match ops.last() {
            RecorderOp::Record(s, t) => {
                if slot_index(s) != slot_index(seq) {
                    assert(prev.after_record(s, t).slots[slot_index(seq)] == prev.slots[slot_index(
                        seq,
                    )]);
                }
            },
            RecorderOp::AdvanceBase(b) => {},
            RecorderOp::Feedback => {
                assert(prev.after_feedback().slots == prev.slots);
            },
        }
    }
}

/// The last received position before `n`, seen from its own arrival: when
/// position `j < n` is received and none after it up to `n` is, the last
/// arrival before `n` is that of `j`; with nothing received before `n` there
/// is none.
proof fn lemma_last_received_is_nearest(arr: Seq<Option<u64>>, j: int, n: int)
    requires
        0 <= j < n <= arr.len(),
        arr[j] is Some,
        forall|k: int| j < k < n ==> arr[k] is None,
    ensures
        last_received(arr, n) == arr[j],
    decreases n - j,
{
    if n - 1 > j {
        lemma_last_received_is_nearest(arr, j, n - 1);
    }
}

/// Receive deltas are measured from the nearest earlier received packet,
/// whatever lost positions lie in between: when positions `j < i` are both
/// received and none between them is, the delta of `i` is the signed time
/// from `j`'s arrival to `i`'s, in 250 µs units.
pub proof fn lemma_delta_from_previous_arrival(arr: Seq<Option<u64>>, base: u64, j: int, i: int)
    requires
        0 <= j < i < arr.len(),
        arr[j] is Some,
        arr[i] is Some,
        forall|k: int| j < k < i ==> arr[k] is None,
    ensures
        slot_delta(arr, base, i) == delta_250us(arr[j]->0, arr[i]->0),
{
    lemma_last_received_is_nearest(arr, j, i);
}

/// The delta of the first received packet of a window is its offset from
/// the reference time: when nothing before position `i` is received, the
/// delta of `i` is its offset from the time reference `base` modulo 256.
pub proof fn lemma_delta_of_first_arrival(arr: Seq<Option<u64>>, base: u64, i: int)
    requires
        0 <= i < arr.len(),
        arr[i] is Some,
        forall|k: int| 0 <= k < i ==> arr[k] is None,
    ensures
        slot_delta(arr, base, i) == offset_250us(base, arr[i]->0) % 256,
{
    lemma_none_received_before(arr, i);
    lemma_no_first_means_no_last(arr, i);
}

/// The first arrival of a window is that of its lowest received position:
/// when position `j < n` is received and none before it is, the first
/// arrival among the first `n` positions is `j`'s; when none of them is
/// received there is none.
pub proof fn lemma_first_received_is_lowest(arr: Seq<Option<u64>>, j: int, n: int)
    requires
        0 <= j < n <= arr.len(),
        arr[j] is Some,
        forall|k: int| 0 <= k < j ==> arr[k] is None,
    ensures
        first_received(arr, n) == arr[j],
    decreases n - j,
{
    if n - 1 > j {
        lemma_first_received_is_lowest(arr, j, n - 1);
    } else {
        lemma_none_received_before(arr, j);
    }
}

/// Positions before the first received one contribute no delta bytes.
proof fn lemma_no_fields_before(arr: Seq<Option<u64>>, base: u64, n: int)
    requires
        0 <= n <= arr.len(),
        forall|k: int| 0 <= k < n ==> arr[k] is None,
    ensures
        window_delta_fields(arr, base, n).len() == 0,
    decreases n,
{
    if n > 0 {
        lemma_no_fields_before(arr, base, n - 1);
    }
}

/// The delta bytes of a window start with the one-byte delta of its first
/// received position `j`.
proof fn lemma_fields_start_with_first(arr: Seq<Option<u64>>, base: u64, j: int, n: int)
    requires
        0 <= j < n <= arr.len(),
        arr[j] is Some,
        forall|k: int| 0 <= k < j ==> arr[k] is None,
    ensures
        window_delta_fields(arr, base, n).len() >= 1,
        window_delta_fields(arr, base, n)[0] == offset_250us(base, arr[j]->0) % 256,
    decreases n - j,
{
    if n - 1 > j {
        lemma_fields_start_with_first(arr, base, j, n - 1);
    } else {
        lemma_no_fields_before(arr, base, j);
        lemma_none_received_before(arr, j);
        lemma_first_arrival_small(arr, base, j);
        lemma_delta_of_first_arrival(arr, base, j);
        assert(window_delta_fields(arr, base, n) =~= window_delta_fields(arr, base, j) + delta_field(
            slot_status(arr, base, j),
            slot_delta(arr, base, j),
        ));
    }
}

/// The reference time of a feedback packet comes from its first received
/// packet: with `j` the lowest received position of the window, the
/// reference time at bytes 16..19 (64 ms units) times 256 plus the first
/// receive-delta byte (250 µs units) is the offset of `j`'s arrival from the
/// time reference, whenever that offset fits the 24-bit reference time.
pub proof fn lemma_feedback_reference_from_first_arrival(
    rec: TwccRecorder,
    media_ssrc: u32,
    j: int,
)
    requires
        rec.wf(),
        rec@.feedback(media_ssrc) is Some,
        0 <= j < rec@.pending_count(),
        rec@.arrival_of(seq_add(rec@.pending_base_seq, j as u16)) is Some,
        forall|k: int|
            0 <= k < j ==> (#[trigger] rec@.arrival_of(seq_add(rec@.pending_base_seq, k as u16)))
                is None,
        offset_250us(
            rec@.base_time->0,
            rec@.arrival_of(seq_add(rec@.pending_base_seq, j as u16))->0.arrival,
        ) < 0x1000000 * 256,
    ensures
        ({
            let v = rec@;
            let p = v.feedback(media_ssrc)->0;
            let c = num_chunks(v.pending_count() as nat) as int;
            (p[16] as int * 65536 + p[17] as int * 256 + p[18] as int) * 256 + p[20 + 2 * c] as int
                == offset_250us(
                v.base_time->0,
                v.arrival_of(seq_add(v.pending_base_seq, j as u16))->0.arrival,
            )
        }),
{
    reveal(RecorderView::window_arrivals);
    let v = rec@;
    let p = v.feedback(media_ssrc)->0;
    let arr = v.window_arrivals();
    let base = v.base_time->0;
    let n = v.pending_count() as int;
    let c = num_chunks(n as nat) as int;
    lemma_feedback_timing_bytes(rec, media_ssrc);
    lemma_first_received_is_lowest(arr, j, n);
    lemma_fields_start_with_first(arr, base, j, n);
    let fields = window_delta_fields(arr, base, n);
    assert(p.subrange(20 + 2 * c, 20 + 2 * c + fields.len())[0] == p[20 + 2 * c]);
    lemma_reference_time_and_first_delta(base, arr[j]->0);
}

/// A one-byte-header extension element (RFC 5285): ID 1..=14 and 1 to 16
/// data bytes.
pub open spec fn valid_element(e: (u8, Seq<u8>)) -> bool {
    1 <= e.0 <= 14 && 1 <= e.1.len() <= 16
}

/// The bytes of an element: the header `[ID:4 | L:4]` with `L` one less than
/// the data length, then the data.
pub open spec fn element_bytes(e: (u8, Seq<u8>)) -> Seq<u8> {
    seq![(e.0 as int * 16 + e.1.len() - 1) as u8] + e.1
}

/// The bytes of a list of elements, one after the other.
pub open spec fn elements_bytes(es: Seq<(u8, Seq<u8>)>) -> Seq<u8>
    decreases es.len(),
{
    if es.len() == 0 {
        Seq::empty()
    } else {
        element_bytes(es[0]) + elements_bytes(es.drop_first())
    }
}

/// The 16-bit big-endian value at the start of the data of the first
/// element with ID `id` carrying at least two data bytes.
pub open spec fn first_match(es: Seq<(u8, Seq<u8>)>, id: u8) -> Option<u16>
    decreases es.len(),
{
    if es.len() == 0 {
        None
    } else if es[0].0 == id && es[0].1.len() >= 2 {
        Some(be16(es[0].1[0], es[0].1[1]))
    } else {
        first_match(es.drop_first(), id)
    }
}

/// Walking a list of well-formed elements written at `start`: the walk
/// finds the first element with the wanted ID and at least two data bytes,
/// whatever elements (of any length) come before it; when there is none it
/// continues right after the last element.
pub proof fn lemma_scan_elements_list(
    buf: Seq<u8>,
    start: int,
    end: int,
    es: Seq<(u8, Seq<u8>)>,
    id: u8,
)
    requires
        forall|i: int| 0 <= i < es.len() ==> valid_element(#[trigger] es[i]),
        0 <= start,
        start + elements_bytes(es).len() <= end <= buf.len(),
        buf.subrange(start, start + elements_bytes(es).len()) == elements_bytes(es),
    ensures
        first_match(es, id) is Some ==> scan_elements(buf, start, end, id) == first_match(es, id),
        first_match(es, id) is None ==> scan_elements(buf, start, end, id) == scan_elements(
            buf,
            start + elements_bytes(es).len(),
            end,
            id,
        ),
    decreases es.len(),
{
    if es.len() > 0 {
        let e = es[0];
        let rest = es.drop_first();
        let eb = element_bytes(e);
        let len = e.1.len() as int;
        assert(valid_element(e));
        assert(elements_bytes(es) == eb + elements_bytes(rest));
        assert(eb.len() == 1 + len);
        let b = buf[start];
        assert(b == buf.subrange(start, start + elements_bytes(es).len())[0]);
        assert(b == eb[0]);
        assert(b as int == e.0 as int * 16 + len - 1);
        assert(b / 16 == e.0 && b % 16 + 1 == len);
        assert forall|i: int| 0 <= i < len implies buf[start + 1 + i] == e.1[i] by {
            assert(buf[start + 1 + i] == buf.subrange(start, start + elements_bytes(es).len())[1
                + i]);
            assert(elements_bytes(es)[1 + i] == eb[1 + i]);
        }
        assert(buf.subrange(start + 1 + len, start + 1 + len + elements_bytes(rest).len())
            =~= elements_bytes(rest)) by {
            assert forall|i: int| 0 <= i < elements_bytes(rest).len() implies buf[start + 1 + len
                + i] == elements_bytes(rest)[i] by {
                assert(buf[start + 1 + len + i] == buf.subrange(
                    start,
                    start + elements_bytes(es).len(),
                )[1 + len + i]);
            }
        }
        assert forall|i: int| 0 <= i < rest.len() implies valid_element(#[trigger] rest[i]) by {
            assert(rest[i] == es[i + 1]);
        }
        if !(e.0 == id && len >= 2) {
            lemma_scan_elements_list(buf, start + 1 + len, end, rest, id);
        }
    }
}

/// Extracting the sequence number from a packet whose one-byte-header
/// extension holds a list of well-formed elements: the result is the value
/// carried by the first element with ID `extmap_id` and at least two data
/// bytes, whatever elements precede it.
pub proof fn lemma_parse_element_list(buf: Seq<u8>, es: Seq<(u8, Seq<u8>)>, extmap_id: u8)
    requires
        buf.len() >= RTP_HEADER_MIN_SIZE,
        (buf[0] / 16) % 2 == 1,
        buf.len() >= extension_offset(buf[0]) + 4,
        be16(buf[extension_offset(buf[0])], buf[extension_offset(buf[0]) + 1]) == 0xBEDE,
        forall|i: int| 0 <= i < es.len() ==> valid_element(#[trigger] es[i]),
        ({
            let start = extension_offset(buf[0]) + 4;
            let end = start + 4 * be16(
                buf[extension_offset(buf[0]) + 2],
                buf[extension_offset(buf[0]) + 3],
            ) as int;
            &&& start + elements_bytes(es).len() <= end <= buf.len()
            &&& buf.subrange(start, start + elements_bytes(es).len()) == elements_bytes(es)
        }),
        first_match(es, extmap_id) is Some,
    ensures
        twcc_seq_of(buf, extmap_id) == first_match(es, extmap_id),
{
    let off = extension_offset(buf[0]);
    let start = off + 4;
    let end = start + 4 * be16(buf[off + 2], buf[off + 3]) as int;
    lemma_scan_elements_list(buf, start, end, es, extmap_id);
}

/// The scale of receive deltas and offsets: 250 µs units of nanosecond
/// times, rounded toward zero. A later arrival `to` lies between `d` and
/// `d + 1` units after `from`; an earlier one gets the negated distance the
/// other way; an offset is the number of whole units from the reference,
/// zero for arrivals before it.
pub proof fn lemma_delta_scale(from: u64, to: u64)
    ensures
        to >= from ==> {
            let d = delta_250us(from, to) as int;
            &&& d >= 0
            &&& 250_000 * d <= to - from < 250_000 * (d + 1)
        },
        to < from ==> delta_250us(from, to) == -delta_250us(to, from),
        to >= from ==> offset_250us(from, to) == delta_250us(from, to),
        to < from ==> offset_250us(from, to) == 0,
{
    if to >= from {
        let x = (to - from) as int;
        assert(x / 1000 / 250 == x / 250_000) by {
            vstd::arithmetic::div_mod::lemma_div_denominator(x, 1000, 250);
        }
        assert(250_000 * (x / 250_000) <= x < 250_000 * (x / 250_000 + 1)) by (nonlinear_arith);
    }
}

} // verus!
