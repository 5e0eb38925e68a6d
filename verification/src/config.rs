use vstd::prelude::*;

verus! {

/// Size of the fixed RTP header (RFC 3550), in bytes.
pub const RTP_HEADER_MIN_SIZE: usize = 12;

/// Number of slots in the arrival ring buffer of a `TwccRecorder`.
pub const TWCC_RECORDER_CAPACITY: usize = 8192;

/// RTCP payload type of transport-layer feedback (RTPFB, RFC 4585).
pub const RTCP_PT_RTPFB: u8 = 205;

} // verus!
