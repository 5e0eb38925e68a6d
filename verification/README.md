# sfu_transport

Verified transport-layer pieces of a WebRTC SFU, written in Verus.

- `src/twcc.rs` — transport-wide sequence numbers: parsing of the RTP
  one-byte header extension, the arrival recorder (ring buffer), and the
  TWCC feedback RTCP builder with its status-chunk and receive-delta
  encoders, plus the laws proved about them.
- `src/metrics.rs` — timing accumulators and relay counters.
- `src/udp.rs` — routing decisions of the UDP media transport (RTP/RTCP
  demultiplexing, DTLS and STUN routing, ICE username split, sweep cadence).
- `src/config.rs` — protocol constants.
- `app/` — unverified glue: wall-clock reading, conversion of `Instant`s to
  the recorder's nanosecond timestamps, and JSON rendering of the metrics.

Arrival times are nanoseconds of a monotonic clock (`u64`).
