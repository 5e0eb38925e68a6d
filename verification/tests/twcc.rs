use sfu_transport::config;
use sfu_transport::twcc::{
    build_twcc_feedback, encode_recv_deltas, encode_status_chunks, parse_twcc_seq, PacketStatus,
    TwccRecorder,
};

/// An arbitrary reading of the monotonic clock, in nanoseconds.
const T0: u64 = 5_000_000_000;

fn ms(n: u64) -> u64 {
    n * 1_000_000
}

// === parse_twcc_seq ===

#[test]
fn parse_twcc_seq_no_extension() {
    let rtp = [
        0x80, 96, 0x00, 0x01,
        0x00, 0x00, 0x00, 0xA0,
        0x00, 0x00, 0x10, 0x00,
        0xDE, 0xAD,
    ];
    assert_eq!(parse_twcc_seq(&rtp, 6), None);
}

#[test]
fn parse_twcc_seq_one_byte_form() {
    let rtp = vec![
        0x90, 96, 0x00, 0x01,
        0x00, 0x00, 0x00, 0xA0,
        0x00, 0x00, 0x10, 0x00,
        0xBE, 0xDE,
        0x00, 0x01,
        0x61, 0x00, 0xFF,
        0x00,
    ];
    assert_eq!(parse_twcc_seq(&rtp, 6), Some(0x00FF));
}

#[test]
fn parse_twcc_seq_multiple_extensions() {
    let rtp = vec![
        0x90, 96, 0x00, 0x02,
        0x00, 0x00, 0x00, 0xA0,
        0x00, 0x00, 0x10, 0x00,
        0xBE, 0xDE,
        0x00, 0x03,
        0x10, 0x00,
        0x40, 0x7F,
        0x61, 0x01, 0x23,
        0x00, 0x00, 0x00, 0x00, 0x00,
    ];
    assert_eq!(parse_twcc_seq(&rtp, 6), Some(0x0123));
}

#[test]
fn parse_twcc_seq_wrong_id() {
    let rtp = vec![
        0x90, 96, 0x00, 0x01,
        0x00, 0x00, 0x00, 0xA0,
        0x00, 0x00, 0x10, 0x00,
        0xBE, 0xDE,
        0x00, 0x01,
        0x61, 0x00, 0xFF, 0x00,
    ];
    assert_eq!(parse_twcc_seq(&rtp, 3), None);
}

#[test]
fn parse_twcc_seq_two_byte_form_unsupported() {
    let rtp = vec![
        0x90, 96, 0x00, 0x01,
        0x00, 0x00, 0x00, 0xA0,
        0x00, 0x00, 0x10, 0x00,
        0x10, 0x00,
        0x00, 0x01,
        0x06, 0x02, 0x00, 0xFF,
    ];
    assert_eq!(parse_twcc_seq(&rtp, 6), None);
}

#[test]
fn parse_twcc_seq_short_packet() {
    assert_eq!(parse_twcc_seq(&[0x90, 96, 0, 1, 0, 0, 0, 0xA0, 0, 0, 0x10], 6), None);
    assert_eq!(parse_twcc_seq(&[], 6), None);
}

#[test]
fn parse_twcc_seq_after_csrc_list() {
    // CC = 2: two CSRC identifiers before the extension header
    let rtp = vec![
        0x92, 96, 0x00, 0x01,
        0x00, 0x00, 0x00, 0xA0,
        0x00, 0x00, 0x10, 0x00,
        0x11, 0x11, 0x11, 0x11,
        0x22, 0x22, 0x22, 0x22,
        0xBE, 0xDE,
        0x00, 0x01,
        0x61, 0xAB, 0xCD,
        0x00,
    ];
    assert_eq!(parse_twcc_seq(&rtp, 6), Some(0xABCD));
}

#[test]
fn parse_twcc_seq_stops_at_terminator() {
    // ID 15 ends the element list before the twcc element
    let rtp = vec![
        0x90, 96, 0x00, 0x01,
        0x00, 0x00, 0x00, 0xA0,
        0x00, 0x00, 0x10, 0x00,
        0xBE, 0xDE,
        0x00, 0x02,
        0xF0, 0x61, 0x01, 0x23,
        0x00, 0x00, 0x00, 0x00,
    ];
    assert_eq!(parse_twcc_seq(&rtp, 6), None);
}

#[test]
fn parse_twcc_seq_truncated_extension() {
    // the declared extension length runs past the end of the packet
    let rtp = vec![
        0x90, 96, 0x00, 0x01,
        0x00, 0x00, 0x00, 0xA0,
        0x00, 0x00, 0x10, 0x00,
        0xBE, 0xDE,
        0x00, 0x02,
        0x61, 0x00, 0xFF, 0x00,
    ];
    assert_eq!(parse_twcc_seq(&rtp, 6), None);
}

#[test]
fn parse_twcc_seq_element_past_end() {
    // element claims 16 data bytes inside a 4-byte extension
    let rtp = vec![
        0x90, 96, 0x00, 0x01,
        0x00, 0x00, 0x00, 0xA0,
        0x00, 0x00, 0x10, 0x00,
        0xBE, 0xDE,
        0x00, 0x01,
        0x6F, 0x00, 0xFF, 0x00,
    ];
    assert_eq!(parse_twcc_seq(&rtp, 6), None);
}

#[test]
fn parse_twcc_seq_one_byte_element_skipped() {
    // an ID-6 element with a single data byte does not carry a sequence number
    let rtp = vec![
        0x90, 96, 0x00, 0x01,
        0x00, 0x00, 0x00, 0xA0,
        0x00, 0x00, 0x10, 0x00,
        0xBE, 0xDE,
        0x00, 0x02,
        0x60, 0x07,
        0x61, 0x12, 0x34,
        0x00, 0x00, 0x00,
    ];
    assert_eq!(parse_twcc_seq(&rtp, 6), Some(0x1234));
}

// === TwccRecorder ===

#[test]
fn recorder_basic() {
    let mut rec = TwccRecorder::new();
    assert!(!rec.started);
    assert_eq!(rec.pending_count(), 0);

    let t0 = T0;
    rec.record(100, t0);
    assert!(rec.started);
    assert_eq!(rec.pending_base_seq, 100);
    assert_eq!(rec.max_seq, 100);
    assert_eq!(rec.count, 1);
    assert_eq!(rec.pending_count(), 1);
    assert!(rec.base_time.is_some());

    rec.record(101, t0);
    rec.record(102, t0);
    assert_eq!(rec.max_seq, 102);
    assert_eq!(rec.pending_count(), 3);

    assert!(rec.get(100).is_some());
    assert!(rec.get(101).is_some());
    assert!(rec.get(99).is_none());

    rec.advance_base(103);
    assert_eq!(rec.pending_base_seq, 103);
    assert_eq!(rec.pending_count(), 0);
}

#[test]
fn recorder_seq_wrapping() {
    let mut rec = TwccRecorder::new();
    let t0 = T0;

    rec.record(65534, t0);
    rec.record(65535, t0);
    rec.record(0, t0);
    rec.record(1, t0);
    assert_eq!(rec.max_seq, 1);
}

#[test]
fn recorder_overwrite() {
    let mut rec = TwccRecorder::new();
    let t0 = T0;
    let t1 = t0 + ms(100);
    let cap = config::TWCC_RECORDER_CAPACITY as u16;

    rec.record(42, t0);
    rec.record(42 + cap, t1);

    assert!(rec.get(42).is_none());
    assert!(rec.get(42 + cap).is_some());
}

#[test]
fn recorder_get_returns_recorded_arrival() {
    let mut rec = TwccRecorder::new();
    rec.record(7, T0 + 123);
    let e = rec.get(7).unwrap();
    assert_eq!(e.twcc_seq, 7);
    assert_eq!(e.arrival, T0 + 123);
    // a later arrival for the same number replaces it
    rec.record(7, T0 + 456);
    assert_eq!(rec.get(7).unwrap().arrival, T0 + 456);
    assert_eq!(rec.count, 2);
}

#[test]
fn recorder_old_packet_keeps_max() {
    let mut rec = TwccRecorder::new();
    rec.record(1000, T0);
    rec.record(900, T0);
    assert_eq!(rec.max_seq, 1000);
    assert_eq!(rec.pending_base_seq, 1000);
    // half the circle away is not ahead
    rec.record(1000u16.wrapping_add(0x8000), T0);
    assert_eq!(rec.max_seq, 1000);
    rec.record(1000 + 0x7FFF, T0);
    assert_eq!(rec.max_seq, 1000 + 0x7FFF);
}

#[test]
fn recorder_base_time_is_first_arrival() {
    let mut rec = TwccRecorder::new();
    rec.record(3, T0 + 10);
    rec.record(4, T0 + 20);
    assert_eq!(rec.base_time, Some(T0 + 10));
}

// === encode_status_chunks ===

#[test]
fn chunks_single_full() {
    let statuses = vec![
        PacketStatus::SmallDelta,
        PacketStatus::SmallDelta,
        PacketStatus::NotReceived,
        PacketStatus::SmallDelta,
        PacketStatus::LargeDelta,
        PacketStatus::NotReceived,
        PacketStatus::SmallDelta,
    ];
    let chunks = encode_status_chunks(&statuses);
    assert_eq!(chunks.len(), 1);
    assert_eq!(chunks[0], 0xD461);
}

#[test]
fn chunks_padding() {
    let statuses = vec![
        PacketStatus::SmallDelta,
        PacketStatus::SmallDelta,
        PacketStatus::SmallDelta,
    ];
    let chunks = encode_status_chunks(&statuses);
    assert_eq!(chunks.len(), 1);
    assert_eq!(chunks[0], 0xD500);
}

#[test]
fn chunks_two_chunks() {
    let statuses = vec![PacketStatus::SmallDelta; 8];
    let chunks = encode_status_chunks(&statuses);
    assert_eq!(chunks.len(), 2);
    assert_eq!(chunks[0], 0xD555);
    assert_eq!(chunks[1], 0xD000);
}

#[test]
fn chunks_empty() {
    assert!(encode_status_chunks(&[]).is_empty());
}

#[test]
fn chunks_decode_to_statuses() {
    let statuses = vec![
        PacketStatus::LargeDelta,
        PacketStatus::NotReceived,
        PacketStatus::SmallDelta,
        PacketStatus::LargeDelta,
        PacketStatus::SmallDelta,
        PacketStatus::NotReceived,
        PacketStatus::LargeDelta,
        PacketStatus::SmallDelta,
        PacketStatus::LargeDelta,
    ];
    let chunks = encode_status_chunks(&statuses);
    assert_eq!(chunks.len(), 2);
    for (i, s) in statuses.iter().enumerate() {
        let chunk = chunks[i / 7];
        assert_eq!(chunk >> 14, 3);
        let sym = (chunk >> (12 - 2 * (i % 7))) & 3;
        let expected = match s {
            PacketStatus::NotReceived => 0,
            PacketStatus::SmallDelta => 1,
            PacketStatus::LargeDelta => 2,
        };
        assert_eq!(sym, expected);
    }
}

// === encode_recv_deltas ===

#[test]
fn deltas_small_only() {
    let statuses = vec![
        PacketStatus::SmallDelta,
        PacketStatus::NotReceived,
        PacketStatus::SmallDelta,
    ];
    let deltas = vec![10i64, 20];
    let bytes = encode_recv_deltas(&statuses, &deltas);
    assert_eq!(bytes, vec![10, 20]);
}

#[test]
fn deltas_mixed() {
    let statuses = vec![PacketStatus::SmallDelta, PacketStatus::LargeDelta];
    let deltas = vec![100i64, 300];
    let bytes = encode_recv_deltas(&statuses, &deltas);
    assert_eq!(bytes, vec![100, 0x01, 0x2C]);
}

#[test]
fn deltas_negative() {
    let statuses = vec![PacketStatus::LargeDelta];
    let deltas = vec![-100i64];
    let bytes = encode_recv_deltas(&statuses, &deltas);
    assert_eq!(bytes, vec![0xFF, 0x9C]);
}

#[test]
fn deltas_clamped() {
    let statuses = vec![
        PacketStatus::SmallDelta,
        PacketStatus::SmallDelta,
        PacketStatus::LargeDelta,
        PacketStatus::LargeDelta,
    ];
    let deltas = vec![-5i64, 1000, 100_000, -100_000];
    let bytes = encode_recv_deltas(&statuses, &deltas);
    // 0, 255, 8191 = 0x1FFF, -8192 = 0xE000
    assert_eq!(bytes, vec![0, 255, 0x1F, 0xFF, 0xE0, 0x00]);
}

#[test]
fn deltas_run_out() {
    // more received statuses than deltas: the extra ones contribute nothing
    let statuses = vec![PacketStatus::SmallDelta, PacketStatus::LargeDelta, PacketStatus::SmallDelta];
    let deltas = vec![7i64];
    assert_eq!(encode_recv_deltas(&statuses, &deltas), vec![7]);
}

#[test]
fn deltas_decode_roundtrip() {
    for d in [-8192i64, -1, 0, 1, 255, 256, 8191] {
        let status = if (0..=255).contains(&d) {
            PacketStatus::SmallDelta
        } else {
            PacketStatus::LargeDelta
        };
        let bytes = encode_recv_deltas(&[status], &[d]);
        let back = if bytes.len() == 1 {
            bytes[0] as i64
        } else {
            i16::from_be_bytes([bytes[0], bytes[1]]) as i64
        };
        assert_eq!(back, d);
    }
}

// === build_twcc_feedback ===

#[test]
fn feedback_empty_recorder() {
    let mut rec = TwccRecorder::new();
    assert!(build_twcc_feedback(&mut rec, 0x1000).is_none());
}

#[test]
fn feedback_single_packet() {
    let mut rec = TwccRecorder::new();
    let t0 = T0;
    rec.record(100, t0);

    let pkt = build_twcc_feedback(&mut rec, 0x1000).unwrap();

    assert!(pkt.len() >= 20);
    assert_eq!(pkt[1], 205);
    assert_eq!(u32::from_be_bytes([pkt[4], pkt[5], pkt[6], pkt[7]]), 1);
    assert_eq!(u32::from_be_bytes([pkt[8], pkt[9], pkt[10], pkt[11]]), 0x1000);
    assert_eq!(u16::from_be_bytes([pkt[12], pkt[13]]), 100);
    assert_eq!(u16::from_be_bytes([pkt[14], pkt[15]]), 1);
    assert_eq!(pkt[19], 0);
    assert_eq!(pkt.len() % 4, 0);
    assert_eq!(rec.pending_base_seq, 101);
    assert_eq!(rec.fb_pkt_count, 1);
}

#[test]
fn feedback_single_packet_bytes() {
    let mut rec = TwccRecorder::new();
    rec.record(100, T0);
    let pkt = build_twcc_feedback(&mut rec, 0x1000).unwrap();
    assert_eq!(
        pkt,
        vec![
            0xAF, 205, 0x00, 0x05, // V=2 P=1 FMT=15, PT, length 6 words - 1
            0x00, 0x00, 0x00, 0x01, // sender SSRC
            0x00, 0x00, 0x10, 0x00, // media SSRC
            0x00, 100, 0x00, 0x01, // base seq, status count
            0x00, 0x00, 0x00, 0x00, // reference time, fb count
            0xD0, 0x00, // one chunk: small delta
            0x00, // delta 0
            0x01, // one padding byte holding the padding size
        ]
    );
}

#[test]
fn feedback_multiple_with_loss() {
    let mut rec = TwccRecorder::new();
    let t0 = T0;

    rec.record(100, t0);
    rec.record(102, t0 + ms(2));

    let pkt = build_twcc_feedback(&mut rec, 0x2000).unwrap();

    assert_eq!(u16::from_be_bytes([pkt[12], pkt[13]]), 100);
    assert_eq!(u16::from_be_bytes([pkt[14], pkt[15]]), 3);

    let chunk = u16::from_be_bytes([pkt[20], pkt[21]]);
    assert_eq!(chunk & 0xC000, 0xC000);

    assert_eq!(pkt.len() % 4, 0);
}

#[test]
fn feedback_fb_pkt_count_increments() {
    let mut rec = TwccRecorder::new();
    let t0 = T0;

    rec.record(10, t0);
    let pkt1 = build_twcc_feedback(&mut rec, 0x1000).unwrap();
    assert_eq!(pkt1[19], 0);

    rec.record(11, t0 + ms(1));
    let pkt2 = build_twcc_feedback(&mut rec, 0x1000).unwrap();
    assert_eq!(pkt2[19], 1);
}

#[test]
fn feedback_rtcp_length_field_valid() {
    let mut rec = TwccRecorder::new();
    let t0 = T0;

    for i in 0u16..20 {
        rec.record(i, t0 + ms(i as u64));
    }

    let pkt = build_twcc_feedback(&mut rec, 0x3000).unwrap();

    let length_words = u16::from_be_bytes([pkt[2], pkt[3]]) as usize;
    assert_eq!((length_words + 1) * 4, pkt.len());
}

#[test]
fn feedback_consumes_pending_window() {
    let mut rec = TwccRecorder::new();
    rec.record(1, T0);
    rec.record(2, T0 + ms(1));
    assert!(build_twcc_feedback(&mut rec, 0x1000).is_some());
    assert_eq!(rec.pending_count(), 0);
    assert_eq!(rec.pending_base_seq, 3);
    assert!(build_twcc_feedback(&mut rec, 0x1000).is_none());
    assert_eq!(rec.fb_pkt_count, 1);
}

#[test]
fn feedback_large_and_negative_deltas() {
    let mut rec = TwccRecorder::new();
    rec.record(1, T0 + ms(10));
    rec.record(2, T0 + ms(110)); // +100 ms = 400 units: large
    rec.record(3, T0 + ms(100)); // -10 ms = -40 units: large, negative
    let pkt = build_twcc_feedback(&mut rec, 0x1000).unwrap();
    // chunk: small, large, large
    assert_eq!(u16::from_be_bytes([pkt[20], pkt[21]]), 0xC000 | (1 << 12) | (2 << 10) | (2 << 8));
    // deltas: 0, 400, -40
    assert_eq!(&pkt[22..27], &[0x00, 0x01, 0x90, 0xFF, 0xD8]);
    // 27 bytes, padded to 28: P bit set, length field 6
    assert_eq!(pkt[0], 0xAF);
    assert_eq!(u16::from_be_bytes([pkt[2], pkt[3]]), 6);
    assert_eq!(pkt.len(), 28);
    assert_eq!(pkt[27], 1);
}

#[test]
fn feedback_reference_time_and_first_delta() {
    let mut rec = TwccRecorder::new();
    rec.record(1, T0);
    assert!(build_twcc_feedback(&mut rec, 0x1000).is_some());
    // 100 ms after the reference arrival: 400 units = reference 1 (x64 ms), first delta 144
    rec.record(2, T0 + ms(100));
    let pkt = build_twcc_feedback(&mut rec, 0x1000).unwrap();
    assert_eq!(&pkt[16..20], &[0x00, 0x00, 0x01, 0x01]);
    assert_eq!(u16::from_be_bytes([pkt[20], pkt[21]]), 0xD000);
    assert_eq!(pkt[22], 144);
}

#[test]
fn feedback_without_arrivals_keeps_state() {
    let mut rec = TwccRecorder::new();
    rec.record(10, T0);
    assert!(build_twcc_feedback(&mut rec, 0x1000).is_some());
    rec.record(20, T0 + ms(5));
    // same ring slot as 20, half the circle away: evicts 20 without moving max_seq
    rec.record(20u16.wrapping_add(config::TWCC_RECORDER_CAPACITY as u16 * 4), T0 + ms(6));
    assert_eq!(rec.max_seq, 20);
    assert_eq!(rec.pending_count(), 10);
    assert!(build_twcc_feedback(&mut rec, 0x1000).is_none());
    assert_eq!(rec.pending_base_seq, 11);
    assert_eq!(rec.fb_pkt_count, 1);
}

#[test]
fn feedback_oversized_window_is_cut() {
    let mut rec = TwccRecorder::new();
    rec.record(0, T0);
    rec.record(0x7000, T0 + ms(1));
    assert_eq!(rec.pending_count(), 0x7001);
    assert!(build_twcc_feedback(&mut rec, 0x1000).is_none());
    assert_eq!(rec.pending_base_seq, 0x7000 - 100);
    assert_eq!(rec.pending_count(), 101);
    assert_eq!(rec.fb_pkt_count, 0);
}

#[test]
fn feedback_chunks_follow_header() {
    let mut rec = TwccRecorder::new();
    for i in 0u16..8 {
        rec.record(i, T0 + ms(i as u64));
    }
    let pkt = build_twcc_feedback(&mut rec, 0x1000).unwrap();
    // 8 statuses: two chunks, all small (4 units apart)
    assert_eq!(u16::from_be_bytes([pkt[20], pkt[21]]), 0xD555);
    assert_eq!(u16::from_be_bytes([pkt[22], pkt[23]]), 0xD000);
    assert_eq!(&pkt[24..32], &[0, 4, 4, 4, 4, 4, 4, 4]);
}

#[test]
fn feedback_reports_lost_packets() {
    let mut rec = TwccRecorder::new();
    let received = [true, false, true, true, false, false, true, false, true];
    for (i, r) in received.iter().enumerate() {
        if *r {
            rec.record(500 + i as u16, T0 + ms(i as u64));
        }
    }
    let pkt = build_twcc_feedback(&mut rec, 0x1000).unwrap();
    assert_eq!(pkt[0] >> 6, 2);
    assert_eq!(pkt[0] & 0x1F, 15);
    assert_eq!(u16::from_be_bytes([pkt[14], pkt[15]]), 9);
    for (i, r) in received.iter().enumerate() {
        let c = i / 7;
        let chunk = u16::from_be_bytes([pkt[20 + 2 * c], pkt[21 + 2 * c]]);
        let sym = (chunk >> (12 - 2 * (i % 7))) & 3;
        assert_eq!(sym == 0, !*r);
    }
}

#[test]
fn feedback_without_padding() {
    // 8 packets: 20 header + 4 chunk + 8 delta bytes = 32, already aligned
    let mut rec = TwccRecorder::new();
    for i in 0u16..8 {
        rec.record(i, T0 + ms(i as u64));
    }
    let pkt = build_twcc_feedback(&mut rec, 0x1000).unwrap();
    assert_eq!(pkt.len(), 32);
    assert_eq!(pkt[0], 0x8F);
    assert_eq!(u16::from_be_bytes([pkt[2], pkt[3]]), 7);
}

#[test]
fn feedback_padding_three_bytes() {
    // 2 packets, one large delta: 20 + 2 + 3 = 25 bytes, padded with 3
    let mut rec = TwccRecorder::new();
    rec.record(1, T0);
    rec.record(2, T0 + ms(100));
    let pkt = build_twcc_feedback(&mut rec, 0x1000).unwrap();
    assert_eq!(pkt.len(), 28);
    assert_eq!(pkt[0] & 0x20, 0x20);
    assert_eq!(&pkt[25..28], &[0, 0, 3]);
}

#[test]
fn feedback_delta_uses_microseconds_of_difference() {
    // arrivals 249.9995 ms and 499.999499 ms after the first: each delta is
    // the whole microseconds of the difference, in 250 us units
    let mut rec = TwccRecorder::new();
    rec.record(1, T0);
    rec.record(2, T0 + 249_999_500);
    rec.record(3, T0 + 250_000_000 + 249_999_499);
    let pkt = build_twcc_feedback(&mut rec, 0x1000).unwrap();
    // first delta 0; 249999 us -> 999 units (large); 249999 us -> 999 units
    assert_eq!(&pkt[22..27], &[0x00, 0x03, 0xE7, 0x03, 0xE7]);
}

#[test]
fn recorder_getters() {
    let mut rec = TwccRecorder::new();
    rec.record(9, T0);
    assert_eq!(rec.pending_base_seq(), 9);
    assert_eq!(rec.max_seq(), 9);
    assert!(rec.started());
    assert_eq!(rec.count(), 1);
    assert_eq!(rec.base_time(), Some(T0));
    assert_eq!(rec.fb_pkt_count(), 0);
}

#[test]
fn recorder_lookup_after_history() {
    let cap = config::TWCC_RECORDER_CAPACITY as u16;
    let mut rec = TwccRecorder::new();
    rec.record(5, T0);
    rec.record(6, T0 + 1);
    rec.record(5 + cap, T0 + 2);
    assert!(rec.get(5).is_none());
    let _ = build_twcc_feedback(&mut rec, 0x1000);
    rec.advance_base(0);
    rec.record(5, T0 + 3);
    assert_eq!(rec.get(5).unwrap().arrival, T0 + 3);
    assert!(rec.get(5 + cap).is_none());
    assert_eq!(rec.get(6).unwrap().arrival, T0 + 1);
}
