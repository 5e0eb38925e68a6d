use sfu_transport::metrics::{ServerMetrics, TimingReport, TimingStat};
use sfu_transport::udp::{count_datagram, is_rtcp, server_ufrag, STALE_SWEEP_INTERVAL};

#[test]
fn timing_stat_records() {
    let mut s = TimingStat::new();
    assert_eq!(s.avg(), 0);
    assert_eq!(s.report(), None);
    s.record(10);
    s.record(30);
    s.record(20);
    assert_eq!(s.sum_us, 60);
    assert_eq!(s.count, 3);
    assert_eq!(s.min_us, 10);
    assert_eq!(s.max_us, 30);
    assert_eq!(s.avg(), 20);
    assert_eq!(s.p95_approx(), 30);
    assert!(s.min_us <= s.avg() && s.avg() <= s.max_us);
    assert_eq!(
        s.report(),
        Some(TimingReport { avg_us: 20, min_us: 10, max_us: 30, count: 3 })
    );
}

#[test]
fn timing_stat_integer_average() {
    let mut s = TimingStat::new();
    s.record(1);
    s.record(2);
    assert_eq!(s.avg(), 1);
}

#[test]
fn timing_stat_reset() {
    let mut s = TimingStat::new();
    s.record(5);
    s.reset();
    assert_eq!(s.sum_us, 0);
    assert_eq!(s.count, 0);
    assert_eq!(s.min_us, u64::MAX);
    assert_eq!(s.max_us, 0);
}

#[test]
fn timing_report_min_sentinel() {
    let mut s = TimingStat::new();
    s.record(u64::MAX);
    assert_eq!(s.report().unwrap().min_us, 0);
}

#[test]
fn server_metrics_fan_out() {
    let mut m = ServerMetrics::new();
    assert_eq!(m.reported_fan_out_min(), 0);
    m.record_fan_out(3);
    m.record_fan_out(1);
    m.record_fan_out(5);
    assert_eq!(m.fan_out_sum, 9);
    assert_eq!(m.fan_out_count, 3);
    assert_eq!(m.fan_out_min, 1);
    assert_eq!(m.fan_out_max, 5);
    assert_eq!(m.reported_fan_out_min(), 1);
}

#[test]
fn server_metrics_reset() {
    let mut m = ServerMetrics::new();
    m.record_fan_out(4);
    m.relay.record(100);
    m.twcc_sent = 7;
    m.reset();
    assert_eq!(m.fan_out_sum, 0);
    assert_eq!(m.fan_out_count, 0);
    assert_eq!(m.fan_out_min, u32::MAX);
    assert_eq!(m.fan_out_max, 0);
    assert_eq!(m.relay.count, 0);
    assert_eq!(m.relay.min_us, u64::MAX);
    assert_eq!(m.twcc_sent, 0);
}

#[test]
fn rtcp_demux() {
    assert!(is_rtcp(&[0x80, 200]));
    assert!(is_rtcp(&[0x81, 205, 0, 4]));
    assert!(is_rtcp(&[0x80, 72 | 0x80]));
    assert!(!is_rtcp(&[0x80, 96]));
    assert!(!is_rtcp(&[0x80, 96 | 0x80]));
    assert!(!is_rtcp(&[0x80, 80]));
    assert!(!is_rtcp(&[0x80]));
    assert!(!is_rtcp(&[]));
}

#[test]
fn datagram_sweep_cadence() {
    assert_eq!(STALE_SWEEP_INTERVAL, 1000);
    assert_eq!(count_datagram(0), (1, false));
    assert_eq!(count_datagram(998), (999, false));
    assert_eq!(count_datagram(999), (1000, true));
    assert_eq!(count_datagram(1999), (2000, true));
    assert_eq!(count_datagram(2000), (2001, false));
}

#[test]
fn ufrag_split() {
    assert_eq!(server_ufrag("srv:cli"), "srv");
    assert_eq!(server_ufrag("srv:cli:x"), "srv");
    assert_eq!(server_ufrag("nocolon"), "nocolon");
    assert_eq!(server_ufrag(":cli"), "");
    assert_eq!(server_ufrag(""), "");
}

use sfu_transport::udp::{is_relay_target, route_dtls, route_srtp, stun_reply, DtlsRoute, SrtpRoute, StunReply};

#[test]
fn srtp_routing() {
    assert_eq!(route_srtp(false, &[0x80, 200]), SrtpRoute::NotReady);
    assert_eq!(route_srtp(true, &[0x80, 200]), SrtpRoute::Rtcp);
    assert_eq!(route_srtp(true, &[0x80, 96]), SrtpRoute::Rtp);
    assert_eq!(route_srtp(true, &[0x80]), SrtpRoute::Rtp);
    assert!(is_relay_target(true, true));
    assert!(!is_relay_target(true, false));
    assert!(!is_relay_target(false, true));
}

#[test]
fn dtls_routing() {
    assert_eq!(route_dtls(true, false), DtlsRoute::Delivered);
    assert_eq!(route_dtls(false, true), DtlsRoute::StartSession);
    assert_eq!(route_dtls(false, false), DtlsRoute::Drop);
}

#[test]
fn stun_replies() {
    assert_eq!(stun_reply(false, true, true, false), StunReply::Ignore);
    assert_eq!(stun_reply(true, false, true, false), StunReply::Ignore);
    assert_eq!(stun_reply(true, true, true, false), StunReply::RespondAndStartDtls);
    assert_eq!(stun_reply(true, true, true, true), StunReply::Respond);
    assert_eq!(stun_reply(true, true, false, false), StunReply::Respond);
}
