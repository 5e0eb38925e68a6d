//! Server metrics: timing accumulators and relay counters, aggregated over a
//! reporting period and then reset.

use vstd::prelude::*;

verus! {

/// Accumulator of durations (microseconds) over a reporting period.
pub struct TimingStat {
    pub sum_us: u64,
    pub count: u64,
    pub min_us: u64,
    pub max_us: u64,
}

/// The values a `TimingStat` reports: average, minimum, maximum and count.
#[derive(Clone, Copy, PartialEq, Eq, Debug)]
pub struct TimingReport {
    pub avg_us: u64,
    pub min_us: u64,
    pub max_us: u64,
    pub count: u64,
}

impl TimingStat {
    /// The accumulator with nothing recorded; the minimum starts at `u64::MAX`.
    pub open spec fn empty() -> TimingStat {
        TimingStat { sum_us: 0, count: 0, min_us: u64::MAX, max_us: 0 }
    }

    /// The fields are consistent with some sequence of recorded durations:
    /// nothing recorded means the empty accumulator; otherwise the sum lies
    /// between `count` times the minimum and `count` times the maximum.
    pub open spec fn wf(self) -> bool {
        if self.count == 0 {
            self == TimingStat::empty()
        } else {
            &&& self.min_us <= self.max_us
            &&& self.min_us * self.count <= self.sum_us
            &&& self.sum_us <= self.max_us * self.count
        }
    }

    /// The accumulator after adding one duration of `us` microseconds.
    pub open spec fn after_record(self, us: u64) -> TimingStat {
        TimingStat {
            sum_us: (self.sum_us + us) as u64,
            count: (self.count + 1) as u64,
            min_us: if us < self.min_us {
                us
            } else {
                self.min_us
            },
            max_us: if us > self.max_us {
                us
            } else {
                self.max_us
            },
        }
    }

    /// Integer average of the recorded durations; zero when none.
    pub open spec fn spec_avg(self) -> u64 {
        if self.count == 0 {
            0
        } else {
            (self.sum_us / self.count) as u64
        }
    }

    pub fn new() -> (r: Self)
        ensures
            r == TimingStat::empty(),
    {
        TimingStat { sum_us: 0, count: 0, min_us: u64::MAX, max_us: 0 }
    }

    /// Adds one duration of `us` microseconds.
    pub fn record(&mut self, us: u64)
        requires
            old(self).sum_us + us <= u64::MAX,
            old(self).count < u64::MAX,
        ensures
            *final(self) == old(self).after_record(us),
            old(self).wf() ==> final(self).wf(),
    {
        proof {
            if self.wf() && self.count > 0 {
                lemma_record_keeps_bounds(
                    self.sum_us as int,
                    self.count as int,
                    self.min_us as int,
                    self.max_us as int,
                    us as int,
                );
            }
        }
        self.sum_us += us;
        self.count += 1;
        if us < self.min_us {
            self.min_us = us;
        }
        if us > self.max_us {
            self.max_us = us;
        }
    }

    /// Integer average of the recorded durations; zero when none.
    pub fn avg(&self) -> (r: u64)
        ensures
            r == self.spec_avg(),
            self.count == 0 ==> r == 0,
            self.count > 0 ==> r == self.sum_us / self.count,
    {
        if self.count == 0 {
            0
        } else {
            self.sum_us / self.count
        }
    }

    /// Stand-in for the 95th percentile: the maximum.
    pub fn p95_approx(&self) -> (r: u64)
        ensures
            r == self.max_us,
    {
        self.max_us
    }

    /// What the period reports: nothing when no duration was recorded,
    /// otherwise the average, the minimum (zero while it is still the
    /// `u64::MAX` sentinel), the maximum and the count.
    pub fn report(&self) -> (r: Option<TimingReport>)
        ensures
            self.count == 0 ==> r is None,
            self.count != 0 ==> r == Some(
                TimingReport {
                    avg_us: self.spec_avg(),
                    min_us: if self.min_us == u64::MAX {
                        0
                    } else {
                        self.min_us
                    },
                    max_us: self.max_us,
                    count: self.count,
                },
            ),
    {
        if self.count == 0 {
            return None;
        }
        Some(
            TimingReport {
                avg_us: self.avg(),
                min_us: if self.min_us == u64::MAX {
                    0
                } else {
                    self.min_us
                },
                max_us: self.max_us,
                count: self.count,
            },
        )
    }

    /// Starts a new period.
    pub fn reset(&mut self)
        ensures
            *final(self) == TimingStat::empty(),
    {
        self.sum_us = 0;
        self.count = 0;
        self.min_us = u64::MAX;
        self.max_us = 0;
    }
}

/// Recording `us` keeps `min * count <= sum <= max * count`.
proof fn lemma_record_keeps_bounds(sum: int, count: int, min: int, max: int, us: int)
    by (nonlinear_arith)
    requires
        count > 0,
        0 <= min <= max,
        0 <= us,
        min * count <= sum,
        sum <= max * count,
    ensures
        (if us < min {
            us
        } else {
            min
        }) * (count + 1) <= sum + us,
        sum + us <= (if us > max {
            us
        } else {
            max
        }) * (count + 1),
{
}

/// The average of the recorded durations lies between their minimum and
/// maximum.
pub proof fn lemma_avg_between_min_and_max(stat: TimingStat)
    requires
        stat.wf(),
        stat.count > 0,
    ensures
        stat.min_us <= stat.spec_avg() <= stat.max_us,
{
    let s = stat.sum_us as int;
    let c = stat.count as int;
    let lo = stat.min_us as int;
    let hi = stat.max_us as int;
    assert(lo <= s / c <= hi) by (nonlinear_arith)
        requires
            c > 0,
            lo >= 0,
            lo * c <= s,
            s <= hi * c,
    ;
}

/// Sum of a sequence of durations.
pub open spec fn seq_sum(xs: Seq<u64>) -> int
    decreases xs.len(),
{
    if xs.len() == 0 {
        0
    } else {
        seq_sum(xs.drop_last()) + xs.last()
    }
}

/// Smallest of a non-empty sequence of durations.
pub open spec fn seq_min(xs: Seq<u64>) -> u64
    decreases xs.len(),
{
    if xs.len() <= 1 {
        xs[0]
    } else if xs.last() < seq_min(xs.drop_last()) {
        xs.last()
    } else {
        seq_min(xs.drop_last())
    }
}

/// Largest of a non-empty sequence of durations.
pub open spec fn seq_max(xs: Seq<u64>) -> u64
    decreases xs.len(),
{
    if xs.len() <= 1 {
        xs[0]
    } else if xs.last() > seq_max(xs.drop_last()) {
        xs.last()
    } else {
        seq_max(xs.drop_last())
    }
}

/// The accumulator after `new()` followed by `record(x)` for each `x` of
/// `xs`, in order.
pub open spec fn timing_of(xs: Seq<u64>) -> TimingStat
    decreases xs.len(),
{
    if xs.len() == 0 {
        TimingStat::empty()
    } else {
        timing_of(xs.drop_last()).after_record(xs.last())
    }
}

/// A period's accumulator over a run of records: after recording the
/// durations `xs` (whose total fits in `u64`) into a new accumulator, the
/// count is their number, the sum their total, the minimum and maximum their
/// smallest and largest, and the average is their total divided by their
/// number, rounded down, which lies between the two.
pub proof fn lemma_timing_over_records(xs: Seq<u64>)
    requires
        1 <= xs.len() <= u64::MAX,
        seq_sum(xs) <= u64::MAX,
    ensures
        timing_of(xs).count == xs.len(),
        timing_of(xs).sum_us == seq_sum(xs),
        timing_of(xs).min_us == seq_min(xs),
        timing_of(xs).max_us == seq_max(xs),
        timing_of(xs).wf(),
        timing_of(xs).spec_avg() == seq_sum(xs) / (xs.len() as int),
        seq_min(xs) <= timing_of(xs).spec_avg() <= seq_max(xs),
    decreases xs.len(),
{
    let init = xs.drop_last();
    let x = xs.last();
    if init.len() == 0 {
        assert(timing_of(init) == TimingStat::empty());
        assert(seq_sum(init) == 0);
    } else {
        assert(seq_sum(init) <= seq_sum(xs));
        lemma_timing_over_records(init);
        let s = timing_of(init);
        lemma_record_keeps_bounds(
            s.sum_us as int,
            s.count as int,
            s.min_us as int,
            s.max_us as int,
            x as int,
        );
    }
    lemma_avg_between_min_and_max(timing_of(xs));
}

/// Relay metrics of the server over a reporting period.
pub struct ServerMetrics {
    /// Relay total (decrypt to last send).
    pub relay: TimingStat,
    /// SRTP decryption.
    pub decrypt: TimingStat,
    /// SRTP encryption, per target.
    pub encrypt: TimingStat,
    /// Wait for the SRTP context lock.
    pub lock_wait: TimingStat,
    /// Fan-out per relayed packet.
    pub fan_out_sum: u64,
    pub fan_out_count: u64,
    pub fan_out_min: u32,
    pub fan_out_max: u32,
    pub encrypt_fail: u64,
    pub decrypt_fail: u64,
    pub nack_received: u64,
    pub rtx_sent: u64,
    pub rtx_cache_miss: u64,
    pub pli_sent: u64,
    pub sr_relayed: u64,
    pub rr_relayed: u64,
    pub twcc_sent: u64,
    pub twcc_recorded: u64,
    pub sub_rtcp_received: u64,
    pub sub_rtcp_not_rtcp: u64,
    pub sub_rtcp_decrypted: u64,
}

impl ServerMetrics {
    /// All accumulators empty and all counters zero; the fan-out minimum
    /// starts at `u32::MAX`.
    pub open spec fn empty() -> ServerMetrics {
        ServerMetrics {
            relay: TimingStat::empty(),
            decrypt: TimingStat::empty(),
            encrypt: TimingStat::empty(),
            lock_wait: TimingStat::empty(),
            fan_out_sum: 0,
            fan_out_count: 0,
            fan_out_min: u32::MAX,
            fan_out_max: 0,
            encrypt_fail: 0,
            decrypt_fail: 0,
            nack_received: 0,
            rtx_sent: 0,
            rtx_cache_miss: 0,
            pli_sent: 0,
            sr_relayed: 0,
            rr_relayed: 0,
            twcc_sent: 0,
            twcc_recorded: 0,
            sub_rtcp_received: 0,
            sub_rtcp_not_rtcp: 0,
            sub_rtcp_decrypted: 0,
        }
    }

    pub fn new() -> (r: Self)
        ensures
            r == ServerMetrics::empty(),
    {
        ServerMetrics {
            relay: TimingStat::new(),
            decrypt: TimingStat::new(),
            encrypt: TimingStat::new(),
            lock_wait: TimingStat::new(),
            fan_out_sum: 0,
            fan_out_count: 0,
            fan_out_min: u32::MAX,
            fan_out_max: 0,
            encrypt_fail: 0,
            decrypt_fail: 0,
            nack_received: 0,
            rtx_sent: 0,
            rtx_cache_miss: 0,
            pli_sent: 0,
            sr_relayed: 0,
            rr_relayed: 0,
            twcc_sent: 0,
            twcc_recorded: 0,
            sub_rtcp_received: 0,
            sub_rtcp_not_rtcp: 0,
            sub_rtcp_decrypted: 0,
        }
    }

    /// Records that one packet was relayed to `count` targets.
    pub fn record_fan_out(&mut self, count: u32)
        requires
            old(self).fan_out_sum + count <= u64::MAX,
            old(self).fan_out_count < u64::MAX,
        ensures
            *final(self) == (ServerMetrics {
                fan_out_sum: (old(self).fan_out_sum + count) as u64,
                fan_out_count: (old(self).fan_out_count + 1) as u64,
                fan_out_min: if count < old(self).fan_out_min {
                    count
                } else {
                    old(self).fan_out_min
                },
                fan_out_max: if count > old(self).fan_out_max {
                    count
                } else {
                    old(self).fan_out_max
                },
                ..*old(self)
            }),
    {
        self.fan_out_sum += count as u64;
        self.fan_out_count += 1;
        if count < self.fan_out_min {
            self.fan_out_min = count;
        }
        if count > self.fan_out_max {
            self.fan_out_max = count;
        }
    }

    /// The fan-out minimum as reported: zero while it is still the
    /// `u32::MAX` sentinel.
    pub fn reported_fan_out_min(&self) -> (r: u32)
        ensures
            r == (if self.fan_out_min == u32::MAX {
                0
            } else {
                self.fan_out_min
            }),
    {
        if self.fan_out_min == u32::MAX {
            0
        } else {
            self.fan_out_min
        }
    }

    /// Starts a new period: every accumulator and counter back to its
    /// initial value.
    pub fn reset(&mut self)
        ensures
            *final(self) == ServerMetrics::empty(),
    {
        self.relay.reset();
        self.decrypt.reset();
        self.encrypt.reset();
        self.lock_wait.reset();
        self.fan_out_sum = 0;
        self.fan_out_count = 0;
        self.fan_out_min = u32::MAX;
        self.fan_out_max = 0;
        self.encrypt_fail = 0;
        self.decrypt_fail = 0;
        self.nack_received = 0;
        self.rtx_sent = 0;
        self.rtx_cache_miss = 0;
        self.pli_sent = 0;
        self.sr_relayed = 0;
        self.rr_relayed = 0;
        self.twcc_sent = 0;
        self.twcc_recorded = 0;
        self.sub_rtcp_received = 0;
        self.sub_rtcp_not_rtcp = 0;
        self.sub_rtcp_decrypted = 0;
    }
}

} // verus!
