use vstd::prelude::*;

use crate::address::NetAddress;
use crate::clock::now_micros;

verus! {

/// How an address was learned. The kinds are ranked by trust: an address
/// configured by the operator is trusted most.
#[derive(Debug, Clone, Copy, PartialEq, Eq, Structural)]
pub enum PeerAddressSource {
    Config,
    FromPeerConnection,
    FromDiscovery,
    FromAnotherPeer,
}

/// The trust rank of a source: higher is more trusted.
pub open spec fn trust_rank(s: PeerAddressSource) -> nat {
    match s {
        PeerAddressSource::Config => 3,
        PeerAddressSource::FromPeerConnection => 2,
        PeerAddressSource::FromDiscovery => 1,
        PeerAddressSource::FromAnotherPeer => 0,
    }
}

impl PeerAddressSource {
    pub fn trust(&self) -> (r: u8)
        ensures
            r == trust_rank(*self),
    {
        match self {
            PeerAddressSource::Config => 3,
            PeerAddressSource::FromPeerConnection => 2,
            PeerAddressSource::FromDiscovery => 1,
            PeerAddressSource::FromAnotherPeer => 0,
        }
    }
}

/// The mathematical content of an address record. Timestamps are
/// microseconds since the Unix epoch, latencies nanoseconds.
pub struct RecordView {
    pub address: Seq<u8>,
    pub source: PeerAddressSource,
    pub last_seen: Option<i64>,
    pub last_attempted: Option<i64>,
    pub connection_attempts: u64,
    /// When the current failure streak began.
    pub offline_since: Option<i64>,
    pub avg_latency: Option<u64>,
    pub latency_samples: u64,
    pub last_failed_reason: Option<Seq<char>>,
}

/// A record is consistent: a failure streak has a start time, and a mean
/// latency exists exactly when samples were taken.
pub open spec fn record_wf(r: RecordView) -> bool {
    &&& r.connection_attempts > 0 ==> r.offline_since is Some
    &&& r.avg_latency is Some <==> r.latency_samples > 0
}

/// When the endpoint went offline: the start of the current failure streak,
/// none while there is no streak.
pub open spec fn offline_at_of(r: RecordView) -> Option<i64> {
    if r.connection_attempts == 0 {
        None
    } else {
        r.offline_since
    }
}

/// Known latencies rank before unknown ones, lower before higher.
pub open spec fn latency_no_worse(a: Option<u64>, b: Option<u64>) -> bool {
    match (a, b) {
        (_, None) => true,
        (None, Some(_)) => false,
        (Some(x), Some(y)) => x <= y,
    }
}

/// The priority order: `a` ranks no worse than `b`. Fewer consecutive
/// failures first, then lower mean latency, unknown latency last.
pub open spec fn ranks_no_worse(a: RecordView, b: RecordView) -> bool {
    a.connection_attempts < b.connection_attempts || (a.connection_attempts
        == b.connection_attempts && latency_no_worse(a.avg_latency, b.avg_latency))
}

/// The more trusted of two sources, the current one on a tie.
pub open spec fn better_source(cur: PeerAddressSource, new: PeerAddressSource) -> PeerAddressSource {
    if trust_rank(new) > trust_rank(cur) {
        new
    } else {
        cur
    }
}

/// The later of two optional timestamps; a known time beats none.
pub open spec fn later(a: Option<i64>, b: Option<i64>) -> Option<i64> {
    match (a, b) {
        (Some(x), Some(y)) => if y > x {
            Some(y)
        } else {
            Some(x)
        },
        (None, _) => b,
        (_, None) => a,
    }
}

/// The running mean after one more sample.
pub open spec fn next_mean(mean: Option<u64>, samples: u64, sample: u64) -> u64 {
    match mean {
        Some(m) => ((m * samples + sample) / (samples + 1)) as u64,
        None => sample,
    }
}

pub open spec fn fresh_record(address: Seq<u8>, source: PeerAddressSource) -> RecordView {
    RecordView {
        address,
        source,
        last_seen: None,
        last_attempted: None,
        connection_attempts: 0,
        offline_since: None,
        avg_latency: None,
        latency_samples: 0,
        last_failed_reason: None,
    }
}

pub open spec fn with_latency_sample(r: RecordView, sample: u64) -> RecordView {
    RecordView {
        avg_latency: Some(next_mean(r.avg_latency, r.latency_samples, sample)),
        latency_samples: if r.latency_samples == u64::MAX {
            u64::MAX
        } else {
            (r.latency_samples + 1) as u64
        },
        ..r
    }
}

pub open spec fn seen_at(r: RecordView, now: i64) -> RecordView {
    RecordView {
        last_seen: Some(now),
        last_attempted: Some(now),
        connection_attempts: 0,
        offline_since: None,
        ..r
    }
}

pub open spec fn failed_at(r: RecordView, now: i64, reason: Seq<char>) -> RecordView {
    RecordView {
        last_attempted: Some(now),
        connection_attempts: if r.connection_attempts == u64::MAX {
            u64::MAX
        } else {
            (r.connection_attempts + 1) as u64
        },
        offline_since: if r.connection_attempts == 0 {
            Some(now)
        } else {
            r.offline_since
        },
        last_failed_reason: Some(reason),
        ..r
    }
}

pub open spec fn with_attempts_reset(r: RecordView) -> RecordView {
    RecordView { connection_attempts: 0, offline_since: None, ..r }
}

/// Combines two records of the same address: later timestamps, the more
/// trusted source, the failure streak of the record with fewer failures and
/// the latency of the record with more samples (this record's on a tie).
pub open spec fn merged(a: RecordView, b: RecordView) -> RecordView {
    let take_b_failures = b.connection_attempts < a.connection_attempts;
    let take_b_latency = b.latency_samples > a.latency_samples;
    RecordView {
        address: a.address,
        source: better_source(a.source, b.source),
        last_seen: later(a.last_seen, b.last_seen),
        last_attempted: later(a.last_attempted, b.last_attempted),
        connection_attempts: if take_b_failures {
            b.connection_attempts
        } else {
            a.connection_attempts
        },
        offline_since: if take_b_failures {
            b.offline_since
        } else {
            a.offline_since
        },
        last_failed_reason: if take_b_failures {
            b.last_failed_reason
        } else {
            a.last_failed_reason
        },
        avg_latency: if take_b_latency {
            b.avg_latency
        } else {
            a.avg_latency
        },
        latency_samples: if take_b_latency {
            b.latency_samples
        } else {
            a.latency_samples
        },
    }
}

/// Merging a record with itself changes nothing.
pub proof fn lemma_merged_self(r: RecordView)
    ensures
        merged(r, r) == r,
{
    assert(better_source(r.source, r.source) == r.source);
    assert(later(r.last_seen, r.last_seen) == r.last_seen);
    assert(later(r.last_attempted, r.last_attempted) == r.last_attempted);
}

fn later_of(a: Option<i64>, b: Option<i64>) -> (r: Option<i64>)
    ensures
        r == later(a, b),
{
    match (a, b) {
        (Some(x), Some(y)) => if y > x {
            Some(y)
        } else {
            Some(x)
        },
        (None, _) => b,
        (_, None) => a,
    }
}

fn copy_reason(r: &Option<String>) -> (c: Option<String>)
    ensures
        reason_view(c) == reason_view(*r),
{
    match r {
        Some(s) => Some(s.clone()),
        None => None,
    }
}

pub open spec fn reason_view(r: Option<String>) -> Option<Seq<char>> {
    match r {
        Some(s) => Some(s@),
        None => None,
    }
}

/// One network endpoint of a peer with its provenance and reliability
/// statistics.
#[derive(Debug, Clone)]
pub struct MultiaddrWithStats {
    address: NetAddress,
    source: PeerAddressSource,
    last_seen: Option<i64>,
    last_attempted: Option<i64>,
    connection_attempts: u64,
    offline_since: Option<i64>,
    avg_latency: Option<u64>,
    latency_samples: u64,
    last_failed_reason: Option<String>,
}

impl View for MultiaddrWithStats {
    type V = RecordView;

    closed spec fn view(&self) -> RecordView {
        RecordView {
            address: self.address@,
            source: self.source,
            last_seen: self.last_seen,
            last_attempted: self.last_attempted,
            connection_attempts: self.connection_attempts,
            offline_since: self.offline_since,
            avg_latency: self.avg_latency,
            latency_samples: self.latency_samples,
            last_failed_reason: reason_view(self.last_failed_reason),
        }
    }
}

impl MultiaddrWithStats {
    pub open spec fn wf(&self) -> bool {
        record_wf(self@)
    }

    /// A record with no statistics yet.
    pub fn new(address: NetAddress, source: PeerAddressSource) -> (r: MultiaddrWithStats)
        ensures
            r@ == fresh_record(address@, source),
            r.wf(),
    {
        MultiaddrWithStats {
            address,
            source,
            last_seen: None,
            last_attempted: None,
            connection_attempts: 0,
            offline_since: None,
            avg_latency: None,
            latency_samples: 0,
            last_failed_reason: None,
        }
    }

    /// A record from stored statistics; none where they are inconsistent: a
    /// failure streak without a start time, or a mean latency without samples
    /// (or samples without a mean).
    pub fn from_parts(
        address: NetAddress,
        source: PeerAddressSource,
        last_seen: Option<i64>,
        last_attempted: Option<i64>,
        connection_attempts: u64,
        offline_since: Option<i64>,
        avg_latency: Option<u64>,
        latency_samples: u64,
        last_failed_reason: Option<String>,
    ) -> (r: Option<MultiaddrWithStats>)
        ensures
            match r {
                Some(rec) => rec.wf() && rec@ == (RecordView {
                    address: address@,
                    source,
                    last_seen,
                    last_attempted,
                    connection_attempts,
                    offline_since,
                    avg_latency,
                    latency_samples,
                    last_failed_reason: reason_view(last_failed_reason),
                }),
                None => !((connection_attempts > 0 ==> offline_since is Some) && (avg_latency is Some
                    <==> latency_samples > 0)),
            },
    {
        if connection_attempts > 0 && offline_since.is_none() {
            return None;
        }
        if avg_latency.is_some() != (latency_samples > 0) {
            return None;
        }
        Some(
            MultiaddrWithStats {
                address,
                source,
                last_seen,
                last_attempted,
                connection_attempts,
                offline_since,
                avg_latency,
                latency_samples,
                last_failed_reason,
            },
        )
    }

    /// The start of the current failure streak as stored, whether or not a
    /// streak is under way.
    pub fn offline_since(&self) -> (r: Option<i64>)
        ensures
            r == self@.offline_since,
    {
        self.offline_since
    }

    /// A copy of this record.
    pub fn duplicate(&self) -> (r: MultiaddrWithStats)
        ensures
            r@ == self@,
    {
        MultiaddrWithStats {
            address: self.address.duplicate(),
            source: self.source,
            last_seen: self.last_seen,
            last_attempted: self.last_attempted,
            connection_attempts: self.connection_attempts,
            offline_since: self.offline_since,
            avg_latency: self.avg_latency,
            latency_samples: self.latency_samples,
            last_failed_reason: copy_reason(&self.last_failed_reason),
        }
    }

    pub fn address(&self) -> (r: &NetAddress)
        ensures
            r@ == self@.address,
    {
        &self.address
    }

    pub fn source(&self) -> (r: PeerAddressSource)
        ensures
            r == self@.source,
    {
        self.source
    }

    pub fn last_seen(&self) -> (r: Option<i64>)
        ensures
            r == self@.last_seen,
    {
        self.last_seen
    }

    pub fn last_attempted(&self) -> (r: Option<i64>)
        ensures
            r == self@.last_attempted,
    {
        self.last_attempted
    }

    pub fn connection_attempts(&self) -> (r: u64)
        ensures
            r == self@.connection_attempts,
    {
        self.connection_attempts
    }

    /// The mean latency in nanoseconds, none before the first sample.
    pub fn avg_latency(&self) -> (r: Option<u64>)
        ensures
            r == self@.avg_latency,
    {
        self.avg_latency
    }

    pub fn latency_samples(&self) -> (r: u64)
        ensures
            r == self@.latency_samples,
    {
        self.latency_samples
    }

    pub fn last_failed_reason(&self) -> (r: Option<&String>)
        ensures
            match r {
                Some(s) => self@.last_failed_reason == Some(s@),
                None => self@.last_failed_reason is None,
            },
    {
        match &self.last_failed_reason {
            Some(s) => Some(s),
            None => None,
        }
    }

    /// The start of the current failure streak, none while the endpoint has
    /// no failures since its last success.
    pub fn offline_at(&self) -> (r: Option<i64>)
        requires
            self.wf(),
        ensures
            r == offline_at_of(self@),
            r is Some <==> self@.connection_attempts > 0,
    {
        if self.connection_attempts == 0 {
            None
        } else {
            self.offline_since
        }
    }

    /// Takes `source` where it is more trusted than the current one.
    pub fn update_source_if_better(&mut self, source: PeerAddressSource)
        ensures
            final(self)@ == (RecordView { source: better_source(old(self)@.source, source), ..old(self)@ }),
    {
        if source.trust() > self.source.trust() {
            self.source = source;
        }
    }

    /// Adds a latency sample, in nanoseconds, to the running mean.
    pub fn update_latency(&mut self, sample: u64)
        requires
            old(self).wf(),
        ensures
            final(self)@ == with_latency_sample(old(self)@, sample),
            final(self).wf(),
    {
        let n = self.latency_samples;
        let mean: u64 = match self.avg_latency {
            Some(m) => {
                let ghost max: int = u64::MAX as int;
                assert(m as int * n as int <= max * max) by (nonlinear_arith)
                    requires
                        m as int <= max,
                        n as int <= max,
                        0 <= m,
                        0 <= n,
                ;
                assert(max * max + max <= u128::MAX) by (nonlinear_arith)
                    requires
                        max == 0xffff_ffff_ffff_ffffint,
                ;
                let total: u128 = m as u128 * n as u128 + sample as u128;
                assert(total as int / (n as int + 1) <= max) by (nonlinear_arith)
                    requires
                        total as int == m as int * n as int + sample as int,
                        0 <= m as int <= max,
                        0 <= sample as int <= max,
                        0 <= n,
                {
                    assert(total as int <= max * (n as int + 1));
                }
                (total / (n as u128 + 1)) as u64
            },
            None => sample,
        };
        self.avg_latency = Some(mean);
        if n < u64::MAX {
            self.latency_samples = n + 1;
        }
    }

    /// Records a successful interaction at time `now`.
    pub fn mark_last_seen_at(&mut self, now: i64)
        requires
            old(self).wf(),
        ensures
            final(self)@ == seen_at(old(self)@, now),
            final(self).wf(),
    {
        self.last_seen = Some(now);
        self.last_attempted = Some(now);
        self.connection_attempts = 0;
        self.offline_since = None;
    }

    /// Records a successful interaction now.
    pub fn mark_last_seen_now(&mut self)
        requires
            old(self).wf(),
        ensures
            exists|now: i64| final(self)@ == seen_at(old(self)@, now),
            final(self).wf(),
    {
        let now = now_micros();
        self.mark_last_seen_at(now);
    }

    /// Records a failed connection attempt at time `now`.
    pub fn mark_failed_connection_attempt_at(&mut self, reason: String, now: i64)
        requires
            old(self).wf(),
        ensures
            final(self)@ == failed_at(old(self)@, now, reason@),
            final(self).wf(),
    {
        if self.connection_attempts == 0 {
            self.offline_since = Some(now);
        }
        if self.connection_attempts < u64::MAX {
            self.connection_attempts = self.connection_attempts + 1;
        }
        self.last_attempted = Some(now);
        self.last_failed_reason = Some(reason);
    }

    /// Records a failed connection attempt now.
    pub fn mark_failed_connection_attempt(&mut self, reason: String)
        requires
            old(self).wf(),
        ensures
            exists|now: i64| final(self)@ == failed_at(old(self)@, now, reason@),
            final(self).wf(),
    {
        let now = now_micros();
        self.mark_failed_connection_attempt_at(reason, now);
    }

    /// Ends the failure streak, keeping every other statistic.
    pub fn reset_connection_attempts(&mut self)
        requires
            old(self).wf(),
        ensures
            final(self)@ == with_attempts_reset(old(self)@),
            final(self).wf(),
    {
        self.connection_attempts = 0;
        self.offline_since = None;
    }

    /// Combines the statistics of `other`, a record of the same address.
    pub fn merge(&mut self, other: &MultiaddrWithStats)
        requires
            old(self).wf(),
            other.wf(),
        ensures
            final(self)@ == merged(old(self)@, other@),
            final(self).wf(),
    {
        self.source = if other.source.trust() > self.source.trust() {
            other.source
        } else {
            self.source
        };
        self.last_seen = later_of(self.last_seen, other.last_seen);
        self.last_attempted = later_of(self.last_attempted, other.last_attempted);
        if other.connection_attempts < self.connection_attempts {
            self.connection_attempts = other.connection_attempts;
            self.offline_since = other.offline_since;
            self.last_failed_reason = copy_reason(&other.last_failed_reason);
        }
        if other.latency_samples > self.latency_samples {
            self.avg_latency = other.avg_latency;
            self.latency_samples = other.latency_samples;
        }
    }

    /// Whether this record ranks no worse than `other` in the priority order.
    pub fn ranks_no_worse_than(&self, other: &MultiaddrWithStats) -> (r: bool)
        ensures
            r == ranks_no_worse(self@, other@),
    {
        if self.connection_attempts != other.connection_attempts {
            self.connection_attempts < other.connection_attempts
        } else {
            match (self.avg_latency, other.avg_latency) {
                (_, None) => true,
                (None, Some(_)) => false,
                (Some(x), Some(y)) => x <= y,
            }
        }
    }

    /// Compares two records in the priority order: `Less` when this record
    /// ranks strictly before `other`, `Equal` when neither ranks before the
    /// other.
    pub fn compare(&self, other: &MultiaddrWithStats) -> (r: core::cmp::Ordering)
        ensures
            r == core::cmp::Ordering::Less <==> (ranks_no_worse(self@, other@) && !ranks_no_worse(other@, self@)),
            r == core::cmp::Ordering::Equal <==> (ranks_no_worse(self@, other@) && ranks_no_worse(other@, self@)),
            r == core::cmp::Ordering::Greater <==> !ranks_no_worse(self@, other@),
    {
        let a = self.ranks_no_worse_than(other);
        let b = other.ranks_no_worse_than(self);
        if a && b {
            core::cmp::Ordering::Equal
        } else if a {
            core::cmp::Ordering::Less
        } else {
            core::cmp::Ordering::Greater
        }
    }
}

fn same_time(a: Option<i64>, b: Option<i64>) -> (r: bool)
    ensures
        r == (a == b),
{
    match (a, b) {
        (Some(x), Some(y)) => x == y,
        (None, None) => true,
        _ => false,
    }
}

fn same_latency(a: Option<u64>, b: Option<u64>) -> (r: bool)
    ensures
        r == (a == b),
{
    match (a, b) {
        (Some(x), Some(y)) => x == y,
        (None, None) => true,
        _ => false,
    }
}

fn same_reason(a: &Option<String>, b: &Option<String>) -> (r: bool)
    ensures
        r == (reason_view(*a) == reason_view(*b)),
{
    match (a, b) {
        (Some(x), Some(y)) => x.eq(y),
        (None, None) => true,
        _ => false,
    }
}

impl MultiaddrWithStats {
    /// Whether the two records hold the same address and statistics.
    pub fn same_record(&self, other: &MultiaddrWithStats) -> (r: bool)
        ensures
            r == (self@ == other@),
    {
        let a = self.address.same_as(&other.address);
        let b = self.source == other.source;
        let c = same_time(self.last_seen, other.last_seen);
        let d = same_time(self.last_attempted, other.last_attempted);
        let e = self.connection_attempts == other.connection_attempts;
        let f = same_time(self.offline_since, other.offline_since);
        let g = same_latency(self.avg_latency, other.avg_latency);
        let h = self.latency_samples == other.latency_samples;
        let i = same_reason(&self.last_failed_reason, &other.last_failed_reason);
        a && b && c && d && e && f && g && h && i
    }
}

impl PartialEq for MultiaddrWithStats {
    fn eq(&self, other: &MultiaddrWithStats) -> (r: bool) {
        self.same_record(other)
    }
}

impl vstd::std_specs::cmp::PartialEqSpecImpl for MultiaddrWithStats {
    open spec fn obeys_eq_spec() -> bool {
        true
    }

    open spec fn eq_spec(&self, other: &MultiaddrWithStats) -> bool {
        self@ == other@
    }
}

} // verus!
