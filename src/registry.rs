use vstd::prelude::*;

use crate::address::{lexicographically_sorted, sort_lexicographically, NetAddress};
use crate::clock::now_micros;
use crate::ordering::{
    has_address, lemma_sort_has_address, lemma_sort_multiset, lemma_sort_unique, priority_sort,
    priority_sorted, sort_by_priority, unique_addresses, views,
};
use crate::record::{
    failed_at, fresh_record, merged, offline_at_of, record_wf, seen_at, with_attempts_reset,
    with_latency_sample, MultiaddrWithStats, PeerAddressSource, RecordView, better_source, later,
};

verus! {

broadcast use vstd::seq_lib::group_to_multiset_ensures;

/// The registry's invariant: consistent records, one per address, in
/// priority order.
pub open spec fn registry_wf(s: Seq<RecordView>) -> bool {
    &&& forall|i: int| 0 <= i < s.len() ==> record_wf(#[trigger] s[i])
    &&& unique_addresses(s)
    &&& priority_sorted(s)
}

/// The index of the first record with address `a`; the length where there
/// is none.
pub open spec fn position_of(s: Seq<RecordView>, a: Seq<u8>) -> int
    decreases s.len(),
{
    if s.len() == 0 {
        0
    } else if s[0].address == a {
        0
    } else {
        1 + position_of(s.drop_first(), a)
    }
}

/// `s` with `r` folded in: merged into the record of the same address, or
/// appended where there is none.
pub open spec fn absorb(s: Seq<RecordView>, r: RecordView) -> Seq<RecordView> {
    if has_address(s, r.address) {
        let i = position_of(s, r.address);
        s.update(i, merged(s[i], r))
    } else {
        s.push(r)
    }
}

/// `s` with every record of `rs` folded in, in order.
pub open spec fn absorb_all(s: Seq<RecordView>, rs: Seq<RecordView>) -> Seq<RecordView>
    decreases rs.len(),
{
    if rs.len() == 0 {
        s
    } else {
        absorb(absorb_all(s, rs.drop_last()), rs.last())
    }
}

/// `s` after announcing address `a` from `source`: a more trusted source is
/// taken by an existing record; an unknown address gets a fresh record.
pub open spec fn announce(s: Seq<RecordView>, a: Seq<u8>, source: PeerAddressSource) -> Seq<RecordView> {
    if has_address(s, a) {
        let i = position_of(s, a);
        s.update(i, RecordView { source: better_source(s[i].source, source), ..s[i] })
    } else {
        s.push(fresh_record(a, source))
    }
}

/// `s` after announcing each address of `addrs` in order.
pub open spec fn announce_all(s: Seq<RecordView>, addrs: Seq<Seq<u8>>, source: PeerAddressSource) -> Seq<RecordView>
    decreases addrs.len(),
{
    if addrs.len() == 0 {
        s
    } else {
        announce(announce_all(s, addrs.drop_last(), source), addrs.last(), source)
    }
}

/// `s` with `f` applied to the record of address `a`, then re-sorted; `s`
/// itself where no record has that address.
pub open spec fn apply_at(s: Seq<RecordView>, a: Seq<u8>, f: spec_fn(RecordView) -> RecordView) -> Seq<RecordView> {
    if has_address(s, a) {
        let i = position_of(s, a);
        priority_sort(s.update(i, f(s[i])))
    } else {
        s
    }
}

/// `s` after a latency sample for address `a`.
pub open spec fn after_latency(s: Seq<RecordView>, a: Seq<u8>, sample: u64) -> Seq<RecordView> {
    apply_at(s, a, |x: RecordView| with_latency_sample(x, sample))
}

/// `s` after a successful interaction with address `a` at time `now`.
pub open spec fn after_seen(s: Seq<RecordView>, a: Seq<u8>, now: i64) -> Seq<RecordView> {
    apply_at(s, a, |x: RecordView| seen_at(x, now))
}

/// `s` after a failed connection attempt to address `a` at time `now`.
pub open spec fn after_failure(s: Seq<RecordView>, a: Seq<u8>, now: i64, reason: Seq<char>) -> Seq<RecordView> {
    apply_at(s, a, |x: RecordView| failed_at(x, now, reason))
}

/// The earlier of two optional timestamps; none where either is none.
pub open spec fn earliest(a: Option<i64>, b: Option<i64>) -> Option<i64> {
    match (a, b) {
        (Some(x), Some(y)) => if y < x {
            Some(y)
        } else {
            Some(x)
        },
        _ => None,
    }
}

/// The latest `last_seen` over the records.
pub open spec fn latest_seen(s: Seq<RecordView>) -> Option<i64>
    decreases s.len(),
{
    if s.len() == 0 {
        None
    } else {
        later(latest_seen(s.drop_last()), s.last().last_seen)
    }
}

/// The latest `last_attempted` over the records.
pub open spec fn latest_attempted(s: Seq<RecordView>) -> Option<i64>
    decreases s.len(),
{
    if s.len() == 0 {
        None
    } else {
        later(latest_attempted(s.drop_last()), s.last().last_attempted)
    }
}

/// When the peer went offline: the earliest start of a failure streak over
/// the records, none where there are no records or some record has no
/// streak.
pub open spec fn peer_offline_at(s: Seq<RecordView>) -> Option<i64>
    decreases s.len(),
{
    if s.len() == 0 {
        None
    } else if s.len() == 1 {
        offline_at_of(s[0])
    } else {
        earliest(peer_offline_at(s.drop_last()), offline_at_of(s.last()))
    }
}

pub open spec fn addresses_of(s: Seq<RecordView>) -> Seq<Seq<u8>> {
    s.map_values(|r: RecordView| r.address)
}

pub proof fn lemma_position(s: Seq<RecordView>, a: Seq<u8>, p: int)
    requires
        0 <= p <= s.len(),
        forall|k: int| 0 <= k < p ==> #[trigger] s[k].address != a,
        p == s.len() || s[p].address == a,
    ensures
        position_of(s, a) == p,
        has_address(s, a) <==> p < s.len(),
    decreases p,
{
    if p > 0 {
        let rest = s.drop_first();
        assert forall|k: int| 0 <= k < p - 1 implies #[trigger] rest[k].address != a by {
            assert(rest[k] == s[k + 1]);
        }
        lemma_position(rest, a, p - 1);
    }
    if has_address(s, a) {
        let k = choose|k: int| 0 <= k < s.len() && #[trigger] s[k].address == a;
        assert(k >= p);
    }
}

pub proof fn lemma_position_found(s: Seq<RecordView>, a: Seq<u8>)
    requires
        has_address(s, a),
    ensures
        0 <= position_of(s, a) < s.len(),
        s[position_of(s, a)].address == a,
    decreases s.len(),
{
    if s[0].address != a {
        let rest = s.drop_first();
        let k = choose|k: int| 0 <= k < s.len() && #[trigger] s[k].address == a;
        assert(rest[k - 1] == s[k]);
        lemma_position_found(rest, a);
    }
}

proof fn lemma_resorted(t: Seq<RecordView>)
    requires
        forall|i: int| 0 <= i < t.len() ==> record_wf(#[trigger] t[i]),
        unique_addresses(t),
    ensures
        forall|i: int|
            0 <= i < priority_sort(t).len() ==> record_wf(#[trigger] priority_sort(t)[i]),
        unique_addresses(priority_sort(t)),
        priority_sort(t).len() == t.len(),
{
    lemma_sort_unique(t);
    lemma_sort_multiset(t);
    let u = priority_sort(t);
    assert forall|i: int| 0 <= i < u.len() implies record_wf(#[trigger] u[i]) by {
        assert(u.to_multiset().count(u[i]) > 0) by {
            assert(u.contains(u[i]));
        }
        assert(t.contains(u[i]));
    }
}

proof fn lemma_update_unique(s: Seq<RecordView>, i: int, r: RecordView)
    requires
        unique_addresses(s),
        0 <= i < s.len(),
        r.address == s[i].address,
    ensures
        unique_addresses(s.update(i, r)),
{
    let t = s.update(i, r);
    assert forall|j: int, k: int|
        0 <= j < t.len() && 0 <= k < t.len() && #[trigger] t[j].address == #[trigger] t[k].address
            implies j == k by {
        assert(t[j].address == s[j].address && t[k].address == s[k].address);
    }
}

proof fn lemma_push_unique(s: Seq<RecordView>, r: RecordView)
    requires
        unique_addresses(s),
        !has_address(s, r.address),
    ensures
        unique_addresses(s.push(r)),
{
    let t = s.push(r);
    assert forall|j: int, k: int|
        0 <= j < t.len() && 0 <= k < t.len() && #[trigger] t[j].address == #[trigger] t[k].address
            implies j == k by {
        if j < s.len() && k < s.len() {
            assert(t[j] == s[j] && t[k] == s[k]);
        } else if j < s.len() {
            assert(t[j] == s[j] && s[j].address == r.address);
        } else if k < s.len() {
            assert(t[k] == s[k] && s[k].address == r.address);
        }
    }
}

/// The addresses of one peer, each with its statistics, kept in priority
/// order so that the first record is always the best one to dial.
#[derive(Debug, Clone)]
pub struct MultiaddressesWithStats {
    addresses: Vec<MultiaddrWithStats>,
}

impl View for MultiaddressesWithStats {
    type V = Seq<RecordView>;

    closed spec fn view(&self) -> Seq<RecordView> {
        views(self.addresses@)
    }
}

impl MultiaddressesWithStats {
    pub open spec fn wf(&self) -> bool {
        registry_wf(self@)
    }

    /// A registry without addresses.
    pub fn empty() -> (r: MultiaddressesWithStats)
        ensures
            r@ == Seq::<RecordView>::empty(),
            r.wf(),
    {
        let r = MultiaddressesWithStats { addresses: Vec::new() };
        assert(r@ =~= Seq::<RecordView>::empty());
        r
    }

    /// Sorts the records after a change.
    fn resort(&mut self)
        requires
            forall|i: int| 0 <= i < old(self)@.len() ==> record_wf(#[trigger] old(self)@[i]),
            unique_addresses(old(self)@),
        ensures
            final(self)@ == priority_sort(old(self)@),
            final(self).wf(),
    {
        proof {
            lemma_resorted(self@);
        }
        let mut v: Vec<MultiaddrWithStats> = Vec::new();
        core::mem::swap(&mut v, &mut self.addresses);
        self.addresses = sort_by_priority(v);
    }

    /// The index of the record with address `a`, the length where there is
    /// none.
    fn find(&self, a: &NetAddress) -> (r: usize)
        ensures
            r == position_of(self@, a@),
            has_address(self@, a@) <==> r < self@.len(),
    {
        let mut i: usize = 0;
        while i < self.addresses.len()
            invariant
                i <= self@.len(),
                self@.len() == self.addresses@.len(),
                forall|k: int| 0 <= k < i ==> #[trigger] self@[k].address != a@,
            decreases self@.len() - i,
        {
            if self.addresses[i].address().same_as(a) {
                proof {
                    lemma_position(self@, a@, i as int);
                }
                return i;
            }
            i += 1;
        }
        proof {
            lemma_position(self@, a@, i as int);
        }
        i
    }

    /// Folds `record` in: merged into the record of its address, or appended.
    /// The result is not yet sorted.
    fn absorb_one(&mut self, record: &MultiaddrWithStats)
        requires
            forall|i: int| 0 <= i < old(self)@.len() ==> record_wf(#[trigger] old(self)@[i]),
            unique_addresses(old(self)@),
            record.wf(),
        ensures
            final(self)@ == absorb(old(self)@, record@),
            forall|i: int| 0 <= i < final(self)@.len() ==> record_wf(#[trigger] final(self)@[i]),
            unique_addresses(final(self)@),
    {
        let i = self.find(record.address());
        if i < self.addresses.len() {
            let ghost s = self@;
            assert(record_wf(s[i as int]));
            self.addresses[i].merge(record);
            assert(self@ =~= s.update(i as int, merged(s[i as int], record@)));
            proof {
                lemma_update_unique(s, i as int, merged(s[i as int], record@));
            }
        } else {
            let ghost s = self@;
            self.addresses.push(record.duplicate());
            assert(self@ =~= s.push(record@));
            proof {
                lemma_push_unique(s, record@);
            }
        }
    }

    /// Announces one address from `source`, without sorting.
    fn announce_one(&mut self, a: &NetAddress, source: PeerAddressSource)
        requires
            forall|i: int| 0 <= i < old(self)@.len() ==> record_wf(#[trigger] old(self)@[i]),
            unique_addresses(old(self)@),
        ensures
            final(self)@ == announce(old(self)@, a@, source),
            forall|i: int| 0 <= i < final(self)@.len() ==> record_wf(#[trigger] final(self)@[i]),
            unique_addresses(final(self)@),
    {
        let i = self.find(a);
        let ghost s = self@;
        if i < self.addresses.len() {
            self.addresses[i].update_source_if_better(source);
            let ghost r = RecordView { source: better_source(s[i as int].source, source), ..s[i as int] };
            assert(self@ =~= s.update(i as int, r));
            proof {
                lemma_update_unique(s, i as int, r);
            }
        } else {
            self.addresses.push(MultiaddrWithStats::new(a.duplicate(), source));
            assert(self@ =~= s.push(fresh_record(a@, source)));
            proof {
                lemma_push_unique(s, fresh_record(a@, source));
            }
        }
    }

    /// Announces each address in order, without sorting.
    fn announce_each(&mut self, addrs: &[NetAddress], source: PeerAddressSource)
        requires
            forall|i: int| 0 <= i < old(self)@.len() ==> record_wf(#[trigger] old(self)@[i]),
            unique_addresses(old(self)@),
        ensures
            final(self)@ == announce_all(old(self)@, addrs@.map_values(|a: NetAddress| a@), source),
            forall|i: int| 0 <= i < final(self)@.len() ==> record_wf(#[trigger] final(self)@[i]),
            unique_addresses(final(self)@),
    {
        let ghost s0 = self@;
        let ghost all = addrs@.map_values(|a: NetAddress| a@);
        let mut k: usize = 0;
        assert(all.take(0) =~= Seq::<Seq<u8>>::empty());
        while k < addrs.len()
            invariant
                k <= addrs@.len(),
                all == addrs@.map_values(|a: NetAddress| a@),
                self@ == announce_all(s0, all.take(k as int), source),
                forall|i: int| 0 <= i < self@.len() ==> record_wf(#[trigger] self@[i]),
                unique_addresses(self@),
            decreases addrs@.len() - k,
        {
            self.announce_one(&addrs[k], source);
            assert(all.take(k + 1).drop_last() =~= all.take(k as int));
            k += 1;
        }
        assert(all.take(k as int) =~= all);
    }

    /// A registry of the given addresses, each with a fresh record from
    /// `source`; a repeated address gets one record.
    pub fn from_addresses_with_source(addresses: Vec<NetAddress>, source: &PeerAddressSource) -> (r: MultiaddressesWithStats)
        ensures
            r@ == priority_sort(announce_all(Seq::empty(), addresses@.map_values(|a: NetAddress| a@), *source)),
            r.wf(),
    {
        let mut r = MultiaddressesWithStats::empty();
        r.announce_each(addresses.as_slice(), *source);
        r.resort();
        r
    }

    /// A registry of the given records; records of the same address are
    /// merged into one.
    pub fn new(addresses: Vec<MultiaddrWithStats>) -> (r: MultiaddressesWithStats)
        requires
            forall|i: int| 0 <= i < addresses@.len() ==> (#[trigger] addresses@[i]).wf(),
        ensures
            r@ == priority_sort(absorb_all(Seq::empty(), views(addresses@))),
            r.wf(),
    {
        let mut r = MultiaddressesWithStats::empty();
        r.absorb_each(&addresses);
        r.resort();
        r
    }

    /// Folds each record of `others` in, in order, without sorting.
    fn absorb_each(&mut self, others: &Vec<MultiaddrWithStats>)
        requires
            forall|i: int| 0 <= i < old(self)@.len() ==> record_wf(#[trigger] old(self)@[i]),
            unique_addresses(old(self)@),
            forall|i: int| 0 <= i < others@.len() ==> (#[trigger] others@[i]).wf(),
        ensures
            final(self)@ == absorb_all(old(self)@, views(others@)),
            forall|i: int| 0 <= i < final(self)@.len() ==> record_wf(#[trigger] final(self)@[i]),
            unique_addresses(final(self)@),
    {
        let ghost s0 = self@;
        let ghost all = views(others@);
        let mut k: usize = 0;
        assert(all.take(0) =~= Seq::<RecordView>::empty());
        while k < others.len()
            invariant
                k <= others@.len(),
                all == views(others@),
                forall|i: int| 0 <= i < others@.len() ==> (#[trigger] others@[i]).wf(),
                self@ == absorb_all(s0, all.take(k as int)),
                forall|i: int| 0 <= i < self@.len() ==> record_wf(#[trigger] self@[i]),
                unique_addresses(self@),
            decreases others@.len() - k,
        {
            self.absorb_one(&others[k]);
            assert(all.take(k + 1).drop_last() =~= all.take(k as int));
            k += 1;
        }
        assert(all.take(k as int) =~= all);
    }

    /// The best record to dial: the first in priority order.
    pub fn best(&self) -> (r: Option<&MultiaddrWithStats>)
        ensures
            match r {
                Some(b) => self@.len() > 0 && b@ == self@[0],
                None => self@.len() == 0,
            },
    {
        if self.addresses.len() == 0 {
            None
        } else {
            Some(&self.addresses[0])
        }
    }

    /// Whether a record has address `a`.
    pub fn contains(&self, a: &NetAddress) -> (r: bool)
        ensures
            r == has_address(self@, a@),
    {
        self.find(a) < self.addresses.len()
    }

    /// Adds address `a` from `source`. A known address only takes a more
    /// trusted source; an unknown one gets a fresh record.
    pub fn add_address(&mut self, a: &NetAddress, source: &PeerAddressSource)
        requires
            old(self).wf(),
        ensures
            final(self)@ == priority_sort(announce(old(self)@, a@, *source)),
            final(self).wf(),
            final(self)@.len() == old(self)@.len() + if has_address(old(self)@, a@) {
                0int
            } else {
                1int
            },
            has_address(final(self)@, a@),
    {
        self.announce_one(a, *source);
        proof {
            let s = old(self)@;
            let t = announce(s, a@, *source);
            if has_address(s, a@) {
                lemma_position_found(s, a@);
                let i = position_of(s, a@);
                assert(t[i].address == a@);
            } else {
                assert(t[s.len() as int].address == a@);
            }
            lemma_sort_has_address(t, a@);
            lemma_sort_multiset(t);
        }
        self.resort();
    }

    /// Reconciles the registry with a freshly announced list of addresses:
    /// known ones may take a more trusted source and keep their statistics,
    /// unknown ones are added, and none is removed.
    pub fn update_addresses(&mut self, addresses: &[NetAddress], source: &PeerAddressSource)
        requires
            old(self).wf(),
        ensures
            final(self)@ == priority_sort(
                announce_all(old(self)@, addresses@.map_values(|a: NetAddress| a@), *source),
            ),
            final(self).wf(),
    {
        self.announce_each(addresses, *source);
        self.resort();
    }

    /// The addresses in priority order, best first.
    pub fn iter(&self) -> (r: Vec<NetAddress>)
        ensures
            r@.map_values(|a: NetAddress| a@) == addresses_of(self@),
    {
        let mut r: Vec<NetAddress> = Vec::new();
        let mut i: usize = 0;
        while i < self.addresses.len()
            invariant
                i <= self@.len(),
                self@.len() == self.addresses@.len(),
                r@.map_values(|a: NetAddress| a@) == addresses_of(self@).take(i as int),
            decreases self@.len() - i,
        {
            let ghost before = r@;
            r.push(self.addresses[i].address().duplicate());
            assert(r@.map_values(|a: NetAddress| a@) =~= before.map_values(|a: NetAddress| a@).push(
                self@[i as int].address,
            ));
            assert(addresses_of(self@).take(i + 1) =~= addresses_of(self@).take(i as int).push(
                self@[i as int].address,
            ));
            i += 1;
        }
        assert(addresses_of(self@).take(i as int) =~= addresses_of(self@));
        r
    }

    /// The addresses ordered by raw byte comparison of their encodings,
    /// independent of priority.
    pub fn to_lexicographically_sorted(&self) -> (r: Vec<NetAddress>)
        ensures
            r@.map_values(|a: NetAddress| a@).to_multiset() == addresses_of(self@).to_multiset(),
            lexicographically_sorted(r@.map_values(|a: NetAddress| a@)),
    {
        sort_lexicographically(self.iter())
    }

    /// The addresses in priority order.
    pub fn into_vec(self) -> (r: Vec<NetAddress>)
        ensures
            r@.map_values(|a: NetAddress| a@) == addresses_of(self@),
    {
        self.iter()
    }

    /// Merges `other` in: each of its records is combined with the record of
    /// the same address, or added where there is none.
    pub fn merge(&mut self, other: &MultiaddressesWithStats)
        requires
            old(self).wf(),
            other.wf(),
        ensures
            final(self)@ == priority_sort(absorb_all(old(self)@, other@)),
            final(self).wf(),
    {
        assert forall|i: int| 0 <= i < other.addresses@.len() implies (
        #[trigger] other.addresses@[i]).wf() by {
            assert(other@[i] == other.addresses@[i]@);
        }
        self.absorb_each(&other.addresses);
        self.resort();
    }

    /// Adds a latency sample, in nanoseconds, to the record of address `a`.
    /// Returns whether there is such a record.
    pub fn update_latency(&mut self, a: &NetAddress, sample: u64) -> (r: bool)
        requires
            old(self).wf(),
        ensures
            r == has_address(old(self)@, a@),
            final(self)@ == after_latency(old(self)@, a@, sample),
            final(self).wf(),
    {
        let i = self.find(a);
        if i < self.addresses.len() {
            let ghost s = self@;
            assert(record_wf(s[i as int]));
            self.addresses[i].update_latency(sample);
            assert(self@ =~= s.update(i as int, with_latency_sample(s[i as int], sample)));
            proof {
                lemma_update_unique(s, i as int, with_latency_sample(s[i as int], sample));
            }
            self.resort();
            true
        } else {
            false
        }
    }

    /// Records a successful interaction with address `a` at time `now`.
    /// Returns whether there is such a record.
    pub fn mark_last_seen_at(&mut self, a: &NetAddress, now: i64) -> (r: bool)
        requires
            old(self).wf(),
        ensures
            r == has_address(old(self)@, a@),
            final(self)@ == after_seen(old(self)@, a@, now),
            final(self).wf(),
    {
        let i = self.find(a);
        if i < self.addresses.len() {
            let ghost s = self@;
            assert(record_wf(s[i as int]));
            self.addresses[i].mark_last_seen_at(now);
            assert(self@ =~= s.update(i as int, seen_at(s[i as int], now)));
            proof {
                lemma_update_unique(s, i as int, seen_at(s[i as int], now));
            }
            self.resort();
            true
        } else {
            false
        }
    }

    /// Records a successful interaction with address `a` now.
    pub fn mark_last_seen_now(&mut self, a: &NetAddress) -> (r: bool)
        requires
            old(self).wf(),
        ensures
            r == has_address(old(self)@, a@),
            exists|now: i64| final(self)@ == #[trigger] after_seen(old(self)@, a@, now),
            final(self).wf(),
    {
        let now = now_micros();
        self.mark_last_seen_at(a, now)
    }

    /// Records a failed connection attempt to address `a` at time `now`.
    /// Returns whether there is such a record.
    pub fn mark_failed_connection_attempt_at(&mut self, a: &NetAddress, reason: String, now: i64) -> (r: bool)
        requires
            old(self).wf(),
        ensures
            r == has_address(old(self)@, a@),
            final(self)@ == after_failure(old(self)@, a@, now, reason@),
            final(self).wf(),
    {
        let i = self.find(a);
        if i < self.addresses.len() {
            let ghost s = self@;
            let ghost why = reason@;
            assert(record_wf(s[i as int]));
            self.addresses[i].mark_failed_connection_attempt_at(reason, now);
            assert(self@ =~= s.update(i as int, failed_at(s[i as int], now, why)));
            proof {
                lemma_update_unique(s, i as int, failed_at(s[i as int], now, why));
            }
            self.resort();
            true
        } else {
            false
        }
    }

    /// Records a failed connection attempt to address `a` now.
    pub fn mark_failed_connection_attempt(&mut self, a: &NetAddress, reason: String) -> (r: bool)
        requires
            old(self).wf(),
        ensures
            r == has_address(old(self)@, a@),
            exists|now: i64| final(self)@ == #[trigger] after_failure(old(self)@, a@, now, reason@),
            final(self).wf(),
    {
        let now = now_micros();
        self.mark_failed_connection_attempt_at(a, reason, now)
    }

    /// Ends the failure streak of every record, keeping all other statistics.
    pub fn reset_connection_attempts(&mut self)
        requires
            old(self).wf(),
        ensures
            final(self)@ == priority_sort(old(self)@.map_values(|x: RecordView| with_attempts_reset(x))),
            final(self).wf(),
    {
        let ghost s = self@;
        let ghost target = s.map_values(|x: RecordView| with_attempts_reset(x));
        let mut i: usize = 0;
        while i < self.addresses.len()
            invariant
                i <= s.len(),
                self@.len() == s.len(),
                self.addresses@.len() == s.len(),
                registry_wf(s),
                target == s.map_values(|x: RecordView| with_attempts_reset(x)),
                target.len() == s.len(),
                forall|k: int| 0 <= k < i ==> #[trigger] self@[k] == target[k],
                forall|k: int| i <= k < s.len() ==> #[trigger] self@[k] == s[k],
            decreases s.len() - i,
        {
            assert(record_wf(self@[i as int]));
            let ghost before = self@;
            self.addresses[i].reset_connection_attempts();
            assert(self@ =~= before.update(i as int, with_attempts_reset(s[i as int])));
            i += 1;
        }
        assert(self@ =~= target);
        proof {
            assert forall|j: int, k: int|
                0 <= j < target.len() && 0 <= k < target.len() && #[trigger] target[j].address
                    == #[trigger] target[k].address implies j == k by {
                assert(target[j].address == s[j].address && target[k].address == s[k].address);
            }
        }
        self.resort();
    }

    /// The latest successful interaction over all addresses.
    pub fn last_seen(&self) -> (r: Option<i64>)
        ensures
            r == latest_seen(self@),
    {
        let mut acc: Option<i64> = None;
        let mut i: usize = 0;
        assert(self@.take(0) =~= Seq::<RecordView>::empty());
        while i < self.addresses.len()
            invariant
                i <= self@.len(),
                self@.len() == self.addresses@.len(),
                acc == latest_seen(self@.take(i as int)),
            decreases self@.len() - i,
        {
            let cur = self.addresses[i].last_seen();
            acc = match (acc, cur) {
                (Some(x), Some(y)) => if y > x {
                    Some(y)
                } else {
                    Some(x)
                },
                (None, _) => cur,
                (_, None) => acc,
            };
            assert(self@.take(i + 1).drop_last() =~= self@.take(i as int));
            i += 1;
        }
        assert(self@.take(i as int) =~= self@);
        acc
    }

    /// The latest connection attempt over all addresses.
    pub fn last_attempted(&self) -> (r: Option<i64>)
        ensures
            r == latest_attempted(self@),
    {
        let mut acc: Option<i64> = None;
        let mut i: usize = 0;
        assert(self@.take(0) =~= Seq::<RecordView>::empty());
        while i < self.addresses.len()
            invariant
                i <= self@.len(),
                self@.len() == self.addresses@.len(),
                acc == latest_attempted(self@.take(i as int)),
            decreases self@.len() - i,
        {
            let cur = self.addresses[i].last_attempted();
            acc = match (acc, cur) {
                (Some(x), Some(y)) => if y > x {
                    Some(y)
                } else {
                    Some(x)
                },
                (None, _) => cur,
                (_, None) => acc,
            };
            assert(self@.take(i + 1).drop_last() =~= self@.take(i as int));
            i += 1;
        }
        assert(self@.take(i as int) =~= self@);
        acc
    }

    /// When the peer went offline: the earliest start of a failure streak,
    /// only where every address is in a failure streak.
    pub fn offline_at(&self) -> (r: Option<i64>)
        requires
            self.wf(),
        ensures
            r == peer_offline_at(self@),
            r is Some <==> (self@.len() > 0 && forall|i: int|
                0 <= i < self@.len() ==> (#[trigger] self@[i]).connection_attempts > 0),
    {
        let mut acc: Option<i64> = None;
        let mut i: usize = 0;
        while i < self.addresses.len()
            invariant
                i <= self@.len(),
                self@.len() == self.addresses@.len(),
                registry_wf(self@),
                i > 0 ==> acc == peer_offline_at(self@.take(i as int)),
                i == 0 ==> acc is None,
            decreases self@.len() - i,
        {
            assert(record_wf(self@[i as int]));
            let cur = self.addresses[i].offline_at();
            if i == 0 {
                acc = cur;
                assert(self@.take(1) =~= seq![self@[0]]);
            } else {
                acc = match (acc, cur) {
                    (Some(x), Some(y)) => if y < x {
                        Some(y)
                    } else {
                        Some(x)
                    },
                    _ => None,
                };
                assert(self@.take(i + 1).drop_last() =~= self@.take(i as int));
            }
            i += 1;
        }
        assert(self@.take(i as int) =~= self@);
        proof {
            lemma_offline_iff(self@);
        }
        acc
    }

    /// The number of addresses.
    pub fn len(&self) -> (r: usize)
        ensures
            r == self@.len(),
    {
        self.addresses.len()
    }

    pub fn is_empty(&self) -> (r: bool)
        ensures
            r == (self@.len() == 0),
    {
        self.addresses.len() == 0
    }

    /// The records in priority order.
    pub fn addresses(&self) -> (r: &[MultiaddrWithStats])
        ensures
            views(r@) == self@,
    {
        self.addresses.as_slice()
    }

    /// The record at position `index` in priority order.
    pub fn index(&self, index: usize) -> (r: &MultiaddrWithStats)
        requires
            index < self@.len(),
        ensures
            r@ == self@[index as int],
    {
        &self.addresses[index]
    }
}

/// The peer is offline exactly when it has addresses and all of them are in
/// a failure streak.
pub proof fn lemma_offline_iff(s: Seq<RecordView>)
    requires
        forall|i: int| 0 <= i < s.len() ==> record_wf(#[trigger] s[i]),
    ensures
        peer_offline_at(s) is Some <==> (s.len() > 0 && forall|i: int|
            0 <= i < s.len() ==> (#[trigger] s[i]).connection_attempts > 0),
    decreases s.len(),
{
    if s.len() > 1 {
        let p = s.drop_last();
        assert forall|i: int| 0 <= i < p.len() implies record_wf(#[trigger] p[i]) by {
            assert(p[i] == s[i]);
        }
        lemma_offline_iff(p);
        assert(record_wf(s[s.len() - 1]));
        if peer_offline_at(s) is Some {
            assert forall|i: int| 0 <= i < s.len() implies (#[trigger] s[i]).connection_attempts > 0 by {
                if i < s.len() - 1 {
                    assert(p[i] == s[i]);
                }
            }
        }
        if forall|i: int| 0 <= i < s.len() ==> (#[trigger] s[i]).connection_attempts > 0 {
            assert forall|i: int| 0 <= i < p.len() implies (#[trigger] p[i]).connection_attempts > 0 by {
                assert(p[i] == s[i]);
            }
            assert(s[s.len() - 1].connection_attempts > 0);
        }
    } else if s.len() == 1 {
        assert(record_wf(s[0]));
    }
}

impl Default for MultiaddressesWithStats {
    fn default() -> (r: MultiaddressesWithStats)
        ensures
            r@ == Seq::<RecordView>::empty(),
            r.wf(),
    {
        MultiaddressesWithStats::empty()
    }
}

impl PartialEq for MultiaddressesWithStats {
    /// Whether the two registries hold equal records in the same order.
    fn eq(&self, other: &MultiaddressesWithStats) -> (r: bool) {
        if self.addresses.len() != other.addresses.len() {
            return false;
        }
        let mut i: usize = 0;
        while i < self.addresses.len()
            invariant
                i <= self@.len(),
                self@.len() == other@.len(),
                self@.len() == self.addresses@.len(),
                other@.len() == other.addresses@.len(),
                self@.take(i as int) == other@.take(i as int),
            decreases self@.len() - i,
        {
            if self.addresses[i] != other.addresses[i] {
                assert(self@[i as int] != other@[i as int]);
                assert(self@.take(i + 1)[i as int] == self@[i as int]);
                assert(other@.take(i + 1)[i as int] == other@[i as int]);
                return false;
            }
            assert(self@.take(i + 1) =~= self@.take(i as int).push(self@[i as int]));
            assert(other@.take(i + 1) =~= other@.take(i as int).push(other@[i as int]));
            i += 1;
        }
        assert(self@.take(i as int) =~= self@);
        assert(other@.take(i as int) =~= other@);
        true
    }
}

impl vstd::std_specs::cmp::PartialEqSpecImpl for MultiaddressesWithStats {
    open spec fn obeys_eq_spec() -> bool {
        true
    }

    open spec fn eq_spec(&self, other: &MultiaddressesWithStats) -> bool {
        self@ == other@
    }
}

} // verus!
