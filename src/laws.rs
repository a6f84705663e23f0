use vstd::prelude::*;

use crate::ordering::{
    has_address, lemma_sort_has_address, lemma_sort_multiset, lemma_sort_of_sorted, priority_sort,
    priority_sorted, unique_addresses,
};
use crate::record::{
    latency_no_worse, lemma_merged_self, with_attempts_reset, PeerAddressSource, RecordView,
};
use crate::registry::{
    absorb, absorb_all, announce, lemma_position_found, position_of, registry_wf,
};

verus! {

broadcast use vstd::seq_lib::group_to_multiset_ensures;

/// The records after `add_address(a, source)`.
pub open spec fn after_add(s: Seq<RecordView>, a: Seq<u8>, source: PeerAddressSource) -> Seq<RecordView> {
    priority_sort(announce(s, a, source))
}

/// The records after `reset_connection_attempts()`.
pub open spec fn after_reset(s: Seq<RecordView>) -> Seq<RecordView> {
    priority_sort(s.map_values(|x: RecordView| with_attempts_reset(x)))
}

/// The records after merging the records `o` in.
pub open spec fn after_merge(s: Seq<RecordView>, o: Seq<RecordView>) -> Seq<RecordView> {
    priority_sort(absorb_all(s, o))
}

/// Adding an address grows the registry by one only where the address is
/// new, and adding the same address again does not grow it at all.
pub proof fn law_add_address_idempotent(
    s: Seq<RecordView>,
    a: Seq<u8>,
    first: PeerAddressSource,
    second: PeerAddressSource,
)
    requires
        registry_wf(s),
    ensures
        after_add(s, a, first).len() == s.len() + if has_address(s, a) {
            0int
        } else {
            1int
        },
        after_add(after_add(s, a, first), a, second).len() == after_add(s, a, first).len(),
{
    let t = announce(s, a, first);
    lemma_sort_multiset(t);
    if has_address(s, a) {
        lemma_position_found(s, a);
        assert(t[position_of(s, a)].address == a);
    } else {
        assert(t[s.len() as int].address == a);
    }
    lemma_sort_has_address(t, a);
    let once = after_add(s, a, first);
    lemma_position_found(once, a);
    lemma_sort_multiset(announce(once, a, second));
}

/// In a well-formed registry no record without failures follows a record
/// with failures, and records with equal failure counts are ordered by mean
/// latency, unknown latency last.
pub proof fn law_priority_order(s: Seq<RecordView>)
    requires
        registry_wf(s),
    ensures
        forall|i: int, j: int|
            0 <= i < j < s.len() && (#[trigger] s[j]).connection_attempts == 0
                ==> (#[trigger] s[i]).connection_attempts == 0,
        forall|i: int, j: int|
            0 <= i < j < s.len() && (#[trigger] s[i]).connection_attempts
                == (#[trigger] s[j]).connection_attempts ==> latency_no_worse(
                s[i].avg_latency,
                s[j].avg_latency,
            ),
{
    assert(priority_sorted(s));
}

/// After resetting, no record has failures, and every record is still there
/// with its other statistics unchanged.
pub proof fn law_reset_keeps_history(s: Seq<RecordView>)
    requires
        registry_wf(s),
    ensures
        after_reset(s).len() == s.len(),
        forall|i: int| 0 <= i < after_reset(s).len() ==> (#[trigger] after_reset(s)[i]).connection_attempts == 0,
        forall|i: int| 0 <= i < s.len() ==> after_reset(s).contains(with_attempts_reset(#[trigger] s[i])),
{
    let m = s.map_values(|x: RecordView| with_attempts_reset(x));
    let t = after_reset(s);
    lemma_sort_multiset(m);
    assert forall|i: int| 0 <= i < t.len() implies (#[trigger] t[i]).connection_attempts == 0 by {
        assert(t.contains(t[i]));
        assert(m.to_multiset().count(t[i]) > 0);
        assert(m.contains(t[i]));
    }
    assert forall|i: int| 0 <= i < s.len() implies t.contains(with_attempts_reset(#[trigger] s[i])) by {
        assert(m[i] == with_attempts_reset(s[i]));
        assert(m.contains(m[i]));
        assert(m.to_multiset().count(m[i]) > 0);
        assert(t.to_multiset().count(m[i]) > 0);
    }
}

proof fn lemma_absorb_own_prefix(s: Seq<RecordView>, k: int)
    requires
        registry_wf(s),
        0 <= k <= s.len(),
    ensures
        absorb_all(s, s.take(k)) == s,
    decreases k,
{
    if k == 0 {
        assert(s.take(0) =~= Seq::<RecordView>::empty());
    } else {
        lemma_absorb_own_prefix(s, k - 1);
        assert(s.take(k).drop_last() =~= s.take(k - 1));
        let r = s[k - 1];
        assert(has_address(s, r.address)) by {
            assert(s[k - 1].address == r.address);
        }
        lemma_position_found(s, r.address);
        let p = position_of(s, r.address);
        assert(unique_addresses(s));
        assert(s[p].address == s[k - 1].address);
        assert(p == k - 1);
        lemma_merged_self(r);
        assert(absorb(s, r) =~= s);
    }
}

/// Merging a registry with itself changes nothing.
pub proof fn law_merge_with_self(s: Seq<RecordView>)
    requires
        registry_wf(s),
    ensures
        after_merge(s, s) == s,
{
    lemma_absorb_own_prefix(s, s.len() as int);
    assert(s.take(s.len() as int) =~= s);
    lemma_sort_of_sorted(s);
}

proof fn lemma_absorb_disjoint_prefix(s: Seq<RecordView>, o: Seq<RecordView>, k: int)
    requires
        registry_wf(o),
        forall|i: int, j: int| 0 <= i < s.len() && 0 <= j < o.len() ==> #[trigger] s[i].address != #[trigger] o[j].address,
        0 <= k <= o.len(),
    ensures
        absorb_all(s, o.take(k)) == s + o.take(k),
    decreases k,
{
    if k == 0 {
        assert(o.take(0) =~= Seq::<RecordView>::empty());
        assert(s + o.take(0) =~= s);
    } else {
        lemma_absorb_disjoint_prefix(s, o, k - 1);
        assert(o.take(k).drop_last() =~= o.take(k - 1));
        let u = s + o.take(k - 1);
        let r = o[k - 1];
        assert(!has_address(u, r.address)) by {
            if has_address(u, r.address) {
                let i = choose|i: int| 0 <= i < u.len() && #[trigger] u[i].address == r.address;
                if i < s.len() {
                    assert(u[i] == s[i]);
                } else {
                    assert(u[i] == o[i - s.len()]);
                    assert(unique_addresses(o));
                    assert(o[i - s.len()].address == o[k - 1].address);
                }
            }
        }
        assert(absorb(u, r) =~= s + o.take(k));
    }
}

/// Merging registries with no address in common gives all records of both,
/// each with its statistics unchanged.
pub proof fn law_merge_disjoint(s: Seq<RecordView>, o: Seq<RecordView>)
    requires
        registry_wf(s),
        registry_wf(o),
        forall|i: int, j: int| 0 <= i < s.len() && 0 <= j < o.len() ==> #[trigger] s[i].address != #[trigger] o[j].address,
    ensures
        after_merge(s, o).to_multiset() == s.to_multiset().add(o.to_multiset()),
{
    lemma_absorb_disjoint_prefix(s, o, o.len() as int);
    assert(o.take(o.len() as int) =~= o);
    lemma_sort_multiset(s + o);
    vstd::seq_lib::lemma_multiset_commutative(s, o);
}

} // verus!
