use vstd::prelude::*;

use crate::record::{ranks_no_worse, MultiaddrWithStats, RecordView};

verus! {

broadcast use vstd::seq_lib::group_to_multiset_ensures;

/// The views of a sequence of records.
pub open spec fn views(s: Seq<MultiaddrWithStats>) -> Seq<RecordView> {
    s.map_values(|r: MultiaddrWithStats| r@)
}

/// Every record ranks no worse than each record after it.
pub open spec fn priority_sorted(s: Seq<RecordView>) -> bool {
    forall|i: int, j: int| 0 <= i < j < s.len() ==> ranks_no_worse(#[trigger] s[i], #[trigger] s[j])
}

pub open spec fn has_address(s: Seq<RecordView>, a: Seq<u8>) -> bool {
    exists|i: int| 0 <= i < s.len() && #[trigger] s[i].address == a
}

/// No two records share an address.
pub open spec fn unique_addresses(s: Seq<RecordView>) -> bool {
    forall|i: int, j: int|
        0 <= i < s.len() && 0 <= j < s.len() && #[trigger] s[i].address == #[trigger] s[j].address
            ==> i == j
}

/// Places `x` before the first record that it ranks no worse than, so that
/// `x`, which came earlier, stays ahead of records of equal rank.
pub open spec fn insert_by_priority(s: Seq<RecordView>, x: RecordView) -> Seq<RecordView>
    decreases s.len(),
{
    if s.len() == 0 {
        seq![x]
    } else if ranks_no_worse(x, s[0]) {
        seq![x] + s
    } else {
        seq![s[0]] + insert_by_priority(s.drop_first(), x)
    }
}

/// The stable sort of `s` by the priority order: records of equal rank keep
/// their relative order.
pub open spec fn priority_sort(s: Seq<RecordView>) -> Seq<RecordView>
    decreases s.len(),
{
    if s.len() == 0 {
        s
    } else {
        insert_by_priority(priority_sort(s.drop_first()), s[0])
    }
}

pub proof fn lemma_insert_at(s: Seq<RecordView>, x: RecordView, p: int)
    requires
        0 <= p <= s.len(),
        forall|k: int| 0 <= k < p ==> !ranks_no_worse(x, #[trigger] s[k]),
        p == s.len() || ranks_no_worse(x, s[p]),
    ensures
        insert_by_priority(s, x) == s.insert(p, x),
    decreases p,
{
    if s.len() == 0 {
        assert(s.insert(p, x) =~= seq![x]);
    } else if p == 0 {
        assert(s.insert(p, x) =~= seq![x] + s);
    } else {
        let rest = s.drop_first();
        assert forall|k: int| 0 <= k < p - 1 implies !ranks_no_worse(x, #[trigger] rest[k]) by {
            assert(rest[k] == s[k + 1]);
        }
        lemma_insert_at(rest, x, p - 1);
        assert(s.insert(p, x) =~= seq![s[0]] + rest.insert(p - 1, x));
    }
}

pub proof fn lemma_insert_multiset(s: Seq<RecordView>, x: RecordView)
    ensures
        insert_by_priority(s, x).to_multiset() == s.to_multiset().insert(x),
        insert_by_priority(s, x).len() == s.len() + 1,
    decreases s.len(),
{
    if s.len() == 0 {
        assert(seq![x] =~= s.insert(0, x));
    } else if ranks_no_worse(x, s[0]) {
        assert(seq![x] + s =~= s.insert(0, x));
    } else {
        let rest = s.drop_first();
        lemma_insert_multiset(rest, x);
        let t = insert_by_priority(rest, x);
        assert(seq![s[0]] + t =~= t.insert(0, s[0]));
        assert(s =~= rest.insert(0, s[0]));
        assert(s.to_multiset() == rest.to_multiset().insert(s[0]));
        assert(t.insert(0, s[0]).to_multiset() == t.to_multiset().insert(s[0]));
        assert(rest.to_multiset().insert(x).insert(s[0]) =~= rest.to_multiset().insert(s[0]).insert(x));
    }
}

/// Sorting only reorders: the same records, as many times each.
pub proof fn lemma_sort_multiset(s: Seq<RecordView>)
    ensures
        priority_sort(s).to_multiset() == s.to_multiset(),
        priority_sort(s).len() == s.len(),
    decreases s.len(),
{
    if s.len() > 0 {
        let rest = s.drop_first();
        lemma_sort_multiset(rest);
        lemma_insert_multiset(priority_sort(rest), s[0]);
        assert(s =~= rest.insert(0, s[0]));
    }
}

/// A sequence already in priority order is left as it is.
pub proof fn lemma_sort_of_sorted(s: Seq<RecordView>)
    requires
        priority_sorted(s),
    ensures
        priority_sort(s) == s,
    decreases s.len(),
{
    if s.len() > 0 {
        let rest = s.drop_first();
        assert(priority_sorted(rest)) by {
            assert forall|i: int, j: int| 0 <= i < j < rest.len() implies ranks_no_worse(
                #[trigger] rest[i],
                #[trigger] rest[j],
            ) by {
                assert(rest[i] == s[i + 1] && rest[j] == s[j + 1]);
            }
        }
        lemma_sort_of_sorted(rest);
        if rest.len() > 0 {
            assert(rest[0] == s[1]);
        }
        assert(seq![s[0]] + rest =~= s);
    }
}

proof fn lemma_contains_index(s: Seq<RecordView>, e: RecordView)
    ensures
        s.contains(e) <==> s.to_multiset().count(e) > 0,
{
}

/// An address occurs in the sorted sequence exactly when it occurs in the
/// unsorted one.
pub proof fn lemma_sort_has_address(s: Seq<RecordView>, a: Seq<u8>)
    ensures
        has_address(priority_sort(s), a) == has_address(s, a),
{
    let t = priority_sort(s);
    lemma_sort_multiset(s);
    if has_address(s, a) {
        let i = choose|i: int| 0 <= i < s.len() && #[trigger] s[i].address == a;
        lemma_contains_index(s, s[i]);
        lemma_contains_index(t, s[i]);
        assert(s.contains(s[i]));
        let j = choose|j: int| 0 <= j < t.len() && t[j] == s[i];
        assert(t[j].address == a);
    }
    if has_address(t, a) {
        let i = choose|i: int| 0 <= i < t.len() && #[trigger] t[i].address == a;
        lemma_contains_index(s, t[i]);
        lemma_contains_index(t, t[i]);
        assert(t.contains(t[i]));
        let j = choose|j: int| 0 <= j < s.len() && s[j] == t[i];
        assert(s[j].address == a);
    }
}

proof fn lemma_insert_has_address(s: Seq<RecordView>, x: RecordView, a: Seq<u8>)
    ensures
        has_address(insert_by_priority(s, x), a) == (has_address(s, a) || x.address == a),
{
    let t = insert_by_priority(s, x);
    lemma_insert_multiset(s, x);
    if has_address(t, a) {
        let i = choose|i: int| 0 <= i < t.len() && #[trigger] t[i].address == a;
        lemma_contains_index(t, t[i]);
        lemma_contains_index(s, t[i]);
        assert(t.contains(t[i]));
        if t[i] != x {
            assert(s.to_multiset().count(t[i]) > 0);
            let j = choose|j: int| 0 <= j < s.len() && s[j] == t[i];
            assert(s[j].address == a);
        }
    }
    if has_address(s, a) {
        let i = choose|i: int| 0 <= i < s.len() && #[trigger] s[i].address == a;
        lemma_contains_index(t, s[i]);
        lemma_contains_index(s, s[i]);
        assert(s.contains(s[i]));
        let j = choose|j: int| 0 <= j < t.len() && t[j] == s[i];
        assert(t[j].address == a);
    }
    if x.address == a {
        lemma_contains_index(t, x);
        let j = choose|j: int| 0 <= j < t.len() && t[j] == x;
        assert(t[j].address == a);
    }
}

proof fn lemma_insert_unique(s: Seq<RecordView>, x: RecordView)
    requires
        unique_addresses(s),
        !has_address(s, x.address),
    ensures
        unique_addresses(insert_by_priority(s, x)),
    decreases s.len(),
{
    let t = insert_by_priority(s, x);
    if s.len() == 0 {
    } else if ranks_no_worse(x, s[0]) {
        assert forall|i: int, j: int|
            0 <= i < t.len() && 0 <= j < t.len() && #[trigger] t[i].address
                == #[trigger] t[j].address implies i == j by {
            if i > 0 && j > 0 {
                assert(t[i] == s[i - 1] && t[j] == s[j - 1]);
            } else if i > 0 {
                assert(t[i] == s[i - 1]);
            } else if j > 0 {
                assert(t[j] == s[j - 1]);
            }
        }
    } else {
        let rest = s.drop_first();
        assert(unique_addresses(rest)) by {
            assert forall|i: int, j: int|
                0 <= i < rest.len() && 0 <= j < rest.len() && #[trigger] rest[i].address
                    == #[trigger] rest[j].address implies i == j by {
                assert(rest[i] == s[i + 1] && rest[j] == s[j + 1]);
            }
        }
        assert(!has_address(rest, x.address)) by {
            if has_address(rest, x.address) {
                let k = choose|k: int| 0 <= k < rest.len() && #[trigger] rest[k].address == x.address;
                assert(s[k + 1] == rest[k]);
            }
        }
        lemma_insert_unique(rest, x);
        let u = insert_by_priority(rest, x);
        assert(!has_address(rest, s[0].address)) by {
            if has_address(rest, s[0].address) {
                let k = choose|k: int| 0 <= k < rest.len() && #[trigger] rest[k].address == s[0].address;
                assert(s[k + 1] == rest[k]);
            }
        }
        assert(x.address != s[0].address);
        lemma_insert_has_address(rest, x, s[0].address);
        assert forall|i: int, j: int|
            0 <= i < t.len() && 0 <= j < t.len() && #[trigger] t[i].address
                == #[trigger] t[j].address implies i == j by {
            if i > 0 && j > 0 {
                assert(t[i] == u[i - 1] && t[j] == u[j - 1]);
            } else if i > 0 {
                assert(t[i] == u[i - 1]);
            } else if j > 0 {
                assert(t[j] == u[j - 1]);
            }
        }
    }
}

/// Sorting keeps addresses unique.
pub proof fn lemma_sort_unique(s: Seq<RecordView>)
    requires
        unique_addresses(s),
    ensures
        unique_addresses(priority_sort(s)),
    decreases s.len(),
{
    if s.len() > 0 {
        let rest = s.drop_first();
        assert(unique_addresses(rest)) by {
            assert forall|i: int, j: int|
                0 <= i < rest.len() && 0 <= j < rest.len() && #[trigger] rest[i].address
                    == #[trigger] rest[j].address implies i == j by {
                assert(rest[i] == s[i + 1] && rest[j] == s[j + 1]);
            }
        }
        lemma_sort_unique(rest);
        assert(!has_address(rest, s[0].address)) by {
            if has_address(rest, s[0].address) {
                let k = choose|k: int| 0 <= k < rest.len() && #[trigger] rest[k].address == s[0].address;
                assert(s[k + 1] == rest[k]);
            }
        }
        lemma_sort_has_address(rest, s[0].address);
        lemma_insert_unique(priority_sort(rest), s[0]);
    }
}

proof fn lemma_insert_keeps_sorted(s: Seq<RecordView>, x: RecordView, p: int)
    requires
        priority_sorted(s),
        0 <= p <= s.len(),
        forall|k: int| 0 <= k < p ==> !ranks_no_worse(x, #[trigger] s[k]),
        p == s.len() || ranks_no_worse(x, s[p]),
    ensures
        priority_sorted(s.insert(p, x)),
{
    let t = s.insert(p, x);
    assert forall|i: int, j: int| 0 <= i < j < t.len() implies ranks_no_worse(
        #[trigger] t[i],
        #[trigger] t[j],
    ) by {
        if j < p {
            assert(t[i] == s[i] && t[j] == s[j]);
        } else if j == p {
            assert(t[i] == s[i]);
            assert(!ranks_no_worse(x, s[i]));
        } else if i < p {
            assert(t[i] == s[i] && t[j] == s[j - 1]);
            assert(!ranks_no_worse(x, s[i]));
            assert(ranks_no_worse(x, s[p]));
            if j - 1 > p {
                assert(ranks_no_worse(s[p], s[j - 1]));
            }
        } else if i == p {
            assert(t[j] == s[j - 1]);
            if j - 1 > p {
                assert(ranks_no_worse(s[p], s[j - 1]));
            }
        } else {
            assert(t[i] == s[i - 1] && t[j] == s[j - 1]);
        }
    }
}

/// Sorts records stably by the priority order.
pub fn sort_by_priority(v: Vec<MultiaddrWithStats>) -> (r: Vec<MultiaddrWithStats>)
    ensures
        views(r@) == priority_sort(views(v@)),
        priority_sorted(views(r@)),
{
    let ghost orig = views(v@);
    let mut v = v;
    let mut out: Vec<MultiaddrWithStats> = Vec::new();
    assert(orig.skip(orig.len() as int) =~= Seq::<RecordView>::empty());
    assert(views(v@) =~= orig.subrange(0, v@.len() as int));
    assert(views(out@) =~= Seq::<RecordView>::empty());
    while v.len() > 0
        invariant
            v@.len() <= orig.len(),
            views(v@) == orig.subrange(0, v@.len() as int),
            views(out@) == priority_sort(orig.skip(v@.len() as int)),
            priority_sorted(views(out@)),
        decreases v@.len(),
    {
        let ghost k = v@.len() as int;
        let ghost before = v@;
        let x = v.pop().unwrap();
        assert(x@ == orig[k - 1]) by {
            assert(views(before)[k - 1] == orig.subrange(0, k)[k - 1]);
        }
        assert(views(v@) =~= orig.subrange(0, k - 1));
        let mut p: usize = 0;
        while p < out.len() && !x.ranks_no_worse_than(&out[p])
            invariant
                p <= out@.len(),
                forall|q: int| 0 <= q < p ==> !ranks_no_worse(x@, #[trigger] views(out@)[q]),
            decreases out@.len() - p,
        {
            p += 1;
        }
        let ghost s = views(out@);
        proof {
            lemma_insert_at(s, x@, p as int);
            lemma_insert_keeps_sorted(s, x@, p as int);
            assert(orig.skip(k - 1).drop_first() =~= orig.skip(k));
            assert(orig.skip(k - 1)[0] == x@);
        }
        out.insert(p, x);
        assert(views(out@) =~= s.insert(p as int, x@));
    }
    assert(orig.skip(0) =~= orig);
    out
}

} // verus!
