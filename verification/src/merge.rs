//! Bounded merge of two sorted candidate streams.

use vstd::prelude::*;
use vstd::multiset::Multiset;
use crate::list::CandidateList;
use crate::list::paired;
use crate::list::sorted_by_distance;

verus! {

/// Stream "b" as its permutation presents it: entry `i` is the pair at
/// position `order[i]` of the backing arrays.
pub open spec fn permuted(
    distances: Seq<u32>,
    rowids: Seq<i64>,
    order: Seq<usize>,
) -> Seq<(u32, i64)> {
    Seq::new(order.len(), |i: int| (distances[order[i] as int], rowids[order[i] as int]))
}

/// The bounded two-pointer merge of streams `a` and `b`, truncated to
/// `limit` entries: while entries remain and the bound is not reached,
/// emit the smaller head, the head of `a` on a tie.
pub open spec fn merged(a: Seq<(u32, i64)>, b: Seq<(u32, i64)>, limit: nat) -> Seq<(u32, i64)>
    decreases a.len() + b.len(),
{
    if limit == 0 || (a.len() == 0 && b.len() == 0) {
        Seq::empty()
    } else if b.len() == 0 || (a.len() > 0 && a[0].0 <= b[0].0) {
        seq![a[0]] + merged(a.drop_first(), b, (limit - 1) as nat)
    } else {
        seq![b[0]] + merged(a, b.drop_first(), (limit - 1) as nat)
    }
}

/// The merge emits min(limit, |a|+|b|) entries: the bound never adds
/// entries and only truncates when the streams together exceed it.
pub proof fn lemma_merged_len(a: Seq<(u32, i64)>, b: Seq<(u32, i64)>, limit: nat)
    ensures
        merged(a, b, limit).len() == vstd::math::min(limit as int, (a.len() + b.len()) as int),
    decreases a.len() + b.len(),
{
    if limit == 0 || (a.len() == 0 && b.len() == 0) {
    } else if b.len() == 0 || (a.len() > 0 && a[0].0 <= b[0].0) {
        lemma_merged_len(a.drop_first(), b, (limit - 1) as nat);
    } else {
        lemma_merged_len(a, b.drop_first(), (limit - 1) as nat);
    }
}

/// A bound below both streams is a bound below their merge.
proof fn lemma_merged_lower_bound(a: Seq<(u32, i64)>, b: Seq<(u32, i64)>, limit: nat, x: u32)
    requires
        forall|i: int| 0 <= i < a.len() ==> x <= (#[trigger] a[i]).0,
        forall|i: int| 0 <= i < b.len() ==> x <= (#[trigger] b[i]).0,
    ensures
        forall|i: int| 0 <= i < merged(a, b, limit).len() ==> x <= (#[trigger] merged(
            a,
            b,
            limit,
        )[i]).0,
    decreases a.len() + b.len(),
{
    let m = merged(a, b, limit);
    if limit == 0 || (a.len() == 0 && b.len() == 0) {
    } else if b.len() == 0 || (a.len() > 0 && a[0].0 <= b[0].0) {
        let rest = merged(a.drop_first(), b, (limit - 1) as nat);
        lemma_merged_lower_bound(a.drop_first(), b, (limit - 1) as nat, x);
        assert forall|i: int| 0 <= i < m.len() implies x <= (#[trigger] m[i]).0 by {
            if i == 0 {
                assert(m[0] == a[0]);
            } else {
                assert(m[i] == rest[i - 1]);
            }
        }
    } else {
        let rest = merged(a, b.drop_first(), (limit - 1) as nat);
        lemma_merged_lower_bound(a, b.drop_first(), (limit - 1) as nat, x);
        assert forall|i: int| 0 <= i < m.len() implies x <= (#[trigger] m[i]).0 by {
            if i == 0 {
                assert(m[0] == b[0]);
            } else {
                assert(m[i] == rest[i - 1]);
            }
        }
    }
}

/// Sortedness: the merge of two sorted streams is non-decreasing in
/// distance, for every bound.
pub proof fn lemma_merged_sorted(a: Seq<(u32, i64)>, b: Seq<(u32, i64)>, limit: nat)
    requires
        sorted_by_distance(a),
        sorted_by_distance(b),
    ensures
        sorted_by_distance(merged(a, b, limit)),
    decreases a.len() + b.len(),
{
    if limit == 0 || (a.len() == 0 && b.len() == 0) {
    } else if b.len() == 0 || (a.len() > 0 && a[0].0 <= b[0].0) {
        let h = a[0];
        let rest = merged(a.drop_first(), b, (limit - 1) as nat);
        lemma_merged_sorted(a.drop_first(), b, (limit - 1) as nat);
        lemma_merged_lower_bound(a.drop_first(), b, (limit - 1) as nat, h.0);
        assert forall|i: int, j: int|
            0 <= i <= j < merged(a, b, limit).len() implies (#[trigger] merged(a, b, limit)[i]).0
            <= (#[trigger] merged(a, b, limit)[j]).0 by {
            if 0 < i {
                assert(merged(a, b, limit)[i] == rest[i - 1]);
                assert(merged(a, b, limit)[j] == rest[j - 1]);
            } else if 0 < j {
                assert(merged(a, b, limit)[j] == rest[j - 1]);
            }
        }
    } else {
        let h = b[0];
        let rest = merged(a, b.drop_first(), (limit - 1) as nat);
        lemma_merged_sorted(a, b.drop_first(), (limit - 1) as nat);
        lemma_merged_lower_bound(a, b.drop_first(), (limit - 1) as nat, h.0);
        assert forall|i: int, j: int|
            0 <= i <= j < merged(a, b, limit).len() implies (#[trigger] merged(a, b, limit)[i]).0
            <= (#[trigger] merged(a, b, limit)[j]).0 by {
            if 0 < i {
                assert(merged(a, b, limit)[i] == rest[i - 1]);
                assert(merged(a, b, limit)[j] == rest[j - 1]);
            } else if 0 < j {
                assert(merged(a, b, limit)[j] == rest[j - 1]);
            }
        }
    }
}

/// A tighter bound yields exactly the prefix of a looser one's output:
/// raising the bound never changes the entries already emitted.
pub proof fn lemma_merged_prefix(a: Seq<(u32, i64)>, b: Seq<(u32, i64)>, l1: nat, l2: nat)
    requires
        l1 <= l2,
    ensures
        merged(a, b, l1) == merged(a, b, l2).subrange(0, merged(a, b, l1).len() as int),
    decreases a.len() + b.len(),
{
    lemma_merged_len(a, b, l1);
    lemma_merged_len(a, b, l2);
    if l1 == 0 || (a.len() == 0 && b.len() == 0) {
        assert(merged(a, b, l1) =~= merged(a, b, l2).subrange(0, merged(a, b, l1).len() as int));
    } else if b.len() == 0 || (a.len() > 0 && a[0].0 <= b[0].0) {
        lemma_merged_prefix(a.drop_first(), b, (l1 - 1) as nat, (l2 - 1) as nat);
        assert(merged(a, b, l1) =~= merged(a, b, l2).subrange(0, merged(a, b, l1).len() as int));
    } else {
        lemma_merged_prefix(a, b.drop_first(), (l1 - 1) as nat, (l2 - 1) as nat);
        assert(merged(a, b, l1) =~= merged(a, b, l2).subrange(0, merged(a, b, l1).len() as int));
    }
}

/// With a bound no smaller than both streams together, the merge is a
/// permutation of their concatenation: nothing is lost or invented.
pub proof fn lemma_merged_complete(a: Seq<(u32, i64)>, b: Seq<(u32, i64)>)
    ensures
        merged(a, b, (a.len() + b.len()) as nat).to_multiset() == a.to_multiset().add(
            b.to_multiset(),
        ),
    decreases a.len() + b.len(),
{
    broadcast use vstd::multiset::group_multiset_axioms;
    broadcast use vstd::multiset::lemma_multiset_empty_len;
    broadcast use vstd::seq_lib::group_to_multiset_ensures;

    let m = merged(a, b, (a.len() + b.len()) as nat);
    if a.len() == 0 && b.len() == 0 {
        assert(a.to_multiset().len() == 0);
        assert(b.to_multiset().len() == 0);
        assert(m.to_multiset().len() == 0);
        assert(m.to_multiset() =~= a.to_multiset().add(b.to_multiset()));
    } else if b.len() == 0 || (a.len() > 0 && a[0].0 <= b[0].0) {
        let rest = merged(a.drop_first(), b, (a.drop_first().len() + b.len()) as nat);
        lemma_merged_complete(a.drop_first(), b);
        let sing = seq![a[0]];
        assert(sing =~= Seq::<(u32, i64)>::empty().push(a[0]));
        assert(Seq::<(u32, i64)>::empty().to_multiset().len() == 0);
        assert(sing.to_multiset() =~= Multiset::<(u32, i64)>::empty().insert(a[0]));
        assert(m == sing + rest);
        vstd::seq_lib::lemma_multiset_commutative(sing, rest);
        assert(a =~= sing + a.drop_first());
        vstd::seq_lib::lemma_multiset_commutative(sing, a.drop_first());
        assert(m.to_multiset() =~= a.to_multiset().add(b.to_multiset()));
    } else {
        let rest = merged(a, b.drop_first(), (a.len() + b.drop_first().len()) as nat);
        lemma_merged_complete(a, b.drop_first());
        let sing = seq![b[0]];
        assert(sing =~= Seq::<(u32, i64)>::empty().push(b[0]));
        assert(Seq::<(u32, i64)>::empty().to_multiset().len() == 0);
        assert(sing.to_multiset() =~= Multiset::<(u32, i64)>::empty().insert(b[0]));
        assert(m == sing + rest);
        vstd::seq_lib::lemma_multiset_commutative(sing, rest);
        assert(b =~= sing + b.drop_first());
        vstd::seq_lib::lemma_multiset_commutative(sing, b.drop_first());
        assert(m.to_multiset() =~= a.to_multiset().add(b.to_multiset()));
    }
}

/// Completeness: the bounded merge of two sorted streams holds exactly
/// the smallest min(limit, |a|+|b|) entries of their multiset union.
/// It is a sub-multiset of the union, of exactly that size, and no
/// entry it holds is farther than any entry it leaves out.
pub proof fn lemma_merged_smallest(a: Seq<(u32, i64)>, b: Seq<(u32, i64)>, limit: nat)
    requires
        sorted_by_distance(a),
        sorted_by_distance(b),
    ensures
        merged(a, b, limit).to_multiset().subset_of(a.to_multiset().add(b.to_multiset())),
        merged(a, b, limit).len() == vstd::math::min(limit as int, (a.len() + b.len()) as int),
        forall|x: (u32, i64), y: (u32, i64)|
            merged(a, b, limit).to_multiset().count(x) > 0 && a.to_multiset().add(
                b.to_multiset(),
            ).sub(merged(a, b, limit).to_multiset()).count(y) > 0 ==> x.0 <= y.0,
{
    broadcast use vstd::multiset::group_multiset_axioms;
    broadcast use vstd::seq_lib::group_to_multiset_ensures;

    let total = (a.len() + b.len()) as nat;
    let full = merged(a, b, total);
    let m = merged(a, b, limit);
    lemma_merged_len(a, b, limit);
    lemma_merged_len(a, b, total);
    lemma_merged_complete(a, b);
    lemma_merged_sorted(a, b, total);
    let t = m.len() as int;
    if limit <= total {
        lemma_merged_prefix(a, b, limit, total);
    } else {
        lemma_merged_prefix(a, b, total, limit);
        assert(m =~= full.subrange(0, t));
    }
    let suffix = full.subrange(t, full.len() as int);
    assert(full =~= m + suffix);
    vstd::seq_lib::lemma_multiset_commutative(m, suffix);
    let u = a.to_multiset().add(b.to_multiset());
    assert(u == m.to_multiset().add(suffix.to_multiset()));
    assert(u.sub(m.to_multiset()) =~= suffix.to_multiset());
    assert forall|x: (u32, i64), y: (u32, i64)|
        m.to_multiset().count(x) > 0 && u.sub(m.to_multiset()).count(y) > 0 implies x.0 <= y.0 by {
        assert(suffix.to_multiset().count(y) > 0);
        assert(m.contains(x));
        assert(suffix.contains(y));
        let i = choose|i: int| 0 <= i < m.len() && m[i] == x;
        let j = choose|j: int| 0 <= j < suffix.len() && suffix[j] == y;
        assert(full[i] == x);
        assert(full[t + j] == y);
    }
}

/// On a distance tie between the two heads, the head of `a` is emitted
/// first: the accumulated stream wins over the newly arriving one.
pub proof fn lemma_merged_tie_break(a: Seq<(u32, i64)>, b: Seq<(u32, i64)>, limit: nat)
    requires
        limit > 0,
        a.len() > 0,
        b.len() > 0,
        a[0].0 == b[0].0,
    ensures
        merged(a, b, limit)[0] == a[0],
{
}

/// A zero bound yields the empty list, whatever the streams hold.
pub proof fn lemma_merged_zero_limit(a: Seq<(u32, i64)>, b: Seq<(u32, i64)>)
    ensures
        merged(a, b, 0) == Seq::<(u32, i64)>::empty(),
{
}

/// Merge the sorted list `a` with the list "b" given by the parallel
/// arrays `b_distances` / `b_rowids` and the index order `b_order` that
/// presents them sorted, into a new sorted list of at most `limit`
/// entries. Two cursors walk the streams; the smaller head is copied,
/// the head of `a` on a tie, until `limit` entries are out or both
/// streams are spent. Input past the bound is never touched.
#[verifier::loop_isolation(false)]
pub fn merge_bounded(
    a: &CandidateList,
    b_distances: &Vec<u32>,
    b_rowids: &Vec<i64>,
    b_order: &Vec<usize>,
    limit: usize,
) -> (out: CandidateList)
    requires
        a.well_formed(),
        sorted_by_distance(a@),
        b_distances@.len() == b_rowids@.len(),
        b_order@.len() == b_distances@.len(),
        forall|i: int| 0 <= i < b_order@.len() ==> (#[trigger] b_order@[i]) < b_distances@.len(),
        sorted_by_distance(permuted(b_distances@, b_rowids@, b_order@)),
    ensures
        out.well_formed(),
        out@ == merged(a@, permuted(b_distances@, b_rowids@, b_order@), limit as nat),
        out@.len() <= limit,
        out@.len() == vstd::math::min(
            limit as int,
            (a@.len() + b_order@.len()) as int,
        ),
        sorted_by_distance(out@),
{
    let ghost bs = permuted(b_distances@, b_rowids@, b_order@);
    let la = a.distances.len();
    let lb = b_order.len();
    let mut out_d: Vec<u32> = Vec::new();
    let mut out_r: Vec<i64> = Vec::new();
    let mut i: usize = 0;
    let mut j: usize = 0;
    proof {
        assert(paired(out_d@, out_r@) =~= Seq::<(u32, i64)>::empty());
        assert(a@.skip(0) =~= a@);
        assert(bs.skip(0) =~= bs);
        assert(paired(out_d@, out_r@) + merged(a@.skip(0), bs.skip(0), limit as nat) =~= merged(
            a@,
            bs,
            limit as nat,
        ));
    }
    while out_d.len() < limit && (i < la || j < lb)
        invariant
            i <= la,
            j <= lb,
            out_d@.len() == out_r@.len(),
            out_d@.len() <= limit,
            paired(out_d@, out_r@) + merged(
                a@.skip(i as int),
                bs.skip(j as int),
                (limit - out_d@.len()) as nat,
            ) == merged(a@, bs, limit as nat),
        decreases (la - i) + (lb - j),
    {
        let ghost outp = paired(out_d@, out_r@);
        let ghost rem = (limit - out_d@.len()) as nat;
        let ghost s = a@.skip(i as int);
        let ghost t = bs.skip(j as int);
        let take_a = if j == lb {
            true
        } else if i == la {
            false
        } else {
            a.distances[i] <= b_distances[b_order[j]]
        };
        if take_a {
            proof {
                assert(i < la);
                assert(s[0] == a@[i as int]);
                assert(s.drop_first() =~= a@.skip(i as int + 1));
                if j < lb {
                    assert(t[0] == bs[j as int]);
                }
                assert(merged(s, t, rem) == seq![s[0]] + merged(
                    s.drop_first(),
                    t,
                    (rem - 1) as nat,
                ));
            }
            let dist = a.distances[i];
            let row = a.rowids[i];
            out_d.push(dist);
            out_r.push(row);
            proof {
                assert(paired(out_d@, out_r@) =~= outp.push((dist, row)));
                assert((dist, row) == s[0]);
                assert(paired(out_d@, out_r@) + merged(
                    a@.skip(i as int + 1),
                    t,
                    (limit - out_d@.len()) as nat,
                ) =~= outp + merged(s, t, rem));
            }
            i = i + 1;
        } else {
            proof {
                assert(j < lb);
                assert(t[0] == bs[j as int]);
                assert(t.drop_first() =~= bs.skip(j as int + 1));
                if i < la {
                    assert(s[0] == a@[i as int]);
                    assert(s[0].0 > t[0].0);
                }
                assert(merged(s, t, rem) == seq![t[0]] + merged(
                    s,
                    t.drop_first(),
                    (rem - 1) as nat,
                ));
            }
            let bpos = b_order[j];
            let dist = b_distances[bpos];
            let row = b_rowids[bpos];
            out_d.push(dist);
            out_r.push(row);
            proof {
                assert(paired(out_d@, out_r@) =~= outp.push((dist, row)));
                assert((dist, row) == t[0]);
                assert(paired(out_d@, out_r@) + merged(
                    s,
                    bs.skip(j as int + 1),
                    (limit - out_d@.len()) as nat,
                ) =~= outp + merged(s, t, rem));
            }
            j = j + 1;
        }
    }
    proof {
        let tail = merged(a@.skip(i as int), bs.skip(j as int), (limit - out_d@.len()) as nat);
        assert(tail =~= Seq::<(u32, i64)>::empty());
        assert(paired(out_d@, out_r@) + tail =~= paired(out_d@, out_r@));
        lemma_merged_len(a@, bs, limit as nat);
        lemma_merged_sorted(a@, bs, limit as nat);
    }
    CandidateList { distances: out_d, rowids: out_r }
}

} // verus!
