//! Partial top-k selection: indices of the k smallest distances.

use vstd::prelude::*;
use vstd::multiset::Multiset;

verus! {

/// Strict order on positions of a distance array: lower distance first,
/// ties broken by the lower position. Total on distinct positions.
pub open spec fn lex_lt(d: Seq<u32>, p: int, q: int) -> bool {
    d[p] < d[q] || (d[p] == d[q] && p < q)
}

/// Position `q` occurs among the chosen indices.
pub open spec fn picks(r: Seq<usize>, q: int) -> bool {
    exists|i: int| 0 <= i < r.len() && r[i] as int == q
}

/// Inserting `x` into `r` leaves exactly the old positions plus `x`.
proof fn lemma_picks_insert(r: Seq<usize>, pos: int, x: usize, q: int)
    requires
        0 <= pos <= r.len(),
    ensures
        picks(r.insert(pos, x), q) <==> (picks(r, q) || x as int == q),
{
    r.insert_ensures(pos, x);
    let s = r.insert(pos, x);
    if picks(s, q) {
        let i = choose|i: int| 0 <= i < s.len() && s[i] as int == q;
        if i < pos {
            assert(r[i] as int == q);
        } else if i == pos {
            assert(x as int == q);
        } else {
            assert(s[(i - 1) + 1] == r[i - 1]);
            assert(r[i - 1] as int == q);
        }
    }
    if x as int == q {
        assert(s[pos] as int == q);
    }
    if picks(r, q) {
        let i = choose|i: int| 0 <= i < r.len() && r[i] as int == q;
        if i < pos {
            assert(s[i] as int == q);
        } else {
            assert(s[i + 1] == r[i]);
            assert(s[i + 1] as int == q);
        }
    }
}

/// `r` is the top-k selection over `d`: it has min(k, |d|) positions of
/// `d`, strictly ascending in the tie-broken distance order, and every
/// position left out ranks after every position chosen.
pub open spec fn is_min_k_selection(d: Seq<u32>, k: nat, r: Seq<usize>) -> bool {
    &&& r.len() == if k <= d.len() {
        k
    } else {
        d.len()
    }
    &&& forall|i: int| 0 <= i < r.len() ==> (#[trigger] r[i]) < d.len()
    &&& forall|i: int, j: int|
        0 <= i < j < r.len() ==> #[trigger] lex_lt(d, r[i] as int, r[j] as int)
    &&& forall|q: int, i: int|
        0 <= q < d.len() && !picks(r, q) && 0 <= i < r.len() ==> #[trigger] lex_lt(
            d,
            r[i] as int,
            q,
        )
}

/// The selection contract admits one answer only: two index lists that
/// both satisfy it for the same distances and the same `k` are equal.
pub proof fn lemma_selection_unique(d: Seq<u32>, k: nat, r1: Seq<usize>, r2: Seq<usize>)
    requires
        is_min_k_selection(d, k, r1),
        is_min_k_selection(d, k, r2),
    ensures
        r1 == r2,
{
    lemma_selection_unique_from(d, k, r1, r2, 0);
    assert(r1 =~= r2);
}

/// Selector correctness read at the value level: the distances at the
/// chosen indices are non-decreasing, and no distance passed over is
/// nearer than a distance chosen.
pub proof fn lemma_selection_values(d: Seq<u32>, k: nat, r: Seq<usize>)
    requires
        is_min_k_selection(d, k, r),
    ensures
        forall|i: int, j: int|
            0 <= i <= j < r.len() ==> d[#[trigger] r[i] as int] <= d[#[trigger] r[j] as int],
        forall|q: int, i: int|
            #![trigger d[q], r[i]]
            0 <= q < d.len() && !picks(r, q) && 0 <= i < r.len() ==> d[r[i] as int] <= d[q],
{
    assert forall|i: int, j: int|
        0 <= i <= j < r.len() implies d[#[trigger] r[i] as int] <= d[#[trigger] r[j] as int] by {
        if i < j {
            assert(lex_lt(d, r[i] as int, r[j] as int));
        }
    }
    assert forall|q: int, i: int|
        #![trigger d[q], r[i]]
        0 <= q < d.len() && !picks(r, q) && 0 <= i < r.len() implies d[r[i] as int] <= d[q] by {
        assert(lex_lt(d, r[i] as int, q));
    }
}

/// The distances at the chosen indices, in the chosen order.
pub open spec fn selected_distances(d: Seq<u32>, r: Seq<usize>) -> Seq<u32> {
    Seq::new(r.len(), |i: int| d[r[i] as int])
}

/// The distances of `d` below position `n` that `r` passes over, as a
/// multiset.
pub open spec fn unpicked_distances(d: Seq<u32>, r: Seq<usize>, n: nat) -> Multiset<u32>
    decreases n,
{
    if n == 0 {
        Multiset::empty()
    } else if picks(r, n - 1) {
        unpicked_distances(d, r, (n - 1) as nat)
    } else {
        unpicked_distances(d, r, (n - 1) as nat).insert(d[n - 1])
    }
}

/// Every distance passed over comes from some position passed over.
proof fn lemma_unpicked_witness(d: Seq<u32>, r: Seq<usize>, n: nat, y: u32)
    requires
        unpicked_distances(d, r, n).count(y) > 0,
    ensures
        exists|q: int| 0 <= q < n && !picks(r, q) && d[q] == y,
    decreases n,
{
    broadcast use vstd::multiset::group_multiset_axioms;

    if n == 0 {
        assert(false);
    } else if picks(r, n - 1) {
        lemma_unpicked_witness(d, r, (n - 1) as nat, y);
    } else if d[n - 1] == y {
        assert(!picks(r, n - 1) && d[n - 1] == y);
    } else {
        lemma_unpicked_witness(d, r, (n - 1) as nat, y);
    }
}

/// Two index lists that agree on which positions below `n` they pick,
/// over arrays that agree below `n`, pass over the same distances.
proof fn lemma_unpicked_agree(d1: Seq<u32>, r1: Seq<usize>, d2: Seq<u32>, r2: Seq<usize>, n: nat)
    requires
        forall|q: int| 0 <= q < n ==> picks(r1, q) == picks(r2, q),
        forall|q: int| 0 <= q < n ==> d1[q] == d2[q],
    ensures
        unpicked_distances(d1, r1, n) == unpicked_distances(d2, r2, n),
    decreases n,
{
    if n > 0 {
        lemma_unpicked_agree(d1, r1, d2, r2, (n - 1) as nat);
    }
}

/// Removing one entry of `r` unpicks exactly that position.
proof fn lemma_picks_remove(r: Seq<usize>, pos: int, q: int)
    requires
        0 <= pos < r.len(),
        forall|i: int, j: int| 0 <= i < j < r.len() ==> r[i] != r[j],
    ensures
        picks(r.remove(pos), q) <==> (picks(r, q) && r[pos] as int != q),
{
    r.remove_ensures(pos);
    let s = r.remove(pos);
    if picks(s, q) {
        let i = choose|i: int| 0 <= i < s.len() && s[i] as int == q;
        if i < pos {
            assert(r[i] as int == q);
            assert(r[i] != r[pos]);
        } else {
            assert(s[i] == r[i + 1]);
            assert(r[i + 1] as int == q);
            assert(r[i + 1] != r[pos]);
        }
    }
    if picks(r, q) && r[pos] as int != q {
        let i = choose|i: int| 0 <= i < r.len() && r[i] as int == q;
        if i < pos {
            assert(s[i] as int == q);
        } else {
            assert(i != pos);
            assert(s[i - 1] == r[(i - 1) + 1]);
            assert(s[i - 1] as int == q);
        }
    }
}

/// The distances of `d` split into those at positions `r` picks and
/// those it passes over: picking distinct positions takes each entry of
/// the array at most once.
proof fn lemma_selection_decomposition(d: Seq<u32>, r: Seq<usize>)
    requires
        forall|i: int| 0 <= i < r.len() ==> (#[trigger] r[i]) < d.len(),
        forall|i: int, j: int| 0 <= i < j < r.len() ==> r[i] != r[j],
    ensures
        d.to_multiset() == selected_distances(d, r).to_multiset().add(
            unpicked_distances(d, r, d.len()),
        ),
    decreases d.len(),
{
    broadcast use vstd::multiset::group_multiset_axioms;
    broadcast use vstd::multiset::lemma_multiset_empty_len;
    broadcast use vstd::seq_lib::group_to_multiset_ensures;

    let n = d.len();
    let sel = selected_distances(d, r);
    if n == 0 {
        if r.len() > 0 {
            assert(r[0] < d.len());
            assert(false);
        }
        assert(d.to_multiset().len() == 0);
        assert(sel.to_multiset().len() == 0);
        assert(d.to_multiset() =~= sel.to_multiset().add(unpicked_distances(d, r, 0)));
    } else {
        let d2 = d.drop_last();
        let x = d.last();
        assert(d =~= d2.push(x));
        assert(d.to_multiset() == d2.to_multiset().insert(x));
        if picks(r, n - 1) {
            let pos = choose|t: int| 0 <= t < r.len() && r[t] as int == n - 1;
            let r2 = r.remove(pos);
            r.remove_ensures(pos);
            assert forall|q: int| 0 <= q < n - 1 implies picks(r2, q) == picks(r, q) by {
                lemma_picks_remove(r, pos, q);
            }
            assert forall|i: int, j: int| 0 <= i < j < r2.len() implies r2[i] != r2[j] by {
                assert(r2[i] == r[if i < pos { i } else { i + 1 }]);
                assert(r2[j] == r[if j < pos { j } else { j + 1 }]);
            }
            assert forall|i: int| 0 <= i < r2.len() implies (#[trigger] r2[i]) < d2.len() by {
                let src = if i < pos { i } else { i + 1 };
                assert(r2[i] == r[src]);
                assert(r[src] != r[pos]);
            }
            lemma_selection_decomposition(d2, r2);
            let sel2 = selected_distances(d2, r2);
            assert(sel.remove(pos) =~= sel2) by {
                sel.remove_ensures(pos);
                assert forall|i: int| 0 <= i < sel2.len() implies sel.remove(pos)[i] == sel2[i] by {
                    let src = if i < pos { i } else { i + 1 };
                    assert(sel.remove(pos)[i] == sel[src]);
                    assert(r2[i] == r[src]);
                    assert(r2[i] < d2.len());
                }
            }
            assert(sel.remove(pos).to_multiset() == sel.to_multiset().remove(sel[pos]));
            assert(sel[pos] == x);
            assert(sel.to_multiset().count(x) > 0) by {
                assert(sel[pos] == x);
                assert(sel.contains(x));
            }
            assert(sel.to_multiset() =~= sel2.to_multiset().insert(x));
            lemma_unpicked_agree(d, r, d2, r2, (n - 1) as nat);
            assert(unpicked_distances(d, r, n) == unpicked_distances(d2, r2, (n - 1) as nat));
            assert(d.to_multiset() =~= sel.to_multiset().add(unpicked_distances(d, r, n)));
        } else {
            assert forall|i: int| 0 <= i < r.len() implies (#[trigger] r[i]) < d2.len() by {
                assert(r[i] as int != n - 1);
            }
            lemma_selection_decomposition(d2, r);
            assert(selected_distances(d2, r) =~= sel);
            lemma_unpicked_agree(d, r, d2, r, (n - 1) as nat);
            assert(unpicked_distances(d, r, n) == unpicked_distances(
                d,
                r,
                (n - 1) as nat,
            ).insert(x));
            assert(d.to_multiset() =~= sel.to_multiset().add(unpicked_distances(d, r, n)));
        }
    }
}

/// Selector correctness as spec'd of the values: the distances at the
/// chosen indices are exactly the min(k, |d|) smallest distances of `d`
/// as a multiset — a sub-multiset of `d`'s of that size, none of whose
/// entries is farther than any distance left out.
pub proof fn lemma_selection_smallest(d: Seq<u32>, k: nat, r: Seq<usize>)
    requires
        is_min_k_selection(d, k, r),
    ensures
        selected_distances(d, r).to_multiset().subset_of(d.to_multiset()),
        selected_distances(d, r).to_multiset().len() == if k <= d.len() {
            k
        } else {
            d.len()
        },
        forall|y: u32, i: int|
            #![trigger d.to_multiset().sub(selected_distances(d, r).to_multiset()).count(y), r[i]]
            d.to_multiset().sub(selected_distances(d, r).to_multiset()).count(y) > 0 && 0 <= i
                < r.len() ==> d[r[i] as int] <= y,
{
    broadcast use vstd::multiset::group_multiset_axioms;
    broadcast use vstd::seq_lib::group_to_multiset_ensures;

    let sel = selected_distances(d, r);
    assert forall|i: int, j: int| 0 <= i < j < r.len() implies r[i] != r[j] by {
        assert(lex_lt(d, r[i] as int, r[j] as int));
    }
    lemma_selection_decomposition(d, r);
    let unp = unpicked_distances(d, r, d.len());
    assert(d.to_multiset().sub(sel.to_multiset()) =~= unp);
    lemma_selection_values(d, k, r);
    assert forall|y: u32, i: int|
        d.to_multiset().sub(sel.to_multiset()).count(y) > 0 && 0 <= i < r.len() implies d[r[
        i] as int] <= y by {
        lemma_unpicked_witness(d, r, d.len(), y);
        let q = choose|q: int| 0 <= q < d.len() && !picks(r, q) && d[q] == y;
        assert(lex_lt(d, r[i] as int, q));
    }
}

/// One position of a selection ranks before the other selection's
/// position there, once the two agree on everything earlier.
proof fn lemma_selection_pointwise(d: Seq<u32>, k: nat, r1: Seq<usize>, r2: Seq<usize>, i: int)
    requires
        is_min_k_selection(d, k, r1),
        is_min_k_selection(d, k, r2),
        0 <= i < r1.len(),
        forall|t: int| 0 <= t < i ==> r1[t] == r2[t],
        r1[i] != r2[i],
    ensures
        lex_lt(d, r2[i] as int, r1[i] as int),
{
    let x = r1[i] as int;
    if picks(r2, x) {
        let j = choose|j: int| 0 <= j < r2.len() && r2[j] as int == x;
        if j < i {
            assert(r1[j] == r2[j]);
            assert(lex_lt(d, r1[j] as int, r1[i] as int));
            assert(false);
        } else if j == i {
            assert(false);
        } else {
            assert(lex_lt(d, r2[i] as int, r2[j] as int));
        }
    } else {
        assert(lex_lt(d, r2[i] as int, x));
    }
}

/// Positions from `i` on agree, once everything earlier does.
proof fn lemma_selection_unique_from(d: Seq<u32>, k: nat, r1: Seq<usize>, r2: Seq<usize>, i: int)
    requires
        is_min_k_selection(d, k, r1),
        is_min_k_selection(d, k, r2),
        0 <= i <= r1.len(),
        forall|t: int| 0 <= t < i ==> r1[t] == r2[t],
    ensures
        forall|t: int| 0 <= t < r1.len() ==> r1[t] == r2[t],
    decreases r1.len() - i,
{
    if i < r1.len() {
        if r1[i] != r2[i] {
            lemma_selection_pointwise(d, k, r1, r2, i);
            lemma_selection_pointwise(d, k, r2, r1, i);
            assert(false);
        }
        lemma_selection_unique_from(d, k, r1, r2, i + 1);
    }
}

/// Whether position `q` of `d` ranks strictly before position `p`.
fn ranks_before(d: &Vec<u32>, q: usize, p: usize) -> (b: bool)
    requires
        q < d@.len(),
        p < d@.len(),
    ensures
        b == lex_lt(d@, q as int, p as int),
{
    d[q] < d[p] || (d[q] == d[p] && q < p)
}

/// Indices of the `k` smallest distances, in ascending distance order,
/// ties broken by the lower original index; `min(k, |distances|)` of
/// them. The input array is not changed.
///
/// A full stable sort of the index range followed by a truncation: the
/// contract, not asymptotic cost, is what the kernel owes its callers.
pub fn select_min_k(distances: &Vec<u32>, k: usize) -> (r: Vec<usize>)
    ensures
        is_min_k_selection(distances@, k as nat, r@),
        r@.len() == vstd::math::min(k as int, distances@.len() as int),
{
    let n = distances.len();
    let mut order: Vec<usize> = Vec::new();
    let mut p: usize = 0;
    while p < n
        invariant
            n == distances@.len(),
            p <= n,
            order@.len() == p,
            forall|i: int| 0 <= i < order@.len() ==> (#[trigger] order@[i]) < p,
            forall|i: int, j: int|
                0 <= i < j < order@.len() ==> #[trigger] lex_lt(
                    distances@,
                    order@[i] as int,
                    order@[j] as int,
                ),
            forall|q: int| 0 <= q < p ==> picks(order@, q),
        decreases n - p,
    {
        let mut pos: usize = 0;
        while pos < order.len() && ranks_before(distances, order[pos], p)
            invariant
                n == distances@.len(),
                p < n,
                order@.len() == p,
                forall|i: int| 0 <= i < order@.len() ==> (#[trigger] order@[i]) < p,
                pos <= order@.len(),
                forall|t: int|
                    0 <= t < pos ==> #[trigger] lex_lt(distances@, order@[t] as int, p as int),
            decreases order@.len() - pos,
        {
            pos = pos + 1;
        }
        proof {
            let d = distances@;
            let prev = order@;
            let next = prev.insert(pos as int, p);
            prev.insert_ensures(pos as int, p);
            assert forall|t: int| pos <= t < prev.len() implies lex_lt(
                d,
                p as int,
                prev[t] as int,
            ) by {
                assert(!lex_lt(d, prev[pos as int] as int, p as int));
                assert(prev[pos as int] < p);
                assert(lex_lt(d, p as int, prev[pos as int] as int));
                if t > pos {
                    assert(lex_lt(d, prev[pos as int] as int, prev[t] as int));
                }
            }
            assert forall|i: int, j: int| 0 <= i < j < next.len() implies lex_lt(
                d,
                next[i] as int,
                next[j] as int,
            ) by {
                if j < pos {
                    assert(next[i] == prev[i] && next[j] == prev[j]);
                } else if j == pos {
                    assert(next[i] == prev[i] && next[j] == p);
                } else {
                    assert(next[j] == prev[j - 1]);
                    if i < pos {
                        assert(next[i] == prev[i]);
                        assert(lex_lt(d, prev[i] as int, prev[j - 1] as int));
                    } else if i == pos {
                        assert(next[i] == p);
                        assert(lex_lt(d, p as int, prev[j - 1] as int));
                    } else {
                        assert(next[i] == prev[i - 1]);
                        assert(lex_lt(d, prev[i - 1] as int, prev[j - 1] as int));
                    }
                }
            }
            assert forall|q: int| 0 <= q < p + 1 implies picks(next, q) by {
                lemma_picks_insert(prev, pos as int, p, q);
            }
        }
        order.insert(pos, p);
        p = p + 1;
    }
    let m: usize = if k < n {
        k
    } else {
        n
    };
    let ghost full = order@;
    order.truncate(m);
    proof {
        let d = distances@;
        let pre = order@;
        assert(pre == full.subrange(0, m as int));
        assert forall|q: int, i: int|
            0 <= q < d.len() && !picks(pre, q) && 0 <= i < pre.len() implies lex_lt(
            d,
            pre[i] as int,
            q,
        ) by {
            assert(picks(full, q));
            let j = choose|j: int| 0 <= j < full.len() && full[j] as int == q;
            if j < m {
                assert(pre[j] as int == q);
                assert(picks(pre, q));
            }
            assert(j >= m);
            assert(lex_lt(d, full[i] as int, full[j] as int));
        }
        assert(is_min_k_selection(d, k as nat, pre));
    }
    order
}

} // verus!
