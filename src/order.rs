//! The fastest result and the order of rows by mean time.
use vstd::prelude::*;
use crate::benchmark::{total, BenchmarkResult, Summary};
use crate::natural::Natural;
use crate::report::{fastest_among, is_baseline, mean_below, times};

verus! {

/// Whether `sums` summarizes `rs`, one to one.
pub open spec fn summarizes(sums: Seq<Summary>, rs: Seq<BenchmarkResult>) -> bool {
    &&& sums.len() == rs.len()
    &&& forall|i: int| 0 <= i < rs.len() ==> (#[trigger] sums[i]).describes(times(rs[i]))
}

/// Whether result `i` comes before result `j` when sorted by mean: a lower mean, or
/// an equal mean and an earlier place.
pub open spec fn comes_before(rs: Seq<BenchmarkResult>, i: int, j: int) -> bool {
    mean_below(times(rs[i]), times(rs[j])) || (!mean_below(times(rs[j]), times(rs[i])) && i < j)
}

/// Whether `p` lists every result once, in ascending order of mean, ties in their
/// input order.
pub open spec fn is_mean_order(rs: Seq<BenchmarkResult>, p: Seq<usize>) -> bool {
    &&& p.len() == rs.len()
    &&& forall|k: int| 0 <= k < p.len() ==> #[trigger] p[k] < rs.len()
    &&& forall|i: usize| i < rs.len() ==> #[trigger] p.contains(i)
    &&& forall|k: int, l: int|
        0 <= k < l < p.len() ==> comes_before(rs, #[trigger] p[k] as int, #[trigger] p[l] as int)
}

/// The order of results by mean time.
pub open spec fn mean_order(rs: Seq<BenchmarkResult>) -> Seq<usize> {
    choose|p: Seq<usize>| is_mean_order(rs, p)
}

/// The input order of results.
pub open spec fn input_order(n: nat) -> Seq<usize> {
    Seq::new(n, |i: int| i as usize)
}

proof fn lemma_orders_agree_below(rs: Seq<BenchmarkResult>, p: Seq<usize>, q: Seq<usize>, k: int)
    requires
        is_mean_order(rs, p),
        is_mean_order(rs, q),
        0 <= k <= p.len(),
    ensures
        forall|j: int| 0 <= j < k ==> p[j] == q[j],
    decreases k,
{
    if k > 0 {
        lemma_orders_agree_below(rs, p, q, k - 1);
        let m = k - 1;
        let a = p[m];
        let c = q[m];
        assert(q.contains(a));
        let l = choose|l: int| 0 <= l < q.len() && q[l] == a;
        assert(p.contains(c));
        let n = choose|n: int| 0 <= n < p.len() && p[n] == c;
        if l < m {
            assert(p[l] == a);
            assert(comes_before(rs, p[l] as int, p[m] as int));
        }
        if n < m {
            assert(q[n] == c);
            assert(comes_before(rs, q[n] as int, q[m] as int));
        }
        if a != c {
            assert(comes_before(rs, q[m] as int, q[l] as int));
            assert(comes_before(rs, p[m] as int, p[n] as int));
        }
    }
}

/// There is one order by mean at most.
pub proof fn lemma_mean_order_unique(rs: Seq<BenchmarkResult>, p: Seq<usize>)
    requires
        is_mean_order(rs, p),
    ensures
        mean_order(rs) == p,
{
    let q = mean_order(rs);
    assert(is_mean_order(rs, q));
    lemma_orders_agree_below(rs, p, q, p.len() as int);
    assert(p =~= q);
}

pub proof fn lemma_mean_below_chain(a: Seq<int>, b: Seq<int>, c: Seq<int>)
    requires
        a.len() > 0,
        b.len() > 0,
        c.len() > 0,
        mean_below(a, b),
        !mean_below(c, b),
    ensures
        mean_below(a, c),
{
    let (ta, tb, tc) = (total(a), total(b), total(c));
    let (na, nb, nc) = (a.len() as int, b.len() as int, c.len() as int);
    assert(ta * nc < tc * na) by (nonlinear_arith)
        requires ta * nb < tb * na, tb * nc <= tc * nb, na > 0, nb > 0, nc > 0;
}

/// Whether the mean of the first summary is below that of the second.
fn summary_below(a: &Summary, b: &Summary) -> (r: bool)
    ensures
        r == (a.total@ * b.count < b.total@ * a.count),
{
    let left = a.total.mul(&Natural::from_u128(b.count as u128));
    let right = b.total.mul(&Natural::from_u128(a.count as u128));
    !left.ge(&right)
}

/// The index of the baseline: the least mean, the first such.
pub fn baseline_index(rs: &Vec<BenchmarkResult>, sums: &Vec<Summary>) -> (b: usize)
    requires
        summarizes(sums@, rs@),
        rs@.len() > 0,
    ensures
        is_baseline(rs@, b as int),
{
    let mut best: usize = 0;
    let mut i: usize = 1;
    while i < sums.len()
        invariant
            summarizes(sums@, rs@),
            1 <= i <= rs@.len(),
            fastest_among(rs@, best as int, i as int),
        decreases rs@.len() - i,
    {
        assert(sums@[i as int].describes(times(rs@[i as int])));
        assert(sums@[best as int].describes(times(rs@[best as int])));
        if summary_below(&sums[i], &sums[best]) {
            proof {
                assert forall|j: int| 0 <= j < i implies mean_below(
                    times(rs@[i as int]),
                    #[trigger] times(rs@[j]),
                ) by {
                    assert(sums@[j].describes(times(rs@[j])));
                    lemma_mean_below_chain(times(rs@[i as int]), times(rs@[best as int]), times(rs@[j]));
                }
            }
            best = i;
        }
        i = i + 1;
    }
    best
}

/// The order in which to show the results when sorted by mean time.
pub fn sorted_by_mean(rs: &Vec<BenchmarkResult>, sums: &Vec<Summary>) -> (p: Vec<usize>)
    requires
        summarizes(sums@, rs@),
    ensures
        p@ == mean_order(rs@),
        is_mean_order(rs@, p@),
{
    let n = sums.len();
    let mut out: Vec<usize> = Vec::new();
    let mut i: usize = 0;
    while i < n
        invariant
            n == rs@.len(),
            summarizes(sums@, rs@),
            i <= n,
            out@.len() == i,
            forall|k: int| 0 <= k < out@.len() ==> #[trigger] out@[k] < i,
            forall|j: usize| j < i ==> #[trigger] out@.contains(j),
            forall|k: int, l: int|
                0 <= k < l < out@.len() ==> comes_before(rs@, #[trigger] out@[k] as int, #[trigger] out@[l] as int),
        decreases n - i,
    {
        let mut pos: usize = 0;
        while pos < out.len() && !summary_below(&sums[i], &sums[out[pos]])
            invariant
                n == rs@.len(),
                summarizes(sums@, rs@),
                i < n,
                pos <= out@.len(),
                forall|k: int| 0 <= k < out@.len() ==> #[trigger] out@[k] < i,
                forall|k: int| 0 <= k < pos ==> comes_before(rs@, #[trigger] out@[k] as int, i as int),
            decreases out@.len() - pos,
        {
            assert(sums@[i as int].describes(times(rs@[i as int])));
            assert(sums@[out@[pos as int] as int].describes(times(rs@[out@[pos as int] as int])));
            pos = pos + 1;
        }
        let ghost old_out = out@;
        proof {
            if pos < out@.len() {
                let o = out@[pos as int] as int;
                assert(sums@[i as int].describes(times(rs@[i as int])));
                assert(sums@[o].describes(times(rs@[o])));
                assert(mean_below(times(rs@[i as int]), times(rs@[o])));
                assert forall|l: int| pos <= l < old_out.len() implies comes_before(
                    rs@,
                    i as int,
                    #[trigger] old_out[l] as int,
                ) by {
                    if l > pos {
                        assert(comes_before(rs@, old_out[pos as int] as int, old_out[l] as int));
                        assert(sums@[old_out[l] as int].describes(times(rs@[old_out[l] as int])));
                        if !mean_below(times(rs@[o]), times(rs@[old_out[l] as int])) {
                            assert(!mean_below(times(rs@[old_out[l] as int]), times(rs@[o])));
                        }
                        lemma_mean_below_chain(
                            times(rs@[i as int]),
                            times(rs@[o]),
                            times(rs@[old_out[l] as int]),
                        );
                    }
                }
            }
        }
        out.insert(pos, i);
        proof {
            assert(out@ == old_out.insert(pos as int, i));
            assert forall|k: int, l: int|
                0 <= k < l < out@.len() implies comes_before(rs@, #[trigger] out@[k] as int, #[trigger] out@[l] as int) by {
                if k < pos && l < pos {
                    assert(out@[k] == old_out[k] && out@[l] == old_out[l]);
                } else if k < pos && l == pos {
                } else if k < pos {
                    assert(out@[k] == old_out[k] && out@[l] == old_out[l - 1]);
                } else if k == pos {
                    assert(out@[l] == old_out[l - 1]);
                } else {
                    assert(out@[k] == old_out[k - 1] && out@[l] == old_out[l - 1]);
                }
            }
            assert forall|j: usize| j < i + 1 implies #[trigger] out@.contains(j) by {
                if j == i {
                    assert(out@[pos as int] == i);
                } else {
                    assert(old_out.contains(j));
                    let k = choose|k: int| 0 <= k < old_out.len() && old_out[k] == j;
                    if k < pos {
                        assert(out@[k] == j);
                    } else {
                        assert(out@[k + 1] == j);
                    }
                }
            }
            assert forall|k: int| 0 <= k < out@.len() implies #[trigger] out@[k] < i + 1 by {
                if k < pos {
                    assert(out@[k] == old_out[k]);
                } else if k > pos {
                    assert(out@[k] == old_out[k - 1]);
                }
            }
        }
        i = i + 1;
    }
    proof {
        lemma_mean_order_unique(rs@, out@);
    }
    out
}

} // verus!
