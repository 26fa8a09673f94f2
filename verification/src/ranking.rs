//! Ordering of candidate servers by measured latency.

use vstd::prelude::*;

verus! {

/// Latencies in nanoseconds ordered as `Option` orders them: an unmeasured
/// server (`None`) before any measured one, measured ones by time.
pub open spec fn latency_lt(a: Option<u64>, b: Option<u64>) -> bool {
    match (a, b) {
        (None, Some(_)) => true,
        (Some(x), Some(y)) => x < y,
        _ => false,
    }
}

/// Server `i` comes before server `j`: a lower latency, or the same latency
/// and an earlier place in the list (the order a stable sort keeps).
pub open spec fn ranked_before(ls: Seq<Option<u64>>, i: int, j: int) -> bool {
    latency_lt(ls[i], ls[j]) || (ls[i] == ls[j] && i < j)
}

/// `order` lists each index of `ls` once, in ranking order.
pub open spec fn is_ranking(ls: Seq<Option<u64>>, order: Seq<usize>) -> bool {
    &&& order.len() == ls.len()
    &&& forall|k: int| 0 <= k < order.len() ==> #[trigger] order[k] < ls.len()
    &&& forall|i: int| 0 <= i < ls.len() ==> #[trigger] order.contains(i as usize)
    &&& forall|a: int, b: int| 0 <= a < b < order.len() ==> ranked_before(ls, #[trigger] order[a] as int, #[trigger] order[b] as int)
}

fn latency_le(a: Option<u64>, b: Option<u64>) -> (r: bool)
    ensures
        r == (latency_lt(a, b) || a == b),
{
    match (a, b) {
        (None, _) => true,
        (Some(_), None) => false,
        (Some(x), Some(y)) => x <= y,
    }
}

/// The servers' indices sorted by latency, keeping list order among equal
/// latencies.
pub fn latency_order(ls: &[Option<u64>]) -> (r: Vec<usize>)
    ensures
        is_ranking(ls@, r@),
{
    let n = ls.len();
    let mut order: Vec<usize> = Vec::new();
    let mut i: usize = 0;
    while i < n
        invariant
            n == ls@.len(),
            i <= n,
            order@.len() == i,
            forall|k: int| 0 <= k < order@.len() ==> #[trigger] order@[k] < i,
            forall|j: int| 0 <= j < i ==> #[trigger] order@.contains(j as usize),
            forall|a: int, b: int| 0 <= a < b < order@.len() ==> ranked_before(ls@, #[trigger] order@[a] as int, #[trigger] order@[b] as int),
        decreases n - i,
    {
        let key = ls[i];
        let mut p: usize = 0;
        while p < order.len() && latency_le(ls[order[p]], key)
            invariant
                n == ls@.len(),
                i < n,
                key == ls@[i as int],
                order@.len() == i,
                p <= order@.len(),
                forall|k: int| 0 <= k < order@.len() ==> #[trigger] order@[k] < i,
                forall|k: int| 0 <= k < p ==> ranked_before(ls@, #[trigger] order@[k] as int, i as int),
            decreases order@.len() - p,
        {
            p = p + 1;
        }
        proof {
            if p < order@.len() {
                assert(ranked_before(ls@, i as int, order@[p as int] as int));
                assert forall|k: int| p <= k < order@.len() implies ranked_before(ls@, i as int, #[trigger] order@[k] as int) by {
                    if k > p {
                        assert(ranked_before(ls@, order@[p as int] as int, order@[k] as int));
                    }
                }
            }
        }
        let ghost before = order@;
        order.insert(p, i);
        assert(order@[p as int] == i);
        assert forall|j: int| 0 <= j <= i implies #[trigger] order@.contains(j as usize) by {
            if j < i {
                assert(before.contains(j as usize));
                let k = choose|k: int| 0 <= k < before.len() && before[k] == j as usize;
                if k < p {
                    assert(order@[k] == j as usize);
                } else {
                    assert(order@[k + 1] == j as usize);
                }
            } else {
                assert(order@[p as int] == j as usize);
            }
        }
        assert forall|a: int, b: int| 0 <= a < b < order@.len() implies ranked_before(ls@, #[trigger] order@[a] as int, #[trigger] order@[b] as int) by {
            if a < p && b == p {
            } else if a == p {
                assert(ranked_before(ls@, i as int, before[b - 1] as int));
            } else if b < p {
                assert(ranked_before(ls@, before[a] as int, before[b] as int));
            } else if a < p {
                assert(ranked_before(ls@, before[a] as int, before[b - 1] as int));
            } else {
                assert(ranked_before(ls@, before[a - 1] as int, before[b - 1] as int));
            }
        }
        i = i + 1;
    }
    order
}

/// The server to test against: of the servers that answered, the one with
/// the lowest latency, the first in the list where several share it; none
/// when no server answered.  It is the first answering server in
/// `latency_order`.
pub fn fastest_server(ls: &[Option<u64>]) -> (r: Option<usize>)
    ensures
        r is None <==> forall|j: int| 0 <= j < ls@.len() ==> #[trigger] ls@[j] is None,
        r matches Some(i) ==> {
            &&& i < ls@.len()
            &&& ls@[i as int] is Some
            &&& forall|j: int| 0 <= j < ls@.len() && #[trigger] ls@[j] is Some ==>
                    ls@[i as int]->0 < ls@[j]->0 || (ls@[i as int]->0 == ls@[j]->0 && i <= j)
        },
{
    let order = latency_order(ls);
    let mut k: usize = 0;
    while k < order.len()
        invariant
            is_ranking(ls@, order@),
            k <= order@.len(),
            forall|m: int| 0 <= m < k ==> ls@[#[trigger] order@[m] as int] is None,
        decreases order@.len() - k,
    {
        let i = order[k];
        if ls[i].is_some() {
            proof {
                assert forall|j: int| 0 <= j < ls@.len() && #[trigger] ls@[j] is Some implies
                    ls@[i as int]->0 < ls@[j]->0 || (ls@[i as int]->0 == ls@[j]->0 && i <= j) by {
                    assert(order@.contains(j as usize));
                    let m = choose|m: int| 0 <= m < order@.len() && order@[m] == j as usize;
                    if m < k {
                        assert(ls@[order@[m] as int] is None);
                    } else if m > k {
                        assert(ranked_before(ls@, order@[k as int] as int, order@[m] as int));
                    }
                }
            }
            return Some(i);
        }
        k = k + 1;
    }
    proof {
        assert forall|j: int| 0 <= j < ls@.len() implies #[trigger] ls@[j] is None by {
            assert(order@.contains(j as usize));
            let m = choose|m: int| 0 <= m < order@.len() && order@[m] == j as usize;
            assert(ls@[order@[m] as int] is None);
        }
    }
    None
}

pub open spec fn sum_nanos(s: Seq<u64>) -> int
    decreases s.len(),
{
    if s.len() == 0 { 0 } else { sum_nanos(s.drop_last()) + s.last() }
}

/// The mean of latency samples (nanoseconds), rounded down; none without
/// samples.
pub fn mean_latency(samples: &[u64]) -> (r: Option<u64>)
    requires
        samples@.len() <= 0xffff_ffff,
    ensures
        samples@.len() == 0 ==> r is None,
        samples@.len() > 0 ==> r == Some((sum_nanos(samples@) / (samples@.len() as int)) as u64),
        samples@.len() > 0 ==> 0 <= sum_nanos(samples@) / (samples@.len() as int) <= u64::MAX,
{
    let n = samples.len();
    if n == 0 {
        return None;
    }
    let mut total: u128 = 0;
    let mut i: usize = 0;
    while i < n
        invariant
            n == samples@.len(),
            n <= 0xffff_ffff,
            i <= n,
            total == sum_nanos(samples@.take(i as int)),
            total <= i * 0xffff_ffff_ffff_ffff,
        decreases n - i,
    {
        assert(samples@.take(i + 1).drop_last() =~= samples@.take(i as int));
        total = total + samples[i] as u128;
        i = i + 1;
    }
    assert(samples@.take(n as int) =~= samples@);
    let mean = total / (n as u128);
    assert(mean <= 0xffff_ffff_ffff_ffff) by (nonlinear_arith)
        requires
            total <= n * 0xffff_ffff_ffff_ffff,
            n >= 1,
            mean == total / (n as u128);
    Some(mean as u64)
}

/// Records one latency sample: half of a request's round trip (nanoseconds,
/// rounded down), and gives the mean of the samples so far.
pub fn record_round_trip(samples: &mut Vec<u64>, round_trip_nanos: u64) -> (mean: u64)
    requires
        old(samples)@.len() < 0xffff_ffff,
    ensures
        final(samples)@ == old(samples)@.push(round_trip_nanos / 2),
        mean == sum_nanos(final(samples)@) / (final(samples)@.len() as int),
{
    samples.push(round_trip_nanos / 2);
    match mean_latency(samples.as_slice()) {
        Some(m) => m,
        None => 0,
    }
}

} // verus!
