//! Integer statistics of a trace: packets sent, the largest delta, and the largest bursts.

use vstd::prelude::*;

use crate::trace::{Direction, Trace};

verus! {

/// The number of packets among the first `n` directions that were sent.
pub open spec fn sent_count(dirs: Seq<Direction>, n: nat) -> nat
    decreases n,
{
    if n == 0 {
        0
    } else {
        sent_count(dirs, (n - 1) as nat) + (if dirs[n - 1] == Direction::Send {
            1nat
        } else {
            0nat
        })
    }
}

/// The number of deltas just before index `i` that are at most `threshold`, counted back to the
/// previous delta above it: the length of the burst that `i` ends.
pub open spec fn burst_run(deltas: Seq<u32>, threshold: u32, i: nat) -> nat
    decreases i,
{
    if i == 0 {
        0
    } else if deltas[i - 1] <= threshold {
        burst_run(deltas, threshold, (i - 1) as nat) + 1
    } else {
        0
    }
}

/// The largest burst among the first `n` deltas: the longest run of deltas at most `threshold`,
/// the runs being what lies between deltas above it.
pub open spec fn largest_burst_upto(deltas: Seq<u32>, threshold: u32, n: nat) -> nat
    decreases n,
{
    if n == 0 {
        0
    } else {
        let prev = largest_burst_upto(deltas, threshold, (n - 1) as nat);
        let run = burst_run(deltas, threshold, n);
        if run > prev {
            run
        } else {
            prev
        }
    }
}

/// Every delta from index `i` up to (not including) `j` is at most `threshold`.
pub open spec fn within(deltas: Seq<u32>, threshold: u32, i: int, j: int) -> bool {
    forall|k: int| i <= k < j ==> #[trigger] deltas[k] <= threshold
}

/// The `len` deltas from index `i` are all at most `threshold`.
pub open spec fn burst_at(deltas: Seq<u32>, threshold: u32, i: int, len: int) -> bool {
    within(deltas, threshold, i, i + len)
}

proof fn lemma_burst_run(deltas: Seq<u32>, threshold: u32, n: nat)
    requires
        n <= deltas.len(),
    ensures
        burst_run(deltas, threshold, n) <= n,
        within(deltas, threshold, n - burst_run(deltas, threshold, n), n as int),
        forall|i: int| 0 <= i <= n && within(deltas, threshold, i, n as int) ==> n - i <= burst_run(
            deltas,
            threshold,
            n,
        ),
    decreases n,
{
    if n > 0 {
        lemma_burst_run(deltas, threshold, (n - 1) as nat);
        let r = burst_run(deltas, threshold, n);
        assert forall|i: int| 0 <= i <= n && within(deltas, threshold, i, n as int) implies n - i <= r by {
            if i < n {
                assert(deltas[n - 1] <= threshold);
                assert(within(deltas, threshold, i, n - 1));
            }
        }
    }
}

proof fn lemma_largest_burst(deltas: Seq<u32>, threshold: u32, n: nat) -> (start: int)
    requires
        n <= deltas.len(),
    ensures
        forall|i: int, j: int|
            0 <= i <= j <= n && within(deltas, threshold, i, j) ==> j - i <= largest_burst_upto(
                deltas,
                threshold,
                n,
            ),
        0 <= start,
        start + largest_burst_upto(deltas, threshold, n) <= n,
        burst_at(deltas, threshold, start, largest_burst_upto(deltas, threshold, n) as int),
    decreases n,
{
    if n == 0 {
        0
    } else {
        let prev_start = lemma_largest_burst(deltas, threshold, (n - 1) as nat);
        lemma_burst_run(deltas, threshold, n);
        let best = largest_burst_upto(deltas, threshold, n);
        let run = burst_run(deltas, threshold, n);
        assert forall|i: int, j: int| 0 <= i <= j <= n && within(deltas, threshold, i, j) implies j - i
            <= best by {
            if j == n {
            } else {
                assert(within(deltas, threshold, i, j));
            }
        }
        if run > largest_burst_upto(deltas, threshold, (n - 1) as nat) {
            n - run
        } else {
            prev_start
        }
    }
}

/// The largest of the first `n` deltas (0 if there are none).
pub open spec fn largest_delta_upto(deltas: Seq<u32>, n: nat) -> u32
    decreases n,
{
    if n == 0 {
        0
    } else {
        let prev = largest_delta_upto(deltas, (n - 1) as nat);
        if deltas[n - 1] > prev {
            deltas[n - 1]
        } else {
            prev
        }
    }
}

/// The largest delta is a bound on every delta, and one of them (or 0 when there are none).
pub proof fn lemma_largest_delta(deltas: Seq<u32>, n: nat)
    requires
        n <= deltas.len(),
    ensures
        forall|i: int| 0 <= i < n ==> #[trigger] deltas[i] <= largest_delta_upto(deltas, n),
        n == 0 ==> largest_delta_upto(deltas, n) == 0,
        n > 0 ==> exists|i: int| 0 <= i < n && #[trigger] deltas[i] == largest_delta_upto(deltas, n),
    decreases n,
{
    if n > 0 {
        lemma_largest_delta(deltas, (n - 1) as nat);
        let l = largest_delta_upto(deltas, n);
        if n - 1 > 0 {
            let j = choose|j: int| 0 <= j < n - 1 && #[trigger] deltas[j] == largest_delta_upto(deltas, (n - 1) as nat);
            if l == deltas[n - 1] {
                assert(deltas[n - 1] == l);
            } else {
                assert(deltas[j] == l);
            }
        } else {
            assert(deltas[0] == l);
        }
    }
}

/// The number of packets sent.
pub fn count_sent(trace: &Trace) -> (r: usize)
    ensures
        r == sent_count(trace@.directions, trace@.directions.len()),
{
    let mut count: usize = 0;
    let mut i: usize = 0;
    while i < trace.directions.len()
        invariant
            i <= trace.directions@.len(),
            count == sent_count(trace@.directions, i as nat),
            count <= i,
        decreases trace.directions@.len() - i,
    {
        if trace.directions[i] == Direction::Send {
            count = count + 1;
        }
        i = i + 1;
    }
    count
}

/// The largest timing delta (0 for an empty trace).
pub fn largest_delta(deltas: &Vec<u32>) -> (r: u32)
    ensures
        r == largest_delta_upto(deltas@, deltas@.len()),
        forall|i: int| 0 <= i < deltas@.len() ==> #[trigger] deltas@[i] <= r,
        deltas@.len() == 0 ==> r == 0,
        deltas@.len() > 0 ==> exists|i: int| 0 <= i < deltas@.len() && #[trigger] deltas@[i] == r,
{
    proof {
        lemma_largest_delta(deltas@, deltas@.len());
    }
    let mut best: u32 = 0;
    let mut i: usize = 0;
    while i < deltas.len()
        invariant
            i <= deltas@.len(),
            best == largest_delta_upto(deltas@, i as nat),
        decreases deltas@.len() - i,
    {
        if deltas[i] > best {
            best = deltas[i];
        }
        i = i + 1;
    }
    best
}

/// The largest burst: the most packets in a row whose deltas are at most `threshold` (the
/// deltas above it split the trace into bursts). Every run of deltas at most `threshold` is at
/// most that long, and one is that long.
pub fn largest_burst(deltas: &Vec<u32>, threshold: u32) -> (r: usize)
    ensures
        r == largest_burst_upto(deltas@, threshold, deltas@.len()),
        forall|i: int, j: int|
            0 <= i <= j <= deltas@.len() && within(deltas@, threshold, i, j) ==> j - i <= r,
        exists|i: int| 0 <= i && i + r <= deltas@.len() && #[trigger] burst_at(deltas@, threshold, i, r as int),
{
    let mut best: usize = 0;
    let mut run: usize = 0;
    let mut i: usize = 0;
    while i < deltas.len()
        invariant
            i <= deltas@.len(),
            run == burst_run(deltas@, threshold, i as nat),
            best == largest_burst_upto(deltas@, threshold, i as nat),
            run <= i,
            best <= i,
        decreases deltas@.len() - i,
    {
        if deltas[i] <= threshold {
            run = run + 1;
        } else {
            run = 0;
        }
        if run > best {
            best = run;
        }
        i = i + 1;
    }
    proof {
        let start = lemma_largest_burst(deltas@, threshold, deltas@.len());
        assert(burst_at(deltas@, threshold, start, best as int));
    }
    best
}

} // verus!
