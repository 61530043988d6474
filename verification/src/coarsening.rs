use vstd::prelude::*;

use crate::fib::fib_term;
use vstd::arithmetic::div_mod::{lemma_fundamental_div_mod, lemma_mod_bound};

verus! {

/// Block sizes for Fibonacci-scale coarsening of a graph with `n` nodes: at
/// level `l` (counting from 1) the block size is term `l + 1` of the standard
/// Fibonacci sequence (2, 3, 5, 8, ...). Levels stop at `levels`, or before
/// the first block size that is not smaller than `n`.
pub fn coarsening_block_sizes(n: usize, levels: usize) -> (sizes: Vec<u64>)
    ensures
        sizes.len() <= levels,
        forall|k: int| 0 <= k < sizes.len() ==> #[trigger] sizes[k] == fib_term(1, 1, (k + 2) as nat),
        forall|k: int| 0 <= k < sizes.len() ==> #[trigger] sizes[k] < n,
        sizes.len() < levels ==> fib_term(1, 1, (sizes.len() + 2) as nat) >= n,
{
    let mut sizes: Vec<u64> = Vec::new();
    let mut prev: u64 = 1;
    let mut cur: u64 = 2;
    let mut level: usize = 0;
    proof {
        reveal_with_fuel(fib_term, 3);
    }
    while level < levels
        invariant
            level <= levels,
            sizes.len() == level,
            prev == fib_term(1, 1, (level + 1) as nat),
            cur == fib_term(1, 1, (level + 2) as nat),
            forall|k: int| 0 <= k < sizes.len() ==> #[trigger] sizes[k] == fib_term(1, 1, (k + 2) as nat),
            forall|k: int| 0 <= k < sizes.len() ==> #[trigger] sizes[k] < n,
        ensures
            sizes.len() <= levels,
            forall|k: int| 0 <= k < sizes.len() ==> #[trigger] sizes[k] == fib_term(1, 1, (k + 2) as nat),
            forall|k: int| 0 <= k < sizes.len() ==> #[trigger] sizes[k] < n,
            sizes.len() < levels ==> fib_term(1, 1, (sizes.len() + 2) as nat) >= n,
        decreases levels - level,
    {
        if cur >= n as u64 {
            break;
        }
        sizes.push(cur);
        let next: u64 = match cur.checked_add(prev) {
            Some(v) => v,
            None => u64::MAX,
        };
        proof {
            assert(fib_term(1, 1, (level + 3) as nat) == next);
        }
        prev = cur;
        cur = next;
        level = level + 1;
    }
    sizes
}

/// Node range [start, end) of block `b` when `n` nodes are cut into blocks of
/// `size` consecutive nodes (the last block may be shorter).
pub open spec fn block_span(n: nat, size: nat, b: nat) -> (nat, nat) {
    let end = (b + 1) * size;
    (b * size, if end < n { end } else { n })
}

/// How many blocks of `size` nodes cover `n` nodes: n / size, rounded up.
pub open spec fn block_total(n: nat, size: nat) -> nat {
    ((n + size - 1) / size as int) as nat
}

proof fn lemma_block_total_exact(n: nat, size: nat, count: nat)
    by (nonlinear_arith)
    requires
        size > 0,
        count * size >= n,
        count == 0 || (count - 1) * size < n,
    ensures
        block_total(n, size) == count,
{
}

proof fn lemma_block_total_bounds(n: nat, size: nat)
    requires
        size > 0,
    ensures
        block_total(n, size) * size >= n,
        block_total(n, size) == 0 || (block_total(n, size) - 1) * size < n,
{
    let x = (n + size - 1) as int;
    let t = x / size as int;
    lemma_fundamental_div_mod(x, size as int);
    lemma_mod_bound(x, size as int);
    let r = x % size as int;
    assert(t >= 0) by (nonlinear_arith)
        requires
            x >= 0,
            size > 0,
            t == x / size as int,
    ;
    assert(t * size >= n) by (nonlinear_arith)
        requires
            x == size * t + r,
            r < size,
            x == n + size - 1,
    ;
    assert(t == 0 || (t - 1) * size < n) by (nonlinear_arith)
        requires
            x == size * t + r,
            0 <= r,
            x == n + size - 1,
    ;
}

/// Cutting `n` nodes into blocks of `size` puts every node in exactly one
/// block: the blocks are non-empty, the first starts at node 0, each starts
/// where the one before ends, and the last ends at node `n`.
pub proof fn lemma_block_spans_partition(n: nat, size: nat)
    requires
        size > 0,
    ensures
        forall|b: nat| b < block_total(n, size) ==> #[trigger] block_span(n, size, b).0 < block_span(n, size, b).1,
        forall|b: nat|
            b + 1 < block_total(n, size) ==> #[trigger] block_span(n, size, b).1 == block_span(n, size, b + 1).0,
        block_total(n, size) > 0 ==> block_span(n, size, 0).0 == 0,
        block_total(n, size) > 0 ==> block_span(n, size, (block_total(n, size) - 1) as nat).1 == n,
        block_total(n, size) == 0 <==> n == 0,
{
    lemma_block_total_bounds(n, size);
    let t = block_total(n, size);
    assert forall|b: nat| b < t implies #[trigger] block_span(n, size, b).0 < block_span(n, size, b).1 by {
        assert(b * size < n && b * size < (b + 1) * size) by (nonlinear_arith)
            requires
                b < t,
                t == 0 || (t - 1) * size < n,
                size > 0,
        ;
    }
    assert forall|b: nat| b + 1 < t implies #[trigger] block_span(n, size, b).1 == block_span(n, size, b + 1).0 by {
        assert((b + 1) * size < n) by (nonlinear_arith)
            requires
                b + 1 < t,
                (t - 1) * size < n,
                size > 0,
        ;
    }
    if t > 0 {
        assert(0 * size == 0);
        assert(((t - 1) as nat + 1) * size >= n);
    }
    if n == 0 {
        assert(t == 0) by (nonlinear_arith)
            requires
                t == 0 || (t - 1) * size < n,
                n == 0,
        ;
    }
    if t == 0 {
        assert(t * size == 0);
    }
}

/// The node ranges of the blocks that cut `n` nodes into blocks of
/// `block_size` consecutive nodes, in order.
pub fn block_ranges(n: usize, block_size: usize) -> (ranges: Vec<(usize, usize)>)
    requires
        block_size > 0,
    ensures
        ranges.len() == block_total(n as nat, block_size as nat),
        forall|b: int| 0 <= b < ranges.len() ==> {
            let span = block_span(n as nat, block_size as nat, b as nat);
            (#[trigger] ranges[b]).0 == span.0 && ranges[b].1 == span.1
        },
{
    let mut ranges: Vec<(usize, usize)> = Vec::new();
    let mut start: usize = 0;
    assert(ranges.len() * block_size == 0) by (nonlinear_arith)
        requires
            ranges.len() == 0,
    ;
    while start < n
        invariant
            block_size > 0,
            start <= n,
            start < n ==> start == ranges.len() * block_size,
            start == n ==> ranges.len() * block_size >= n,
            ranges.len() == 0 || (ranges.len() - 1) * block_size < n,
            forall|b: int| 0 <= b < ranges.len() ==> {
                let span = block_span(n as nat, block_size as nat, b as nat);
                (#[trigger] ranges[b]).0 == span.0 && ranges[b].1 == span.1
            },
        decreases n - start,
    {
        let ghost count = ranges.len() as nat;
        proof {
            assert((count + 1) * block_size == count * block_size + block_size) by (nonlinear_arith);
        }
        let end = if n - start < block_size {
            n
        } else {
            start + block_size
        };
        ranges.push((start, end));
        start = end;
    }
    proof {
        if ranges.len() == 0 {
            assert(n == 0);
        }
        lemma_block_total_exact(n as nat, block_size as nat, ranges.len() as nat);
    }
    ranges
}

} // verus!
