use vstd::prelude::*;

use crate::fib::{
    fib, fib_term, lemma_fib_monotone, lemma_fib_positive, lemma_fib_step, lemma_standard_is_fibonacci,
};

verus! {

/// The sum of a sequence of `u64` values, as an unbounded number.
pub open spec fn sum_of(s: Seq<u64>) -> nat
    decreases s.len(),
{
    if s.len() == 0 {
        0
    } else {
        s[0] as nat + sum_of(s.drop_first())
    }
}

/// The sum of the Fibonacci numbers F(idx[0]) + F(idx[1]) + ...
pub open spec fn fib_sum(idx: Seq<nat>) -> nat
    decreases idx.len(),
{
    if idx.len() == 0 {
        0
    } else {
        fib(idx[0]) + fib_sum(idx.drop_first())
    }
}

/// Indices of a Zeckendorf representation: each is at least 2 (so that
/// F(1) = F(2) = 1 is not counted twice), and they fall by at least 2 from
/// one to any later one (decreasing, no two consecutive Fibonacci numbers).
pub open spec fn zeckendorf_indices(idx: Seq<nat>) -> bool {
    &&& forall|j: int| 0 <= j < idx.len() ==> #[trigger] idx[j] >= 2
    &&& forall|i: int, j: int| 0 <= i < j < idx.len() ==> #[trigger] idx[i] >= #[trigger] idx[j] + 2
}

/// `parts[j]` is the Fibonacci number F(idx[j]), for every `j`.
pub open spec fn parts_are_fibonacci(parts: Seq<u64>, idx: Seq<nat>) -> bool {
    &&& idx.len() == parts.len()
    &&& forall|j: int| 0 <= j < parts.len() ==> #[trigger] parts[j] == fib(idx[j])
}

/// `parts` is a Zeckendorf representation of `n`: Fibonacci numbers, largest
/// first, no two of them consecutive Fibonacci numbers, summing to `n`.
pub open spec fn is_zeckendorf_of(parts: Seq<u64>, n: nat) -> bool {
    &&& sum_of(parts) == n
    &&& exists|idx: Seq<nat>| #[trigger] parts_are_fibonacci(parts, idx) && zeckendorf_indices(idx)
}

/// `parts[j]` is term `pos[j]` of the standard Fibonacci sequence (the one
/// `standard_fibonacci` returns), and the positions fall by at least 2 from
/// one part to any later one: no two parts are neighbours in that sequence.
pub open spec fn standard_positions(parts: Seq<u64>, pos: Seq<nat>) -> bool {
    &&& pos.len() == parts.len()
    &&& forall|j: int| 0 <= j < parts.len() ==> #[trigger] parts[j] == fib_term(1, 1, pos[j])
    &&& forall|i: int, j: int| 0 <= i < j < pos.len() ==> #[trigger] pos[i] >= #[trigger] pos[j] + 2
}

/// The empty sum is 0, and appending one value adds it to the sum.
pub proof fn lemma_sum_of_push(s: Seq<u64>, x: u64)
    ensures
        sum_of(Seq::<u64>::empty()) == 0,
        sum_of(s.push(x)) == sum_of(s) + x,
    decreases s.len(),
{
    let sx = s.push(x);
    assert(sum_of(sx) == sx[0] as nat + sum_of(sx.drop_first()));
    if s.len() > 0 {
        assert(sx.drop_first() =~= s.drop_first().push(x));
        lemma_sum_of_push(s.drop_first(), x);
    } else {
        assert(sx.drop_first() =~= Seq::<u64>::empty());
        assert(sum_of(sx.drop_first()) == 0);
    }
}

/// The sum of the parts is the sum of the Fibonacci numbers they stand for.
pub proof fn lemma_sum_of_parts(parts: Seq<u64>, idx: Seq<nat>)
    requires
        parts_are_fibonacci(parts, idx),
    ensures
        sum_of(parts) == fib_sum(idx),
    decreases parts.len(),
{
    if parts.len() > 0 {
        assert(parts_are_fibonacci(parts.drop_first(), idx.drop_first()));
        lemma_sum_of_parts(parts.drop_first(), idx.drop_first());
    }
}

/// A tail of a Zeckendorf index sequence is one too.
proof fn lemma_indices_tail(idx: Seq<nat>)
    requires
        zeckendorf_indices(idx),
        idx.len() > 0,
    ensures
        zeckendorf_indices(idx.drop_first()),
{
    let t = idx.drop_first();
    assert forall|i: int, j: int| 0 <= i < j < t.len() implies #[trigger] t[i] >= #[trigger] t[j] + 2 by {
        assert(t[i] == idx[i + 1]);
        assert(t[j] == idx[j + 1]);
    }
}

/// A sum of non-consecutive Fibonacci numbers whose largest is F(k) stays
/// below F(k + 1).
pub proof fn lemma_fib_sum_below_next(idx: Seq<nat>)
    requires
        zeckendorf_indices(idx),
        idx.len() > 0,
    ensures
        fib(idx[0]) <= fib_sum(idx),
        fib_sum(idx) < fib(idx[0] + 1),
    decreases idx.len(),
{
    let k = idx[0];
    let t = idx.drop_first();
    lemma_fib_positive((k - 1) as nat);
    assert(fib(k + 1) == fib(k) + fib((k - 1) as nat));
    assert(fib_sum(idx) == fib(k) + fib_sum(t));
    if t.len() > 0 {
        lemma_indices_tail(idx);
        lemma_fib_sum_below_next(t);
        assert(idx[0] >= idx[1] + 2);
        assert(t[0] == idx[1]);
        lemma_fib_monotone(t[0] + 1, (k - 1) as nat);
        assert(fib_sum(t) < fib((k - 1) as nat));
    } else {
        assert(fib_sum(t) == 0);
    }
}

/// Zeckendorf's theorem, uniqueness half: two Zeckendorf index sequences with
/// the same sum are the same sequence.
pub proof fn lemma_zeckendorf_indices_unique(x: Seq<nat>, y: Seq<nat>)
    requires
        zeckendorf_indices(x),
        zeckendorf_indices(y),
        fib_sum(x) == fib_sum(y),
    ensures
        x == y,
    decreases x.len(),
{
    if x.len() == 0 {
        if y.len() > 0 {
            lemma_fib_sum_below_next(y);
            lemma_fib_positive(y[0]);
        }
        assert(x =~= y);
    } else if y.len() == 0 {
        lemma_fib_sum_below_next(x);
        lemma_fib_positive(x[0]);
    } else {
        lemma_fib_sum_below_next(x);
        lemma_fib_sum_below_next(y);
        if x[0] < y[0] {
            lemma_fib_monotone(x[0] + 1, y[0]);
        }
        if y[0] < x[0] {
            lemma_fib_monotone(y[0] + 1, x[0]);
        }
        assert(x[0] == y[0]);
        lemma_indices_tail(x);
        lemma_indices_tail(y);
        lemma_zeckendorf_indices_unique(x.drop_first(), y.drop_first());
        assert forall|i: int| 0 <= i < x.len() implies x[i] == y[i] by {
            if i > 0 {
                assert(x[i] == x.drop_first()[i - 1]);
                assert(y[i] == y.drop_first()[i - 1]);
            }
        }
        assert(x =~= y);
    }
}

/// A number has at most one Zeckendorf representation.
pub proof fn lemma_zeckendorf_unique(p: Seq<u64>, q: Seq<u64>, n: nat)
    requires
        is_zeckendorf_of(p, n),
        is_zeckendorf_of(q, n),
    ensures
        p == q,
{
    let ip = choose|idx: Seq<nat>| #[trigger] parts_are_fibonacci(p, idx) && zeckendorf_indices(idx);
    let iq = choose|idx: Seq<nat>| #[trigger] parts_are_fibonacci(q, idx) && zeckendorf_indices(idx);
    lemma_sum_of_parts(p, ip);
    lemma_sum_of_parts(q, iq);
    lemma_zeckendorf_indices_unique(ip, iq);
    assert(p =~= q);
}

/// The parts of a Zeckendorf representation are terms of the standard
/// Fibonacci sequence, no two of them at neighbouring positions.
pub proof fn lemma_zeckendorf_parts_are_standard_terms(parts: Seq<u64>, n: nat)
    requires
        is_zeckendorf_of(parts, n),
    ensures
        exists|pos: Seq<nat>| #[trigger] standard_positions(parts, pos),
{
    let idx = choose|idx: Seq<nat>| #[trigger] parts_are_fibonacci(parts, idx) && zeckendorf_indices(idx);
    let pos = Seq::new(idx.len(), |j: int| (idx[j] - 1) as nat);
    assert forall|j: int| 0 <= j < parts.len() implies #[trigger] parts[j] == fib_term(1, 1, pos[j]) by {
        assert(idx[j] >= 2);
        lemma_standard_is_fibonacci(pos[j]);
    }
    assert forall|i: int, j: int| 0 <= i < j < pos.len() implies #[trigger] pos[i] >= #[trigger] pos[j] + 2 by {
        assert(idx[i] >= idx[j] + 2);
    }
    assert(standard_positions(parts, pos));
}

/// Zeckendorf representation: express `n` as a sum of non-consecutive
/// Fibonacci numbers, largest first (the greedy choice of the largest
/// Fibonacci number that still fits). For `n == 0` the result is empty.
pub fn zeckendorf(n: u64) -> (parts: Vec<u64>)
    ensures
        is_zeckendorf_of(parts@, n as nat),
{
    if n == 0 {
        let parts: Vec<u64> = Vec::new();
        proof {
            assert(parts_are_fibonacci(parts@, Seq::<nat>::empty()));
        }
        return parts;
    }
    // Fibonacci numbers 1, 2, 3, 5, ... up to n (position j holds F(j + 2)).
    let mut fibs: Vec<u64> = Vec::new();
    fibs.push(1);
    fibs.push(2);
    proof {
        reveal_with_fuel(fib, 4);
    }
    while fibs[fibs.len() - 1] <= n
        invariant
            1 <= n,
            fibs.len() >= 2,
            forall|j: int| 0 <= j < fibs.len() ==> #[trigger] fibs[j] == fib((j + 2) as nat),
            forall|j: int| 0 <= j < fibs.len() - 1 ==> #[trigger] fibs[j] <= n,
        ensures
            fibs.len() >= 2,
            forall|j: int| 0 <= j < fibs.len() ==> #[trigger] fibs[j] == fib((j + 2) as nat),
            forall|j: int| 0 <= j < fibs.len() - 1 ==> #[trigger] fibs[j] <= n,
            (n as nat) < fib((fibs.len() + 2) as nat),
        decreases n - fibs[fibs.len() - 1],
    {
        let len = fibs.len();
        let last = fibs[len - 1];
        let before = fibs[len - 2];
        proof {
            assert(fib((len + 2) as nat) == fib((len + 1) as nat) + fib(len as nat));
            lemma_fib_positive(len as nat);
        }
        // A sum that overflows is beyond n as well.
        let next: u64 = match last.checked_add(before) {
            Some(v) => v,
            None => {
                break;
            },
        };
        if next > n {
            break;
        }
        fibs.push(next);
    }
    // Greedy: pick the largest Fibonacci number that fits in the remainder.
    let mut remainder: u64 = n;
    let mut parts: Vec<u64> = Vec::new();
    let ghost mut idx: Seq<nat> = Seq::empty();
    let mut i: usize = fibs.len();
    proof {
        assert(parts_are_fibonacci(parts@, idx));
        reveal_with_fuel(fib, 3);
    }
    while i > 0
        invariant
            fib(2) == 1,
            i <= fibs.len(),
            forall|j: int| 0 <= j < fibs.len() ==> #[trigger] fibs[j] == fib((j + 2) as nat),
            (remainder as nat) < fib((i + 2) as nat),
            sum_of(parts@) + remainder == n,
            parts_are_fibonacci(parts@, idx),
            zeckendorf_indices(idx),
            idx.len() > 0 ==> idx.last() >= i + 2,
            idx.len() > 0 ==> (remainder as nat) < fib((idx.last() - 1) as nat),
        ensures
            remainder == 0,
            sum_of(parts@) + remainder == n,
            parts_are_fibonacci(parts@, idx),
            zeckendorf_indices(idx),
        decreases i,
    {
        i = i - 1;
        let f = fibs[i];
        proof {
            assert(fib((i + 3) as nat) == fib((i + 2) as nat) + fib((i + 1) as nat));
            lemma_fib_step((i + 1) as nat);
        }
        if f <= remainder {
            proof {
                if idx.len() > 0 {
                    if idx.last() < i + 4 {
                        lemma_fib_monotone((idx.last() - 1) as nat, (i + 2) as nat);
                    }
                }
                let new_idx = idx.push((i + 2) as nat);
                assert forall|a: int, b: int| 0 <= a < b < new_idx.len() implies
                    #[trigger] new_idx[a] >= #[trigger] new_idx[b] + 2 by {
                    if b == new_idx.len() - 1 {
                        if a < idx.len() - 1 {
                            assert(idx[a] >= idx[idx.len() - 1] + 2);
                        }
                    } else {
                        assert(new_idx[a] == idx[a] && new_idx[b] == idx[b]);
                    }
                }
                lemma_sum_of_push(parts@, f);
                idx = new_idx;
            }
            parts.push(f);
            remainder = remainder - f;
            proof {
                assert(parts_are_fibonacci(parts@, idx));
            }
        }
        if remainder == 0 {
            break;
        }
    }
    proof {
        assert(parts_are_fibonacci(parts@, idx) && zeckendorf_indices(idx));
    }
    parts
}

} // verus!
