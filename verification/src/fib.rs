use vstd::prelude::*;

verus! {

/// The classical Fibonacci numbers: F(0) = 0, F(1) = 1, F(k) = F(k-1) + F(k-2).
pub open spec fn fib(k: nat) -> nat
    decreases k,
{
    if k == 0 {
        0
    } else if k == 1 {
        1
    } else {
        fib((k - 1) as nat) + fib((k - 2) as nat)
    }
}

/// Addition that sticks at `u64::MAX` instead of overflowing.
pub open spec fn saturating_sum(x: nat, y: nat) -> nat {
    if x + y > u64::MAX {
        u64::MAX as nat
    } else {
        x + y
    }
}

/// Term `i` of the generalised Fibonacci sequence that starts with `a`, `b`,
/// where each later term is the saturating sum of the two before it.
pub open spec fn fib_term(a: nat, b: nat, i: nat) -> nat
    decreases i,
{
    if i == 0 {
        a
    } else if i == 1 {
        b
    } else {
        saturating_sum(fib_term(a, b, (i - 1) as nat), fib_term(a, b, (i - 2) as nat))
    }
}

/// Fibonacci sequence generator with arbitrary starting values.
///
/// Term `i` of the result is `fib_term(a, b, i)`: the first two are `a` and `b`
/// (as far as `n` reaches), every later one the sum of the two before it,
/// and a sum that does not fit in a `u64` becomes `u64::MAX`.
pub fn fibonacci_sequence(a: u64, b: u64, n: usize) -> (seq: Vec<u64>)
    ensures
        seq.len() == n,
        forall|i: int| 0 <= i < n ==> #[trigger] seq[i] == fib_term(a as nat, b as nat, i as nat),
        n >= 1 ==> seq[0] == a,
        n >= 2 ==> seq[1] == b,
        forall|i: int|
            2 <= i < n ==> #[trigger] seq[i] == (if seq[i - 1] + seq[i - 2] > u64::MAX {
                u64::MAX as int
            } else {
                seq[i - 1] + seq[i - 2]
            }),
{
    if n == 0 {
        return Vec::new();
    }
    if n == 1 {
        let mut one: Vec<u64> = Vec::new();
        one.push(a);
        return one;
    }
    let mut seq: Vec<u64> = Vec::new();
    seq.push(a);
    seq.push(b);
    let mut i: usize = 2;
    while i < n
        invariant
            2 <= i <= n,
            seq.len() == i,
            forall|j: int| 0 <= j < i ==> #[trigger] seq[j] == fib_term(a as nat, b as nat, j as nat),
            forall|j: int|
                2 <= j < i ==> #[trigger] seq[j] == (if seq[j - 1] + seq[j - 2] > u64::MAX {
                    u64::MAX as int
                } else {
                    seq[j - 1] + seq[j - 2]
                }),
        decreases n - i,
    {
        let next: u64 = match seq[i - 1].checked_add(seq[i - 2]) {
            Some(v) => v,
            None => u64::MAX,
        };
        assert(next == fib_term(a as nat, b as nat, i as nat));
        seq.push(next);
        i = i + 1;
    }
    seq
}

/// Standard Fibonacci starting from (1, 1).
pub fn standard_fibonacci(n: usize) -> (seq: Vec<u64>)
    ensures
        seq.len() == n,
        forall|i: int| 0 <= i < n ==> #[trigger] seq[i] == fib_term(1, 1, i as nat),
        n >= 1 ==> seq[0] == 1,
        n >= 2 ==> seq[1] == 1,
        forall|i: int|
            2 <= i < n ==> #[trigger] seq[i] == (if seq[i - 1] + seq[i - 2] > u64::MAX {
                u64::MAX as int
            } else {
                seq[i - 1] + seq[i - 2]
            }),
{
    fibonacci_sequence(1, 1, n)
}

/// The generalised sequence starts with its seeds, and every later term is the
/// sum of the two before it, or `u64::MAX` where that sum does not fit.
pub proof fn lemma_fib_term_seeds_and_recurrence(a: nat, b: nat, i: nat)
    ensures
        fib_term(a, b, 0) == a,
        fib_term(a, b, 1) == b,
        fib_term(a, b, i + 2) == (if fib_term(a, b, i + 1) + fib_term(a, b, i) > u64::MAX {
            u64::MAX as nat
        } else {
            fib_term(a, b, i + 1) + fib_term(a, b, i)
        }),
{
}

/// Every term of a generalised Fibonacci sequence of `u64` seeds fits in a `u64`.
pub proof fn lemma_fib_term_bounded(a: nat, b: nat, i: nat)
    requires
        a <= u64::MAX,
        b <= u64::MAX,
    ensures
        fib_term(a, b, i) <= u64::MAX,
{
}

/// Fibonacci growth never shrinks: from the second term on, the sequence is
/// non-decreasing (and once it reaches `u64::MAX` it stays there).
pub proof fn lemma_fib_term_nondecreasing(a: nat, b: nat, i: nat, j: nat)
    requires
        a <= u64::MAX,
        b <= u64::MAX,
        1 <= i <= j,
    ensures
        fib_term(a, b, i) <= fib_term(a, b, j),
    decreases j - i,
{
    if i < j {
        lemma_fib_term_nondecreasing(a, b, i, (j - 1) as nat);
        lemma_fib_term_bounded(a, b, (j - 1) as nat);
    }
}

/// Dropping the first term of a sequence gives the sequence seeded with the
/// next two terms: term `i` from seeds `b`, `a ⊕ b` is term `i + 1` from seeds
/// `a`, `b` (⊕ the saturating sum).
pub proof fn lemma_fib_term_shift(a: nat, b: nat, i: nat)
    ensures
        fib_term(b, saturating_sum(a, b), i) == fib_term(a, b, i + 1),
    decreases i,
{
    if i == 1 {
        assert(fib_term(a, b, 0) == a && fib_term(a, b, 1) == b);
        assert(fib_term(a, b, 2) == saturating_sum(b, a));
    } else if i >= 2 {
        lemma_fib_term_shift(a, b, (i - 1) as nat);
        lemma_fib_term_shift(a, b, (i - 2) as nat);
    }
}

/// F(k) <= F(k + 1).
pub proof fn lemma_fib_step(k: nat)
    ensures
        fib(k) <= fib(k + 1),
{
}

/// The classical Fibonacci numbers are non-decreasing.
pub proof fn lemma_fib_monotone(i: nat, j: nat)
    requires
        i <= j,
    ensures
        fib(i) <= fib(j),
    decreases j - i,
{
    if i < j {
        lemma_fib_monotone(i, (j - 1) as nat);
        lemma_fib_step((j - 1) as nat);
    }
}

/// F(k) >= 1 for k >= 1, and F is strictly increasing from index 2 on.
pub proof fn lemma_fib_positive(k: nat)
    requires
        k >= 1,
    ensures
        fib(k) >= 1,
        k >= 2 ==> fib(k) < fib(k + 1),
{
    lemma_fib_monotone(1, k);
    if k >= 2 {
        lemma_fib_monotone(1, (k - 1) as nat);
    }
}

/// The standard sequence is the Fibonacci sequence, saturated at `u64::MAX`:
/// term `i` of `standard_fibonacci` is F(i + 1), or `u64::MAX` when F(i + 1)
/// does not fit.
pub proof fn lemma_standard_is_fibonacci(i: nat)
    ensures
        fib_term(1, 1, i) == (if fib(i + 1) > u64::MAX { u64::MAX as nat } else { fib(i + 1) }),
    decreases i,
{
    if i == 1 {
        assert(fib(2) == fib(1) + fib(0));
    } else if i >= 2 {
        lemma_standard_is_fibonacci((i - 1) as nat);
        lemma_standard_is_fibonacci((i - 2) as nat);
        lemma_fib_step((i - 1) as nat);
        assert(fib(i + 1) == fib(i) + fib((i - 1) as nat));
    }
}

} // verus!
