use vstd::prelude::*;

use crate::fib::{fib, lemma_fib_step};

verus! {

/// The Fibonacci substitution on one edge: A (1) becomes A B (1, 2), and any
/// other edge becomes A (1).
pub open spec fn substitute(edge: u8) -> Seq<u8> {
    if edge == 1 {
        seq![1u8, 2u8]
    } else {
        seq![1u8]
    }
}

/// One inflation step: every edge is replaced by its substitution, in order.
pub open spec fn inflate_once(edges: Seq<u8>) -> Seq<u8>
    decreases edges.len(),
{
    if edges.len() == 0 {
        Seq::empty()
    } else {
        inflate_once(edges.drop_last()) + substitute(edges.last())
    }
}

/// `steps` inflation steps.
pub open spec fn inflate(edges: Seq<u8>, steps: nat) -> Seq<u8>
    decreases steps,
{
    if steps == 0 {
        edges
    } else {
        inflate_once(inflate(edges, (steps - 1) as nat))
    }
}

/// How many times `v` occurs in `s`.
pub open spec fn count_of(s: Seq<u8>, v: u8) -> nat
    decreases s.len(),
{
    if s.len() == 0 {
        0
    } else {
        count_of(s.drop_last(), v) + (if s.last() == v { 1nat } else { 0nat })
    }
}

/// One inflation step of `current`.
fn inflate_step(current: &Vec<u8>) -> (next: Vec<u8>)
    ensures
        next@ == inflate_once(current@),
{
    let mut next: Vec<u8> = Vec::new();
    let mut j: usize = 0;
    while j < current.len()
        invariant
            j <= current.len(),
            next@ == inflate_once(current@.take(j as int)),
        decreases current.len() - j,
    {
        proof {
            assert(current@.take(j + 1).drop_last() =~= current@.take(j as int));
        }
        let edge = current[j];
        if edge == 1 {
            next.push(1);
            next.push(2);
        } else {
            next.push(1);
        }
        j = j + 1;
        proof {
            assert(next@ =~= inflate_once(current@.take(j as int)));
        }
    }
    proof {
        assert(current@.take(current.len() as int) =~= current@);
    }
    next
}

/// Penrose inflation: given an initial patch of edges (A = 1, B = 2), apply
/// the Fibonacci substitution A -> AB, B -> A `steps` times. An edge of any
/// other value is treated as B.
pub fn penrose_inflate(edges: &[u8], steps: usize) -> (inflated: Vec<u8>)
    ensures
        inflated@ == inflate(edges@, steps as nat),
{
    let mut current: Vec<u8> = vstd::slice::slice_to_vec(edges);
    let mut k: usize = 0;
    while k < steps
        invariant
            k <= steps,
            current@ == inflate(edges@, k as nat),
        decreases steps - k,
    {
        current = inflate_step(&current);
        k = k + 1;
    }
    current
}

/// Counts of A edges (1) and B edges (2) in a sequence of edges.
pub fn edge_counts(edges: &[u8]) -> (counts: (usize, usize))
    ensures
        counts.0 == count_of(edges@, 1),
        counts.1 == count_of(edges@, 2),
{
    let mut a: usize = 0;
    let mut b: usize = 0;
    let mut j: usize = 0;
    while j < edges.len()
        invariant
            j <= edges.len(),
            a == count_of(edges@.take(j as int), 1),
            b == count_of(edges@.take(j as int), 2),
            a + b <= j,
        decreases edges.len() - j,
    {
        proof {
            assert(edges@.take(j + 1).drop_last() =~= edges@.take(j as int));
        }
        if edges[j] == 1 {
            a = a + 1;
        } else if edges[j] == 2 {
            b = b + 1;
        }
        j = j + 1;
    }
    proof {
        assert(edges@.take(edges.len() as int) =~= edges@);
    }
    (a, b)
}

/// `count_of(s, v)` is the number of elements of `s` equal to `v`: the length
/// of `s` filtered down to `v`.
pub proof fn lemma_count_of_is_filter_length(s: Seq<u8>, v: u8)
    ensures
        count_of(s, v) == s.filter(|x: u8| x == v).len(),
    decreases s.len(),
{
    let p = |x: u8| x == v;
    if s.len() == 0 {
        reveal(Seq::filter);
        assert(s.filter(p).len() == 0);
    } else {
        lemma_count_of_is_filter_length(s.drop_last(), v);
        assert(s.drop_last().push(s.last()) =~= s);
        s.drop_last().lemma_filter_len_push(p, s.last());
    }
}

/// After one step or more a non-empty chain starts with an A edge, and every
/// B edge comes right after an A edge.
pub proof fn lemma_inflated_chain_shape(edges: Seq<u8>, steps: nat)
    requires
        steps >= 1,
    ensures
        inflate(edges, steps).len() > 0 ==> inflate(edges, steps)[0] == 1,
        forall|i: int|
            0 <= i < inflate(edges, steps).len() && #[trigger] inflate(edges, steps)[i] == 2 ==> i > 0
                && inflate(edges, steps)[i - 1] == 1,
{
    lemma_inflate_once_shape(inflate(edges, (steps - 1) as nat));
}

proof fn lemma_inflate_once_shape(edges: Seq<u8>)
    ensures
        inflate_once(edges).len() > 0 ==> inflate_once(edges)[0] == 1,
        forall|i: int|
            0 <= i < inflate_once(edges).len() && #[trigger] inflate_once(edges)[i] == 2 ==> i > 0
                && inflate_once(edges)[i - 1] == 1,
    decreases edges.len(),
{
    if edges.len() > 0 {
        let init = inflate_once(edges.drop_last());
        let sub = substitute(edges.last());
        let all = inflate_once(edges);
        lemma_inflate_once_shape(edges.drop_last());
        assert(all == init + sub);
        assert forall|i: int| 0 <= i < all.len() && #[trigger] all[i] == 2 implies i > 0 && all[i - 1] == 1 by {
            if i < init.len() {
                assert(all[i] == init[i]);
                assert(all[i - 1] == init[i - 1]);
            } else {
                assert(all[i] == sub[i - init.len()]);
                assert(i - init.len() == 1);
                assert(all[i - 1] == sub[0]);
            }
        }
        if init.len() > 0 {
            assert(all[0] == init[0]);
        } else {
            assert(all[0] == sub[0]);
        }
    }
}

/// Counting distributes over concatenation.
pub proof fn lemma_count_of_concat(x: Seq<u8>, y: Seq<u8>, v: u8)
    ensures
        count_of(x + y, v) == count_of(x, v) + count_of(y, v),
    decreases y.len(),
{
    if y.len() == 0 {
        assert(x + y =~= x);
    } else {
        assert((x + y).drop_last() =~= x + y.drop_last());
        lemma_count_of_concat(x, y.drop_last(), v);
    }
}

/// One inflation step of a concatenation is the concatenation of the steps:
/// each edge is substituted on its own.
pub proof fn lemma_inflate_once_concat(x: Seq<u8>, y: Seq<u8>)
    ensures
        inflate_once(x + y) == inflate_once(x) + inflate_once(y),
    decreases y.len(),
{
    if y.len() == 0 {
        assert(x + y =~= x);
        assert(inflate_once(x) + inflate_once(y) =~= inflate_once(x));
    } else {
        assert((x + y).drop_last() =~= x + y.drop_last());
        lemma_inflate_once_concat(x, y.drop_last());
        assert(inflate_once(x + y) =~= inflate_once(x) + inflate_once(y));
    }
}

/// Inflating a concatenation gives the concatenation of the inflations, for
/// any number of steps.
pub proof fn lemma_inflate_concat(x: Seq<u8>, y: Seq<u8>, steps: nat)
    ensures
        inflate(x + y, steps) == inflate(x, steps) + inflate(y, steps),
    decreases steps,
{
    if steps > 0 {
        lemma_inflate_concat(x, y, (steps - 1) as nat);
        lemma_inflate_once_concat(inflate(x, (steps - 1) as nat), inflate(y, (steps - 1) as nat));
    }
}

/// Inflating `a` steps and then `b` more is inflating `a + b` steps.
pub proof fn lemma_inflate_compose(edges: Seq<u8>, a: nat, b: nat)
    ensures
        inflate(inflate(edges, a), b) == inflate(edges, a + b),
    decreases b,
{
    if b > 0 {
        lemma_inflate_compose(edges, a, (b - 1) as nat);
        assert(inflate(edges, a + b) == inflate_once(inflate(edges, (a + b - 1) as nat)));
    }
}

/// Counts of A and B edges in a one- or two-edge sequence.
proof fn lemma_count_of_short(s: Seq<u8>)
    requires
        1 <= s.len() <= 2,
    ensures
        count_of(s, 1) == (if s[0] == 1 { 1nat } else { 0nat }) + (if s.len() == 2 && s[1] == 1 { 1nat } else { 0nat }),
        count_of(s, 2) == (if s[0] == 2 { 1nat } else { 0nat }) + (if s.len() == 2 && s[1] == 2 { 1nat } else { 0nat }),
{
    let e = Seq::<u8>::empty();
    assert(count_of(e, 1) == 0 && count_of(e, 2) == 0);
    let first = s.take(1);
    assert(first.drop_last() =~= e);
    assert(count_of(first, 1) == count_of(e, 1) + (if first.last() == 1 { 1nat } else { 0nat }));
    assert(count_of(first, 2) == count_of(e, 2) + (if first.last() == 2 { 1nat } else { 0nat }));
    if s.len() == 2 {
        assert(s.drop_last() =~= first);
    } else {
        assert(s =~= first);
    }
}

/// One step turns every edge into exactly one A, and every A into one B:
/// the new A count is the old length, the new B count the old A count.
pub proof fn lemma_inflate_once_counts(edges: Seq<u8>)
    ensures
        count_of(inflate_once(edges), 1) == edges.len(),
        count_of(inflate_once(edges), 2) == count_of(edges, 1),
        inflate_once(edges).len() == edges.len() + count_of(edges, 1),
    decreases edges.len(),
{
    if edges.len() > 0 {
        let init = edges.drop_last();
        let sub = substitute(edges.last());
        lemma_inflate_once_counts(init);
        lemma_count_of_concat(inflate_once(init), sub, 1);
        lemma_count_of_concat(inflate_once(init), sub, 2);
        lemma_count_of_short(sub);
        assert(inflate_once(edges) == inflate_once(init) + sub);
        assert(count_of(edges, 1) == count_of(init, 1) + (if edges.last() == 1 { 1nat } else { 0nat }));
    } else {
        let e = Seq::<u8>::empty();
        assert(inflate_once(edges) =~= e);
        assert(count_of(e, 1) == 0 && count_of(e, 2) == 0);
    }
}

/// After one step or more, every edge is an A (1) or a B (2).
pub proof fn lemma_inflated_edges_are_a_or_b(edges: Seq<u8>, steps: nat)
    requires
        steps >= 1,
    ensures
        forall|i: int| 0 <= i < inflate(edges, steps).len() ==> {
            let e = #[trigger] inflate(edges, steps)[i];
            e == 1 || e == 2
        },
{
    lemma_inflate_once_edges(inflate(edges, (steps - 1) as nat));
}

proof fn lemma_inflate_once_edges(edges: Seq<u8>)
    ensures
        forall|i: int| 0 <= i < inflate_once(edges).len() ==> {
            let e = #[trigger] inflate_once(edges)[i];
            e == 1 || e == 2
        },
    decreases edges.len(),
{
    if edges.len() > 0 {
        lemma_inflate_once_edges(edges.drop_last());
        let init = inflate_once(edges.drop_last());
        let sub = substitute(edges.last());
        assert forall|i: int| 0 <= i < inflate_once(edges).len() implies {
            let e = #[trigger] inflate_once(edges)[i];
            e == 1 || e == 2
        } by {
            if i < init.len() {
                assert(inflate_once(edges)[i] == init[i]);
            } else {
                assert(inflate_once(edges)[i] == sub[i - init.len()]);
            }
        }
    }
}

/// Starting from a single A edge, after `k` steps the chain has F(k + 2)
/// edges: F(k + 1) of them A and F(k) of them B, so the ratio of A to B
/// edges is the ratio of consecutive Fibonacci numbers.
pub proof fn lemma_single_edge_inflation(k: nat)
    ensures
        inflate(seq![1u8], k).len() == fib(k + 2),
        count_of(inflate(seq![1u8], k), 1) == fib(k + 1),
        count_of(inflate(seq![1u8], k), 2) == fib(k),
    decreases k,
{
    let start = seq![1u8];
    if k == 0 {
        reveal_with_fuel(fib, 3);
        lemma_count_of_short(start);
    } else {
        lemma_single_edge_inflation((k - 1) as nat);
        lemma_inflate_once_counts(inflate(start, (k - 1) as nat));
        assert(fib(k + 1) == fib(k) + fib((k - 1) as nat));
        assert(fib(k + 2) == fib(k + 1) + fib(k));
    }
}

} // verus!
