use fibonacci_growth::{fibonacci_sequence, standard_fibonacci, zeckendorf};

#[test]
fn fibonacci_sequence_standard() {
    let fib = standard_fibonacci(10);
    assert_eq!(fib, vec![1, 1, 2, 3, 5, 8, 13, 21, 34, 55]);
}

#[test]
fn fibonacci_custom_start() {
    let seq = fibonacci_sequence(2, 5, 6);
    assert_eq!(seq, vec![2, 5, 7, 12, 19, 31]);
}

#[test]
fn golden_ratio_converges() {
    // F(n+1)/F(n) for n = 20, from the standard sequence
    let n = 20;
    let seq = standard_fibonacci(n + 1);
    let ratio = seq[n] as f64 / seq[n - 1] as f64;
    let phi = (1.0 + 5.0_f64.sqrt()) / 2.0;
    assert!((ratio - phi).abs() < 0.001, "Got {}, expected ~{}", ratio, phi);
}

#[test]
fn zeckendorf_representation() {
    let rep = zeckendorf(100);
    // 100 = 89 + 8 + 3
    assert_eq!(rep, vec![89, 8, 3]);
    // Verify no consecutive Fibonacci numbers
    for w in rep.windows(2) {
        let fibs = standard_fibonacci(30);
        let idx_a = fibs.iter().position(|&f| f == w[0]).unwrap();
        let idx_b = fibs.iter().position(|&f| f == w[1]).unwrap();
        assert!((idx_a as i64 - idx_b as i64).abs() > 1,
            "Zeckendorf violated: {} and {} are consecutive Fibonacci", w[0], w[1]);
    }
}

#[test]
fn fibonacci_sequence_short_lengths() {
    assert_eq!(fibonacci_sequence(7, 9, 0), Vec::<u64>::new());
    assert_eq!(fibonacci_sequence(7, 9, 1), vec![7]);
    assert_eq!(fibonacci_sequence(7, 9, 2), vec![7, 9]);
    assert_eq!(standard_fibonacci(0), Vec::<u64>::new());
}

#[test]
fn fibonacci_sequence_saturates() {
    let seq = fibonacci_sequence(u64::MAX, 1, 5);
    assert_eq!(seq, vec![u64::MAX, 1, u64::MAX, u64::MAX, u64::MAX]);
    let seq = fibonacci_sequence(u64::MAX - 1, 0, 4);
    assert_eq!(seq, vec![u64::MAX - 1, 0, u64::MAX - 1, u64::MAX - 1]);
}

#[test]
fn standard_fibonacci_is_fibonacci_saturated() {
    let seq = standard_fibonacci(100);
    // term i is F(i + 1) while it fits
    let (mut a, mut b): (u128, u128) = (0, 1);
    for i in 0..100 {
        let expected = if b > u64::MAX as u128 { u64::MAX } else { b as u64 };
        assert_eq!(seq[i], expected, "term {}", i);
        let next = a + b;
        a = b;
        b = next;
    }
    assert_eq!(seq[92], 12200160415121876738);
    assert_eq!(seq[93], u64::MAX);
}

#[test]
fn fibonacci_sequence_never_shrinks_after_first_term() {
    let seq = fibonacci_sequence(1000, 3, 120);
    for i in 2..seq.len() {
        assert!(seq[i] >= seq[i - 1]);
    }
    assert_eq!(seq[119], u64::MAX);
}

#[test]
fn fibonacci_sequence_prefixes_agree() {
    let long = fibonacci_sequence(4, 6, 40);
    for n in 0..40 {
        assert_eq!(fibonacci_sequence(4, 6, n)[..], long[..n]);
    }
}

fn is_zeckendorf(parts: &[u64], n: u64) -> bool {
    // Fibonacci numbers 1, 2, 3, 5, ... with their indices
    let mut fibs: Vec<u128> = vec![1, 2];
    while *fibs.last().unwrap() <= u64::MAX as u128 {
        let l = fibs.len();
        fibs.push(fibs[l - 1] + fibs[l - 2]);
    }
    let mut sum: u128 = 0;
    let mut prev: Option<usize> = None;
    for &p in parts {
        let pos = match fibs.iter().position(|&f| f == p as u128) {
            Some(pos) => pos,
            None => return false,
        };
        if let Some(q) = prev {
            if q < pos + 2 {
                return false;
            }
        }
        prev = Some(pos);
        sum += p as u128;
    }
    sum == n as u128
}

#[test]
fn zeckendorf_small_values() {
    assert_eq!(zeckendorf(0), Vec::<u64>::new());
    assert_eq!(zeckendorf(1), vec![1]);
    assert_eq!(zeckendorf(2), vec![2]);
    assert_eq!(zeckendorf(3), vec![3]);
    assert_eq!(zeckendorf(4), vec![3, 1]);
    assert_eq!(zeckendorf(12), vec![8, 3, 1]);
    assert_eq!(zeckendorf(89), vec![89]);
}

#[test]
fn zeckendorf_valid_for_many_values() {
    for n in 0..2000u64 {
        let rep = zeckendorf(n);
        assert!(is_zeckendorf(&rep, n), "n = {}: {:?}", n, rep);
    }
}

#[test]
fn zeckendorf_large_values() {
    for &n in &[u64::MAX, u64::MAX - 1, u64::MAX / 2, 12200160415121876738, 12200160415121876737, 1 << 63] {
        let rep = zeckendorf(n);
        assert!(is_zeckendorf(&rep, n), "n = {}: {:?}", n, rep);
    }
    assert_eq!(zeckendorf(12200160415121876738), vec![12200160415121876738]);
}

#[test]
fn zeckendorf_unique_against_exhaustive_search() {
    // every subset of {1, 2, 3, 5, 8, 13, 21, 34} without neighbours is the
    // representation of its own sum, and of nothing else
    let fibs: [u64; 8] = [1, 2, 3, 5, 8, 13, 21, 34];
    for mask in 0u32..256 {
        if mask & (mask >> 1) != 0 {
            continue;
        }
        let mut parts: Vec<u64> = Vec::new();
        for k in (0..8).rev() {
            if mask & (1 << k) != 0 {
                parts.push(fibs[k]);
            }
        }
        let sum: u64 = parts.iter().sum();
        assert_eq!(zeckendorf(sum), parts);
    }
}

#[test]
fn fibonacci_sequence_tail_is_shifted_sequence() {
    for &(a, b) in &[(2u64, 5u64), (0, 0), (u64::MAX, 3), (7, u64::MAX - 1)] {
        let seq = fibonacci_sequence(a, b, 50);
        assert_eq!(seq[1..], fibonacci_sequence(b, a.saturating_add(b), 49)[..]);
    }
}
