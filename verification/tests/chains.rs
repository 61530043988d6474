use fibonacci_growth::{edge_counts, penrose_inflate};

#[test]
fn penrose_inflate_ratio() {
    // Start with a single A edge, inflate many times
    let inflated = penrose_inflate(&[1], 15);
    let (a, b) = edge_counts(&inflated);
    let ratio = a as f64 / b as f64;
    let phi = (1.0 + 5.0_f64.sqrt()) / 2.0;
    assert!((ratio - phi).abs() < 0.01, "Penrose ratio {} vs φ={}", ratio, phi);
}

#[test]
fn penrose_chain_steps() {
    // L = 1, S = 2
    assert_eq!(penrose_inflate(&[1], 0), vec![1]);
    assert_eq!(penrose_inflate(&[1], 1), vec![1, 2]);
    assert_eq!(penrose_inflate(&[1], 2), vec![1, 2, 1]);
    assert_eq!(penrose_inflate(&[1], 3), vec![1, 2, 1, 1, 2]);
    assert_eq!(penrose_inflate(&[1], 4), vec![1, 2, 1, 1, 2, 1, 2, 1]);
    assert_eq!(penrose_inflate(&[1], 5), vec![1, 2, 1, 1, 2, 1, 2, 1, 1, 2, 1, 1, 2]);
}

#[test]
fn penrose_chain_length_is_fibonacci() {
    let (mut f0, mut f1): (usize, usize) = (0, 1);
    for k in 0..25 {
        // f0 = F(k), f1 = F(k + 1)
        let chain = penrose_inflate(&[1], k);
        assert_eq!(chain.len(), f0 + f1);
        assert_eq!(edge_counts(&chain), (f1, f0));
        let next = f0 + f1;
        f0 = f1;
        f1 = next;
    }
}

#[test]
fn penrose_other_edges_become_a() {
    assert_eq!(penrose_inflate(&[0, 2, 3, 255], 1), vec![1, 1, 1, 1]);
    assert_eq!(penrose_inflate(&[], 7), Vec::<u8>::new());
    assert_eq!(penrose_inflate(&[2, 7], 0), vec![2, 7]);
}

#[test]
fn penrose_steps_compose() {
    let edges: Vec<u8> = vec![1, 2, 2, 1, 5];
    for a in 0..6 {
        for b in 0..6 {
            let twice = penrose_inflate(&penrose_inflate(&edges, a), b);
            assert_eq!(twice, penrose_inflate(&edges, a + b));
        }
    }
}

#[test]
fn penrose_inflation_of_concatenation() {
    let x: Vec<u8> = vec![1, 2, 1];
    let y: Vec<u8> = vec![2, 2, 1, 9];
    let xy: Vec<u8> = x.iter().chain(y.iter()).copied().collect();
    for k in 0..8 {
        let mut joined = penrose_inflate(&x, k);
        joined.extend(penrose_inflate(&y, k));
        assert_eq!(penrose_inflate(&xy, k), joined);
    }
}

#[test]
fn edge_counts_counts_a_and_b() {
    assert_eq!(edge_counts(&[]), (0, 0));
    assert_eq!(edge_counts(&[1, 2, 1, 3, 0, 2, 2]), (2, 3));
    let inflated = penrose_inflate(&[7, 1], 3);
    let (a, b) = edge_counts(&inflated);
    assert_eq!(a + b, inflated.len());
}
