use fibonacci_growth::{bin_histogram, block_ranges, box_count, boundary_cells, coarsening_block_sizes, Cell};

fn grid(rows: &[&[u32]]) -> Vec<Vec<u32>> {
    rows.iter().map(|r| r.to_vec()).collect()
}

#[test]
fn boundary_cells_of_a_disc() {
    // 5x5 grid: the centre 3x3 stays bounded (escape count 10 = max_iter)
    let g = grid(&[
        &[0, 0, 0, 0, 0],
        &[0, 10, 10, 10, 0],
        &[0, 10, 10, 10, 0],
        &[0, 10, 10, 10, 0],
        &[0, 0, 0, 0, 0],
    ]);
    let cells = boundary_cells(&g, 10);
    assert_eq!(cells, vec![(1, 1), (1, 2), (1, 3), (2, 1), (2, 3), (3, 1), (3, 2), (3, 3)]);
}

#[test]
fn boundary_cells_uniform_and_tiny_grids() {
    let g = grid(&[&[5, 5, 5], &[5, 5, 5], &[5, 5, 5]]);
    assert_eq!(boundary_cells(&g, 3), Vec::<Cell>::new());
    let g = grid(&[&[0, 0, 0], &[0, 9, 0], &[0, 0, 0]]);
    assert_eq!(boundary_cells(&g, 9), vec![(1, 1)]);
    // a point escaping one step later than max_iter still counts as bounded
    let g = grid(&[&[0, 0, 0], &[0, 11, 0], &[0, 0, 0]]);
    assert_eq!(boundary_cells(&g, 9), vec![(1, 1)]);
    assert_eq!(boundary_cells(&Vec::new(), 9), Vec::<Cell>::new());
    assert_eq!(boundary_cells(&grid(&[&[1, 2], &[3, 4]]), 2), Vec::<Cell>::new());
}

#[test]
fn box_count_at_several_scales() {
    let cells: Vec<Cell> = vec![(1, 1), (1, 2), (1, 3), (2, 1), (2, 3), (3, 1), (3, 2), (3, 3)];
    assert_eq!(box_count(&cells, 1), 8);
    // boxes (0,0) (0,1) (1,0) (1,1)
    assert_eq!(box_count(&cells, 2), 4);
    assert_eq!(box_count(&cells, 4), 1);
    assert_eq!(box_count(&[], 8), 0);
    assert_eq!(box_count(&[(5, 5), (5, 5), (4, 4)], 1), 2);
}

#[test]
fn coarsening_block_sizes_follow_fibonacci() {
    assert_eq!(coarsening_block_sizes(4, 2), vec![2, 3]);
    assert_eq!(coarsening_block_sizes(100, 3), vec![2, 3, 5]);
    assert_eq!(coarsening_block_sizes(6, 10), vec![2, 3, 5]);
    assert_eq!(coarsening_block_sizes(5, 10), vec![2, 3]);
    assert_eq!(coarsening_block_sizes(2, 10), Vec::<u64>::new());
    assert_eq!(coarsening_block_sizes(1000, 0), Vec::<u64>::new());
    assert_eq!(coarsening_block_sizes(usize::MAX, 200).len(), 91);
}

#[test]
fn block_ranges_cover_the_nodes() {
    assert_eq!(block_ranges(10, 3), vec![(0, 3), (3, 6), (6, 9), (9, 10)]);
    assert_eq!(block_ranges(9, 3), vec![(0, 3), (3, 6), (6, 9)]);
    assert_eq!(block_ranges(0, 3), Vec::<(usize, usize)>::new());
    assert_eq!(block_ranges(4, 8), vec![(0, 4)]);
    for n in 0..40usize {
        for size in 1..12usize {
            let ranges = block_ranges(n, size);
            assert_eq!(ranges.len(), (n + size - 1) / size);
            let mut next = 0;
            for &(s, e) in &ranges {
                assert_eq!(s, next);
                assert!(s < e && e - s <= size);
                next = e;
            }
            assert_eq!(next, n);
        }
    }
}

#[test]
fn bin_histogram_counts_each_bin() {
    assert_eq!(bin_histogram(&[0, 2, 2, 1, 2], 4), vec![1, 1, 3, 0]);
    assert_eq!(bin_histogram(&[], 3), vec![0, 0, 0]);
    assert_eq!(bin_histogram(&[], 0), Vec::<usize>::new());
}
