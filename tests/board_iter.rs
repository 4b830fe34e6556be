use minesweeper_backend::board_iter::board_iter;

fn collect(x: usize, y: usize, height: usize, width: usize) -> Vec<(usize, usize)> {
    let mut it = board_iter(x, y, height, width);
    let mut out = Vec::new();
    while let Some(p) = it.next() {
        out.push(p);
    }
    out
}

#[test]
fn test_board_iter() {
    let mut b = board_iter(1, 1, 3, 3);
    let expected: Vec<(usize, usize)> = vec![
        (0, 0),
        (0, 1),
        (0, 2),
        (1, 0),
        (1, 2),
        (2, 0),
        (2, 1),
        (2, 2),
    ];
    let mut i = 0;
    while let Some(pair) = b.next() {
        assert_eq!(expected[i], pair);
        i += 1;
    }
    assert_eq!(i, expected.len());
}

#[test]
fn corner_skips_the_center() {
    assert_eq!(collect(0, 0, 3, 3), vec![(0, 1), (1, 0), (1, 1)]);
}

#[test]
fn left_edge_skips_the_center() {
    assert_eq!(collect(1, 0, 3, 3), vec![(0, 0), (0, 1), (1, 1), (2, 0), (2, 1)]);
}

#[test]
fn far_corner_is_clipped() {
    assert_eq!(collect(2, 2, 3, 3), vec![(1, 1), (1, 2), (2, 1)]);
}

#[test]
fn single_cell_has_no_neighbors() {
    assert_eq!(collect(0, 0, 1, 1), Vec::<(usize, usize)>::new());
}

#[test]
fn single_row_board() {
    assert_eq!(collect(0, 2, 1, 5), vec![(0, 1), (0, 3)]);
}

#[test]
fn neighbors_are_adjacent_in_bounds_and_distinct() {
    for height in 1..5 {
        for width in 1..5 {
            for x in 0..height {
                for y in 0..width {
                    let got = collect(x, y, height, width);
                    let mut expected = Vec::new();
                    for i in 0..height {
                        for j in 0..width {
                            let di = (i as i64 - x as i64).abs();
                            let dj = (j as i64 - y as i64).abs();
                            if di.max(dj) == 1 {
                                expected.push((i, j));
                            }
                        }
                    }
                    assert_eq!(got, expected);
                }
            }
        }
    }
}
