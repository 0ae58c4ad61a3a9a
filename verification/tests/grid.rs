use kyopro::grid::{d4, rot_clock, rot_rev_clock, Direction, Grid, P};

#[test]
fn test_position_from() {
    let g = Grid::new(3, 3, 0);
    for d in d4() {
        assert_eq!(g.position_from(P(1, 1), d), Some(P(1, 1).add(&d)));
    }
    assert_eq!(g.position_from(P(1, 0), P(0, !0)), None);
}

#[test]
fn test_positions_from() {
    let g = Grid::new(2, 2, 0);
    let offsets = vec![P(1, 0), P(0, 1), P(!0, 0), P(0, !0)];
    let ps: Vec<P> = g.positions_from(P(0, 1), &offsets);
    let expected = vec![P(0, 0), P(1, 1)];
    assert_eq!(ps.len(), expected.len());
    assert!(expected.into_iter().all(|p| ps.iter().any(|&x| x == p)));
}

#[test]
fn test_adj4() {
    let g = Grid::new(3, 3, 0);
    {
        let ps = g.adj4(P(0, 0));
        let expected = vec![P(1, 0), P(0, 1)];
        assert_eq!(ps.len(), expected.len());
        assert!(expected.into_iter().all(|p| ps.iter().any(|&x| x == p)));
    }
    {
        let ps = g.adj4(P(1, 1));
        let expected = vec![P(1, 0), P(0, 1), P(2, 1), P(1, 2)];
        assert_eq!(ps.len(), expected.len());
        assert!(expected.into_iter().all(|p| ps.iter().any(|&x| x == p)));
    }
}

#[test]
fn test_directions() {
    assert_eq!(Direction::D.rev(), Direction::U);
    assert_eq!(Direction::U.rev(), Direction::D);
    assert_eq!(Direction::R.rev(), Direction::L);
    assert_eq!(Direction::L.rev(), Direction::R);
    assert_eq!(Direction::from(0), Direction::D);
    assert_eq!(Direction::from(1), Direction::R);
    assert_eq!(Direction::from(2), Direction::U);
    assert_eq!(Direction::from(3), Direction::L);
    assert_eq!(Direction::L.to_char(), 'L');
    assert_eq!(P(1, 1).step(Direction::U), P(0, 1));
    assert_eq!(P(1, 1).step(Direction::R), P(1, 2));
    assert_eq!(P(0, 0).step(Direction::L), P(0, usize::MAX));
}

#[test]
fn test_positions() {
    assert_eq!(P(2, 3).adj4(), vec![P(3, 3), P(2, 4), P(1, 3), P(2, 2)]);
    assert_eq!(P(0, 0).add(&P(!0, 5)), P(usize::MAX, 5));
    assert_eq!(P(1, 5).dist(&P(4, 2)), 6);
    assert_eq!(P(4, 2).dist(&P(1, 5)), 6);
    assert_eq!(P(7, 7).dist(&P(7, 7)), 0);
}

#[test]
fn test_grid_from_rows() {
    let rows = vec![vec![1, 2, 3], vec![4, 5, 6]];
    let g = Grid::from(&rows);
    assert_eq!(g.g, rows);
    assert!(g.is_valid_position(&P(1, 2)));
    assert!(!g.is_valid_position(&P(2, 0)));
    assert!(!g.is_valid_position(&P(0, 3)));
    assert_eq!(Grid::new(2, 3, 7u8).g, vec![vec![7, 7, 7], vec![7, 7, 7]]);
}

#[test]
fn test_rotations() {
    let rows = vec![vec![1, 2, 3], vec![4, 5, 6]];
    assert_eq!(rot_clock(&rows), vec![vec![4, 1], vec![5, 2], vec![6, 3]]);
    assert_eq!(rot_rev_clock(&rows), vec![vec![3, 6], vec![2, 5], vec![1, 4]]);
    assert_eq!(rot_rev_clock(&rot_clock(&rows)), rows);
}

#[test]
fn grid_cells_can_be_read_and_written() {
    let mut grid = Grid::new(2, 3, 0);
    grid.put(P(1, 2), 7);
    assert_eq!(*grid.at(P(1, 2)), 7);
    assert_eq!(*grid.at(P(0, 2)), 0);
    assert_eq!(grid.row(1), &[0, 0, 7]);
    assert_eq!(grid.row(0), &[0, 0, 0]);
    assert_eq!(grid.g, vec![vec![0, 0, 0], vec![0, 0, 7]]);
}
