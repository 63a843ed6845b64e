use trixel::trigrid::TriGrid;

#[test]
fn trigrid_zeros_creates_correct_size() {
    let g = TriGrid::zeros(5, 10);
    assert_eq!(g.rows, 5);
    assert_eq!(g.cols, 10);
    assert_eq!(g.data.len(), 50);
    assert_eq!(g.total_cells(), 50);
}

#[test]
fn trigrid_zeros_all_zero() {
    let g = TriGrid::zeros(4, 8);
    for &val in &g.data {
        assert_eq!(val, 0);
    }
}

#[test]
fn trigrid_set_get_roundtrip() {
    let mut g = TriGrid::zeros(10, 12);
    g.set(3, 5, 2);
    g.set(7, 2, 1);
    g.set(0, 0, 0);
    assert_eq!(g.get(3, 5), Some(2));
    assert_eq!(g.get(7, 2), Some(1));
    assert_eq!(g.get(0, 0), Some(0));
}

#[test]
fn trigrid_set_overwrites() {
    let mut g = TriGrid::zeros(4, 4);
    g.set(1, 1, 2);
    assert_eq!(g.get(1, 1), Some(2));
    g.set(1, 1, 0);
    assert_eq!(g.get(1, 1), Some(0));
}

#[test]
fn trigrid_get_out_of_bounds_returns_none() {
    let g = TriGrid::zeros(5, 10);
    assert_eq!(g.get(10, 0), None);
    assert_eq!(g.get(0, 5), None);
    assert_eq!(g.get(10, 5), None);
    assert_eq!(g.get(100, 100), None);
}

#[test]
fn trigrid_is_up_even_sum() {
    assert!(TriGrid::is_up(0, 0));
    assert!(TriGrid::is_up(2, 0));
    assert!(TriGrid::is_up(1, 1));
    assert!(TriGrid::is_up(0, 2));
    assert!(TriGrid::is_up(3, 3));
}

#[test]
fn trigrid_is_down_odd_sum() {
    assert!(!TriGrid::is_up(1, 0));
    assert!(!TriGrid::is_up(0, 1));
    assert!(!TriGrid::is_up(2, 1));
    assert!(!TriGrid::is_up(3, 2));
}

#[test]
fn trigrid_cells_are_independent() {
    let mut g = TriGrid::zeros(4, 6);
    for row in 0..4 {
        for col in 0..6 {
            g.set(col, row, ((col + row * 6) % 3) as u8);
        }
    }
    for row in 0..4 {
        for col in 0..6 {
            let expected = ((col + row * 6) % 3) as u8;
            assert_eq!(g.get(col, row), Some(expected), "Cell ({},{}) expected {} got {:?}", col, row, expected, g.get(col, row));
        }
    }
}

#[test]
fn trigrid_clone_is_independent() {
    let mut g = TriGrid::zeros(3, 4);
    g.set(1, 1, 2);
    let g2 = g.clone();
    assert_eq!(g, g2);
    g.set(1, 1, 0);
    assert_ne!(g, g2);
    assert_eq!(g2.get(1, 1), Some(2));
}

#[test]
fn trigrid_set_changes_only_that_cell() {
    let mut g = TriGrid::zeros(3, 5);
    g.set(4, 2, 1);
    for row in 0..3 {
        for col in 0..5 {
            let expected = if col == 4 && row == 2 { 1 } else { 0 };
            assert_eq!(g.get(col, row), Some(expected));
        }
    }
    assert_eq!(g.data[2 * 5 + 4], 1);
}
