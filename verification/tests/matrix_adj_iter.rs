use notebook::matrix_adj_iter::VecAdjIterExt;

#[test]
fn test_matrix_adj_iter() {
    let matrix = vec![vec![0; 5]; 10];
    let h = matrix.len();
    let w = matrix[0].len();

    // point in the middle
    let iter = matrix.adj_iter(2, 3);
    let mut adj: Vec<(usize, usize)> = iter.collect();
    assert_eq!(adj.len(), 4);
    adj.sort();
    assert_eq!(adj, vec![(1, 3), (2, 2), (2, 4), (3, 3)]);

    // try 4 corners
    let iter = matrix.adj_iter(h - 1, w - 1);
    assert_eq!(iter.count(), 2);

    let iter = matrix.adj_iter(0, w - 1);
    assert_eq!(iter.count(), 2);

    let iter = matrix.adj_iter(h - 1, 0);
    assert_eq!(iter.count(), 2);

    let iter = matrix.adj_iter(0, 0);
    assert_eq!(iter.count(), 2);

    // point in the side
    let iter = matrix.adj_iter(2, w - 1);
    assert_eq!(iter.count(), 3);

    let iter = matrix.adj_iter(0, 2);
    assert_eq!(iter.count(), 3);

    let iter = matrix.adj_iter(h - 1, 2);
    assert_eq!(iter.count(), 3);

    let iter = matrix.adj_iter(2, 0);
    assert_eq!(iter.count(), 3);
}

#[test]
fn adj_iter_order_is_up_down_left_right() {
    let matrix = vec![vec![0u8; 5]; 10];
    let mut it = matrix.adj_iter(2, 3);
    assert_eq!(it.next(), Some((1, 3)));
    assert_eq!(it.next(), Some((3, 3)));
    assert_eq!(it.next(), Some((2, 2)));
    assert_eq!(it.next(), Some((2, 4)));
    assert_eq!(it.next(), None);
    assert_eq!(it.next(), None);
}

#[test]
fn adj_iter_corner_and_single_cell() {
    let matrix = vec![vec![0u8; 5]; 10];
    assert_eq!(matrix.adj_iter(0, 0).collect(), vec![(1, 0), (0, 1)]);
    assert_eq!(matrix.adj_iter(9, 4).collect(), vec![(8, 4), (9, 3)]);
    let single = vec![vec![0u8; 1]; 1];
    assert_eq!(single.adj_iter(0, 0).collect(), Vec::<(usize, usize)>::new());
    assert_eq!(single.adj_iter(0, 0).count(), 0);
}

#[test]
fn adj_iter_from_outside_the_grid() {
    let matrix = vec![vec![0u8; 5]; 10];
    // one row below the grid: only the cell above lies in it
    assert_eq!(matrix.adj_iter(10, 2).collect(), vec![(9, 2)]);
    // one column to the right of the grid
    assert_eq!(matrix.adj_iter(3, 5).collect(), vec![(3, 4)]);
    assert_eq!(matrix.adj_iter(20, 20).count(), 0);
    assert_eq!(matrix.adj_iter(usize::MAX, 0).count(), 0);
    // a grid whose first row is empty has no cells
    let hollow: Vec<Vec<u8>> = vec![Vec::new(); 3];
    assert_eq!(hollow.adj_iter(1, 0).count(), 0);
}
