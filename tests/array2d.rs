use gauss_elim::array2d::Array2D;

#[test]
fn new_is_default_filled_with_given_shape() {
    let a: Array2D<i64> = Array2D::new(2, 3);
    assert_eq!(a.rows_len(), 2);
    assert_eq!(a.columns_len(), 3);
    for r in 0..2 {
        for c in 0..3 {
            assert_eq!(*a.get(r, c), 0);
        }
    }
}

#[test]
fn insert_then_get() {
    let mut a: Array2D<i64> = Array2D::new(3, 2);
    a.insert(2, 1, 7);
    a.insert(0, 0, -4);
    assert_eq!(*a.get(2, 1), 7);
    assert_eq!(*a.get(0, 0), -4);
    assert_eq!(*a.get(1, 1), 0);
}

#[test]
fn insert_unchecked_then_get() {
    let mut a: Array2D<u32> = Array2D::new(2, 2);
    a.insert_unchecked(1, 0, 9);
    assert_eq!(*a.get(1, 0), 9);
    assert_eq!(*a.get(0, 1), 0);
}

#[test]
fn non_square_offsets_use_column_count() {
    let mut a: Array2D<u32> = Array2D::new(2, 5);
    a.insert(1, 4, 3);
    a.insert(1, 0, 1);
    assert_eq!(a.row(1), &[1, 0, 0, 0, 3][..]);
    assert_eq!(a.row(0), &[0, 0, 0, 0, 0][..]);
}

#[test]
fn bounds_are_checked() {
    let a: Array2D<u8> = Array2D::new(2, 3);
    assert!(a.check_values(1, 2));
    assert!(!a.check_values(2, 0));
    assert!(!a.check_values(0, 3));
    assert!(!a.check_values(5, 5));
}

#[test]
fn rows_are_disjoint_views() {
    let mut a: Array2D<i32> = Array2D::new(3, 3);
    for r in 0..3 {
        for c in 0..3 {
            a.insert(r, c, (r * 10 + c) as i32);
        }
    }
    assert_eq!(a.row(0), &[0, 1, 2][..]);
    assert_eq!(a.row(1), &[10, 11, 12][..]);
    assert_eq!(a.row(2), &[20, 21, 22][..]);
}

#[test]
fn borrowed_walk_is_ascending_and_restartable() {
    let mut a: Array2D<i32> = Array2D::new(3, 2);
    for r in 0..3 {
        a.insert(r, 0, r as i32);
        a.insert(r, 1, -(r as i32));
    }
    for _ in 0..2 {
        let mut it = a.iter();
        assert_eq!(it.next(), Some(&[0, 0][..]));
        assert_eq!(it.next(), Some(&[1, -1][..]));
        assert_eq!(it.next(), Some(&[2, -2][..]));
        assert_eq!(it.next(), None);
        assert_eq!(it.next(), None);
    }
}

#[test]
fn consuming_walk_is_ascending() {
    let mut a: Array2D<i32> = Array2D::new(3, 2);
    for r in 0..3 {
        a.insert(r, 1, r as i32 + 1);
    }
    let mut it = a.into_iter();
    assert_eq!(it.next(), Some(vec![0, 1]));
    assert_eq!(it.next(), Some(vec![0, 2]));
    assert_eq!(it.next(), Some(vec![0, 3]));
    assert_eq!(it.next(), None);
}

#[test]
fn empty_matrix_walks_nothing() {
    let a: Array2D<i32> = Array2D::new(0, 4);
    assert_eq!(a.iter().next(), None);
    assert_eq!(a.into_iter().next(), None);
}
