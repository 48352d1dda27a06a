use text_utils::utils::{accumulate, copy_of, join, repeat, Grid};

#[test]
fn test_accumulate() {
    let accum = accumulate(&vec![1, 4, 4, 2]);
    assert_eq!(accum, vec![1, 5, 9, 11]);
    assert_eq!(accumulate::<i32>(&vec![]), vec![]);
}

#[test]
fn accumulate_sums_other_integers() {
    assert_eq!(accumulate::<u64>(&[3, 0, 7]), vec![3, 3, 10]);
    assert_eq!(accumulate::<usize>(&[usize::MAX - 1, 1]), vec![usize::MAX - 1, usize::MAX]);
    assert_eq!(accumulate::<i32>(&[5, -7, 2]), vec![5, -2, 0]);
}

#[test]
fn join_concatenates_in_order() {
    assert_eq!(join(vec![vec![1, 2], vec![], vec![3]]), vec![1, 2, 3]);
    assert_eq!(join::<u8>(vec![]), vec![]);
}

#[test]
fn repeat_and_copy() {
    assert_eq!(repeat(7u32, 3), vec![7, 7, 7]);
    assert_eq!(repeat(7u32, 0), vec![]);
    assert_eq!(copy_of(&vec![1, 2, 3]), vec![1, 2, 3]);
}

#[test]
fn grid_rows_are_stored_one_after_the_other() {
    let mut grid: Grid<u32> = Grid::new(2);
    grid.push_row(vec![1, 2]);
    grid.push_row(vec![3, 4]);
    assert_eq!(grid.rows, 2);
    assert_eq!(grid.cols, 2);
    assert_eq!(grid.data, vec![1, 2, 3, 4]);
}
