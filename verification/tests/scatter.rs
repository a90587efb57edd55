use johnnybt_polars::scatter::{check_axis, fill, scatter};

#[test]
fn values_land_on_their_cells() {
    let m = fill(&[Some(1), Some(2), Some(3)], &[0, 1, 1], &[2, 0, 1], 2, 3);
    assert_eq!(m, vec![None, None, Some(1), Some(2), Some(3), None]);
}

#[test]
fn the_last_value_for_a_cell_stays() {
    let m = fill(&[Some(1), Some(2), Some(3)], &[0, 0, 0], &[1, 0, 1], 1, 2);
    assert_eq!(m, vec![Some(2), Some(3)]);
    let m = fill(&[Some(1), None], &[0, 0], &[0, 0], 1, 1);
    assert_eq!(m, vec![None]);
}

#[test]
fn nothing_written_leaves_the_grid_empty() {
    assert_eq!(fill(&[], &[], &[], 2, 2), vec![None; 4]);
    assert_eq!(fill(&[], &[], &[], 0, 7), Vec::<Option<u64>>::new());
}

#[test]
fn positions_off_the_grid_are_refused() {
    let columns = [vec![Some(1)]];
    assert_eq!(
        scatter(&columns, &[2], &[0], 2, 3).unwrap_err(),
        "_row holds a position outside the (2, 3) grid"
    );
    assert_eq!(
        scatter(&columns, &[0], &[-1], 2, 3).unwrap_err(),
        "_col holds a position outside the (2, 3) grid"
    );
    assert_eq!(
        scatter(&columns, &[-1], &[3], 2, 3).unwrap_err(),
        "_row holds a position outside the (2, 3) grid"
    );
    assert!(check_axis(&[0, 1], 2, "_row", 2, 3).is_ok());
    assert!(check_axis(&[0, 2], 2, "_row", 2, 10).unwrap_err().contains("(2, 10)"));
}

#[test]
fn each_column_has_a_matrix() {
    let columns = [vec![Some(1), Some(2)], vec![None, Some(9)]];
    let all = scatter(&columns, &[0, 1], &[1, 0], 2, 2).unwrap();
    assert_eq!(all, vec![vec![None, Some(1), Some(2), None], vec![None, None, Some(9), None]]);
    assert!(scatter(&[], &[], &[], 0, 0).unwrap().is_empty());
}
