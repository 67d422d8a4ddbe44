use rustvent::grid::Grid;

fn drawing(grid: &Grid) -> Vec<String> {
    (0..grid.row_count())
        .map(|r| (0..grid.col_count()).map(|c| if grid.get(r, c) { '#' } else { '.' }).collect())
        .collect()
}

#[test]
fn grid_starts_blank() {
    let grid = Grid::new(2, 3).unwrap();
    assert_eq!(grid.row_count(), 2);
    assert_eq!(grid.col_count(), 3);
    assert_eq!(drawing(&grid), vec!["...", "..."]);
    assert!(!grid.get(5, 5));
    assert!(Grid::new(usize::MAX, 2).is_none());
    assert_eq!(Grid::new(0, 7).unwrap().row_count(), 0);
}

#[test]
fn grid_marks_places_and_rectangles() {
    let mut grid = Grid::new(4, 5).unwrap();
    grid.mark(1, 2);
    assert_eq!(drawing(&grid), vec![".....", "..#..", ".....", "....."]);
    grid.fill_rect(3, 4, 2, 1);
    assert_eq!(drawing(&grid), vec![".....", "..#..", ".####", ".####"]);
    assert!(grid.rect_full(2, 1, 3, 4));
    assert!(grid.rect_full(3, 4, 2, 1));
    assert!(grid.rect_full(1, 2, 2, 2));
    assert!(!grid.rect_full(1, 1, 2, 2));
    assert!(!grid.rect_full(3, 4, 3, 5));
}

#[test]
fn grid_flood_stays_within_walls() {
    let mut grid = Grid::new(5, 6).unwrap();
    grid.fill_rect(1, 1, 1, 4);
    grid.fill_rect(1, 4, 3, 4);
    grid.fill_rect(3, 4, 3, 1);
    grid.fill_rect(3, 1, 1, 1);
    assert_eq!(drawing(&grid), vec!["......", ".####.", ".#..#.", ".####.", "......"]);
    let mut within = Grid::new(5, 6).unwrap();
    within.fill_rect(1, 1, 3, 4);
    let mut inner = Grid::new(5, 6).unwrap();
    inner.fill_rect(1, 1, 1, 4);
    inner.fill_rect(1, 4, 3, 4);
    inner.fill_rect(3, 4, 3, 1);
    inner.fill_rect(3, 1, 1, 1);
    inner.flood(2, 2);
    assert_eq!(drawing(&inner), drawing(&within));
    grid.flood(0, 0);
    assert_eq!(drawing(&grid), vec!["######", "######", "##..##", "######", "######"]);
    grid.flood(1, 1);
    assert_eq!(drawing(&grid), vec!["######", "######", "##..##", "######", "######"]);
    grid.flood(2, 3);
    assert_eq!(drawing(&grid), vec!["######"; 5]);
}
