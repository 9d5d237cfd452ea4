use algo_lib::grid::Position;

fn grid() -> Vec<Vec<char>> {
    vec![vec!['.', '#', '.'], vec!['#', '.', '.']]
}

#[test]
fn steps_stay_inside_the_grid() {
    let p = Position::new((0, 2));
    assert!(p.go((0, 1), (2, 3)).is_none());
    assert!(p.go((-1, 0), (2, 3)).is_none());
    assert!(p.go((1, 0), (2, 3)) == Some(Position::new((1, 2))));
    assert!(p.go((1, -2), (2, 3)) == Some(Position::new((1, 0))));
    assert!(p.go((2, 0), (2, 3)).is_none());
}

#[test]
fn zero_origin_shifts_both_coordinates() {
    assert!(Position::new((1, 3)).to_zero_origin() == Position::new((0, 2)));
}

#[test]
fn cells_are_read_from_the_grid() {
    let g = grid();
    assert_eq!(Position::new((0, 1)).char_at(&g), '#');
    assert!(Position::new((0, 1)).is_wall_in(&g));
    assert!(!Position::new((0, 1)).is_space_in(&g));
    assert!(Position::new((1, 2)).is_space_in(&g));
}

#[test]
fn marking_touches_one_cell() {
    let mut visited = vec![vec![false; 3]; 2];
    let p = Position::new((1, 1));
    assert!(!p.is_already(&visited));
    p.mark_as(&mut visited);
    assert!(p.is_already(&visited));
    assert_eq!(visited, vec![vec![false, false, false], vec![false, true, false]]);
}
