use circuits::tiles::{
    _part1, check_line, check_rect, is_tile_valid, largest_area, lines_between, part2, Line, LineType, Tile,
};

fn tiles(coords: &[(u64, u64)]) -> Vec<Tile> {
    coords.iter().map(|&(x, y)| Tile::new(x, y)).collect()
}

fn corner_shape() -> Vec<Tile> {
    tiles(&[(0, 0), (2, 0), (2, 2), (4, 2), (4, 4), (0, 4)])
}

#[test]
fn area_counts_the_tiles_of_the_rectangle() {
    assert_eq!(Tile::new(2, 5).area(&Tile::new(9, 7)), 24);
    assert_eq!(Tile::new(9, 7).area(&Tile::new(2, 5)), 24);
    assert_eq!(Tile::new(3, 3).area(&Tile::new(3, 3)), 1);
    assert_eq!(Tile::new(0, 0).area(&Tile::new(u64::MAX - 1, 0)), u64::MAX);
}

#[test]
fn line_new_orders_its_ends() {
    let v = Line::new(Tile::new(3, 9), Tile::new(3, 1));
    assert_eq!(v, Line { a: Tile::new(3, 1), b: Tile::new(3, 9), line_type: LineType::Vertical });
    let h = Line::new(Tile::new(8, 2), Tile::new(1, 2));
    assert_eq!(h, Line { a: Tile::new(1, 2), b: Tile::new(8, 2), line_type: LineType::Horizontal });
    let kept = Line::new(Tile::new(1, 2), Tile::new(8, 2));
    assert_eq!(kept, h);
    let p = Line::new(Tile::new(4, 4), Tile::new(4, 4));
    assert_eq!(p.line_type, LineType::Point);
}

#[test]
fn largest_rectangle_between_any_two_tiles() {
    assert_eq!(_part1(corner_shape()), 25);
    assert_eq!(_part1(tiles(&[(0, 0), (3, 0), (3, 2), (0, 2)])), 12);
    assert_eq!(_part1(tiles(&[(5, 5)])), 0);
    assert_eq!(_part1(Vec::new()), 0);
    assert_eq!(largest_area(&corner_shape(), None), Some(25));
}

#[test]
fn lines_join_the_aligned_tiles() {
    let lines = lines_between(&corner_shape());
    assert_eq!(lines.len(), 6);
    assert_eq!(lines[0], Line::new(Tile::new(0, 0), Tile::new(2, 0)));
    assert_eq!(lines[1], Line::new(Tile::new(0, 0), Tile::new(0, 4)));
    assert!(lines_between(&tiles(&[(0, 0), (1, 1)])).is_empty());
}

#[test]
fn a_tile_needs_a_line_on_each_side() {
    let lines = lines_between(&corner_shape());
    assert!(is_tile_valid(&lines, &Tile::new(1, 1)));
    assert!(is_tile_valid(&lines, &Tile::new(0, 0)));
    assert!(is_tile_valid(&lines, &Tile::new(3, 3)));
    assert!(is_tile_valid(&lines, &Tile::new(4, 4)));
    assert!(!is_tile_valid(&lines, &Tile::new(3, 0)));
    assert!(!is_tile_valid(&lines, &Tile::new(3, 1)));
    assert!(!is_tile_valid(&lines, &Tile::new(5, 3)));
    assert!(!is_tile_valid(&[], &Tile::new(1, 1)));
}

#[test]
fn a_line_is_valid_where_each_of_its_tiles_is() {
    let lines = lines_between(&corner_shape());
    assert!(check_line(&lines, &Line::new(Tile::new(0, 0), Tile::new(2, 0))));
    assert!(!check_line(&lines, &Line::new(Tile::new(0, 0), Tile::new(4, 0))));
    assert!(check_line(&lines, &Line::new(Tile::new(2, 4), Tile::new(2, 0))));
    assert!(!check_line(&lines, &Line::new(Tile::new(3, 0), Tile::new(3, 4))));
    assert!(check_line(&lines, &Line::new(Tile::new(9, 9), Tile::new(9, 9))));
    assert!(check_rect(&lines, Tile::new(2, 0), Tile::new(0, 4)));
    assert!(!check_rect(&lines, Tile::new(0, 0), Tile::new(4, 4)));
}

#[test]
fn largest_rectangle_with_valid_sides() {
    assert_eq!(part2(corner_shape()), Some(15));
    assert_eq!(part2(tiles(&[(0, 0), (3, 0), (3, 2), (0, 2)])), Some(12));
}

#[test]
fn no_rectangle_with_valid_sides() {
    assert_eq!(part2(Vec::new()), None);
    assert_eq!(part2(tiles(&[(1, 1)])), None);
    assert_eq!(part2(tiles(&[(0, 0), (1, 1)])), None);
}
