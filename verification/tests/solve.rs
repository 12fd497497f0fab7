use maze::{Coord, Maze, MazeError, MazeErrorKind, PixelType};

fn color_of(ch: char) -> bmp::Pixel {
    match ch {
        '#' => bmp::Pixel { r: 0, g: 0, b: 0 },
        '.' => bmp::Pixel { r: 1, g: 1, b: 1 },
        '5' => bmp::Pixel { r: 5, g: 5, b: 5 },
        '9' => bmp::Pixel { r: 9, g: 9, b: 9 },
        'S' => bmp::Pixel { r: 195, g: 195, b: 196 },
        'E' => bmp::Pixel { r: 126, g: 127, b: 127 },
        'a' => bmp::Pixel { r: 0, g: 0, b: 255 },
        'b' => bmp::Pixel { r: 0, g: 255, b: 0 },
        _ => panic!("unknown cell"),
    }
}

fn picture(rows: &[String]) -> bmp::Image {
    let height = rows.len() as u32;
    let width = rows[0].len() as u32;
    let mut img = bmp::Image::new(width, height);
    for (y, row) in rows.iter().enumerate() {
        assert_eq!(row.len() as u32, width);
        for (x, ch) in row.chars().enumerate() {
            img.set_pixel(x as u32, y as u32, color_of(ch));
        }
    }
    img
}

fn rows_of(rows: &[&str]) -> Vec<String> {
    rows.iter().map(|r| r.to_string()).collect()
}

/// A maze whose end lies behind a zone of color `a`, with a block of color
/// `a` that is `n` cells high and wide on the way.
fn gated(n: usize) -> Vec<String> {
    let mut rows = Vec::new();
    for r in 0..n {
        let mut row = String::new();
        row.push_str(if r == 0 { "S." } else { ".." });
        for _ in 0..n {
            row.push('a');
        }
        row.push_str("..#");
        row.push(if r == 0 { 'E' } else { 'a' });
        rows.push(row);
    }
    let mut last = String::new();
    for _ in 0..n + 6 {
        last.push('.');
    }
    rows.push(last);
    rows
}

/// The same maze without the block: nothing but free cells in its place.
fn gated_without_key(n: usize) -> Vec<String> {
    gated(n).iter().map(|row| {
        let (left, right) = row.split_at(n + 2);
        let mut s = left.replace('a', ".");
        s.push_str(right);
        s
    }).collect()
}

fn no_end() -> Option<MazeError> {
    Some(MazeError::new(MazeErrorKind::NoEnd, format!("There is no end zone.")))
}

fn no_start() -> Option<MazeError> {
    Some(MazeError::new(MazeErrorKind::NoStart, format!("There is no start.")))
}

fn kind_at(maze: &Maze, row: u32, col: u32) -> PixelType {
    maze.pixel_at(&Coord::new(row, col)).unwrap().p_type
}

fn cost_at(maze: &Maze, row: u32, col: u32, comb: usize) -> Option<u32> {
    maze.pixel_at(&Coord::new(row, col)).unwrap().key_dists.get(&comb).copied()
}

fn one_step(a: &Coord, b: &Coord) -> bool {
    let dr = if a.row > b.row { a.row - b.row } else { b.row - a.row };
    let dc = if a.col > b.col { a.col - b.col } else { b.col - a.col };
    dr + dc == 1
}

#[test]
fn test_found_01_maze3x3() {
    let img = picture(&gated(3));
    let mut maze: Maze = Maze::from(&img);
    assert_eq!(maze.find_path(3, 3).err(), Option::<MazeError>::None);
}

#[test]
fn test_found_01_maze3x3_20x20() {
    let img = picture(&gated(3));
    let mut maze: Maze = Maze::from(&img);
    assert_eq!(maze.find_path(20, 20).err(), no_end());
}

#[test]
fn test_found_02_maze3x3() {
    let img = picture(&rows_of(&["S.9.E", ".#.#.", "....."]));
    let mut maze: Maze = Maze::from(&img);
    assert_eq!(maze.find_path(3, 3).err(), Option::<MazeError>::None);
}

#[test]
fn test_found_03_maze3x3() {
    let img = picture(&rows_of(&["####", "S.bE", "####"]));
    let mut maze: Maze = Maze::from(&img);
    assert_eq!(maze.find_path(3, 3).err(), no_end());
}

#[test]
fn test_found_04_maze3x3() {
    let img = picture(&rows_of(&["....", "..aE", "...."]));
    let mut maze: Maze = Maze::from(&img);
    assert_eq!(maze.find_path(3, 3).err(), no_start());
}

#[test]
fn test_found_05_maze3x3() {
    let img = picture(&gated_without_key(3).iter().map(|r| r.replace('S', ".")).collect::<Vec<String>>());
    let mut maze: Maze = Maze::from(&img);
    assert_eq!(maze.find_path(3, 3).err(), no_start());
}

#[test]
fn test_found_06_maze3x3() {
    let img = picture(&rows_of(&["S#aaa#E", ".#aaa#a", "..aaa.."]));
    let mut maze: Maze = Maze::from(&img);
    assert_eq!(maze.find_path(3, 3).err(), Option::<MazeError>::None);
}

#[test]
fn test_found_07_maze3x3() {
    let img = picture(&gated_without_key(3));
    let mut maze: Maze = Maze::from(&img);
    assert_eq!(maze.find_path(3, 3).err(), no_end());
}

#[test]
fn test_found_08_maze3x3() {
    let img = picture(&rows_of(&["S.#E", "..#.", "####"]));
    let mut maze: Maze = Maze::from(&img);
    assert_eq!(maze.find_path(3, 3).err(), no_end());
}

#[test]
fn test_found_01_maze20x20() {
    let img = picture(&gated(20));
    let mut maze: Maze = Maze::from(&img);
    assert_eq!(maze.find_path(20, 20).err(), Option::<MazeError>::None);
}

#[test]
fn test_found_01_maze20x20_3x3() {
    let img = picture(&gated(20));
    let mut maze: Maze = Maze::from(&img);
    assert_eq!(maze.find_path(3, 3).err(), no_end());
}

#[test]
fn test_found_02_maze20x20() {
    let img = picture(&gated_without_key(20));
    let mut maze: Maze = Maze::from(&img);
    assert_eq!(maze.find_path(20, 20).err(), no_end());
}

#[test]
fn test_save_01_maze3x3() {
    let img = picture(&gated(3));
    let mut maze: Maze = Maze::from(&img);
    let _ = maze.find_path(3, 3);
    assert_eq!(maze.save_path().err(), Option::<MazeError>::None);
}

#[test]
fn test_save_01_maze20x20() {
    let img = picture(&gated(20));
    let mut maze: Maze = Maze::from(&img);
    let _ = maze.find_path(20, 20);
    assert_eq!(maze.save_path().err(), Option::<MazeError>::None);
}

#[test]
fn test_save_03_maze20x20() {
    let mut rows = gated(20);
    rows[5] = rows[5].replace("..#", ".9#");
    let img = picture(&rows);
    let mut maze: Maze = Maze::from(&img);
    let _ = maze.find_path(20, 20);
    assert_eq!(maze.save_path().err(), Option::<MazeError>::None);
}

#[test]
fn test_find_save_02_maze20x20() {
    let img = picture(&gated_without_key(20));
    let mut maze: Maze = Maze::from(&img);
    assert_eq!(maze.find_path(20, 20).err(), no_end());
    assert_eq!(maze.save_path().err(), no_end());
}

#[test]
fn corridor_is_walked_without_keys() {
    let img = picture(&rows_of(&["###", "S.E", "###"]));
    let mut maze = Maze::from(&img);
    assert_eq!(maze.find_path(3, 3), Ok(()));
    assert_eq!(maze.end(), Some((Coord::new(1, 2), 0)));
    let path = maze.trace_path().unwrap();
    assert_eq!(path, vec![Coord::new(1, 2), Coord::new(1, 1), Coord::new(1, 0)]);
    assert_eq!(cost_at(&maze, 1, 0, 0), Some(0));
    assert_eq!(cost_at(&maze, 1, 1, 0), Some(1));
    assert_eq!(cost_at(&maze, 1, 2, 0), Some(2));
    assert!(maze.key_comb(1).is_none());
    assert_eq!(maze.key_index(&maze::Color { r: 0, g: 0, b: 255 }), None);
}

#[test]
fn zone_without_key_is_never_entered() {
    let img = picture(&rows_of(&["####", "S.bE", "####"]));
    let mut maze = Maze::from(&img);
    assert_eq!(maze.find_path(3, 3).err(), no_end());
    assert_eq!(kind_at(&maze, 1, 2), PixelType::ZONE);
    assert_eq!(cost_at(&maze, 1, 2, 0), None);
    assert_eq!(kind_at(&maze, 1, 3), PixelType::UNSET);
    assert_eq!(maze.end(), None);
}

#[test]
fn route_takes_the_key_before_the_zone() {
    let img = picture(&gated(3));
    let mut maze = Maze::from(&img);
    assert_eq!(maze.find_path(3, 3), Ok(()));
    for r in 0..3 {
        for c in 2..5 {
            assert_eq!(kind_at(&maze, r, c), PixelType::KEY);
        }
    }
    assert_eq!(kind_at(&maze, 1, 8), PixelType::ZONE);
    assert_eq!(kind_at(&maze, 2, 8), PixelType::ZONE);
    assert_eq!(kind_at(&maze, 0, 8), PixelType::END);
    assert_eq!(kind_at(&maze, 0, 7), PixelType::WALL);
    assert_eq!(kind_at(&maze, 0, 0), PixelType::START);
    assert_eq!(kind_at(&maze, 0, 1), PixelType::FREE);
    let blue = maze::Color { r: 0, g: 0, b: 255 };
    assert_eq!(maze.key_index(&blue), Some(0));
    let (end, comb) = maze.end().unwrap();
    assert_eq!(end, Coord::new(0, 8));
    let held = maze.key_comb(comb).unwrap();
    let with_key = maze::keycomb_set(&maze::start_key_comb(), 0);
    assert!(maze::keycomb_eq(&held, &with_key));
    assert!(!maze::keycomb_eq(&held, &maze::start_key_comb()));
    let path = maze.trace_path().unwrap();
    assert_eq!(path[0], end);
    assert_eq!(*path.last().unwrap(), Coord::new(0, 0));
    for pair in path.windows(2) {
        assert!(one_step(&pair[0], &pair[1]));
    }
    assert!(path.iter().any(|c| kind_at(&maze, c.row, c.col) == PixelType::KEY));
    assert!(path.iter().all(|c| kind_at(&maze, c.row, c.col) != PixelType::WALL));
    let key_at = path.iter().position(|c| kind_at(&maze, c.row, c.col) == PixelType::KEY).unwrap();
    let zone_at = path.iter().position(|c| kind_at(&maze, c.row, c.col) == PixelType::ZONE).unwrap();
    assert!(zone_at < key_at);
    assert_eq!(cost_at(&maze, 0, 8, comb), Some(14));
}

#[test]
fn block_of_another_size_is_a_zone() {
    let img = picture(&gated(3));
    let mut maze = Maze::from(&img);
    assert_eq!(maze.find_path(20, 20).err(), no_end());
    assert_eq!(kind_at(&maze, 0, 2), PixelType::ZONE);
    assert_eq!(kind_at(&maze, 2, 4), PixelType::ZONE);
    assert_eq!(cost_at(&maze, 0, 2, 0), None);
    let mut other = Maze::from(&img);
    assert_eq!(other.find_path(3, 3), Ok(()));
    assert_eq!(kind_at(&other, 0, 2), PixelType::KEY);
}

#[test]
fn costs_follow_the_gray_values() {
    let img = picture(&rows_of(&["S.9.E", ".#.#.", "....."]));
    let mut maze = Maze::from(&img);
    assert_eq!(maze.find_path(3, 3), Ok(()));
    assert_eq!(cost_at(&maze, 0, 2, 0), Some(10));
    assert_eq!(cost_at(&maze, 0, 3, 0), Some(9));
    assert_eq!(cost_at(&maze, 0, 4, 0), Some(8));
    assert_eq!(cost_at(&maze, 2, 2, 0), Some(4));
    let path = maze.trace_path().unwrap();
    assert_eq!(path.len(), 9);
    assert!(!path.contains(&Coord::new(0, 2)));
}

#[test]
fn no_start_leaves_the_maze_untouched() {
    let img = picture(&rows_of(&["....", "..aE", "...."]));
    let mut maze = Maze::from(&img);
    assert_eq!(maze.find_path(3, 3).err(), no_start());
    for r in 0..3 {
        for c in 0..4 {
            assert_eq!(kind_at(&maze, r, c), PixelType::UNSET);
            assert_eq!(cost_at(&maze, r, c, 0), None);
        }
    }
    assert_eq!(maze.end(), None);
    assert_eq!(maze.save_path().err(), no_end());
}

#[test]
fn picture_shows_the_route_in_red() {
    let img = picture(&rows_of(&["###", "S.E", "#5#"]));
    let mut maze = Maze::from(&img);
    assert_eq!(maze.find_path(3, 3), Ok(()));
    let out = maze.save_path().unwrap();
    assert_eq!(out.get_width(), 3);
    assert_eq!(out.get_height(), 3);
    let red = bmp::Pixel { r: 255, g: 0, b: 0 };
    assert_eq!(out.get_pixel(0, 1), red);
    assert_eq!(out.get_pixel(1, 1), red);
    assert_eq!(out.get_pixel(2, 1), red);
    assert_eq!(out.get_pixel(1, 2), bmp::Pixel { r: 5, g: 5, b: 5 });
    assert_eq!(out.get_pixel(0, 0), bmp::Pixel { r: 0, g: 0, b: 0 });
    assert_eq!(out.get_pixel(2, 2), bmp::Pixel { r: 0, g: 0, b: 0 });
}

#[test]
fn cheapest_end_cell_is_chosen() {
    let img = picture(&rows_of(&["S...", "9##E", "..EE"]));
    let mut maze = Maze::from(&img);
    assert_eq!(maze.find_path(3, 3), Ok(()));
    assert_eq!(maze.end(), Some((Coord::new(1, 3), 0)));
    assert_eq!(cost_at(&maze, 1, 3, 0), Some(4));
}
