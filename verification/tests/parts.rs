use maze::color::{is_grey, weight_of};
use maze::{
    keycomb_eq, keycomb_set, keycomb_unset, start_key_comb, Color, Coord, Maze, MazeError,
    MazeErrorKind, PixelType,
};

#[test]
fn empty_combination_has_eight_unset_bits() {
    let empty = start_key_comb();
    assert_eq!(empty.len(), 8);
    assert!(empty.iter().all(|bit| !bit));
}

#[test]
fn setting_a_bit_grows_the_combination() {
    let empty = start_key_comb();
    let grown = keycomb_set(&empty, 11);
    assert_eq!(grown.len(), 12);
    assert_eq!(grown.get(11), Some(true));
    assert_eq!(grown.iter().filter(|bit| *bit).count(), 1);
    assert_eq!(empty.len(), 8);
    let third = keycomb_set(&empty, 3);
    assert_eq!(third.len(), 8);
    assert_eq!(third.get(3), Some(true));
    assert_eq!(empty.get(3), Some(false));
}

#[test]
fn clearing_a_bit_keeps_the_length() {
    let grown = keycomb_set(&start_key_comb(), 11);
    let cleared = keycomb_unset(&grown, 11);
    assert_eq!(cleared.len(), 12);
    assert!(cleared.iter().all(|bit| !bit));
    assert_eq!(grown.get(11), Some(true));
    let same = keycomb_unset(&grown, 40);
    assert_eq!(same, grown);
}

#[test]
fn equality_ignores_the_length() {
    let empty = start_key_comb();
    let grown = keycomb_set(&empty, 11);
    let cleared = keycomb_unset(&grown, 11);
    assert_ne!(cleared, empty);
    assert!(keycomb_eq(&cleared, &empty));
    assert!(keycomb_eq(&empty, &cleared));
    assert!(!keycomb_eq(&grown, &empty));
    assert!(!keycomb_eq(&empty, &grown));
    let a = keycomb_set(&keycomb_set(&empty, 2), 9);
    let b = keycomb_set(&keycomb_set(&empty, 9), 2);
    assert!(keycomb_eq(&a, &b));
    assert!(!keycomb_eq(&a, &keycomb_set(&empty, 2)));
}

#[test]
fn gray_means_equal_channels() {
    assert!(is_grey(&Color { r: 7, g: 7, b: 7 }));
    assert!(is_grey(&Color { r: 0, g: 0, b: 0 }));
    assert!(!is_grey(&Color { r: 195, g: 195, b: 196 }));
    assert!(!is_grey(&Color { r: 126, g: 127, b: 127 }));
}

#[test]
fn weight_is_the_gray_value_or_one() {
    assert_eq!(weight_of(&Color { r: 7, g: 7, b: 7 }), 7);
    assert_eq!(weight_of(&Color { r: 255, g: 255, b: 255 }), 255);
    assert_eq!(weight_of(&Color { r: 1, g: 2, b: 3 }), 1);
    assert_eq!(weight_of(&Color { r: 126, g: 127, b: 127 }), 1);
}

#[test]
fn reserved_colors() {
    assert_eq!(Color::wall(), Color { r: 0, g: 0, b: 0 });
    assert_eq!(Color::start(), Color { r: 195, g: 195, b: 196 });
    assert_eq!(Color::end(), Color { r: 126, g: 127, b: 127 });
    assert_eq!(Color::path(), Color { r: 255, g: 0, b: 0 });
}

#[test]
fn coordinates_wrap_around() {
    let c = Coord::new(0, 5);
    assert_eq!(c + Coord::new(u32::MAX, 0), Coord::new(u32::MAX, 5));
    assert_eq!(c + Coord::new(0, u32::MAX), Coord::new(0, 4));
    assert_eq!(c + Coord::new(1, 0), Coord::new(1, 5));
    assert_eq!(Coord::new(u32::MAX, u32::MAX) + Coord::new(1, 1), Coord::new(0, 0));
    assert_eq!(Coord::default(), Coord::new(u32::MAX, u32::MAX));
    assert_eq!(maze::coord::direction(0), Coord::new(u32::MAX, 0));
    assert_eq!(maze::coord::direction(1), Coord::new(0, u32::MAX));
    assert_eq!(maze::coord::direction(2), Coord::new(0, 1));
    assert_eq!(maze::coord::direction(3), Coord::new(1, 0));
}

#[test]
fn error_keeps_kind_and_details() {
    let e = MazeError::new(MazeErrorKind::Other, format!("broken"));
    assert_eq!(e.kind, MazeErrorKind::Other);
    assert_eq!(e.details, "broken");
    assert_ne!(e, MazeError::new(MazeErrorKind::NoEnd, format!("broken")));
}

#[test]
fn error_kinds_have_titles() {
    let title: &str = MazeErrorKind::CoordOutOfRange.as_ref();
    assert_eq!(title, "Coords out of range");
    let title: &str = MazeErrorKind::NoStart.as_ref();
    assert_eq!(title, "No start key");
    let title: &str = MazeErrorKind::NoEnd.as_ref();
    assert_eq!(title, "Maze Error");
    let title: &str = MazeErrorKind::Other.as_ref();
    assert_eq!(title, "Maze Error");
}

#[test]
fn maze_takes_size_and_colors_from_the_image() {
    let mut img = bmp::Image::new(3, 2);
    img.set_pixel(2, 0, bmp::Pixel { r: 10, g: 20, b: 30 });
    img.set_pixel(0, 1, bmp::Pixel { r: 195, g: 195, b: 196 });
    let maze = Maze::from(&img);
    assert_eq!(maze.width(), 3);
    assert_eq!(maze.height(), 2);
    assert_eq!(maze.pixel_at(&Coord::new(0, 2)).unwrap().color, Color { r: 10, g: 20, b: 30 });
    assert_eq!(maze.pixel_at(&Coord::new(1, 0)).unwrap().color, Color { r: 195, g: 195, b: 196 });
    assert_eq!(maze.pixel_at(&Coord::new(0, 0)).unwrap().color, Color { r: 0, g: 0, b: 0 });
    assert_eq!(maze.pixel_at(&Coord::new(1, 2)).unwrap().p_type, PixelType::UNSET);
    assert!(maze.pixel_at(&Coord::new(1, 2)).unwrap().key_dists.is_empty());
    assert_eq!(maze.end(), None);
    assert!(maze.key_comb(0).is_some());
    assert!(maze.key_comb(1).is_none());
    let checked = Maze::checked_from(&img).unwrap();
    assert_eq!(checked.width(), 3);
    assert_eq!(checked.height(), 2);
}

#[test]
fn default_maze_is_empty() {
    let maze = Maze::default();
    assert_eq!(maze.width(), 0);
    assert_eq!(maze.height(), 0);
    assert!(!maze.is_valid(&Coord::new(0, 0)));
}

#[test]
fn positions_off_the_grid_are_refused() {
    let img = bmp::Image::new(3, 2);
    let maze = Maze::from(&img);
    assert_eq!(maze.pixel_indx(&Coord::new(1, 2)), Ok(5));
    assert_eq!(maze.pixel_indx(&Coord::new(0, 0)), Ok(0));
    assert!(maze.is_valid(&Coord::new(1, 2)));
    assert!(!maze.is_valid(&Coord::new(2, 0)));
    let e = maze.pixel_indx(&Coord::new(2, 0)).unwrap_err();
    assert_eq!(e.kind, MazeErrorKind::CoordOutOfRange);
    let e = maze.pixel_indx(&Coord::new(0, 3)).unwrap_err();
    assert_eq!(e.kind, MazeErrorKind::CoordOutOfRange);
    assert!(maze.pixel_at(&Coord::new(u32::MAX, 0)).is_err());
}

#[test]
fn classifying_twice_changes_nothing() {
    let mut img = bmp::Image::new(4, 2);
    for x in 0..4 {
        for y in 0..2 {
            img.set_pixel(x, y, bmp::Pixel { r: 3, g: 3, b: 3 });
        }
    }
    let blue = bmp::Pixel { r: 0, g: 0, b: 255 };
    img.set_pixel(1, 0, blue);
    img.set_pixel(2, 0, blue);
    img.set_pixel(3, 1, blue);
    let mut maze = Maze::from(&img);
    let _ = maze.find_path(1, 2);
    maze.set_area_at(&Coord::new(0, 1));
    let once: Vec<PixelType> = (0..8).map(|i| maze.pixel_at(&Coord::new(i / 4, i % 4)).unwrap().p_type).collect();
    assert_eq!(once[1], PixelType::KEY);
    assert_eq!(once[2], PixelType::KEY);
    assert_eq!(once[0], PixelType::UNSET);
    assert_eq!(once[7], PixelType::UNSET);
    maze.set_area_at(&Coord::new(0, 1));
    maze.set_area_at(&Coord::new(0, 2));
    let twice: Vec<PixelType> = (0..8).map(|i| maze.pixel_at(&Coord::new(i / 4, i % 4)).unwrap().p_type).collect();
    assert_eq!(once, twice);
    maze.set_area_at(&Coord::new(1, 3));
    assert_eq!(maze.pixel_at(&Coord::new(1, 3)).unwrap().p_type, PixelType::ZONE);
    maze.set_area_at(&Coord::new(0, 0));
    assert_eq!(maze.pixel_at(&Coord::new(0, 0)).unwrap().p_type, PixelType::FREE);
    assert_eq!(maze.pixel_at(&Coord::new(1, 0)).unwrap().p_type, PixelType::UNSET);
}

#[test]
fn keys_get_their_bits_in_the_order_met() {
    let mut img = bmp::Image::new(5, 1);
    img.set_pixel(0, 0, bmp::Pixel { r: 0, g: 255, b: 0 });
    img.set_pixel(1, 0, bmp::Pixel { r: 2, g: 2, b: 2 });
    img.set_pixel(2, 0, bmp::Pixel { r: 195, g: 195, b: 196 });
    img.set_pixel(3, 0, bmp::Pixel { r: 0, g: 0, b: 255 });
    img.set_pixel(4, 0, bmp::Pixel { r: 126, g: 127, b: 127 });
    let mut maze = Maze::from(&img);
    assert_eq!(maze.find_path(1, 1), Ok(()));
    let blue = maze.key_index(&Color { r: 0, g: 0, b: 255 }).unwrap();
    let green = maze.key_index(&Color { r: 0, g: 255, b: 0 }).unwrap();
    assert_ne!(blue, green);
    let (end, comb) = maze.end().unwrap();
    assert_eq!(end, Coord::new(0, 4));
    let held = maze.key_comb(comb).unwrap();
    assert!(keycomb_eq(&held, &keycomb_set(&start_key_comb(), blue)));
    assert!(!keycomb_eq(&held, &keycomb_set(&start_key_comb(), green)));
    assert_eq!(maze.trace_path().unwrap(), vec![Coord::new(0, 4), Coord::new(0, 3), Coord::new(0, 2)]);
}

#[test]
fn every_step_costs_at_least_one() {
    for g in 1..=255u8 {
        assert_eq!(weight_of(&Color { r: g, g: g, b: g }), g as u32);
        assert!(weight_of(&Color { r: g, g: g, b: g }) >= 1);
    }
    assert_eq!(weight_of(&Color::start()), 1);
    assert_eq!(weight_of(&Color::end()), 1);
    assert_eq!(weight_of(&Color::path()), 1);
    assert_eq!(weight_of(&Color::wall()), 0);
}

#[test]
fn search_starts_at_the_first_start_cell() {
    let mut img = bmp::Image::new(3, 3);
    for x in 0..3 {
        for y in 0..3 {
            img.set_pixel(x, y, bmp::Pixel { r: 1, g: 1, b: 1 });
        }
    }
    let start = bmp::Pixel { r: 195, g: 195, b: 196 };
    img.set_pixel(2, 0, start);
    img.set_pixel(0, 2, start);
    let mut maze = Maze::from(&img);
    assert_eq!(maze.get_start(), Ok(Coord::new(0, 2)));
    assert_eq!(maze.pixel_at(&Coord::new(0, 2)).unwrap().p_type, PixelType::START);
    assert_eq!(maze.pixel_at(&Coord::new(2, 0)).unwrap().p_type, PixelType::UNSET);
    let mut other = Maze::from(&img);
    assert_eq!(other.find_path(3, 3).err().map(|e| e.kind), Some(MazeErrorKind::NoEnd));
    assert_eq!(other.pixel_at(&Coord::new(0, 2)).unwrap().key_dists.get(&0), Some(&0));
    assert_eq!(other.pixel_at(&Coord::new(2, 0)).unwrap().key_dists.get(&0), Some(&4));
    assert_eq!(other.pixel_at(&Coord::new(2, 0)).unwrap().p_type, PixelType::START);
}

#[test]
fn cheapest_neighbor_is_found() {
    let mut img = bmp::Image::new(3, 1);
    img.set_pixel(0, 0, bmp::Pixel { r: 195, g: 195, b: 196 });
    img.set_pixel(1, 0, bmp::Pixel { r: 4, g: 4, b: 4 });
    img.set_pixel(2, 0, bmp::Pixel { r: 126, g: 127, b: 127 });
    let mut maze = Maze::from(&img);
    assert_eq!(maze.find_path(2, 2), Ok(()));
    assert_eq!(maze.look_around(&Coord::new(0, 2), 0, 5), (Coord::new(0, 1), 4));
    assert_eq!(maze.look_around(&Coord::new(0, 2), 0, 4), (Coord::new(0, 2), 4));
    assert_eq!(maze.look_around(&Coord::new(0, 1), 0, 4), (Coord::new(0, 0), 0));
    assert_eq!(maze.look_around(&Coord::new(0, 1), 7, 4), (Coord::new(0, 1), 4));
    assert_eq!(maze.look_around(&Coord::new(0, 0), 0, 0), (Coord::new(0, 0), 0));
}

#[test]
fn pool_is_searched_by_value() {
    let mut img = bmp::Image::new(3, 1);
    img.set_pixel(0, 0, bmp::Pixel { r: 195, g: 195, b: 196 });
    img.set_pixel(1, 0, bmp::Pixel { r: 0, g: 0, b: 255 });
    img.set_pixel(2, 0, bmp::Pixel { r: 126, g: 127, b: 127 });
    let mut maze = Maze::from(&img);
    assert_eq!(maze.find_path(1, 1), Ok(()));
    assert_eq!(maze.find_comb(&start_key_comb()), Some(0));
    let long_empty = keycomb_unset(&keycomb_set(&start_key_comb(), 20), 20);
    assert_eq!(maze.find_comb(&long_empty), Some(0));
    let with_key = keycomb_set(&start_key_comb(), 0);
    assert_eq!(maze.find_comb(&with_key), Some(1));
    assert_eq!(maze.find_comb(&keycomb_set(&start_key_comb(), 1)), None);
    assert_eq!(maze.end(), Some((Coord::new(0, 2), 1)));
    assert_eq!(maze.pixel_at(&Coord::new(0, 2)).unwrap().key_dists.get(&1), Some(&2));
    assert_eq!(maze.pixel_at(&Coord::new(0, 2)).unwrap().key_dists.get(&0), None);
}
