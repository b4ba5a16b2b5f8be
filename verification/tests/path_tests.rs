use utreexo::{Direction, Path};

#[test]
fn check_path_height() {
    let path = Path::for_height_and_num(3, 0);
    assert_eq!(3, path.height());
}

#[test]
fn check_path_directions() {
    let path = Path::for_height_and_num(3, 0);

    let mut directions = path.directions().into_iter();

    assert_eq!(Some(Direction::Right), directions.next());
    assert_eq!(Some(Direction::Right), directions.next());
    assert_eq!(Some(Direction::Right), directions.next());
    assert_eq!(None, directions.next());
}

#[test]
fn check_path_for_height_and_num() {
    let path = Path::for_height_and_num(3, 4);

    let mut directions = path.directions().into_iter();

    assert_eq!(Some(Direction::Right), directions.next());
    assert_eq!(Some(Direction::Right), directions.next());
    assert_eq!(Some(Direction::Left), directions.next());
    assert_eq!(None, directions.next());
}

#[test]
fn check_direction_conversions() {
    assert_eq!(Direction::Right, !Direction::Left);
    assert_eq!(Direction::Left, !Direction::Right);
    assert_eq!(Direction::Right, false.into());
    assert_eq!(Direction::Left, true.into());
}

#[test]
fn check_path_bits_match_directions() {
    let path = Path::for_height_and_num(4, 11);
    // 11 is binary 1011: bits from leaf to root are 1, 1, 0, 1.
    assert!(path.bit(0));
    assert!(path.bit(1));
    assert!(!path.bit(2));
    assert!(path.bit(3));
    assert_eq!(4, path.height());
}
