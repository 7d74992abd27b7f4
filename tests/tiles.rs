use archetype_ecs::frames::{frame_number, frame_order};
use archetype_ecs::tilemap::{parse_token, split_bytes, split_lines, MapError, TileGrid};
use archetype_ecs::tiles::{quarter, quarters, Subtile};

fn rows(g: &TileGrid) -> Vec<Vec<usize>> {
    (0..g.height())
        .map(|y| (0..g.row_len(y).unwrap()).map(|x| g.get(x, y).unwrap()).collect())
        .collect()
}

#[test]
fn map_text_is_read_row_by_row() {
    let g = TileGrid::parse("0 1 0\n1 1 0\n").unwrap();
    assert_eq!(rows(&g), vec![vec![0, 1, 0], vec![1, 1, 0]]);
    assert_eq!(g.get(3, 0), None);
    assert_eq!(g.get(0, 2), None);
    let g = TileGrid::parse("1\r\n+2").unwrap();
    assert_eq!(rows(&g), vec![vec![1], vec![2]]);
}

#[test]
fn bad_map_text_is_rejected() {
    assert_eq!(TileGrid::parse("").err(), Some(MapError::Empty));
    assert_eq!(
        TileGrid::parse("0 1\n0 x").err(),
        Some(MapError::InvalidTileId { line: 1, column: 1 })
    );
    assert_eq!(
        TileGrid::parse("0  1").err(),
        Some(MapError::InvalidTileId { line: 0, column: 1 })
    );
    assert_eq!(
        TileGrid::parse("\n").err(),
        Some(MapError::InvalidTileId { line: 0, column: 0 })
    );
    assert_eq!(
        TileGrid::parse("1\r").err(),
        Some(MapError::InvalidTileId { line: 0, column: 0 })
    );
}

#[test]
fn tokens_read_as_usize_from_str_does() {
    assert_eq!(parse_token(b"42"), Some(42));
    assert_eq!(parse_token(b"+42"), Some(42));
    assert_eq!(parse_token(b"007"), Some(7));
    assert_eq!(parse_token(b""), None);
    assert_eq!(parse_token(b"+"), None);
    assert_eq!(parse_token(b"-1"), None);
    assert_eq!(parse_token(b"4 2"), None);
    let max = usize::MAX.to_string();
    assert_eq!(parse_token(max.as_bytes()), Some(usize::MAX));
    let over = format!("{}0", usize::MAX);
    assert_eq!(parse_token(over.as_bytes()), None);
}

#[test]
fn splitting_keeps_empty_pieces() {
    assert_eq!(split_bytes(b"a b", b' '), vec![b"a".to_vec(), b"b".to_vec()]);
    assert_eq!(split_bytes(b"", b' '), vec![Vec::<u8>::new()]);
    assert_eq!(split_bytes(b" a ", b' '), vec![vec![], b"a".to_vec(), vec![]]);
    assert_eq!(split_lines(b"x\r\ny\n"), vec![b"x".to_vec(), b"y".to_vec()]);
    assert_eq!(split_lines(b""), Vec::<Vec<u8>>::new());
    assert_eq!(split_lines(b"a\n\nb\r"), vec![b"a".to_vec(), vec![], b"b\r".to_vec()]);
}

#[test]
fn neighbours_of_the_same_kind() {
    let g = TileGrid::parse("0 0 1\n1 0 0\n0 1 0").unwrap();
    assert_eq!(
        g.same_neighbours(1, 1),
        [[true, true, false], [false, false, true], [true, false, true]]
    );
    assert_eq!(
        g.same_neighbours(0, 0),
        [[false, false, false], [false, false, true], [false, false, true]]
    );
    let ragged = TileGrid::parse("5 5 5\n5").unwrap();
    assert_eq!(
        ragged.same_neighbours(0, 1),
        [[false, true, true], [false, false, false], [false, false, false]]
    );
}

#[test]
fn quarter_choice_follows_neighbours() {
    assert_eq!(quarter(false, false, false), Subtile::All);
    assert_eq!(quarter(false, true, true), Subtile::Horizontal);
    assert_eq!(quarter(true, false, true), Subtile::Vertical);
    assert_eq!(quarter(true, true, false), Subtile::Corners);
    assert_eq!(quarter(true, true, true), Subtile::Unbordered);
    let n = [[true, true, false], [true, false, false], [false, false, false]];
    assert_eq!(
        quarters(&n),
        [Subtile::Unbordered, Subtile::Vertical, Subtile::Horizontal, Subtile::All]
    );
}

#[test]
fn frame_numbers_come_from_the_first_digit_run() {
    assert_eq!(frame_number("walk_12"), Some(12));
    assert_eq!(frame_number("a1b22"), Some(1));
    assert_eq!(frame_number("0007"), Some(7));
    assert_eq!(frame_number("still"), None);
    assert_eq!(frame_number("x4294967295"), Some(u32::MAX));
    assert_eq!(frame_number("x4294967296"), None);
}

#[test]
fn frames_are_ordered_by_number_then_position() {
    let names: Vec<String> = ["f10", "f2", "g2", "f1"].iter().map(|s| s.to_string()).collect();
    assert_eq!(frame_order(&names), Some(vec![3, 1, 2, 0]));
    let names: Vec<String> = ["f1", "none"].iter().map(|s| s.to_string()).collect();
    assert_eq!(frame_order(&names), None);
    assert_eq!(frame_order(&[]), Some(vec![]));
}
