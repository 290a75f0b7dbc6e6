use colorful_map::cursor::{points, Command, Cursor};
use colorful_map::error::Error;
use colorful_map::zigzag::de_zigzag;

fn zig(v: i32) -> u32 {
    ((v << 1) ^ (v >> 31)) as u32
}

fn drain(geometry: &[u32]) -> Vec<Result<Command, Error>> {
    let mut cursor = Cursor::new(geometry);
    let mut out = Vec::new();
    while let Some(item) = cursor.next() {
        out.push(item);
    }
    out
}

#[test]
fn zigzag_decodes_known_values() {
    assert_eq!(de_zigzag(0), 0);
    assert_eq!(de_zigzag(1), -1);
    assert_eq!(de_zigzag(2), 1);
    assert_eq!(de_zigzag(3), -2);
    assert_eq!(de_zigzag(4294967294), 2147483647);
    assert_eq!(de_zigzag(4294967295), -2147483648);
}

#[test]
fn zigzag_round_trip_on_samples() {
    for v in [0, 1, -1, 5, -5, 1000, -1000, i32::MAX, i32::MIN, i32::MAX - 1, i32::MIN + 1] {
        assert_eq!(de_zigzag(zig(v)), v);
    }
}

#[test]
fn single_move_to_then_end() {
    let geometry = [(1 << 3) | 1, zig(5), zig(5)];
    let mut cursor = Cursor::new(&geometry);
    assert_eq!(cursor.next(), Some(Ok(Command::MoveTo(5, 5))));
    assert_eq!(cursor.next(), None);
    assert_eq!(cursor.next(), None);
}

#[test]
fn missing_parameter_is_one_terminal_error() {
    let geometry = [(1 << 3) | 2, zig(7)];
    let mut cursor = Cursor::new(&geometry);
    assert_eq!(cursor.next(), Some(Err(Error::MalformedGeometry)));
    assert_eq!(cursor.next(), None);
    assert_eq!(cursor.next(), None);
}

#[test]
fn line_to_is_cumulative() {
    let geometry = [(2 << 3) | 2, zig(3), zig(0), zig(0), zig(4)];
    assert_eq!(
        drain(&geometry),
        vec![Ok(Command::LineTo(3, 0)), Ok(Command::LineTo(3, 4))]
    );
}

#[test]
fn position_carries_across_commands_and_close_path_keeps_it() {
    let geometry = [
        (1 << 3) | 1,
        zig(10),
        zig(-4),
        (1 << 3) | 2,
        zig(-3),
        zig(6),
        (1 << 3) | 7,
        (1 << 3) | 1,
        zig(1),
        zig(1),
    ];
    assert_eq!(
        drain(&geometry),
        vec![
            Ok(Command::MoveTo(10, -4)),
            Ok(Command::LineTo(7, 2)),
            Ok(Command::ClosePath),
            Ok(Command::MoveTo(8, 3)),
        ]
    );
}

#[test]
fn close_path_repeats_without_parameters() {
    let geometry = [(3 << 3) | 7, (1 << 3) | 1, zig(2), zig(2)];
    assert_eq!(
        drain(&geometry),
        vec![
            Ok(Command::ClosePath),
            Ok(Command::ClosePath),
            Ok(Command::ClosePath),
            Ok(Command::MoveTo(2, 2)),
        ]
    );
}

#[test]
fn unknown_command_is_terminal_error() {
    let geometry = [(1 << 3) | 1, zig(1), zig(1), (1 << 3) | 3, zig(1), zig(1)];
    assert_eq!(
        drain(&geometry),
        vec![Ok(Command::MoveTo(1, 1)), Err(Error::MalformedGeometry)]
    );
}

#[test]
fn zero_repeat_count_is_an_error() {
    let geometry = [1, zig(1), zig(1)];
    assert_eq!(drain(&geometry), vec![Err(Error::MalformedGeometry)]);
}

#[test]
fn empty_geometry_yields_nothing() {
    assert_eq!(drain(&[]), vec![]);
}

#[test]
fn points_lists_positions_up_to_the_error() {
    let geometry = [(2 << 3) | 1, zig(3), zig(4), zig(-1), zig(-1), (1 << 3) | 2, zig(1)];
    assert_eq!(points(&geometry), vec![(3, 4), (2, 3)]);
}

#[test]
fn truncated_repetition_is_an_error() {
    let geometry = [(2 << 3) | 1, zig(1), zig(2)];
    let mut cursor = Cursor::new(&geometry);
    assert_eq!(cursor.next(), Some(Ok(Command::MoveTo(1, 2))));
    assert_eq!(cursor.next(), Some(Err(Error::MalformedGeometry)));
    assert_eq!(cursor.next(), None);
}

#[test]
fn truncated_line_to_after_its_command_word_is_an_error() {
    let geometry = [(1 << 3) | 1, zig(1), zig(1), (3 << 3) | 2];
    assert_eq!(
        drain(&geometry),
        vec![Ok(Command::MoveTo(1, 1)), Err(Error::MalformedGeometry)]
    );
}

#[test]
fn pending_close_paths_finish_at_the_end() {
    let geometry = [(1 << 3) | 1, zig(1), zig(1), (2 << 3) | 7];
    assert_eq!(
        drain(&geometry),
        vec![Ok(Command::MoveTo(1, 1)), Ok(Command::ClosePath), Ok(Command::ClosePath)]
    );
}
