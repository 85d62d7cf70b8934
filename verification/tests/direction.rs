use utility_belt::grid::direction::Direction;

#[test]
fn the_lists_of_directions() {
    assert_eq!(
        Direction::cardinal(),
        vec![Direction::Up, Direction::Right, Direction::Down, Direction::Left]
    );
    assert_eq!(
        Direction::diagonal(),
        vec![Direction::UpLeft, Direction::UpRight, Direction::DownLeft, Direction::DownRight]
    );
    let all = Direction::all();
    assert_eq!(all.len(), 8);
    assert_eq!(&all[..4], &Direction::cardinal()[..]);
    assert_eq!(&all[4..], &Direction::diagonal()[..]);
    assert_eq!(Direction::default(), Direction::Up);
}

#[test]
fn quarter_turns() {
    assert_eq!(Direction::Up.turn_left_90(), Direction::Left);
    assert_eq!(Direction::Up.turn_right_90(), Direction::Right);
    assert_eq!(Direction::UpRight.turn_left_90(), Direction::UpLeft);
    assert_eq!(Direction::UpRight.turn_right_90(), Direction::DownRight);
    assert_eq!(Direction::DownLeft.turn_left_90(), Direction::DownRight);
    assert_eq!(Direction::Left.opposite(), Direction::Right);
    assert_eq!(Direction::UpLeft.opposite(), Direction::DownRight);
}

#[test]
fn eighth_turns() {
    assert_eq!(Direction::Up.turn_left_45(), Direction::UpLeft);
    assert_eq!(Direction::Up.turn_right_45(), Direction::UpRight);
    assert_eq!(Direction::Left.turn_right_45(), Direction::UpLeft);
    assert_eq!(Direction::DownRight.turn_left_45(), Direction::Right);
}

#[test]
fn turns_undo_each_other() {
    for d in Direction::all() {
        assert_eq!(d.turn_left_45().turn_right_45(), d);
        assert_eq!(d.turn_right_45().turn_left_45(), d);
        assert_eq!(d.turn_left_90().turn_right_90(), d);
        assert_eq!(d.turn_right_45().turn_right_45(), d.turn_right_90());
        assert_eq!(d.turn_left_45().turn_left_45(), d.turn_left_90());
        assert_eq!(d.turn_right_90().turn_right_90(), d.opposite());
        assert_eq!(d.opposite().opposite(), d);
    }
}

#[test]
fn directions_as_characters_and_numbers() {
    for c in ['U', 'u', 'N', 'n', '^'] {
        assert_eq!(Direction::from_char(c), Some(Direction::Up));
    }
    for c in ['R', 'r', 'E', 'e', '>'] {
        assert_eq!(Direction::from_char(c), Some(Direction::Right));
    }
    for c in ['D', 'd', 'S', 's', 'v'] {
        assert_eq!(Direction::from_char(c), Some(Direction::Down));
    }
    for c in ['L', 'l', 'W', 'w', '<'] {
        assert_eq!(Direction::from_char(c), Some(Direction::Left));
    }
    assert_eq!(Direction::from_char('x'), None);
    assert_eq!(Direction::Down.to_char(), Some('v'));
    assert_eq!(Direction::UpLeft.to_char(), None);
    let numbers: Vec<u8> = Direction::all().into_iter().map(|d| d.to_index()).collect();
    assert_eq!(numbers, vec![0, 1, 2, 3, 4, 5, 6, 7]);
}

#[test]
fn directions_from_bytes() {
    assert_eq!(Direction::from_byte(0), Some(Direction::Up));
    assert_eq!(Direction::from_byte(3), Some(Direction::Left));
    assert_eq!(Direction::from_byte(4), Some(Direction::UpLeft));
    assert_eq!(Direction::from_byte(7), Some(Direction::DownRight));
    assert_eq!(Direction::from_byte(8), None);
    assert_eq!(Direction::from_byte(b'e'), Some(Direction::Right));
    assert_eq!(Direction::from_byte(b'v'), Some(Direction::Down));
    assert_eq!(Direction::from_byte(b'W'), Some(Direction::Left));
    assert_eq!(Direction::from_byte(b'V'), None);
    assert_eq!(Direction::from_byte(200), None);
}

#[test]
fn conversions_by_the_standard_traits() {
    assert_eq!(Direction::try_from('N'), Ok(Direction::Up));
    assert_eq!(Direction::try_from('?'), Err(()));
    assert_eq!(Direction::try_from(6u8), Ok(Direction::DownLeft));
    assert_eq!(Direction::try_from(b'<'), Ok(Direction::Left));
    assert_eq!(Direction::try_from(9u8), Err(()));
    assert_eq!(Direction::try_from(5usize), Ok(Direction::UpRight));
    // Only the lowest byte of a number counts.
    assert_eq!(Direction::try_from(256usize + 2), Ok(Direction::Down));
    assert_eq!(Direction::try_from(1000usize), Err(()));
    assert_eq!(char::try_from(Direction::Right), Ok('>'));
    assert_eq!(char::try_from(Direction::DownRight), Err(()));
    assert_eq!(u8::from(Direction::UpLeft), 4);
    assert_eq!(usize::from(Direction::DownRight), 7);
    for d in Direction::all() {
        assert_eq!(Direction::try_from(u8::from(d)), Ok(d));
        assert_eq!(Direction::try_from(usize::from(d)), Ok(d));
    }
}
