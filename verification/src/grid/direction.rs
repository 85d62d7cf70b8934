//! The eight directions of a grid and the turns between them.

use vstd::prelude::*;

verus! {

/// One of the eight directions in a grid.
#[derive(Clone, Copy, Debug, Default, PartialEq, Eq, Hash, Structural)]
pub enum Direction {
    #[default]
    Up,
    Right,
    Down,
    Left,
    UpLeft,
    UpRight,
    DownLeft,
    DownRight,
}

impl Direction {
    /// The place of the direction on the compass, in eighths of a full turn
    /// clockwise from `Up`.
    pub open spec fn octant(self) -> int {
        match self {
            Direction::Up => 0,
            Direction::UpRight => 1,
            Direction::Right => 2,
            Direction::DownRight => 3,
            Direction::Down => 4,
            Direction::DownLeft => 5,
            Direction::Left => 6,
            Direction::UpLeft => 7,
        }
    }

    /// The direction at a place on the compass; the places are counted
    /// round the compass, so that 8 is `Up` again.
    pub open spec fn at_octant(n: int) -> Self {
        let place = n % 8;
        if place == 0 {
            Direction::Up
        } else if place == 1 {
            Direction::UpRight
        } else if place == 2 {
            Direction::Right
        } else if place == 3 {
            Direction::DownRight
        } else if place == 4 {
            Direction::Down
        } else if place == 5 {
            Direction::DownLeft
        } else if place == 6 {
            Direction::Left
        } else {
            Direction::UpLeft
        }
    }

    /// The direction faced after turning by the given number of eighths of
    /// a full turn, to the right if it is positive and to the left if it
    /// is negative.
    pub open spec fn turned(self, eighths: int) -> Self {
        Self::at_octant(self.octant() + eighths)
    }

    /// Along an axis of the grid.
    pub open spec fn is_cardinal(self) -> bool {
        self.octant() % 2 == 0
    }

    /// The four cardinal directions, clockwise from `Up`.
    pub fn cardinal() -> (r: Vec<Self>)
        ensures
            r@ == seq![Direction::Up, Direction::Right, Direction::Down, Direction::Left],
    {
        vec![Direction::Up, Direction::Right, Direction::Down, Direction::Left]
    }

    /// The four diagonal directions.
    pub fn diagonal() -> (r: Vec<Self>)
        ensures
            r@ == seq![
                Direction::UpLeft,
                Direction::UpRight,
                Direction::DownLeft,
                Direction::DownRight,
            ],
    {
        vec![Direction::UpLeft, Direction::UpRight, Direction::DownLeft, Direction::DownRight]
    }

    /// All eight directions, the cardinal ones first.
    pub fn all() -> (r: Vec<Self>)
        ensures
            r@ == seq![
                Direction::Up,
                Direction::Right,
                Direction::Down,
                Direction::Left,
                Direction::UpLeft,
                Direction::UpRight,
                Direction::DownLeft,
                Direction::DownRight,
            ],
    {
        vec![
            Direction::Up,
            Direction::Right,
            Direction::Down,
            Direction::Left,
            Direction::UpLeft,
            Direction::UpRight,
            Direction::DownLeft,
            Direction::DownRight,
        ]
    }

    /// The direction faced after a quarter turn to the left.
    pub fn turn_left_90(self) -> (r: Self)
        ensures
            r == self.turned(-2),
    {
        match self {
            Direction::Up => Direction::Left,
            Direction::Right => Direction::Up,
            Direction::Down => Direction::Right,
            Direction::Left => Direction::Down,
            Direction::UpRight => Direction::UpLeft,
            Direction::UpLeft => Direction::DownLeft,
            Direction::DownLeft => Direction::DownRight,
            Direction::DownRight => Direction::UpRight,
        }
    }

    /// The direction faced after an eighth of a turn to the left.
    pub fn turn_left_45(self) -> (r: Self)
        ensures
            r == self.turned(-1),
    {
        match self {
            Direction::Up => Direction::UpLeft,
            Direction::UpLeft => Direction::Left,
            Direction::Left => Direction::DownLeft,
            Direction::DownLeft => Direction::Down,
            Direction::Down => Direction::DownRight,
            Direction::DownRight => Direction::Right,
            Direction::Right => Direction::UpRight,
            Direction::UpRight => Direction::Up,
        }
    }

    /// The direction faced after a quarter turn to the right.
    pub fn turn_right_90(self) -> (r: Self)
        ensures
            r == self.turned(2),
    {
        match self {
            Direction::Up => Direction::Right,
            Direction::Right => Direction::Down,
            Direction::Down => Direction::Left,
            Direction::Left => Direction::Up,
            Direction::UpRight => Direction::DownRight,
            Direction::DownRight => Direction::DownLeft,
            Direction::DownLeft => Direction::UpLeft,
            Direction::UpLeft => Direction::UpRight,
        }
    }

    /// The direction faced after an eighth of a turn to the right.
    pub fn turn_right_45(self) -> (r: Self)
        ensures
            r == self.turned(1),
    {
        match self {
            Direction::Up => Direction::UpRight,
            Direction::UpRight => Direction::Right,
            Direction::Right => Direction::DownRight,
            Direction::DownRight => Direction::Down,
            Direction::Down => Direction::DownLeft,
            Direction::DownLeft => Direction::Left,
            Direction::Left => Direction::UpLeft,
            Direction::UpLeft => Direction::Up,
        }
    }

    /// The direction faced after half a turn.
    pub fn opposite(self) -> (r: Self)
        ensures
            r == self.turned(4),
    {
        match self {
            Direction::Up => Direction::Down,
            Direction::Right => Direction::Left,
            Direction::Down => Direction::Up,
            Direction::Left => Direction::Right,
            Direction::UpRight => Direction::DownLeft,
            Direction::DownLeft => Direction::UpRight,
            Direction::DownRight => Direction::UpLeft,
            Direction::UpLeft => Direction::DownRight,
        }
    }

    /// The direction drawn as `c`: a letter of `URDL` or of `NESW`, in
    /// either case, or one of `^>v<`.
    pub fn from_char(c: char) -> (r: Option<Self>)
        ensures
            r == Self::drawn_as(c),
    {
        match c {
            'U' | 'u' | 'N' | 'n' | '^' => Some(Direction::Up),
            'R' | 'r' | 'E' | 'e' | '>' => Some(Direction::Right),
            'D' | 'd' | 'S' | 's' | 'v' => Some(Direction::Down),
            'L' | 'l' | 'W' | 'w' | '<' => Some(Direction::Left),
            _ => None,
        }
    }

    /// The cardinal direction that a character stands for.
    pub open spec fn drawn_as(c: char) -> Option<Self> {
        if c == 'U' || c == 'u' || c == 'N' || c == 'n' || c == '^' {
            Some(Direction::Up)
        } else if c == 'R' || c == 'r' || c == 'E' || c == 'e' || c == '>' {
            Some(Direction::Right)
        } else if c == 'D' || c == 'd' || c == 'S' || c == 's' || c == 'v' {
            Some(Direction::Down)
        } else if c == 'L' || c == 'l' || c == 'W' || c == 'w' || c == '<' {
            Some(Direction::Left)
        } else {
            None
        }
    }

    /// The direction that a byte stands for: its number, from 0 to 7, or
    /// the character that draws it.
    pub fn from_byte(b: u8) -> (r: Option<Self>)
        ensures
            r == Self::of_byte(b),
    {
        match b {
            0 => Some(Direction::Up),
            1 => Some(Direction::Right),
            2 => Some(Direction::Down),
            3 => Some(Direction::Left),
            4 => Some(Direction::UpLeft),
            5 => Some(Direction::UpRight),
            6 => Some(Direction::DownLeft),
            7 => Some(Direction::DownRight),
            _ => Self::from_char(b as char),
        }
    }

    /// The arrow that draws a cardinal direction; a diagonal has none.
    pub open spec fn arrow(self) -> Option<char> {
        match self {
            Direction::Up => Some('^'),
            Direction::Right => Some('>'),
            Direction::Down => Some('v'),
            Direction::Left => Some('<'),
            _ => None,
        }
    }

    /// The arrow that draws a cardinal direction; a diagonal has none. An
    /// arrow stands for the direction that it draws.
    pub fn to_char(self) -> (r: Option<char>)
        ensures
            r == self.arrow(),
            r is Some <==> self.is_cardinal(),
            r matches Some(c) ==> Self::drawn_as(c) == Some(self),
    {
        match self {
            Direction::Up => Some('^'),
            Direction::Right => Some('>'),
            Direction::Down => Some('v'),
            Direction::Left => Some('<'),
            _ => None,
        }
    }

    /// The number of the direction: 0 to 3 for up, right, down and left,
    /// 4 to 7 for the diagonals.
    pub open spec fn index(self) -> u8 {
        match self {
            Direction::Up => 0,
            Direction::Right => 1,
            Direction::Down => 2,
            Direction::Left => 3,
            Direction::UpLeft => 4,
            Direction::UpRight => 5,
            Direction::DownLeft => 6,
            Direction::DownRight => 7,
        }
    }

    /// The number of the direction, from which the direction can be had
    /// again.
    pub fn to_index(self) -> (r: u8)
        ensures
            r == self.index(),
            Self::from_index(r) == Some(self),
    {
        match self {
            Direction::Up => 0,
            Direction::Right => 1,
            Direction::Down => 2,
            Direction::Left => 3,
            Direction::UpLeft => 4,
            Direction::UpRight => 5,
            Direction::DownLeft => 6,
            Direction::DownRight => 7,
        }
    }

    /// The direction with the given number.
    pub open spec fn from_index(n: u8) -> Option<Self> {
        if n == 0 {
            Some(Direction::Up)
        } else if n == 1 {
            Some(Direction::Right)
        } else if n == 2 {
            Some(Direction::Down)
        } else if n == 3 {
            Some(Direction::Left)
        } else if n == 4 {
            Some(Direction::UpLeft)
        } else if n == 5 {
            Some(Direction::UpRight)
        } else if n == 6 {
            Some(Direction::DownLeft)
        } else if n == 7 {
            Some(Direction::DownRight)
        } else {
            None
        }
    }

    /// Turns add up: turning by `a` eighths and then by `b` is turning by
    /// `a + b`, a full turn changes nothing, and so turning left undoes
    /// turning right by as much.
    pub proof fn lemma_turns_add(self, a: int, b: int)
        ensures
            self.turned(a).turned(b) == self.turned(a + b),
            self.turned(0) == self,
            self.turned(a + 8) == self.turned(a),
            self.turned(a).turned(-a) == self,
    {
    }
}

impl Direction {
    /// What `from_byte` gives, as a specification.
    pub open spec fn of_byte(b: u8) -> Option<Self> {
        if b < 8 {
            Self::from_index(b)
        } else {
            Self::drawn_as(b as char)
        }
    }
}

impl TryFrom<char> for Direction {
    type Error = ();

    /// The direction drawn as `c`.
    fn try_from(c: char) -> (r: Result<Self, ()>) {
        match Direction::from_char(c) {
            Some(d) => Ok(d),
            None => Err(()),
        }
    }
}

impl vstd::std_specs::convert::TryFromSpecImpl<char> for Direction {
    open spec fn obeys_try_from_spec() -> bool {
        true
    }

    open spec fn try_from_spec(c: char) -> Result<Self, ()> {
        match Direction::drawn_as(c) {
            Some(d) => Ok(d),
            None => Err(()),
        }
    }
}

impl TryFrom<u8> for Direction {
    type Error = ();

    /// The direction that the byte stands for, by number or by character.
    fn try_from(b: u8) -> (r: Result<Self, ()>) {
        match Direction::from_byte(b) {
            Some(d) => Ok(d),
            None => Err(()),
        }
    }
}

impl vstd::std_specs::convert::TryFromSpecImpl<u8> for Direction {
    open spec fn obeys_try_from_spec() -> bool {
        true
    }

    open spec fn try_from_spec(b: u8) -> Result<Self, ()> {
        match Direction::of_byte(b) {
            Some(d) => Ok(d),
            None => Err(()),
        }
    }
}

impl TryFrom<Direction> for char {
    type Error = ();

    /// The arrow that draws a cardinal direction.
    fn try_from(dir: Direction) -> (r: Result<char, ()>) {
        match dir.to_char() {
            Some(c) => Ok(c),
            None => Err(()),
        }
    }
}

impl vstd::std_specs::convert::TryFromSpecImpl<Direction> for char {
    open spec fn obeys_try_from_spec() -> bool {
        true
    }

    open spec fn try_from_spec(dir: Direction) -> Result<char, ()> {
        match dir.arrow() {
            Some(c) => Ok(c),
            None => Err(()),
        }
    }
}

impl From<Direction> for u8 {
    /// The number of the direction.
    fn from(dir: Direction) -> (r: u8) {
        dir.to_index()
    }
}

impl vstd::std_specs::convert::FromSpecImpl<Direction> for u8 {
    open spec fn obeys_from_spec() -> bool {
        true
    }

    open spec fn from_spec(dir: Direction) -> u8 {
        dir.index()
    }
}

impl From<Direction> for usize {
    /// The number of the direction.
    fn from(dir: Direction) -> (r: usize) {
        dir.to_index() as usize
    }
}

impl vstd::std_specs::convert::FromSpecImpl<Direction> for usize {
    open spec fn obeys_from_spec() -> bool {
        true
    }

    open spec fn from_spec(dir: Direction) -> usize {
        dir.index() as usize
    }
}

impl TryFrom<usize> for Direction {
    type Error = ();

    /// The direction that the lowest byte of `n` stands for.
    fn try_from(n: usize) -> (r: Result<Self, ()>) {
        match Direction::from_byte((n & 0xff) as u8) {
            Some(d) => Ok(d),
            None => Err(()),
        }
    }
}

impl vstd::std_specs::convert::TryFromSpecImpl<usize> for Direction {
    open spec fn obeys_try_from_spec() -> bool {
        true
    }

    open spec fn try_from_spec(n: usize) -> Result<Self, ()> {
        match Direction::of_byte((n & 0xff) as u8) {
            Some(d) => Ok(d),
            None => Err(()),
        }
    }
}

} // verus!
