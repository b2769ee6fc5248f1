//! The cell vocabulary of the textual level format.

use vstd::prelude::*;

verus! {

/// What a single character of a level file denotes.
#[derive(Copy, Clone, Eq, PartialEq, Structural, Debug)]
pub enum CellState {
    Empty,
    Wall,
    Player,
    Box,
    Destination,
    BoxOnDestination,
    PlayerOnDestination,
}

/// Why a level could not be turned into a board.
#[derive(Copy, Clone, Eq, PartialEq, Structural, Debug)]
pub enum InputError {
    /// The level text contains a character outside the cell vocabulary.
    UnknownChar(char),
    /// The level has no player marker.
    MissingPlayer,
}

/// The cell that a level character stands for, if any. Exactly the seven
/// known cell kinds parse; everything else is an error.
pub open spec fn spec_cell_of_char(c: char) -> Option<CellState> {
    if c == ' ' || c == '-' || c == '_' {
        Some(CellState::Empty)
    } else if c == '#' {
        Some(CellState::Wall)
    } else if c == '@' {
        Some(CellState::Player)
    } else if c == '$' {
        Some(CellState::Box)
    } else if c == '.' {
        Some(CellState::Destination)
    } else if c == '*' {
        Some(CellState::BoxOnDestination)
    } else if c == '+' {
        Some(CellState::PlayerOnDestination)
    } else {
        None
    }
}

/// The display character of a cell.
pub open spec fn spec_char_of_cell(s: CellState) -> char {
    match s {
        CellState::Empty => ' ',
        CellState::Wall => '#',
        CellState::Player => '@',
        CellState::Box => '$',
        CellState::Destination => '.',
        CellState::BoxOnDestination => '*',
        CellState::PlayerOnDestination => '+',
    }
}

impl CellState {
    pub fn from_char(c: char) -> (r: Result<Self, InputError>)
        ensures
            spec_cell_of_char(c) is Some ==> r == Ok::<CellState, InputError>(
                spec_cell_of_char(c)->0,
            ),
            spec_cell_of_char(c) is None ==> r == Err::<CellState, InputError>(
                InputError::UnknownChar(c),
            ),
    {
        match c {
            ' ' | '-' | '_' => Ok(CellState::Empty),
            '#' => Ok(CellState::Wall),
            '@' => Ok(CellState::Player),
            '$' => Ok(CellState::Box),
            '.' => Ok(CellState::Destination),
            '*' => Ok(CellState::BoxOnDestination),
            '+' => Ok(CellState::PlayerOnDestination),
            _ => Err(InputError::UnknownChar(c)),
        }
    }

    pub fn to_char(self) -> (r: char)
        ensures
            r == spec_char_of_cell(self),
    {
        match self {
            CellState::Empty => ' ',
            CellState::Wall => '#',
            CellState::Player => '@',
            CellState::Box => '$',
            CellState::Destination => '.',
            CellState::BoxOnDestination => '*',
            CellState::PlayerOnDestination => '+',
        }
    }

    pub open spec fn spec_is_wall(self) -> bool {
        self is Wall
    }

    /// Destinations keep counting as destinations while a box or the player
    /// stands on them.
    pub open spec fn spec_is_destination(self) -> bool {
        self is Destination || self is BoxOnDestination || self is PlayerOnDestination
    }

    pub open spec fn spec_is_box(self) -> bool {
        self is Box || self is BoxOnDestination
    }

    pub open spec fn spec_is_player(self) -> bool {
        self is Player || self is PlayerOnDestination
    }

    pub fn is_wall(self) -> (r: bool)
        ensures
            r == self.spec_is_wall(),
    {
        self == CellState::Wall
    }

    pub fn is_destination(self) -> (r: bool)
        ensures
            r == self.spec_is_destination(),
    {
        match self {
            CellState::Destination => true,
            CellState::BoxOnDestination => true,
            CellState::PlayerOnDestination => true,
            _ => false,
        }
    }

    pub fn is_box(self) -> (r: bool)
        ensures
            r == self.spec_is_box(),
    {
        match self {
            CellState::Box => true,
            CellState::BoxOnDestination => true,
            _ => false,
        }
    }

    pub fn is_player(self) -> (r: bool)
        ensures
            r == self.spec_is_player(),
    {
        match self {
            CellState::Player => true,
            CellState::PlayerOnDestination => true,
            _ => false,
        }
    }
}

/// Parsing is injective on its domain: `to_char` undoes `from_char`.
/// (The three spellings of an empty cell all print back as a space.)
pub proof fn lemma_char_cell_round_trip(s: CellState)
    ensures
        spec_cell_of_char(spec_char_of_cell(s)) == Some(s),
{
}

} // verus!
