//! Players and pieces.
use vstd::prelude::*;

verus! {

/// The two players.
#[derive(Debug, Clone, Copy, PartialEq, Eq, Structural, Hash)]
pub enum Color {
    Red,
    Green,
}

impl Color {
    pub open spec fn spec_toggle(self) -> Color {
        match self {
            Color::Red => Color::Green,
            Color::Green => Color::Red,
        }
    }

    /// The other player.
    pub fn toggle(self) -> (r: Color)
        ensures
            r == self.spec_toggle(),
            r != self,
    {
        match self {
            Color::Red => Color::Green,
            Color::Green => Color::Red,
        }
    }
}

/// The six kinds of pieces (doves).
#[derive(Debug, Clone, Copy, PartialEq, Eq, Structural, Hash)]
pub enum Dove {
    /// The boss: its owner loses when it is surrounded.
    B,
    A,
    Y,
    M,
    T,
    H,
}

pub open spec fn spec_color_index(color: Color) -> usize {
    match color {
        Color::Red => 0,
        Color::Green => 1,
    }
}

pub open spec fn spec_dove_index(dove: Dove) -> usize {
    match dove {
        Dove::B => 0,
        Dove::A => 1,
        Dove::Y => 2,
        Dove::M => 3,
        Dove::T => 4,
        Dove::H => 5,
    }
}

pub fn color_to_index(color: Color) -> (r: usize)
    ensures
        r == spec_color_index(color),
        r < 2,
{
    match color {
        Color::Red => 0,
        Color::Green => 1,
    }
}

pub fn dove_to_index(dove: Dove) -> (r: usize)
    ensures
        r == spec_dove_index(dove),
        r < 6,
{
    match dove {
        Dove::B => 0,
        Dove::A => 1,
        Dove::Y => 2,
        Dove::M => 3,
        Dove::T => 4,
        Dove::H => 5,
    }
}

/// The letter of a piece: upper case for red, lower case for green.
pub open spec fn spec_piece_char(color: Color, dove: Dove) -> char {
    let upper = match dove {
        Dove::B => 'B',
        Dove::A => 'A',
        Dove::Y => 'Y',
        Dove::M => 'M',
        Dove::T => 'T',
        Dove::H => 'H',
    };
    let lower = match dove {
        Dove::B => 'b',
        Dove::A => 'a',
        Dove::Y => 'y',
        Dove::M => 'm',
        Dove::T => 't',
        Dove::H => 'h',
    };
    match color {
        Color::Red => upper,
        Color::Green => lower,
    }
}

pub fn color_dove_to_char(color: Color, dove: Dove) -> (r: char)
    ensures
        r == spec_piece_char(color, dove),
{
    match (color, dove) {
        (Color::Red, Dove::B) => 'B',
        (Color::Green, Dove::B) => 'b',
        (Color::Red, Dove::A) => 'A',
        (Color::Green, Dove::A) => 'a',
        (Color::Red, Dove::Y) => 'Y',
        (Color::Green, Dove::Y) => 'y',
        (Color::Red, Dove::M) => 'M',
        (Color::Green, Dove::M) => 'm',
        (Color::Red, Dove::T) => 'T',
        (Color::Green, Dove::T) => 't',
        (Color::Red, Dove::H) => 'H',
        (Color::Green, Dove::H) => 'h',
    }
}

/// The piece that a letter stands for, if any.
pub fn try_char_to_color_dove(c: char) -> (r: Option<(Color, Dove)>)
    ensures
        r.is_some() ==> spec_piece_char(r.unwrap().0, r.unwrap().1) == c,
        r.is_none() ==> forall|color: Color, dove: Dove| spec_piece_char(color, dove) != c,
{
    let color_dove = match c {
        'B' => (Color::Red, Dove::B),
        'b' => (Color::Green, Dove::B),
        'A' => (Color::Red, Dove::A),
        'a' => (Color::Green, Dove::A),
        'Y' => (Color::Red, Dove::Y),
        'y' => (Color::Green, Dove::Y),
        'M' => (Color::Red, Dove::M),
        'm' => (Color::Green, Dove::M),
        'T' => (Color::Red, Dove::T),
        't' => (Color::Green, Dove::T),
        'H' => (Color::Red, Dove::H),
        'h' => (Color::Green, Dove::H),
        _ => {
            return None;
        },
    };
    Some(color_dove)
}

} // verus!
