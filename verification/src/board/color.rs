use vstd::prelude::*;

verus! {

/// The colour of a bullet, and of the player who drops it.
#[derive(Clone, Copy, PartialEq, Eq, Structural, Hash, Debug)]
pub struct Color {
    pub value: u8,
}

/// The value of green, the colour of the player who registers second.
pub const GREEN: u8 = 0;

/// The value of red, the colour of the player who registers first.
pub const RED: u8 = 1;

/// The colours that a board keeps a score for.
pub open spec fn is_player_color(value: u8) -> bool {
    value == GREEN || value == RED
}

impl Color {
    pub fn green() -> (c: Color)
        ensures
            c.value == GREEN,
    {
        Color { value: GREEN }
    }

    pub fn red() -> (c: Color)
        ensures
            c.value == RED,
    {
        Color { value: RED }
    }

    pub fn from_u8(color: u8) -> (r: Option<Color>)
        ensures
            r is Some <==> is_player_color(color),
            r matches Some(c) ==> c.value == color,
    {
        match color {
            0 => Some(Color::green()),
            1 => Some(Color::red()),
            _ => None,
        }
    }

    /// The one-letter mark of the colour on a printed board.
    pub fn to_string(&self) -> (s: String)
        ensures
            self.value == 0 ==> s@ == seq!['G'],
            self.value == 1 ==> s@ == seq!['R'],
            !is_player_color(self.value) ==> s@ == Seq::<char>::empty(),
    {
        proof {
            reveal_strlit("G");
            reveal_strlit("R");
            reveal_strlit("");
        }
        match self.value {
            0 => "G".to_string(),
            1 => "R".to_string(),
            _ => "".to_string(),
        }
    }

    /// The name of the colour, as a player is told it.
    pub fn name(&self) -> (s: String)
        ensures
            self.value == 0 ==> s@ == seq!['G', 'r', 'e', 'e', 'n'],
            self.value == 1 ==> s@ == seq!['R', 'e', 'd'],
            !is_player_color(self.value) ==> s@ == Seq::<char>::empty(),
    {
        proof {
            reveal_strlit("Green");
            reveal_strlit("Red");
            reveal_strlit("");
        }
        match self.value {
            0 => "Green".to_string(),
            1 => "Red".to_string(),
            _ => "".to_string(),
        }
    }
}

} // verus!
