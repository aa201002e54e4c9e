//! Basic game data: piece kinds, players, pieces, board slots and structured moves.

use vstd::prelude::*;
use vstd::string::StringExecFns;

verus! {

/// Piece kinds, listed from the lowest to the highest rank.
#[derive(Debug, Clone, Copy, PartialEq, Eq, Hash, Structural)]
pub enum PieceType {
    Soldier,
    Cannon,
    Horse,
    Chariot,
    Elephant,
    Advisor,
    General,
}

/// Rank index of a piece kind (0 for the soldier up to 6 for the general).
pub open spec fn type_index(t: PieceType) -> nat {
    match t {
        PieceType::Soldier => 0,
        PieceType::Cannon => 1,
        PieceType::Horse => 2,
        PieceType::Chariot => 3,
        PieceType::Elephant => 4,
        PieceType::Advisor => 5,
        PieceType::General => 6,
    }
}

/// The piece kind with a given rank index (the inverse of `type_index` on `0..7`).
pub open spec fn type_of_index(i: nat) -> PieceType {
    if i == 0 {
        PieceType::Soldier
    } else if i == 1 {
        PieceType::Cannon
    } else if i == 2 {
        PieceType::Horse
    } else if i == 3 {
        PieceType::Chariot
    } else if i == 4 {
        PieceType::Elephant
    } else if i == 5 {
        PieceType::Advisor
    } else {
        PieceType::General
    }
}

pub proof fn lemma_type_index_roundtrip(t: PieceType)
    ensures
        type_index(t) < 7,
        type_of_index(type_index(t)) == t,
{
}

impl Default for PieceType {
    fn default() -> (r: Self)
        ensures
            r == PieceType::Soldier,
    {
        PieceType::Soldier
    }
}

impl PieceType {
    /// Builds a piece kind from its rank index (`0..7`, in declaration order).
    pub fn from_index(idx: usize) -> (r: Self)
        requires
            idx < 7,
        ensures
            type_index(r) == idx,
            r == type_of_index(idx as nat),
    {
        match idx {
            0 => PieceType::Soldier,
            1 => PieceType::Cannon,
            2 => PieceType::Horse,
            3 => PieceType::Chariot,
            4 => PieceType::Elephant,
            5 => PieceType::Advisor,
            _ => PieceType::General,
        }
    }

    /// Rank index of this piece kind.
    pub fn index(&self) -> (r: usize)
        ensures
            r == type_index(*self),
    {
        match self {
            PieceType::Soldier => 0,
            PieceType::Cannon => 1,
            PieceType::Horse => 2,
            PieceType::Chariot => 3,
            PieceType::Elephant => 4,
            PieceType::Advisor => 5,
            PieceType::General => 6,
        }
    }
}

/// A structured move or flip, derived from the action mask for move ordering.
#[derive(Clone, Copy, Debug, PartialEq, Eq, Structural)]
pub struct Move {
    /// Index in the action space.
    pub action: usize,
    /// Source square (equal to `to` for a flip).
    pub from: usize,
    /// Target square.
    pub to: usize,
    /// The target is a hidden piece (a flip, or a cannon shot at a hidden piece).
    pub is_chance: bool,
    /// The target is a revealed piece of the opponent.
    pub is_capture: bool,
    /// A plain flip.
    pub is_flip: bool,
}

/// The two sides. Red moves first and counts as `+1`, Black as `-1`.
#[derive(Debug, Clone, Copy, PartialEq, Eq, Hash, Structural)]
pub enum Player {
    Red,
    Black,
}

/// Signed value of a player: `1` for Red, `-1` for Black.
pub open spec fn player_val(p: Player) -> int {
    match p {
        Player::Red => 1,
        Player::Black => -1,
    }
}

/// Array index of a player: `0` for Red, `1` for Black.
pub open spec fn player_idx(p: Player) -> nat {
    match p {
        Player::Red => 0,
        Player::Black => 1,
    }
}

/// The other player.
pub open spec fn player_opposite(p: Player) -> Player {
    match p {
        Player::Red => Player::Black,
        Player::Black => Player::Red,
    }
}

impl Player {
    pub fn opposite(&self) -> (r: Self)
        ensures
            r == player_opposite(*self),
            r != *self,
    {
        match self {
            Player::Red => Player::Black,
            Player::Black => Player::Red,
        }
    }

    pub fn val(&self) -> (r: i32)
        ensures
            r == player_val(*self),
    {
        match self {
            Player::Red => 1,
            Player::Black => -1,
        }
    }

    pub fn idx(&self) -> (r: usize)
        ensures
            r == player_idx(*self),
            r < 2,
    {
        match self {
            Player::Red => 0,
            Player::Black => 1,
        }
    }
}

/// The player with a given array index (`0` is Red, anything else Black).
pub open spec fn player_of_idx(i: nat) -> Player {
    if i == 0 {
        Player::Red
    } else {
        Player::Black
    }
}

/// A piece: its kind and its owner.
#[derive(Debug, Clone, Copy, PartialEq, Eq, Structural)]
pub struct Piece {
    pub piece_type: PieceType,
    pub player: Player,
}

impl Default for Piece {
    fn default() -> (r: Self)
        ensures
            r == (Piece { piece_type: PieceType::Soldier, player: Player::Red }),
    {
        Piece { piece_type: PieceType::Soldier, player: Player::Red }
    }
}

/// Letter that names a player in a short piece name.
pub open spec fn player_tag(p: Player) -> Seq<char> {
    match p {
        Player::Red => "R"@,
        Player::Black => "B"@,
    }
}

/// Three-letter abbreviation of a piece kind in a short piece name.
pub open spec fn type_tag(t: PieceType) -> Seq<char> {
    match t {
        PieceType::General => "Gen"@,
        PieceType::Cannon => "Can"@,
        PieceType::Horse => "Hor"@,
        PieceType::Chariot => "Cha"@,
        PieceType::Elephant => "Ele"@,
        PieceType::Advisor => "Adv"@,
        PieceType::Soldier => "Sol"@,
    }
}

impl Piece {
    pub fn new(piece_type: PieceType, player: Player) -> (r: Self)
        ensures
            r.piece_type == piece_type,
            r.player == player,
    {
        Piece { piece_type, player }
    }

    /// Short name such as `R_Gen` or `B_Sol`: the player letter, an underscore,
    /// and the kind's abbreviation.
    pub fn short_name(&self) -> (r: String)
        ensures
            r@ == player_tag(self.player) + "_"@ + type_tag(self.piece_type),
    {
        let p_char: &str = match self.player {
            Player::Red => "R",
            Player::Black => "B",
        };
        let t_char: &str = match self.piece_type {
            PieceType::General => "Gen",
            PieceType::Cannon => "Can",
            PieceType::Horse => "Hor",
            PieceType::Chariot => "Cha",
            PieceType::Elephant => "Ele",
            PieceType::Advisor => "Adv",
            PieceType::Soldier => "Sol",
        };
        String::from_str(p_char).concat("_").concat(t_char)
    }
}

/// State of one board square.
#[derive(Debug, Clone, Copy, PartialEq, Eq, Structural)]
pub enum Slot {
    /// No piece.
    Empty,
    /// A face-down piece.
    Hidden,
    /// A face-up piece.
    Revealed(Piece),
}

} // verus!
