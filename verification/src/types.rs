//! Basic chess types: squares, colours, piece types and moves.
use vstd::prelude::*;

verus! {

/// A square index 0..64: `a1 = 0`, `h1 = 7`, `a8 = 56`, `h8 = 63`.
pub type Square = u8;

pub open spec fn spec_file(sq: int) -> int {
    sq % 8
}

pub open spec fn spec_rank(sq: int) -> int {
    sq / 8
}

/// File (column) of a square, 0 = a .. 7 = h.
pub fn file_of(sq: Square) -> (r: u8)
    ensures
        r == spec_file(sq as int),
        r < 8,
{
    sq % 8
}

/// Rank (row) of a square, 0 = first rank .. 7 = eighth rank.
pub fn rank_of(sq: Square) -> (r: u8)
    ensures
        r == spec_rank(sq as int),
{
    sq / 8
}

/// Square on the given file and rank.
pub fn make_square(file: u8, rank: u8) -> (sq: Square)
    requires
        file < 8,
        rank < 8,
    ensures
        sq == rank * 8 + file,
        spec_file(sq as int) == file,
        spec_rank(sq as int) == rank,
{
    rank * 8 + file
}

#[derive(Clone, Copy, PartialEq, Eq, Structural, Debug)]
pub enum Color {
    White,
    Black,
}

impl Color {
    pub open spec fn idx(self) -> int {
        match self {
            Color::White => 0,
            Color::Black => 1,
        }
    }

    pub open spec fn other(self) -> Color {
        match self {
            Color::White => Color::Black,
            Color::Black => Color::White,
        }
    }

    /// Index of the colour in `[white, black]` tables.
    pub fn index(self) -> (r: usize)
        ensures
            r == self.idx(),
    {
        match self {
            Color::White => 0,
            Color::Black => 1,
        }
    }

    pub fn opposite(self) -> (r: Color)
        ensures
            r == self.other(),
    {
        match self {
            Color::White => Color::Black,
            Color::Black => Color::White,
        }
    }
}

pub open spec fn color_of_idx(i: int) -> Color {
    if i == 0 {
        Color::White
    } else {
        Color::Black
    }
}

#[derive(Clone, Copy, PartialEq, Eq, Structural, Debug)]
pub enum PieceType {
    Pawn,
    Knight,
    Bishop,
    Rook,
    Queen,
    King,
}

pub open spec fn piece_of_idx(i: int) -> PieceType {
    if i == 0 {
        PieceType::Pawn
    } else if i == 1 {
        PieceType::Knight
    } else if i == 2 {
        PieceType::Bishop
    } else if i == 3 {
        PieceType::Rook
    } else if i == 4 {
        PieceType::Queen
    } else {
        PieceType::King
    }
}

/// Lower-case letter of a piece type.
pub open spec fn piece_letter(pt: PieceType) -> char {
    match pt {
        PieceType::Pawn => 'p',
        PieceType::Knight => 'n',
        PieceType::Bishop => 'b',
        PieceType::Rook => 'r',
        PieceType::Queen => 'q',
        PieceType::King => 'k',
    }
}

pub open spec fn upper(c: char) -> char {
    ((c as u32) - 32) as char
}

/// The piece type named by a letter of either case.
pub open spec fn piece_from_letter(ch: char) -> Option<PieceType> {
    if ch == 'p' || ch == 'P' {
        Some(PieceType::Pawn)
    } else if ch == 'n' || ch == 'N' {
        Some(PieceType::Knight)
    } else if ch == 'b' || ch == 'B' {
        Some(PieceType::Bishop)
    } else if ch == 'r' || ch == 'R' {
        Some(PieceType::Rook)
    } else if ch == 'q' || ch == 'Q' {
        Some(PieceType::Queen)
    } else if ch == 'k' || ch == 'K' {
        Some(PieceType::King)
    } else {
        None
    }
}

/// The FEN letter of a piece: upper case for white, lower case for black.
pub open spec fn piece_char(pt: PieceType, color: Color) -> char {
    if color == Color::White {
        match pt {
            PieceType::Pawn => 'P',
            PieceType::Knight => 'N',
            PieceType::Bishop => 'B',
            PieceType::Rook => 'R',
            PieceType::Queen => 'Q',
            PieceType::King => 'K',
        }
    } else {
        piece_letter(pt)
    }
}

impl PieceType {
    pub open spec fn idx(self) -> int {
        match self {
            PieceType::Pawn => 0,
            PieceType::Knight => 1,
            PieceType::Bishop => 2,
            PieceType::Rook => 3,
            PieceType::Queen => 4,
            PieceType::King => 5,
        }
    }

    /// Index of the piece type in per-piece tables.
    pub fn index(self) -> (r: usize)
        ensures
            r == self.idx(),
    {
        match self {
            PieceType::Pawn => 0,
            PieceType::Knight => 1,
            PieceType::Bishop => 2,
            PieceType::Rook => 3,
            PieceType::Queen => 4,
            PieceType::King => 5,
        }
    }

    /// Piece type with the given table index.
    pub fn from_index(i: usize) -> (pt: PieceType)
        requires
            i < 6,
        ensures
            pt == piece_of_idx(i as int),
            pt.idx() == i,
    {
        if i == 0 {
            PieceType::Pawn
        } else if i == 1 {
            PieceType::Knight
        } else if i == 2 {
            PieceType::Bishop
        } else if i == 3 {
            PieceType::Rook
        } else if i == 4 {
            PieceType::Queen
        } else {
            PieceType::King
        }
    }

    /// The piece type named by a letter (either case), if any.
    pub fn from_char(ch: char) -> (r: Option<PieceType>)
        ensures
            r == piece_from_letter(ch),
    {
        if ch == 'p' || ch == 'P' {
            Some(PieceType::Pawn)
        } else if ch == 'n' || ch == 'N' {
            Some(PieceType::Knight)
        } else if ch == 'b' || ch == 'B' {
            Some(PieceType::Bishop)
        } else if ch == 'r' || ch == 'R' {
            Some(PieceType::Rook)
        } else if ch == 'q' || ch == 'Q' {
            Some(PieceType::Queen)
        } else if ch == 'k' || ch == 'K' {
            Some(PieceType::King)
        } else {
            None
        }
    }

    /// FEN letter of this piece type for the given colour.
    pub fn to_char(self, color: Color) -> (c: char)
        ensures
            c == piece_char(self, color),
    {
        match color {
            Color::White => match self {
                PieceType::Pawn => 'P',
                PieceType::Knight => 'N',
                PieceType::Bishop => 'B',
                PieceType::Rook => 'R',
                PieceType::Queen => 'Q',
                PieceType::King => 'K',
            },
            Color::Black => match self {
                PieceType::Pawn => 'p',
                PieceType::Knight => 'n',
                PieceType::Bishop => 'b',
                PieceType::Rook => 'r',
                PieceType::Queen => 'q',
                PieceType::King => 'k',
            },
        }
    }
}

#[derive(Clone, Copy, PartialEq, Eq, Structural, Debug)]
pub enum MoveFlag {
    Quiet,
    Capture,
    DoublePush,
    EnPassant,
    CastleKing,
    CastleQueen,
}

#[derive(Clone, Copy, PartialEq, Eq, Structural, Debug)]
pub struct Move {
    pub from: Square,
    pub to: Square,
    pub promotion: Option<PieceType>,
    pub flag: MoveFlag,
}

impl Move {
    pub open spec fn captures(self) -> bool {
        self.flag == MoveFlag::Capture || self.flag == MoveFlag::EnPassant
    }

    pub fn new(from: Square, to: Square, promotion: Option<PieceType>, flag: MoveFlag) -> (m: Move)
        ensures
            m == (Move { from, to, promotion, flag }),
    {
        Move { from, to, promotion, flag }
    }

    /// Whether the move takes a piece (ordinary capture or en passant).
    pub fn is_capture(&self) -> (r: bool)
        ensures
            r == self.captures(),
    {
        match self.flag {
            MoveFlag::Capture => true,
            MoveFlag::EnPassant => true,
            _ => false,
        }
    }
}

} // verus!
