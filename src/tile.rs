use vstd::prelude::*;
use crate::errors::{ParseError, ParseResult};

verus! {

/// A cell coordinate. Coordinates outside the board occur while walking a
/// direction; only in-bounds tiles name a cell.
#[derive(Clone, Copy, Debug, PartialEq, Eq, Structural)]
pub struct Tile {
    pub row: i8,
    pub col: i8,
}

/// A row or column index lies on the board.
pub open spec fn on_board(x: int) -> bool {
    0 <= x < 8
}

impl Tile {
    /// The tile names a cell of the board.
    pub open spec fn valid(self) -> bool {
        on_board(self.row as int) && on_board(self.col as int)
    }

    /// The index of the tile's cell, row-major.
    pub open spec fn index(self) -> int {
        self.row as int * 8 + self.col as int
    }

    pub fn new(row: i8, col: i8) -> (r: Tile)
        ensures
            r.row == row,
            r.col == col,
    {
        Tile { row, col }
    }

    pub fn from_index(index: usize) -> (r: Tile)
        requires
            index < 64,
        ensures
            r.valid(),
            r.index() == index,
            r.row == index / 8,
            r.col == index % 8,
    {
        let row = (index / 8) as i8;
        let col = (index % 8) as i8;
        Tile { row, col }
    }

    pub fn in_bounds(&self) -> (r: bool)
        ensures
            r == self.valid(),
    {
        self.row >= 0 && self.col >= 0 && self.row < 8 && self.col < 8
    }
}


/// The text of a tile's column: `a` to `h`.
pub open spec fn column_letter(c: int) -> char {
    if c == 0 {
        'a'
    } else if c == 1 {
        'b'
    } else if c == 2 {
        'c'
    } else if c == 3 {
        'd'
    } else if c == 4 {
        'e'
    } else if c == 5 {
        'f'
    } else if c == 6 {
        'g'
    } else {
        'h'
    }
}

/// The text of a tile's row: `1` to `8`.
pub open spec fn row_digit(r: int) -> char {
    if r == 0 {
        '1'
    } else if r == 1 {
        '2'
    } else if r == 2 {
        '3'
    } else if r == 3 {
        '4'
    } else if r == 4 {
        '5'
    } else if r == 5 {
        '6'
    } else if r == 6 {
        '7'
    } else {
        '8'
    }
}

/// Two characters name a cell: a column letter `a`-`h`, then a row digit `1`-`8`.
pub open spec fn names_tile(s: Seq<char>) -> bool {
    s.len() == 2 && 'a' <= s[0] <= 'h' && '1' <= s[1] <= '8'
}

/// The tile at index `i` (0..64), row-major.
pub open spec fn tile_at(i: int) -> Tile {
    Tile { row: (i / 8) as i8, col: (i % 8) as i8 }
}

impl Tile {
    /// Reads a tile from its two-character text, column letter then row digit.
    pub fn from_str(s: &str) -> (r: ParseResult<Tile>)
        ensures
            r is Ok <==> names_tile(s@),
            r is Ok ==> r->Ok_0.col == s@[0] as int - 'a' as int && r->Ok_0.row == s@[1] as int
                - '1' as int,
            r is Ok ==> r->Ok_0.valid(),
    {
        if s.unicode_len() != 2 {
            return Err(ParseError::new("Tile notation must be 2 characters long"));
        }
        let c1 = s.get_char(0);
        let c2 = s.get_char(1);
        if c1 < 'a' || c1 > 'h' || c2 < '1' || c2 > '8' {
            return Err(ParseError::new("Tile row col pair must be between a1 and h8"));
        }
        let col = (c1 as u32 - 'a' as u32) as i8;
        let row = (c2 as u32 - '1' as u32) as i8;
        Ok(Tile { row, col })
    }

    /// The tile's text: column letter, then row digit.
    pub fn to_string(&self) -> (r: String)
        requires
            self.valid(),
        ensures
            r@ == seq![column_letter(self.col as int), row_digit(self.row as int)],
    {
        let c = match self.col {
            0 => "a",
            1 => "b",
            2 => "c",
            3 => "d",
            4 => "e",
            5 => "f",
            6 => "g",
            _ => "h",
        };
        let r = match self.row {
            0 => "1",
            1 => "2",
            2 => "3",
            3 => "4",
            4 => "5",
            5 => "6",
            6 => "7",
            _ => "8",
        };
        proof {
            reveal_strlit("a");
            reveal_strlit("b");
            reveal_strlit("c");
            reveal_strlit("d");
            reveal_strlit("e");
            reveal_strlit("f");
            reveal_strlit("g");
            reveal_strlit("h");
            reveal_strlit("1");
            reveal_strlit("2");
            reveal_strlit("3");
            reveal_strlit("4");
            reveal_strlit("5");
            reveal_strlit("6");
            reveal_strlit("7");
            reveal_strlit("8");
        }
        let mut out = c.to_owned();
        out.append(r);
        assert(out@ =~= seq![column_letter(self.col as int), row_digit(self.row as int)]);
        out
    }
}

/// A move with the score of the position it leads to.
#[derive(Clone, Copy, Debug, PartialEq, Eq, Structural)]
pub struct RankedTile {
    pub tile: Tile,
    pub heuristic: i64,
}

impl RankedTile {
    pub fn new(tile: Tile, heuristic: i64) -> (r: RankedTile)
        ensures
            r == (RankedTile { tile, heuristic }),
    {
        RankedTile { tile, heuristic }
    }

    /// The move with its score, or nothing when there is no move.
    pub fn from_option(tile: Option<Tile>, heuristic: i64) -> (r: Option<RankedTile>)
        ensures
            tile is None ==> r is None,
            tile is Some ==> r == Some(RankedTile { tile: tile->0, heuristic }),
    {
        match tile {
            Some(t) => Some(RankedTile::new(t, heuristic)),
            None => None,
        }
    }
}

/// Every tile of the board, in index order.
pub fn tiles() -> (r: [Tile; 64])
    ensures
        forall|i: int| 0 <= i < 64 ==> #[trigger] r[i] == tile_at(i),
{
    let mut all = [Tile { row: 0, col: 0 }; 64];
    let mut i: usize = 0;
    while i < 64
        invariant
            i <= 64,
            forall|j: int| 0 <= j < i ==> #[trigger] all[j] == tile_at(j),
        decreases 64 - i,
    {
        all[i] = Tile::from_index(i);
        i = i + 1;
    }
    all
}

} // verus!
