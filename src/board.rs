use vstd::prelude::*;
use crate::errors::{ParseError, ParseResult};
use crate::tile::{Tile, on_board};

verus! {

pub const EMPTY: u8 = 0;
pub const WHITE: u8 = 1;
pub const BLACK: u8 = 2;

/// The value of cell `i` in a board packed two bits per cell.
pub open spec fn packed_cell(bits: u128, i: int) -> u8 {
    ((bits >> ((2 * i) as u128)) & 3u128) as u8
}

/// A position: 64 cells packed two bits each (row-major) and the side to move.
#[derive(Clone, Copy, Debug, PartialEq, Eq, Structural)]
pub struct OthelloBoard {
    board: u128,
    pub black_move: bool,
}

proof fn lemma_packed_set_same(b: u128, c: u128, i: u128)
    by (bit_vector)
    requires
        i < 64,
        c < 4,
    ensures
        (((b & !(3u128 << (2 * i))) | (c << (2 * i))) >> (2 * i)) & 3u128 == c,
{
}

proof fn lemma_packed_set_other(b: u128, c: u128, i: u128, j: u128)
    by (bit_vector)
    requires
        i < 64,
        j < 64,
        i != j,
        c < 4,
    ensures
        (((b & !(3u128 << (2 * i))) | (c << (2 * i))) >> (2 * j)) & 3u128 == (b >> (2 * j)) & 3u128,
{
}

proof fn lemma_packed_zero(i: u128)
    by (bit_vector)
    ensures
        (0u128 >> i) & 3u128 == 0,
{
}

proof fn lemma_top_cell(x: u128)
    by (bit_vector)
    ensures
        (x >> 126u128) & 3u128 == x >> 126u128,
{
}

proof fn lemma_shift_step(x: u128, y: u128, s: u128)
    by (bit_vector)
    requires
        s < 126,
        x >> (s + 2) == y >> (s + 2),
        (x >> s) & 3u128 == (y >> s) & 3u128,
    ensures
        x >> s == y >> s,
{
}

proof fn lemma_shift_zero(x: u128)
    by (bit_vector)
    ensures
        x >> 0u128 == x,
{
}

/// Equal cells from cell `k` on mean equal bits from bit `2k` on.
proof fn lemma_suffix_eq(x: u128, y: u128, k: int)
    requires
        0 <= k <= 63,
        forall|i: int| 0 <= i < 64 ==> #[trigger] packed_cell(x, i) == packed_cell(y, i),
    ensures
        x >> ((2 * k) as u128) == y >> ((2 * k) as u128),
    decreases 63 - k,
{
    lemma_packed_small(x, (2 * k) as u128);
    lemma_packed_small(y, (2 * k) as u128);
    assert(packed_cell(x, k) == packed_cell(y, k));
    if k == 63 {
        lemma_top_cell(x);
        lemma_top_cell(y);
    } else {
        lemma_suffix_eq(x, y, k + 1);
        lemma_shift_step(x, y, (2 * k) as u128);
    }
}

proof fn lemma_packed_small(b: u128, i: u128)
    by (bit_vector)
    ensures
        (b >> i) & 3u128 < 4,
{
}


/// The opponent of `color`.
pub open spec fn opposite(color: u8) -> u8 {
    if color == BLACK {
        WHITE
    } else {
        BLACK
    }
}

/// Row step of compass direction `d` (0..8).
pub open spec fn dir_r(d: int) -> int {
    if d == 2 || d == 6 || d == 7 {
        1
    } else if d == 3 || d == 4 || d == 5 {
        -1
    } else {
        0
    }
}

/// Column step of compass direction `d` (0..8).
pub open spec fn dir_c(d: int) -> int {
    if d == 0 || d == 5 || d == 7 {
        1
    } else if d == 1 || d == 4 || d == 6 {
        -1
    } else {
        0
    }
}

/// `t * d` for a unit step `d`.
pub open spec fn scale(t: int, d: int) -> int {
    if d > 0 {
        t
    } else if d < 0 {
        -t
    } else {
        0
    }
}

/// A step of at most one cell per axis that moves.
pub open spec fn unit_step(dr: int, dc: int) -> bool {
    -1 <= dr <= 1 && -1 <= dc <= 1 && (dr != 0 || dc != 0)
}

/// Steps left before coordinate `x` leaves the board when moving by `d`.
pub open spec fn reach(x: int, d: int) -> int {
    if d > 0 {
        8 - x
    } else if d < 0 {
        x + 1
    } else {
        8
    }
}

/// Steps left before a walk from (r, c) by (dr, dc) leaves the board.
pub open spec fn walk_measure(r: int, c: int, dr: int, dc: int) -> int {
    if reach(r, dr) < reach(c, dc) {
        reach(r, dr)
    } else {
        reach(c, dc)
    }
}

/// The `t` >= 1 with (r, c) == (mr, mc) + t * direction `d`, or 0 if there is none.
pub open spec fn ray_step(mr: int, mc: int, d: int, r: int, c: int) -> int {
    let t = if dir_r(d) != 0 {
        scale(r - mr, dir_r(d))
    } else {
        scale(c - mc, dir_c(d))
    };
    if t >= 1 && r == mr + scale(t, dir_r(d)) && c == mc + scale(t, dir_c(d)) {
        t
    } else {
        0
    }
}

impl OthelloBoard {
    /// The 64 cells, row-major, each `EMPTY`, `WHITE` or `BLACK` on a well-formed board.
    pub closed spec fn cells(self) -> Seq<u8> {
        Seq::new(64, |i: int| packed_cell(self.board, i))
    }

    /// Whether the side to move is `BLACK`.
    pub closed spec fn black_to_move(self) -> bool {
        self.black_move
    }

    /// Every cell holds one of the three states.
    pub open spec fn wf(self) -> bool {
        forall|i: int| 0 <= i < 64 ==> #[trigger] self.cells()[i] <= 2
    }

    /// The cell at row `r`, column `c`.
    pub open spec fn at(self, r: int, c: int) -> u8 {
        self.cells()[r * 8 + c]
    }

    /// The color whose turn it is.
    pub open spec fn current_color(self) -> u8 {
        if self.black_to_move() {
            BLACK
        } else {
            WHITE
        }
    }

    /// How many consecutive cells hold `color`, walking from (r, c) by (dr, dc)
    /// while on the board.
    pub open spec fn run(self, r: int, c: int, dr: int, dc: int, color: u8) -> nat
        decreases walk_measure(r, c, dr, dc),
    {
        if on_board(r) && on_board(c) && unit_step(dr, dc) && self.at(r, c) == color {
            1 + self.run(r + dr, c + dc, dr, dc, color)
        } else {
            0
        }
    }

    /// The move that a disc of `color` at (r, c) offers in direction `d`: the empty
    /// cell just past a non-empty run of opposite discs, if there is one.
    pub open spec fn probe(self, color: u8, r: int, c: int, d: int) -> Seq<Tile> {
        let k = self.run(r + dir_r(d), c + dir_c(d), dir_r(d), dir_c(d), opposite(color));
        let er = r + scale(k as int + 1, dir_r(d));
        let ec = c + scale(k as int + 1, dir_c(d));
        if self.at(r, c) == color && k > 0 && on_board(er) && on_board(ec) && self.at(er, ec)
            == EMPTY {
            seq![Tile { row: er as i8, col: ec as i8 }]
        } else {
            seq![]
        }
    }

    /// The moves offered by the disc at (r, c) in directions `0..n`, in order.
    pub open spec fn disc_moves(self, color: u8, r: int, c: int, n: int) -> Seq<Tile>
        decreases n,
    {
        if n <= 0 {
            seq![]
        } else {
            self.disc_moves(color, r, c, n - 1) + self.probe(color, r, c, n - 1)
        }
    }

    /// The moves offered to `color` by the cells `0..n`, scanned in index order.
    pub open spec fn moves_upto(self, color: u8, n: int) -> Seq<Tile>
        decreases n,
    {
        if n <= 0 {
            seq![]
        } else {
            self.moves_upto(color, n - 1) + self.disc_moves(color, (n - 1) / 8, (n - 1) % 8, 8)
        }
    }

    /// Every destination open to `color`, once per disc and direction that flanks it.
    pub open spec fn potential_moves(self, color: u8) -> Seq<Tile> {
        self.moves_upto(color, 64)
    }

    /// The moves open to the side to move.
    pub open spec fn legal_moves(self) -> Seq<Tile> {
        self.potential_moves(self.current_color())
    }

    /// The number of opposite discs that a disc of `color` placed at (r, c) captures
    /// in direction `d`: the run of opposite discs that follows it when that run ends
    /// on a disc of `color`, and none otherwise.
    pub open spec fn flank(self, color: u8, r: int, c: int, d: int) -> nat {
        let k = self.run(r + dir_r(d), c + dir_c(d), dir_r(d), dir_c(d), opposite(color));
        let er = r + scale(k as int + 1, dir_r(d));
        let ec = c + scale(k as int + 1, dir_c(d));
        if on_board(er) && on_board(ec) && self.at(er, ec) == color {
            k
        } else {
            0
        }
    }

    /// Cell (r, c) lies in a flank that `color` captures from (mr, mc) in one of
    /// the directions `0..n`.
    pub open spec fn captured(self, color: u8, mr: int, mc: int, n: int, r: int, c: int) -> bool
        decreases n,
    {
        if n <= 0 {
            false
        } else {
            self.captured(color, mr, mc, n - 1, r, c) || (1 <= ray_step(mr, mc, n - 1, r, c)
                <= self.flank(color, mr, mc, n - 1))
        }
    }

    /// The cells after the side to move plays `mv`: the move's cell and every
    /// captured cell take the mover's color, all others keep theirs.
    pub open spec fn after_move(self, mv: Tile) -> Seq<u8> {
        let cur = self.current_color();
        Seq::new(
            64,
            |i: int|
                if i == mv.index() || self.captured(
                    cur,
                    mv.row as int,
                    mv.col as int,
                    8,
                    i / 8,
                    i % 8,
                ) {
                    cur
                } else {
                    self.cells()[i]
                },
        )
    }

    /// The position after the side to move plays `mv`.
    pub open spec fn play(self, mv: Tile) -> OthelloBoard {
        choose|r: OthelloBoard|
            r.cells() == self.after_move(mv) && r.black_to_move() == !self.black_to_move()
    }

    /// The starting position's cells: four discs in the centre.
    pub open spec fn initial_cells() -> Seq<u8> {
        Seq::new(
            64,
            |i: int|
                if i == 27 || i == 36 {
                    WHITE
                } else if i == 28 || i == 35 {
                    BLACK
                } else {
                    EMPTY
                },
        )
    }

    pub fn set_tile(&mut self, tile: Tile, color: u8)
        requires
            tile.valid(),
            color <= 2,
        ensures
            final(self).cells() == old(self).cells().update(tile.index(), color),
            final(self).black_to_move() == old(self).black_to_move(),
    {
        let i = (tile.row as u128) * 8 + tile.col as u128;
        let p = 2 * i;
        let old_bits = self.board;
        let c = color as u128;
        self.board = (old_bits & !(3u128 << p)) | (c << p);
        proof {
            lemma_packed_set_same(old_bits, c, i);
            assert forall|j: int| 0 <= j < 64 && j != i implies packed_cell(self.board, j)
                == packed_cell(old_bits, j) by {
                lemma_packed_set_other(old_bits, c, i, j as u128);
            }
            assert(self.cells() =~= old(self).cells().update(tile.index(), color));
        }
    }

    pub fn get_tile(&self, tile: Tile) -> (r: u8)
        requires
            tile.valid(),
        ensures
            r == self.cells()[tile.index()],
    {
        let p = ((tile.row as u128) * 8 + tile.col as u128) * 2;
        proof {
            lemma_packed_small(self.board, p);
        }
        ((self.board >> p) & 3u128) as u8
    }
}


/// The row and column step of compass direction `d`.
fn direction(d: usize) -> (r: (i8, i8))
    requires
        d < 8,
    ensures
        r.0 == dir_r(d as int),
        r.1 == dir_c(d as int),
{
    match d {
        0 => (0, 1),
        1 => (0, -1),
        2 => (1, 0),
        3 => (-1, 0),
        4 => (-1, -1),
        5 => (-1, 1),
        6 => (1, -1),
        _ => (1, 1),
    }
}

impl OthelloBoard {
    /// Walks from `start` by (dr, dc) while the cells hold `color`; returns the
    /// first tile past the run and the run's length.
    fn walk(&self, start: Tile, dr: i8, dc: i8, color: u8) -> (r: (Tile, u8))
        requires
            unit_step(dr as int, dc as int),
            -1 <= start.row <= 8,
            -1 <= start.col <= 8,
        ensures
            r.1 == self.run(start.row as int, start.col as int, dr as int, dc as int, color),
            r.0.row == start.row + scale(r.1 as int, dr as int),
            r.0.col == start.col + scale(r.1 as int, dc as int),
            -1 <= r.0.row <= 8,
            -1 <= r.0.col <= 8,
    {
        let mut tile = start;
        let mut count: u8 = 0;
        while tile.in_bounds() && self.get_tile(tile) == color
            invariant
                unit_step(dr as int, dc as int),
                -1 <= tile.row <= 8,
                -1 <= tile.col <= 8,
                count <= 8,
                count + walk_measure(tile.row as int, tile.col as int, dr as int, dc as int)
                    <= walk_measure(start.row as int, start.col as int, dr as int, dc as int),
                walk_measure(start.row as int, start.col as int, dr as int, dc as int) <= 9,
                tile.row == start.row + scale(count as int, dr as int),
                tile.col == start.col + scale(count as int, dc as int),
                count + self.run(tile.row as int, tile.col as int, dr as int, dc as int, color)
                    == self.run(start.row as int, start.col as int, dr as int, dc as int, color),
            decreases walk_measure(tile.row as int, tile.col as int, dr as int, dc as int),
        {
            tile.row = tile.row + dr;
            tile.col = tile.col + dc;
            count = count + 1;
        }
        (tile, count)
    }

    /// Every destination open to `color`, in scan order: cells in index order,
    /// then the eight directions in a fixed order. A destination flanked along
    /// several lines appears once for each.
    pub fn find_potential_moves(&self, color: u8) -> (r: Vec<Tile>)
        ensures
            r@ == self.potential_moves(color),
    {
        let opposite_color = if color == BLACK {
            WHITE
        } else {
            BLACK
        };
        let mut moves: Vec<Tile> = Vec::new();
        let mut i: usize = 0;
        while i < 64
            invariant
                i <= 64,
                opposite_color == opposite(color),
                moves@ == self.moves_upto(color, i as int),
            decreases 64 - i,
        {
            let disc = Tile::from_index(i);
            let is_own = self.get_tile(disc) == color;
            let mut d: usize = 0;
            while d < 8
                invariant
                    i < 64,
                    d <= 8,
                    disc.valid(),
                    disc.row == i / 8,
                    disc.col == i % 8,
                    opposite_color == opposite(color),
                    is_own == (self.at(disc.row as int, disc.col as int) == color),
                    moves@ == self.moves_upto(color, i as int) + self.disc_moves(
                        color,
                        disc.row as int,
                        disc.col as int,
                        d as int,
                    ),
                decreases 8 - d,
            {
                let ghost before = moves@;
                if is_own {
                    let (dr, dc) = direction(d);
                    let start = Tile::new(disc.row + dr, disc.col + dc);
                    let (tile, count) = self.walk(start, dr, dc, opposite_color);
                    if count > 0 && tile.in_bounds() && self.get_tile(tile) == EMPTY {
                        moves.push(tile);
                    }
                }
                assert(moves@ =~= before + self.probe(color, disc.row as int, disc.col as int, d as int));
                d = d + 1;
            }
            i = i + 1;
        }
        moves
    }
}


/// A board has 64 cells.
pub broadcast proof fn lemma_cells_len(b: OthelloBoard)
    ensures
        #[trigger] b.cells().len() == 64,
{
}

/// A board is determined by its cells and its side to move.
pub proof fn lemma_board_ext(a: OthelloBoard, b: OthelloBoard)
    requires
        a.cells() == b.cells(),
        a.black_to_move() == b.black_to_move(),
    ensures
        a == b,
{
    assert forall|i: int| 0 <= i < 64 implies #[trigger] packed_cell(a.board, i) == packed_cell(
        b.board,
        i,
    ) by {
        assert(a.cells()[i] == b.cells()[i]);
        assert(a.cells()[i] == packed_cell(a.board, i));
        assert(b.cells()[i] == packed_cell(b.board, i));
    }
    lemma_suffix_eq(a.board, b.board, 0);
    lemma_shift_zero(a.board);
    lemma_shift_zero(b.board);
}

/// Two different directions from one origin never meet again.
proof fn lemma_rays_disjoint(mr: int, mc: int, d: int, e: int, r: int, c: int)
    requires
        0 <= d < 8,
        0 <= e < 8,
        d != e,
        ray_step(mr, mc, d, r, c) >= 1,
    ensures
        ray_step(mr, mc, e, r, c) == 0,
{
}

proof fn lemma_not_captured_on_later_ray(
    b: OthelloBoard,
    color: u8,
    mr: int,
    mc: int,
    n: int,
    d: int,
    r: int,
    c: int,
)
    requires
        0 <= n <= d < 8,
        ray_step(mr, mc, d, r, c) >= 1,
    ensures
        !b.captured(color, mr, mc, n, r, c),
    decreases n,
{
    if n > 0 {
        lemma_not_captured_on_later_ray(b, color, mr, mc, n - 1, d, r, c);
        lemma_rays_disjoint(mr, mc, d, n - 1, r, c);
    }
}

/// Two boards that agree on a ray from (mr, mc) have equal runs along it.
proof fn lemma_run_agree(
    a: OthelloBoard,
    b: OthelloBoard,
    mr: int,
    mc: int,
    d: int,
    t: int,
    color: u8,
)
    requires
        0 <= d < 8,
        t >= 1,
        forall|r: int, c: int|
            on_board(r) && on_board(c) && ray_step(mr, mc, d, r, c) >= 1 ==> #[trigger] a.at(r, c)
                == b.at(r, c),
    ensures
        a.run(mr + scale(t, dir_r(d)), mc + scale(t, dir_c(d)), dir_r(d), dir_c(d), color)
            == b.run(mr + scale(t, dir_r(d)), mc + scale(t, dir_c(d)), dir_r(d), dir_c(d), color),
    decreases walk_measure(mr + scale(t, dir_r(d)), mc + scale(t, dir_c(d)), dir_r(d), dir_c(d)),
{
    let r = mr + scale(t, dir_r(d));
    let c = mc + scale(t, dir_c(d));
    if on_board(r) && on_board(c) {
        assert(ray_step(mr, mc, d, r, c) == t);
        assert(r + dir_r(d) == mr + scale(t + 1, dir_r(d)));
        assert(c + dir_c(d) == mc + scale(t + 1, dir_c(d)));
        lemma_run_agree(a, b, mr, mc, d, t + 1, color);
    }
}

impl OthelloBoard {
    /// The starting position: two discs of each color crossed in the centre,
    /// `BLACK` to move.
    pub fn new() -> (r: OthelloBoard)
        ensures
            r.cells() == Self::initial_cells(),
            r.black_to_move(),
            r.wf(),
    {
        let mut board = OthelloBoard { board: 0, black_move: true };
        proof {
            assert forall|j: int| 0 <= j < 64 implies #[trigger] board.cells()[j] == 0 by {
                lemma_packed_zero((2 * j) as u128);
            }
        }
        board.set_tile(Tile::new(3, 3), WHITE);
        board.set_tile(Tile::new(3, 4), BLACK);
        board.set_tile(Tile::new(4, 3), BLACK);
        board.set_tile(Tile::new(4, 4), WHITE);
        assert(board.cells() =~= Self::initial_cells());
        board
    }

    /// The board whose cells are packed two bits each, row-major, in `bits`; none
    /// when some cell holds the unused value 3.
    pub fn from_bits(bits: u128, black_move: bool) -> (r: Option<OthelloBoard>)
        ensures
            r is Some <==> forall|i: int| 0 <= i < 64 ==> #[trigger] packed_cell(bits, i) <= 2,
            r is Some ==> r->0.cells() == Seq::new(64, |i: int| packed_cell(bits, i)),
            r is Some ==> r->0.black_to_move() == black_move,
            r is Some ==> r->0.wf(),
    {
        let mut i: u128 = 0;
        while i < 64
            invariant
                i <= 64,
                forall|j: int| 0 <= j < i ==> #[trigger] packed_cell(bits, j) <= 2,
            decreases 64 - i,
        {
            proof {
                lemma_packed_small(bits, (2 * i) as u128);
            }
            if (bits >> (2 * i)) & 3u128 == 3u128 {
                assert(packed_cell(bits, i as int) == 3);
                return None;
            }
            i = i + 1;
        }
        let board = OthelloBoard { board: bits, black_move };
        assert(board.cells() =~= Seq::new(64, |i: int| packed_cell(bits, i)));
        Some(board)
    }

    /// Whether `BLACK` is to move.
    pub fn is_black_move(&self) -> (r: bool)
        ensures
            r == self.black_to_move(),
    {
        self.black_move
    }

    /// Sets the side to move.
    pub fn set_black_move(&mut self, black: bool)
        ensures
            final(self).black_to_move() == black,
            final(self).cells() == old(self).cells(),
    {
        self.black_move = black;
    }

    /// Every move offered names a cell of the board.
    pub proof fn lemma_potential_moves_valid(self, color: u8)
        ensures
            forall|k: int|
                0 <= k < self.potential_moves(color).len() ==> (#[trigger] self.potential_moves(
                    color,
                )[k]).valid(),
    {
        self.lemma_moves_upto_valid(color, 64);
    }

    proof fn lemma_moves_upto_valid(self, color: u8, n: int)
        ensures
            forall|k: int|
                0 <= k < self.moves_upto(color, n).len() ==> (#[trigger] self.moves_upto(
                    color,
                    n,
                )[k]).valid(),
        decreases n,
    {
        if n > 0 {
            self.lemma_moves_upto_valid(color, n - 1);
            self.lemma_disc_moves_valid(color, (n - 1) / 8, (n - 1) % 8, 8);
            let a = self.moves_upto(color, n - 1);
            let b = self.disc_moves(color, (n - 1) / 8, (n - 1) % 8, 8);
            assert forall|k: int| 0 <= k < (a + b).len() implies (#[trigger] (a + b)[k]).valid() by {
                if k >= a.len() {
                    assert((a + b)[k] == b[k - a.len()]);
                }
            }
        }
    }

    proof fn lemma_disc_moves_valid(self, color: u8, r: int, c: int, n: int)
        ensures
            forall|k: int|
                0 <= k < self.disc_moves(color, r, c, n).len() ==> (#[trigger] self.disc_moves(
                    color,
                    r,
                    c,
                    n,
                )[k]).valid(),
        decreases n,
    {
        if n > 0 {
            self.lemma_disc_moves_valid(color, r, c, n - 1);
            let a = self.disc_moves(color, r, c, n - 1);
            let b = self.probe(color, r, c, n - 1);
            assert forall|k: int| 0 <= k < (a + b).len() implies (#[trigger] (a + b)[k]).valid() by {
                if k >= a.len() {
                    assert((a + b)[k] == b[k - a.len()]);
                }
            }
        }
    }

    /// A disc offers at most one move per direction.
    pub proof fn lemma_potential_moves_len(self, color: u8)
        ensures
            self.potential_moves(color).len() <= 512,
    {
        assert forall|n: int| 0 <= n <= 64 implies #[trigger] self.moves_upto(color, n).len() <= 8
            * n by {
            self.lemma_moves_upto_len(color, n);
        }
    }

    proof fn lemma_moves_upto_len(self, color: u8, n: int)
        requires
            0 <= n,
        ensures
            self.moves_upto(color, n).len() <= 8 * n,
        decreases n,
    {
        if n > 0 {
            self.lemma_moves_upto_len(color, n - 1);
            self.lemma_disc_moves_len(color, (n - 1) / 8, (n - 1) % 8, 8);
        }
    }

    proof fn lemma_disc_moves_len(self, color: u8, r: int, c: int, n: int)
        requires
            0 <= n,
        ensures
            self.disc_moves(color, r, c, n).len() <= n,
        decreases n,
    {
        if n > 0 {
            self.lemma_disc_moves_len(color, r, c, n - 1);
        }
    }

    /// The moves open to the side to move, in scan order.
    pub fn find_current_moves(&self) -> (r: Vec<Tile>)
        ensures
            r@ == self.legal_moves(),
    {
        let color = if self.black_move {
            BLACK
        } else {
            WHITE
        };
        self.find_potential_moves(color)
    }

    /// The moves open to the side to move, collected into a vector.
    pub fn find_current_moves_as_vec(&self) -> (r: Vec<Tile>)
        ensures
            r@ == self.legal_moves(),
    {
        self.find_current_moves()
    }

    /// How many moves `color` has, counted as `find_potential_moves` lists them.
    pub fn count_potential_moves(&self, color: u8) -> (r: usize)
        ensures
            r == self.potential_moves(color).len(),
    {
        let moves = self.find_potential_moves(color);
        moves.len()
    }

    /// Captures the flank that the mover closes from `mov` in direction `d`, on a
    /// board that still agrees with `orig` along that direction.
    fn capture_line(
        board: &mut OthelloBoard,
        Ghost(orig): Ghost<OthelloBoard>,
        mov: Tile,
        d: usize,
        current_color: u8,
        opposite_color: u8,
    )
        requires
            orig.wf(),
            mov.valid(),
            d < 8,
            current_color == orig.current_color(),
            opposite_color == opposite(current_color),
            forall|r: int, c: int|
                on_board(r) && on_board(c) && ray_step(mov.row as int, mov.col as int, d as int, r, c)
                    >= 1 ==> #[trigger] old(board).at(r, c) == orig.at(r, c),
        ensures
            final(board).black_to_move() == old(board).black_to_move(),
            forall|i: int|
                0 <= i < 64 ==> #[trigger] final(board).cells()[i] == (if 1 <= ray_step(
                    mov.row as int,
                    mov.col as int,
                    d as int,
                    i / 8,
                    i % 8,
                ) <= orig.flank(current_color, mov.row as int, mov.col as int, d as int) {
                    current_color
                } else {
                    old(board).cells()[i]
                }),
    {
        let ghost cur = current_color;
        let ghost mr = mov.row as int;
        let ghost mc = mov.col as int;
        let ghost base = *board;
        let (dr, dc) = direction(d);
        let start = Tile::new(mov.row + dr, mov.col + dc);
        proof {
            lemma_run_agree(*board, orig, mr, mc, d as int, 1, opposite_color);
        }
        let (end, count) = board.walk(start, dr, dc, opposite_color);
        let closes = end.in_bounds() && board.get_tile(end) == current_color;
        proof {
            assert(end.row == mr + scale(count + 1, dr as int));
            assert(end.col == mc + scale(count + 1, dc as int));
            if end.valid() {
                assert(ray_step(mr, mc, d as int, end.row as int, end.col as int) == count + 1);
                assert(board.at(end.row as int, end.col as int) == orig.at(end.row as int, end.col as int));
            }
            assert(closes ==> orig.flank(cur, mr, mc, d as int) == count);
            assert(!closes ==> orig.flank(cur, mr, mc, d as int) == 0);
        }
        if closes {
            let mut tile = start;
            let mut flipped: u8 = 0;
            while flipped < count
                invariant
                    flipped <= count,
                    d < 8,
                    count == orig.flank(cur, mr, mc, d as int),
                    dr == dir_r(d as int),
                    dc == dir_c(d as int),
                    mov.valid(),
                    end.valid(),
                    end.row == mr + scale(count + 1, dr as int),
                    end.col == mc + scale(count + 1, dc as int),
                    tile.row == mr + scale(flipped + 1, dr as int),
                    tile.col == mc + scale(flipped + 1, dc as int),
                    cur == current_color,
                    cur <= 2,
                    board.black_to_move() == base.black_to_move(),
                    forall|i: int|
                        0 <= i < 64 ==> #[trigger] board.cells()[i] == (if 1 <= ray_step(
                            mr,
                            mc,
                            d as int,
                            i / 8,
                            i % 8,
                        ) <= flipped {
                            cur
                        } else {
                            base.cells()[i]
                        }),
                decreases count - flipped,
            {
                let ghost prev = board;
                board.set_tile(tile, current_color);
                proof {
                    assert(ray_step(mr, mc, d as int, tile.row as int, tile.col as int) == flipped + 1);
                    assert forall|i: int| 0 <= i < 64 implies #[trigger] board.cells()[i] == (if 1
                        <= ray_step(mr, mc, d as int, i / 8, i % 8) <= flipped + 1 {
                        cur
                    } else {
                        base.cells()[i]
                    }) by {
                        if i == tile.index() {
                            assert(i / 8 == tile.row);
                            assert(i % 8 == tile.col);
                        } else {
                            assert(prev.cells()[i] == board.cells()[i]);
                            if ray_step(mr, mc, d as int, i / 8, i % 8) == flipped + 1 {
                                assert(i == (i / 8) * 8 + i % 8);
                            }
                        }
                    }
                }
                tile.row = tile.row + dr;
                tile.col = tile.col + dc;
                flipped = flipped + 1;
            }
        }
        assert(board.cells() =~= Seq::new(64, |i: int| if 1 <= ray_step(mr, mc, d as int, i / 8, i % 8)
            <= orig.flank(cur, mr, mc, d as int) {
            cur
        } else {
            base.cells()[i]
        }));
    }

    /// The position after the side to move plays `mov`; `self` is left as it is.
    /// The mover's disc goes on `mov`, every flank it closes takes its color, and
    /// the turn passes.
    pub fn make_move(&self, mov: Tile) -> (r: OthelloBoard)
        requires
            self.wf(),
            mov.valid(),
        ensures
            r.cells() == self.after_move(mov),
            r.black_to_move() == !self.black_to_move(),
            r.wf(),
            r == self.play(mov),
    {
        let mut board = *self;
        let opposite_color = if board.black_move {
            WHITE
        } else {
            BLACK
        };
        let current_color = if board.black_move {
            BLACK
        } else {
            WHITE
        };
        let ghost cur = self.current_color();
        let ghost mr = mov.row as int;
        let ghost mc = mov.col as int;
        board.black_move = !board.black_move;
        board.set_tile(mov, current_color);
        let mut d: usize = 0;
        while d < 8
            invariant
                d <= 8,
                self.wf(),
                mov.valid(),
                cur == current_color,
                cur == self.current_color(),
                opposite_color == opposite(cur),
                mr == mov.row,
                mc == mov.col,
                board.black_to_move() == !self.black_to_move(),
                forall|i: int|
                    0 <= i < 64 ==> #[trigger] board.cells()[i] == (if i == mov.index()
                        || self.captured(cur, mr, mc, d as int, i / 8, i % 8) {
                        cur
                    } else {
                        self.cells()[i]
                    }),
            decreases 8 - d,
        {
            proof {
                assert forall|r: int, c: int|
                    on_board(r) && on_board(c) && ray_step(mr, mc, d as int, r, c)
                        >= 1 implies #[trigger] board.at(r, c) == self.at(r, c) by {
                    lemma_not_captured_on_later_ray(*self, cur, mr, mc, d as int, d as int, r, c);
                    assert((r * 8 + c) / 8 == r);
                    assert((r * 8 + c) % 8 == c);
                    assert(board.cells()[r * 8 + c] == self.cells()[r * 8 + c]);
                }
            }
            let ghost before = board;
            Self::capture_line(&mut board, Ghost(*self), mov, d, current_color, opposite_color);
            proof {
                assert forall|i: int| 0 <= i < 64 implies #[trigger] board.cells()[i] == (if i
                    == mov.index() || self.captured(cur, mr, mc, d as int + 1, i / 8, i % 8) {
                    cur
                } else {
                    self.cells()[i]
                }) by {
                    assert(before.cells()[i] == (if i == mov.index() || self.captured(cur, mr, mc, d as int, i / 8, i % 8) {
                        cur
                    } else {
                        self.cells()[i]
                    }));
                }
            }
            assert(board.cells() =~= Seq::new(64, |i: int| if i == mov.index()
                || self.captured(cur, mr, mc, d as int + 1, i / 8, i % 8) {
                cur
            } else {
                self.cells()[i]
            }));
            d = d + 1;
        }
        assert(board.cells() =~= self.after_move(mov));
        proof {
            let p = self.play(mov);
            lemma_board_ext(board, p);
        }
        board
    }
}


/// (r, c) is on the board and holds `color`.
pub open spec fn holds(b: OthelloBoard, r: int, c: int, color: u8) -> bool {
    on_board(r) && on_board(c) && b.at(r, c) == color
}

/// The direction opposite to `d`.
pub open spec fn reverse(d: int) -> int {
    if d == 0 {
        1
    } else if d == 1 {
        0
    } else if d == 2 {
        3
    } else if d == 3 {
        2
    } else if d == 4 {
        7
    } else if d == 5 {
        6
    } else if d == 6 {
        5
    } else {
        4
    }
}

proof fn lemma_run_cells(b: OthelloBoard, r: int, c: int, dr: int, dc: int, color: u8, t: int)
    requires
        0 <= t < b.run(r, c, dr, dc, color),
    ensures
        holds(b, r + scale(t, dr), c + scale(t, dc), color),
        unit_step(dr, dc),
    decreases t,
{
    if t > 0 {
        lemma_run_cells(b, r + dr, c + dc, dr, dc, color, t - 1);
        assert(r + dr + scale(t - 1, dr) == r + scale(t, dr));
        assert(c + dc + scale(t - 1, dc) == c + scale(t, dc));
    }
}

proof fn lemma_run_exact(b: OthelloBoard, r: int, c: int, dr: int, dc: int, color: u8, k: int)
    requires
        unit_step(dr, dc),
        0 <= k,
        forall|t: int| 0 <= t < k ==> #[trigger] holds(b, r + scale(t, dr), c + scale(t, dc), color),
        !holds(b, r + scale(k, dr), c + scale(k, dc), color),
    ensures
        b.run(r, c, dr, dc, color) == k,
    decreases k,
{
    if k == 0 {
        assert(!holds(b, r + scale(0, dr), c + scale(0, dc), color));
    } else {
        assert(holds(b, r + scale(0, dr), c + scale(0, dc), color));
        assert forall|t: int| 0 <= t < k - 1 implies #[trigger] holds(
            b,
            r + dr + scale(t, dr),
            c + dc + scale(t, dc),
            color,
        ) by {
            assert(holds(b, r + scale(t + 1, dr), c + scale(t + 1, dc), color));
            assert(r + dr + scale(t, dr) == r + scale(t + 1, dr));
            assert(c + dc + scale(t, dc) == c + scale(t + 1, dc));
        }
        assert(r + dr + scale(k - 1, dr) == r + scale(k, dr));
        assert(c + dc + scale(k - 1, dc) == c + scale(k, dc));
        lemma_run_exact(b, r + dr, c + dc, dr, dc, color, k - 1);
    }
}

proof fn lemma_captured_at(
    b: OthelloBoard,
    color: u8,
    mr: int,
    mc: int,
    n: int,
    e: int,
    r: int,
    c: int,
)
    requires
        0 <= e < n,
        1 <= ray_step(mr, mc, e, r, c) <= b.flank(color, mr, mc, e),
    ensures
        b.captured(color, mr, mc, n, r, c),
    decreases n,
{
    if e < n - 1 {
        lemma_captured_at(b, color, mr, mc, n - 1, e, r, c);
    }
}

proof fn lemma_disc_moves_source(b: OthelloBoard, color: u8, r: int, c: int, n: int, k: int) -> (d: int)
    requires
        0 <= k < b.disc_moves(color, r, c, n).len(),
    ensures
        0 <= d < n,
        b.probe(color, r, c, d) == seq![b.disc_moves(color, r, c, n)[k]],
    decreases n,
{
    let prev = b.disc_moves(color, r, c, n - 1);
    let p = b.probe(color, r, c, n - 1);
    assert(b.disc_moves(color, r, c, n) == prev + p);
    if k < prev.len() {
        lemma_disc_moves_source(b, color, r, c, n - 1, k)
    } else {
        assert(p.len() == 1);
        n - 1
    }
}

proof fn lemma_moves_source(b: OthelloBoard, color: u8, n: int, k: int) -> (w: (int, int))
    requires
        0 <= k < b.moves_upto(color, n).len(),
    ensures
        0 <= w.0 < n,
        0 <= w.1 < 8,
        b.probe(color, w.0 / 8, w.0 % 8, w.1) == seq![b.moves_upto(color, n)[k]],
    decreases n,
{
    let prev = b.moves_upto(color, n - 1);
    let here = b.disc_moves(color, (n - 1) / 8, (n - 1) % 8, 8);
    assert(b.moves_upto(color, n) == prev + here);
    if k < prev.len() {
        lemma_moves_source(b, color, n - 1, k)
    } else {
        let d = lemma_disc_moves_source(b, color, (n - 1) / 8, (n - 1) % 8, 8, k - prev.len());
        (n - 1, d)
    }
}

/// Every enumerated move is a real move: it names an empty cell, and the cells
/// after it is played (those `make_move` returns, with the turn passed) give that
/// cell the mover's color and capture at least one opposing disc.
pub proof fn lemma_legal_move_closure(b: OthelloBoard, k: int)
    requires
        b.wf(),
        0 <= k < b.legal_moves().len(),
    ensures
        b.legal_moves()[k].valid(),
        b.cells()[b.legal_moves()[k].index()] == EMPTY,
        b.after_move(b.legal_moves()[k])[b.legal_moves()[k].index()] == b.current_color(),
        exists|i: int|
            0 <= i < 64 && b.cells()[i] == opposite(b.current_color()) && #[trigger] b.after_move(
                b.legal_moves()[k],
            )[i] == b.current_color(),
{
    let cur = b.current_color();
    let opp = opposite(cur);
    let m = b.legal_moves()[k];
    b.lemma_potential_moves_valid(cur);
    let (i, d) = lemma_moves_source(b, cur, 64, k);
    let r = i / 8;
    let c = i % 8;
    let dr = dir_r(d);
    let dc = dir_c(d);
    let k0 = b.run(r + dr, c + dc, dr, dc, opp) as int;
    assert(b.legal_moves() == b.moves_upto(cur, 64));
    assert(b.probe(cur, r, c, d).len() == 1);
    assert(b.probe(cur, r, c, d)[0] == m);
    assert(b.at(r, c) == cur);
    let er = r + scale(k0 + 1, dr);
    let ec = c + scale(k0 + 1, dc);
    assert(on_board(er) && on_board(ec));
    assert(m == Tile { row: er as i8, col: ec as i8 });
    assert(k0 > 0);
    assert(m.row == r + scale(k0 + 1, dr));
    assert(m.col == c + scale(k0 + 1, dc));
    assert(b.at(m.row as int, m.col as int) == EMPTY);
    let mr = m.row as int;
    let mc = m.col as int;
    let e = reverse(d);
    assert(dir_r(e) == -dr && dir_c(e) == -dc);
    // walking back from the move crosses the same run, then reaches the disc
    assert forall|t: int| 0 <= t < k0 implies #[trigger] holds(
        b,
        mr + dir_r(e) + scale(t, dir_r(e)),
        mc + dir_c(e) + scale(t, dir_c(e)),
        opp,
    ) by {
        lemma_run_cells(b, r + dr, c + dc, dr, dc, opp, k0 - 1 - t);
        assert(mr + dir_r(e) + scale(t, dir_r(e)) == r + dr + scale(k0 - 1 - t, dr));
        assert(mc + dir_c(e) + scale(t, dir_c(e)) == c + dc + scale(k0 - 1 - t, dc));
    }
    assert(mr + dir_r(e) + scale(k0, dir_r(e)) == r);
    assert(mc + dir_c(e) + scale(k0, dir_c(e)) == c);
    assert(cur != opp);
    lemma_run_exact(b, mr + dir_r(e), mc + dir_c(e), dir_r(e), dir_c(e), opp, k0);
    assert(mr + scale(k0 + 1, dir_r(e)) == r);
    assert(mc + scale(k0 + 1, dir_c(e)) == c);
    assert(b.flank(cur, mr, mc, e) == k0);
    // the disc next to the move along that line is captured
    let qr = mr + dir_r(e);
    let qc = mc + dir_c(e);
    assert(holds(b, qr + scale(0, dir_r(e)), qc + scale(0, dir_c(e)), opp));
    assert(ray_step(mr, mc, e, qr, qc) == 1);
    lemma_captured_at(b, cur, mr, mc, 8, e, qr, qc);
    let q = qr * 8 + qc;
    assert(q / 8 == qr && q % 8 == qc);
    assert(b.cells()[q] == opp);
    assert(b.after_move(m)[q] == cur);
    assert(m.index() / 8 == mr && m.index() % 8 == mc);
}

/// Flank correctness: playing `mv` turns to the mover's color exactly the
/// maximal run of opposing discs in each direction that ends on a disc of the
/// mover's color (`flank`), together with the move's own cell; every other cell
/// keeps its value, so directions whose run ends on an empty cell or off the
/// board flip nothing.
pub proof fn lemma_flank_correctness(b: OthelloBoard, mv: Tile)
    requires
        b.wf(),
        mv.valid(),
    ensures
        forall|d: int, t: int|
            0 <= d < 8 && 1 <= t <= b.flank(b.current_color(), mv.row as int, mv.col as int, d)
                ==> #[trigger] b.after_move(mv)[(mv.row as int + scale(t, dir_r(d))) * 8 + (mv.col as int
                + scale(t, dir_c(d)))] == b.current_color(),
        forall|i: int|
            0 <= i < 64 && i != mv.index() && !b.captured(
                b.current_color(),
                mv.row as int,
                mv.col as int,
                8,
                i / 8,
                i % 8,
            ) ==> #[trigger] b.after_move(mv)[i] == b.cells()[i],
        b.after_move(mv)[mv.index()] == b.current_color(),
        forall|d: int, t: int|
            0 <= d < 8 && 1 <= t <= b.flank(b.current_color(), mv.row as int, mv.col as int, d)
                ==> #[trigger] holds(
                b,
                mv.row as int + scale(t, dir_r(d)),
                mv.col as int + scale(t, dir_c(d)),
                opposite(b.current_color()),
            ),
{
    let cur = b.current_color();
    let mr = mv.row as int;
    let mc = mv.col as int;
    assert forall|d: int, t: int|
        0 <= d < 8 && 1 <= t <= b.flank(b.current_color(), mv.row as int, mv.col as int, d) implies #[trigger] b.after_move(mv)[(mv.row as int + scale(t, dir_r(d))) * 8 + (mv.col as int
        + scale(t, dir_c(d)))] == b.current_color() by {
        let dr = dir_r(d);
        let dc = dir_c(d);
        let k = b.run(mr + dr, mc + dc, dr, dc, opposite(cur));
        assert(b.flank(cur, mr, mc, d) == k);
        lemma_run_cells(b, mr + dr, mc + dc, dr, dc, opposite(cur), t - 1);
        let qr = mr + scale(t, dr);
        let qc = mc + scale(t, dc);
        assert(mr + dr + scale(t - 1, dr) == qr);
        assert(mc + dc + scale(t - 1, dc) == qc);
        assert(holds(b, qr, qc, opposite(cur)));
        assert(ray_step(mr, mc, d, qr, qc) == t);
        lemma_captured_at(b, cur, mr, mc, 8, d, qr, qc);
        let q = qr * 8 + qc;
        assert(q / 8 == qr && q % 8 == qc);
        assert(b.after_move(mv)[q] == cur);
    }
    assert(mv.index() / 8 == mr && mv.index() % 8 == mc);
    assert forall|d: int, t: int|
        0 <= d < 8 && 1 <= t <= b.flank(b.current_color(), mv.row as int, mv.col as int, d) implies #[trigger] holds(
        b,
        mv.row as int + scale(t, dir_r(d)),
        mv.col as int + scale(t, dir_c(d)),
        opposite(b.current_color()),
    ) by {
        let dr = dir_r(d);
        let dc = dir_c(d);
        lemma_run_cells(b, mr + dr, mc + dc, dr, dc, opposite(cur), t - 1);
        assert(mr + dr + scale(t - 1, dr) == mr + scale(t, dr));
        assert(mc + dc + scale(t - 1, dc) == mc + scale(t, dc));
    }
}
} // verus!
