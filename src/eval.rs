use vstd::prelude::*;
use crate::board::{OthelloBoard, BLACK, WHITE, lemma_cells_len};
use crate::tile::Tile;

verus! {

broadcast use lemma_cells_len;

/// Scores are fixed-point: a sub-heuristic of value 1 with weight `w` adds
/// `w * SCORE_SCALE`.
pub const SCORE_SCALE: u64 = 10000;

pub const PARITY_WEIGHT: u64 = 50;
pub const CORNER_WEIGHT: u64 = 100;
pub const MOBILITY_WEIGHT: u64 = 100;
pub const XC_SQUARE_WEIGHT: u64 = 50;
pub const STABILITY_WEIGHT: i64 = 100;

/// The largest magnitude a score can have.
pub const MAX_SCORE: i64 = 3000000;

/// `weight * (a - b) / (a + b)` in score units, rounded toward zero; zero when
/// `a + b` is zero.
pub open spec fn ratio_term(weight: int, a: int, b: int) -> int {
    if a + b == 0 {
        0
    } else if a >= b {
        (weight * SCORE_SCALE * (a - b)) / (a + b)
    } else {
        -((weight * SCORE_SCALE * (b - a)) / (a + b))
    }
}

/// How many of the cells at `idx` hold `color`.
pub open spec fn count_at(cells: Seq<u8>, idx: Seq<int>, color: u8) -> int
    decreases idx.len(),
{
    if idx.len() == 0 {
        0
    } else {
        count_at(cells, idx.drop_last(), color) + if cells[idx.last()] == color {
            1int
        } else {
            0
        }
    }
}

/// All 64 cell indices.
pub open spec fn all_cells() -> Seq<int> {
    Seq::new(64, |i: int| i)
}

/// The four corner cells.
pub open spec fn corner_cells() -> Seq<int> {
    seq![0, 7, 56, 63]
}

/// The twelve cells beside or diagonal to a corner.
pub open spec fn xc_cells() -> Seq<int> {
    seq![9, 14, 49, 54, 1, 6, 57, 62, 8, 15, 48, 55]
}

/// Disc-count differential over the whole board.
pub open spec fn parity_score(b: OthelloBoard) -> int {
    ratio_term(
        PARITY_WEIGHT as int,
        count_at(b.cells(), all_cells(), BLACK),
        count_at(b.cells(), all_cells(), WHITE),
    )
}

/// Differential over the corners.
pub open spec fn corner_score(b: OthelloBoard) -> int {
    ratio_term(
        CORNER_WEIGHT as int,
        count_at(b.cells(), corner_cells(), BLACK),
        count_at(b.cells(), corner_cells(), WHITE),
    )
}

/// Differential in the number of moves each side has.
pub open spec fn mobility_score(b: OthelloBoard) -> int {
    ratio_term(
        MOBILITY_WEIGHT as int,
        b.potential_moves(BLACK).len() as int,
        b.potential_moves(WHITE).len() as int,
    )
}

/// Differential over the cells beside the corners, counted against their holder.
pub open spec fn xc_square_score(b: OthelloBoard) -> int {
    ratio_term(
        XC_SQUARE_WEIGHT as int,
        count_at(b.cells(), xc_cells(), WHITE),
        count_at(b.cells(), xc_cells(), BLACK),
    )
}

/// The static score of a position: positive favours `BLACK`, negative `WHITE`.
/// The stability term is reserved and adds nothing.
pub open spec fn heuristic(b: OthelloBoard) -> int {
    parity_score(b) + corner_score(b) + mobility_score(b) + xc_square_score(b)
        + STABILITY_WEIGHT * 0
}

proof fn lemma_count_at_bounds(cells: Seq<u8>, idx: Seq<int>, color: u8)
    ensures
        0 <= count_at(cells, idx, color) <= idx.len(),
    decreases idx.len(),
{
    if idx.len() > 0 {
        lemma_count_at_bounds(cells, idx.drop_last(), color);
    }
}

proof fn lemma_ratio_bounds(weight: int, a: int, b: int)
    requires
        0 <= weight <= 100,
        0 <= a,
        0 <= b,
    ensures
        -weight * SCORE_SCALE <= ratio_term(weight, a, b) <= weight * SCORE_SCALE,
{
    if a + b != 0 {
        if a >= b {
            assert(weight * SCORE_SCALE * (a - b) <= weight * SCORE_SCALE * (a + b))
                by (nonlinear_arith)
                requires
                    0 <= weight,
                    0 <= b,
                    a >= b,
            ;
            assert((weight * SCORE_SCALE * (a - b)) / (a + b) <= weight * SCORE_SCALE)
                by (nonlinear_arith)
                requires
                    weight * SCORE_SCALE * (a - b) <= weight * SCORE_SCALE * (a + b),
                    a + b > 0,
                    weight * SCORE_SCALE * (a - b) >= 0,
            ;
        } else {
            assert(weight * SCORE_SCALE * (b - a) <= weight * SCORE_SCALE * (a + b))
                by (nonlinear_arith)
                requires
                    0 <= weight,
                    0 <= a,
                    b > a,
            ;
            assert((weight * SCORE_SCALE * (b - a)) / (a + b) <= weight * SCORE_SCALE)
                by (nonlinear_arith)
                requires
                    weight * SCORE_SCALE * (b - a) <= weight * SCORE_SCALE * (a + b),
                    a + b > 0,
                    weight * SCORE_SCALE * (b - a) >= 0,
            ;
        }
    }
}

/// Every score lies within `MAX_SCORE` of zero.
pub proof fn lemma_heuristic_bounds(b: OthelloBoard)
    ensures
        -MAX_SCORE <= heuristic(b) <= MAX_SCORE,
{
    lemma_count_at_bounds(b.cells(), all_cells(), BLACK);
    lemma_count_at_bounds(b.cells(), all_cells(), WHITE);
    lemma_count_at_bounds(b.cells(), corner_cells(), BLACK);
    lemma_count_at_bounds(b.cells(), corner_cells(), WHITE);
    lemma_count_at_bounds(b.cells(), xc_cells(), BLACK);
    lemma_count_at_bounds(b.cells(), xc_cells(), WHITE);
    lemma_ratio_bounds(
        PARITY_WEIGHT as int,
        count_at(b.cells(), all_cells(), BLACK),
        count_at(b.cells(), all_cells(), WHITE),
    );
    lemma_ratio_bounds(
        CORNER_WEIGHT as int,
        count_at(b.cells(), corner_cells(), BLACK),
        count_at(b.cells(), corner_cells(), WHITE),
    );
    lemma_ratio_bounds(
        MOBILITY_WEIGHT as int,
        b.potential_moves(BLACK).len() as int,
        b.potential_moves(WHITE).len() as int,
    );
    lemma_ratio_bounds(
        XC_SQUARE_WEIGHT as int,
        count_at(b.cells(), xc_cells(), WHITE),
        count_at(b.cells(), xc_cells(), BLACK),
    );
}

/// `weight * (a - b) / (a + b)` in score units, rounded toward zero.
fn ratio(weight: u64, a: u64, b: u64) -> (r: i64)
    requires
        weight <= 100,
        a <= 1024,
        b <= 1024,
    ensures
        r == ratio_term(weight as int, a as int, b as int),
        -1000000 <= r <= 1000000,
{
    proof {
        lemma_ratio_bounds(weight as int, a as int, b as int);
    }
    if a + b == 0 {
        0
    } else if a >= b {
        assert(weight * SCORE_SCALE * (a - b) <= 100 * 10000 * 1024) by (nonlinear_arith)
            requires
                weight <= 100,
                a - b <= 1024,
                a >= b,
        ;
        let q = (weight * SCORE_SCALE * (a - b)) / (a + b);
        assert(q <= weight * SCORE_SCALE * (a - b)) by (nonlinear_arith)
            requires
                a + b > 0,
                q == (weight * SCORE_SCALE * (a - b)) / (a + b),
        ;
        q as i64
    } else {
        assert(weight * SCORE_SCALE * (b - a) <= 100 * 10000 * 1024) by (nonlinear_arith)
            requires
                weight <= 100,
                b - a <= 1024,
                b > a,
        ;
        let q = (weight * SCORE_SCALE * (b - a)) / (a + b);
        assert(q <= weight * SCORE_SCALE * (b - a)) by (nonlinear_arith)
            requires
                a + b > 0,
                q == (weight * SCORE_SCALE * (b - a)) / (a + b),
        ;
        -(q as i64)
    }
}

/// Counts the discs of each color on the cells `idx`: (`BLACK`, `WHITE`).
fn count_colors(board: &OthelloBoard, idx: &[usize]) -> (r: (u64, u64))
    requires
        idx@.len() <= 64,
        forall|j: int| 0 <= j < idx@.len() ==> #[trigger] idx@[j] < 64,
    ensures
        r.0 == count_at(board.cells(), idx@.map_values(|k: usize| k as int), BLACK),
        r.1 == count_at(board.cells(), idx@.map_values(|k: usize| k as int), WHITE),
{
    let ghost all = idx@.map_values(|k: usize| k as int);
    let mut black: u64 = 0;
    let mut white: u64 = 0;
    let mut j: usize = 0;
    while j < idx.len()
        invariant
            j <= idx@.len(),
            idx@.len() <= 64,
            forall|k: int| 0 <= k < idx@.len() ==> #[trigger] idx@[k] < 64,
            all == idx@.map_values(|k: usize| k as int),
            black <= j,
            white <= j,
            black == count_at(board.cells(), all.subrange(0, j as int), BLACK),
            white == count_at(board.cells(), all.subrange(0, j as int), WHITE),
        decreases idx@.len() - j,
    {
        let color = board.get_tile(Tile::from_index(idx[j]));
        if color == BLACK {
            black = black + 1;
        }
        if color == WHITE {
            white = white + 1;
        }
        assert(all.subrange(0, j + 1).drop_last() =~= all.subrange(0, j as int));
        j = j + 1;
    }
    assert(all.subrange(0, idx@.len() as int) =~= all);
    (black, white)
}

fn find_parity_heuristic(board: &OthelloBoard) -> (r: i64)
    ensures
        r == parity_score(*board),
        -1000000 <= r <= 1000000,
{
    let idx: [usize; 64] = [
        0, 1, 2, 3, 4, 5, 6, 7, 8, 9, 10, 11, 12, 13, 14, 15, 16, 17, 18, 19, 20, 21, 22, 23,
        24, 25, 26, 27, 28, 29, 30, 31, 32, 33, 34, 35, 36, 37, 38, 39, 40, 41, 42, 43, 44, 45,
        46, 47, 48, 49, 50, 51, 52, 53, 54, 55, 56, 57, 58, 59, 60, 61, 62, 63,
    ];
    assert(idx@.map_values(|k: usize| k as int) =~= all_cells());
    let (black, white) = count_colors(board, &idx);
    proof {
        lemma_count_at_bounds(board.cells(), all_cells(), BLACK);
        lemma_count_at_bounds(board.cells(), all_cells(), WHITE);
    }
    ratio(PARITY_WEIGHT, black, white)
}

fn find_corner_heuristic(board: &OthelloBoard) -> (r: i64)
    ensures
        r == corner_score(*board),
        -1000000 <= r <= 1000000,
{
    let idx: [usize; 4] = [0, 7, 56, 63];
    assert(idx@.map_values(|k: usize| k as int) =~= corner_cells());
    let (black, white) = count_colors(board, &idx);
    proof {
        lemma_count_at_bounds(board.cells(), corner_cells(), BLACK);
        lemma_count_at_bounds(board.cells(), corner_cells(), WHITE);
    }
    ratio(CORNER_WEIGHT, black, white)
}

fn find_xc_square_heuristic(board: &OthelloBoard) -> (r: i64)
    ensures
        r == xc_square_score(*board),
        -1000000 <= r <= 1000000,
{
    let idx: [usize; 12] = [9, 14, 49, 54, 1, 6, 57, 62, 8, 15, 48, 55];
    assert(idx@.map_values(|k: usize| k as int) =~= xc_cells());
    let (black, white) = count_colors(board, &idx);
    proof {
        lemma_count_at_bounds(board.cells(), xc_cells(), BLACK);
        lemma_count_at_bounds(board.cells(), xc_cells(), WHITE);
    }
    ratio(XC_SQUARE_WEIGHT, white, black)
}

fn find_mobility_heuristic(board: &OthelloBoard) -> (r: i64)
    ensures
        r == mobility_score(*board),
        -1000000 <= r <= 1000000,
{
    let white = board.count_potential_moves(WHITE);
    let black = board.count_potential_moves(BLACK);
    proof {
        board.lemma_potential_moves_len(WHITE);
        board.lemma_potential_moves_len(BLACK);
    }
    ratio(MOBILITY_WEIGHT, black as u64, white as u64)
}

/// The static score of `board` (see `heuristic`).
pub fn find_heuristic(board: &OthelloBoard) -> (r: i64)
    ensures
        r == heuristic(*board),
        -MAX_SCORE <= r <= MAX_SCORE,
{
    proof {
        lemma_heuristic_bounds(*board);
    }
    let parity = find_parity_heuristic(board);
    let corner = find_corner_heuristic(board);
    let mobility = find_mobility_heuristic(board);
    let xc = find_xc_square_heuristic(board);
    parity + corner + mobility + xc + STABILITY_WEIGHT * 0
}

} // verus!
