use vstd::prelude::*;
use crate::board::{OthelloBoard, EMPTY, WHITE, BLACK, lemma_cells_len, lemma_board_ext};
use crate::errors::{ParseError, ParseResult};
use crate::tile::Tile;

verus! {

broadcast use lemma_cells_len;

/// Relies on `String::push`: the character is appended at the end.
#[verifier::external_body]
fn push_char(s: &mut String, c: char)
    ensures
        final(s)@ == old(s)@.push(c),
{
    s.push(c);
}

/// The notation symbol of a cell value.
pub open spec fn symbol_of(v: u8) -> char {
    if v == WHITE {
        'B'
    } else if v == BLACK {
        'W'
    } else {
        'E'
    }
}

/// The cell value that a notation symbol stands for, if it stands for one.
pub open spec fn value_of(c: char) -> Option<u8> {
    if c == 'E' {
        Some(EMPTY)
    } else if c == 'B' {
        Some(WHITE)
    } else if c == 'W' {
        Some(BLACK)
    } else {
        None
    }
}

/// The side to move that a turn marker stands for (`true`: `BLACK`), if any.
pub open spec fn turn_of(c: char) -> Option<bool> {
    if c == 'B' {
        Some(true)
    } else if c == 'W' {
        Some(false)
    } else {
        None
    }
}

/// The decimal digit `n` (0..10).
pub open spec fn digit_char(n: int) -> char {
    if n == 0 {
        '0'
    } else if n == 1 {
        '1'
    } else if n == 2 {
        '2'
    } else if n == 3 {
        '3'
    } else if n == 4 {
        '4'
    } else if n == 5 {
        '5'
    } else if n == 6 {
        '6'
    } else if n == 7 {
        '7'
    } else if n == 8 {
        '8'
    } else {
        '9'
    }
}

/// The value of a decimal digit character, if it is one.
pub open spec fn digit_value(c: char) -> Option<int> {
    if '0' <= c <= '9' {
        Some(c as int - '0' as int)
    } else {
        None
    }
}

/// The length of the run of equal symbols at the end of `s`.
pub open spec fn trailing_run(s: Seq<char>) -> nat
    decreases s.len(),
{
    if s.len() <= 1 {
        s.len()
    } else if s[s.len() - 2] == s[s.len() - 1] {
        1 + trailing_run(s.drop_last())
    } else {
        1
    }
}

/// One run of `k` copies of `sym`: its length when above one, then the symbol.
pub open spec fn run_group(k: int, sym: char) -> Seq<char> {
    if k > 1 {
        seq![digit_char(k), sym]
    } else {
        seq![sym]
    }
}

/// The run-length form of a row of symbols: each maximal run in turn.
pub open spec fn run_length(s: Seq<char>) -> Seq<char>
    decreases s.len(),
{
    if s.len() == 0 {
        seq![]
    } else {
        let k = trailing_run(s);
        if 0 < k <= s.len() {
            run_length(s.subrange(0, s.len() - k)) + run_group(k as int, s.last())
        } else {
            seq![]
        }
    }
}

/// The symbols of row `r` of `cells`.
pub open spec fn row_symbols(cells: Seq<u8>, r: int) -> Seq<char> {
    Seq::new(8, |c: int| symbol_of(cells[r * 8 + c]))
}

/// The notation of rows `0..n`, each row followed by `/`.
pub open spec fn rows_notation(cells: Seq<u8>, n: int) -> Seq<char>
    decreases n,
{
    if n <= 0 {
        seq![]
    } else {
        rows_notation(cells, n - 1) + run_length(row_symbols(cells, n - 1)) + seq!['/']
    }
}

/// The notation of a position: the eight rows, then the turn marker.
pub open spec fn notation(cells: Seq<u8>, black: bool) -> Seq<char> {
    rows_notation(cells, 8) + seq![if black { 'B' } else { 'W' }]
}

/// Where the reader of a notation string stands.
pub struct Reading {
    pub cells: Seq<u8>,
    pub black: bool,
    pub row: int,
    pub col: int,
    pub count: int,
    pub done: bool,
}

/// One character read in state `st`: `None` when the character is refused.
pub open spec fn read_step(st: Reading, c: char) -> Option<Reading> {
    if st.row > 7 {
        match turn_of(c) {
            Some(b) => Some(Reading { black: b, done: true, ..st }),
            None => None,
        }
    } else if c == '/' {
        Some(Reading { row: st.row + 1, col: 0, ..st })
    } else if digit_value(c) is Some {
        Some(Reading { count: digit_value(c)->0, ..st })
    } else if st.count + st.col > 8 {
        None
    } else if value_of(c) is None {
        None
    } else {
        let start = st.row * 8 + st.col;
        let v = value_of(c)->0;
        Some(
            Reading {
                cells: Seq::new(
                    64,
                    |j: int|
                        if start <= j < start + st.count {
                            v
                        } else {
                            st.cells[j]
                        },
                ),
                col: st.col + st.count,
                count: 1,
                ..st
            },
        )
    }
}

/// The reading of `s` from position `i` on, in state `st`; it stops after the
/// turn marker.
pub open spec fn read_from(st: Reading, s: Seq<char>, i: int) -> Option<Reading>
    decreases s.len() - i,
{
    if i >= s.len() || i < 0 || st.done {
        Some(st)
    } else {
        match read_step(st, s[i]) {
            Some(next) => read_from(next, s, i + 1),
            None => None,
        }
    }
}

/// The state a reading starts in: the starting position, `BLACK` to move.
pub open spec fn read_start() -> Reading {
    Reading {
        cells: OthelloBoard::initial_cells(),
        black: true,
        row: 0,
        col: 0,
        count: 1,
        done: false,
    }
}

/// The result of reading a whole notation string.
pub open spec fn read_notation(s: Seq<char>) -> Option<Reading> {
    read_from(read_start(), s, 0)
}

fn digit_to_char(n: u8) -> (r: char)
    requires
        n < 10,
    ensures
        r == digit_char(n as int),
{
    match n {
        0 => '0',
        1 => '1',
        2 => '2',
        3 => '3',
        4 => '4',
        5 => '5',
        6 => '6',
        7 => '7',
        8 => '8',
        _ => '9',
    }
}

fn symbol_value(c: char) -> (r: Option<u8>)
    ensures
        r == value_of(c),
{
    if c == 'E' {
        Some(EMPTY)
    } else if c == 'B' {
        Some(WHITE)
    } else if c == 'W' {
        Some(BLACK)
    } else {
        None
    }
}


proof fn lemma_trailing_run(s: Seq<char>, k: int)
    requires
        1 <= k <= s.len(),
        forall|j: int| s.len() - k <= j < s.len() ==> #[trigger] s[j] == s.last(),
        k == s.len() || s[s.len() - k - 1] != s.last(),
    ensures
        trailing_run(s) == k,
    decreases k,
{
    if k > 1 {
        assert(s[s.len() - 2] == s.last());
        let t = s.drop_last();
        assert forall|j: int| t.len() - (k - 1) <= j < t.len() implies #[trigger] t[j] == t.last() by {
            assert(t[j] == s[j]);
            assert(t.last() == s[s.len() - 2]);
        }
        lemma_trailing_run(t, k - 1);
    } else if s.len() > 1 {
        assert(s[s.len() - 2] != s.last());
    }
}

proof fn lemma_run_length_close(row: Seq<char>, c: int, count: int)
    requires
        1 <= count <= c <= row.len(),
        forall|j: int| c - count <= j < c ==> #[trigger] row[j] == row[c - 1],
        c - count == 0 || row[c - count - 1] != row[c - 1],
    ensures
        run_length(row.subrange(0, c)) == run_length(row.subrange(0, c - count)) + run_group(
            count,
            row[c - 1],
        ),
{
    let s = row.subrange(0, c);
    assert forall|j: int| s.len() - count <= j < s.len() implies #[trigger] s[j] == s.last() by {
        assert(s[j] == row[j]);
    }
    lemma_trailing_run(s, count);
    assert(s.subrange(0, s.len() - count) =~= row.subrange(0, c - count));
}

/// `cells` with columns `0..p` of row `r` taken from `target`.
pub open spec fn fill_row(cells: Seq<u8>, target: Seq<u8>, r: int, p: int) -> Seq<u8> {
    Seq::new(
        64,
        |j: int|
            if r * 8 <= j < r * 8 + p {
                target[j]
            } else {
                cells[j]
            },
    )
}

/// `cells` with rows `0..n` taken from `target`.
pub open spec fn fill_rows(cells: Seq<u8>, target: Seq<u8>, n: int) -> Seq<u8> {
    Seq::new(
        64,
        |j: int|
            if j < n * 8 {
                target[j]
            } else {
                cells[j]
            },
    )
}

proof fn lemma_trailing_run_facts(s: Seq<char>)
    requires
        s.len() > 0,
    ensures
        1 <= trailing_run(s) <= s.len(),
        forall|j: int| s.len() - trailing_run(s) <= j < s.len() ==> #[trigger] s[j] == s.last(),
    decreases s.len(),
{
    if s.len() > 1 && s[s.len() - 2] == s[s.len() - 1] {
        let t = s.drop_last();
        lemma_trailing_run_facts(t);
        assert forall|j: int| s.len() - trailing_run(s) <= j < s.len() implies #[trigger] s[j]
            == s.last() by {
            if j < s.len() - 1 {
                assert(t[j] == t.last());
            }
        }
    }
}

/// Reading the run-length form of the first `p` cells of row `r` of `target`
/// fills exactly those cells.
proof fn lemma_read_row_prefix(st: Reading, target: Seq<u8>, r: int, p: int, s: Seq<char>, i: int)
    requires
        0 <= r < 8,
        0 <= p <= 8,
        st.row == r,
        st.col == 0,
        st.count == 1,
        !st.done,
        st.cells.len() == 64,
        target.len() == 64,
        forall|j: int| 0 <= j < 64 ==> #[trigger] target[j] <= 2,
        0 <= i,
        i + run_length(row_symbols(target, r).subrange(0, p)).len() <= s.len(),
        s.subrange(i, i + run_length(row_symbols(target, r).subrange(0, p)).len()) == run_length(
            row_symbols(target, r).subrange(0, p),
        ),
    ensures
        read_from(st, s, i) == read_from(
            Reading { cells: fill_row(st.cells, target, r, p), col: p, ..st },
            s,
            i + run_length(row_symbols(target, r).subrange(0, p)).len(),
        ),
    decreases p,
{
    let row = row_symbols(target, r);
    if p == 0 {
        assert(fill_row(st.cells, target, r, 0) =~= st.cells);
        assert(row.subrange(0, 0).len() == 0);
        assert((Reading { cells: fill_row(st.cells, target, r, p), col: p, ..st }) == st);
    } else {
        let full = row.subrange(0, p);
        lemma_trailing_run_facts(full);
        let k = trailing_run(full) as int;
        let q = p - k;
        let sym = full.last();
        assert(full.subrange(0, full.len() - k) =~= row.subrange(0, q));
        let e1 = run_length(row.subrange(0, q));
        let g = run_group(k, sym);
        let e = run_length(full);
        assert(e == e1 + g);
        let i1 = i + e1.len();
        assert(s.subrange(i, i + e1.len()) =~= e1) by {
            assert forall|j: int| 0 <= j < e1.len() implies s.subrange(i, i + e1.len())[j] == e1[j] by {
                assert(s.subrange(i, i + e.len())[j] == e[j]);
            }
        }
        lemma_read_row_prefix(st, target, r, q, s, i);
        let mid = Reading { cells: fill_row(st.cells, target, r, q), col: q, ..st };
        let last = Reading { cells: fill_row(st.cells, target, r, p), col: p, ..st };
        let v = value_of(sym)->0;
        // the symbol names the value of every cell in the run
        assert(sym == symbol_of(target[r * 8 + p - 1]));
        assert(value_of(sym) is Some);
        assert forall|j: int| r * 8 + q <= j < r * 8 + p implies #[trigger] target[j] == v by {
            let c = j - r * 8;
            assert(full[c] == sym);
            assert(row[c] == symbol_of(target[r * 8 + c]));
        }
        let filled = Seq::new(
            64,
            |j: int|
                if r * 8 + q <= j < r * 8 + q + k {
                    v
                } else {
                    mid.cells[j]
                },
        );
        assert(filled =~= last.cells);
        if k > 1 {
            assert(s[i1] == e[e1.len() as int]);
            assert(s[i1 + 1] == e[e1.len() + 1int]);
            let counted = Reading { count: k, ..mid };
            assert(read_step(mid, s[i1]) == Some(counted));
            assert(read_step(counted, s[i1 + 1]) == Some(last));
            assert(read_from(counted, s, i1 + 1) == read_from(last, s, i1 + 2));
            assert(read_from(mid, s, i1) == read_from(counted, s, i1 + 1));
        } else {
            assert(s[i1] == e[e1.len() as int]);
            assert(read_step(mid, s[i1]) == Some(last));
            assert(read_from(mid, s, i1) == read_from(last, s, i1 + 1));
        }
    }
}

/// Reading the first `n` rows of a notation fills rows `0..n`.
proof fn lemma_read_rows(target: Seq<u8>, black: bool, n: int)
    requires
        0 <= n <= 8,
        target.len() == 64,
        forall|j: int| 0 <= j < 64 ==> #[trigger] target[j] <= 2,
    ensures
        rows_notation(target, n).len() <= notation(target, black).len(),
        notation(target, black).subrange(0, rows_notation(target, n).len() as int) == rows_notation(target, n),
        read_notation(notation(target, black)) == read_from(
            Reading {
                cells: fill_rows(OthelloBoard::initial_cells(), target, n),
                black: true,
                row: n,
                col: 0,
                count: 1,
                done: false,
            },
            notation(target, black),
            rows_notation(target, n).len() as int,
        ),
    decreases n,
{
    let s = notation(target, black);
    lemma_rows_prefix(target, black, n);
    if n == 0 {
        assert(fill_rows(OthelloBoard::initial_cells(), target, 0) =~= OthelloBoard::initial_cells());
        assert(read_start() == (Reading {
            cells: fill_rows(OthelloBoard::initial_cells(), target, 0),
            black: true,
            row: 0,
            col: 0,
            count: 1,
            done: false,
        }));
    } else {
        lemma_read_rows(target, black, n - 1);
        let st = Reading {
            cells: fill_rows(OthelloBoard::initial_cells(), target, n - 1),
            black: true,
            row: n - 1,
            col: 0,
            count: 1,
            done: false,
        };
        let row = row_symbols(target, n - 1);
        assert(row.subrange(0, 8) =~= row);
        let i = rows_notation(target, n - 1).len() as int;
        let e = run_length(row);
        let prefix = rows_notation(target, n);
        assert(prefix == rows_notation(target, n - 1) + e + seq!['/']);
        assert(s.subrange(i, i + e.len()) =~= e) by {
            assert forall|j: int| 0 <= j < e.len() implies s.subrange(i, i + e.len())[j] == e[j] by {
                assert(s[i + j] == prefix[i + j]);
            }
        }
        lemma_read_row_prefix(st, target, n - 1, 8, s, i);
        let after = Reading { cells: fill_row(st.cells, target, n - 1, 8), col: 8, ..st };
        assert(s[i + e.len()] == prefix[i + e.len()]);
        assert(s[i + e.len()] == '/');
        let next = Reading {
            cells: fill_rows(OthelloBoard::initial_cells(), target, n),
            black: true,
            row: n,
            col: 0,
            count: 1,
            done: false,
        };
        assert(fill_row(st.cells, target, n - 1, 8) =~= next.cells);
        assert(read_step(after, '/') == Some(next));
    }
}

proof fn lemma_rows_prefix(target: Seq<u8>, black: bool, n: int)
    requires
        0 <= n <= 8,
    ensures
        rows_notation(target, n).len() <= notation(target, black).len(),
        notation(target, black).subrange(0, rows_notation(target, n).len() as int) == rows_notation(target, n),
    decreases 8 - n,
{
    let s = notation(target, black);
    if n == 8 {
        assert(s.subrange(0, rows_notation(target, 8).len() as int) =~= rows_notation(target, 8));
    } else {
        lemma_rows_prefix(target, black, n + 1);
        let longer = rows_notation(target, n + 1);
        let shorter = rows_notation(target, n);
        assert(longer == shorter + run_length(row_symbols(target, n)) + seq!['/']);
        assert(s.subrange(0, shorter.len() as int) =~= shorter) by {
            assert forall|j: int| 0 <= j < shorter.len() implies s.subrange(0, shorter.len() as int)[j] == shorter[j] by {
                assert(s.subrange(0, longer.len() as int)[j] == longer[j]);
            }
        }
    }
}

/// Reading a position's notation gives the position back: the cells and the side
/// to move, and so the very board.
pub proof fn lemma_notation_round_trip(b: OthelloBoard)
    requires
        b.wf(),
    ensures
        read_notation(notation(b.cells(), b.black_to_move())) is Some,
        read_notation(notation(b.cells(), b.black_to_move()))->0.cells == b.cells(),
        read_notation(notation(b.cells(), b.black_to_move()))->0.black == b.black_to_move(),
        forall|c: OthelloBoard|
            c.cells() == read_notation(notation(b.cells(), b.black_to_move()))->0.cells
                && c.black_to_move() == read_notation(notation(b.cells(), b.black_to_move()))->0.black
                ==> c == b,
{
    let target = b.cells();
    let black = b.black_to_move();
    assert forall|j: int| 0 <= j < 64 implies #[trigger] target[j] <= 2 by {}
    lemma_read_rows(target, black, 8);
    let s = notation(target, black);
    let i = rows_notation(target, 8).len() as int;
    let st = Reading {
        cells: fill_rows(OthelloBoard::initial_cells(), target, 8),
        black: true,
        row: 8,
        col: 0,
        count: 1,
        done: false,
    };
    assert(s[i] == (if black { 'B' } else { 'W' }));
    let fin = Reading { black, done: true, ..st };
    assert(read_step(st, s[i]) == Some(fin));
    assert(read_from(fin, s, i + 1) == Some(fin));
    assert(fill_rows(OthelloBoard::initial_cells(), target, 8) =~= target);
    assert forall|c: OthelloBoard|
        c.cells() == read_notation(s)->0.cells && c.black_to_move() == read_notation(s)->0.black
            implies c == b by {
        lemma_board_ext(c, b);
    }
}

impl OthelloBoard {
    /// The notation symbol of the cell at `tile`.
    pub fn get_symbol(&self, tile: Tile) -> (r: char)
        requires
            tile.valid(),
        ensures
            r == symbol_of(self.cells()[tile.index()]),
    {
        match self.get_tile(tile) {
            1 => 'B',
            2 => 'W',
            _ => 'E',
        }
    }

    /// Sets the cell at `tile` to the value that `sym` stands for; refuses a
    /// symbol other than `E`, `B` or `W` and leaves the board unchanged.
    pub fn set_symbol(&mut self, tile: Tile, sym: char) -> (r: ParseResult<()>)
        requires
            tile.valid(),
        ensures
            r is Ok <==> value_of(sym) is Some,
            r is Ok ==> final(self).cells() == old(self).cells().update(
                tile.index(),
                value_of(sym)->0,
            ),
            r is Err ==> final(self).cells() == old(self).cells(),
            final(self).black_to_move() == old(self).black_to_move(),
    {
        let byte = match symbol_value(sym) {
            Some(b) => b,
            None => {
                return Err(ParseError::new("Tile symbol must be E, B or W"));
            },
        };
        self.set_tile(tile, byte);
        Ok(())
    }

    /// Sets the side to move from a turn marker, `B` or `W`; refuses any other
    /// character and leaves the board unchanged.
    pub fn set_turn(&mut self, sym: char) -> (r: ParseResult<()>)
        ensures
            r is Ok <==> turn_of(sym) is Some,
            r is Ok ==> final(self).black_to_move() == turn_of(sym)->0,
            r is Err ==> final(self).black_to_move() == old(self).black_to_move(),
            final(self).cells() == old(self).cells(),
    {
        let black = if sym == 'B' {
            true
        } else if sym == 'W' {
            false
        } else {
            return Err(ParseError::new("Turn must be B or W"));
        };
        self.set_black_move(black);
        Ok(())
    }

    /// Appends the run-length form of row `r` to `out`.
    fn push_row(&self, out: &mut String, r: i8)
        requires
            0 <= r < 8,
        ensures
            final(out)@ == old(out)@ + run_length(row_symbols(self.cells(), r as int)),
    {
        let ghost row = row_symbols(self.cells(), r as int);
        let ghost base = out@;
        let mut sym = self.get_symbol(Tile::new(r, 0));
        let mut count: i8 = 1;
        let mut c: i8 = 1;
        while c < 8
            invariant
                0 <= r < 8,
                1 <= count <= c <= 8,
                row == row_symbols(self.cells(), r as int),
                sym == row[c - 1],
                forall|j: int| c - count <= j < c ==> #[trigger] row[j] == sym,
                c - count == 0 || row[c - count - 1] != sym,
                out@ == base + run_length(row.subrange(0, c - count)),
            decreases 8 - c,
        {
            let new_sym = self.get_symbol(Tile::new(r, c));
            if new_sym == sym {
                count = count + 1;
            } else {
                proof {
                    lemma_run_length_close(row, c as int, count as int);
                }
                if count > 1 {
                    push_char(out, digit_to_char(count as u8));
                }
                push_char(out, sym);
                assert(out@ =~= base + run_length(row.subrange(0, c as int)));
                sym = new_sym;
                count = 1;
            }
            c = c + 1;
        }
        proof {
            lemma_run_length_close(row, 8, count as int);
            assert(row.subrange(0, 8) =~= row);
        }
        if count > 1 {
            push_char(out, digit_to_char(count as u8));
        }
        push_char(out, sym);
        assert(out@ =~= base + run_length(row));
    }

    /// The position's notation: for each row its runs of equal cells, each as a
    /// count (when above one) and a symbol, the row closed by `/`; then the turn
    /// marker.
    pub fn to_notation(&self) -> (r: String)
        ensures
            r@ == notation(self.cells(), self.black_to_move()),
    {
        let mut out = String::new();
        let mut r: i8 = 0;
        while r < 8
            invariant
                0 <= r <= 8,
                out@ == rows_notation(self.cells(), r as int),
            decreases 8 - r,
        {
            self.push_row(&mut out, r);
            push_char(&mut out, '/');
            r = r + 1;
        }
        push_char(
            &mut out,
            if self.is_black_move() {
                'B'
            } else {
                'W'
            },
        );
        out
    }

    /// Writes `count` cells of value `v` from (row, col) on.
    fn fill_run(&mut self, row: i8, col: i8, count: i8, v: u8)
        requires
            0 <= row < 8,
            0 <= col,
            0 <= count,
            col + count <= 8,
            v <= 2,
        ensures
            final(self).cells() == Seq::new(
                64,
                |j: int|
                    if row * 8 + col <= j < row * 8 + col + count {
                        v
                    } else {
                        old(self).cells()[j]
                    },
            ),
            final(self).black_to_move() == old(self).black_to_move(),
    {
        let ghost start = row * 8 + col;
        let mut k: i8 = 0;
        assert(self.cells() =~= Seq::new(
            64,
            |j: int|
                if start <= j < start + k {
                    v
                } else {
                    old(self).cells()[j]
                },
        ));
        while k < count
            invariant
                0 <= row < 8,
                0 <= col,
                0 <= k <= count,
                col + count <= 8,
                v <= 2,
                start == row * 8 + col,
                self.black_to_move() == old(self).black_to_move(),
                self.cells() == Seq::new(
                    64,
                    |j: int|
                        if start <= j < start + k {
                            v
                        } else {
                            old(self).cells()[j]
                        },
                ),
            decreases count - k,
        {
            self.set_tile(Tile::new(row, col + k), v);
            k = k + 1;
            assert(self.cells() =~= Seq::new(
                64,
                |j: int|
                    if start <= j < start + k {
                        v
                    } else {
                        old(self).cells()[j]
                    },
            ));
        }
    }

    /// Reads a position from its notation. Rows are read in order, `/` closing
    /// each; a digit sets how many cells the next symbol fills (one by default);
    /// after the eighth `/` the next character is the turn marker and the rest is
    /// ignored. Cells that the text does not reach keep their starting-position
    /// values. Refuses a row that would pass eight cells, a cell symbol other than
    /// `E`, `B` or `W` (whatever count precedes it), and a turn marker other than
    /// `B` or `W`.
    pub fn from_notation(s: &str) -> (r: ParseResult<OthelloBoard>)
        ensures
            r is Ok <==> read_notation(s@) is Some,
            r is Ok ==> r->Ok_0.cells() == read_notation(s@)->0.cells,
            r is Ok ==> r->Ok_0.black_to_move() == read_notation(s@)->0.black,
            r is Ok ==> r->Ok_0.wf(),
    {
        let mut board = OthelloBoard::new();
        let mut row: i8 = 0;
        let mut col: i8 = 0;
        let mut count: i8 = 1;
        let mut done = false;
        let n = s.unicode_len();
        let mut i: usize = 0;
        while i < n && !done
            invariant
                n == s@.len(),
                i <= n,
                0 <= row <= 8,
                0 <= col <= 8,
                0 <= count <= 9,
                board.wf(),
                read_from(
                    Reading {
                        cells: board.cells(),
                        black: board.black_to_move(),
                        row: row as int,
                        col: col as int,
                        count: count as int,
                        done,
                    },
                    s@,
                    i as int,
                ) == read_notation(s@),
            decreases n - i,
        {
            let c = s.get_char(i);
            if row > 7 {
                match board.set_turn(c) {
                    Ok(()) => {},
                    Err(e) => {
                        return Err(e);
                    },
                }
                done = true;
            } else if c == '/' {
                row = row + 1;
                col = 0;
            } else if '0' <= c && c <= '9' {
                count = (c as u32 - '0' as u32) as i8;
            } else {
                if count + col > 8 {
                    return Err(ParseError::new("Cannot have more than 8 cols per row"));
                }
                match symbol_value(c) {
                    Some(v) => {
                        board.fill_run(row, col, count, v);
                    },
                    None => {
                        return Err(ParseError::new("Tile symbol must be E, B or W"));
                    },
                }
                col = col + count;
                count = 1;
            }
            i = i + 1;
        }
        Ok(board)
    }
}

} // verus!
