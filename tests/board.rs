use othello_engine::board::{OthelloBoard, BLACK, EMPTY, WHITE};
use othello_engine::tile::{tiles, Tile};

fn sample_board() -> OthelloBoard {
    OthelloBoard::from_bits(1495472766589663741892773636151968256, true).unwrap()
}

#[test]
fn test_to_notation() {
    let board = sample_board();
    let notation = "4EW3E/3EWBW2E/BE5WE/E2B3W2E/2E2BW3E/E2BWB3E/3EWEB2E/2EWEB3E/B";
    let other_notation = board.to_notation();

    assert_eq!(notation, other_notation);
}

#[test]
fn test_from_notation() {
    let board = sample_board();
    let notation = "4EW3E/3EWBW2E/BE5WE/E2B3W2E/2E2BW3E/E2BWB3E/3EWEB2E/2EWEB3E/B";
    let other_board = OthelloBoard::from_notation(&notation).unwrap();

    assert_eq!(board, other_board);
}

#[test]
fn initial_position_notation() {
    let board = OthelloBoard::new();
    assert_eq!(board.to_notation(), "8E/8E/8E/3EBW3E/3EWB3E/8E/8E/8E/B");
    let mut discs = 0;
    let mut empty = 0;
    for t in tiles() {
        if board.get_tile(t) == EMPTY {
            empty += 1;
        } else {
            discs += 1;
        }
    }
    assert_eq!(discs, 4);
    assert_eq!(empty, 60);
    assert!(board.is_black_move());
}

#[test]
fn initial_moves_in_scan_order() {
    let board = OthelloBoard::new();
    let moves = board.find_current_moves();
    assert_eq!(
        moves,
        vec![Tile::new(3, 2), Tile::new(5, 4), Tile::new(4, 5), Tile::new(2, 3)]
    );
    assert_eq!(board.find_current_moves_as_vec(), moves);
    assert_eq!(board.count_potential_moves(BLACK), 4);
    assert_eq!(board.count_potential_moves(WHITE), 4);
}

#[test]
fn known_opening_move() {
    let board = OthelloBoard::new();
    let next = board.make_move(Tile::from_str("d3").unwrap());
    assert_eq!(next.to_notation(), "8E/8E/3EW4E/3E2W3E/3EWB3E/8E/8E/8E/W");
    assert!(!next.is_black_move());
    let mut changed = 0;
    let mut black = 0;
    for t in tiles() {
        if board.get_tile(t) != next.get_tile(t) {
            changed += 1;
        }
        if next.get_tile(t) == BLACK {
            black += 1;
        }
    }
    assert_eq!(changed, 2);
    assert_eq!(black, 4);
    // the position played from is untouched
    assert_eq!(board.to_notation(), "8E/8E/8E/3EBW3E/3EWB3E/8E/8E/8E/B");
}

#[test]
fn every_legal_move_flips_turn_and_places_disc() {
    let board = OthelloBoard::new();
    for m in board.find_current_moves() {
        let next = board.make_move(m);
        assert_ne!(next.is_black_move(), board.is_black_move());
        assert_eq!(board.get_tile(m), EMPTY);
        assert_eq!(next.get_tile(m), BLACK);
        let flipped = tiles()
            .iter()
            .filter(|t| board.get_tile(**t) == WHITE && next.get_tile(**t) == BLACK)
            .count();
        assert!(flipped >= 1);
    }
}

#[test]
fn flanks_in_several_directions() {
    // BLACK ('W') to play at d4 closes a row to the east and a column to the south;
    // the diagonal run ends on an empty cell and is left alone.
    let board = OthelloBoard::from_notation("8E/8E/8E/4E2BWE/3E2B3E/3EW4E/8E/8E/B").unwrap();
    let next = board.make_move(Tile::new(3, 3));
    assert_eq!(next.to_notation(), "8E/8E/8E/3E4WE/3EWB3E/3EW4E/8E/8E/W");
}

#[test]
fn flank_stops_at_board_edge() {
    // a run of WHITE discs that reaches the edge is not captured
    let board = OthelloBoard::from_notation("8E/8E/8E/E7B/8E/8E/8E/8E/B").unwrap();
    let next = board.make_move(Tile::new(3, 0));
    assert_eq!(next.to_notation(), "8E/8E/8E/W7B/8E/8E/8E/8E/W");
}

#[test]
fn notation_round_trips_along_a_game() {
    let mut board = OthelloBoard::new();
    for _ in 0..30 {
        let text = board.to_notation();
        assert_eq!(OthelloBoard::from_notation(&text).unwrap(), board);
        let moves = board.find_current_moves();
        if moves.is_empty() {
            break;
        }
        board = board.make_move(moves[moves.len() / 2]);
    }
}

#[test]
fn notation_rejects_long_rows() {
    let r = OthelloBoard::from_notation("9E/8E/8E/8E/8E/8E/8E/8E/B");
    assert!(r.is_err());
    let r = OthelloBoard::from_notation("5E4B/8E/8E/8E/8E/8E/8E/8E/B");
    assert!(r.is_err());
}

#[test]
fn notation_rejects_bad_symbols() {
    assert!(OthelloBoard::from_notation("8X/8E/8E/8E/8E/8E/8E/8E/B").is_err());
    assert!(OthelloBoard::from_notation("8E/8E/8E/8E/8E/8E/8E/8E/X").is_err());
    let e = OthelloBoard::from_notation("8E/8E/8E/8E/8E/8E/8E/8E/X").unwrap_err();
    assert_eq!(e.message(), "Turn must be B or W");
}

#[test]
fn notation_reads_turn_and_keeps_unwritten_cells() {
    let b = OthelloBoard::from_notation("8E/8E/8E/8E/8E/8E/8E/8E/W").unwrap();
    assert!(!b.is_black_move());
    assert_eq!(b.to_notation(), "8E/8E/8E/8E/8E/8E/8E/8E/W");
    // an empty text leaves the starting position
    let s = OthelloBoard::from_notation("").unwrap();
    assert_eq!(s, OthelloBoard::new());
}

#[test]
fn symbols_and_turn_setters() {
    let mut b = OthelloBoard::new();
    assert_eq!(b.get_symbol(Tile::new(3, 3)), 'B');
    assert_eq!(b.get_symbol(Tile::new(3, 4)), 'W');
    assert_eq!(b.get_symbol(Tile::new(0, 0)), 'E');
    assert!(b.set_symbol(Tile::new(0, 0), 'W').is_ok());
    assert_eq!(b.get_tile(Tile::new(0, 0)), BLACK);
    assert!(b.set_symbol(Tile::new(0, 0), 'Q').is_err());
    assert_eq!(b.get_tile(Tile::new(0, 0)), BLACK);
    assert!(b.set_turn('W').is_ok());
    assert!(!b.is_black_move());
    assert!(b.set_turn('x').is_err());
    assert!(!b.is_black_move());
}

#[test]
fn set_and_get_tile() {
    let mut b = OthelloBoard::from_bits(0, true).unwrap();
    b.set_tile(Tile::new(7, 7), WHITE);
    b.set_tile(Tile::new(0, 0), BLACK);
    assert_eq!(b.get_tile(Tile::new(7, 7)), WHITE);
    assert_eq!(b.get_tile(Tile::new(0, 0)), BLACK);
    assert_eq!(b.get_tile(Tile::new(4, 4)), EMPTY);
    b.set_tile(Tile::new(7, 7), EMPTY);
    assert_eq!(b.get_tile(Tile::new(7, 7)), EMPTY);
    assert!(OthelloBoard::from_bits(3, true).is_none());
}

#[test]
fn empty_board_has_no_moves() {
    let b = OthelloBoard::from_bits(0, true).unwrap();
    assert!(b.find_current_moves().is_empty());
    assert_eq!(b.count_potential_moves(WHITE), 0);
}

#[test]
fn notation_rejects_bad_symbol_after_zero_count() {
    assert!(OthelloBoard::from_notation("0X").is_err());
    assert!(OthelloBoard::from_notation("0X8E/8E/8E/8E/8E/8E/8E/8E/B").is_err());
    // a zero count with a known symbol writes nothing
    let b = OthelloBoard::from_notation("0W8E/8E/8E/8E/8E/8E/8E/8E/B").unwrap();
    assert_eq!(b.to_notation(), "8E/8E/8E/8E/8E/8E/8E/8E/B");
}
