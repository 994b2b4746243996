use othello_engine::agent::{AgentConfig, OthelloAgent};
use othello_engine::board::OthelloBoard;
use othello_engine::eval::find_heuristic;
use othello_engine::hasher::ZHasher;
use othello_engine::tile::Tile;

#[test]
fn heuristic_of_starting_position_is_even() {
    assert_eq!(find_heuristic(&OthelloBoard::new()), 0);
}

#[test]
fn heuristic_single_black_corner() {
    // one BLACK disc in a corner: parity 50 and corner 100 points, no moves
    let b = OthelloBoard::from_notation("W7E/8E/8E/8E/8E/8E/8E/8E/B").unwrap();
    assert_eq!(find_heuristic(&b), 1_500_000);
}

#[test]
fn heuristic_mixed_terms() {
    // WHITE corner, BLACK beside it: parity 0, corner -100, mobility -100
    // (only WHITE can move), corner-adjacent square -50 against BLACK
    let b = OthelloBoard::from_notation("BW6E/8E/8E/8E/8E/8E/8E/8E/B").unwrap();
    assert_eq!(find_heuristic(&b), -2_500_000);
}

#[test]
fn heuristic_after_opening() {
    // four BLACK discs to one WHITE: parity 50 * 3 / 5; three moves each side,
    // no corner or corner-adjacent disc
    let b = OthelloBoard::new().make_move(Tile::new(2, 3));
    let expected = OthelloBoard::from_notation("8E/8E/3EW4E/3E2W3E/3EWB3E/8E/8E/8E/W").unwrap();
    assert_eq!(b, expected);
    assert_eq!(b.count_potential_moves(2), 3);
    assert_eq!(b.count_potential_moves(1), 3);
    assert_eq!(find_heuristic(&b), 300_000);
}

#[test]
fn terminal_position_has_no_best_move() {
    let b = OthelloBoard::from_notation("BW6E/8E/8E/8E/8E/8E/8E/8E/B").unwrap();
    assert!(b.find_current_moves().is_empty());
    let mut agent = OthelloAgent::new(AgentConfig::new(5));
    assert!(agent.find_best_move(&b).is_none());
    assert!(agent.find_ranked_moves(&b).is_empty());
    assert_eq!(agent.profiler.runs().len(), 2);
}

#[test]
fn single_move_is_chosen() {
    let b = OthelloBoard::from_notation("BW6E/8E/8E/8E/8E/8E/8E/8E/W").unwrap();
    let mut agent = OthelloAgent::new(AgentConfig::without_cache(3));
    let best = agent.find_best_move(&b).unwrap();
    assert_eq!(best.tile.to_string(), "c1");
    // after WHITE takes c1 both discs are WHITE: parity -50, corner -100,
    // corner-adjacent +50, no moves
    assert_eq!(best.heuristic, -1_000_000);
}

#[test]
fn best_move_is_a_legal_move() {
    let b = OthelloBoard::new();
    let mut agent = OthelloAgent::new(AgentConfig::new(5));
    let best = agent.find_best_move(&b).unwrap();
    assert!(b.find_current_moves().contains(&best.tile));
}

#[test]
fn cache_does_not_change_shallow_choice() {
    let b = OthelloBoard::new();
    let mut cached = OthelloAgent::new(AgentConfig::new(4));
    let mut plain = OthelloAgent::new(AgentConfig::without_cache(4));
    let x = cached.find_best_move(&b).unwrap();
    let y = plain.find_best_move(&b).unwrap();
    assert_eq!(x, y);
}

#[test]
fn ranked_moves_best_first() {
    let b = OthelloBoard::new();
    let mut agent = OthelloAgent::new(AgentConfig::without_cache(4));
    let ranked = agent.find_ranked_moves(&b);
    assert_eq!(ranked.len(), 4);
    for w in ranked.windows(2) {
        assert!(w[0].heuristic >= w[1].heuristic);
    }
    let best = agent.find_best_move(&b).unwrap();
    assert_eq!(ranked[0].heuristic, best.heuristic);

    let w = OthelloBoard::new().make_move(Tile::new(2, 3));
    let ranked = agent.find_ranked_moves(&w);
    assert_eq!(ranked.len(), w.find_current_moves().len());
    for p in ranked.windows(2) {
        assert!(p[0].heuristic <= p[1].heuristic);
    }
}

#[test]
fn alpha_beta_matches_full_window() {
    // a narrow window around the true score returns it unchanged
    let b = OthelloBoard::new().make_move(Tile::new(2, 3));
    let mut agent = OthelloAgent::new(AgentConfig::without_cache(5));
    let full = agent.evaluate(b, 3, false, i64::MIN, i64::MAX);
    let narrow = agent.evaluate(b, 3, false, full - 1, full + 1);
    assert_eq!(narrow, full);
    let above = agent.evaluate(b, 3, false, full, full + 10);
    assert!(above <= full);
    let below = agent.evaluate(b, 3, false, full - 10, full);
    assert!(below >= full);
}

#[test]
fn depth_zero_is_static_score() {
    let b = OthelloBoard::new();
    let mut agent = OthelloAgent::new(AgentConfig::new(5));
    assert_eq!(agent.evaluate(b, 0, true, i64::MIN, i64::MAX), find_heuristic(&b));
}

#[test]
fn runs_record_cache_counters() {
    let b = OthelloBoard::new();
    let mut agent = OthelloAgent::new(AgentConfig::new(6));
    agent.find_best_move(&b);
    let runs = agent.profiler.runs();
    assert_eq!(runs.len(), 1);
    assert_eq!(runs[0].max_depth(), 6);
    assert_eq!(runs[0].hits(), agent.cache.hits());
    assert_eq!(runs[0].misses(), agent.cache.misses());
    assert!(agent.cache.misses() > 0);
}

#[test]
fn fingerprints_depend_on_cells_only() {
    let h = ZHasher::new();
    let a = OthelloBoard::new();
    let mut b = OthelloBoard::new();
    b.set_turn('W').unwrap();
    assert_eq!(h.hash(&a), h.hash(&b));
    assert!(h.hash(&a) >= 0);
    let c = a.make_move(Tile::new(2, 3));
    assert_ne!(h.hash(&a), h.hash(&c));
}

#[test]
fn ranked_ties_keep_enumeration_order() {
    // the four openings are symmetric, so their scores tie
    let b = OthelloBoard::new();
    let mut agent = OthelloAgent::new(AgentConfig::new(4));
    let ranked = agent.find_ranked_moves(&b);
    let moves = b.find_current_moves();
    assert!(ranked.iter().all(|r| r.heuristic == ranked[0].heuristic));
    let tiles: Vec<Tile> = ranked.iter().map(|r| r.tile).collect();
    assert_eq!(tiles, moves);
    let best = agent.find_best_move(&b).unwrap();
    assert_eq!(best.tile, ranked[0].tile);
}

#[test]
fn no_move_leaves_cache_untouched() {
    let b = OthelloBoard::from_notation("BW6E/8E/8E/8E/8E/8E/8E/8E/B").unwrap();
    let mut agent = OthelloAgent::new(AgentConfig::new(5));
    assert!(agent.find_best_move(&b).is_none());
    assert_eq!(agent.cache.hits(), 0);
    assert_eq!(agent.cache.misses(), 0);
    for i in 0..othello_engine::cache::CACHE_SIZE {
        assert!(agent.cache.line(i).depth_preferred.is_none());
    }
}

#[test]
fn cached_entry_is_returned_and_written_back() {
    let b = OthelloBoard::new();
    let mut agent = OthelloAgent::new(AgentConfig::new(5));
    let first = agent.evaluate(b, 2, true, i64::MIN, i64::MAX);
    let misses = agent.cache.misses();
    assert!(misses > 0);
    // the same search again hits the entry written for the root
    let again = agent.evaluate(b, 2, true, i64::MIN, i64::MAX);
    assert_eq!(again, first);
    assert_eq!(agent.cache.misses(), misses);
    assert_eq!(agent.cache.hits(), 1);
}

#[test]
fn windows_outside_score_range_are_accepted() {
    let b = OthelloBoard::new().make_move(Tile::new(2, 3));
    let mut agent = OthelloAgent::new(AgentConfig::without_cache(5));
    let full = agent.evaluate(b, 2, false, i64::MIN, i64::MAX);
    let high = agent.evaluate(b, 2, false, 10_000_000, 20_000_000);
    assert!(high <= 10_000_000);
    assert!(full < 10_000_000);
}
