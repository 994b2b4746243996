use vstd::prelude::*;
use smallvec::SmallVec;
use crate::board::{OthelloBoard, lemma_cells_len};
use crate::cache::{CacheLine, CacheNode, TranspositionTable, CACHE_SIZE, bucket_of, bump, lookup_line, put_line};
use crate::eval::{find_heuristic, heuristic, lemma_heuristic_bounds, MAX_SCORE};
use crate::hasher::{ZHasher, fingerprint};
use crate::profile::{Profiler, Run};
use crate::tile::{RankedTile, Tile};
use crate::time::current_time_millis;

verus! {

broadcast use lemma_cells_len;

/// The children of a position during a search, held inline up to sixteen.
#[verifier::external_body]
pub struct Children {
    items: SmallVec<[OthelloBoard; 16]>,
}

/// The boards held, in order.
pub uninterp spec fn child_boards(v: Children) -> Seq<OthelloBoard>;

/// Relies on `SmallVec::new`: an empty vector.
#[verifier::external_body]
fn children_new() -> (r: Children)
    ensures
        child_boards(r) == Seq::<OthelloBoard>::empty(),
{
    Children { items: SmallVec::new() }
}

/// Relies on `SmallVec::push`: the board is appended at the end.
#[verifier::external_body]
fn children_push(v: &mut Children, b: OthelloBoard)
    ensures
        child_boards(*final(v)) == child_boards(*old(v)).push(b),
{
    v.items.push(b);
}

/// Relies on `SmallVec::len`: the number of boards held.
#[verifier::external_body]
fn children_len(v: &Children) -> (r: usize)
    ensures
        r == child_boards(*v).len(),
{
    v.items.len()
}

/// Relies on `SmallVec`'s indexing: the board at position `i`.
#[verifier::external_body]
fn children_get(v: &Children, i: usize) -> (r: OthelloBoard)
    requires
        i < child_boards(*v).len(),
    ensures
        r == child_boards(*v)[i as int],
{
    v.items[i]
}

/// The positions reachable in one move, in move-enumeration order.
pub open spec fn children(b: OthelloBoard) -> Seq<OthelloBoard> {
    b.legal_moves().map_values(|m: Tile| b.play(m))
}

/// The minimax score of `b` searched `depth` plies deep: the static score at
/// depth zero or when the side to move has no move; otherwise the best child
/// score for the side (`maximizer`: highest), children searched one ply less
/// with the roles swapped.
pub open spec fn minimax(b: OthelloBoard, depth: int, maximizer: bool) -> int
    decreases depth, 0int,
{
    if depth <= 0 || b.legal_moves().len() == 0 {
        heuristic(b)
    } else {
        best_of(children(b), depth - 1, maximizer, children(b).len() as int)
    }
}

/// The best minimax score among `cs[0..n]` for the side `maximizer` picks for.
pub open spec fn best_of(cs: Seq<OthelloBoard>, depth: int, maximizer: bool, n: int) -> int
    decreases depth, n,
{
    if n <= 0 || depth < 0 {
        0
    } else {
        let v = minimax(cs[n - 1], depth, !maximizer);
        if n == 1 {
            v
        } else {
            let p = best_of(cs, depth, maximizer, n - 1);
            if maximizer {
                if v > p {
                    v
                } else {
                    p
                }
            } else {
                if v < p {
                    v
                } else {
                    p
                }
            }
        }
    }
}

/// What an alpha-beta search in the window (alpha, beta) owes for a position of
/// minimax score `v`: the exact score inside the window, and a bound on the same
/// side outside it.
pub open spec fn search_bound(r: int, v: int, alpha: int, beta: int) -> bool {
    &&& (alpha < v < beta ==> r == v)
    &&& (v <= alpha ==> r <= alpha)
    &&& (v >= beta ==> r >= beta)
}

/// The deepest iterative-deepening pass for a configured maximum depth.
pub open spec fn pass_depth(max_depth: u32) -> int {
    if max_depth >= 3 {
        max_depth - 2
    } else {
        1
    }
}

/// Minimax scores, like static ones, lie within `MAX_SCORE` of zero.
pub proof fn lemma_minimax_bounds(b: OthelloBoard, depth: int, maximizer: bool)
    ensures
        -MAX_SCORE <= minimax(b, depth, maximizer) <= MAX_SCORE,
    decreases depth, 0int,
{
    lemma_heuristic_bounds(b);
    if depth > 0 && b.legal_moves().len() > 0 {
        lemma_best_of_bounds(children(b), depth - 1, maximizer, children(b).len() as int);
    }
}

proof fn lemma_best_of_bounds(cs: Seq<OthelloBoard>, depth: int, maximizer: bool, n: int)
    ensures
        -MAX_SCORE <= best_of(cs, depth, maximizer, n) <= MAX_SCORE,
    decreases depth, n,
{
    if n > 0 && depth >= 0 {
        lemma_minimax_bounds(cs[n - 1], depth, !maximizer);
        if n > 1 {
            lemma_best_of_bounds(cs, depth, maximizer, n - 1);
        }
    }
}

proof fn lemma_best_of_monotone(cs: Seq<OthelloBoard>, depth: int, maximizer: bool, i: int, n: int)
    requires
        1 <= i <= n,
        depth >= 0,
    ensures
        maximizer ==> best_of(cs, depth, maximizer, i) <= best_of(cs, depth, maximizer, n),
        !maximizer ==> best_of(cs, depth, maximizer, i) >= best_of(cs, depth, maximizer, n),
    decreases n - i,
{
    if i < n {
        lemma_best_of_monotone(cs, depth, maximizer, i, n - 1);
    }
}

/// What a search reads and writes in an engine: the cache buckets and the hit
/// and miss counters.
pub struct SearchState {
    pub lines: Seq<CacheLine>,
    pub hits: u32,
    pub misses: u32,
}

/// The search of `b` to `depth` plies in the window (alpha, beta), from state
/// `st`, with fingerprint keys `keys`: its score and the state it leaves.
/// The static score at depth zero or with no move; otherwise, when `caching`,
/// the position's fingerprint is looked up (counting a hit or a miss) and an
/// entry searched at least as deep is returned as it is; else the children are
/// searched in order with the cut-off and, when `caching`, the score is written
/// back at the fingerprint with this depth.
pub open spec fn cached_eval(
    keys: Seq<[i64; 3]>,
    caching: bool,
    st: SearchState,
    b: OthelloBoard,
    depth: int,
    maximizer: bool,
    alpha: i64,
    beta: i64,
) -> (i64, SearchState)
    decreases depth, 0int,
{
    if depth <= 0 || b.legal_moves().len() == 0 {
        (heuristic(b) as i64, st)
    } else {
        let h = fingerprint(keys, b.cells(), 64);
        let found = if caching {
            lookup_line(st.lines[bucket_of(h)], h)
        } else {
            None
        };
        let probed = if !caching {
            st
        } else if found is Some {
            SearchState { hits: bump(st.hits), ..st }
        } else {
            SearchState { misses: bump(st.misses), ..st }
        };
        if found is Some && found->0.depth >= depth {
            (found->0.heuristic, probed)
        } else {
            let searched = fold_children(
                keys,
                caching,
                probed,
                children(b),
                depth - 1,
                maximizer,
                alpha,
                beta,
                0,
            );
            let r = searched.0;
            let after = searched.1;
            if caching {
                (
                    r,
                    SearchState {
                        lines: after.lines.update(
                            bucket_of(h),
                            put_line(
                                after.lines[bucket_of(h)],
                                CacheNode { key: h, heuristic: r, depth: depth as u32 },
                            ),
                        ),
                        ..after
                    },
                )
            } else {
                (r, after)
            }
        }
    }
}

/// The children `cs[i..]` searched in order while the window stays open: the
/// maximizer raises alpha, the minimizer lowers beta; the final bound and state.
pub open spec fn fold_children(
    keys: Seq<[i64; 3]>,
    caching: bool,
    st: SearchState,
    cs: Seq<OthelloBoard>,
    depth: int,
    maximizer: bool,
    alpha: i64,
    beta: i64,
    i: int,
) -> (i64, SearchState)
    decreases depth, cs.len() - i,
{
    if i < 0 || i >= cs.len() || alpha >= beta || depth < 0 {
        (
            if maximizer {
                alpha
            } else {
                beta
            },
            st,
        )
    } else {
        let child = cached_eval(keys, caching, st, cs[i], depth, !maximizer, alpha, beta);
        let v = child.0;
        if maximizer {
            fold_children(
                keys,
                caching,
                child.1,
                cs,
                depth,
                true,
                if v > alpha {
                    v
                } else {
                    alpha
                },
                beta,
                i + 1,
            )
        } else {
            fold_children(
                keys,
                caching,
                child.1,
                cs,
                depth,
                false,
                alpha,
                if v < beta {
                    v
                } else {
                    beta
                },
                i + 1,
            )
        }
    }
}

/// Iterative deepening of `b`: searches at depths `d..=last` over the full
/// window, for the side to move, state threaded through; the last score.
pub open spec fn deepen(
    keys: Seq<[i64; 3]>,
    caching: bool,
    st: SearchState,
    b: OthelloBoard,
    d: int,
    last: int,
) -> (i64, SearchState)
    decreases last - d,
{
    if d >= last {
        cached_eval(keys, caching, st, b, last, b.black_to_move(), i64::MIN, i64::MAX)
    } else {
        let pass = cached_eval(keys, caching, st, b, d, b.black_to_move(), i64::MIN, i64::MAX);
        deepen(keys, caching, pass.1, b, d + 1, last)
    }
}

/// Each of the first `n` legal moves of `b` scored by iterative deepening of the
/// position it leads to, in order, state threaded through.
pub open spec fn score_scan(
    keys: Seq<[i64; 3]>,
    caching: bool,
    st: SearchState,
    b: OthelloBoard,
    max_depth: u32,
    n: int,
) -> (Seq<RankedTile>, SearchState)
    decreases n,
{
    if n <= 0 {
        (seq![], st)
    } else {
        let prev = score_scan(keys, caching, st, b, max_depth, n - 1);
        let m = b.legal_moves()[n - 1];
        let scored = deepen(keys, caching, prev.1, b.play(m), 1, pass_depth(max_depth));
        (prev.0.push(RankedTile { tile: m, heuristic: scored.0 }), scored.1)
    }
}

/// The pick among scored moves: the first of the highest scores
/// when `BLACK` is to move, the first of the lowest otherwise.
pub open spec fn pick_best(scored: Seq<RankedTile>, black: bool) -> Option<RankedTile>
    decreases scored.len(),
{
    if scored.len() == 0 {
        None
    } else {
        let best = pick_best(scored.drop_last(), black);
        let x = scored.last();
        if best is None || (black && x.heuristic > best->0.heuristic) || (!black && x.heuristic
            < best->0.heuristic) {
            Some(x)
        } else {
            best
        }
    }
}

/// The entries of `s` with score `v`, in order.
pub open spec fn ties(s: Seq<RankedTile>, v: i64) -> Seq<RankedTile> {
    s.filter(|x: RankedTile| x.heuristic == v)
}

proof fn lemma_ties_single(x: RankedTile, v: i64)
    ensures
        ties(seq![x], v) == (if x.heuristic == v {
            seq![x]
        } else {
            Seq::<RankedTile>::empty()
        }),
{
    let e = Seq::<RankedTile>::empty();
    e.filter_lemma(|y: RankedTile| y.heuristic == v);
    e.lemma_filter_prepend(x, |y: RankedTile| y.heuristic == v);
    assert(seq![x] + e =~= seq![x]);
    assert(e.filter(|y: RankedTile| y.heuristic == v) =~= e);
}

proof fn lemma_ties_none(s: Seq<RankedTile>, v: i64)
    requires
        forall|k: int| 0 <= k < s.len() ==> #[trigger] s[k].heuristic != v,
    ensures
        ties(s, v) == Seq::<RankedTile>::empty(),
    decreases s.len(),
{
    if s.len() == 0 {
        s.filter_lemma(|y: RankedTile| y.heuristic == v);
        assert(ties(s, v) =~= Seq::<RankedTile>::empty());
    } else {
        let t = s.drop_last();
        assert forall|k: int| 0 <= k < t.len() implies #[trigger] t[k].heuristic != v by {
            assert(t[k] == s[k]);
        }
        lemma_ties_none(t, v);
        lemma_ties_single(s.last(), v);
        assert(s =~= t + seq![s.last()]);
        Seq::filter_distributes_over_add(t, seq![s.last()], |y: RankedTile| y.heuristic == v);
        assert(ties(s, v) =~= Seq::<RankedTile>::empty());
    }
}

/// `st` with both counters zeroed.
pub open spec fn counters_reset(st: SearchState) -> SearchState {
    SearchState { hits: 0, misses: 0, ..st }
}

/// The score of the position after move `m`, as a search without the cache
/// computes it for settings of maximum depth `max_depth`.
pub open spec fn move_score(b: OthelloBoard, m: Tile, max_depth: u32) -> int {
    minimax(b.play(m), pass_depth(max_depth), !b.black_to_move())
}

/// The index of the move a search without the cache picks among the first `n`
/// legal moves: the first of the highest scores when `BLACK` is to move, the
/// first of the lowest otherwise.
pub open spec fn best_index(b: OthelloBoard, max_depth: u32, n: int) -> int
    decreases n,
{
    if n <= 1 {
        0
    } else {
        let k = best_index(b, max_depth, n - 1);
        let v = move_score(b, b.legal_moves()[n - 1], max_depth);
        let w = move_score(b, b.legal_moves()[k], max_depth);
        if (b.black_to_move() && v > w) || (!b.black_to_move() && v < w) {
            n - 1
        } else {
            k
        }
    }
}

proof fn lemma_best_index_range(b: OthelloBoard, max_depth: u32, n: int)
    requires
        n >= 1,
    ensures
        0 <= best_index(b, max_depth, n) < n,
    decreases n,
{
    if n > 1 {
        lemma_best_index_range(b, max_depth, n - 1);
    }
}

/// `a` may stand before `b` in a ranking for the side to move (`black`: highest first).
pub open spec fn ranks_before(a: RankedTile, b: RankedTile, black: bool) -> bool {
    if black {
        a.heuristic >= b.heuristic
    } else {
        a.heuristic <= b.heuristic
    }
}

/// The list is ranked best-first for the side to move.
pub open spec fn ranked(s: Seq<RankedTile>, black: bool) -> bool {
    forall|i: int, j: int| 0 <= i < j < s.len() ==> ranks_before(#[trigger] s[i], #[trigger] s[j], black)
}

/// Each legal move with its score, as a search without the cache computes them.
pub open spec fn scored_moves(b: OthelloBoard, max_depth: u32) -> Seq<RankedTile> {
    b.legal_moves().map_values(|m: Tile| RankedTile { tile: m, heuristic: move_score(b, m, max_depth) as i64 })
}

fn stays_ahead(a: RankedTile, b: RankedTile, black: bool) -> (r: bool)
    ensures
        r == ranks_before(a, b, black),
{
    if black {
        a.heuristic >= b.heuristic
    } else {
        a.heuristic <= b.heuristic
    }
}

/// Inserts `x` into the ranked list after every entry that may stand before it.
fn insert_ranked(out: &mut Vec<RankedTile>, x: RankedTile, black: bool)
    requires
        ranked(old(out)@, black),
    ensures
        ranked(final(out)@, black),
        final(out)@.to_multiset() == old(out)@.to_multiset().insert(x),
        final(out)@.len() == old(out)@.len() + 1,
        forall|k: int| 0 <= k < final(out)@.len() ==> #[trigger] final(out)@[k] == x || old(out)@.contains(final(out)@[k]),
        final(out)@.map_values(|y: RankedTile| y.tile).to_multiset() == old(out)@.map_values(
            |y: RankedTile| y.tile,
        ).to_multiset().insert(x.tile),
        forall|v: i64|
            #[trigger] ties(final(out)@, v) == if x.heuristic == v {
                ties(old(out)@, v).push(x)
            } else {
                ties(old(out)@, v)
            },
{
    let mut p: usize = 0;
    while p < out.len() && stays_ahead(out[p], x, black)
        invariant
            p <= out@.len(),
            out@ == old(out)@,
            forall|k: int| 0 <= k < p ==> ranks_before(#[trigger] out@[k], x, black),
        decreases out@.len() - p,
    {
        p = p + 1;
    }
    let ghost before = out@;
    out.insert(p, x);
    proof {
        broadcast use vstd::seq_lib::to_multiset_insert;

        assert forall|i: int, j: int| 0 <= i < j < out@.len() implies ranks_before(
            #[trigger] out@[i],
            #[trigger] out@[j],
            black,
        ) by {
            if j == p {
            } else if i == p {
                assert(out@[j] == before[j - 1]);
                assert(ranks_before(before[p as int], before[j - 1], black) || p == j - 1);
            } else {
                let bi = if i < p { i } else { i - 1 };
                let bj = if j < p { j } else { j - 1 };
                assert(out@[i] == before[bi]);
                assert(out@[j] == before[bj]);
            }
        }
        assert(out@.map_values(|y: RankedTile| y.tile) =~= before.map_values(|y: RankedTile| y.tile).insert(
            p as int,
            x.tile,
        ));
        let head = before.subrange(0, p as int);
        let tail = before.subrange(p as int, before.len() as int);
        assert(before =~= head + tail);
        assert(out@ =~= head + seq![x] + tail);
        assert forall|v: i64| #[trigger] ties(out@, v) == if x.heuristic == v {
            ties(before, v).push(x)
        } else {
            ties(before, v)
        } by {
            Seq::filter_distributes_over_add(head, tail, |y: RankedTile| y.heuristic == v);
            Seq::filter_distributes_over_add(head + seq![x], tail, |y: RankedTile| y.heuristic == v);
            Seq::filter_distributes_over_add(head, seq![x], |y: RankedTile| y.heuristic == v);
            lemma_ties_single(x, v);
            if x.heuristic == v {
                assert forall|k: int| 0 <= k < tail.len() implies #[trigger] tail[k].heuristic != v by {
                    assert(tail[k] == before[p + k]);
                    assert(!ranks_before(before[p as int], x, black));
                    if k > 0 {
                        assert(ranks_before(before[p as int], before[p + k], black));
                    }
                }
                lemma_ties_none(tail, v);
                assert(ties(out@, v) =~= ties(before, v).push(x));
            } else {
                assert(ties(out@, v) =~= ties(before, v));
            }
        }
        assert forall|k: int| 0 <= k < out@.len() implies #[trigger] out@[k] == x || before.contains(out@[k]) by {
            if k < p {
                assert(out@[k] == before[k]);
            } else if k > p {
                assert(out@[k] == before[k - 1]);
            }
        }
    }
}

/// Search settings: the maximum depth, and whether the transposition cache is used.
#[derive(Clone, Copy, Debug)]
pub struct AgentConfig {
    max_search_depth: u32,
    use_cache: bool,
}

impl AgentConfig {
    pub closed spec fn depth(self) -> u32 {
        self.max_search_depth
    }

    pub closed spec fn caching(self) -> bool {
        self.use_cache
    }

    /// Settings for a search to `max_search_depth` with the cache in use.
    pub fn new(max_search_depth: u32) -> (r: AgentConfig)
        requires
            max_search_depth >= 1,
        ensures
            r.depth() == max_search_depth,
            r.caching(),
    {
        AgentConfig { max_search_depth, use_cache: true }
    }

    /// Settings for a search to `max_search_depth` that never reads or writes the
    /// cache.
    pub fn without_cache(max_search_depth: u32) -> (r: AgentConfig)
        requires
            max_search_depth >= 1,
        ensures
            r.depth() == max_search_depth,
            !r.caching(),
    {
        AgentConfig { max_search_depth, use_cache: false }
    }
}

/// A search engine: its own fingerprint keys, cache and run history.
pub struct OthelloAgent {
    hasher: ZHasher,
    config: AgentConfig,
    pub cache: TranspositionTable,
    pub profiler: Profiler,
}

impl OthelloAgent {
    pub closed spec fn settings(self) -> AgentConfig {
        self.config
    }

    pub closed spec fn table(self) -> TranspositionTable {
        self.cache
    }

    pub closed spec fn history(self) -> Seq<Run> {
        self.profiler.history()
    }

    pub closed spec fn keys(self) -> Seq<[i64; 3]> {
        self.hasher.keys()
    }

    /// The cache buckets and counters.
    pub closed spec fn state(self) -> SearchState {
        SearchState {
            lines: self.cache.lines(),
            hits: self.cache.hit_count(),
            misses: self.cache.miss_count(),
        }
    }

    pub closed spec fn wf(self) -> bool {
        &&& self.hasher.wf()
        &&& self.cache.wf()
        &&& self.config.max_search_depth >= 1
    }

    /// An engine with fresh random keys, an empty cache and no history.
    pub fn new(config: AgentConfig) -> (r: OthelloAgent)
        requires
            config.depth() >= 1,
        ensures
            r.wf(),
            r.settings() == config,
            r.history() == Seq::<Run>::empty(),
            r.state().hits == 0,
            r.state().misses == 0,
            r.state().lines.len() == CACHE_SIZE,
            forall|i: int| 0 <= i < CACHE_SIZE ==> #[trigger] r.state().lines[i] == (CacheLine {
                depth_preferred: None,
                always_replace: None,
            }),
    {
        OthelloAgent {
            config,
            hasher: ZHasher::new(),
            cache: TranspositionTable::new(),
            profiler: Profiler::new(),
        }
    }

    /// Records a run of the configured depth with the cache's current counters
    /// and the given time.
    pub fn add_run(&mut self, time_taken: u128)
        ensures
            final(self).history().len() == old(self).history().len() + 1,
            final(self).history().drop_last() == old(self).history(),
            final(self).history().last().spec_max_depth() == old(self).settings().depth(),
            final(self).history().last().spec_hits() == old(self).table().hit_count(),
            final(self).history().last().spec_misses() == old(self).table().miss_count(),
            final(self).state() == old(self).state(),
            final(self).keys() == old(self).keys(),
            final(self).history().last().spec_time_taken() == time_taken,
            final(self).settings() == old(self).settings(),
            final(self).wf() == old(self).wf(),
            final(self).table() == old(self).table(),
    {
        let run = Run::new(
            self.config.max_search_depth,
            self.cache.hits(),
            self.cache.misses(),
            time_taken,
        );
        self.profiler.add_run(run);
        assert(self.profiler.history().drop_last() =~= old(self).profiler.history());
    }

    /// The children of `board`, one per legal move in enumeration order.
    fn expand(board: &OthelloBoard) -> (r: Children)
        requires
            board.wf(),
        ensures
            child_boards(r) == children(*board),
            forall|k: int| 0 <= k < child_boards(r).len() ==> (#[trigger] child_boards(r)[k]).wf(),
    {
        let moves = board.find_current_moves();
        proof {
            board.lemma_potential_moves_valid(board.current_color());
        }
        let mut kids = children_new();
        let mut i: usize = 0;
        while i < moves.len()
            invariant
                board.wf(),
                i <= moves@.len(),
                moves@ == board.legal_moves(),
                forall|k: int| 0 <= k < moves@.len() ==> (#[trigger] moves@[k]).valid(),
                child_boards(kids) == moves@.subrange(0, i as int).map_values(
                    |m: Tile| board.play(m),
                ),
                forall|k: int|
                    0 <= k < child_boards(kids).len() ==> (#[trigger] child_boards(kids)[k]).wf(),
            decreases moves@.len() - i,
        {
            let child = board.make_move(moves[i]);
            children_push(&mut kids, child);
            assert(child_boards(kids) =~= moves@.subrange(0, i + 1).map_values(
                |m: Tile| board.play(m),
            ));
            i = i + 1;
        }
        assert(moves@.subrange(0, moves@.len() as int) =~= moves@);
        kids
    }

    /// Alpha-beta minimax of `board` to `depth` plies in the window (alpha, beta)
    /// (see `cached_eval`). With the cache in use, a cached score of this position
    /// searched at least as deep is returned as it is, and each searched score is
    /// written back; without it, the result is the minimax score inside the window
    /// and a bound on the same side outside it.
    pub fn evaluate(&mut self, board: OthelloBoard, depth: u32, maximizer: bool, alpha: i64, beta: i64) -> (r: i64)
        requires
            old(self).wf(),
            board.wf(),
            alpha < beta,
        ensures
            final(self).wf(),
            final(self).settings() == old(self).settings(),
            final(self).keys() == old(self).keys(),
            final(self).history() == old(self).history(),
            (r, final(self).state()) == cached_eval(
                old(self).keys(),
                old(self).settings().caching(),
                old(self).state(),
                board,
                depth as int,
                maximizer,
                alpha,
                beta,
            ),
            depth == 0 ==> r == heuristic(board) && final(self).state() == old(self).state(),
            board.legal_moves().len() == 0 ==> r == heuristic(board) && final(self).state() == old(
                self,
            ).state(),
            !old(self).settings().caching() ==> search_bound(
                r as int,
                minimax(board, depth as int, maximizer),
                alpha as int,
                beta as int,
            ),
            !old(self).settings().caching() && alpha == i64::MIN && beta == i64::MAX ==> r
                == minimax(board, depth as int, maximizer),
        decreases depth,
    {
        proof {
            lemma_minimax_bounds(board, depth as int, maximizer);
        }
        if depth == 0 {
            return find_heuristic(&board);
        }
        let kids = Self::expand(&board);
        let n = children_len(&kids);
        if n == 0 {
            return find_heuristic(&board);
        }
        let ghost cs = child_boards(kids);
        let ghost d = depth - 1;
        let ghost keys = self.keys();
        let ghost caching = self.settings().caching();
        let ghost h = fingerprint(keys, board.cells(), 64);
        let use_cache = self.config.use_cache;
        let mut hash_key: i64 = 0;
        if use_cache {
            hash_key = self.hasher.hash(&board);
            match self.cache.get(hash_key) {
                Some(node) => {
                    if node.depth >= depth {
                        return node.heuristic;
                    }
                },
                None => {},
            }
        }
        let ghost probed = self.state();
        assert(caching ==> hash_key == h);
        let result = if maximizer {
            let mut a = alpha;
            let mut i: usize = 0;
            while i < n && a < beta
                invariant
                    self.wf(),
                    self.settings() == old(self).settings(),
                    self.keys() == keys,
                    self.history() == old(self).history(),
                    use_cache == self.settings().caching(),
                    caching == use_cache,
                    depth >= 1,
                    d == depth - 1,
                    cs == child_boards(kids),
                    n == cs.len(),
                    i <= n,
                    alpha <= a,
                    forall|k: int| 0 <= k < cs.len() ==> (#[trigger] cs[k]).wf(),
                    fold_children(keys, caching, self.state(), cs, d, true, a, beta, i as int)
                        == fold_children(keys, caching, probed, cs, d, true, alpha, beta, 0),
                    !use_cache ==> (a < beta ==> (i == 0 ==> a == alpha) && (i > 0 ==> a == (
                    if alpha > best_of(cs, d, true, i as int) {
                        alpha as int
                    } else {
                        best_of(cs, d, true, i as int)
                    }))),
                    !use_cache ==> (a >= beta ==> i > 0 && best_of(cs, d, true, i as int) >= beta),
                decreases n - i,
            {
                let child = children_get(&kids, i);
                let v = self.evaluate(child, depth - 1, false, a, beta);
                if v > a {
                    a = v;
                }
                i = i + 1;
            }
            proof {
                if !use_cache && a >= beta {
                    lemma_best_of_monotone(cs, d, true, i as int, n as int);
                }
            }
            a
        } else {
            let mut b = beta;
            let mut i: usize = 0;
            while i < n && alpha < b
                invariant
                    self.wf(),
                    self.settings() == old(self).settings(),
                    self.keys() == keys,
                    self.history() == old(self).history(),
                    use_cache == self.settings().caching(),
                    caching == use_cache,
                    depth >= 1,
                    d == depth - 1,
                    cs == child_boards(kids),
                    n == cs.len(),
                    i <= n,
                    b <= beta,
                    forall|k: int| 0 <= k < cs.len() ==> (#[trigger] cs[k]).wf(),
                    fold_children(keys, caching, self.state(), cs, d, false, alpha, b, i as int)
                        == fold_children(keys, caching, probed, cs, d, false, alpha, beta, 0),
                    !use_cache ==> (alpha < b ==> (i == 0 ==> b == beta) && (i > 0 ==> b == (
                    if beta < best_of(cs, d, false, i as int) {
                        beta as int
                    } else {
                        best_of(cs, d, false, i as int)
                    }))),
                    !use_cache ==> (b <= alpha ==> i > 0 && best_of(cs, d, false, i as int) <= alpha),
                decreases n - i,
            {
                let child = children_get(&kids, i);
                let v = self.evaluate(child, depth - 1, true, alpha, b);
                if v < b {
                    b = v;
                }
                i = i + 1;
            }
            proof {
                if !use_cache && b <= alpha {
                    lemma_best_of_monotone(cs, d, false, i as int, n as int);
                }
            }
            b
        };
        if use_cache {
            self.cache.put(CacheNode::new(hash_key, result, depth));
        }
        result
    }

    /// The score of `board` by iterative deepening: full searches at depths
    /// 1, 2, ... up to `pass_depth` of the configured maximum, keeping the last.
    fn evaluate_base(&mut self, board: &OthelloBoard) -> (r: i64)
        requires
            old(self).wf(),
            board.wf(),
        ensures
            final(self).wf(),
            final(self).settings() == old(self).settings(),
            final(self).keys() == old(self).keys(),
            final(self).history() == old(self).history(),
            (r, final(self).state()) == deepen(
                old(self).keys(),
                old(self).settings().caching(),
                old(self).state(),
                *board,
                1,
                pass_depth(old(self).settings().depth()),
            ),
            !old(self).settings().caching() ==> r == minimax(
                *board,
                pass_depth(old(self).settings().depth()),
                board.black_to_move(),
            ),
    {
        let max_depth = self.config.max_search_depth;
        let last: u32 = if max_depth >= 3 {
            max_depth - 2
        } else {
            1
        };
        let ghost keys = self.keys();
        let ghost caching = self.settings().caching();
        let ghost target = deepen(keys, caching, self.state(), *board, 1, last as int);
        let black = board.is_black_move();
        let mut heuristic: i64 = 0;
        let mut d: u32 = 1;
        while d <= last
            invariant
                self.wf(),
                board.wf(),
                self.settings() == old(self).settings(),
                self.keys() == keys,
                caching == self.settings().caching(),
                self.history() == old(self).history(),
                last == pass_depth(self.settings().depth()),
                1 <= d <= last + 1,
                black == board.black_to_move(),
                d <= last ==> deepen(keys, caching, self.state(), *board, d as int, last as int)
                    == target,
                d == last + 1 ==> (heuristic, self.state()) == target,
                d > 1 && !self.settings().caching() ==> heuristic == minimax(
                    *board,
                    d - 1,
                    black,
                ),
            decreases last + 1 - d,
        {
            heuristic = self.evaluate(*board, d, black, i64::MIN, i64::MAX);
            proof {
                lemma_minimax_bounds(*board, d as int, black);
            }
            d = d + 1;
        }
        heuristic
    }

    /// Milliseconds between two clock readings, or zero if the clock went back.
    fn elapsed(start: u128, end: u128) -> (r: u128)
        ensures
            end >= start ==> r == end - start,
            end < start ==> r == 0,
    {
        if end >= start {
            end - start
        } else {
            0
        }
    }

    /// The best move for the side to move with its score, or nothing when it has
    /// no move. Each legal move is scored by iterative deepening on the position
    /// it leads to; `BLACK` takes the highest score, `WHITE` the lowest, and the
    /// first move wins a tie. Resets the cache counters first and records a run
    /// with the configured depth and the counters as the search left them.
    pub fn find_best_move(&mut self, board: &OthelloBoard) -> (r: Option<RankedTile>)
        requires
            old(self).wf(),
            board.wf(),
        ensures
            final(self).wf(),
            final(self).settings() == old(self).settings(),
            final(self).keys() == old(self).keys(),
            final(self).history().len() == old(self).history().len() + 1,
            final(self).history().drop_last() == old(self).history(),
            final(self).history().last().spec_max_depth() == old(self).settings().depth(),
            final(self).history().last().spec_hits() == final(self).state().hits,
            final(self).history().last().spec_misses() == final(self).state().misses,
            r == pick_best(
                score_scan(
                    old(self).keys(),
                    old(self).settings().caching(),
                    counters_reset(old(self).state()),
                    *board,
                    old(self).settings().depth(),
                    board.legal_moves().len() as int,
                ).0,
                board.black_to_move(),
            ),
            final(self).state() == score_scan(
                old(self).keys(),
                old(self).settings().caching(),
                counters_reset(old(self).state()),
                *board,
                old(self).settings().depth(),
                board.legal_moves().len() as int,
            ).1,
            r is None <==> board.legal_moves().len() == 0,
            r is Some ==> board.legal_moves().contains(r->0.tile),
            !old(self).settings().caching() && r is Some ==> r->0 == (RankedTile {
                tile: board.legal_moves()[best_index(
                    *board,
                    old(self).settings().depth(),
                    board.legal_moves().len() as int,
                )],
                heuristic: move_score(
                    *board,
                    board.legal_moves()[best_index(
                        *board,
                        old(self).settings().depth(),
                        board.legal_moves().len() as int,
                    )],
                    old(self).settings().depth(),
                ) as i64,
            }),
    {
        let start = current_time_millis();
        self.cache.reset_counts();
        let moves = board.find_current_moves();
        proof {
            board.lemma_potential_moves_valid(board.current_color());
        }
        let black = board.is_black_move();
        let ghost md = self.settings().depth();
        let ghost keys = self.keys();
        let ghost caching = self.settings().caching();
        let ghost reset = self.state();
        let mut best: Option<RankedTile> = None;
        let mut i: usize = 0;
        while i < moves.len()
            invariant
                self.wf(),
                board.wf(),
                self.settings() == old(self).settings(),
                self.keys() == keys,
                caching == self.settings().caching(),
                self.history() == old(self).history(),
                reset == counters_reset(old(self).state()),
                md == self.settings().depth(),
                black == board.black_to_move(),
                moves@ == board.legal_moves(),
                forall|k: int| 0 <= k < moves@.len() ==> (#[trigger] moves@[k]).valid(),
                i <= moves@.len(),
                score_scan(keys, caching, reset, *board, md, i as int).0.len() == i,
                self.state() == score_scan(keys, caching, reset, *board, md, i as int).1,
                best == pick_best(score_scan(keys, caching, reset, *board, md, i as int).0, black),
                i == 0 ==> best is None,
                i > 0 ==> best is Some && moves@.contains(best->0.tile),
                i > 0 && !self.settings().caching() ==> best == Some(
                    RankedTile {
                        tile: moves@[best_index(*board, md, i as int)],
                        heuristic: move_score(
                            *board,
                            moves@[best_index(*board, md, i as int)],
                            md,
                        ) as i64,
                    },
                ),
            decreases moves@.len() - i,
        {
            let mov = moves[i];
            let child = board.make_move(mov);
            let h = self.evaluate_base(&child);
            let ghost prev = score_scan(keys, caching, reset, *board, md, i as int);
            let take = match best {
                None => true,
                Some(b) => if black {
                    h > b.heuristic
                } else {
                    h < b.heuristic
                },
            };
            if take {
                best = Some(RankedTile::new(mov, h));
            }
            proof {
                let next = score_scan(keys, caching, reset, *board, md, i + 1);
                assert(moves@[i as int] == mov);
                assert(next.0 == prev.0.push(RankedTile { tile: mov, heuristic: h }));
                assert(next.0.drop_last() =~= prev.0);
                if i > 0 {
                    assert(moves@.contains(best->0.tile));
                }
                if !caching {
                    lemma_minimax_bounds(child, pass_depth(md), child.black_to_move());
                    if i > 0 {
                        let k = best_index(*board, md, i as int);
                        lemma_best_index_range(*board, md, i as int);
                        lemma_minimax_bounds(board.play(moves@[k]), pass_depth(md), !black);
                    }
                }
            }
            i = i + 1;
        }
        let end = current_time_millis();
        self.add_run(Self::elapsed(start, end));
        best
    }

    /// Every legal move with its score (scored as `find_best_move` scores them),
    /// best first for the side to move: highest first when `BLACK` is to move,
    /// lowest first otherwise; equal scores keep enumeration order. Resets the
    /// cache counters first and records a run.
    pub fn find_ranked_moves(&mut self, board: &OthelloBoard) -> (r: Vec<RankedTile>)
        requires
            old(self).wf(),
            board.wf(),
        ensures
            final(self).wf(),
            final(self).settings() == old(self).settings(),
            final(self).keys() == old(self).keys(),
            final(self).history().len() == old(self).history().len() + 1,
            final(self).history().drop_last() == old(self).history(),
            final(self).history().last().spec_max_depth() == old(self).settings().depth(),
            final(self).history().last().spec_hits() == final(self).state().hits,
            final(self).history().last().spec_misses() == final(self).state().misses,
            final(self).state() == score_scan(
                old(self).keys(),
                old(self).settings().caching(),
                counters_reset(old(self).state()),
                *board,
                old(self).settings().depth(),
                board.legal_moves().len() as int,
            ).1,
            r@.to_multiset() == score_scan(
                old(self).keys(),
                old(self).settings().caching(),
                counters_reset(old(self).state()),
                *board,
                old(self).settings().depth(),
                board.legal_moves().len() as int,
            ).0.to_multiset(),
            forall|v: i64|
                #[trigger] ties(r@, v) == ties(
                    score_scan(
                        old(self).keys(),
                        old(self).settings().caching(),
                        counters_reset(old(self).state()),
                        *board,
                        old(self).settings().depth(),
                        board.legal_moves().len() as int,
                    ).0,
                    v,
                ),
            ranked(r@, board.black_to_move()),
            r@.map_values(|x: RankedTile| x.tile).to_multiset() == board.legal_moves().to_multiset(),
            r@.len() == board.legal_moves().len(),
            !old(self).settings().caching() ==> r@.to_multiset() == scored_moves(
                *board,
                old(self).settings().depth(),
            ).to_multiset(),
    {
        let start = current_time_millis();
        self.cache.reset_counts();
        let moves = board.find_current_moves();
        proof {
            board.lemma_potential_moves_valid(board.current_color());
        }
        let black = board.is_black_move();
        let ghost md = self.settings().depth();
        let ghost keys = self.keys();
        let ghost caching = self.settings().caching();
        let ghost reset = self.state();
        let ghost all = scored_moves(*board, md);
        let mut ranked_tiles: Vec<RankedTile> = Vec::new();
        let mut i: usize = 0;
        assert(all.subrange(0, 0) =~= ranked_tiles@);
        assert(moves@.subrange(0, 0) =~= ranked_tiles@.map_values(|x: RankedTile| x.tile));
        proof {
            assert forall|v: i64| #[trigger] ties(ranked_tiles@, v) == ties(
                score_scan(keys, caching, reset, *board, md, 0).0,
                v,
            ) by {
                assert(ranked_tiles@ =~= score_scan(keys, caching, reset, *board, md, 0).0);
            }
        }
        while i < moves.len()
            invariant
                self.wf(),
                board.wf(),
                self.settings() == old(self).settings(),
                self.keys() == keys,
                caching == self.settings().caching(),
                self.history() == old(self).history(),
                reset == counters_reset(old(self).state()),
                md == self.settings().depth(),
                all == scored_moves(*board, md),
                black == board.black_to_move(),
                moves@ == board.legal_moves(),
                forall|k: int| 0 <= k < moves@.len() ==> (#[trigger] moves@[k]).valid(),
                i <= moves@.len(),
                ranked_tiles@.len() == i,
                ranked(ranked_tiles@, black),
                self.state() == score_scan(keys, caching, reset, *board, md, i as int).1,
                ranked_tiles@.to_multiset() == score_scan(keys, caching, reset, *board, md, i as int).0.to_multiset(),
                forall|v: i64|
                    #[trigger] ties(ranked_tiles@, v) == ties(
                        score_scan(keys, caching, reset, *board, md, i as int).0,
                        v,
                    ),
                ranked_tiles@.map_values(|x: RankedTile| x.tile).to_multiset() == moves@.subrange(
                    0,
                    i as int,
                ).to_multiset(),
                !self.settings().caching() ==> ranked_tiles@.to_multiset() == all.subrange(
                    0,
                    i as int,
                ).to_multiset(),
            decreases moves@.len() - i,
        {
            let mov = moves[i];
            let child = board.make_move(mov);
            let h = self.evaluate_base(&child);
            let ghost before = ranked_tiles@;
            let ghost prev = score_scan(keys, caching, reset, *board, md, i as int);
            let x = RankedTile::new(mov, h);
            insert_ranked(&mut ranked_tiles, x, black);
            proof {
                broadcast use vstd::seq_lib::to_multiset_build;

                let next = score_scan(keys, caching, reset, *board, md, i + 1);
                assert(moves@[i as int] == mov);
                assert(next.0 == prev.0.push(x));
                assert forall|v: i64| #[trigger] ties(ranked_tiles@, v) == ties(next.0, v) by {
                    Seq::filter_distributes_over_add(prev.0, seq![x], |y: RankedTile| y.heuristic == v);
                    lemma_ties_single(x, v);
                    assert(prev.0 + seq![x] =~= prev.0.push(x));
                    if x.heuristic == v {
                        assert(ties(prev.0, v) + seq![x] =~= ties(prev.0, v).push(x));
                    } else {
                        assert(ties(prev.0, v) + Seq::<RankedTile>::empty() =~= ties(prev.0, v));
                    }
                }
                assert(moves@.subrange(0, i + 1) =~= moves@.subrange(0, i as int).push(mov));
                assert(all.subrange(0, i + 1) =~= all.subrange(0, i as int).push(all[i as int]));
                if !caching {
                    lemma_minimax_bounds(child, pass_depth(md), child.black_to_move());
                }
            }
            i = i + 1;
        }
        proof {
            assert(all.subrange(0, moves@.len() as int) =~= all);
            assert(moves@.subrange(0, moves@.len() as int) =~= moves@);
        }
        let end = current_time_millis();
        self.add_run(Self::elapsed(start, end));
        ranked_tiles
    }
}

} // verus!
