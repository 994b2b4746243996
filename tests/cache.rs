use othello_engine::cache::{CacheNode, TranspositionTable, CACHE_SIZE};
use othello_engine::profile::{Profiler, Run};

#[test]
fn put_then_get() {
    let mut t = TranspositionTable::new();
    assert_eq!(t.cache_len(), CACHE_SIZE as i64);
    t.put(CacheNode::new(42, 7, 3));
    let n = t.get(42).unwrap();
    assert_eq!((n.key, n.heuristic, n.depth), (42, 7, 3));
    assert!(t.get(43).is_none());
    assert_eq!(t.hits(), 1);
    assert_eq!(t.misses(), 1);
    t.reset_counts();
    assert_eq!((t.hits(), t.misses()), (0, 0));
    assert!(t.get(42).is_some());
}

#[test]
fn deeper_entry_takes_depth_preferred_slot() {
    let mut t = TranspositionTable::new();
    let k = 5i64;
    let step = CACHE_SIZE as i64;
    t.put(CacheNode::new(k, 1, 2));
    t.put(CacheNode::new(k + step, 2, 5));
    let line = t.line(5);
    assert_eq!(line.depth_preferred.unwrap().key, k + step);
    assert_eq!(line.always_replace.unwrap().key, k);
    // a shallower entry goes to the always-replace slot
    t.put(CacheNode::new(k + 2 * step, 3, 1));
    let line = t.line(5);
    assert_eq!(line.depth_preferred.unwrap().depth, 5);
    assert_eq!(line.always_replace.unwrap().key, k + 2 * step);
    // an equal depth does not displace
    t.put(CacheNode::new(k + 3 * step, 4, 5));
    let line = t.line(5);
    assert_eq!(line.depth_preferred.unwrap().key, k + step);
    assert_eq!(line.always_replace.unwrap().key, k + 3 * step);
    assert!(t.get(k).is_none());
}

#[test]
fn depth_preferred_depth_never_falls() {
    let mut t = TranspositionTable::new();
    let step = CACHE_SIZE as i64;
    let depths = [3u32, 1, 4, 1, 5, 9, 2, 6];
    let mut high = 0;
    for (i, d) in depths.iter().enumerate() {
        t.put(CacheNode::new(11 + step * i as i64, 0, *d));
        let now = t.line(11).depth_preferred.unwrap().depth;
        assert!(now >= high);
        high = now;
    }
    assert_eq!(high, 9);
}

#[test]
fn negative_keys_use_a_valid_bucket() {
    let mut t = TranspositionTable::new();
    t.put(CacheNode::new(-1, 9, 1));
    assert_eq!(t.line(CACHE_SIZE - 1).depth_preferred.unwrap().key, -1);
    assert_eq!(t.get(-1).unwrap().heuristic, 9);
}

#[test]
fn clear_empties_buckets() {
    let mut t = TranspositionTable::new();
    t.put(CacheNode::new(1, 1, 1));
    t.clear();
    assert!(t.get(1).is_none());
}

#[test]
fn profiler_totals() {
    let mut p = Profiler::new();
    assert_eq!(p.average_time(), 0);
    p.add_run(Run::new(5, 1, 2, 10));
    p.add_run(Run::new(5, 3, 4, 25));
    assert_eq!(p.runs().len(), 2);
    assert_eq!(p.total_time(), 35);
    assert_eq!(p.average_time(), 17);
    assert_eq!(p.runs()[1].time_taken(), 25);
}
