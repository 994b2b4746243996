use vstd::prelude::*;

verus! {

/// The number of buckets.
pub const CACHE_SIZE: usize = 4097;

/// A cached score: the position's fingerprint, its score, and the depth that
/// score was searched to.
#[derive(Clone, Copy, Debug, PartialEq, Eq, Structural)]
pub struct CacheNode {
    pub key: i64,
    pub heuristic: i64,
    pub depth: u32,
}

impl CacheNode {
    pub fn new(key: i64, heuristic: i64, depth: u32) -> (r: CacheNode)
        ensures
            r == (CacheNode { key, heuristic, depth }),
    {
        CacheNode { key, heuristic, depth }
    }
}

/// One bucket: a depth-preferred slot and an always-replace slot.
#[derive(Clone, Copy, Debug, PartialEq, Eq, Structural)]
pub struct CacheLine {
    pub depth_preferred: Option<CacheNode>,
    pub always_replace: Option<CacheNode>,
}

/// The bucket after writing `node`: an empty depth-preferred slot takes it; a
/// strictly deeper node takes the depth-preferred slot and moves its occupant to
/// the always-replace slot; any other node overwrites the always-replace slot.
pub open spec fn put_line(line: CacheLine, node: CacheNode) -> CacheLine {
    match line.depth_preferred {
        Some(first) => if node.depth > first.depth {
            CacheLine { depth_preferred: Some(node), always_replace: Some(first) }
        } else {
            CacheLine { depth_preferred: line.depth_preferred, always_replace: Some(node) }
        },
        None => CacheLine { depth_preferred: Some(node), always_replace: line.always_replace },
    }
}

/// The bucket after writing each of `nodes` in turn.
pub open spec fn put_all(line: CacheLine, nodes: Seq<CacheNode>) -> CacheLine
    decreases nodes.len(),
{
    if nodes.len() == 0 {
        line
    } else {
        put_line(put_all(line, nodes.drop_last()), nodes.last())
    }
}

/// The first slot of the bucket, depth-preferred first, that holds `key`.
pub open spec fn lookup_line(line: CacheLine, key: i64) -> Option<CacheNode> {
    if line.depth_preferred is Some && line.depth_preferred->0.key == key {
        line.depth_preferred
    } else if line.always_replace is Some && line.always_replace->0.key == key {
        line.always_replace
    } else {
        None
    }
}

/// The bucket of a fingerprint: its remainder modulo the bucket count, taken
/// non-negative.
pub open spec fn bucket_of(key: i64) -> int {
    (key as int) % (CACHE_SIZE as int)
}

/// One more, stopping at the largest `u32`.
pub open spec fn bump(n: u32) -> u32 {
    if n < u32::MAX {
        (n + 1) as u32
    } else {
        n
    }
}

/// Over any sequence of writes to one bucket, the depth-preferred slot is a
/// high-water mark: once occupied it stays occupied, and its depth never falls
/// below the depth it held at any earlier point.
pub proof fn lemma_depth_preferred_high_water(line: CacheLine, nodes: Seq<CacheNode>, i: int)
    requires
        0 <= i <= nodes.len(),
        put_all(line, nodes.subrange(0, i)).depth_preferred is Some,
    ensures
        put_all(line, nodes).depth_preferred is Some,
        put_all(line, nodes.subrange(0, i)).depth_preferred->0.depth <= put_all(
            line,
            nodes,
        ).depth_preferred->0.depth,
    decreases nodes.len() - i,
{
    if i < nodes.len() {
        let next = nodes.subrange(0, i + 1);
        assert(next.drop_last() =~= nodes.subrange(0, i));
        assert(next.last() == nodes[i]);
        lemma_depth_preferred_high_water(line, nodes, i + 1);
    } else {
        assert(nodes.subrange(0, i) =~= nodes);
    }
}

/// A write deeper than the depth-preferred occupant takes its slot and moves the
/// occupant to the always-replace slot; no write empties the depth-preferred slot.
pub proof fn lemma_deeper_write_displaces(line: CacheLine, node: CacheNode)
    ensures
        put_line(line, node).depth_preferred is Some,
        line.depth_preferred is Some && node.depth > line.depth_preferred->0.depth ==> put_line(
            line,
            node,
        ).depth_preferred == Some(node) && put_line(line, node).always_replace
            == line.depth_preferred,
        line.depth_preferred is Some ==> line.depth_preferred->0.depth <= put_line(
            line,
            node,
        ).depth_preferred->0.depth,
{
}

/// A fixed-size table of cached scores with a two-slot replacement policy, and
/// hit and miss counters.
pub struct TranspositionTable {
    cache: Vec<CacheLine>,
    hits: u32,
    misses: u32,
}

fn bucket(key: i64) -> (r: usize)
    ensures
        r == bucket_of(key),
        r < CACHE_SIZE,
{
    let m: i64 = CACHE_SIZE as i64;
    if key >= 0 {
        (key % m) as usize
    } else {
        let neg: u64 = (-(key + 1)) as u64;
        let rem: u64 = neg % (CACHE_SIZE as u64);
        (CACHE_SIZE as u64 - 1 - rem) as usize
    }
}

impl TranspositionTable {
    /// The buckets.
    pub closed spec fn lines(self) -> Seq<CacheLine> {
        self.cache@
    }

    pub closed spec fn hit_count(self) -> u32 {
        self.hits
    }

    pub closed spec fn miss_count(self) -> u32 {
        self.misses
    }

    pub open spec fn wf(self) -> bool {
        self.lines().len() == CACHE_SIZE
    }

    /// An empty table with zeroed counters.
    pub fn new() -> (r: TranspositionTable)
        ensures
            r.wf(),
            forall|i: int| 0 <= i < CACHE_SIZE ==> #[trigger] r.lines()[i] == (CacheLine {
                depth_preferred: None,
                always_replace: None,
            }),
            r.hit_count() == 0,
            r.miss_count() == 0,
    {
        let mut cache: Vec<CacheLine> = Vec::new();
        let mut i: usize = 0;
        while i < CACHE_SIZE
            invariant
                i <= CACHE_SIZE,
                cache@.len() == i,
                forall|j: int| 0 <= j < i ==> #[trigger] cache@[j] == (CacheLine {
                    depth_preferred: None,
                    always_replace: None,
                }),
            decreases CACHE_SIZE - i,
        {
            cache.push(CacheLine { depth_preferred: None, always_replace: None });
            i = i + 1;
        }
        TranspositionTable { cache, hits: 0, misses: 0 }
    }

    /// The number of buckets.
    pub fn cache_len(&self) -> (r: i64)
        requires
            self.wf(),
        ensures
            r == CACHE_SIZE,
    {
        self.cache.len() as i64
    }

    /// The bucket at `i`.
    pub fn line(&self, i: usize) -> (r: CacheLine)
        requires
            self.wf(),
            i < CACHE_SIZE,
        ensures
            r == self.lines()[i as int],
    {
        self.cache[i]
    }

    /// Writes `node` into its bucket by the two-slot policy (see `put_line`).
    pub fn put(&mut self, node: CacheNode)
        requires
            old(self).wf(),
        ensures
            final(self).wf(),
            final(self).lines() == old(self).lines().update(
                bucket_of(node.key),
                put_line(old(self).lines()[bucket_of(node.key)], node),
            ),
            final(self).hit_count() == old(self).hit_count(),
            final(self).miss_count() == old(self).miss_count(),
    {
        let h = bucket(node.key);
        let line = self.cache[h];
        let new_line = match line.depth_preferred {
            Some(first_node) => {
                if node.depth > first_node.depth {
                    CacheLine { depth_preferred: Some(node), always_replace: Some(first_node) }
                } else {
                    CacheLine { depth_preferred: line.depth_preferred, always_replace: Some(node) }
                }
            },
            None => CacheLine { depth_preferred: Some(node), always_replace: line.always_replace },
        };
        self.cache.set(h, new_line);
    }

    /// The entry for `key` in its bucket, if either slot holds it; counts a hit
    /// or a miss.
    pub fn get(&mut self, key: i64) -> (r: Option<CacheNode>)
        requires
            old(self).wf(),
        ensures
            final(self).wf(),
            r == lookup_line(old(self).lines()[bucket_of(key)], key),
            final(self).lines() == old(self).lines(),
            r is Some ==> final(self).hit_count() == bump(old(self).hit_count())
                && final(self).miss_count() == old(self).miss_count(),
            r is None ==> final(self).miss_count() == bump(old(self).miss_count())
                && final(self).hit_count() == old(self).hit_count(),
    {
        let h = bucket(key);
        let line = self.cache[h];
        let found = match line.depth_preferred {
            Some(node) if node.key == key => Some(node),
            _ => match line.always_replace {
                Some(node) if node.key == key => Some(node),
                _ => None,
            },
        };
        match found {
            Some(_) => {
                if self.hits < u32::MAX {
                    self.hits = self.hits + 1;
                }
            },
            None => {
                if self.misses < u32::MAX {
                    self.misses = self.misses + 1;
                }
            },
        }
        found
    }

    /// Empties every bucket; the counters are kept.
    pub fn clear(&mut self)
        requires
            old(self).wf(),
        ensures
            final(self).wf(),
            forall|i: int| 0 <= i < CACHE_SIZE ==> #[trigger] final(self).lines()[i] == (CacheLine {
                depth_preferred: None,
                always_replace: None,
            }),
            final(self).hit_count() == old(self).hit_count(),
            final(self).miss_count() == old(self).miss_count(),
    {
        let mut i: usize = 0;
        while i < self.cache.len()
            invariant
                self.cache@.len() == CACHE_SIZE,
                i <= CACHE_SIZE,
                self.hits == old(self).hits,
                self.misses == old(self).misses,
                forall|j: int| 0 <= j < i ==> #[trigger] self.cache@[j] == (CacheLine {
                    depth_preferred: None,
                    always_replace: None,
                }),
            decreases CACHE_SIZE - i,
        {
            self.cache.set(i, CacheLine { depth_preferred: None, always_replace: None });
            i = i + 1;
        }
    }

    /// Hits counted since the last reset.
    pub fn hits(&self) -> (r: u32)
        ensures
            r == self.hit_count(),
    {
        self.hits
    }

    /// Misses counted since the last reset.
    pub fn misses(&self) -> (r: u32)
        ensures
            r == self.miss_count(),
    {
        self.misses
    }

    /// Zeroes both counters; the entries are kept.
    pub fn reset_counts(&mut self)
        ensures
            final(self).hit_count() == 0,
            final(self).miss_count() == 0,
            final(self).lines() == old(self).lines(),
    {
        self.hits = 0;
        self.misses = 0;
    }
}

} // verus!
