use vstd::prelude::*;

verus! {

/// Statistics of one top-level search.
#[derive(Clone, Copy, Debug)]
pub struct Run {
    max_depth: u32,
    hits: u32,
    misses: u32,
    time_taken: u128,
}

/// The sum of the times of `runs`.
pub open spec fn total_of(runs: Seq<Run>) -> int
    decreases runs.len(),
{
    if runs.len() == 0 {
        0
    } else {
        total_of(runs.drop_last()) + runs.last().spec_time_taken()
    }
}

impl Run {
    pub closed spec fn spec_max_depth(self) -> u32 {
        self.max_depth
    }

    pub closed spec fn spec_hits(self) -> u32 {
        self.hits
    }

    pub closed spec fn spec_misses(self) -> u32 {
        self.misses
    }

    pub closed spec fn spec_time_taken(self) -> u128 {
        self.time_taken
    }

    pub fn new(max_depth: u32, hits: u32, misses: u32, time_taken: u128) -> (r: Run)
        ensures
            r.spec_max_depth() == max_depth,
            r.spec_hits() == hits,
            r.spec_misses() == misses,
            r.spec_time_taken() == time_taken,
    {
        Run { max_depth, hits, misses, time_taken }
    }

    pub fn max_depth(&self) -> (r: u32)
        ensures
            r == self.spec_max_depth(),
    {
        self.max_depth
    }

    pub fn hits(&self) -> (r: u32)
        ensures
            r == self.spec_hits(),
    {
        self.hits
    }

    pub fn misses(&self) -> (r: u32)
        ensures
            r == self.spec_misses(),
    {
        self.misses
    }

    /// Elapsed time in milliseconds.
    pub fn time_taken(&self) -> (r: u128)
        ensures
            r == self.spec_time_taken(),
    {
        self.time_taken
    }
}

/// The append-only history of an engine's searches.
pub struct Profiler {
    runs: Vec<Run>,
}

proof fn lemma_total_nonneg(runs: Seq<Run>)
    ensures
        0 <= total_of(runs),
    decreases runs.len(),
{
    if runs.len() > 0 {
        lemma_total_nonneg(runs.drop_last());
    }
}

impl Profiler {
    /// The runs recorded so far, oldest first.
    pub closed spec fn history(self) -> Seq<Run> {
        self.runs@
    }

    pub fn new() -> (r: Profiler)
        ensures
            r.history() == Seq::<Run>::empty(),
    {
        Profiler { runs: Vec::new() }
    }

    /// Appends `run` to the history.
    pub fn add_run(&mut self, run: Run)
        ensures
            final(self).history() == old(self).history().push(run),
    {
        self.runs.push(run);
    }

    /// The recorded runs, oldest first.
    pub fn runs(&self) -> (r: &Vec<Run>)
        ensures
            r@ == self.history(),
    {
        &self.runs
    }

    /// The total time of all runs, stopping at the largest `u128`.
    pub fn total_time(&self) -> (r: u128)
        ensures
            r == if total_of(self.history()) <= u128::MAX {
                total_of(self.history())
            } else {
                u128::MAX as int
            },
    {
        let mut total: u128 = 0;
        let mut i: usize = 0;
        let mut capped = false;
        while i < self.runs.len()
            invariant
                i <= self.runs@.len(),
                !capped ==> total == total_of(self.runs@.subrange(0, i as int)),
                capped ==> total == u128::MAX && total_of(self.runs@.subrange(0, i as int))
                    > u128::MAX,
            decreases self.runs@.len() - i,
        {
            let t = self.runs[i].time_taken;
            assert(self.runs@.subrange(0, i + 1).drop_last() =~= self.runs@.subrange(0, i as int));
            if !capped {
                if total <= u128::MAX - t {
                    total = total + t;
                } else {
                    total = u128::MAX;
                    capped = true;
                }
            } else {
                proof {
                    lemma_total_nonneg(self.runs@.subrange(0, i as int));
                }
            }
            i = i + 1;
        }
        assert(self.runs@.subrange(0, self.runs@.len() as int) =~= self.runs@);
        total
    }

    /// The mean time of the runs (rounded down), or zero when there are none.
    pub fn average_time(&self) -> (r: u128)
        ensures
            self.history().len() == 0 ==> r == 0,
            self.history().len() > 0 && total_of(self.history()) <= u128::MAX ==> r
                == total_of(self.history()) / (self.history().len() as int),
    {
        let total = self.total_time();
        let len = self.runs.len();
        if len > 0 {
            total / (len as u128)
        } else {
            0
        }
    }
}

} // verus!
