//! What an enumerator counts and times while it runs.

use crate::clock::{no_time, span_sum};
use crate::search::Tally;
use std::time::Duration;
use vstd::prelude::*;

verus! {

/// The figures of the Gilbert-Pollak enumeration. Pruning is counted and
/// timed by level: level 0 is the first terminal put in after the seed.
#[derive(Debug)]
pub struct GPEnumerationData {
    nodes: usize,
    time: Duration,
    bsd_pruned: Vec<usize>,
    ss_pruned: Vec<usize>,
    prune_times: Vec<Duration>,
    sort_time: Duration,
    bsd_time: Duration,
    ss_time: Duration,
    init_time: Duration,
}

/// The figures that every enumerator keeps.
pub trait EnumeratorData {
    /// The number of topologies that were built and not given up.
    fn nodes(&self) -> usize;

    /// The number of topologies that were given up.
    fn pruned(&self) -> usize;

    /// The time that the last call of `next` took.
    fn time(&self) -> &Duration;
}

/// The sum of the counts, as a number without bound.
pub open spec fn seq_sum(s: Seq<usize>) -> nat
    decreases s.len(),
{
    if s.len() == 0 {
        0
    } else {
        seq_sum(s.drop_last()) + s.last() as nat
    }
}

/// `n`, or the largest count that there is where `n` is larger.
pub open spec fn capped(n: int) -> usize {
    if 0 <= n <= usize::MAX {
        n as usize
    } else {
        usize::MAX
    }
}

/// The number of levels below the seed for `ts` terminals.
pub open spec fn levels(ts: usize) -> nat {
    if ts < 3 {
        0
    } else {
        (ts - 3) as nat
    }
}

impl GPEnumerationData {
    /// The number of topologies built and kept.
    pub closed spec fn spec_nodes(&self) -> usize {
        self.nodes
    }

    /// The topologies given up by the bottleneck test, by level.
    pub closed spec fn spec_bsd_pruned(&self) -> Seq<usize> {
        self.bsd_pruned@
    }

    /// The topologies given up by the sphere test, by level.
    pub closed spec fn spec_ss_pruned(&self) -> Seq<usize> {
        self.ss_pruned@
    }

    /// The number of levels that times are kept for.
    pub closed spec fn spec_timed_levels(&self) -> nat {
        self.prune_times@.len()
    }

    /// The time spent on the tests, by level.
    pub closed spec fn spec_prune_times(&self) -> Seq<Duration> {
        self.prune_times@
    }

    /// The time that the last call of `next` took.
    pub closed spec fn spec_time(&self) -> Duration {
        self.time
    }

    /// The time that sorting the terminals took.
    pub closed spec fn spec_sort_time(&self) -> Duration {
        self.sort_time
    }

    /// The time that the bottleneck distances took.
    pub closed spec fn spec_bsd_time(&self) -> Duration {
        self.bsd_time
    }

    /// The time that the sphere radii took.
    pub closed spec fn spec_ss_time(&self) -> Duration {
        self.ss_time
    }

    /// The time that `init` took.
    pub closed spec fn spec_init_time(&self) -> Duration {
        self.init_time
    }

    /// The counts.
    pub open spec fn tally(&self) -> Tally {
        Tally {
            nodes: self.spec_nodes(),
            bsd: self.spec_bsd_pruned(),
            ss: self.spec_ss_pruned(),
        }
    }

    /// Whether the figures are those of a fresh enumeration of `ts` terminals.
    pub open spec fn is_clear(&self, ts: usize) -> bool {
        &&& self.spec_nodes() == 0
        &&& self.spec_bsd_pruned() == Seq::new(levels(ts), |i: int| 0usize)
        &&& self.spec_ss_pruned() == Seq::new(levels(ts), |i: int| 0usize)
        &&& self.spec_timed_levels() == levels(ts)
    }

    /// Fresh figures for `ts` terminals.
    pub fn new(ts: usize) -> (d: Self)
        ensures
            d.is_clear(ts),
    {
        let n = if ts < 3 {
            0
        } else {
            ts - 3
        };
        GPEnumerationData {
            nodes: 0,
            time: no_time(),
            bsd_pruned: zeros(n),
            ss_pruned: zeros(n),
            prune_times: no_times(n),
            sort_time: no_time(),
            bsd_time: no_time(),
            ss_time: no_time(),
            init_time: no_time(),
        }
    }

    /// Makes the figures those of a fresh enumeration of `ts` terminals.
    pub fn clear(&mut self, ts: usize)
        ensures
            final(self).is_clear(ts),
    {
        let n = if ts < 3 {
            0
        } else {
            ts - 3
        };
        self.nodes = 0;
        self.time = no_time();
        self.bsd_pruned = zeros(n);
        self.ss_pruned = zeros(n);
        self.prune_times = no_times(n);
        self.sort_time = no_time();
        self.bsd_time = no_time();
        self.ss_time = no_time();
        self.init_time = no_time();
    }

    /// The topologies given up by the sphere test, by level.
    pub fn ss_pruned(&self) -> (r: &[usize])
        ensures
            r@ == self.spec_ss_pruned(),
    {
        self.ss_pruned.as_slice()
    }

    /// The topologies given up by the bottleneck test, by level.
    pub fn bsd_pruned(&self) -> (r: &[usize])
        ensures
            r@ == self.spec_bsd_pruned(),
    {
        self.bsd_pruned.as_slice()
    }

    /// The time spent on the tests, by level.
    pub fn prune_times(&self) -> (r: &[Duration])
        ensures
            r@ == self.spec_prune_times(),
            r@.len() == self.spec_timed_levels(),
    {
        self.prune_times.as_slice()
    }

    /// The time that sorting the terminals took.
    pub fn sort_time(&self) -> (r: &Duration)
        ensures
            *r == self.spec_sort_time(),
    {
        &self.sort_time
    }

    /// The time that the bottleneck distances took.
    pub fn bsd_time(&self) -> (r: &Duration)
        ensures
            *r == self.spec_bsd_time(),
    {
        &self.bsd_time
    }

    /// The time that the sphere radii took.
    pub fn ss_time(&self) -> (r: &Duration)
        ensures
            *r == self.spec_ss_time(),
    {
        &self.ss_time
    }

    /// The time that `init` took.
    pub fn init_time(&self) -> (r: &Duration)
        ensures
            *r == self.spec_init_time(),
    {
        &self.init_time
    }

    /// Counts one topology built and kept.
    pub(crate) fn count_node(&mut self)
        ensures
            final(self).spec_nodes() == capped(old(self).spec_nodes() + 1),
            final(self).spec_bsd_pruned() == old(self).spec_bsd_pruned(),
            final(self).spec_ss_pruned() == old(self).spec_ss_pruned(),
            final(self).spec_timed_levels() == old(self).spec_timed_levels(),
    {
        if self.nodes < usize::MAX {
            self.nodes += 1;
        }
    }

    /// Counts one topology given up at `level`, by the bottleneck test if
    /// `bsd`, else by the sphere test.
    pub(crate) fn count_pruned(&mut self, level: usize, bsd: bool)
        requires
            level < old(self).spec_bsd_pruned().len(),
            level < old(self).spec_ss_pruned().len(),
        ensures
            final(self).spec_nodes() == old(self).spec_nodes(),
            final(self).spec_timed_levels() == old(self).spec_timed_levels(),
            bsd ==> final(self).spec_ss_pruned() == old(self).spec_ss_pruned()
                && final(self).spec_bsd_pruned() == old(self).spec_bsd_pruned().update(
                level as int,
                capped(old(self).spec_bsd_pruned()[level as int] + 1),
            ),
            !bsd ==> final(self).spec_bsd_pruned() == old(self).spec_bsd_pruned()
                && final(self).spec_ss_pruned() == old(self).spec_ss_pruned().update(
                level as int,
                capped(old(self).spec_ss_pruned()[level as int] + 1),
            ),
    {
        if bsd {
            let c = self.bsd_pruned[level];
            if c < usize::MAX {
                self.bsd_pruned[level] = c + 1;
            }
            proof {
                assert(self.bsd_pruned@ =~= old(self).bsd_pruned@.update(
                    level as int,
                    capped(old(self).bsd_pruned@[level as int] + 1),
                ));
            }
        } else {
            let c = self.ss_pruned[level];
            if c < usize::MAX {
                self.ss_pruned[level] = c + 1;
            }
            proof {
                assert(self.ss_pruned@ =~= old(self).ss_pruned@.update(
                    level as int,
                    capped(old(self).ss_pruned@[level as int] + 1),
                ));
            }
        }
    }

    /// Adds `d` to the time spent on the tests at `level`.
    pub(crate) fn add_prune_time(&mut self, level: usize, d: Duration)
        requires
            level < old(self).spec_timed_levels(),
        ensures
            final(self).spec_prune_times() == old(self).spec_prune_times().update(
                level as int,
                span_sum(old(self).spec_prune_times()[level as int], d),
            ),
            final(self).spec_nodes() == old(self).spec_nodes(),
            final(self).spec_bsd_pruned() == old(self).spec_bsd_pruned(),
            final(self).spec_ss_pruned() == old(self).spec_ss_pruned(),
            final(self).spec_timed_levels() == old(self).spec_timed_levels(),
            final(self).spec_time() == old(self).spec_time(),
            final(self).spec_sort_time() == old(self).spec_sort_time(),
            final(self).spec_bsd_time() == old(self).spec_bsd_time(),
            final(self).spec_ss_time() == old(self).spec_ss_time(),
            final(self).spec_init_time() == old(self).spec_init_time(),
    {
        let t = crate::clock::plus(self.prune_times[level], d);
        self.prune_times[level] = t;
    }

    /// Records the time that the last call of `next` took.
    pub(crate) fn set_time(&mut self, d: Duration)
        ensures
            final(self).spec_time() == d,
            final(self).spec_nodes() == old(self).spec_nodes(),
            final(self).spec_bsd_pruned() == old(self).spec_bsd_pruned(),
            final(self).spec_ss_pruned() == old(self).spec_ss_pruned(),
            final(self).spec_timed_levels() == old(self).spec_timed_levels(),
            final(self).spec_prune_times() == old(self).spec_prune_times(),
            final(self).spec_sort_time() == old(self).spec_sort_time(),
            final(self).spec_bsd_time() == old(self).spec_bsd_time(),
            final(self).spec_ss_time() == old(self).spec_ss_time(),
            final(self).spec_init_time() == old(self).spec_init_time(),
    {
        self.time = d;
    }

    /// Records the times that the parts of `init` took.
    pub(crate) fn set_init_times(
        &mut self,
        sort: Duration,
        bsd: Duration,
        ss: Duration,
        init: Duration,
    )
        ensures
            final(self).spec_sort_time() == sort,
            final(self).spec_bsd_time() == bsd,
            final(self).spec_ss_time() == ss,
            final(self).spec_init_time() == init,
            final(self).spec_nodes() == old(self).spec_nodes(),
            final(self).spec_bsd_pruned() == old(self).spec_bsd_pruned(),
            final(self).spec_ss_pruned() == old(self).spec_ss_pruned(),
            final(self).spec_timed_levels() == old(self).spec_timed_levels(),
            final(self).spec_prune_times() == old(self).spec_prune_times(),
            final(self).spec_time() == old(self).spec_time(),
    {
        self.sort_time = sort;
        self.bsd_time = bsd;
        self.ss_time = ss;
        self.init_time = init;
    }
}

impl EnumeratorData for GPEnumerationData {
    fn nodes(&self) -> (n: usize)
        ensures
            n == self.spec_nodes(),
    {
        self.nodes
    }

    /// The sum over both tests and all levels, stopping at the largest count
    /// that there is.
    fn pruned(&self) -> (n: usize)
        ensures
            n == capped(
                capped(seq_sum(self.spec_bsd_pruned()) as int) + capped(
                    seq_sum(self.spec_ss_pruned()) as int,
                ),
            ),
    {
        let a = capped_sum(&self.bsd_pruned);
        let b = capped_sum(&self.ss_pruned);
        if b <= usize::MAX - a {
            a + b
        } else {
            usize::MAX
        }
    }

    fn time(&self) -> (r: &Duration)
        ensures
            *r == self.spec_time(),
    {
        &self.time
    }
}

/// The sum of the counts, stopping at the largest count that there is.
pub fn capped_sum(v: &Vec<usize>) -> (r: usize)
    ensures
        r == capped(seq_sum(v@) as int),
{
    let mut acc: usize = 0;
    let mut i: usize = 0;
    proof {
        assert(v@.take(0) =~= Seq::empty());
    }
    while i < v.len()
        invariant
            i <= v.len(),
            acc == capped(seq_sum(v@.take(i as int)) as int),
        decreases v.len() - i,
    {
        proof {
            assert(v@.take(i + 1).drop_last() =~= v@.take(i as int));
        }
        acc = if v[i] <= usize::MAX - acc {
            acc + v[i]
        } else {
            usize::MAX
        };
        i += 1;
    }
    proof {
        assert(v@.take(v.len() as int) =~= v@);
    }
    acc
}

/// `n` zeros.
pub fn zeros(n: usize) -> (v: Vec<usize>)
    ensures
        v@ == Seq::new(n as nat, |i: int| 0usize),
{
    let mut v: Vec<usize> = Vec::new();
    let mut i: usize = 0;
    while i < n
        invariant
            i <= n,
            v@ == Seq::new(i as nat, |i: int| 0usize),
        decreases n - i,
    {
        v.push(0);
        proof {
            assert(v@ =~= Seq::new((i + 1) as nat, |i: int| 0usize));
        }
        i += 1;
    }
    v
}

/// `n` times no time.
pub fn no_times(n: usize) -> (v: Vec<Duration>)
    ensures
        v@.len() == n,
{
    let mut v: Vec<Duration> = Vec::new();
    let mut i: usize = 0;
    while i < n
        invariant
            i <= n,
            v@.len() == i,
        decreases n - i,
    {
        v.push(no_time());
        i += 1;
    }
    v
}

} // verus!
