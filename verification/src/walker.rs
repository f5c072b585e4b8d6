use vstd::prelude::*;

use crate::geometry::Direction;
use crate::maze::Maze;

verus! {

/// The repeating timer that gates maze mutation.  It accumulates elapsed
/// milliseconds and fires once whenever at least a full period has
/// accumulated, coalescing any backlog into a single firing; the
/// remainder is carried over.
#[derive(Debug, Clone, Copy, PartialEq, Eq)]
pub struct MazeUpdateTimer {
    pub period_ms: u64,
    pub elapsed_ms: u64,
}

impl MazeUpdateTimer {
    /// Timer invariant: the accumulated time is always short of a period.
    pub open spec fn wf(self) -> bool {
        1 <= self.period_ms <= 0xffff_ffff && self.elapsed_ms < self.period_ms
    }

    /// A fresh timer with the given period that has seen no time yet.
    pub fn new(period_ms: u64) -> (t: MazeUpdateTimer)
        requires
            1 <= period_ms <= 0xffff_ffff,
        ensures
            t.wf(),
            t.period_ms == period_ms,
            t.elapsed_ms == 0,
    {
        MazeUpdateTimer { period_ms, elapsed_ms: 0 }
    }

    /// Advance the timer by `delta_ms` and report whether a period
    /// boundary was crossed.
    pub fn tick(&mut self, delta_ms: u32) -> (fired: bool)
        requires
            old(self).wf(),
        ensures
            final(self).wf(),
            final(self).period_ms == old(self).period_ms,
            fired == (old(self).elapsed_ms + delta_ms >= old(self).period_ms),
            final(self).elapsed_ms == if fired {
                (old(self).elapsed_ms + delta_ms) % (old(self).period_ms as int)
            } else {
                old(self).elapsed_ms + delta_ms
            },
    {
        let total: u64 = self.elapsed_ms + (delta_ms as u64);
        if total >= self.period_ms {
            self.elapsed_ms = total % self.period_ms;
            true
        } else {
            self.elapsed_ms = total;
            false
        }
    }
}

/// Relies on `rand::random_range` over `0..n`: the result is drawn
/// uniformly from the range, so it is always below `n`.  The call panics
/// on an empty range, which the precondition rules out.
#[verifier::external_body]
fn random_below(n: usize) -> (r: usize)
    requires
        1 <= n,
    ensures
        r < n,
{
    rand::random_range(0..n)
}

/// One scheduling step of the root walker: advance the timer by
/// `delta_ms`; when it fires, query the available directions, pick one
/// uniformly at random and relocate the root there.  When the timer does
/// not fire, or no direction is available, the maze is left untouched —
/// an expected, recoverable condition rather than an error.
pub fn update_maze(
    maze: &mut Maze,
    timer: &mut MazeUpdateTimer,
    delta_ms: u32,
    player: Option<(i64, i64)>,
) -> (moved: Option<Direction>)
    requires
        old(maze).wf(),
        old(timer).wf(),
        Maze::player_in_range(player),
    ensures
        final(maze).wf(),
        final(timer).period_ms == old(timer).period_ms,
        final(timer).wf(),
        match moved {
            None => *final(maze) == *old(maze) && (old(timer).elapsed_ms + delta_ms < old(
                timer,
            ).period_ms || old(maze).available_seq(player).len() == 0),
            Some(d) => {
                &&& old(timer).elapsed_ms + delta_ms >= old(timer).period_ms
                &&& old(maze).available_seq(player).contains(d)
                &&& final(maze).relocated_from(*old(maze), d)
            },
        },
{
    if !timer.tick(delta_ms) {
        return None;
    }
    let dirs = maze.available_directions(player);
    if dirs.len() == 0 {
        return None;
    }
    let k = random_below(dirs.len());
    let d = dirs[k];
    proof {
        assert(old(maze).available_seq(player)[k as int] == d);
        assert(old(maze).available_seq(player).contains(d));
        assert(old(maze).dir_available(d, player));
    }
    maze.relocate_root(d);
    Some(d)
}

} // verus!
