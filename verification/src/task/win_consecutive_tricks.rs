//! Win a run of consecutive tricks, at least or exactly a given length.

use vstd::prelude::*;

use crate::state::State;
use crate::task::TaskStatus;
use crate::trick::Trick;

verus! {

/// The player must win `amount` tricks in consecutive rounds; under
/// `exactly`, the run must have exactly that length and be the only one.
#[derive(Debug)]
pub struct TaskWinConsecutiveTricks {
    pub amount: usize,
    pub exactly: bool,
}

/// A review of a won-trick list, by increasing round index: whether two won
/// tricks are separated by a lost round, the longest run of adjacent rounds,
/// and the length of the final run.
pub open spec fn spec_streaks(ts: Seq<Trick>) -> (bool, int, int)
    decreases ts.len(),
{
    if ts.len() == 0 {
        (false, 0, 0)
    } else if ts.len() == 1 {
        (false, 1, 1)
    } else {
        let (gap, big, cur) = spec_streaks(ts.drop_last());
        if ts[ts.len() - 2].idx + 1 == ts.last().idx {
            let c = cur + 1;
            (gap, if c > big { c } else { big }, c)
        } else {
            (true, big, 1)
        }
    }
}

impl TaskWinConsecutiveTricks {
    pub open spec fn wf(&self) -> bool {
        self.amount >= 1
    }

    pub fn new(amount: usize, exactly: bool) -> (r: TaskWinConsecutiveTricks)
        requires
            amount >= 1,
        ensures
            r.amount == amount,
            r.exactly == exactly,
            r.wf(),
    {
        TaskWinConsecutiveTricks { amount, exactly }
    }

    pub fn new_two_consecutive_tricks() -> (r: TaskWinConsecutiveTricks)
        ensures
            r.amount == 2 && !r.exactly && r.wf(),
    {
        TaskWinConsecutiveTricks::new(2, false)
    }

    pub fn new_exactly_two_consecutive_tricks() -> (r: TaskWinConsecutiveTricks)
        ensures
            r.amount == 2 && r.exactly && r.wf(),
    {
        TaskWinConsecutiveTricks::new(2, true)
    }

    pub fn new_three_consecutive_tricks() -> (r: TaskWinConsecutiveTricks)
        ensures
            r.amount == 3 && !r.exactly && r.wf(),
    {
        TaskWinConsecutiveTricks::new(3, false)
    }

    pub fn new_exactly_three_consecutive_tricks() -> (r: TaskWinConsecutiveTricks)
        ensures
            r.amount == 3 && r.exactly && r.wf(),
    {
        TaskWinConsecutiveTricks::new(3, true)
    }

    /// Done once the run exists (for `exactly`, confirmed gap-free at game
    /// end); Failed once a gap or an overlong run rules `exactly` out, or
    /// the remaining rounds cannot extend the current run to the target.
    pub open spec fn spec_eval(&self, s: State, ip: int) -> TaskStatus {
        let tricks = s.players@[ip].tricks@;
        let r = spec_streaks(tricks);
        let gap = r.0;
        let big = r.1;
        let cur = r.2;
        if !self.exactly && big >= self.amount as int {
            TaskStatus::Done
        } else if self.exactly && s.spec_game_is_over() && big == self.amount as int && !gap {
            TaskStatus::Done
        } else if self.exactly && (gap || big > self.amount as int) {
            TaskStatus::Failed
        } else if cur + s.spec_n_tricks_left() < self.amount as int {
            TaskStatus::Failed
        } else {
            TaskStatus::Unknown
        }
    }

    pub fn eval(&self, state: &State, ip: usize) -> (r: TaskStatus)
        requires
            state.wf(),
            self.wf(),
            ip < state.players@.len(),
        ensures
            r == self.spec_eval(*state, ip as int),
    {
        proof {
            crate::state::lemma_wf_small_counts(*state);
        }
        let ghost tricks = state.players@[ip as int].tricks@;
        let p = state.get_player(ip);
        proof {
            assert forall|j2: int| 0 <= j2 < tricks.len() implies (#[trigger] tricks[j2]).idx
                < usize::MAX by {
                assert(crate::state::player_in_state_wf(
                    state.players@[ip as int],
                    state.players@.len() as int,
                    state.current_trick.idx as int,
                ));
            }
        }

        let mut gap = false;
        let mut big: usize = 0;
        let mut cur: usize = 0;
        let mut j: usize = 0;
        while j < p.tricks.len()
            invariant
                ip < state.players@.len(),
                tricks == state.players@[ip as int].tricks@,
                tricks == p.tricks@,
                tricks.len() <= crate::card::NB_CARDS,
                forall|j2: int| 0 <= j2 < tricks.len() ==> (#[trigger] tricks[j2]).idx
                    < usize::MAX,
                j <= tricks.len(),
                (gap, big as int, cur as int) == spec_streaks(tricks.take(j as int)),
                big <= j,
                cur <= j,
            decreases tricks.len() - j,
        {
            proof {
                assert(tricks.take(j as int + 1).drop_last() =~= tricks.take(j as int));
                assert(tricks.take(j as int + 1).last() == tricks[j as int]);
                if j > 0 {
                    assert(tricks.take(j as int + 1)[j as int - 1] == tricks[j as int - 1]);
                }
            }
            if j == 0 {
                big = 1;
                cur = 1;
            } else if p.tricks[j - 1].idx() + 1 == p.tricks[j].idx() {
                cur = cur + 1;
                if cur > big {
                    big = cur;
                }
            } else {
                gap = true;
                cur = 1;
            }
            j += 1;
        }
        proof {
            assert(tricks.take(tricks.len() as int) =~= tricks);
        }

        if !self.exactly && big >= self.amount {
            return TaskStatus::Done;
        }
        let over = state.game_is_over();
        if self.exactly && over && big == self.amount && !gap {
            return TaskStatus::Done;
        }
        if self.exactly && (gap || big > self.amount) {
            return TaskStatus::Failed;
        }
        let left = state.n_tricks_left();
        if cur + left < self.amount {
            return TaskStatus::Failed;
        }
        TaskStatus::Unknown
    }
}

} // verus!
