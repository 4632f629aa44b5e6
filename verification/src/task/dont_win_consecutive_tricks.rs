//! Never win two tricks in consecutive rounds.

use vstd::prelude::*;

use crate::state::State;
use crate::task::TaskStatus;

verus! {

/// The player must never win two tricks with adjacent round indices.
#[derive(Debug)]
pub struct TaskWinNoConsecutiveTricks {
}

impl TaskWinNoConsecutiveTricks {
    pub open spec fn wf(&self) -> bool {
        true
    }

    pub fn new() -> (r: TaskWinNoConsecutiveTricks) {
        TaskWinNoConsecutiveTricks {  }
    }

    /// Failed as soon as two adjacent rounds are won; confirmed Done only at
    /// game end.
    pub open spec fn spec_eval(&self, s: State, ip: int) -> TaskStatus {
        let tricks = s.players@[ip].tricks@;
        if exists|j: int|
            0 <= j < tricks.len() - 1 && (#[trigger] tricks[j]).idx + 1 == tricks[j + 1].idx {
            TaskStatus::Failed
        } else if s.spec_game_is_over() {
            TaskStatus::Done
        } else {
            TaskStatus::Unknown
        }
    }

    pub fn eval(&self, state: &State, ip: usize) -> (r: TaskStatus)
        requires
            state.wf(),
            self.wf(),
            ip < state.players@.len(),
        ensures
            r == self.spec_eval(*state, ip as int),
    {
        proof {
            crate::state::lemma_wf_small_counts(*state);
        }
        let ghost tricks = state.players@[ip as int].tricks@;
        let p = state.get_player(ip);
        let m = p.tricks.len();
        if m > 0 {
            let mut j: usize = 0;
            while j < m - 1
                invariant
                    ip < state.players@.len(),
                    tricks == state.players@[ip as int].tricks@,
                    tricks == p.tricks@,
                    m == tricks.len(),
                    1 <= m <= usize::MAX,
                    j <= m - 1,
                    forall|j2: int|
                        0 <= j2 < tricks.len() ==> (#[trigger] tricks[j2]).idx < usize::MAX,
                    forall|j2: int|
                        0 <= j2 < j ==> (#[trigger] tricks[j2]).idx + 1 != tricks[j2 + 1].idx,
                decreases m - j,
            {
                if p.tricks[j].idx() + 1 == p.tricks[j + 1].idx() {
                    proof {
                        assert(0 <= (j as int) && (j as int) < tricks.len() - 1);
                        assert(tricks[j as int].idx + 1 == tricks[j as int + 1].idx);
                    }
                    return TaskStatus::Failed;
                }
                j += 1;
            }
        }
        if state.game_is_over() {
            TaskStatus::Done
        } else {
            TaskStatus::Unknown
        }
    }
}

} // verus!
