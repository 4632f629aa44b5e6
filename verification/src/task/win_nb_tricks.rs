//! Win exactly N tricks over the whole game.

use vstd::prelude::*;

use crate::state::State;
use crate::task::TaskStatus;

verus! {

/// The player must finish the game having won exactly `n` tricks.
#[derive(Debug)]
pub struct TaskWinNbTricks {
    pub n: usize,
}

impl TaskWinNbTricks {
    pub open spec fn wf(&self) -> bool {
        true
    }

    pub fn new(n: usize) -> (r: TaskWinNbTricks)
        ensures
            r.n == n,
    {
        TaskWinNbTricks { n }
    }

    /// At game end, Done exactly on the target count; before that, Failed as
    /// soon as too many tricks are won or too few rounds remain to reach the
    /// target.
    pub open spec fn spec_eval(&self, s: State, ip: int) -> TaskStatus {
        let cnt = s.players@[ip].tricks@.len() as int;
        let left = s.spec_n_tricks_left();
        if s.spec_game_is_over() {
            if cnt == self.n as int {
                TaskStatus::Done
            } else {
                TaskStatus::Failed
            }
        } else {
            if cnt > self.n as int || cnt + left < self.n as int {
                TaskStatus::Failed
            } else {
                TaskStatus::Unknown
            }
        }
    }

    pub fn eval(&self, state: &State, ip: usize) -> (r: TaskStatus)
        requires
            state.wf(),
            self.wf(),
            ip < state.players@.len(),
        ensures
            r == self.spec_eval(*state, ip as int),
    {
        proof {
            crate::state::lemma_wf_small_counts(*state);
        }
        let cnt = state.get_player(ip).n_tricks();
        if state.game_is_over() {
            if cnt == self.n {
                TaskStatus::Done
            } else {
                TaskStatus::Failed
            }
        } else {
            let left = state.n_tricks_left();
            if cnt > self.n || cnt + left < self.n {
                TaskStatus::Failed
            } else {
                TaskStatus::Unknown
            }
        }
    }
}

} // verus!
