//! Win more, fewer, or as many tricks as the captain.

use vstd::prelude::*;

use crate::state::{spec_first_captain, spec_holds_highest_trump, State};
use crate::task::TaskStatus;

verus! {

/// How the assignee's final trick count must compare to the captain's.
#[derive(Debug, Clone, Copy, PartialEq, Eq, Structural)]
pub enum CaptainComparison {
    Fewer,
    Same,
    More,
}

/// The player must end the game with fewer, the same number of, or more
/// tricks than the captain. Never assigned to the captain.
#[derive(Debug)]
pub struct TaskWinNbTricksComparedCaptain {
    pub comp: CaptainComparison,
}

impl TaskWinNbTricksComparedCaptain {
    pub open spec fn wf(&self) -> bool {
        true
    }

    pub fn new(comp: CaptainComparison) -> (r: TaskWinNbTricksComparedCaptain)
        ensures
            r.comp == comp,
    {
        TaskWinNbTricksComparedCaptain { comp }
    }

    /// At game end, compare directly; before then, Failed once the trailing
    /// side cannot catch up even by winning every remaining trick. While the
    /// highest trump sits in the trick in progress, or the comparison anchor
    /// is the assignee itself, nothing can be concluded.
    pub open spec fn spec_eval(&self, s: State, ip: int) -> TaskStatus {
        let n = s.players@.len() as int;
        if !(exists|i: int| 0 <= i < n && spec_holds_highest_trump(s, i)) {
            TaskStatus::Unknown
        } else {
            let cap = choose|i: int| spec_first_captain(s, i);
            if cap == ip {
                TaskStatus::Unknown
            } else {
                let nc = s.players@[cap].tricks@.len() as int;
                let np = s.players@[ip].tricks@.len() as int;
                let left = s.spec_n_tricks_left();
                if s.spec_game_is_over() {
                    let holds = match self.comp {
                        CaptainComparison::Fewer => np < nc,
                        CaptainComparison::Same => np == nc,
                        CaptainComparison::More => np > nc,
                    };
                    if holds {
                        TaskStatus::Done
                    } else {
                        TaskStatus::Failed
                    }
                } else {
                    let possible = match self.comp {
                        CaptainComparison::Fewer => nc + left > np,
                        CaptainComparison::More => np + left > nc,
                        CaptainComparison::Same => nc + left >= np && np + left >= nc,
                    };
                    if possible {
                        TaskStatus::Unknown
                    } else {
                        TaskStatus::Failed
                    }
                }
            }
        }
    }

    pub fn eval(&self, state: &State, ip: usize) -> (r: TaskStatus)
        requires
            state.wf(),
            self.wf(),
            ip < state.players@.len(),
        ensures
            r == self.spec_eval(*state, ip as int),
    {
        proof {
            crate::state::lemma_wf_small_counts(*state);
        }
        let cap = match state.current_captain() {
            Some(c) => c,
            None => {
                return TaskStatus::Unknown;
            },
        };
        proof {
            crate::state::lemma_first_captain_unique(*state, cap as int);
        }
        if cap == ip {
            return TaskStatus::Unknown;
        }
        let nc = state.get_player(cap).n_tricks();
        let np = state.get_player(ip).n_tricks();
        if state.game_is_over() {
            let holds = match self.comp {
                CaptainComparison::Fewer => np < nc,
                CaptainComparison::Same => np == nc,
                CaptainComparison::More => np > nc,
            };
            if holds {
                TaskStatus::Done
            } else {
                TaskStatus::Failed
            }
        } else {
            let left = state.n_tricks_left();
            let possible = match self.comp {
                CaptainComparison::Fewer => nc + left > np,
                CaptainComparison::More => np + left > nc,
                CaptainComparison::Same => nc + left >= np && np + left >= nc,
            };
            if possible {
                TaskStatus::Unknown
            } else {
                TaskStatus::Failed
            }
        }
    }
}

} // verus!
