//! Never win a trick with one of the forbidden round indices.

use vstd::prelude::*;

use crate::state::State;
use crate::task::TaskStatus;

verus! {

/// The player must not win any trick whose index stands in `indexes`.
#[derive(Debug)]
pub struct TaskDontWinTricks {
    pub indexes: Vec<usize>,
}

impl TaskDontWinTricks {
    /// At least one forbidden index must be given.
    pub open spec fn wf(&self) -> bool {
        self.indexes@.len() > 0
    }

    pub fn new(indexes: Vec<usize>) -> (r: TaskDontWinTricks)
        requires
            indexes@.len() > 0,
        ensures
            r.indexes@ == indexes@,
            r.wf(),
    {
        TaskDontWinTricks { indexes }
    }

    /// The first `n` rounds are forbidden.
    pub fn new_n_first_tricks(n: usize) -> (r: TaskDontWinTricks)
        requires
            n >= 1,
        ensures
            r.indexes@.len() == n,
            forall|k: int| 0 <= k < n ==> r.indexes@[k] == k,
            r.wf(),
    {
        let mut indexes: Vec<usize> = Vec::new();
        let mut i: usize = 0;
        while i < n
            invariant
                i <= n,
                indexes@.len() == i,
                forall|k: int| 0 <= k < i ==> indexes@[k] == k,
            decreases n - i,
        {
            indexes.push(i);
            i += 1;
        }
        TaskDontWinTricks { indexes }
    }

    /// The last round of a full game is forbidden.
    pub fn new_last_trick(n_players: usize) -> (r: TaskDontWinTricks)
        requires
            3 <= n_players <= 5,
        ensures
            r.wf(),
            r.indexes@.len() == 1,
            r.indexes@[0] as int == crate::card::NB_CARDS as int / n_players as int - 1,
    {
        let total = crate::player::n_tricks_total(n_players);
        let mut indexes: Vec<usize> = Vec::new();
        indexes.push(total - 1);
        TaskDontWinTricks { indexes }
    }

    /// Every round of a full game is forbidden: win no trick at all.
    pub fn new_any(n_players: usize) -> (r: TaskDontWinTricks)
        requires
            3 <= n_players <= 5,
        ensures
            r.wf(),
            r.indexes@.len() as int == crate::card::NB_CARDS as int / n_players as int,
            forall|k: int| 0 <= k < r.indexes@.len() ==> r.indexes@[k] == k,
    {
        let total = crate::player::n_tricks_total(n_players);
        TaskDontWinTricks::new_n_first_tricks(total)
    }

    /// Failed as soon as a forbidden trick is won; Done once the round
    /// index has passed every forbidden index.
    pub open spec fn spec_eval(&self, s: State, ip: int) -> TaskStatus {
        let tricks = s.players@[ip].tricks@;
        if exists|j: int, k: int|
            #![trigger tricks[j].idx, self.indexes@[k]]
            0 <= j < tricks.len() && 0 <= k < self.indexes@.len() && tricks[j].idx
                == self.indexes@[k] {
            TaskStatus::Failed
        } else if forall|k: int|
            0 <= k < self.indexes@.len() ==> (#[trigger] self.indexes@[k]) < s.current_trick.idx {
            TaskStatus::Done
        } else {
            TaskStatus::Unknown
        }
    }

    pub fn eval(&self, state: &State, ip: usize) -> (r: TaskStatus)
        requires
            state.wf(),
            self.wf(),
            ip < state.players@.len(),
        ensures
            r == self.spec_eval(*state, ip as int),
    {
        let ghost tricks = state.players@[ip as int].tricks@;
        let p = state.get_player(ip);
        let mut j: usize = 0;
        while j < p.tricks.len()
            invariant
                ip < state.players@.len(),
                tricks == state.players@[ip as int].tricks@,
                tricks == p.tricks@,
                j <= tricks.len(),
                forall|j2: int, k: int|
                    #![trigger tricks[j2].idx, self.indexes@[k]]
                    0 <= j2 < j && 0 <= k < self.indexes@.len() ==> tricks[j2].idx
                        != self.indexes@[k],
            decreases tricks.len() - j,
        {
            let mut k: usize = 0;
            while k < self.indexes.len()
                invariant
                    ip < state.players@.len(),
                    tricks == state.players@[ip as int].tricks@,
                    tricks == p.tricks@,
                    j < tricks.len(),
                    k <= self.indexes@.len(),
                    forall|k2: int|
                        0 <= k2 < k ==> tricks[j as int].idx != #[trigger] self.indexes@[k2],
                decreases self.indexes@.len() - k,
            {
                if p.tricks[j].idx() == self.indexes[k] {
                    proof {
                        assert(tricks[j as int].idx == self.indexes@[k as int]);
                    }
                    return TaskStatus::Failed;
                }
                k += 1;
            }
            j += 1;
        }
        let cur = state.get_current_trick().idx();
        let mut all_past = true;
        let mut k: usize = 0;
        while k < self.indexes.len()
            invariant
                ip < state.players@.len(),
                tricks == state.players@[ip as int].tricks@,
                forall|j2: int, k2: int|
                    #![trigger tricks[j2].idx, self.indexes@[k2]]
                    0 <= j2 < tricks.len() && 0 <= k2 < self.indexes@.len() ==> tricks[j2].idx
                        != self.indexes@[k2],
                cur == state.current_trick.idx,
                k <= self.indexes@.len(),
                all_past == forall|k2: int|
                    0 <= k2 < k ==> (#[trigger] self.indexes@[k2]) < cur,
            decreases self.indexes@.len() - k,
        {
            if self.indexes[k] >= cur {
                all_past = false;
            }
            k += 1;
        }
        if all_past {
            TaskStatus::Done
        } else {
            TaskStatus::Unknown
        }
    }
}

} // verus!
