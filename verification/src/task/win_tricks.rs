//! Win the tricks with given round indices, optionally those and no others.

use vstd::prelude::*;

use crate::state::State;
use crate::task::TaskStatus;

verus! {

/// The player must win every trick whose index stands in `indexes`; under
/// `strict`, no other trick at all.
#[derive(Debug)]
pub struct TaskWinTricks {
    pub indexes: Vec<usize>,
    pub strict: bool,
}

/// Whether some won trick carries the given round index.
pub open spec fn spec_won_idx(tricks: Seq<crate::trick::Trick>, idx: usize) -> bool {
    exists|j: int| 0 <= j < tricks.len() && (#[trigger] tricks[j]).idx == idx
}

impl TaskWinTricks {
    /// At least one required index, each required index given once.
    pub open spec fn wf(&self) -> bool {
        &&& self.indexes@.len() > 0
        &&& forall|k: int, l: int|
            #![trigger self.indexes@[k], self.indexes@[l]]
            0 <= k < l < self.indexes@.len() ==> self.indexes@[k] != self.indexes@[l]
    }

    pub fn new(indexes: Vec<usize>, strict: bool) -> (r: TaskWinTricks)
        requires
            indexes@.len() > 0,
            forall|k: int, l: int|
                #![trigger indexes@[k], indexes@[l]]
                0 <= k < l < indexes@.len() ==> indexes@[k] != indexes@[l],
        ensures
            r.indexes@ == indexes@,
            r.strict == strict,
            r.wf(),
    {
        TaskWinTricks { indexes, strict }
    }

    /// The first `n` rounds are required.
    pub fn new_n_first_tricks(n: usize, strict: bool) -> (r: TaskWinTricks)
        requires
            n >= 1,
        ensures
            r.wf(),
            r.strict == strict,
            r.indexes@.len() == n,
            forall|k: int| 0 <= k < n ==> r.indexes@[k] == k,
    {
        let mut indexes: Vec<usize> = Vec::new();
        let mut i: usize = 0;
        while i < n
            invariant
                i <= n,
                indexes@.len() == i,
                forall|k: int| 0 <= k < i ==> indexes@[k] == k,
            decreases n - i,
        {
            indexes.push(i);
            i += 1;
        }
        TaskWinTricks { indexes, strict }
    }

    /// The last round of a full game is required.
    pub fn new_last_trick(n_players: usize, strict: bool) -> (r: TaskWinTricks)
        requires
            3 <= n_players <= 5,
        ensures
            r.wf(),
            r.strict == strict,
            r.indexes@.len() == 1,
            r.indexes@[0] as int == crate::card::NB_CARDS as int / n_players as int - 1,
    {
        let total = crate::player::n_tricks_total(n_players);
        let mut indexes: Vec<usize> = Vec::new();
        indexes.push(total - 1);
        TaskWinTricks { indexes, strict }
    }

    /// The first and the last round of a full game are required.
    pub fn new_first_and_last(n_players: usize) -> (r: TaskWinTricks)
        requires
            3 <= n_players <= 5,
        ensures
            r.wf(),
            !r.strict,
            r.indexes@.len() == 2,
            r.indexes@[0] == 0,
            r.indexes@[1] as int == crate::card::NB_CARDS as int / n_players as int - 1,
    {
        let total = crate::player::n_tricks_total(n_players);
        let mut indexes: Vec<usize> = Vec::new();
        indexes.push(0);
        indexes.push(total - 1);
        proof {
            vstd::arithmetic::div_mod::lemma_div_is_ordered_by_denominator(
                crate::card::NB_CARDS as int,
                n_players as int,
                5,
            );
            assert(total >= 8);
        }
        TaskWinTricks { indexes, strict: false }
    }

    /// Done once every required trick is won (under `strict`, confirmed at
    /// game end with no extra trick); Failed once a required round has
    /// passed unwon, or an extra trick is won under `strict`.
    pub open spec fn spec_eval(&self, s: State, ip: int) -> TaskStatus {
        let tricks = s.players@[ip].tricks@;
        let won_all = forall|k: int|
            0 <= k < self.indexes@.len() ==> spec_won_idx(tricks, #[trigger] self.indexes@[k]);
        let won_another = exists|j: int|
            0 <= j < tricks.len() && !self.indexes@.contains((#[trigger] tricks[j]).idx);
        if won_all && (!self.strict || (s.spec_game_is_over() && !won_another)) {
            TaskStatus::Done
        } else if (exists|k: int|
            0 <= k < self.indexes@.len() && !spec_won_idx(tricks, #[trigger] self.indexes@[k])
                && self.indexes@[k] < s.current_trick.idx) || (self.strict && won_another) {
            TaskStatus::Failed
        } else {
            TaskStatus::Unknown
        }
    }

    pub fn eval(&self, state: &State, ip: usize) -> (r: TaskStatus)
        requires
            state.wf(),
            self.wf(),
            ip < state.players@.len(),
        ensures
            r == self.spec_eval(*state, ip as int),
    {
        let ghost tricks = state.players@[ip as int].tricks@;
        let p = state.get_player(ip);
        let cur = state.get_current_trick().idx();

        // Which required indices are already won, and is one already missed?
        let mut won_all = true;
        let mut missed = false;
        let mut k: usize = 0;
        while k < self.indexes.len()
            invariant
                ip < state.players@.len(),
                tricks == state.players@[ip as int].tricks@,
                tricks == p.tricks@,
                cur == state.current_trick.idx,
                k <= self.indexes@.len(),
                won_all == forall|k2: int|
                    0 <= k2 < k ==> spec_won_idx(tricks, #[trigger] self.indexes@[k2]),
                missed == exists|k2: int|
                    0 <= k2 < k && !spec_won_idx(tricks, #[trigger] self.indexes@[k2])
                        && self.indexes@[k2] < cur,
            decreases self.indexes@.len() - k,
        {
            let target = self.indexes[k];
            let mut found = false;
            let mut j: usize = 0;
            while j < p.tricks.len()
                invariant
                    tricks == p.tricks@,
                    j <= tricks.len(),
                    target == self.indexes@[k as int],
                    found == exists|j2: int|
                        0 <= j2 < j && (#[trigger] tricks[j2]).idx == target,
                decreases tricks.len() - j,
            {
                if p.tricks[j].idx() == target {
                    found = true;
                }
                j += 1;
            }
            proof {
                assert(found == spec_won_idx(tricks, target));
            }
            if !found {
                won_all = false;
                if target < cur {
                    missed = true;
                }
            }
            k += 1;
        }

        // Is some won trick outside the required set?
        let mut won_another = false;
        let mut j: usize = 0;
        while j < p.tricks.len()
            invariant
                ip < state.players@.len(),
                tricks == state.players@[ip as int].tricks@,
                tricks == p.tricks@,
                j <= tricks.len(),
                won_another == exists|j2: int|
                    0 <= j2 < j && !self.indexes@.contains((#[trigger] tricks[j2]).idx),
            decreases tricks.len() - j,
        {
            let idx = p.tricks[j].idx();
            let mut in_set = false;
            let mut k: usize = 0;
            while k < self.indexes.len()
                invariant
                    tricks == p.tricks@,
                    j < tricks.len(),
                    idx == tricks[j as int].idx,
                    k <= self.indexes@.len(),
                    in_set == exists|k2: int|
                        0 <= k2 < k && #[trigger] self.indexes@[k2] == idx,
                decreases self.indexes@.len() - k,
            {
                if self.indexes[k] == idx {
                    in_set = true;
                }
                k += 1;
            }
            proof {
                assert(in_set == self.indexes@.contains(idx));
            }
            if !in_set {
                won_another = true;
            }
            j += 1;
        }

        if won_all && (!self.strict || (state.game_is_over() && !won_another)) {
            return TaskStatus::Done;
        }
        if missed || (self.strict && won_another) {
            return TaskStatus::Failed;
        }
        TaskStatus::Unknown
    }
}

} // verus!
