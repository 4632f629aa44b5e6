//! Win a given number of cards of given ranks, at least or exactly.

use vstd::prelude::*;

use crate::card::count_val;
use crate::state::{in_play_seq, State};
use crate::task::TaskStatus;

verus! {

/// For each `(rank, amount)` constraint, the player must win at least (or
/// exactly) `amount` non-trump cards of that rank.
#[derive(Debug)]
pub struct TaskWinCardsAmountNumber {
    pub constraints: Vec<(usize, usize)>,
    pub exactly: bool,
}

impl TaskWinCardsAmountNumber {
    pub open spec fn wf(&self) -> bool {
        true
    }

    pub fn new(exactly: bool, constraints: Vec<(usize, usize)>) -> (r: TaskWinCardsAmountNumber)
        ensures
            r.constraints@ == constraints@,
            r.exactly == exactly,
    {
        TaskWinCardsAmountNumber { constraints, exactly }
    }

    pub fn new_at_least_three_5s() -> (r: TaskWinCardsAmountNumber)
        ensures
            r.constraints@ == seq![(5usize, 3usize)] && !r.exactly,
    {
        let mut constraints: Vec<(usize, usize)> = Vec::new();
        constraints.push((5, 3));
        proof {
            assert(constraints@ =~= seq![(5usize, 3usize)]);
        }
        TaskWinCardsAmountNumber { constraints, exactly: false }
    }

    pub fn new_at_least_three_9s() -> (r: TaskWinCardsAmountNumber)
        ensures
            r.constraints@ == seq![(9usize, 3usize)] && !r.exactly,
    {
        let mut constraints: Vec<(usize, usize)> = Vec::new();
        constraints.push((9, 3));
        proof {
            assert(constraints@ =~= seq![(9usize, 3usize)]);
        }
        TaskWinCardsAmountNumber { constraints, exactly: false }
    }

    pub fn new_at_least_two_7s() -> (r: TaskWinCardsAmountNumber)
        ensures
            r.constraints@ == seq![(7usize, 2usize)] && !r.exactly,
    {
        let mut constraints: Vec<(usize, usize)> = Vec::new();
        constraints.push((7, 2));
        proof {
            assert(constraints@ =~= seq![(7usize, 2usize)]);
        }
        TaskWinCardsAmountNumber { constraints, exactly: false }
    }

    pub fn new_exactly_three_6s() -> (r: TaskWinCardsAmountNumber)
        ensures
            r.constraints@ == seq![(6usize, 3usize)] && r.exactly,
    {
        let mut constraints: Vec<(usize, usize)> = Vec::new();
        constraints.push((6, 3));
        proof {
            assert(constraints@ =~= seq![(6usize, 3usize)]);
        }
        TaskWinCardsAmountNumber { constraints, exactly: true }
    }

    pub fn new_exactly_two_9s() -> (r: TaskWinCardsAmountNumber)
        ensures
            r.constraints@ == seq![(9usize, 2usize)] && r.exactly,
    {
        let mut constraints: Vec<(usize, usize)> = Vec::new();
        constraints.push((9, 2));
        proof {
            assert(constraints@ =~= seq![(9usize, 2usize)]);
        }
        TaskWinCardsAmountNumber { constraints, exactly: true }
    }

    /// One constraint is impossible when the won count already overshoots an
    /// exact target, or the cards still in play cannot close the gap; it is
    /// settled when the target is reached (for an exact target, with none of
    /// that rank left in play).
    pub open spec fn spec_failed_at(&self, s: State, ip: int, k: int) -> bool {
        let v = self.constraints@[k].0;
        let a = self.constraints@[k].1 as int;
        let won = count_val(crate::player::spec_won_cards(s.players@[ip].tricks@), v) as int;
        let avail = count_val(in_play_seq(s), v) as int;
        (self.exactly && won > a) || won + avail < a
    }

    pub open spec fn spec_done_at(&self, s: State, ip: int, k: int) -> bool {
        let v = self.constraints@[k].0;
        let a = self.constraints@[k].1 as int;
        let won = count_val(crate::player::spec_won_cards(s.players@[ip].tricks@), v) as int;
        let avail = count_val(in_play_seq(s), v) as int;
        if self.exactly {
            won == a && avail == 0
        } else {
            won >= a
        }
    }

    pub open spec fn spec_eval(&self, s: State, ip: int) -> TaskStatus {
        if exists|k: int| 0 <= k < self.constraints@.len() && self.spec_failed_at(s, ip, k) {
            TaskStatus::Failed
        } else if forall|k: int|
            0 <= k < self.constraints@.len() ==> self.spec_done_at(s, ip, k) {
            TaskStatus::Done
        } else {
            TaskStatus::Unknown
        }
    }

    pub fn eval(&self, state: &State, ip: usize) -> (r: TaskStatus)
        requires
            state.wf(),
            self.wf(),
            ip < state.players@.len(),
        ensures
            r == self.spec_eval(*state, ip as int),
    {
        proof {
            crate::state::lemma_wf_bounds(*state);
        }
        let mut done = true;
        let mut k: usize = 0;
        while k < self.constraints.len()
            invariant
                state.wf(),
                ip < state.players@.len(),
                k <= self.constraints@.len(),
                forall|k2: int| 0 <= k2 < k ==> !self.spec_failed_at(*state, ip as int, k2),
                done == forall|k2: int|
                    0 <= k2 < k ==> self.spec_done_at(*state, ip as int, k2),
            decreases self.constraints@.len() - k,
        {
            proof {
                crate::state::lemma_wf_bounds(*state);
            }
            let (v, a) = self.constraints[k];
            let won = state.get_player(ip).count_won_val(v);
            let avail = state.count_in_play_val(v);
            proof {
                crate::card::lemma_count_val_le_len(
                    crate::player::spec_won_cards(state.players@[ip as int].tricks@),
                    v,
                );
                crate::card::lemma_count_val_le_len(in_play_seq(*state), v);
                assert(in_play_seq(*state).len() <= crate::card::NB_CARDS);
            }
            if (self.exactly && won > a) || won + avail < a {
                proof {
                    assert(self.spec_failed_at(*state, ip as int, k as int));
                }
                return TaskStatus::Failed;
            }
            let done_k = if self.exactly {
                won == a && avail == 0
            } else {
                won >= a
            };
            proof {
                assert(done_k == self.spec_done_at(*state, ip as int, k as int));
            }
            if !done_k {
                done = false;
            }
            k += 1;
        }
        if done {
            TaskStatus::Done
        } else {
            TaskStatus::Unknown
        }
    }
}

} // verus!
