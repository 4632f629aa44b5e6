//! Win a given number of cards of given suits, at least or exactly.

use vstd::prelude::*;

use crate::card::{count_suit, Suit};
use crate::state::{in_play_seq, State};
use crate::task::TaskStatus;

verus! {

/// For each `(suit, amount)` constraint, the player must win at least (or
/// exactly) `amount` cards of that ordinary suit.
#[derive(Debug)]
pub struct TaskWinCardsAmountColor {
    pub constraints: Vec<(Suit, usize)>,
    pub exactly: bool,
}

impl TaskWinCardsAmountColor {
    /// The constraints speak of ordinary suits only.
    pub open spec fn wf(&self) -> bool {
        forall|k: int|
            0 <= k < self.constraints@.len() ==> (#[trigger] self.constraints@[k]).0
                != Suit::Trump
    }

    pub fn new(exactly: bool, constraints: Vec<(Suit, usize)>) -> (r: TaskWinCardsAmountColor)
        requires
            forall|k: int|
                0 <= k < constraints@.len() ==> (#[trigger] constraints@[k]).0 != Suit::Trump,
        ensures
            r.constraints@ == constraints@,
            r.exactly == exactly,
            r.wf(),
    {
        TaskWinCardsAmountColor { constraints, exactly }
    }

    pub fn new_exactly_1_pink_1_green() -> (r: TaskWinCardsAmountColor)
        ensures
            r.constraints@ == seq![(Suit::Pink, 1usize), (Suit::Green, 1usize)] && r.exactly,
            r.wf(),
    {
        let mut constraints: Vec<(Suit, usize)> = Vec::new();
        constraints.push((Suit::Pink, 1));
        constraints.push((Suit::Green, 1));
        proof {
            assert(constraints@ =~= seq![(Suit::Pink, 1usize), (Suit::Green, 1usize)]);
        }
        TaskWinCardsAmountColor { constraints, exactly: true }
    }

    pub fn new_at_least_7_yellow() -> (r: TaskWinCardsAmountColor)
        ensures
            r.constraints@ == seq![(Suit::Yellow, 7usize)] && !r.exactly,
            r.wf(),
    {
        let mut constraints: Vec<(Suit, usize)> = Vec::new();
        constraints.push((Suit::Yellow, 7));
        proof {
            assert(constraints@ =~= seq![(Suit::Yellow, 7usize)]);
        }
        TaskWinCardsAmountColor { constraints, exactly: false }
    }

    pub fn new_at_least_5_pink() -> (r: TaskWinCardsAmountColor)
        ensures
            r.constraints@ == seq![(Suit::Pink, 5usize)] && !r.exactly,
            r.wf(),
    {
        let mut constraints: Vec<(Suit, usize)> = Vec::new();
        constraints.push((Suit::Pink, 5));
        proof {
            assert(constraints@ =~= seq![(Suit::Pink, 5usize)]);
        }
        TaskWinCardsAmountColor { constraints, exactly: false }
    }

    pub fn new_exactly_1_pink() -> (r: TaskWinCardsAmountColor)
        ensures
            r.constraints@ == seq![(Suit::Pink, 1usize)] && r.exactly,
            r.wf(),
    {
        let mut constraints: Vec<(Suit, usize)> = Vec::new();
        constraints.push((Suit::Pink, 1));
        proof {
            assert(constraints@ =~= seq![(Suit::Pink, 1usize)]);
        }
        TaskWinCardsAmountColor { constraints, exactly: true }
    }

    pub fn new_exactly_2_green() -> (r: TaskWinCardsAmountColor)
        ensures
            r.constraints@ == seq![(Suit::Green, 2usize)] && r.exactly,
            r.wf(),
    {
        let mut constraints: Vec<(Suit, usize)> = Vec::new();
        constraints.push((Suit::Green, 2));
        proof {
            assert(constraints@ =~= seq![(Suit::Green, 2usize)]);
        }
        TaskWinCardsAmountColor { constraints, exactly: true }
    }

    pub fn new_exactly_2_blue() -> (r: TaskWinCardsAmountColor)
        ensures
            r.constraints@ == seq![(Suit::Blue, 2usize)] && r.exactly,
            r.wf(),
    {
        let mut constraints: Vec<(Suit, usize)> = Vec::new();
        constraints.push((Suit::Blue, 2));
        proof {
            assert(constraints@ =~= seq![(Suit::Blue, 2usize)]);
        }
        TaskWinCardsAmountColor { constraints, exactly: true }
    }

    pub open spec fn spec_failed_at(&self, s: State, ip: int, k: int) -> bool {
        let suit = self.constraints@[k].0;
        let a = self.constraints@[k].1 as int;
        let won = count_suit(crate::player::spec_won_cards(s.players@[ip].tricks@), suit) as int;
        let avail = count_suit(in_play_seq(s), suit) as int;
        (self.exactly && won > a) || won + avail < a
    }

    pub open spec fn spec_done_at(&self, s: State, ip: int, k: int) -> bool {
        let suit = self.constraints@[k].0;
        let a = self.constraints@[k].1 as int;
        let won = count_suit(crate::player::spec_won_cards(s.players@[ip].tricks@), suit) as int;
        let avail = count_suit(in_play_seq(s), suit) as int;
        if self.exactly {
            won == a && avail == 0
        } else {
            won >= a
        }
    }

    pub open spec fn spec_eval(&self, s: State, ip: int) -> TaskStatus {
        if exists|k: int| 0 <= k < self.constraints@.len() && self.spec_failed_at(s, ip, k) {
            TaskStatus::Failed
        } else if forall|k: int|
            0 <= k < self.constraints@.len() ==> self.spec_done_at(s, ip, k) {
            TaskStatus::Done
        } else {
            TaskStatus::Unknown
        }
    }

    pub fn eval(&self, state: &State, ip: usize) -> (r: TaskStatus)
        requires
            state.wf(),
            self.wf(),
            ip < state.players@.len(),
        ensures
            r == self.spec_eval(*state, ip as int),
    {
        let mut done = true;
        let mut k: usize = 0;
        while k < self.constraints.len()
            invariant
                state.wf(),
                ip < state.players@.len(),
                k <= self.constraints@.len(),
                forall|k2: int| 0 <= k2 < k ==> !self.spec_failed_at(*state, ip as int, k2),
                done == forall|k2: int|
                    0 <= k2 < k ==> self.spec_done_at(*state, ip as int, k2),
            decreases self.constraints@.len() - k,
        {
            proof {
                crate::state::lemma_wf_bounds(*state);
            }
            let (suit, a) = self.constraints[k];
            let won = state.get_player(ip).count_won_suit(suit);
            let avail = state.count_in_play_suit(suit);
            proof {
                crate::card::lemma_count_suit_le_len(
                    crate::player::spec_won_cards(state.players@[ip as int].tricks@),
                    suit,
                );
                crate::card::lemma_count_suit_le_len(in_play_seq(*state), suit);
                assert(in_play_seq(*state).len() <= crate::card::NB_CARDS);
            }
            if (self.exactly && won > a) || won + avail < a {
                proof {
                    assert(self.spec_failed_at(*state, ip as int, k as int));
                }
                return TaskStatus::Failed;
            }
            let done_k = if self.exactly {
                won == a && avail == 0
            } else {
                won >= a
            };
            proof {
                assert(done_k == self.spec_done_at(*state, ip as int, k as int));
            }
            if !done_k {
                done = false;
            }
            k += 1;
        }
        if done {
            TaskStatus::Done
        } else {
            TaskStatus::Unknown
        }
    }
}

} // verus!
