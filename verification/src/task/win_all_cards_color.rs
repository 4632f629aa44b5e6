//! Win every card of some ordinary suit.

use vstd::prelude::*;

use crate::card::{count_suit, Suit, COLOR_MAX};
use crate::player::spec_won_cards;
use crate::state::State;
use crate::task::TaskStatus;

verus! {

/// The player must win all nine cards of at least one ordinary suit.
#[derive(Debug)]
pub struct TaskWinAllCardsColor {
}

impl TaskWinAllCardsColor {
    pub open spec fn wf(&self) -> bool {
        true
    }

    pub fn new() -> (r: TaskWinAllCardsColor) {
        TaskWinAllCardsColor {  }
    }

    /// A suit is still achievable while no other player has won any card of
    /// it.
    pub open spec fn spec_doable(s: State, ip: int, suit: Suit) -> bool {
        forall|j: int|
            0 <= j < s.players@.len() && j != ip ==> count_suit(
                spec_won_cards((#[trigger] s.players@[j]).tricks@),
                suit,
            ) == 0
    }

    /// Done once some ordinary suit is fully won by the assignee; Failed
    /// once every ordinary suit has a card won by someone else.
    pub open spec fn spec_eval(&self, s: State, ip: int) -> TaskStatus {
        let won = spec_won_cards(s.players@[ip].tricks@);
        if count_suit(won, Suit::Pink) == COLOR_MAX as int || count_suit(won, Suit::Green)
            == COLOR_MAX as int || count_suit(won, Suit::Blue) == COLOR_MAX as int || count_suit(
            won,
            Suit::Yellow,
        ) == COLOR_MAX as int {
            TaskStatus::Done
        } else if !Self::spec_doable(s, ip, Suit::Pink) && !Self::spec_doable(s, ip, Suit::Green)
            && !Self::spec_doable(s, ip, Suit::Blue) && !Self::spec_doable(s, ip, Suit::Yellow) {
            TaskStatus::Failed
        } else {
            TaskStatus::Unknown
        }
    }

    pub fn eval(&self, state: &State, ip: usize) -> (r: TaskStatus)
        requires
            state.wf(),
            self.wf(),
            ip < state.players@.len(),
        ensures
            r == self.spec_eval(*state, ip as int),
    {
        proof {
            crate::state::lemma_wf_bounds(*state);
        }
        let p = state.get_player(ip);
        if p.count_won_suit(Suit::Pink) == COLOR_MAX || p.count_won_suit(Suit::Green) == COLOR_MAX
            || p.count_won_suit(Suit::Blue) == COLOR_MAX || p.count_won_suit(Suit::Yellow)
            == COLOR_MAX {
            return TaskStatus::Done;
        }
        let pink = Self::doable(state, ip, Suit::Pink);
        let green = Self::doable(state, ip, Suit::Green);
        let blue = Self::doable(state, ip, Suit::Blue);
        let yellow = Self::doable(state, ip, Suit::Yellow);
        if !pink && !green && !blue && !yellow {
            TaskStatus::Failed
        } else {
            TaskStatus::Unknown
        }
    }

    fn doable(state: &State, ip: usize, suit: Suit) -> (r: bool)
        requires
            state.wf(),
            ip < state.players@.len(),
        ensures
            r == Self::spec_doable(*state, ip as int, suit),
    {
        proof {
            crate::state::lemma_wf_bounds(*state);
        }
        let mut j: usize = 0;
        while j < state.players.len()
            invariant
                state.wf(),
                ip < state.players@.len(),
                j <= state.players@.len(),
                forall|j2: int|
                    0 <= j2 < j && j2 != ip ==> count_suit(
                        spec_won_cards((#[trigger] state.players@[j2]).tricks@),
                        suit,
                    ) == 0,
            decreases state.players@.len() - j,
        {
            if j != ip {
                proof {
                    crate::state::lemma_wf_bounds(*state);
                }
                if state.get_player(j).count_won_suit(suit) > 0 {
                    return false;
                }
            }
            j += 1;
        }
        true
    }
}

} // verus!
