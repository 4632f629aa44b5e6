//! Win more cards of one suit than of another, or the same number.

use vstd::prelude::*;

use crate::card::{count_suit, Suit};
use crate::player::spec_won_cards;
use crate::state::{in_play_seq, State};
use crate::task::TaskStatus;

verus! {

/// The player must end with strictly more won cards of `more_of` than of
/// `fewer_of`; under `equal`, exactly the same number.
#[derive(Debug)]
pub struct TaskWinMoreCardsColor {
    pub more_of: Suit,
    pub fewer_of: Suit,
    pub equal: bool,
}

impl TaskWinMoreCardsColor {
    pub open spec fn wf(&self) -> bool {
        self.more_of != self.fewer_of
    }

    pub fn new(more_of: Suit, fewer_of: Suit, equal: bool) -> (r: TaskWinMoreCardsColor)
        requires
            more_of != fewer_of,
        ensures
            r.more_of == more_of && r.fewer_of == fewer_of && r.equal == equal,
            r.wf(),
    {
        TaskWinMoreCardsColor { more_of, fewer_of, equal }
    }

    pub fn new_same_amount_pink_and_yellow() -> (r: TaskWinMoreCardsColor)
        ensures
            r.more_of == Suit::Pink && r.fewer_of == Suit::Yellow && r.equal,
            r.wf(),
    {
        TaskWinMoreCardsColor::new(Suit::Pink, Suit::Yellow, true)
    }

    pub fn new_more_yellow_than_blue() -> (r: TaskWinMoreCardsColor)
        ensures
            r.more_of == Suit::Yellow && r.fewer_of == Suit::Blue && !r.equal,
            r.wf(),
    {
        TaskWinMoreCardsColor::new(Suit::Yellow, Suit::Blue, false)
    }

    pub fn new_more_pink_than_green() -> (r: TaskWinMoreCardsColor)
        ensures
            r.more_of == Suit::Pink && r.fewer_of == Suit::Green && !r.equal,
            r.wf(),
    {
        TaskWinMoreCardsColor::new(Suit::Pink, Suit::Green, false)
    }

    /// Done or Failed as soon as the comparison cannot change any more, even
    /// if one side gains every matching card still in play.
    pub open spec fn spec_eval(&self, s: State, ip: int) -> TaskStatus {
        let won = spec_won_cards(s.players@[ip].tricks@);
        let won_m = count_suit(won, self.more_of) as int;
        let won_f = count_suit(won, self.fewer_of) as int;
        let left_m = count_suit(in_play_seq(s), self.more_of) as int;
        let left_f = count_suit(in_play_seq(s), self.fewer_of) as int;
        if !self.equal {
            if won_m > won_f + left_f {
                TaskStatus::Done
            } else if won_m + left_m <= won_f {
                TaskStatus::Failed
            } else {
                TaskStatus::Unknown
            }
        } else {
            if won_m == won_f && left_m == 0 && left_f == 0 {
                TaskStatus::Done
            } else if won_m > won_f + left_f || won_f > won_m + left_m {
                TaskStatus::Failed
            } else {
                TaskStatus::Unknown
            }
        }
    }

    pub fn eval(&self, state: &State, ip: usize) -> (r: TaskStatus)
        requires
            state.wf(),
            self.wf(),
            ip < state.players@.len(),
        ensures
            r == self.spec_eval(*state, ip as int),
    {
        proof {
            crate::state::lemma_wf_bounds(*state);
            crate::card::lemma_count_suit_le_len(
                spec_won_cards(state.players@[ip as int].tricks@),
                self.more_of,
            );
            crate::card::lemma_count_suit_le_len(
                spec_won_cards(state.players@[ip as int].tricks@),
                self.fewer_of,
            );
            crate::card::lemma_count_suit_le_len(in_play_seq(*state), self.more_of);
            crate::card::lemma_count_suit_le_len(in_play_seq(*state), self.fewer_of);
        }
        let p = state.get_player(ip);
        let won_m = p.count_won_suit(self.more_of);
        let won_f = p.count_won_suit(self.fewer_of);
        let left_m = state.count_in_play_suit(self.more_of);
        let left_f = state.count_in_play_suit(self.fewer_of);
        if !self.equal {
            if won_m > won_f + left_f {
                TaskStatus::Done
            } else if won_m + left_m <= won_f {
                TaskStatus::Failed
            } else {
                TaskStatus::Unknown
            }
        } else {
            if won_m == won_f && left_m == 0 && left_f == 0 {
                TaskStatus::Done
            } else if won_m > won_f + left_f || won_f > won_m + left_m {
                TaskStatus::Failed
            } else {
                TaskStatus::Unknown
            }
        }
    }
}

} // verus!
