//! Win specific cards: the assignee must end up winning every card of a
//! given target set.

use vstd::prelude::*;

use crate::card::Card;
use crate::player::spec_won_cards;
use crate::state::State;
use crate::task::TaskStatus;

verus! {

/// The player must win every card in `cards`. Done once all of them sit in
/// the assignee's won tricks; Failed as soon as any other player wins one.
#[derive(Debug)]
pub struct TaskWinCards {
    pub cards: Vec<Card>,
}

impl TaskWinCards {
    pub open spec fn wf(&self) -> bool {
        true
    }

    pub fn new(cards: Vec<Card>) -> (r: TaskWinCards)
        ensures
            r.cards@ == cards@,
    {
        TaskWinCards { cards }
    }

    /// Done when the assignee has won the full target set; Failed when some
    /// other player has won a target card; Unknown otherwise.
    pub open spec fn spec_eval(&self, s: State, ip: int) -> TaskStatus {
        if forall|k: int|
            0 <= k < self.cards@.len() ==> spec_won_cards(s.players@[ip].tricks@).contains(
                #[trigger] self.cards@[k],
            ) {
            TaskStatus::Done
        } else if exists|j: int, k: int|
            #![trigger spec_won_cards(s.players@[j].tricks@).contains(self.cards@[k])]
            0 <= j < s.players@.len() && j != ip && 0 <= k < self.cards@.len()
                && spec_won_cards(s.players@[j].tricks@).contains(self.cards@[k]) {
            TaskStatus::Failed
        } else {
            TaskStatus::Unknown
        }
    }

    pub fn eval(&self, state: &State, ip: usize) -> (r: TaskStatus)
        requires
            state.wf(),
            self.wf(),
            ip < state.players@.len(),
        ensures
            r == self.spec_eval(*state, ip as int),
    {
        // Has the assignee won every target card?
        let mut all_won = true;
        let mut k: usize = 0;
        while k < self.cards.len()
            invariant
                ip < state.players@.len(),
                k <= self.cards@.len(),
                all_won == forall|l: int|
                    0 <= l < k ==> spec_won_cards(state.players@[ip as int].tricks@).contains(
                        #[trigger] self.cards@[l],
                    ),
            decreases self.cards@.len() - k,
        {
            if !state.get_player(ip).has_won_card(&self.cards[k]) {
                all_won = false;
            }
            k += 1;
        }
        if all_won {
            return TaskStatus::Done;
        }

        // Has any other player won a target card?
        let ghost not_done = !(forall|l: int|
            0 <= l < self.cards@.len() ==> spec_won_cards(state.players@[ip as int].tricks@)
                .contains(#[trigger] self.cards@[l]));
        let mut j: usize = 0;
        while j < state.players.len()
            invariant
                not_done == !(forall|l: int|
                    0 <= l < self.cards@.len() ==> spec_won_cards(
                        state.players@[ip as int].tricks@,
                    ).contains(#[trigger] self.cards@[l])),
                not_done,
                ip < state.players@.len(),
                j <= state.players@.len(),
                forall|j2: int, k2: int|
                    #![trigger spec_won_cards(state.players@[j2].tricks@).contains(self.cards@[k2])]
                    0 <= j2 < j && j2 != ip && 0 <= k2 < self.cards@.len()
                        ==> !spec_won_cards(state.players@[j2].tricks@).contains(self.cards@[k2]),
            decreases state.players@.len() - j,
        {
            if j != ip {
                let mut k: usize = 0;
                while k < self.cards.len()
                    invariant
                        not_done == !(forall|l: int|
                            0 <= l < self.cards@.len() ==> spec_won_cards(
                                state.players@[ip as int].tricks@,
                            ).contains(#[trigger] self.cards@[l])),
                        not_done,
                        ip < state.players@.len(),
                        j < state.players@.len(),
                        j != ip,
                        k <= self.cards@.len(),
                        forall|k2: int|
                            #![trigger self.cards@[k2]]
                            0 <= k2 < k ==> !spec_won_cards(
                                state.players@[j as int].tricks@,
                            ).contains(self.cards@[k2]),
                    decreases self.cards@.len() - k,
                {
                    if state.get_player(j).has_won_card(&self.cards[k]) {
                        return TaskStatus::Failed;
                    }
                    k += 1;
                }
            }
            j += 1;
        }
        TaskStatus::Unknown
    }
}


/// Task irrevocability for this family: once the evaluation reads Done or
/// Failed in a state, one more legal play leaves the verdict unchanged, so
/// by induction it never changes over any further legal play.
pub proof fn lemma_win_cards_irrevocable(
    t: TaskWinCards,
    pre: State,
    card: Card,
    post: State,
    ip: int,
)
    requires
        pre.wf(),
        pre.players@[pre.spec_current_player_idx()].hand.cards@.contains(card),
        crate::state::play_step(pre, card, post),
        0 <= ip < pre.players@.len(),
        t.spec_eval(pre, ip) != TaskStatus::Unknown,
    ensures
        t.spec_eval(post, ip) == t.spec_eval(pre, ip),
{
    if t.spec_eval(pre, ip) == TaskStatus::Done {
        crate::state::lemma_play_step_won_grows(pre, card, post, ip);
        assert forall|k: int|
            0 <= k < t.cards@.len() implies spec_won_cards(post.players@[ip].tricks@).contains(
            #[trigger] t.cards@[k],
        ) by {
            assert(spec_won_cards(pre.players@[ip].tricks@).contains(t.cards@[k]));
        }
    } else {
        // Failed: some other player holds a target card for good, and the
        // assignee can never gain that card.
        let (j0, k0) = choose|j0: int, k0: int|
            #![trigger spec_won_cards(pre.players@[j0].tricks@).contains(t.cards@[k0])]
            0 <= j0 < pre.players@.len() && j0 != ip && 0 <= k0 < t.cards@.len()
                && spec_won_cards(pre.players@[j0].tricks@).contains(t.cards@[k0]);
        crate::state::lemma_play_step_won_grows(pre, card, post, j0);
        assert(spec_won_cards(post.players@[j0].tricks@).contains(t.cards@[k0]));
        // the target stays out of the assignee's reach
        crate::state::lemma_wf_won_disjoint(pre, j0, ip, t.cards@[k0]);
        crate::state::lemma_won_not_in_play(pre, j0, t.cards@[k0]);
        crate::state::lemma_play_step_gains_from_play(pre, card, post, ip);
        assert(!spec_won_cards(post.players@[ip].tricks@).contains(t.cards@[k0]));
        assert(t.spec_eval(post, ip) == TaskStatus::Failed);
    }
}

} // verus!
