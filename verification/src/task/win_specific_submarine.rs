//! Win one specific trump card (the "submarine") and no other trump card.

use vstd::prelude::*;

use crate::card::Card;
use crate::player::spec_won_cards;
use crate::state::State;
use crate::task::TaskStatus;

verus! {

/// The player must win the trump card of rank `value` and no other trump.
#[derive(Debug)]
pub struct TaskWinSpecificSubmarine {
    pub value: usize,
}

/// The largest trump rank in a card sequence, skipping rank `except`;
/// zero when no such trump is present (valid trump ranks start at one).
pub open spec fn spec_max_trump_except(s: Seq<Card>, except: usize) -> int
    decreases s.len(),
{
    if s.len() == 0 {
        0
    } else {
        let rest = spec_max_trump_except(s.drop_last(), except);
        if s.last().spec_is_trump() && s.last().spec_val() != except && s.last().spec_val() as int
            > rest {
            s.last().spec_val() as int
        } else {
            rest
        }
    }
}

/// The largest trump rank across the other players' hands; zero when none.
pub open spec fn spec_max_trump_others(ps: Seq<crate::player::Player>, ip: int) -> int
    decreases ps.len(),
{
    if ps.len() == 0 {
        0
    } else {
        let rest = spec_max_trump_others(ps.drop_last(), ip);
        if ps.len() - 1 != ip {
            let own = spec_max_trump_except(ps.last().hand.cards@, 0);
            if own > rest {
                own
            } else {
                rest
            }
        } else {
            rest
        }
    }
}

impl TaskWinSpecificSubmarine {
    pub open spec fn wf(&self) -> bool {
        1 <= self.value <= 4
    }

    pub fn new(value: usize) -> (r: TaskWinSpecificSubmarine)
        requires
            1 <= value <= 4,
        ensures
            r.value == value,
            r.wf(),
    {
        TaskWinSpecificSubmarine { value }
    }

    /// Failed as soon as another trump is won, the target is out of reach,
    /// or a larger own trump can no longer be unloaded; Done once the target
    /// is won and no own trump remains to be unloaded.
    pub open spec fn spec_eval(&self, s: State, ip: int) -> TaskStatus {
        let won = spec_won_cards(s.players@[ip].tricks@);
        let hand = s.players@[ip].hand.cards@;
        if exists|k: int|
            0 <= k < won.len() && (#[trigger] won[k]).spec_is_trump() && won[k].spec_val()
                != self.value {
            TaskStatus::Failed
        } else {
            let won_target = won.contains(Card::Trump(self.value));
            let target_in_hand = hand.contains(Card::Trump(self.value));
            let big_other = spec_max_trump_except(hand, self.value);
            if won_target && big_other == 0 {
                TaskStatus::Done
            } else if !won_target && !target_in_hand {
                TaskStatus::Failed
            } else {
                let big_left = spec_max_trump_others(s.players@, ip);
                if big_other > 0 && (big_left == 0 || big_other > big_left) {
                    TaskStatus::Failed
                } else {
                    TaskStatus::Unknown
                }
            }
        }
    }

    pub fn eval(&self, state: &State, ip: usize) -> (r: TaskStatus)
        requires
            state.wf(),
            self.wf(),
            ip < state.players@.len(),
        ensures
            r == self.spec_eval(*state, ip as int),
    {
        let ghost won = spec_won_cards(state.players@[ip as int].tricks@);
        let p = state.get_player(ip);

        // Any won trump other than the target fails the task.
        let mut j: usize = 0;
        while j < p.tricks.len()
            invariant
                ip < state.players@.len(),
                won == spec_won_cards(state.players@[ip as int].tricks@),
                won == spec_won_cards(p.tricks@),
                j <= p.tricks@.len(),
                forall|k: int|
                    0 <= k < spec_won_cards(p.tricks@.take(j as int)).len() ==> !((
                    #[trigger] spec_won_cards(p.tricks@.take(j as int))[k]).spec_is_trump()
                    && spec_won_cards(p.tricks@.take(j as int))[k].spec_val() != self.value),
            decreases p.tricks@.len() - j,
        {
            let t = &p.tricks[j];
            let mut k: usize = 0;
            while k < t.cards.len()
                invariant
                    ip < state.players@.len(),
                    won == spec_won_cards(state.players@[ip as int].tricks@),
                    won == spec_won_cards(p.tricks@),
                    j < p.tricks@.len(),
                    t.cards@ == p.tricks@[j as int].cards@,
                    k <= t.cards@.len(),
                    forall|k2: int|
                        0 <= k2 < k ==> !((#[trigger] t.cards@[k2]).spec_is_trump()
                            && t.cards@[k2].spec_val() != self.value),
                decreases t.cards@.len() - k,
            {
                if t.cards[k].is_trump() && t.cards[k].val() != self.value {
                    proof {
                        crate::player::lemma_won_cards_contains(p.tricks@, t.cards@[k as int]);
                        assert(p.tricks@[j as int].cards@.contains(t.cards@[k as int]));
                        assert(won.contains(t.cards@[k as int]));
                        let ki = choose|ki: int|
                            0 <= ki < won.len() && won[ki] == t.cards@[k as int];
                        assert(won[ki].spec_is_trump() && won[ki].spec_val() != self.value);
                    }
                    return TaskStatus::Failed;
                }
                k += 1;
            }
            proof {
                assert(p.tricks@.take(j as int + 1).drop_last() =~= p.tricks@.take(j as int));
                assert(p.tricks@.take(j as int + 1).last() == p.tricks@[j as int]);
                crate::player::lemma_won_cards_push(
                    p.tricks@.take(j as int),
                    p.tricks@[j as int],
                );
                let a = spec_won_cards(p.tricks@.take(j as int));
                let b = p.tricks@[j as int].cards@;
                assert forall|k2: int| 0 <= k2 < a.len() + b.len() implies !(((a + b)[
                k2]).spec_is_trump() && (a + b)[k2].spec_val() != self.value) by {
                    if k2 < a.len() {
                        assert((a + b)[k2] == a[k2]);
                    } else {
                        assert((a + b)[k2] == b[k2 - a.len()]);
                    }
                }
            }
            j += 1;
        }
        proof {
            assert(p.tricks@.take(p.tricks@.len() as int) =~= p.tricks@);
        }

        let won_target = p.has_won_card(&Card::Trump(self.value));
        let target_in_hand = p.get_hand().contains(&Card::Trump(self.value));
        let big_other = max_trump_except_in(&p.hand.cards, self.value);
        if won_target && big_other == 0 {
            return TaskStatus::Done;
        }
        if !won_target && !target_in_hand {
            return TaskStatus::Failed;
        }

        let ghost ps = state.players@;
        let mut big_left: usize = 0;
        let mut i: usize = 0;
        while i < state.players.len()
            invariant
                ps == state.players@,
                ip < ps.len(),
                i <= ps.len(),
                big_left as int == spec_max_trump_others(ps.take(i as int), ip as int),
            decreases ps.len() - i,
        {
            proof {
                assert(ps.take(i as int + 1).drop_last() =~= ps.take(i as int));
                assert(ps.take(i as int + 1).last() == ps[i as int]);
            }
            if i != ip {
                let own = max_trump_except_in(&state.players[i].hand.cards, 0);
                if own > big_left {
                    big_left = own;
                }
            }
            i += 1;
        }
        proof {
            assert(ps.take(ps.len() as int) =~= ps);
        }

        if big_other > 0 && (big_left == 0 || big_other > big_left) {
            TaskStatus::Failed
        } else {
            TaskStatus::Unknown
        }
    }
}

/// The largest trump rank in the vector, skipping rank `except`; zero when
/// none.
fn max_trump_except_in(cards: &Vec<Card>, except: usize) -> (r: usize)
    ensures
        r as int == spec_max_trump_except(cards@, except),
{
    let mut best: usize = 0;
    let mut k: usize = 0;
    while k < cards.len()
        invariant
            k <= cards@.len(),
            best as int == spec_max_trump_except(cards@.take(k as int), except),
        decreases cards@.len() - k,
    {
        proof {
            assert(cards@.take(k as int + 1).drop_last() =~= cards@.take(k as int));
            assert(cards@.take(k as int + 1).last() == cards@[k as int]);
        }
        if cards[k].is_trump() && cards[k].val() != except && cards[k].val() > best {
            best = cards[k].val();
        }
        k += 1;
    }
    proof {
        assert(cards@.take(cards@.len() as int) =~= cards@);
    }
    best
}

} // verus!
