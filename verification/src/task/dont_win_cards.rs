//! Never win any card of a forbidden set.

use vstd::prelude::*;

use crate::card::{Card, Suit, COLOR_MAX, COLOR_MIN, TRUMP_MAX};
use crate::state::{in_play_seq, State};
use crate::task::TaskStatus;

verus! {

/// The player must never win a card of `cards`. Failed as soon as one is
/// won; Done once none of them can ever be won: each is either won by
/// another player or out of play entirely.
#[derive(Debug)]
pub struct TaskDontWinCards {
    pub cards: Vec<Card>,
}

impl TaskDontWinCards {
    pub open spec fn wf(&self) -> bool {
        true
    }

    pub fn new(cards: Vec<Card>) -> (r: TaskDontWinCards)
        ensures
            r.cards@ == cards@,
    {
        TaskDontWinCards { cards }
    }

    /// Forbid every card of the given suits.
    pub fn new_from_colors(colors: Vec<Suit>) -> (r: TaskDontWinCards)
        ensures
            forall|c: Card|
                #![trigger r.cards@.contains(c)]
                r.cards@.contains(c) <==> c.spec_is_valid() && colors@.contains(c.spec_suit()),
    {
        let mut cards: Vec<Card> = Vec::new();
        let mut i: usize = 0;
        while i < colors.len()
            invariant
                i <= colors@.len(),
                forall|c: Card|
                    #![trigger cards@.contains(c)]
                    cards@.contains(c) <==> c.spec_is_valid() && exists|k: int|
                        0 <= k < i && #[trigger] colors@[k] == c.spec_suit(),
            decreases colors@.len() - i,
        {
            let suit = colors[i];
            let top = if matches!(suit, Suit::Trump) {
                TRUMP_MAX
            } else {
                COLOR_MAX
            };
            let mut v: usize = COLOR_MIN;
            proof {
                assert forall|c: Card|
                    #![trigger cards@.contains(c)]
                    cards@.contains(c) <==> c.spec_is_valid() && ((exists|k: int|
                        0 <= k < i && #[trigger] colors@[k] == c.spec_suit()) || (c.spec_suit()
                        == suit && c.spec_val() < COLOR_MIN)) by {
                    if c.spec_is_valid() && c.spec_suit() == suit && c.spec_val() < COLOR_MIN {
                        assert(false);
                    }
                }
            }
            while v <= top
                invariant
                    i < colors@.len(),
                    suit == colors@[i as int],
                    top == if suit == Suit::Trump {
                        TRUMP_MAX
                    } else {
                        COLOR_MAX
                    },
                    COLOR_MIN <= v <= top + 1,
                    forall|c: Card|
                        #![trigger cards@.contains(c)]
                        cards@.contains(c) <==> c.spec_is_valid() && ((exists|k: int|
                            0 <= k < i && #[trigger] colors@[k] == c.spec_suit()) || (c.spec_suit()
                            == suit && c.spec_val() < v)),
                decreases top + 1 - v,
            {
                let card = match suit {
                    Suit::Pink => Card::Pink(v),
                    Suit::Green => Card::Green(v),
                    Suit::Blue => Card::Blue(v),
                    Suit::Yellow => Card::Yellow(v),
                    Suit::Trump => Card::Trump(v),
                };
                let ghost pre = cards@;
                cards.push(card);
                proof {
                    assert(card.spec_is_valid() && card.spec_suit() == suit && card.spec_val()
                        == v);
                    assert forall|c: Card|
                        #![trigger cards@.contains(c)]
                        cards@.contains(c) <==> c.spec_is_valid() && ((exists|k: int|
                            0 <= k < i && #[trigger] colors@[k] == c.spec_suit()) || (
                        c.spec_suit() == suit && c.spec_val() < v + 1)) by {
                        crate::card::lemma_contains_push(pre, c, card);
                        if c.spec_is_valid() && c.spec_suit() == suit && c.spec_val() < v + 1
                            && c.spec_val() == v {
                            crate::trick::lemma_card_eq(c, card);
                        }
                    }
                }
                v += 1;
            }
            proof {
                assert forall|c: Card|
                    #![trigger cards@.contains(c)]
                    cards@.contains(c) <==> c.spec_is_valid() && exists|k: int|
                        0 <= k < i + 1 && #[trigger] colors@[k] == c.spec_suit() by {
                    if c.spec_is_valid() && c.spec_suit() == suit {
                        assert(colors@[i as int] == c.spec_suit());
                    }
                    if cards@.contains(c) {
                        assert(c.spec_is_valid());
                    }
                }
            }
            i += 1;
        }
        proof {
            assert forall|c: Card|
                #![trigger cards@.contains(c)]
                cards@.contains(c) <==> c.spec_is_valid() && colors@.contains(c.spec_suit()) by {
                if c.spec_is_valid() && colors@.contains(c.spec_suit()) {
                    let k = choose|k: int| 0 <= k < colors@.len() && colors@[k] == c.spec_suit();
                    assert(0 <= k < colors@.len() && colors@[k] == c.spec_suit());
                }
            }
        }
        TaskDontWinCards { cards }
    }

    /// Forbid the cards of the given ranks in every ordinary suit.
    pub fn new_from_values(values: Vec<usize>) -> (r: TaskDontWinCards)
        requires
            forall|k: int|
                0 <= k < values@.len() ==> COLOR_MIN <= #[trigger] values@[k] <= COLOR_MAX,
        ensures
            forall|c: Card|
                #![trigger r.cards@.contains(c)]
                r.cards@.contains(c) <==> !c.spec_is_trump() && values@.contains(c.spec_val()),
    {
        let mut cards: Vec<Card> = Vec::new();
        let mut i: usize = 0;
        while i < values.len()
            invariant
                i <= values@.len(),
                forall|c: Card|
                    #![trigger cards@.contains(c)]
                    cards@.contains(c) <==> !c.spec_is_trump() && exists|k: int|
                        0 <= k < i && #[trigger] values@[k] == c.spec_val(),
            decreases values@.len() - i,
        {
            let v = values[i];
            let ghost pre = cards@;
            let ghost mid0 = pre.push(Card::Pink(v));
            let ghost mid1 = mid0.push(Card::Green(v));
            let ghost mid2 = mid1.push(Card::Blue(v));
            cards.push(Card::Pink(v));
            cards.push(Card::Green(v));
            cards.push(Card::Blue(v));
            cards.push(Card::Yellow(v));
            proof {
                assert(values@[i as int] == v);
                assert forall|c: Card|
                    #![trigger cards@.contains(c)]
                    cards@.contains(c) <==> !c.spec_is_trump() && exists|k: int|
                        0 <= k < i + 1 && #[trigger] values@[k] == c.spec_val() by {
                    crate::card::lemma_contains_push(mid2, c, Card::Yellow(v));
                    crate::card::lemma_contains_push(mid1, c, Card::Blue(v));
                    crate::card::lemma_contains_push(mid0, c, Card::Green(v));
                    crate::card::lemma_contains_push(pre, c, Card::Pink(v));
                    if !c.spec_is_trump() && c.spec_val() == v {
                        match c {
                            Card::Pink(x) => assert(c == Card::Pink(v)),
                            Card::Green(x) => assert(c == Card::Green(v)),
                            Card::Blue(x) => assert(c == Card::Blue(v)),
                            Card::Yellow(x) => assert(c == Card::Yellow(v)),
                            Card::Trump(x) => assert(false),
                        }
                    }
                }
            }
            i += 1;
        }
        proof {
            assert forall|c: Card|
                #![trigger cards@.contains(c)]
                cards@.contains(c) <==> !c.spec_is_trump() && values@.contains(c.spec_val()) by {
                if !c.spec_is_trump() && values@.contains(c.spec_val()) {
                    let k = choose|k: int| 0 <= k < values@.len() && values@[k] == c.spec_val();
                    assert(0 <= k < values@.len() && values@[k] == c.spec_val());
                }
            }
        }
        TaskDontWinCards { cards }
    }

    /// Failed once the assignee has won a forbidden card; Done once every
    /// forbidden card is out of play without the assignee having won it.
    pub open spec fn spec_eval(&self, s: State, ip: int) -> TaskStatus {
        if exists|k: int|
            0 <= k < self.cards@.len() && crate::player::spec_won_cards(
                s.players@[ip].tricks@,
            ).contains(#[trigger] self.cards@[k]) {
            TaskStatus::Failed
        } else if forall|k: int|
            0 <= k < self.cards@.len() ==> !in_play_seq(s).contains(#[trigger] self.cards@[k]) {
            TaskStatus::Done
        } else {
            TaskStatus::Unknown
        }
    }

    pub fn eval(&self, state: &State, ip: usize) -> (r: TaskStatus)
        requires
            state.wf(),
            self.wf(),
            ip < state.players@.len(),
        ensures
            r == self.spec_eval(*state, ip as int),
    {
        let mut k: usize = 0;
        while k < self.cards.len()
            invariant
                ip < state.players@.len(),
                k <= self.cards@.len(),
                forall|k2: int|
                    0 <= k2 < k ==> !crate::player::spec_won_cards(
                        state.players@[ip as int].tricks@,
                    ).contains(#[trigger] self.cards@[k2]),
            decreases self.cards@.len() - k,
        {
            if state.get_player(ip).has_won_card(&self.cards[k]) {
                return TaskStatus::Failed;
            }
            k += 1;
        }

        let mut k: usize = 0;
        while k < self.cards.len()
            invariant
                ip < state.players@.len(),
                forall|k2: int|
                    0 <= k2 < self.cards@.len() ==> !crate::player::spec_won_cards(
                        state.players@[ip as int].tricks@,
                    ).contains(#[trigger] self.cards@[k2]),
                k <= self.cards@.len(),
                forall|k2: int|
                    0 <= k2 < k ==> !in_play_seq(*state).contains(#[trigger] self.cards@[k2]),
            decreases self.cards@.len() - k,
        {
            if state.card_in_play(&self.cards[k]) {
                return TaskStatus::Unknown;
            }
            k += 1;
        }
        TaskStatus::Done
    }
}


/// Task irrevocability for this family: once the evaluation reads Done or
/// Failed in a state, one more legal play leaves the verdict unchanged, so
/// by induction it never changes over any further legal play.
pub proof fn lemma_dont_win_cards_irrevocable(
    t: TaskDontWinCards,
    pre: State,
    card: crate::card::Card,
    post: State,
    ip: int,
)
    requires
        pre.wf(),
        pre.players@[pre.spec_current_player_idx()].hand.cards@.contains(card),
        crate::state::play_step(pre, card, post),
        0 <= ip < pre.players@.len(),
        t.spec_eval(pre, ip) != TaskStatus::Unknown,
    ensures
        t.spec_eval(post, ip) == t.spec_eval(pre, ip),
{
    crate::state::lemma_play_step_won_grows(pre, card, post, ip);
    crate::state::lemma_play_step_gains_from_play(pre, card, post, ip);
    crate::state::lemma_play_step_in_play_shrinks(pre, card, post);
    if t.spec_eval(pre, ip) == TaskStatus::Failed {
        let k = choose|k: int|
            0 <= k < t.cards@.len() && crate::player::spec_won_cards(
                pre.players@[ip].tricks@,
            ).contains(#[trigger] t.cards@[k]);
        assert(crate::player::spec_won_cards(post.players@[ip].tricks@).contains(t.cards@[k]));
    } else {
        // Done: no forbidden card can be gained, and none returns to play.
        assert forall|k: int|
            0 <= k < t.cards@.len() implies !crate::player::spec_won_cards(
            post.players@[ip].tricks@,
        ).contains(#[trigger] t.cards@[k]) by {
            if crate::player::spec_won_cards(post.players@[ip].tricks@).contains(t.cards@[k]) {
                assert(crate::player::spec_won_cards(pre.players@[ip].tricks@).contains(
                    t.cards@[k],
                ) || in_play_seq(pre).contains(t.cards@[k]));
            }
        }
    }
}

} // verus!
