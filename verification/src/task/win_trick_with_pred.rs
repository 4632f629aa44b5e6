//! Win a trick satisfying a fixed predicate on its cards.

use vstd::prelude::*;

use crate::card::{cards_ok, count_suit, Card, Suit};
use crate::state::State;
use crate::task::TaskStatus;
use crate::trick::{has_trump, Trick};

verus! {

/// The closed set of trick predicates. Each variant carries its parameters
/// as plain fields and is evaluated by one match, so the vocabulary stays
/// checkable by the compiler.
#[derive(Debug)]
pub enum TrickPred {
    /// Every card in the trick has an even rank.
    Even,
    /// Every card in the trick has an odd rank.
    Odd,
    /// Every card outranks the given value.
    Greater(usize),
    /// Every card is below the given value, trump excluded.
    Lower(usize),
    /// No trump, and the ranks sum above the given value.
    TotalGreater(usize),
    /// No trump, and the ranks sum below the given value.
    TotalLower(usize),
    /// The ranks sum to one of the given values.
    TotalIn(Vec<usize>),
    /// The trick holds the same positive number of cards of two suits.
    SameNbOfColors(Suit, Suit),
    /// The trick holds the given card together with a trump card.
    WinCardWithTrump(Card),
    /// The trick is the round with the given index and holds the given card.
    WinCardLastTrick(Card, usize),
}

/// The sum of the ranks in a card sequence.
pub open spec fn spec_sum_vals(s: Seq<Card>) -> int
    decreases s.len(),
{
    if s.len() == 0 {
        0
    } else {
        spec_sum_vals(s.drop_last()) + s.last().spec_val()
    }
}

/// Whether a trick satisfies the predicate.
pub open spec fn spec_pred_holds(p: TrickPred, t: Trick) -> bool {
    let cs = t.cards@;
    match p {
        TrickPred::Even => forall|k: int|
            0 <= k < cs.len() ==> (#[trigger] cs[k]).spec_val() % 2 == 0,
        TrickPred::Odd => forall|k: int|
            0 <= k < cs.len() ==> (#[trigger] cs[k]).spec_val() % 2 == 1,
        TrickPred::Greater(v) => forall|k: int|
            0 <= k < cs.len() ==> (#[trigger] cs[k]).spec_val() > v,
        TrickPred::Lower(v) => forall|k: int|
            0 <= k < cs.len() ==> (#[trigger] cs[k]).spec_val() < v && !cs[k].spec_is_trump(),
        TrickPred::TotalGreater(v) => (forall|k: int|
            0 <= k < cs.len() ==> !(#[trigger] cs[k]).spec_is_trump()) && spec_sum_vals(cs)
            > v,
        TrickPred::TotalLower(v) => (forall|k: int|
            0 <= k < cs.len() ==> !(#[trigger] cs[k]).spec_is_trump()) && spec_sum_vals(cs)
            < v,
        TrickPred::TotalIn(vals) => exists|k: int|
            0 <= k < vals@.len() && #[trigger] vals@[k] == spec_sum_vals(cs),
        TrickPred::SameNbOfColors(s1, s2) => count_suit(cs, s1) > 0 && count_suit(cs, s1)
            == count_suit(cs, s2),
        TrickPred::WinCardWithTrump(card) => cs.contains(card) && has_trump(cs),
        TrickPred::WinCardLastTrick(card, last) => t.idx == last && cs.contains(card),
    }
}

/// The player must win some trick satisfying the predicate; confirmed
/// impossible only at game end.
#[derive(Debug)]
pub struct TaskWinTrickWithPred {
    pub pred: TrickPred,
}

impl TaskWinTrickWithPred {
    pub open spec fn wf(&self) -> bool {
        match self.pred {
            TrickPred::SameNbOfColors(s1, s2) => s1 != s2,
            _ => true,
        }
    }

    pub fn new_even() -> (r: TaskWinTrickWithPred)
        ensures
            r.pred == TrickPred::Even && r.wf(),
    {
        TaskWinTrickWithPred { pred: TrickPred::Even }
    }

    pub fn new_odd() -> (r: TaskWinTrickWithPred)
        ensures
            r.pred == TrickPred::Odd && r.wf(),
    {
        TaskWinTrickWithPred { pred: TrickPred::Odd }
    }

    pub fn new_greater(value: usize) -> (r: TaskWinTrickWithPred)
        ensures
            r.pred == TrickPred::Greater(value) && r.wf(),
    {
        TaskWinTrickWithPred { pred: TrickPred::Greater(value) }
    }

    pub fn new_lower(value: usize) -> (r: TaskWinTrickWithPred)
        ensures
            r.pred == TrickPred::Lower(value) && r.wf(),
    {
        TaskWinTrickWithPred { pred: TrickPred::Lower(value) }
    }

    pub fn new_total_greater(value: usize) -> (r: TaskWinTrickWithPred)
        ensures
            r.pred == TrickPred::TotalGreater(value) && r.wf(),
    {
        TaskWinTrickWithPred { pred: TrickPred::TotalGreater(value) }
    }

    pub fn new_total_lower(value: usize) -> (r: TaskWinTrickWithPred)
        ensures
            r.pred == TrickPred::TotalLower(value) && r.wf(),
    {
        TaskWinTrickWithPred { pred: TrickPred::TotalLower(value) }
    }

    pub fn new_total_in(values: Vec<usize>) -> (r: TaskWinTrickWithPred)
        ensures
            r.pred == TrickPred::TotalIn(values) && r.wf(),
    {
        TaskWinTrickWithPred { pred: TrickPred::TotalIn(values) }
    }

    pub fn new_same_nb_of_colors(color_1: Suit, color_2: Suit) -> (r: TaskWinTrickWithPred)
        requires
            color_1 != color_2,
        ensures
            r.pred == TrickPred::SameNbOfColors(color_1, color_2) && r.wf(),
    {
        TaskWinTrickWithPred { pred: TrickPred::SameNbOfColors(color_1, color_2) }
    }

    pub fn new_win_card_with_trump(card: Card) -> (r: TaskWinTrickWithPred)
        requires
            card.spec_is_valid(),
        ensures
            r.pred == TrickPred::WinCardWithTrump(card) && r.wf(),
    {
        TaskWinTrickWithPred { pred: TrickPred::WinCardWithTrump(card) }
    }

    pub fn new_win_card_last_trick(card: Card, n_players: usize) -> (r: TaskWinTrickWithPred)
        requires
            card.spec_is_valid(),
            3 <= n_players <= 5,
        ensures
            r.wf(),
            r.pred matches TrickPred::WinCardLastTrick(c, l) && c == card && l as int
                == crate::card::NB_CARDS as int / n_players as int - 1,
    {
        let last = crate::player::n_tricks_total(n_players) - 1;
        TaskWinTrickWithPred { pred: TrickPred::WinCardLastTrick(card, last) }
    }

    pub open spec fn spec_eval(&self, s: State, ip: int) -> TaskStatus {
        let tricks = s.players@[ip].tricks@;
        if exists|j: int| 0 <= j < tricks.len() && spec_pred_holds(self.pred, #[trigger] tricks[j]) {
            TaskStatus::Done
        } else if s.spec_game_is_over() {
            TaskStatus::Failed
        } else {
            TaskStatus::Unknown
        }
    }

    pub fn eval(&self, state: &State, ip: usize) -> (r: TaskStatus)
        requires
            state.wf(),
            self.wf(),
            ip < state.players@.len(),
        ensures
            r == self.spec_eval(*state, ip as int),
    {
        proof {
            crate::state::lemma_wf_bounds(*state);
        }
        let ghost tricks = state.players@[ip as int].tricks@;
        let p = state.get_player(ip);
        let mut j: usize = 0;
        while j < p.tricks.len()
            invariant
                state.wf(),
                ip < state.players@.len(),
                tricks == state.players@[ip as int].tricks@,
                tricks == p.tricks@,
                j <= tricks.len(),
                forall|j2: int|
                    0 <= j2 < j ==> !spec_pred_holds(self.pred, #[trigger] tricks[j2]),
            decreases tricks.len() - j,
        {
            proof {
                crate::state::lemma_wf_bounds(*state);
                assert(crate::state::player_in_state_wf(
                    state.players@[ip as int],
                    state.players@.len() as int,
                    state.current_trick.idx as int,
                ));
                let won = crate::player::spec_won_cards(p.tricks@);
                let tc = p.tricks@[j as int].cards@;
                assert forall|k: int| 0 <= k < tc.len() implies (
                #[trigger] tc[k]).spec_is_valid() by {
                    crate::player::lemma_won_cards_contains(p.tricks@, tc[k]);
                    assert(won.contains(tc[k]));
                    let ki = choose|ki: int| 0 <= ki < won.len() && won[ki] == tc[k];
                    assert(won[ki].spec_is_valid());
                }
            }
            if pred_holds(&self.pred, &p.tricks[j]) {
                return TaskStatus::Done;
            }
            j += 1;
        }
        if state.game_is_over() {
            TaskStatus::Failed
        } else {
            TaskStatus::Unknown
        }
    }
}

/// Evaluates one trick against the predicate.
fn pred_holds(p: &TrickPred, t: &Trick) -> (r: bool)
    requires
        t.cards@.len() <= 40,
        forall|k: int| 0 <= k < t.cards@.len() ==> (#[trigger] t.cards@[k]).spec_is_valid(),
    ensures
        r == spec_pred_holds(*p, *t),
{
    match p {
        TrickPred::Even => {
            let mut k: usize = 0;
            while k < t.cards.len()
                invariant
                    *p == TrickPred::Even,
                    k <= t.cards@.len(),
                    forall|k2: int|
                        0 <= k2 < k ==> (#[trigger] t.cards@[k2]).spec_val() % 2 == 0,
                decreases t.cards@.len() - k,
            {
                if t.cards[k].val() % 2 != 0 {
                    return false;
                }
                k += 1;
            }
            true
        },
        TrickPred::Odd => {
            let mut k: usize = 0;
            while k < t.cards.len()
                invariant
                    *p == TrickPred::Odd,
                    k <= t.cards@.len(),
                    forall|k2: int|
                        0 <= k2 < k ==> (#[trigger] t.cards@[k2]).spec_val() % 2 == 1,
                decreases t.cards@.len() - k,
            {
                if t.cards[k].val() % 2 != 1 {
                    return false;
                }
                k += 1;
            }
            true
        },
        TrickPred::Greater(v) => {
            let mut k: usize = 0;
            while k < t.cards.len()
                invariant
                    *p == TrickPred::Greater(*v),
                    k <= t.cards@.len(),
                    forall|k2: int| 0 <= k2 < k ==> (#[trigger] t.cards@[k2]).spec_val() > *v,
                decreases t.cards@.len() - k,
            {
                if t.cards[k].val() <= *v {
                    return false;
                }
                k += 1;
            }
            true
        },
        TrickPred::Lower(v) => {
            let mut k: usize = 0;
            while k < t.cards.len()
                invariant
                    *p == TrickPred::Lower(*v),
                    k <= t.cards@.len(),
                    forall|k2: int|
                        0 <= k2 < k ==> (#[trigger] t.cards@[k2]).spec_val() < *v
                            && !t.cards@[k2].spec_is_trump(),
                decreases t.cards@.len() - k,
            {
                if t.cards[k].val() >= *v || t.cards[k].is_trump() {
                    return false;
                }
                k += 1;
            }
            true
        },
        TrickPred::TotalGreater(v) => {
            match sum_if_no_trump(t) {
                Some(total) => total > *v,
                None => false,
            }
        },
        TrickPred::TotalLower(v) => {
            match sum_if_no_trump(t) {
                Some(total) => total < *v,
                None => false,
            }
        },
        TrickPred::TotalIn(vals) => {
            let total = sum_vals(t);
            let mut k: usize = 0;
            while k < vals.len()
                invariant
                    (*p) matches TrickPred::TotalIn(vv) && vv@ == vals@,
                    total as int == spec_sum_vals(t.cards@),
                    k <= vals@.len(),
                    forall|k2: int| 0 <= k2 < k ==> #[trigger] vals@[k2] != total,
                decreases vals@.len() - k,
            {
                if vals[k] == total {
                    proof {
                        assert(vals@[k as int] == total);
                    }
                    return true;
                }
                k += 1;
            }
            false
        },
        TrickPred::SameNbOfColors(s1, s2) => {
            let n1 = crate::card::count_suit_in(&t.cards, *s1);
            let n2 = crate::card::count_suit_in(&t.cards, *s2);
            n1 > 0 && n1 == n2
        },
        TrickPred::WinCardWithTrump(card) => {
            let has_card = crate::card::contains_card(&t.cards, card);
            if !has_card {
                return false;
            }
            let mut k: usize = 0;
            while k < t.cards.len()
                invariant
                    *p == TrickPred::WinCardWithTrump(*card),
                    t.cards@.contains(*card),
                    k <= t.cards@.len(),
                    forall|k2: int| 0 <= k2 < k ==> !(#[trigger] t.cards@[k2]).spec_is_trump(),
                decreases t.cards@.len() - k,
            {
                if t.cards[k].is_trump() {
                    proof {
                        assert(t.cards@[k as int].spec_is_trump());
                    }
                    return true;
                }
                k += 1;
            }
            false
        },
        TrickPred::WinCardLastTrick(card, last) => {
            t.idx() == *last && crate::card::contains_card(&t.cards, card)
        },
    }
}

/// The rank total of the trick, or nothing if it holds a trump card.
fn sum_if_no_trump(t: &Trick) -> (r: Option<usize>)
    requires
        t.cards@.len() <= 40,
        forall|k: int| 0 <= k < t.cards@.len() ==> (#[trigger] t.cards@[k]).spec_is_valid(),
    ensures
        match r {
            Some(total) => (forall|k: int|
                0 <= k < t.cards@.len() ==> !(#[trigger] t.cards@[k]).spec_is_trump())
                && total as int == spec_sum_vals(t.cards@),
            None => exists|k: int|
                0 <= k < t.cards@.len() && (#[trigger] t.cards@[k]).spec_is_trump(),
        },
{
    let mut total: usize = 0;
    let mut k: usize = 0;
    while k < t.cards.len()
        invariant
            t.cards@.len() <= 40,
            forall|k3: int| 0 <= k3 < t.cards@.len() ==> (#[trigger] t.cards@[k3]).spec_is_valid(),
            k <= t.cards@.len(),
            total as int == spec_sum_vals(t.cards@.take(k as int)),
            total <= k * 9,
            forall|k2: int| 0 <= k2 < k ==> !(#[trigger] t.cards@[k2]).spec_is_trump(),
        decreases t.cards@.len() - k,
    {
        if t.cards[k].is_trump() {
            proof {
                assert(t.cards@[k as int].spec_is_trump());
            }
            return None;
        }
        proof {
            assert(t.cards@.take(k as int + 1).drop_last() =~= t.cards@.take(k as int));
            assert(t.cards@.take(k as int + 1).last() == t.cards@[k as int]);
        }
        total += t.cards[k].val();
        k += 1;
    }
    proof {
        assert(t.cards@.take(t.cards@.len() as int) =~= t.cards@);
    }
    Some(total)
}

/// The rank total of the trick.
fn sum_vals(t: &Trick) -> (r: usize)
    requires
        t.cards@.len() <= 40,
        forall|k: int| 0 <= k < t.cards@.len() ==> (#[trigger] t.cards@[k]).spec_is_valid(),
    ensures
        r as int == spec_sum_vals(t.cards@),
{
    let mut total: usize = 0;
    let mut k: usize = 0;
    while k < t.cards.len()
        invariant
            t.cards@.len() <= 40,
            forall|k3: int| 0 <= k3 < t.cards@.len() ==> (#[trigger] t.cards@[k3]).spec_is_valid(),
            k <= t.cards@.len(),
            total as int == spec_sum_vals(t.cards@.take(k as int)),
            total <= k * 9,
        decreases t.cards@.len() - k,
    {
        proof {
            assert(t.cards@.take(k as int + 1).drop_last() =~= t.cards@.take(k as int));
            assert(t.cards@.take(k as int + 1).last() == t.cards@[k as int]);
        }
        total += t.cards[k].val();
        k += 1;
    }
    proof {
        assert(t.cards@.take(t.cards@.len() as int) =~= t.cards@);
    }
    total
}

} // verus!
