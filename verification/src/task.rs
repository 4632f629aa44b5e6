//! Tasks: the closed set of per-player goals, evaluated continuously during
//! search as a three-valued status that drives pruning.

use vstd::prelude::*;

use crate::card::Suit;
use crate::state::State;

pub mod dont_open_trick_with;
pub mod dont_win_cards;
pub mod dont_win_consecutive_tricks;
pub mod dont_win_tricks;
pub mod win_all_cards_color;
pub mod win_cards;
pub mod win_cards_amount_color;
pub mod win_cards_amount_number;
pub mod win_more_cards_color;
pub mod win_consecutive_tricks;
pub mod win_more_tricks;
pub mod win_nb_tricks;
pub mod win_nb_tricks_compared_captain;
pub mod win_specific_submarine;
pub mod win_trick_with;
pub mod win_trick_with_pred;
pub mod win_tricks;

verus! {

/// The three-valued status of a task or of the whole game: already
/// satisfied, already impossible, or still open.
#[derive(Debug, Clone, Copy, PartialEq, Eq, Structural)]
pub enum TaskStatus {
    Done,
    Unknown,
    Failed,
}

/// One constraint assigned to exactly one player. The vocabulary of
/// constraint families is closed, so a task is a tagged variant and a single
/// evaluation function dispatches on the tag.
#[derive(Debug)]
pub enum Task {
    WinCards(win_cards::TaskWinCards),
    WinNbTricks(win_nb_tricks::TaskWinNbTricks),
    DontWinTricks(dont_win_tricks::TaskDontWinTricks),
    WinNoConsecutiveTricks(dont_win_consecutive_tricks::TaskWinNoConsecutiveTricks),
    WinTricks(win_tricks::TaskWinTricks),
    WinConsecutiveTricks(win_consecutive_tricks::TaskWinConsecutiveTricks),
    WinMoreTricks(win_more_tricks::TaskWinMoreTricks),
    WinNbTricksComparedCaptain(win_nb_tricks_compared_captain::TaskWinNbTricksComparedCaptain),
    DontWinCards(dont_win_cards::TaskDontWinCards),
    DontOpenTrickWith(dont_open_trick_with::TaskDontOpenTrickWith),
    WinCardsAmountNumber(win_cards_amount_number::TaskWinCardsAmountNumber),
    WinCardsAmountColor(win_cards_amount_color::TaskWinCardsAmountColor),
    WinAllCardsColor(win_all_cards_color::TaskWinAllCardsColor),
    WinMoreCardsColor(win_more_cards_color::TaskWinMoreCardsColor),
    WinSpecificSubmarine(win_specific_submarine::TaskWinSpecificSubmarine),
    WinTrickWith(win_trick_with::TaskWinTrickWith),
    WinTrickWithPred(win_trick_with_pred::TaskWinTrickWithPred),
}

/// Two tasks agree in family and in every observable parameter.
#[verifier::opaque]
pub open spec fn task_views_eq(a: Task, b: Task) -> bool {
    match (a, b) {
        (Task::WinCards(x), Task::WinCards(y)) => y.cards@ == x.cards@,
        (Task::WinNbTricks(x), Task::WinNbTricks(y)) => y.n == x.n,
        (Task::DontWinTricks(x), Task::DontWinTricks(y)) => y.indexes@ == x.indexes@,
        (Task::WinNoConsecutiveTricks(x), Task::WinNoConsecutiveTricks(y)) => true,
        (Task::WinTricks(x), Task::WinTricks(y)) => y.indexes@ == x.indexes@ && y.strict
            == x.strict,
        (Task::WinConsecutiveTricks(x), Task::WinConsecutiveTricks(y)) => y.amount == x.amount
            && y.exactly == x.exactly,
        (Task::WinMoreTricks(x), Task::WinMoreTricks(y)) => y.everyone_else_together
            == x.everyone_else_together && y.fewer == x.fewer,
        (Task::WinNbTricksComparedCaptain(x), Task::WinNbTricksComparedCaptain(y)) => y.comp
            == x.comp,
        (Task::DontWinCards(x), Task::DontWinCards(y)) => y.cards@ == x.cards@,
        (Task::DontOpenTrickWith(x), Task::DontOpenTrickWith(y)) => y.cards@ == x.cards@,
        (Task::WinCardsAmountNumber(x), Task::WinCardsAmountNumber(y)) => y.constraints@
            == x.constraints@ && y.exactly == x.exactly,
        (Task::WinCardsAmountColor(x), Task::WinCardsAmountColor(y)) => y.constraints@
            == x.constraints@ && y.exactly == x.exactly,
        (Task::WinAllCardsColor(x), Task::WinAllCardsColor(y)) => true,
        (Task::WinMoreCardsColor(x), Task::WinMoreCardsColor(y)) => y.more_of == x.more_of
            && y.fewer_of == x.fewer_of && y.equal == x.equal,
        (Task::WinSpecificSubmarine(x), Task::WinSpecificSubmarine(y)) => y.value == x.value,
        (Task::WinTrickWith(x), Task::WinTrickWith(y)) => y.win_with == x.win_with && y.must_win
            == x.must_win,
        (Task::WinTrickWithPred(x), Task::WinTrickWithPred(y)) => match (&x.pred, &y.pred) {
            (win_trick_with_pred::TrickPred::TotalIn(a), win_trick_with_pred::TrickPred::TotalIn(
                b,
            )) => a@ == b@,
            _ => y.pred == x.pred,
        },
        _ => false,
    }
}

/// A task always agrees with itself.
pub proof fn lemma_task_views_eq_refl(a: Task)
    ensures
        task_views_eq(a, a),
{
    reveal(task_views_eq);
}

/// View agreement between tasks is transitive.
pub proof fn lemma_task_views_eq_trans(a: Task, b: Task, c: Task)
    requires
        task_views_eq(a, b),
        task_views_eq(b, c),
    ensures
        task_views_eq(a, c),
{
    reveal(task_views_eq);
}

/// Tasks that agree in their views are equally well formed.
pub proof fn lemma_task_views_eq_wf(a: Task, b: Task)
    requires
        task_views_eq(a, b),
    ensures
        a.wf() == b.wf(),
{
    reveal(task_views_eq);
    reveal(Task::wf);
}

fn clone_suit_constraints(v: &Vec<(Suit, usize)>) -> (r: Vec<(Suit, usize)>)
    ensures
        r@ == v@,
{
    let mut r: Vec<(Suit, usize)> = Vec::new();
    let mut i: usize = 0;
    while i < v.len()
        invariant
            i <= v@.len(),
            r@ == v@.take(i as int),
        decreases v@.len() - i,
    {
        r.push(v[i]);
        proof {
            assert(r@ =~= v@.take(i as int + 1));
        }
        i += 1;
    }
    proof {
        assert(v@.take(v@.len() as int) =~= v@);
    }
    r
}

fn clone_num_constraints(v: &Vec<(usize, usize)>) -> (r: Vec<(usize, usize)>)
    ensures
        r@ == v@,
{
    let mut r: Vec<(usize, usize)> = Vec::new();
    let mut i: usize = 0;
    while i < v.len()
        invariant
            i <= v@.len(),
            r@ == v@.take(i as int),
        decreases v@.len() - i,
    {
        r.push(v[i]);
        proof {
            assert(r@ =~= v@.take(i as int + 1));
        }
        i += 1;
    }
    proof {
        assert(v@.take(v@.len() as int) =~= v@);
    }
    r
}

impl Clone for Task {
    fn clone(&self) -> (r: Task)
        ensures
            task_views_eq(*self, r),
            r.wf() == self.wf(),
    {
        proof {
            reveal(task_views_eq);
            reveal(Task::wf);
        }
        let r = match self {
            Task::WinCards(t) => Task::WinCards(
                win_cards::TaskWinCards { cards: t.cards.clone() },
            ),
            Task::WinNbTricks(t) => Task::WinNbTricks(win_nb_tricks::TaskWinNbTricks { n: t.n }),
            Task::DontWinTricks(t) => Task::DontWinTricks(
                dont_win_tricks::TaskDontWinTricks { indexes: t.indexes.clone() },
            ),
            Task::WinNoConsecutiveTricks(t) => Task::WinNoConsecutiveTricks(
                dont_win_consecutive_tricks::TaskWinNoConsecutiveTricks {  },
            ),
            Task::WinTricks(t) => Task::WinTricks(
                win_tricks::TaskWinTricks { indexes: t.indexes.clone(), strict: t.strict },
            ),
            Task::WinConsecutiveTricks(t) => Task::WinConsecutiveTricks(
                win_consecutive_tricks::TaskWinConsecutiveTricks {
                    amount: t.amount,
                    exactly: t.exactly,
                },
            ),
            Task::WinMoreTricks(t) => Task::WinMoreTricks(
                win_more_tricks::TaskWinMoreTricks {
                    everyone_else_together: t.everyone_else_together,
                    fewer: t.fewer,
                },
            ),
            Task::WinNbTricksComparedCaptain(t) => Task::WinNbTricksComparedCaptain(
                win_nb_tricks_compared_captain::TaskWinNbTricksComparedCaptain { comp: t.comp },
            ),
            Task::DontWinCards(t) => Task::DontWinCards(
                dont_win_cards::TaskDontWinCards { cards: t.cards.clone() },
            ),
            Task::DontOpenTrickWith(t) => Task::DontOpenTrickWith(
                dont_open_trick_with::TaskDontOpenTrickWith { cards: t.cards.clone() },
            ),
            Task::WinCardsAmountNumber(t) => Task::WinCardsAmountNumber(
                win_cards_amount_number::TaskWinCardsAmountNumber {
                    constraints: clone_num_constraints(&t.constraints),
                    exactly: t.exactly,
                },
            ),
            Task::WinCardsAmountColor(t) => Task::WinCardsAmountColor(
                win_cards_amount_color::TaskWinCardsAmountColor {
                    constraints: clone_suit_constraints(&t.constraints),
                    exactly: t.exactly,
                },
            ),
            Task::WinAllCardsColor(t) => Task::WinAllCardsColor(
                win_all_cards_color::TaskWinAllCardsColor {  },
            ),
            Task::WinMoreCardsColor(t) => Task::WinMoreCardsColor(
                win_more_cards_color::TaskWinMoreCardsColor {
                    more_of: t.more_of,
                    fewer_of: t.fewer_of,
                    equal: t.equal,
                },
            ),
            Task::WinSpecificSubmarine(t) => Task::WinSpecificSubmarine(
                win_specific_submarine::TaskWinSpecificSubmarine { value: t.value },
            ),
            Task::WinTrickWith(t) => Task::WinTrickWith(
                win_trick_with::TaskWinTrickWith { win_with: t.win_with, must_win: t.must_win },
            ),
            Task::WinTrickWithPred(t) => Task::WinTrickWithPred(
                win_trick_with_pred::TaskWinTrickWithPred {
                    pred: match &t.pred {
                        win_trick_with_pred::TrickPred::TotalIn(vals) => {
                            let mut copy: Vec<usize> = Vec::new();
                            let mut i: usize = 0;
                            while i < vals.len()
                                invariant
                                    i <= vals@.len(),
                                    copy@ == vals@.take(i as int),
                                decreases vals@.len() - i,
                            {
                                copy.push(vals[i]);
                                proof {
                                    assert(copy@ =~= vals@.take(i as int + 1));
                                }
                                i += 1;
                            }
                            proof {
                                assert(vals@.take(vals@.len() as int) =~= vals@);
                            }
                            win_trick_with_pred::TrickPred::TotalIn(copy)
                        },
                        win_trick_with_pred::TrickPred::Even => win_trick_with_pred::TrickPred::Even,
                        win_trick_with_pred::TrickPred::Odd => win_trick_with_pred::TrickPred::Odd,
                        win_trick_with_pred::TrickPred::Greater(v) => win_trick_with_pred::TrickPred::Greater(*v),
                        win_trick_with_pred::TrickPred::Lower(v) => win_trick_with_pred::TrickPred::Lower(*v),
                        win_trick_with_pred::TrickPred::TotalGreater(v) => win_trick_with_pred::TrickPred::TotalGreater(*v),
                        win_trick_with_pred::TrickPred::TotalLower(v) => win_trick_with_pred::TrickPred::TotalLower(*v),
                        win_trick_with_pred::TrickPred::SameNbOfColors(a, b) => win_trick_with_pred::TrickPred::SameNbOfColors(*a, *b),
                        win_trick_with_pred::TrickPred::WinCardWithTrump(c) => win_trick_with_pred::TrickPred::WinCardWithTrump(*c),
                        win_trick_with_pred::TrickPred::WinCardLastTrick(c, l) => win_trick_with_pred::TrickPred::WinCardLastTrick(*c, *l),
                    },
                },
            ),
        };
        proof {
            lemma_task_views_eq_wf(*self, r);
        }
        r
    }
}

impl Task {
    /// The structural conditions a task's parameters must satisfy.
    #[verifier::opaque]
    pub open spec fn wf(&self) -> bool {
        match self {
            Task::WinCards(t) => t.wf(),
            Task::WinNbTricks(t) => t.wf(),
            Task::DontWinTricks(t) => t.wf(),
            Task::WinNoConsecutiveTricks(t) => t.wf(),
            Task::WinTricks(t) => t.wf(),
            Task::WinConsecutiveTricks(t) => t.wf(),
            Task::WinMoreTricks(t) => t.wf(),
            Task::WinNbTricksComparedCaptain(t) => t.wf(),
            Task::DontWinCards(t) => t.wf(),
            Task::DontOpenTrickWith(t) => t.wf(),
            Task::WinCardsAmountNumber(t) => t.wf(),
            Task::WinCardsAmountColor(t) => t.wf(),
            Task::WinAllCardsColor(t) => t.wf(),
            Task::WinMoreCardsColor(t) => t.wf(),
            Task::WinSpecificSubmarine(t) => t.wf(),
            Task::WinTrickWith(t) => t.wf(),
            Task::WinTrickWithPred(t) => t.wf(),
        }
    }

    /// The status of the task for player `ip` in the given state.
    #[verifier::opaque]
    pub open spec fn spec_eval(&self, s: State, ip: int) -> TaskStatus {
        match self {
            Task::WinCards(t) => t.spec_eval(s, ip),
            Task::WinNbTricks(t) => t.spec_eval(s, ip),
            Task::DontWinTricks(t) => t.spec_eval(s, ip),
            Task::WinNoConsecutiveTricks(t) => t.spec_eval(s, ip),
            Task::WinTricks(t) => t.spec_eval(s, ip),
            Task::WinConsecutiveTricks(t) => t.spec_eval(s, ip),
            Task::WinMoreTricks(t) => t.spec_eval(s, ip),
            Task::WinNbTricksComparedCaptain(t) => t.spec_eval(s, ip),
            Task::DontWinCards(t) => t.spec_eval(s, ip),
            Task::DontOpenTrickWith(t) => t.spec_eval(s, ip),
            Task::WinCardsAmountNumber(t) => t.spec_eval(s, ip),
            Task::WinCardsAmountColor(t) => t.spec_eval(s, ip),
            Task::WinAllCardsColor(t) => t.spec_eval(s, ip),
            Task::WinMoreCardsColor(t) => t.spec_eval(s, ip),
            Task::WinSpecificSubmarine(t) => t.spec_eval(s, ip),
            Task::WinTrickWith(t) => t.spec_eval(s, ip),
            Task::WinTrickWithPred(t) => t.spec_eval(s, ip),
        }
    }

    /// Evaluates the task for player `ip`: a pure read of the state.
    pub fn eval(&self, state: &State, ip: usize) -> (r: TaskStatus)
        requires
            state.wf(),
            self.wf(),
            ip < state.players@.len(),
        ensures
            r == self.spec_eval(*state, ip as int),
    {
        proof {
            reveal(Task::wf);
            reveal(Task::spec_eval);
        }
        match self {
            Task::WinCards(t) => t.eval(state, ip),
            Task::WinNbTricks(t) => t.eval(state, ip),
            Task::DontWinTricks(t) => t.eval(state, ip),
            Task::WinNoConsecutiveTricks(t) => t.eval(state, ip),
            Task::WinTricks(t) => t.eval(state, ip),
            Task::WinConsecutiveTricks(t) => t.eval(state, ip),
            Task::WinMoreTricks(t) => t.eval(state, ip),
            Task::WinNbTricksComparedCaptain(t) => t.eval(state, ip),
            Task::DontWinCards(t) => t.eval(state, ip),
            Task::DontOpenTrickWith(t) => t.eval(state, ip),
            Task::WinCardsAmountNumber(t) => t.eval(state, ip),
            Task::WinCardsAmountColor(t) => t.eval(state, ip),
            Task::WinAllCardsColor(t) => t.eval(state, ip),
            Task::WinMoreCardsColor(t) => t.eval(state, ip),
            Task::WinSpecificSubmarine(t) => t.eval(state, ip),
            Task::WinTrickWith(t) => t.eval(state, ip),
            Task::WinTrickWithPred(t) => t.eval(state, ip),
        }
    }
}

} // verus!
