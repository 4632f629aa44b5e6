//! Win a trick with one's own card of a given rank, optionally also
//! containing another given rank.

use vstd::prelude::*;

use crate::state::State;
use crate::task::TaskStatus;

verus! {

/// The player must win a trick by playing an ordinary card of rank
/// `win_with`; with `must_win`, that trick must also contain an ordinary
/// card of the co-requisite rank.
#[derive(Debug)]
pub struct TaskWinTrickWith {
    pub win_with: usize,
    pub must_win: Option<usize>,
}

/// The card played by seat `ip` into a trick led by `t.first_player`.
pub open spec fn spec_own_pos(ip: int, fp: int, n: int) -> int {
    (ip + n - fp) % n
}

/// Whether a card of the given rank, outside the trump suit, stands in the
/// sequence.
pub open spec fn spec_has_val(s: Seq<crate::card::Card>, v: usize) -> bool {
    exists|k: int|
        0 <= k < s.len() && (#[trigger] s[k]).spec_val() == v && !s[k].spec_is_trump()
}

impl TaskWinTrickWith {
    pub open spec fn wf(&self) -> bool {
        true
    }

    pub fn new(win_with: usize, must_win: Option<usize>) -> (r: TaskWinTrickWith)
        ensures
            r.win_with == win_with && r.must_win == must_win,
    {
        TaskWinTrickWith { win_with, must_win }
    }

    /// A won trick satisfies the goal when the assignee's own card in it is
    /// an ordinary card of the target rank, and the co-requisite rank, if
    /// any, also stands in the trick.
    pub open spec fn spec_goal_trick(&self, t: crate::trick::Trick, ip: int, n: int) -> bool {
        let pos = spec_own_pos(ip, t.first_player as int, n);
        &&& t.cards@[pos].spec_val() == self.win_with
        &&& !t.cards@[pos].spec_is_trump()
        &&& match self.must_win {
            None => true,
            Some(v) => spec_has_val(t.cards@, v),
        }
    }

    /// Done once a won trick satisfies the goal; Failed once the hand no
    /// longer holds a qualifying card, or no other player holds the
    /// co-requisite rank any more.
    pub open spec fn spec_eval(&self, s: State, ip: int) -> TaskStatus {
        let n = s.players@.len() as int;
        let tricks = s.players@[ip].tricks@;
        if exists|j: int|
            0 <= j < tricks.len() && self.spec_goal_trick(#[trigger] tricks[j], ip, n) {
            TaskStatus::Done
        } else if !spec_has_val(s.players@[ip].hand.cards@, self.win_with) {
            TaskStatus::Failed
        } else if match self.must_win {
            None => false,
            Some(v) => forall|j: int|
                0 <= j < n && j != ip ==> !spec_has_val(
                    (#[trigger] s.players@[j]).hand.cards@,
                    v,
                ),
        } {
            TaskStatus::Failed
        } else {
            TaskStatus::Unknown
        }
    }

    pub fn eval(&self, state: &State, ip: usize) -> (r: TaskStatus)
        requires
            state.wf(),
            self.wf(),
            ip < state.players@.len(),
        ensures
            r == self.spec_eval(*state, ip as int),
    {
        let ghost tricks = state.players@[ip as int].tricks@;
        let n = state.n_players();
        let p = state.get_player(ip);

        let mut j: usize = 0;
        while j < p.tricks.len()
            invariant
                state.wf(),
                1 <= n <= 5,
                ip < n,
                n == state.players@.len(),
                tricks == state.players@[ip as int].tricks@,
                tricks == p.tricks@,
                j <= tricks.len(),
                forall|j2: int|
                    0 <= j2 < j ==> !self.spec_goal_trick(#[trigger] tricks[j2], ip as int,
                        n as int),
            decreases tricks.len() - j,
        {
            let t = &p.tricks[j];
            proof {
                assert(crate::state::player_in_state_wf(
                    state.players@[ip as int],
                    n as int,
                    state.current_trick.idx as int,
                ));
                assert(t.cards@.len() == n);
                assert((t.first_player as int) < n);
            }
            let fp = t.get_first_player();
            let pos = if ip >= fp {
                ip - fp
            } else {
                ip + (n - fp)
            };
            proof {
                let ni = n as int;
                let x = ip as int + ni - fp as int;
                if ip >= fp {
                    vstd::arithmetic::div_mod::lemma_fundamental_div_mod_converse(
                        x, ni, 1, ip as int - fp as int);
                } else {
                    vstd::arithmetic::div_mod::lemma_fundamental_div_mod_converse(x, ni, 0, x);
                }
                assert(pos as int == spec_own_pos(ip as int, fp as int, ni));
            }
            let own = t.cards[pos];
            let mut goal = own.val() == self.win_with && !own.is_trump();
            if goal {
                match self.must_win {
                    Some(v) => {
                        if !has_val_in(&t.cards, v) {
                            goal = false;
                        }
                    },
                    None => {},
                }
            }
            if goal {
                proof {
                    assert(self.spec_goal_trick(tricks[j as int], ip as int, n as int));
                }
                return TaskStatus::Done;
            }
            proof {
                assert(!self.spec_goal_trick(tricks[j as int], ip as int, n as int));
            }
            j += 1;
        }

        if !has_val_in(&p.hand.cards, self.win_with) {
            return TaskStatus::Failed;
        }

        match self.must_win {
            Some(v) => {
                let mut j: usize = 0;
                while j < state.players.len()
                    invariant
                        ip < state.players@.len(),
                        n == state.players@.len(),
                        tricks == state.players@[ip as int].tricks@,
                        self.must_win == Some(v),
                        forall|j2: int|
                            0 <= j2 < tricks.len() ==> !self.spec_goal_trick(
                                #[trigger] tricks[j2],
                                ip as int,
                                n as int,
                            ),
                        spec_has_val(state.players@[ip as int].hand.cards@, self.win_with),
                        j <= state.players@.len(),
                        forall|j2: int|
                            0 <= j2 < j && j2 != ip ==> !spec_has_val(
                                (#[trigger] state.players@[j2]).hand.cards@,
                                v,
                            ),
                    decreases state.players@.len() - j,
                {
                    if j != ip {
                        if has_val_in(&state.players[j].hand.cards, v) {
                            return TaskStatus::Unknown;
                        }
                    }
                    j += 1;
                }
                TaskStatus::Failed
            },
            None => TaskStatus::Unknown,
        }
    }
}

/// True when the vector holds an ordinary card of the given rank.
fn has_val_in(cards: &Vec<crate::card::Card>, v: usize) -> (r: bool)
    ensures
        r == spec_has_val(cards@, v),
{
    let mut k: usize = 0;
    while k < cards.len()
        invariant
            k <= cards@.len(),
            forall|k2: int|
                0 <= k2 < k ==> !((#[trigger] cards@[k2]).spec_val() == v
                    && !cards@[k2].spec_is_trump()),
        decreases cards@.len() - k,
    {
        if cards[k].val() == v && !cards[k].is_trump() {
            proof {
                assert(cards@[k as int].spec_val() == v && !cards@[k as int].spec_is_trump());
            }
            return true;
        }
        k += 1;
    }
    false
}

} // verus!
