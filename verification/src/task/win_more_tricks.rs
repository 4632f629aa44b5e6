//! Win more (or fewer) tricks than the other players.

use vstd::prelude::*;

use crate::player::Player;
use crate::state::State;
use crate::task::TaskStatus;

verus! {

/// The player must end with more tricks than every other player taken one
/// by one, than everyone else combined, or fewer than every other player.
#[derive(Debug)]
pub struct TaskWinMoreTricks {
    pub everyone_else_together: bool,
    pub fewer: bool,
}

/// Total number of tricks won by a list of players.
pub open spec fn spec_total_tricks(ps: Seq<Player>) -> int
    decreases ps.len(),
{
    if ps.len() == 0 {
        0
    } else {
        spec_total_tricks(ps.drop_last()) + ps.last().tricks@.len()
    }
}

impl TaskWinMoreTricks {
    /// "Fewer than everyone else combined" does not exist in the game.
    pub open spec fn wf(&self) -> bool {
        !(self.everyone_else_together && self.fewer)
    }

    pub fn new(everyone_else_together: bool, fewer: bool) -> (r: TaskWinMoreTricks)
        requires
            !(everyone_else_together && fewer),
        ensures
            r.everyone_else_together == everyone_else_together,
            r.fewer == fewer,
            r.wf(),
    {
        TaskWinMoreTricks { everyone_else_together, fewer }
    }

    /// Done or Failed as soon as the lead (or the deficit) cannot be undone
    /// even if one side wins every remaining trick.
    pub open spec fn spec_eval(&self, s: State, ip: int) -> TaskStatus {
        let n = s.players@.len() as int;
        let left = s.spec_n_tricks_left();
        let np = s.players@[ip].tricks@.len() as int;
        if self.everyone_else_together {
            let others = spec_total_tricks(s.players@) - np;
            if np > others + left {
                TaskStatus::Done
            } else if np + left <= others {
                TaskStatus::Failed
            } else {
                TaskStatus::Unknown
            }
        } else {
            let failed = exists|j: int|
                0 <= j < n && j != ip && {
                    let nj = (#[trigger] s.players@[j]).tricks@.len() as int;
                    if self.fewer {
                        np >= nj + left
                    } else {
                        np + left <= nj
                    }
                };
            let done = forall|j: int|
                0 <= j < n && j != ip ==> {
                    let nj = (#[trigger] s.players@[j]).tricks@.len() as int;
                    if self.fewer {
                        np + left < nj
                    } else {
                        np > nj + left
                    }
                };
            if failed {
                TaskStatus::Failed
            } else if done {
                TaskStatus::Done
            } else {
                TaskStatus::Unknown
            }
        }
    }

    #[verifier::rlimit(100)]
    pub fn eval(&self, state: &State, ip: usize) -> (r: TaskStatus)
        requires
            state.wf(),
            self.wf(),
            ip < state.players@.len(),
        ensures
            r == self.spec_eval(*state, ip as int),
    {
        proof {
            crate::state::lemma_wf_small_counts(*state);
        }
        let ghost ps = state.players@;
        let left = state.n_tricks_left();
        let np = state.get_player(ip).n_tricks();

        if self.everyone_else_together {
            let mut total: usize = 0;
            let mut i: usize = 0;
            while i < state.players.len()
                invariant
                    ps == state.players@,
                    ps.len() <= 5,
                    i <= ps.len(),
                    total == spec_total_tricks(ps.take(i as int)),
                    total <= i * crate::card::NB_CARDS,
                    forall|j: int|
                        0 <= j < ps.len() ==> (#[trigger] ps[j]).tricks@.len()
                            <= crate::card::NB_CARDS,
                decreases ps.len() - i,
            {
                proof {
                    assert(ps.take(i as int + 1).drop_last() =~= ps.take(i as int));
                    assert(ps.take(i as int + 1).last() == ps[i as int]);
                }
                total += state.players[i].tricks.len();
                i += 1;
            }
            proof {
                assert(ps.take(ps.len() as int) =~= ps);
            }
            proof {
                lemma_total_tricks_part(ps, ip as int);
            }
            let others = total - np;
            if np > others + left {
                TaskStatus::Done
            } else if np + left <= others {
                TaskStatus::Failed
            } else {
                TaskStatus::Unknown
            }
        } else {
            let mut done = true;
            let mut j: usize = 0;
            while j < state.players.len()
                invariant
                    !self.everyone_else_together,
                    ps == state.players@,
                    ip < ps.len(),
                    left == state.spec_n_tricks_left(),
                    np == ps[ip as int].tricks@.len(),
                    np <= crate::card::NB_CARDS,
                    left <= 2 * (crate::card::NB_CARDS as int),
                    forall|i: int|
                        0 <= i < ps.len() ==> (#[trigger] ps[i]).tricks@.len()
                            <= crate::card::NB_CARDS,
                    j <= ps.len(),
                    forall|j2: int|
                        0 <= j2 < j && j2 != ip ==> {
                            let nj = (#[trigger] ps[j2]).tricks@.len() as int;
                            !(if self.fewer {
                                np >= nj + left
                            } else {
                                np + left <= nj
                            })
                        },
                    done == forall|j2: int|
                        0 <= j2 < j && j2 != ip ==> {
                            let nj = (#[trigger] ps[j2]).tricks@.len() as int;
                            if self.fewer {
                                np + left < nj
                            } else {
                                np > nj + left
                            }
                        },
                decreases ps.len() - j,
            {
                if j != ip {
                    let nj = state.get_player(j).n_tricks();
                    let failed_j = if self.fewer {
                        np >= nj + left
                    } else {
                        np + left <= nj
                    };
                    if failed_j {
                        proof {
                            let s0 = *state;
                            let np2 = s0.players@[ip as int].tricks@.len() as int;
                            let left2 = s0.spec_n_tricks_left();
                            let nj2 = (#[trigger] s0.players@[j as int]).tricks@.len() as int;
                            assert(np2 == np as int && left2 == left as int && nj2 == nj as int);
                            assert(if self.fewer {
                                np2 >= nj2 + left2
                            } else {
                                np2 + left2 <= nj2
                            });
                            assert(exists|j3: int|
                                0 <= j3 < s0.players@.len() && j3 != ip as int && {
                                    let nj3 = (#[trigger] s0.players@[j3]).tricks@.len() as int;
                                    if self.fewer {
                                        np2 >= nj3 + left2
                                    } else {
                                        np2 + left2 <= nj3
                                    }
                                });
                        }
                        return TaskStatus::Failed;
                    }
                    let done_j = if self.fewer {
                        np + left < nj
                    } else {
                        np > nj + left
                    };
                    if !done_j {
                        done = false;
                    }
                }
                j += 1;
            }
            if done {
                TaskStatus::Done
            } else {
                TaskStatus::Unknown
            }
        }
    }
}

/// Every player's tricks count toward the total, so the rest of the table
/// never outweighs it.
pub proof fn lemma_total_tricks_part(ps: Seq<Player>, i: int)
    requires
        0 <= i < ps.len(),
    ensures
        spec_total_tricks(ps) >= ps[i].tricks@.len(),
    decreases ps.len(),
{
    lemma_total_tricks_nonneg(ps.drop_last());
    if i == ps.len() - 1 {
    } else {
        lemma_total_tricks_part(ps.drop_last(), i);
        assert(ps.drop_last()[i] == ps[i]);
    }
}

pub proof fn lemma_total_tricks_nonneg(ps: Seq<Player>)
    ensures
        spec_total_tricks(ps) >= 0,
    decreases ps.len(),
{
    if ps.len() > 0 {
        lemma_total_tricks_nonneg(ps.drop_last());
    }
}

} // verus!
