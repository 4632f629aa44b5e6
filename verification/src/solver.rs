//! The feasibility search: a depth-first walk over legal continuations of a
//! game state, on an explicit stack of independent snapshots, pruned by the
//! three-valued game status.

use vstd::prelude::*;

use crate::card::Card;
use crate::state::{
    lemma_play_seq_snoc, lemma_play_step_hands, lemma_play_step_tasks_wf,
    lemma_state_views_eq_refl, lemma_views_eq_preserves, lemma_wf_bounds, seq_hands, spec_led,
    spec_legal_play, spec_play_seq, spec_reachable, spec_tasks_wf, GameError, State,
};
use crate::task::TaskStatus;

verus! {

/// The factorial, used as a termination potential for the search.
pub open spec fn fact(n: nat) -> nat
    decreases n,
{
    if n == 0 {
        1
    } else {
        n * fact((n - 1) as nat)
    }
}

pub proof fn lemma_fact_pos(n: nat)
    ensures
        fact(n) >= 1,
    decreases n,
{
    if n > 0 {
        lemma_fact_pos((n - 1) as nat);
        vstd::arithmetic::mul::lemma_mul_inequality(1, n as int, fact((n - 1) as nat) as int);
    }
}

/// The potential of one snapshot: strictly more than the combined potential
/// of all states one play away, since a state with `h` cards in hands has at
/// most `h` legal continuations, each with `h - 1` cards in hands.
pub open spec fn state_pot(s: State) -> nat {
    fact(seq_hands(s.players@).len() + 1)
}

/// The combined potential of a search stack.
pub open spec fn stack_pot(sts: Seq<State>) -> nat
    decreases sts.len(),
{
    if sts.len() == 0 {
        0
    } else {
        stack_pot(sts.drop_last()) + state_pot(sts.last())
    }
}

pub proof fn lemma_stack_pot_push(sts: Seq<State>, s: State)
    ensures
        stack_pot(sts.push(s)) == stack_pot(sts) + state_pot(s),
{
    assert(sts.push(s).drop_last() =~= sts);
    assert(sts.push(s).last() == s);
}

/// What one pop takes off the search stack: the popped snapshot inherits
/// the stack facts, and a stacked Done witness survives unless the popped
/// snapshot is itself Done.
#[verifier::rlimit(100)]
proof fn lemma_pop_facts(prev: Seq<State>, rest: Seq<State>, state: State, s0: State)
    requires
        prev.len() > 0,
        rest == prev.drop_last(),
        state == prev.last(),
        forall|i: int|
            0 <= i < prev.len() ==> (#[trigger] prev[i]).wf() && spec_tasks_wf(prev[i].players@)
                && spec_reachable(s0, prev[i]),
        s0.spec_game_status() == TaskStatus::Done ==> exists|i: int|
            0 <= i < prev.len() && (#[trigger] prev[i]).spec_game_status() == TaskStatus::Done,
    ensures
        state.wf(),
        spec_tasks_wf(state.players@),
        spec_reachable(s0, state),
        forall|i: int|
            0 <= i < rest.len() ==> (#[trigger] rest[i]).wf() && spec_tasks_wf(rest[i].players@)
                && spec_reachable(s0, rest[i]),
        state.spec_game_status() != TaskStatus::Done && s0.spec_game_status() == TaskStatus::Done
            ==> exists|i: int|
            0 <= i < rest.len() && (#[trigger] rest[i]).spec_game_status() == TaskStatus::Done,
{
    assert(prev[prev.len() - 1] == state);
    assert forall|i: int|
        0 <= i < rest.len() implies (#[trigger] rest[i]).wf() && spec_tasks_wf(rest[i].players@)
        && spec_reachable(s0, rest[i]) by {
        assert(rest[i] == prev[i]);
    }
    if state.spec_game_status() != TaskStatus::Done && s0.spec_game_status()
        == TaskStatus::Done {
        let i = choose|i: int|
            0 <= i < prev.len() && (#[trigger] prev[i]).spec_game_status() == TaskStatus::Done;
        assert(i < prev.len() - 1);
        assert(rest[i] == prev[i]);
    }
}

/// What one pop takes off the search stack, without any Done bookkeeping:
/// the popped snapshot inherits the stack facts.
#[verifier::rlimit(100)]
proof fn lemma_pop_base(prev: Seq<State>, rest: Seq<State>, state: State, s0: State)
    requires
        prev.len() > 0,
        rest == prev.drop_last(),
        state == prev.last(),
        forall|i: int|
            0 <= i < prev.len() ==> (#[trigger] prev[i]).wf() && spec_tasks_wf(prev[i].players@)
                && spec_reachable(s0, prev[i]),
    ensures
        state.wf(),
        spec_tasks_wf(state.players@),
        spec_reachable(s0, state),
        forall|i: int|
            0 <= i < rest.len() ==> (#[trigger] rest[i]).wf() && spec_tasks_wf(rest[i].players@)
                && spec_reachable(s0, rest[i]),
{
    assert(prev[prev.len() - 1] == state);
    assert forall|i: int|
        0 <= i < rest.len() implies (#[trigger] rest[i]).wf() && spec_tasks_wf(rest[i].players@)
        && spec_reachable(s0, rest[i]) by {
        assert(rest[i] == prev[i]);
    }
}

/// Pushing one legal play of a snapshot keeps the child reachable from the
/// search root.
#[verifier::rlimit(100)]
proof fn lemma_child_reachable(s0: State, state: State, child0: State, card: Card, child: State)
    requires
        spec_reachable(s0, state),
        crate::state::state_views_eq(state, child0),
        spec_legal_play(state, card),
        crate::state::play_step(child0, card, child),
    ensures
        spec_reachable(s0, child),
{
    reveal(spec_reachable);
    let cp = state.spec_current_player_idx();
    assert(spec_legal_play(child0, card)) by {
        assert(child0.spec_current_player_idx() == cp);
        assert(child0.players@[cp].hand.cards@ == state.players@[cp].hand.cards@);
        assert(spec_led(child0) == spec_led(state));
    }
    let cs = choose|cs: Seq<Card>| spec_play_seq(s0, cs, state);
    lemma_play_seq_snoc(s0, cs, state, child0, card, child);
    assert(spec_play_seq(s0, cs.push(card), child));
}

impl State {
    /// Searches for a complete legal play-sequence in which every task is
    /// Done. Returns such a terminal state — reachable from the input by
    /// legal plays — or reports that none exists. A game whose tasks are
    /// already all Done always yields a solution.
    ///
    /// The walk pops a snapshot, classifies it, and on an open status pushes
    /// one clone per legal card of the current player; exhausting the stack
    /// without ever reaching Done means the search found no solution.
    #[verifier::rlimit(100)]
    pub fn play(self) -> (r: Result<State, GameError>)
        requires
            self.wf(),
            spec_tasks_wf(self.players@),
        ensures
            match r {
                Ok(sol) => sol.wf() && sol.spec_game_status() == TaskStatus::Done
                    && spec_reachable(self, sol),
                Err(e) => e is NoSolutionFound,
            },
            self.spec_game_status() == TaskStatus::Done ==> r is Ok,
    {
        let ghost s0 = self;
        let mut stack: Vec<State> = Vec::new();
        proof {
            lemma_state_views_eq_refl(s0);
            assert(spec_play_seq(s0, Seq::<Card>::empty(), s0)) by {
                reveal(spec_play_seq);
            }
            assert(spec_reachable(s0, s0)) by {
                reveal(spec_reachable);
            }
        }
        stack.push(self);
        proof {
            assert(stack@[0] == s0);
        }

        #[verifier::loop_isolation(false)]
        while stack.len() > 0
            invariant
                forall|i: int|
                    0 <= i < stack@.len() ==> (#[trigger] stack@[i]).wf() && spec_tasks_wf(
                        stack@[i].players@,
                    ) && spec_reachable(s0, stack@[i]),
                s0.spec_game_status() == TaskStatus::Done ==> exists|i: int|
                    0 <= i < stack@.len() && (#[trigger] stack@[i]).spec_game_status()
                        == TaskStatus::Done,
            decreases stack_pot(stack@),
        {
            let ghost pot0 = stack_pot(stack@);
            let ghost prev = stack@;
            let state = stack.pop().unwrap();
            proof {
                assert(pot0 == stack_pot(stack@) + state_pot(state));
                lemma_fact_pos(seq_hands(state.players@).len() + 1);
                lemma_pop_facts(prev, stack@, state, s0);
            }
            let status = state.game_status();
            if matches!(status, TaskStatus::Done) {
                return Ok(state);
            }
            if matches!(status, TaskStatus::Unknown) {
                // Try every legal card of the current player.
                let led: Option<&Card> = if state.current_trick.len() > 0 {
                    Some(&state.current_trick.cards[0])
                } else {
                    None
                };
                let cp = state.get_current_player_idx();
                let playable = state.players[cp].hand.playable_cards(led);
                let ghost hs = seq_hands(state.players@).len();
                proof {
                    lemma_wf_bounds(state);
                    crate::hand::lemma_playable_subset(
                        state.players@[cp as int].hand.cards@,
                        spec_led(state),
                    );
                    assert(playable@ == crate::hand::spec_playable(
                        state.players@[cp as int].hand.cards@,
                        spec_led(state),
                    ));
                    crate::state::lemma_seq_hands_player(state.players@, cp as int);
                }

                let mut ci: usize = 0;
                while ci < playable.len()
                    invariant
                        state.wf(),
                        spec_tasks_wf(state.players@),
                        spec_reachable(s0, state),
                        cp as int == state.spec_current_player_idx(),
                        cp < state.players@.len(),
                        hs == seq_hands(state.players@).len(),
                        playable@ == crate::hand::spec_playable(
                            state.players@[cp as int].hand.cards@,
                            spec_led(state),
                        ),
                        forall|k: int|
                            0 <= k < playable@.len() ==> state.players@[cp as int].hand.cards@
                                .contains(#[trigger] playable@[k]),
                        playable@.len() <= hs,
                        ci <= playable@.len(),
                        forall|i: int|
                            0 <= i < stack@.len() ==> (#[trigger] stack@[i]).wf() && spec_tasks_wf(
                                stack@[i].players@,
                            ) && spec_reachable(s0, stack@[i]),
                        s0.spec_game_status() == TaskStatus::Done ==> exists|i: int|
                            0 <= i < stack@.len() && (#[trigger] stack@[i]).spec_game_status()
                                == TaskStatus::Done,
                        stack_pot(stack@) == pot0 - state_pot(state) + ci * fact(hs),
                    decreases playable@.len() - ci,
                {
                    let card = playable[ci];
                    let mut child = state.clone();
                    let ghost child0 = child;
                    proof {
                        lemma_views_eq_preserves(state, child0);
                        assert(child0.players@[cp as int].hand.cards@.contains(card));
                        assert(child0.spec_current_player_idx()
                            == state.spec_current_player_idx());
                        assert(playable@.contains(card));
                        assert(spec_legal_play(state, card));
                    }
                    let res = child.play_card(&card);
                    match res {
                        Ok(()) => {},
                        Err(e) => {
                            proof {
                                assert(false);
                            }
                            return Err(GameError::NoSolutionFound);
                        },
                    }
                    let ghost pre_push = stack@;
                    proof {
                        lemma_play_step_tasks_wf(child0, card, child);
                        lemma_play_step_hands(child0, card, child);
                        assert(state_pot(child) == fact(hs));
                        lemma_stack_pot_push(stack@, child);
                        assert((ci + 1) * fact(hs) == ci * fact(hs) + fact(hs))
                            by (nonlinear_arith);
                        lemma_child_reachable(s0, state, child0, card, child);
                    }
                    stack.push(child);
                    proof {
                        if s0.spec_game_status() == TaskStatus::Done {
                            let i = choose|i: int|
                                0 <= i < pre_push.len() && (#[trigger] pre_push[
                                i]).spec_game_status() == TaskStatus::Done;
                            assert(stack@[i] == pre_push[i]);
                        }
                    }
                    ci += 1;
                }
                proof {
                    // At most `hs` children were pushed, each lighter than
                    // the popped state: the total potential went down.
                    lemma_fact_pos(hs);
                    vstd::arithmetic::mul::lemma_mul_inequality(
                        playable@.len() as int,
                        hs as int,
                        fact(hs) as int,
                    );
                    assert(state_pot(state) == (hs + 1) * fact(hs));
                    assert((hs + 1) * fact(hs) == hs * fact(hs) + fact(hs))
                        by (nonlinear_arith);
                    assert(stack_pot(stack@) < pot0);
                }
            }
        }
        Err(GameError::NoSolutionFound)
    }
}

/// Counts gathered over an exhaustive search: terminal Done and Failed
/// states, and open states abandoned for want of any legal continuation.
#[derive(Debug, Clone, Copy, PartialEq, Eq, Structural)]
pub struct SolveStats {
    pub done: u64,
    pub failed: u64,
    pub abandoned: u64,
}

/// A dead branch: the game is still open but the player whose turn it is
/// has no legal card left.
pub open spec fn spec_dead_end(t: State) -> bool {
    &&& t.spec_game_status() == TaskStatus::Unknown
    &&& crate::hand::spec_playable(
        t.players@[t.spec_current_player_idx()].hand.cards@,
        spec_led(t),
    ).len() == 0
}

impl State {
    /// Statistics mode: walks the whole search space instead of stopping at
    /// the first solution, and counts the terminal outcomes. Counters
    /// saturate rather than wrap. Each positive counter vouches for a state
    /// of that kind reachable by legal plays, and a game whose tasks are
    /// already all Done is always counted as solved.
    #[verifier::rlimit(100)]
    pub fn play_stats(self) -> (r: SolveStats)
        requires
            self.wf(),
            spec_tasks_wf(self.players@),
        ensures
            self.spec_game_status() == TaskStatus::Done ==> r.done > 0,
            r.done > 0 ==> exists|t: State|
                spec_reachable(self, t) && (#[trigger] t.spec_game_status())
                    == TaskStatus::Done,
            r.failed > 0 ==> exists|t: State|
                spec_reachable(self, t) && (#[trigger] t.spec_game_status())
                    == TaskStatus::Failed,
            r.abandoned > 0 ==> exists|t: State| #[trigger] spec_dead_end(t) && spec_reachable(
                self,
                t,
            ),
    {
        let ghost s0 = self;
        let mut stats = SolveStats { done: 0, failed: 0, abandoned: 0 };
        let mut stack: Vec<State> = Vec::new();
        proof {
            lemma_state_views_eq_refl(s0);
            assert(spec_play_seq(s0, Seq::<Card>::empty(), s0)) by {
                reveal(spec_play_seq);
            }
            assert(spec_reachable(s0, s0)) by {
                reveal(spec_reachable);
            }
        }
        stack.push(self);
        proof {
            assert(stack@[0] == s0);
        }

        while stack.len() > 0
            invariant
                forall|i: int|
                    0 <= i < stack@.len() ==> (#[trigger] stack@[i]).wf() && spec_tasks_wf(
                        stack@[i].players@,
                    ) && spec_reachable(s0, stack@[i]),
                s0.spec_game_status() == TaskStatus::Done ==> (exists|i: int|
                    0 <= i < stack@.len() && (#[trigger] stack@[i]).spec_game_status()
                        == TaskStatus::Done) || stats.done > 0,
                stats.done > 0 ==> exists|t: State|
                    spec_reachable(s0, t) && (#[trigger] t.spec_game_status())
                        == TaskStatus::Done,
                stats.failed > 0 ==> exists|t: State|
                    spec_reachable(s0, t) && (#[trigger] t.spec_game_status())
                        == TaskStatus::Failed,
                stats.abandoned > 0 ==> exists|t: State| #[trigger] spec_dead_end(t)
                    && spec_reachable(s0, t),
            decreases stack_pot(stack@),
        {
            let ghost pot0 = stack_pot(stack@);
            let ghost prev = stack@;
            let state = stack.pop().unwrap();
            proof {
                assert(pot0 == stack_pot(stack@) + state_pot(state));
                lemma_fact_pos(seq_hands(state.players@).len() + 1);
                lemma_pop_base(prev, stack@, state, s0);
                if s0.spec_game_status() == TaskStatus::Done && stats.done == 0
                    && state.spec_game_status() != TaskStatus::Done {
                    let i = choose|i: int|
                        0 <= i < prev.len() && (#[trigger] prev[i]).spec_game_status()
                            == TaskStatus::Done;
                    assert(i < prev.len() - 1);
                    assert(stack@[i] == prev[i]);
                }
            }

            let status = state.game_status();
            if matches!(status, TaskStatus::Done) {
                stats.done = if stats.done < u64::MAX {
                    stats.done + 1
                } else {
                    stats.done
                };
            } else if matches!(status, TaskStatus::Failed) {
                stats.failed = if stats.failed < u64::MAX {
                    stats.failed + 1
                } else {
                    stats.failed
                };
            } else {
                let led: Option<&Card> = if state.current_trick.len() > 0 {
                    Some(&state.current_trick.cards[0])
                } else {
                    None
                };
                let cp = state.get_current_player_idx();
                let playable = state.players[cp].hand.playable_cards(led);
                let ghost hs = seq_hands(state.players@).len();
                proof {
                    lemma_wf_bounds(state);
                    crate::hand::lemma_playable_subset(
                        state.players@[cp as int].hand.cards@,
                        spec_led(state),
                    );
                    assert(playable@ == crate::hand::spec_playable(
                        state.players@[cp as int].hand.cards@,
                        spec_led(state),
                    ));
                    crate::state::lemma_seq_hands_player(state.players@, cp as int);
                }
                if playable.len() == 0 {
                    proof {
                        assert(spec_dead_end(state));
                    }
                    stats.abandoned = if stats.abandoned < u64::MAX {
                        stats.abandoned + 1
                    } else {
                        stats.abandoned
                    };
                }

                let mut ci: usize = 0;
                while ci < playable.len()
                    invariant
                        state.wf(),
                        spec_tasks_wf(state.players@),
                        spec_reachable(s0, state),
                        cp as int == state.spec_current_player_idx(),
                        cp < state.players@.len(),
                        hs == seq_hands(state.players@).len(),
                        playable@ == crate::hand::spec_playable(
                            state.players@[cp as int].hand.cards@,
                            spec_led(state),
                        ),
                        forall|k: int|
                            0 <= k < playable@.len() ==> state.players@[cp as int].hand.cards@
                                .contains(#[trigger] playable@[k]),
                        playable@.len() <= hs,
                        ci <= playable@.len(),
                        forall|i: int|
                            0 <= i < stack@.len() ==> (#[trigger] stack@[i]).wf() && spec_tasks_wf(
                                stack@[i].players@,
                            ) && spec_reachable(s0, stack@[i]),
                        s0.spec_game_status() == TaskStatus::Done ==> (exists|i: int|
                            0 <= i < stack@.len() && (#[trigger] stack@[i]).spec_game_status()
                                == TaskStatus::Done) || stats.done > 0,
                        stack_pot(stack@) == pot0 - state_pot(state) + ci * fact(hs),
                    decreases playable@.len() - ci,
                {
                    let card = playable[ci];
                    let mut child = state.clone();
                    let ghost child0 = child;
                    proof {
                        lemma_views_eq_preserves(state, child0);
                        assert(child0.players@[cp as int].hand.cards@.contains(card));
                        assert(child0.spec_current_player_idx()
                            == state.spec_current_player_idx());
                        assert(playable@.contains(card));
                        assert(spec_legal_play(state, card));
                    }
                    let res = child.play_card(&card);
                    match res {
                        Ok(()) => {},
                        Err(e) => {
                            proof {
                                assert(false);
                            }
                            return stats;
                        },
                    }
                    let ghost pre_push = stack@;
                    proof {
                        lemma_play_step_tasks_wf(child0, card, child);
                        lemma_play_step_hands(child0, card, child);
                        assert(state_pot(child) == fact(hs));
                        lemma_stack_pot_push(stack@, child);
                        assert((ci + 1) * fact(hs) == ci * fact(hs) + fact(hs))
                            by (nonlinear_arith);
                        lemma_child_reachable(s0, state, child0, card, child);
                    }
                    stack.push(child);
                    proof {
                        if s0.spec_game_status() == TaskStatus::Done && stats.done == 0 {
                            let i = choose|i: int|
                                0 <= i < pre_push.len() && (#[trigger] pre_push[
                                i]).spec_game_status() == TaskStatus::Done;
                            assert(stack@[i] == pre_push[i]);
                        }
                    }
                    ci += 1;
                }
                proof {
                    lemma_fact_pos(hs);
                    vstd::arithmetic::mul::lemma_mul_inequality(
                        playable@.len() as int,
                        hs as int,
                        fact(hs) as int,
                    );
                    assert(state_pot(state) == (hs + 1) * fact(hs));
                    assert((hs + 1) * fact(hs) == hs * fact(hs) + fact(hs))
                        by (nonlinear_arith);
                    assert(stack_pot(stack@) < pot0);
                }
            }
        }
        stats
    }
}

} // verus!
