//! Never lead a trick with a card of a forbidden set.

use vstd::prelude::*;

use crate::card::{Card, Suit, COLOR_MAX, COLOR_MIN, TRUMP_MAX};
use crate::state::State;
use crate::task::TaskStatus;

verus! {

/// The player must never lead a round with one of the forbidden cards.
/// Done once the hand holds no forbidden card any more.
#[derive(Debug)]
pub struct TaskDontOpenTrickWith {
    pub cards: Vec<Card>,
}

impl TaskDontOpenTrickWith {
    pub open spec fn wf(&self) -> bool {
        true
    }

    /// Forbid leading with any card of the given suits.
    pub fn new(colors: Vec<Suit>) -> (r: TaskDontOpenTrickWith)
        ensures
            forall|c: Card|
                #![trigger r.cards@.contains(c)]
                r.cards@.contains(c) <==> c.spec_is_valid() && colors@.contains(c.spec_suit()),
    {
        let t = crate::task::dont_win_cards::TaskDontWinCards::new_from_colors(colors);
        TaskDontOpenTrickWith { cards: t.cards }
    }

    /// Some completed trick anywhere on the table was led by seat `ip`
    /// with a forbidden card. Completed tricks keep their leader and their
    /// play order, so this verdict never evaporates as tricks resolve.
    pub open spec fn spec_led_forbidden(&self, s: State, ip: int) -> bool {
        exists|j: int, k: int|
            #![trigger s.players@[j].tricks@[k]]
            0 <= j < s.players@.len() && 0 <= k < s.players@[j].tricks@.len() && {
                let t = s.players@[j].tricks@[k];
                &&& t.first_player == ip
                &&& t.cards@.len() > 0
                &&& self.cards@.contains(t.cards@[0])
            }
    }

    /// Failed once the assignee has led the trick in progress, or any
    /// completed trick, with a forbidden card; Done once no forbidden card
    /// is left in the hand.
    pub open spec fn spec_eval(&self, s: State, ip: int) -> TaskStatus {
        if (ip == s.current_trick.first_player && s.current_trick.cards@.len() > 0
            && self.cards@.contains(s.current_trick.cards@[0])) || self.spec_led_forbidden(
            s,
            ip,
        ) {
            TaskStatus::Failed
        } else if forall|k: int|
            0 <= k < s.players@[ip].hand.cards@.len() ==> !self.cards@.contains(
                #[trigger] s.players@[ip].hand.cards@[k],
            ) {
            TaskStatus::Done
        } else {
            TaskStatus::Unknown
        }
    }

    pub fn eval(&self, state: &State, ip: usize) -> (r: TaskStatus)
        requires
            state.wf(),
            self.wf(),
            ip < state.players@.len(),
        ensures
            r == self.spec_eval(*state, ip as int),
    {
        if ip == state.first_player() && state.get_current_trick().len() > 0 {
            let first = state.get_current_trick().cards[0];
            if crate::card::contains_card(&self.cards, &first) {
                return TaskStatus::Failed;
            }
        }
        let mut j: usize = 0;
        while j < state.players.len()
            invariant
                ip < state.players@.len(),
                j <= state.players@.len(),
                forall|j2: int, k: int|
                    #![trigger state.players@[j2].tricks@[k]]
                    0 <= j2 < j && 0 <= k < state.players@[j2].tricks@.len() ==> !{
                        let t = state.players@[j2].tricks@[k];
                        &&& t.first_player == ip
                        &&& t.cards@.len() > 0
                        &&& self.cards@.contains(t.cards@[0])
                    },
            decreases state.players@.len() - j,
        {
            let p = state.get_player(j);
            let mut k: usize = 0;
            while k < p.tricks.len()
                invariant
                    ip < state.players@.len(),
                    j < state.players@.len(),
                    p.tricks@ == state.players@[j as int].tricks@,
                    k <= p.tricks@.len(),
                    forall|k2: int|
                        0 <= k2 < k ==> !{
                            let t = #[trigger] state.players@[j as int].tricks@[k2];
                            &&& t.first_player == ip
                            &&& t.cards@.len() > 0
                            &&& self.cards@.contains(t.cards@[0])
                        },
                decreases p.tricks@.len() - k,
            {
                let t = &p.tricks[k];
                if t.get_first_player() == ip && t.len() > 0 {
                    let first = t.cards[0];
                    if crate::card::contains_card(&self.cards, &first) {
                        proof {
                            let tt = state.players@[j as int].tricks@[k as int];
                            assert(tt.first_player == ip && tt.cards@.len() > 0
                                && self.cards@.contains(tt.cards@[0]));
                        }
                        return TaskStatus::Failed;
                    }
                }
                k += 1;
            }
            j += 1;
        }
        if crate::card::contains_any(&state.get_player(ip).hand.cards, &self.cards) {
            TaskStatus::Unknown
        } else {
            TaskStatus::Done
        }
    }
}


/// Task irrevocability for this family: once the evaluation reads Done or
/// Failed in a state, one more legal play leaves the verdict unchanged, so
/// by induction it never changes over any further legal play. A forbidden
/// lead sticks because completed tricks keep their leader and play order.
pub proof fn lemma_dont_open_trick_with_irrevocable(
    t: TaskDontOpenTrickWith,
    pre: State,
    card: Card,
    post: State,
    ip: int,
)
    requires
        pre.wf(),
        pre.players@[pre.spec_current_player_idx()].hand.cards@.contains(card),
        crate::state::play_step(pre, card, post),
        0 <= ip < pre.players@.len(),
        t.spec_eval(pre, ip) != TaskStatus::Unknown,
    ensures
        t.spec_eval(post, ip) == t.spec_eval(pre, ip),
{
    if t.spec_eval(pre, ip) == TaskStatus::Failed {
        lemma_dont_open_failed_sticks(t, pre, card, post, ip);
    } else {
        lemma_dont_open_done_sticks(t, pre, card, post, ip);
    }
}

/// A forbidden lead, in progress or recorded, survives one legal play.
#[verifier::rlimit(100)]
proof fn lemma_dont_open_failed_sticks(
    t: TaskDontOpenTrickWith,
    pre: State,
    card: Card,
    post: State,
    ip: int,
)
    requires
        pre.wf(),
        pre.players@[pre.spec_current_player_idx()].hand.cards@.contains(card),
        crate::state::play_step(pre, card, post),
        0 <= ip < pre.players@.len(),
        t.spec_eval(pre, ip) == TaskStatus::Failed,
    ensures
        t.spec_eval(post, ip) == TaskStatus::Failed,
{
    let n = pre.players@.len() as int;
    let cp = pre.spec_current_player_idx();
    let trick_cards = pre.current_trick.cards@.push(card);
    let completes = trick_cards.len() >= n;

    if ip == pre.current_trick.first_player && pre.current_trick.cards@.len() > 0
        && t.cards@.contains(pre.current_trick.cards@[0]) {
        // the forbidden lead is either still in progress or recorded in
        // the winner's won tricks
        if !completes {
            assert(post.current_trick.cards@[0] == pre.current_trick.cards@[0]);
        } else {
            let w = crate::trick::spec_winner(
                trick_cards,
                pre.current_trick.first_player as int,
            );
            let nt = post.players@[w].tricks@.last();
            assert(nt.first_player == ip && nt.cards@.len() > 0 && t.cards@.contains(
                nt.cards@[0],
            ));
            let k = post.players@[w].tricks@.len() - 1;
            assert(post.players@[w].tricks@[k] == nt);
            assert(t.spec_led_forbidden(post, ip));
        }
    } else {
        // a recorded forbidden lead stays recorded
        let (j, k) = choose|j: int, k: int|
            #![trigger pre.players@[j].tricks@[k]]
            0 <= j < pre.players@.len() && 0 <= k < pre.players@[j].tricks@.len() && {
                let t0 = pre.players@[j].tricks@[k];
                &&& t0.first_player == ip
                &&& t0.cards@.len() > 0
                &&& t.cards@.contains(t0.cards@[0])
            };
        assert(post.players@[j].tricks@[k] == pre.players@[j].tricks@[k]) by {
            if !completes {
                if j != cp {
                    assert(post.players@[j] == pre.players@[j]);
                }
            } else {
                let w = crate::trick::spec_winner(
                    trick_cards,
                    pre.current_trick.first_player as int,
                );
                if j != cp && j != w {
                    assert(post.players@[j] == pre.players@[j]);
                } else if j == w {
                    assert(post.players@[w].tricks@ == pre.players@[w].tricks@.push(
                        post.players@[w].tricks@.last(),
                    ));
                }
            }
        }
        assert(t.spec_led_forbidden(post, ip));
    }
    assert(t.spec_eval(post, ip) == TaskStatus::Failed);

}

/// A hand free of forbidden cards stays free, and yields no forbidden lead.
#[verifier::rlimit(100)]
proof fn lemma_dont_open_done_sticks(
    t: TaskDontOpenTrickWith,
    pre: State,
    card: Card,
    post: State,
    ip: int,
)
    requires
        pre.wf(),
        pre.players@[pre.spec_current_player_idx()].hand.cards@.contains(card),
        crate::state::play_step(pre, card, post),
        0 <= ip < pre.players@.len(),
        t.spec_eval(pre, ip) == TaskStatus::Done,
    ensures
        t.spec_eval(post, ip) == TaskStatus::Done,
{
    let n = pre.players@.len() as int;
    let cp = pre.spec_current_player_idx();
    let trick_cards = pre.current_trick.cards@.push(card);
    let completes = trick_cards.len() >= n;

    // Done: the hand holds no forbidden card, so the assignee can never
    // lead with one, and loses cards only
    let hand_pre = pre.players@[ip].hand.cards@;
    let hand_post = post.players@[ip].hand.cards@;
    assert forall|k: int|
        0 <= k < hand_post.len() implies !t.cards@.contains(
        #[trigger] hand_post[k],
    ) by {
        if ip == cp {
            crate::card::lemma_index_of_card(hand_pre, card);
            let i0 = crate::card::index_of_card(hand_pre, card);
            if k < i0 {
                assert(hand_post[k] == hand_pre[k]);
            } else {
                assert(hand_post[k] == hand_pre[k + 1]);
            }
        } else {
            if !completes {
                assert(post.players@[ip] == pre.players@[ip]);
            } else {
                let w = crate::trick::spec_winner(
                    trick_cards,
                    pre.current_trick.first_player as int,
                );
                if ip != w {
                    assert(post.players@[ip] == pre.players@[ip]);
                } else {
                    assert(hand_post == hand_pre);
                }
            }
        }
    }
    // and no new forbidden lead appears anywhere
    assert(!(ip == post.current_trick.first_player && post.current_trick.cards@.len() > 0
        && t.cards@.contains(post.current_trick.cards@[0]))) by {
        if !completes && post.current_trick.cards@.len() > 0 {
            if pre.current_trick.cards@.len() > 0 {
                assert(post.current_trick.cards@[0] == pre.current_trick.cards@[0]);
            } else {
                // the assignee led just now: the card came from its own
                // clean hand
                assert(post.current_trick.cards@[0] == card);
                if ip == pre.current_trick.first_player {
                    assert(cp == pre.current_trick.first_player as int) by {
                        vstd::arithmetic::div_mod::lemma_small_mod(
                            pre.current_trick.first_player as nat,
                            n as nat,
                        );
                    }
                    assert(cp == ip);
                    crate::card::lemma_index_of_card(
                        pre.players@[ip].hand.cards@,
                        card,
                    );
                    let i0 = crate::card::index_of_card(
                        pre.players@[ip].hand.cards@,
                        card,
                    );
                    assert(!t.cards@.contains(pre.players@[ip].hand.cards@[i0]));
                }
            }
        }
    }
    assert(!t.spec_led_forbidden(post, ip)) by {
        if t.spec_led_forbidden(post, ip) {
            let (j, k) = choose|j: int, k: int|
                #![trigger post.players@[j].tricks@[k]]
                0 <= j < post.players@.len() && 0 <= k < post.players@[j].tricks@.len() && {
                    let t0 = post.players@[j].tricks@[k];
                    &&& t0.first_player == ip
                    &&& t0.cards@.len() > 0
                    &&& t.cards@.contains(t0.cards@[0])
                };
            let w = crate::trick::spec_winner(
                trick_cards,
                pre.current_trick.first_player as int,
            );
            if completes && j == w && k == post.players@[w].tricks@.len() - 1 {
                // the newly completed trick: its lead card is either the
                // old trick's lead or the assignee's own clean card
                let nt = post.players@[w].tricks@.last();
                assert(nt.cards@ == trick_cards);
                if pre.current_trick.cards@.len() > 0 {
                    assert(nt.cards@[0] == pre.current_trick.cards@[0]);
                    assert(nt.first_player == pre.current_trick.first_player);
                    assert(false);
                } else {
                    assert(nt.cards@[0] == card);
                    assert(cp == pre.current_trick.first_player as int) by {
                        vstd::arithmetic::div_mod::lemma_small_mod(
                            pre.current_trick.first_player as nat,
                            n as nat,
                        );
                    }
                    crate::card::lemma_index_of_card(
                        pre.players@[ip].hand.cards@,
                        card,
                    );
                    let i0 = crate::card::index_of_card(
                        pre.players@[ip].hand.cards@,
                        card,
                    );
                    assert(!t.cards@.contains(pre.players@[ip].hand.cards@[i0]));
                    assert(false);
                }
            } else {
                // an old trick: it was already clean before the play
                assert(post.players@[j].tricks@[k] == pre.players@[j].tricks@[k]) by {
                    if !completes {
                        if j != cp {
                            assert(post.players@[j] == pre.players@[j]);
                        }
                    } else {
                        if j != cp && j != w {
                            assert(post.players@[j] == pre.players@[j]);
                        } else if j == w {
                            assert(post.players@[w].tricks@ == pre.players@[w].tricks@.push(
                                post.players@[w].tricks@.last(),
                            ));
                        }
                    }
                }
                assert(false);
            }
        }
    }
    assert(t.spec_eval(post, ip) == TaskStatus::Done);
}


} // verus!
