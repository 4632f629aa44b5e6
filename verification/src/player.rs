//! Players: a hand, the ordered list of won tricks, and the assigned tasks.

use vstd::prelude::*;

use crate::card::{cards_ok, count_suit, count_val, index_of_card, Card, Suit, NB_CARDS};
use crate::hand::Hand;
use crate::state::{GameError, State};
use crate::task::{Task, TaskStatus};
use crate::trick::Trick;

verus! {

/// One player: the hand still held, the tricks won so far (with strictly
/// increasing indices), and the fixed list of assigned tasks.
#[derive(Debug)]
pub struct Player {
    pub hand: Hand,
    pub tricks: Vec<Trick>,
    pub tasks: Vec<Task>,
}

/// Two players agree in every observable field.
pub open spec fn player_views_eq(a: Player, b: Player) -> bool {
    &&& b.hand.cards@ == a.hand.cards@
    &&& b.tricks@.len() == a.tricks@.len()
    &&& forall|j: int|
        0 <= j < a.tricks@.len() ==> crate::trick::trick_views_eq(
            a.tricks@[j],
            #[trigger] b.tricks@[j],
        )
    &&& b.tasks@.len() == a.tasks@.len()
    &&& forall|k: int|
        0 <= k < a.tasks@.len() ==> crate::task::task_views_eq(
            a.tasks@[k],
            #[trigger] b.tasks@[k],
        )
}

/// All cards in a list of won tricks, in the order the tricks were won.
pub open spec fn spec_won_cards(tricks: Seq<Trick>) -> Seq<Card>
    decreases tricks.len(),
{
    if tricks.len() == 0 {
        Seq::empty()
    } else {
        spec_won_cards(tricks.drop_last()) + tricks.last().cards@
    }
}

/// Appending a trick appends its cards to the won-card sequence.
pub proof fn lemma_won_cards_push(ts: Seq<Trick>, t: Trick)
    ensures
        spec_won_cards(ts.push(t)) == spec_won_cards(ts) + t.cards@,
{
    assert(ts.push(t).drop_last() =~= ts);
    assert(ts.push(t).last() == t);
}

/// A card stands among the won cards exactly when some won trick holds it.
pub proof fn lemma_won_cards_contains(ts: Seq<Trick>, c: Card)
    ensures
        spec_won_cards(ts).contains(c) <==> exists|i: int|
            0 <= i < ts.len() && (#[trigger] ts[i]).cards@.contains(c),
    decreases ts.len(),
{
    if ts.len() == 0 {
    } else {
        lemma_won_cards_contains(ts.drop_last(), c);
        let a = spec_won_cards(ts.drop_last());
        let b = ts.last().cards@;
        assert((a + b).contains(c) <==> a.contains(c) || b.contains(c)) by {
            if (a + b).contains(c) {
                let i = choose|i: int| 0 <= i < (a + b).len() && (a + b)[i] == c;
                if i < a.len() {
                    assert(a[i] == c);
                } else {
                    assert(b[i - a.len()] == c);
                }
            }
            if a.contains(c) {
                let i = choose|i: int| 0 <= i < a.len() && a[i] == c;
                assert((a + b)[i] == c);
            }
            if b.contains(c) {
                let i = choose|i: int| 0 <= i < b.len() && b[i] == c;
                assert((a + b)[a.len() + i] == c);
            }
        }
        assert forall|i: int| 0 <= i < ts.len() && (#[trigger] ts[i]).cards@.contains(c)
            implies spec_won_cards(ts).contains(c) by {
            if i < ts.len() - 1 {
                assert(ts.drop_last()[i] == ts[i]);
            } else {
                assert(ts.last() == ts[i]);
            }
        }
        if spec_won_cards(ts).contains(c) {
            if a.contains(c) {
                let i = choose|i: int|
                    0 <= i < ts.drop_last().len() && (#[trigger] ts.drop_last()[i]).cards@.contains(
                        c,
                    );
                assert(ts[i].cards@.contains(c));
            } else {
                assert(ts[ts.len() - 1].cards@.contains(c));
            }
        }
    }
}

/// Trick lists that agree card for card yield the same won cards.
pub proof fn lemma_won_cards_views(a: Seq<Trick>, b: Seq<Trick>)
    requires
        b.len() == a.len(),
        forall|j: int|
            0 <= j < a.len() ==> crate::trick::trick_views_eq(a[j], #[trigger] b[j]),
    ensures
        spec_won_cards(b) == spec_won_cards(a),
    decreases a.len(),
{
    if a.len() > 0 {
        lemma_won_cards_views(a.drop_last(), b.drop_last());
        assert(spec_won_cards(b) =~= spec_won_cards(a));
    } else {
        assert(spec_won_cards(b) =~= spec_won_cards(a));
    }
}

impl Clone for Player {
    fn clone(&self) -> (r: Player)
        ensures
            player_views_eq(*self, r),
    {
        let mut tricks: Vec<Trick> = Vec::new();
        let mut i: usize = 0;
        while i < self.tricks.len()
            invariant
                i <= self.tricks@.len(),
                tricks@.len() == i,
                forall|j: int|
                    0 <= j < i ==> crate::trick::trick_views_eq(
                        self.tricks@[j],
                        #[trigger] tricks@[j],
                    ),
            decreases self.tricks@.len() - i,
        {
            tricks.push(self.tricks[i].clone());
            i += 1;
        }
        let mut tasks: Vec<Task> = Vec::new();
        let mut k: usize = 0;
        while k < self.tasks.len()
            invariant
                k <= self.tasks@.len(),
                tasks@.len() == k,
                forall|j: int|
                    0 <= j < k ==> crate::task::task_views_eq(
                        self.tasks@[j],
                        #[trigger] tasks@[j],
                    ),
            decreases self.tasks@.len() - k,
        {
            tasks.push(self.tasks[k].clone());
            k += 1;
        }
        Player { hand: self.hand.clone(), tricks, tasks }
    }
}

/// A trick list where every trick holds at least one card yields at least
/// one won card per trick.
pub proof fn lemma_won_cards_min_len(ts: Seq<Trick>)
    requires
        forall|j: int| 0 <= j < ts.len() ==> (#[trigger] ts[j]).cards@.len() >= 1,
    ensures
        spec_won_cards(ts).len() >= ts.len(),
    decreases ts.len(),
{
    if ts.len() > 0 {
        lemma_won_cards_min_len(ts.drop_last());
        assert(ts.last() == ts[ts.len() - 1]);
    }
}

/// The number of players a full game supports.
pub fn check_valid_n_players(n_players: usize) -> (r: Result<(), GameError>)
    ensures
        r is Ok <==> 3 <= n_players <= 5,
        r matches Err(e) ==> e is InvalidPlayerCount,
{
    if 3 <= n_players && n_players <= 5 {
        Ok(())
    } else {
        Err(GameError::InvalidPlayerCount(n_players))
    }
}

/// Total number of tricks in a full game: one per complete round of the
/// dealt deck.
pub fn n_tricks_total(n_players: usize) -> (r: usize)
    requires
        1 <= n_players <= NB_CARDS,
    ensures
        r == NB_CARDS as int / n_players as int,
        r >= 1,
    {
    proof {
        vstd::arithmetic::div_mod::lemma_div_non_zero(NB_CARDS as int, n_players as int);
    }
    NB_CARDS / n_players
}

impl Player {
    /// The won cards of this player.
    pub open spec fn won(&self) -> Seq<Card> {
        spec_won_cards(self.tricks@)
    }

    /// The player holds, or has already won, the highest-ranked trump card.
    pub open spec fn spec_is_captain(&self) -> bool {
        self.hand.cards@.contains(Card::Trump(4)) || self.won().contains(Card::Trump(4))
    }

    /// A fresh player holding the given hand, with no won tricks and no
    /// tasks yet.
    pub fn new(hand: Hand) -> (r: Player)
        ensures
            r.hand.cards@ == hand.cards@,
            r.tricks@.len() == 0,
            r.tasks@.len() == 0,
    {
        Player { hand, tricks: Vec::new(), tasks: Vec::new() }
    }

    /// The hand still held.
    pub fn get_hand(&self) -> (r: &Hand)
        ensures
            r.cards@ == self.hand.cards@,
    {
        &self.hand
    }

    /// The tricks won so far, in winning order.
    pub fn get_tricks(&self) -> (r: &Vec<Trick>)
        ensures
            r@ == self.tricks@,
    {
        &self.tricks
    }

    /// Number of tricks won so far.
    pub fn n_tricks(&self) -> (r: usize)
        ensures
            r == self.tricks@.len(),
    {
        self.tricks.len()
    }

    /// Removes a played card from the hand; an absent card is a caller bug
    /// and is reported, leaving the player unchanged.
    pub fn remove_card_from_hand(&mut self, card: &Card) -> (r: Result<(), GameError>)
        requires
            cards_ok(old(self).hand.cards@),
        ensures
            final(self).tricks@ == old(self).tricks@,
            final(self).tasks@ == old(self).tasks@,
            match r {
                Ok(()) => {
                    &&& old(self).hand.cards@.contains(*card)
                    &&& final(self).hand.cards@ == old(self).hand.cards@.remove(
                        index_of_card(old(self).hand.cards@, *card),
                    )
                },
                Err(GameError::CardNotFound(c, cs)) => {
                    &&& !old(self).hand.cards@.contains(*card)
                    &&& c == *card
                    &&& cs@ == old(self).hand.cards@
                    &&& final(self).hand.cards@ == old(self).hand.cards@
                },
                Err(_) => false,
            },
    {
        let ghost s = self.hand.cards@;
        let mut i: usize = 0;
        while i < self.hand.cards.len()
            invariant
                s == self.hand.cards@,
                cards_ok(s),
                self.tricks@ == old(self).tricks@,
                self.tasks@ == old(self).tasks@,
                s == old(self).hand.cards@,
                i <= s.len(),
                forall|k: int| 0 <= k < i ==> s[k] != *card,
            decreases s.len() - i,
        {
            if self.hand.cards[i] == *card {
                proof {
                    assert(s[i as int] == *card);
                    assert(s.contains(*card));
                    crate::card::lemma_index_of_card(s, *card);
                    let j = index_of_card(s, *card);
                    if j != i as int {
                        // two occurrences would contradict distinctness
                        assert(s[j] == s[i as int]);
                        assert(false);
                    }
                }
                self.hand.cards.remove(i);
                return Ok(());
            }
            i += 1;
        }
        Err(GameError::CardNotFound(*card, self.hand.cards.clone()))
    }

    /// Appends a completed trick to the won list. The trick must have the
    /// same size as every earlier one and a strictly larger index.
    pub fn add_trick(&mut self, trick: Trick) -> (r: Result<(), GameError>)
        ensures
            final(self).hand.cards@ == old(self).hand.cards@,
            final(self).tasks@ == old(self).tasks@,
            match r {
                Ok(()) => {
                    &&& old(self).tricks@.len() > 0 ==> {
                        &&& old(self).tricks@[0].cards@.len() == trick.cards@.len()
                        &&& old(self).tricks@.last().idx < trick.idx
                    }
                    &&& final(self).tricks@ == old(self).tricks@.push(trick)
                },
                Err(GameError::InvalidTrickSize(a, b)) => {
                    &&& old(self).tricks@.len() > 0
                    &&& a == old(self).tricks@[0].cards@.len()
                    &&& b == trick.cards@.len()
                    &&& a != b
                    &&& final(self).tricks@ == old(self).tricks@
                },
                Err(GameError::NonIncreasingTrickIdx) => {
                    &&& old(self).tricks@.len() > 0
                    &&& old(self).tricks@[0].cards@.len() == trick.cards@.len()
                    &&& old(self).tricks@.last().idx >= trick.idx
                    &&& final(self).tricks@ == old(self).tricks@
                },
                Err(_) => false,
            },
    {
        if self.tricks.len() > 0 {
            let expected = self.tricks[0].len();
            if expected != trick.len() {
                return Err(GameError::InvalidTrickSize(expected, trick.len()));
            }
            let last_idx = self.tricks[self.tricks.len() - 1].idx();
            if last_idx >= trick.idx() {
                return Err(GameError::NonIncreasingTrickIdx);
            }
        }
        self.tricks.push(trick);
        Ok(())
    }

    /// Assigns one more task to this player.
    pub fn add_task(&mut self, task: Task)
        ensures
            final(self).tasks@ == old(self).tasks@.push(task),
            final(self).hand.cards@ == old(self).hand.cards@,
            final(self).tricks@ == old(self).tricks@,
    {
        self.tasks.push(task);
    }

    /// True when this player holds, or has won, the highest trump card.
    pub fn is_captain(&self) -> (r: bool)
        ensures
            r == self.spec_is_captain(),
    {
        let target = Card::Trump(4);
        if self.hand.contains(&target) {
            return true;
        }
        let mut i: usize = 0;
        while i < self.tricks.len()
            invariant
                target == Card::Trump(4),
                i <= self.tricks@.len(),
                forall|k: int| 0 <= k < i ==> !(#[trigger] self.tricks@[k]).cards@.contains(
                    Card::Trump(4),
                ),
            decreases self.tricks@.len() - i,
        {
            if crate::card::contains_card(&self.tricks[i].cards, &target) {
                proof {
                    lemma_won_cards_contains(self.tricks@, Card::Trump(4));
                }
                return true;
            }
            i += 1;
        }
        proof {
            lemma_won_cards_contains(self.tricks@, Card::Trump(4));
        }
        false
    }

    /// Number of won cards of the given suit.
    pub fn count_won_suit(&self, suit: Suit) -> (r: usize)
        requires
            spec_won_cards(self.tricks@).len() <= NB_CARDS,
        ensures
            r == count_suit(self.won(), suit),
    {
        let ghost ts = self.tricks@;
        let mut i: usize = 0;
        let mut cnt: usize = 0;
        while i < self.tricks.len()
            invariant
                ts == self.tricks@,
                i <= ts.len(),
                spec_won_cards(ts).len() <= NB_CARDS,
                cnt == count_suit(spec_won_cards(ts.take(i as int)), suit),
                cnt <= spec_won_cards(ts.take(i as int)).len(),
                spec_won_cards(ts.take(i as int)).len() <= spec_won_cards(ts).len(),
            decreases ts.len() - i,
        {
            let c = crate::card::count_suit_in(&self.tricks[i].cards, suit);
            proof {
                assert(ts.take(i as int + 1).drop_last() =~= ts.take(i as int));
                assert(ts.take(i as int + 1).last() == ts[i as int]);
                lemma_won_cards_push(ts.take(i as int), ts[i as int]);
                assert(spec_won_cards(ts.take(i as int + 1)) == spec_won_cards(ts.take(i as int))
                    + ts[i as int].cards@);
                crate::card::lemma_count_suit_concat(
                    spec_won_cards(ts.take(i as int)),
                    ts[i as int].cards@,
                    suit,
                );
                lemma_won_cards_prefix_len(ts, i as int + 1);
                crate::card::lemma_count_suit_le_len(ts[i as int].cards@, suit);
            }
            cnt += c;
            i += 1;
        }
        proof {
            assert(ts.take(ts.len() as int) =~= ts);
        }
        cnt
    }

    /// Number of won non-trump cards of the given rank.
    pub fn count_won_val(&self, v: usize) -> (r: usize)
        requires
            spec_won_cards(self.tricks@).len() <= NB_CARDS,
        ensures
            r == count_val(self.won(), v),
    {
        let ghost ts = self.tricks@;
        let mut i: usize = 0;
        let mut cnt: usize = 0;
        while i < self.tricks.len()
            invariant
                ts == self.tricks@,
                i <= ts.len(),
                spec_won_cards(ts).len() <= NB_CARDS,
                cnt == count_val(spec_won_cards(ts.take(i as int)), v),
                cnt <= spec_won_cards(ts.take(i as int)).len(),
                spec_won_cards(ts.take(i as int)).len() <= spec_won_cards(ts).len(),
            decreases ts.len() - i,
        {
            let c = crate::card::count_val_in(&self.tricks[i].cards, v);
            proof {
                assert(ts.take(i as int + 1).drop_last() =~= ts.take(i as int));
                assert(ts.take(i as int + 1).last() == ts[i as int]);
                lemma_won_cards_push(ts.take(i as int), ts[i as int]);
                crate::card::lemma_count_val_concat(
                    spec_won_cards(ts.take(i as int)),
                    ts[i as int].cards@,
                    v,
                );
                lemma_won_cards_prefix_len(ts, i as int + 1);
                crate::card::lemma_count_val_le_len(ts[i as int].cards@, v);
            }
            cnt += c;
            i += 1;
        }
        proof {
            assert(ts.take(ts.len() as int) =~= ts);
        }
        cnt
    }

    /// True when some won trick holds the given card.
    pub fn has_won_card(&self, card: &Card) -> (r: bool)
        ensures
            r == self.won().contains(*card),
    {
        let mut i: usize = 0;
        while i < self.tricks.len()
            invariant
                i <= self.tricks@.len(),
                forall|k: int| 0 <= k < i ==> !(#[trigger] self.tricks@[k]).cards@.contains(*card),
            decreases self.tricks@.len() - i,
        {
            if crate::card::contains_card(&self.tricks[i].cards, card) {
                proof {
                    lemma_won_cards_contains(self.tricks@, *card);
                }
                return true;
            }
            i += 1;
        }
        proof {
            lemma_won_cards_contains(self.tricks@, *card);
        }
        false
    }
}

/// A prefix of the trick list yields a prefix-length bound on won cards.
pub proof fn lemma_won_cards_prefix_len(ts: Seq<Trick>, i: int)
    requires
        0 <= i <= ts.len(),
    ensures
        spec_won_cards(ts.take(i)).len() <= spec_won_cards(ts).len(),
    decreases ts.len() - i,
{
    if i == ts.len() {
        assert(ts.take(i) =~= ts);
    } else {
        lemma_won_cards_prefix_len(ts, i + 1);
        assert(ts.take(i + 1).drop_last() =~= ts.take(i));
        assert(ts.take(i + 1).last() == ts[i]);
        lemma_won_cards_push(ts.take(i), ts[i]);
    }
}


impl Player {
    /// The combined status of this player's tasks: Failed as soon as one
    /// task is Failed, Done once every task is Done, Unknown otherwise.
    pub open spec fn spec_tasks_status(&self, s: State, ip: int) -> TaskStatus {
        if exists|k: int|
            0 <= k < self.tasks@.len() && (#[trigger] self.tasks@[k]).spec_eval(s, ip)
                == TaskStatus::Failed {
            TaskStatus::Failed
        } else if forall|k: int|
            0 <= k < self.tasks@.len() ==> (#[trigger] self.tasks@[k]).spec_eval(s, ip)
                == TaskStatus::Done {
            TaskStatus::Done
        } else {
            TaskStatus::Unknown
        }
    }

    pub fn tasks_status(&self, ip: usize, state: &State) -> (r: TaskStatus)
        requires
            state.wf(),
            ip < state.players@.len(),
            forall|k: int| 0 <= k < self.tasks@.len() ==> (#[trigger] self.tasks@[k]).wf(),
        ensures
            r == self.spec_tasks_status(*state, ip as int),
    {
        let mut done = true;
        let mut k: usize = 0;
        while k < self.tasks.len()
            invariant
                state.wf(),
                ip < state.players@.len(),
                forall|l: int| 0 <= l < self.tasks@.len() ==> (#[trigger] self.tasks@[l]).wf(),
                k <= self.tasks@.len(),
                forall|l: int|
                    0 <= l < k ==> (#[trigger] self.tasks@[l]).spec_eval(*state, ip as int)
                        != TaskStatus::Failed,
                done == forall|l: int|
                    0 <= l < k ==> (#[trigger] self.tasks@[l]).spec_eval(*state, ip as int)
                        == TaskStatus::Done,
            decreases self.tasks@.len() - k,
        {
            match self.tasks[k].eval(state, ip) {
                TaskStatus::Failed => {
                    return TaskStatus::Failed;
                },
                TaskStatus::Unknown => {
                    done = false;
                },
                TaskStatus::Done => {},
            }
            k += 1;
        }
        if done {
            TaskStatus::Done
        } else {
            TaskStatus::Unknown
        }
    }
}

} // verus!
