//! Tricks: the ordered cards played in one round, and the rule that picks
//! the winner.

use vstd::prelude::*;

use crate::card::{cards_ok, Card};
use crate::state::GameError;

verus! {

/// One round of play: an index in the game's round order, the player who
/// led the round, and the cards in play order.
#[derive(Debug)]
pub struct Trick {
    pub idx: usize,
    pub first_player: usize,
    pub cards: Vec<Card>,
}

/// Two tricks agree in every observable field.
pub open spec fn trick_views_eq(a: Trick, b: Trick) -> bool {
    &&& b.idx == a.idx
    &&& b.first_player == a.first_player
    &&& b.cards@ == a.cards@
}

/// True when some card of the sequence is a trump card.
pub open spec fn has_trump(cards: Seq<Card>) -> bool {
    exists|i: int| 0 <= i < cards.len() && (#[trigger] cards[i]).spec_is_trump()
}

/// The card at position `k` wins the trick `cards`, relative to play order:
/// if any trump card is present, the highest-ranked trump wins regardless of
/// the led suit; otherwise the highest-ranked card matching the suit of the
/// first card played wins.
pub open spec fn rel_winner_ok(cards: Seq<Card>, k: int) -> bool {
    &&& 0 <= k < cards.len()
    &&& has_trump(cards) ==> {
        &&& cards[k].spec_is_trump()
        &&& forall|j: int|
            0 <= j < cards.len() && (#[trigger] cards[j]).spec_is_trump() && j != k
                ==> cards[j].spec_val() < cards[k].spec_val()
    }
    &&& !has_trump(cards) ==> {
        &&& cards[k].spec_suit() == cards[0].spec_suit()
        &&& forall|j: int|
            0 <= j < cards.len() && (#[trigger] cards[j]).spec_suit() == cards[0].spec_suit()
                && j != k ==> cards[j].spec_val() < cards[k].spec_val()
    }
}

/// The winning position of a trick, relative to play order.
pub open spec fn spec_rel_winner(cards: Seq<Card>) -> int {
    choose|k: int| rel_winner_ok(cards, k)
}

/// The absolute index of the player who wins a trick led by player `fp`.
pub open spec fn spec_winner(cards: Seq<Card>, fp: int) -> int {
    (spec_rel_winner(cards) + fp) % (cards.len() as int)
}

/// Two cards of the same suit and the same rank are the same card.
pub proof fn lemma_card_eq(a: Card, b: Card)
    requires
        a.spec_suit() == b.spec_suit(),
        a.spec_val() == b.spec_val(),
    ensures
        a == b,
{
}

/// In a well-formed trick, at most one position satisfies the winner rule.
pub proof fn lemma_rel_winner_unique(cards: Seq<Card>, k1: int, k2: int)
    requires
        rel_winner_ok(cards, k1),
        rel_winner_ok(cards, k2),
    ensures
        k1 == k2,
{
    if k1 != k2 {
        if has_trump(cards) {
            assert(cards[k1].spec_val() < cards[k2].spec_val());
            assert(cards[k2].spec_val() < cards[k1].spec_val());
        } else {
            assert(cards[k1].spec_val() < cards[k2].spec_val());
            assert(cards[k2].spec_val() < cards[k1].spec_val());
        }
    }
}

/// In a trick holding at least one trump card, the winning card is a trump
/// card that outranks every other trump in the trick, whatever suit led.
pub proof fn lemma_trump_trick_winner(cards: Seq<Card>, k: int)
    requires
        rel_winner_ok(cards, k),
        has_trump(cards),
    ensures
        cards[k].spec_is_trump(),
        forall|j: int|
            0 <= j < cards.len() && (#[trigger] cards[j]).spec_is_trump() && j != k
                ==> cards[j].spec_val() < cards[k].spec_val(),
{
}

/// In a trick with no trump card, the winning card matches the suit of the
/// first card played and outranks every other card of that suit; a card of
/// any other suit never wins.
pub proof fn lemma_no_trump_trick_winner(cards: Seq<Card>, k: int)
    requires
        rel_winner_ok(cards, k),
        !has_trump(cards),
    ensures
        cards[k].spec_suit() == cards[0].spec_suit(),
        forall|j: int|
            0 <= j < cards.len() && (#[trigger] cards[j]).spec_suit() == cards[0].spec_suit()
                && j != k ==> cards[j].spec_val() < cards[k].spec_val(),
{
}

impl Clone for Trick {
    fn clone(&self) -> (r: Trick)
        ensures
            trick_views_eq(*self, r),
    {
        Trick { idx: self.idx, first_player: self.first_player, cards: self.cards.clone() }
    }
}

impl Trick {
    /// The trick's cards are valid and pairwise distinct.
    pub open spec fn wf(&self) -> bool {
        cards_ok(self.cards@)
    }

    /// Builds a trick after checking that every card is valid and that no
    /// card appears twice.
    pub fn new(idx: usize, first_player: usize, cards: Vec<Card>) -> (r: Result<Trick, GameError>)
        ensures
            match r {
                Ok(t) => {
                    &&& cards_ok(cards@)
                    &&& t.idx == idx
                    &&& t.first_player == first_player
                    &&& t.cards@ == cards@
                },
                Err(GameError::InvalidCard(c)) => cards@.contains(c) && !c.spec_is_valid(),
                Err(GameError::DuplicateCard(c)) => exists|i: int, j: int|
                    #![trigger cards@[i], cards@[j]]
                    0 <= i < j < cards@.len() && cards@[i] == c && cards@[j] == c,
                Err(_) => false,
            },
            r is Ok <==> cards_ok(cards@),
    {
        if let Some(i) = crate::card::find_invalid(&cards) {
            let c = cards[i];
            assert(cards@.contains(c));
            return Err(GameError::InvalidCard(c));
        }
        if let Some((i, j)) = crate::card::find_duplicate(&cards) {
            return Err(GameError::DuplicateCard(cards[i]));
        }
        Ok(Trick { idx, first_player, cards })
    }

    /// The trick's position in the game's round order.
    pub fn idx(&self) -> (r: usize)
        ensures
            r == self.idx,
    {
        self.idx
    }

    /// Advances the trick index to the next round.
    pub fn incr(&mut self)
        requires
            old(self).idx < usize::MAX,
        ensures
            final(self).idx == old(self).idx + 1,
            final(self).first_player == old(self).first_player,
            final(self).cards@ == old(self).cards@,
    {
        self.idx += 1
    }

    /// The player who led this trick.
    pub fn get_first_player(&self) -> (r: usize)
        ensures
            r == self.first_player,
    {
        self.first_player
    }

    /// Changes which player leads this trick.
    pub fn set_first_player(&mut self, first_player: usize)
        ensures
            final(self).first_player == first_player,
            final(self).idx == old(self).idx,
            final(self).cards@ == old(self).cards@,
    {
        self.first_player = first_player;
    }

    /// Number of cards played into this trick so far.
    pub fn len(&self) -> (r: usize)
        ensures
            r == self.cards@.len(),
    {
        self.cards.len()
    }

    /// The absolute index of the player who wins this trick: the winning
    /// position by the trick rule, shifted by the leading player, modulo the
    /// number of cards (one card per player).
    pub fn winner(&self) -> (r: usize)
        requires
            self.wf(),
            self.cards@.len() > 0,
            self.first_player < self.cards@.len(),
        ensures
            r < self.cards@.len(),
            rel_winner_ok(
                self.cards@,
                (r + self.cards@.len() - self.first_player) as int % self.cards@.len() as int,
            ),
            r == spec_winner(self.cards@, self.first_player as int),
    {
        let n = self.cards.len();
        let ghost s = self.cards@;

        // Find whether a trump card is present, and if so where.
        let mut first_trump: Option<usize> = None;
        let mut i: usize = 0;
        while i < n
            invariant
                s == self.cards@,
                n == s.len(),
                i <= n,
                match first_trump {
                    Some(t) => t < n && s[t as int].spec_is_trump(),
                    None => forall|k: int| 0 <= k < i ==> !(#[trigger] s[k]).spec_is_trump(),
                },
            decreases n - i,
        {
            if first_trump.is_none() && self.cards[i].is_trump() {
                first_trump = Some(i);
            }
            i += 1;
        }

        let mut best: usize = 0;
        match first_trump {
            Some(t) => {
                assert(has_trump(s));
                best = t;
                let mut j: usize = 0;
                while j < n
                    invariant
                        s == self.cards@,
                        n == s.len(),
                        j <= n,
                        best < n,
                        s[best as int].spec_is_trump(),
                        forall|k: int|
                            0 <= k < j && (#[trigger] s[k]).spec_is_trump()
                                ==> s[k].spec_val() <= s[best as int].spec_val(),
                    decreases n - j,
                {
                    if self.cards[j].is_trump() && self.cards[j].val() > self.cards[best].val() {
                        best = j;
                    }
                    j += 1;
                }
                proof {
                    assert forall|k: int|
                        0 <= k < s.len() && (#[trigger] s[k]).spec_is_trump() && k != best
                            implies s[k].spec_val() < s[best as int].spec_val() by {
                        if s[k].spec_val() == s[best as int].spec_val() {
                            lemma_card_eq(s[k], s[best as int]);
                        }
                    }
                }
            },
            None => {
                assert(!has_trump(s));
                let first_card = self.cards[0];
                let mut j: usize = 0;
                while j < n
                    invariant
                        s == self.cards@,
                        n == s.len(),
                        0 < n,
                        j <= n,
                        best < n,
                        first_card == s[0],
                        s[best as int].spec_suit() == s[0].spec_suit(),
                        forall|k: int|
                            0 <= k < j && (#[trigger] s[k]).spec_suit() == s[0].spec_suit()
                                ==> s[k].spec_val() <= s[best as int].spec_val(),
                    decreases n - j,
                {
                    if self.cards[j].same_color(&first_card)
                        && self.cards[j].val() > self.cards[best].val() {
                        best = j;
                    }
                    j += 1;
                }
                proof {
                    assert forall|k: int|
                        0 <= k < s.len() && (#[trigger] s[k]).spec_suit() == s[0].spec_suit()
                            && k != best implies s[k].spec_val() < s[best as int].spec_val() by {
                        if s[k].spec_val() == s[best as int].spec_val() {
                            lemma_card_eq(s[k], s[best as int]);
                        }
                    }
                }
            },
        }
        assert(rel_winner_ok(s, best as int));

        // (best + first_player) % n, computed without overflow.
        let fp = self.first_player;
        let r = if best >= n - fp {
            best - (n - fp)
        } else {
            best + fp
        };
        proof {
            let ni = s.len() as int;
            let bi = best as int;
            let fpi = fp as int;
            if bi + fpi < ni {
                vstd::arithmetic::div_mod::lemma_fundamental_div_mod_converse(
                    bi + fpi, ni, 0, bi + fpi);
                vstd::arithmetic::div_mod::lemma_fundamental_div_mod_converse(bi + ni, ni, 1, bi);
            } else {
                vstd::arithmetic::div_mod::lemma_fundamental_div_mod_converse(
                    bi + fpi, ni, 1, bi + fpi - ni);
                vstd::arithmetic::div_mod::lemma_fundamental_div_mod_converse(bi, ni, 0, bi);
            }
            lemma_rel_winner_unique(s, best as int, spec_rel_winner(s));
        }
        r
    }
}

} // verus!
