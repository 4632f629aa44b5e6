//! Hands: the unique cards a player still holds, and the follow-suit rule
//! that decides which of them may legally be played.

use vstd::prelude::*;

use crate::card::{cards_ok, Card, Suit};
use crate::state::GameError;

verus! {

/// The cards one player still holds. Cards are unique and only ever leave
/// the hand; a hand never gains cards after construction.
#[derive(Debug)]
pub struct Hand {
    pub cards: Vec<Card>,
}

/// True when the sequence holds at least one card of the given suit.
pub open spec fn has_card_of_suit(s: Seq<Card>, suit: Suit) -> bool {
    exists|i: int| 0 <= i < s.len() && (#[trigger] s[i]).spec_suit() == suit
}

/// The subsequence of cards of the given suit, in hand order.
pub open spec fn filter_suit(s: Seq<Card>, suit: Suit) -> Seq<Card>
    decreases s.len(),
{
    if s.len() == 0 {
        Seq::empty()
    } else {
        let rest = filter_suit(s.drop_last(), suit);
        if s.last().spec_suit() == suit {
            rest.push(s.last())
        } else {
            rest
        }
    }
}

/// The legal moves from a hand, given the card that led the trick: if no
/// card has been led, or the hand has no card matching the led suit, the
/// whole hand is legal; otherwise exactly the cards matching the led suit.
pub open spec fn spec_playable(cards: Seq<Card>, led: Option<Card>) -> Seq<Card> {
    match led {
        Some(fc) => if has_card_of_suit(cards, fc.spec_suit()) {
            filter_suit(cards, fc.spec_suit())
        } else {
            cards
        },
        None => cards,
    }
}

/// A card stands in the suit-filtered sequence exactly when it stands in the
/// original sequence and has the given suit.
pub proof fn lemma_filter_suit_contains(s: Seq<Card>, suit: Suit, c: Card)
    ensures
        filter_suit(s, suit).contains(c) <==> s.contains(c) && c.spec_suit() == suit,
    decreases s.len(),
{
    if s.len() == 0 {
    } else {
        lemma_filter_suit_contains(s.drop_last(), suit, c);
        assert(s.drop_last().contains(c) || s.last() == c ==> s.contains(c));
        if s.contains(c) {
            let i = choose|i: int| 0 <= i < s.len() && s[i] == c;
            if i < s.len() - 1 {
                assert(s.drop_last()[i] == c);
                assert(s.drop_last().contains(c));
            }
        }
        let rest = filter_suit(s.drop_last(), suit);
        if s.last().spec_suit() == suit {
            assert(filter_suit(s, suit) == rest.push(s.last()));
            assert(forall|x: Card| rest.push(s.last()).contains(x) <==> rest.contains(x)
                || x == s.last()) by {
                assert forall|x: Card| #[trigger] rest.push(s.last()).contains(x) implies
                    rest.contains(x) || x == s.last() by {
                    let j = choose|j: int| 0 <= j < rest.push(s.last()).len()
                        && rest.push(s.last())[j] == x;
                    if j < rest.len() {
                        assert(rest[j] == x);
                    }
                }
                assert forall|x: Card| rest.contains(x) || x == s.last() implies
                    #[trigger] rest.push(s.last()).contains(x) by {
                    if rest.contains(x) {
                        let j = choose|j: int| 0 <= j < rest.len() && rest[j] == x;
                        assert(rest.push(s.last())[j] == x);
                    } else {
                        assert(rest.push(s.last())[rest.len() as int] == x);
                    }
                }
            }
        }
    }
}

/// The winner rule for legal moves, stated for every card at once: when the
/// hand holds at least one card of the led suit, the legal-move set is
/// exactly the matching cards; otherwise it is the entire hand.
pub proof fn lemma_playable_cards_exact(cards: Seq<Card>, led: Option<Card>)
    ensures
        match led {
            Some(fc) => if has_card_of_suit(cards, fc.spec_suit()) {
                forall|c: Card| #[trigger] spec_playable(cards, led).contains(c)
                    <==> cards.contains(c) && c.spec_suit() == fc.spec_suit()
            } else {
                spec_playable(cards, led) == cards
            },
            None => spec_playable(cards, led) == cards,
        },
{
    if let Some(fc) = led {
        if has_card_of_suit(cards, fc.spec_suit()) {
            assert forall|c: Card| true implies (#[trigger] spec_playable(cards, led).contains(c)
                <==> cards.contains(c) && c.spec_suit() == fc.spec_suit()) by {
                lemma_filter_suit_contains(cards, fc.spec_suit(), c);
            }
        }
    }
}

/// Filtering by suit never lengthens a sequence.
pub proof fn lemma_filter_suit_len(s: Seq<Card>, suit: Suit)
    ensures
        filter_suit(s, suit).len() <= s.len(),
    decreases s.len(),
{
    if s.len() > 0 {
        lemma_filter_suit_len(s.drop_last(), suit);
    }
}

/// Every legal move comes from the hand, and there are never more legal
/// moves than cards held.
pub proof fn lemma_playable_subset(cards: Seq<Card>, led: Option<Card>)
    ensures
        spec_playable(cards, led).len() <= cards.len(),
        forall|k: int|
            0 <= k < spec_playable(cards, led).len() ==> cards.contains(
                #[trigger] spec_playable(cards, led)[k],
            ),
{
    let p = spec_playable(cards, led);
    match led {
        Some(fc) => {
            if has_card_of_suit(cards, fc.spec_suit()) {
                lemma_filter_suit_len(cards, fc.spec_suit());
                assert forall|k: int| 0 <= k < p.len() implies cards.contains(
                    #[trigger] p[k],
                ) by {
                    assert(p.contains(p[k]));
                    lemma_filter_suit_contains(cards, fc.spec_suit(), p[k]);
                }
            } else {
                assert forall|k: int| 0 <= k < p.len() implies cards.contains(
                    #[trigger] p[k],
                ) by {
                    assert(cards[k] == p[k]);
                }
            }
        },
        None => {
            assert forall|k: int| 0 <= k < p.len() implies cards.contains(#[trigger] p[k]) by {
                assert(cards[k] == p[k]);
            }
        },
    }
}

impl Clone for Hand {
    fn clone(&self) -> (r: Hand)
        ensures
            r.cards@ == self.cards@,
    {
        Hand { cards: self.cards.clone() }
    }
}

impl PartialEq for Hand {
    fn eq(&self, other: &Hand) -> (r: bool) {
        if self.cards.len() != other.cards.len() {
            return false;
        }
        let mut i: usize = 0;
        while i < self.cards.len()
            invariant
                self.cards@.len() == other.cards@.len(),
                i <= self.cards@.len(),
                forall|k: int| 0 <= k < i ==> self.cards@[k] == other.cards@[k],
            decreases self.cards@.len() - i,
        {
            if self.cards[i] != other.cards[i] {
                return false;
            }
            i += 1;
        }
        proof {
            assert(self.cards@ =~= other.cards@);
        }
        true
    }
}

impl vstd::std_specs::cmp::PartialEqSpecImpl for Hand {
    open spec fn obeys_eq_spec() -> bool {
        true
    }

    open spec fn eq_spec(&self, other: &Hand) -> bool {
        self.cards@ == other.cards@
    }
}

impl Eq for Hand {

}

impl Hand {
    /// The hand's cards are valid and pairwise distinct.
    pub open spec fn wf(&self) -> bool {
        cards_ok(self.cards@)
    }

    /// Builds a hand after checking that every card is valid and that no
    /// card appears twice.
    pub fn new(cards: Vec<Card>) -> (r: Result<Hand, GameError>)
        ensures
            match r {
                Ok(h) => cards_ok(cards@) && h.cards@ == cards@,
                Err(GameError::InvalidCard(c)) => cards@.contains(c) && !c.spec_is_valid(),
                Err(GameError::DuplicateCard(c)) => exists|i: int, j: int|
                    #![trigger cards@[i], cards@[j]]
                    0 <= i < j < cards@.len() && cards@[i] == c && cards@[j] == c,
                Err(_) => false,
            },
            r is Ok <==> cards_ok(cards@),
    {
        if let Some(i) = crate::card::find_invalid(&cards) {
            let c = cards[i];
            assert(cards@.contains(c));
            return Err(GameError::InvalidCard(c));
        }
        if let Some((i, j)) = crate::card::find_duplicate(&cards) {
            return Err(GameError::DuplicateCard(cards[i]));
        }
        Ok(Hand { cards })
    }

    /// Number of cards left in the hand.
    pub fn len(&self) -> (r: usize)
        ensures
            r == self.cards@.len(),
    {
        self.cards.len()
    }

    /// True when the hand still holds the given card.
    pub fn contains(&self, card: &Card) -> (r: bool)
        ensures
            r == self.cards@.contains(*card),
    {
        crate::card::contains_card(&self.cards, card)
    }

    /// The legal moves given the card that led the trick: the matching cards
    /// when the hand can follow suit, the whole hand otherwise.
    pub fn playable_cards(&self, first_card: Option<&Card>) -> (r: Vec<Card>)
        ensures
            r@ == spec_playable(
                self.cards@,
                match first_card {
                    Some(c) => Some(*c),
                    None => None,
                },
            ),
    {
        let ghost s = self.cards@;
        if let Some(fc) = first_card {
            // Can the hand follow suit?
            let mut can_follow = false;
            let mut i: usize = 0;
            while i < self.cards.len()
                invariant
                    s == self.cards@,
                    i <= s.len(),
                    can_follow == has_card_of_suit(s.take(i as int), fc.spec_suit()),
                decreases s.len() - i,
            {
                proof {
                    let pre = s.take(i as int);
                    let post = s.take(i as int + 1);
                    assert(forall|k: int| 0 <= k < pre.len() ==> post[k] == pre[k]);
                    assert(post[i as int] == s[i as int]);
                    assert(s[i as int].spec_suit() == fc.spec_suit()
                        ==> has_card_of_suit(post, fc.spec_suit()));
                    assert(has_card_of_suit(post, fc.spec_suit())
                        ==> has_card_of_suit(pre, fc.spec_suit())
                            || s[i as int].spec_suit() == fc.spec_suit());
                }
                if self.cards[i].same_color(fc) {
                    can_follow = true;
                }
                i += 1;
            }
            assert(s.take(s.len() as int) =~= s);

            if can_follow {
                let mut out: Vec<Card> = Vec::new();
                let mut i: usize = 0;
                while i < self.cards.len()
                    invariant
                        s == self.cards@,
                        i <= s.len(),
                        out@ == filter_suit(s.take(i as int), fc.spec_suit()),
                    decreases s.len() - i,
                {
                    proof {
                        let pre = s.take(i as int);
                        let post = s.take(i as int + 1);
                        assert(post.drop_last() =~= pre);
                        assert(post.last() == s[i as int]);
                    }
                    if self.cards[i].same_color(fc) {
                        out.push(self.cards[i]);
                    }
                    i += 1;
                }
                assert(s.take(s.len() as int) =~= s);
                out
            } else {
                self.cards.clone()
            }
        } else {
            self.cards.clone()
        }
    }
}

} // verus!
