//! Cards: four ordinary suits with ranks 1 to 9, and the trump suit with
//! ranks 1 to 4. Trump cards beat every ordinary card.

use vstd::prelude::*;

verus! {

/// Total number of cards in the reference deck: four suits of nine ranks
/// plus four trump cards.
pub const NB_CARDS: usize = 40;

/// Smallest rank of an ordinary suit.
pub const COLOR_MIN: usize = 1;
/// Largest rank of an ordinary suit.
pub const COLOR_MAX: usize = 9;
/// Smallest trump rank.
pub const TRUMP_MIN: usize = 1;
/// Largest trump rank.
pub const TRUMP_MAX: usize = 4;

/// A playing card, tagged by suit and carrying its rank.
#[derive(Debug, Clone, Copy, PartialEq, Eq, Structural, Hash)]
pub enum Card {
    Pink(usize),
    Green(usize),
    Blue(usize),
    Yellow(usize),
    Trump(usize),
}

/// The suit of a card, with the trump suit counting as its own color for
/// the follow-suit rule.
#[derive(Debug, Clone, Copy, PartialEq, Eq, Structural)]
pub enum Suit {
    Pink,
    Green,
    Blue,
    Yellow,
    Trump,
}

impl Card {
    /// Rank of the card, whatever its suit.
    pub open spec fn spec_val(&self) -> usize {
        match *self {
            Card::Pink(x) => x,
            Card::Green(x) => x,
            Card::Blue(x) => x,
            Card::Yellow(x) => x,
            Card::Trump(x) => x,
        }
    }

    /// Suit of the card.
    pub open spec fn spec_suit(&self) -> Suit {
        match *self {
            Card::Pink(_) => Suit::Pink,
            Card::Green(_) => Suit::Green,
            Card::Blue(_) => Suit::Blue,
            Card::Yellow(_) => Suit::Yellow,
            Card::Trump(_) => Suit::Trump,
        }
    }

    /// A card is valid when its rank lies in its suit's range: 1 to 9 for
    /// the ordinary suits, 1 to 4 for trump.
    pub open spec fn spec_is_valid(&self) -> bool {
        if self.spec_suit() == Suit::Trump {
            TRUMP_MIN <= self.spec_val() <= TRUMP_MAX
        } else {
            COLOR_MIN <= self.spec_val() <= COLOR_MAX
        }
    }

    #[verifier::when_used_as_spec(spec_is_valid)]
    pub fn is_valid(&self) -> (r: bool)
        ensures
            r == self.spec_is_valid(),
    {
        match *self {
            Card::Pink(x) | Card::Green(x) | Card::Blue(x) | Card::Yellow(x) => {
                COLOR_MIN <= x && x <= COLOR_MAX
            },
            Card::Trump(x) => TRUMP_MIN <= x && x <= TRUMP_MAX,
        }
    }

    #[verifier::when_used_as_spec(spec_val)]
    pub fn val(&self) -> (r: usize)
        ensures
            r == self.spec_val(),
    {
        match *self {
            Card::Pink(x) | Card::Green(x) | Card::Blue(x) | Card::Yellow(x) | Card::Trump(x) => x,
        }
    }

    pub open spec fn spec_is_trump(&self) -> bool {
        self.spec_suit() == Suit::Trump
    }

    #[verifier::when_used_as_spec(spec_is_trump)]
    pub fn is_trump(&self) -> (r: bool)
        ensures
            r == self.spec_is_trump(),
    {
        matches!(self, Card::Trump(_))
    }

    pub fn suit(&self) -> (r: Suit)
        ensures
            r == self.spec_suit(),
    {
        match *self {
            Card::Pink(_) => Suit::Pink,
            Card::Green(_) => Suit::Green,
            Card::Blue(_) => Suit::Blue,
            Card::Yellow(_) => Suit::Yellow,
            Card::Trump(_) => Suit::Trump,
        }
    }

    /// Two cards count as the same color exactly when they share a suit;
    /// trump is its own color for the follow-suit rule.
    pub open spec fn spec_same_color(&self, other: &Card) -> bool {
        self.spec_suit() == other.spec_suit()
    }

    #[verifier::when_used_as_spec(spec_same_color)]
    pub fn same_color(&self, other: &Card) -> (r: bool)
        ensures
            r == self.spec_same_color(other),
    {
        matches!(
            (self, other),
            (Card::Pink(_), Card::Pink(_))
                | (Card::Green(_), Card::Green(_))
                | (Card::Blue(_), Card::Blue(_))
                | (Card::Yellow(_), Card::Yellow(_))
                | (Card::Trump(_), Card::Trump(_))
        )
    }

    /// True when the card belongs to the given suit.
    pub fn has_suit(&self, s: Suit) -> (r: bool)
        ensures
            r == (self.spec_suit() == s),
    {
        self.suit() == s
    }
}


/// A sequence of cards is well formed when every card is valid and no card
/// appears twice.
pub open spec fn cards_ok(s: Seq<Card>) -> bool {
    &&& forall|i: int| 0 <= i < s.len() ==> (#[trigger] s[i]).spec_is_valid()
    &&& forall|i: int, j: int| #![trigger s[i], s[j]] 0 <= i < j < s.len() ==> s[i] != s[j]
}

/// Number of cards of the given suit in a sequence.
pub open spec fn count_suit(s: Seq<Card>, suit: Suit) -> nat
    decreases s.len(),
{
    if s.len() == 0 {
        0
    } else {
        count_suit(s.drop_last(), suit) + if s.last().spec_suit() == suit {
            1nat
        } else {
            0nat
        }
    }
}

/// Number of non-trump cards of the given rank in a sequence.
pub open spec fn count_val(s: Seq<Card>, v: usize) -> nat
    decreases s.len(),
{
    if s.len() == 0 {
        0
    } else {
        count_val(s.drop_last(), v) + if s.last().spec_val() == v && !s.last().spec_is_trump() {
            1nat
        } else {
            0nat
        }
    }
}

/// Index of the first invalid card, if any.
pub fn find_invalid(cards: &Vec<Card>) -> (r: Option<usize>)
    ensures
        match r {
            Some(i) => i < cards@.len() && !cards@[i as int].spec_is_valid(),
            None => forall|i: int| 0 <= i < cards@.len() ==> (#[trigger] cards@[i]).spec_is_valid(),
        },
{
    let mut i: usize = 0;
    while i < cards.len()
        invariant
            i <= cards@.len(),
            forall|k: int| 0 <= k < i ==> (#[trigger] cards@[k]).spec_is_valid(),
        decreases cards@.len() - i,
    {
        if !cards[i].is_valid() {
            return Some(i);
        }
        i += 1;
    }
    None
}

/// Indices of the first pair of equal cards, if any.
pub fn find_duplicate(cards: &Vec<Card>) -> (r: Option<(usize, usize)>)
    ensures
        match r {
            Some((i, j)) => i < j < cards@.len() && cards@[i as int] == cards@[j as int],
            None => forall|i: int, j: int| #![trigger cards@[i], cards@[j]]
                0 <= i < j < cards@.len() ==> cards@[i] != cards@[j],
        },
{
    let mut i: usize = 0;
    while i < cards.len()
        invariant
            i <= cards@.len(),
            forall|k: int, l: int| #![trigger cards@[k], cards@[l]] 0 <= k < l < cards@.len() && k < i ==> cards@[k] != cards@[l],
        decreases cards@.len() - i,
    {
        let mut j: usize = i + 1;
        while j < cards.len()
            invariant
                i < cards@.len(),
                i + 1 <= j <= cards@.len(),
                forall|l: int| i < l < j ==> cards@[i as int] != #[trigger] cards@[l],
            decreases cards@.len() - j,
        {
            if cards[i] == cards[j] {
                return Some((i, j));
            }
            j += 1;
        }
        i += 1;
    }
    None
}

/// True when the sequence holds the given card.
pub fn contains_card(cards: &Vec<Card>, card: &Card) -> (r: bool)
    ensures
        r == cards@.contains(*card),
{
    let mut i: usize = 0;
    while i < cards.len()
        invariant
            i <= cards@.len(),
            forall|k: int| 0 <= k < i ==> cards@[k] != *card,
        decreases cards@.len() - i,
    {
        if cards[i] == *card {
            assert(cards@[i as int] == *card);
            return true;
        }
        i += 1;
    }
    false
}

/// True when some card of the sequence also stands in `targets`.
pub fn contains_any(cards: &Vec<Card>, targets: &Vec<Card>) -> (r: bool)
    ensures
        r == exists|k: int| 0 <= k < cards@.len() && targets@.contains(#[trigger] cards@[k]),
{
    let mut i: usize = 0;
    while i < cards.len()
        invariant
            i <= cards@.len(),
            forall|k: int| 0 <= k < i ==> !targets@.contains(#[trigger] cards@[k]),
        decreases cards@.len() - i,
    {
        if contains_card(targets, &cards[i]) {
            assert(targets@.contains(cards@[i as int]));
            return true;
        }
        i += 1;
    }
    false
}

/// Number of cards of the given suit, as a loop over the vector.
pub fn count_suit_in(cards: &Vec<Card>, suit: Suit) -> (r: usize)
    ensures
        r == count_suit(cards@, suit),
{
    broadcast use vstd::seq_lib::group_seq_properties;

    let mut i: usize = 0;
    let mut cnt: usize = 0;
    while i < cards.len()
        invariant
            i <= cards@.len(),
            cnt == count_suit(cards@.take(i as int), suit),
            cnt <= i,
        decreases cards@.len() - i,
    {
        if cards[i].has_suit(suit) {
            cnt += 1;
        }
        proof {
            let pre = cards@.take(i as int);
            let post = cards@.take(i as int + 1);
            assert(post.drop_last() =~= pre);
            assert(post.last() == cards@[i as int]);
        }
        i += 1;
    }
    assert(cards@.take(cards@.len() as int) =~= cards@);
    cnt
}

/// Number of non-trump cards of the given rank, as a loop over the vector.
pub fn count_val_in(cards: &Vec<Card>, v: usize) -> (r: usize)
    ensures
        r == count_val(cards@, v),
{
    broadcast use vstd::seq_lib::group_seq_properties;

    let mut i: usize = 0;
    let mut cnt: usize = 0;
    while i < cards.len()
        invariant
            i <= cards@.len(),
            cnt == count_val(cards@.take(i as int), v),
            cnt <= i,
        decreases cards@.len() - i,
    {
        if cards[i].val() == v && !cards[i].is_trump() {
            cnt += 1;
        }
        proof {
            let pre = cards@.take(i as int);
            let post = cards@.take(i as int + 1);
            assert(post.drop_last() =~= pre);
            assert(post.last() == cards@[i as int]);
        }
        i += 1;
    }
    assert(cards@.take(cards@.len() as int) =~= cards@);
    cnt
}

/// Largest trump rank in the sequence, if the sequence holds a trump card.
pub fn max_trump_val(cards: &Vec<Card>) -> (r: Option<usize>)
    ensures
        match r {
            Some(m) => {
                &&& exists|k: int|
                    0 <= k < cards@.len() && (#[trigger] cards@[k]).spec_is_trump()
                        && cards@[k].spec_val() == m
                &&& forall|k: int|
                    0 <= k < cards@.len() && (#[trigger] cards@[k]).spec_is_trump()
                        ==> cards@[k].spec_val() <= m
            },
            None => forall|k: int| 0 <= k < cards@.len() ==> !(#[trigger] cards@[k]).spec_is_trump(),
        },
{
    let mut i: usize = 0;
    let mut best: Option<usize> = None;
    while i < cards.len()
        invariant
            i <= cards@.len(),
            match best {
                Some(m) => {
                    &&& exists|k: int|
                        0 <= k < i && (#[trigger] cards@[k]).spec_is_trump()
                            && cards@[k].spec_val() == m
                    &&& forall|k: int|
                        0 <= k < i && (#[trigger] cards@[k]).spec_is_trump()
                            ==> cards@[k].spec_val() <= m
                },
                None => forall|k: int| 0 <= k < i ==> !(#[trigger] cards@[k]).spec_is_trump(),
            },
        decreases cards@.len() - i,
    {
        if cards[i].is_trump() {
            let v = cards[i].val();
            best = match best {
                Some(m) => if v > m { Some(v) } else { Some(m) },
                None => Some(v),
            };
        }
        i += 1;
    }
    best
}


/// Position of a card in a sequence, when it occurs.
pub open spec fn index_of_card(s: Seq<Card>, c: Card) -> int {
    choose|i: int| 0 <= i < s.len() && s[i] == c
}

pub proof fn lemma_index_of_card(s: Seq<Card>, c: Card)
    requires
        s.contains(c),
    ensures
        0 <= index_of_card(s, c) < s.len(),
        s[index_of_card(s, c)] == c,
{
    assert(exists|i: int| 0 <= i < s.len() && s[i] == c);
}

/// Suit counts add up over concatenation.
pub proof fn lemma_count_suit_concat(a: Seq<Card>, b: Seq<Card>, suit: Suit)
    ensures
        count_suit(a + b, suit) == count_suit(a, suit) + count_suit(b, suit),
    decreases b.len(),
{
    if b.len() == 0 {
        assert(a + b =~= a);
    } else {
        lemma_count_suit_concat(a, b.drop_last(), suit);
        assert((a + b).drop_last() =~= a + b.drop_last());
        assert((a + b).last() == b.last());
    }
}

/// Rank counts add up over concatenation.
pub proof fn lemma_count_val_concat(a: Seq<Card>, b: Seq<Card>, v: usize)
    ensures
        count_val(a + b, v) == count_val(a, v) + count_val(b, v),
    decreases b.len(),
{
    if b.len() == 0 {
        assert(a + b =~= a);
    } else {
        lemma_count_val_concat(a, b.drop_last(), v);
        assert((a + b).drop_last() =~= a + b.drop_last());
        assert((a + b).last() == b.last());
    }
}

/// A distinct position in the deck for every valid card.
pub open spec fn card_code(c: Card) -> int {
    match c {
        Card::Pink(x) => x - 1,
        Card::Green(x) => 9 + x - 1,
        Card::Blue(x) => 18 + x - 1,
        Card::Yellow(x) => 27 + x - 1,
        Card::Trump(x) => 36 + x - 1,
    }
}

pub proof fn lemma_card_code_injective(a: Card, b: Card)
    requires
        a.spec_is_valid(),
        b.spec_is_valid(),
        card_code(a) == card_code(b),
    ensures
        a == b,
{
}

/// There are only forty valid cards, so a sequence of distinct valid cards
/// never holds more than forty.
pub proof fn lemma_cards_ok_len(s: Seq<Card>)
    requires
        cards_ok(s),
    ensures
        s.len() <= 40,
{
    let codes = s.map_values(|c: Card| card_code(c));
    assert(codes.no_duplicates()) by {
        assert forall|i: int, j: int|
            0 <= i < codes.len() && 0 <= j < codes.len() && i != j implies codes[i] != codes[j] by {
            if codes[i] == codes[j] {
                lemma_card_code_injective(s[i], s[j]);
            }
        }
    }
    codes.unique_seq_to_set();
    let range = vstd::set_lib::set_int_range(0, 40);
    vstd::set_lib::lemma_int_range(0, 40);
    assert(codes.to_set().subset_of(range)) by {
        assert forall|x: int| codes.to_set().contains(x) implies range.contains(x) by {
            let i = choose|i: int| 0 <= i < codes.len() && codes[i] == x;
            assert(s[i].spec_is_valid());
        }
    }
    vstd::set_lib::lemma_len_subset(codes.to_set(), range);
}


/// A suit count never exceeds the sequence length.
pub proof fn lemma_count_suit_le_len(s: Seq<Card>, suit: Suit)
    ensures
        count_suit(s, suit) <= s.len(),
    decreases s.len(),
{
    if s.len() > 0 {
        lemma_count_suit_le_len(s.drop_last(), suit);
    }
}

/// A rank count never exceeds the sequence length.
pub proof fn lemma_count_val_le_len(s: Seq<Card>, v: usize)
    ensures
        count_val(s, v) <= s.len(),
    decreases s.len(),
{
    if s.len() > 0 {
        lemma_count_val_le_len(s.drop_last(), v);
    }
}


/// Membership after a push: the old cards plus the new one.
pub proof fn lemma_contains_push(s: Seq<Card>, c: Card, x: Card)
    ensures
        s.push(x).contains(c) <==> s.contains(c) || c == x,
{
    if s.push(x).contains(c) {
        let k = choose|k: int| 0 <= k < s.push(x).len() && s.push(x)[k] == c;
        if k < s.len() {
            assert(s[k] == c);
        }
    }
    if s.contains(c) {
        let k = choose|k: int| 0 <= k < s.len() && s[k] == c;
        assert(s.push(x)[k] == c);
    }
    assert(s.push(x)[s.len() as int] == x);
}

/// Removing a card keeps a card sequence well formed.
pub proof fn lemma_cards_ok_remove(s: Seq<Card>, i: int)
    requires
        cards_ok(s),
        0 <= i < s.len(),
    ensures
        cards_ok(s.remove(i)),
{
    let r = s.remove(i);
    assert forall|k: int| 0 <= k < r.len() implies (#[trigger] r[k]).spec_is_valid() by {
        if k < i {
            assert(r[k] == s[k]);
        } else {
            assert(r[k] == s[k + 1]);
        }
    }
    assert forall|k: int, l: int| #![trigger r[k], r[l]] 0 <= k < l < r.len() implies r[k]
        != r[l] by {
        let k0 = if k < i { k } else { k + 1 };
        let l0 = if l < i { l } else { l + 1 };
        assert(r[k] == s[k0] && r[l] == s[l0]);
    }
}

/// A sequence with the same cards (as a multiset) as a well-formed one is
/// well formed itself.
pub proof fn lemma_cards_ok_multiset(a: Seq<Card>, b: Seq<Card>)
    requires
        cards_ok(a),
        a.to_multiset() == b.to_multiset(),
    ensures
        cards_ok(b),
{
    broadcast use vstd::seq_lib::group_to_multiset_ensures;

    assert(a.no_duplicates());
    a.lemma_multiset_has_no_duplicates();
    assert forall|i: int| 0 <= i < b.len() implies (#[trigger] b[i]).spec_is_valid() by {
        assert(b.contains(b[i]));
        assert(b.to_multiset().count(b[i]) > 0);
        assert(a.contains(b[i]));
        let j = choose|j: int| 0 <= j < a.len() && a[j] == b[i];
        assert(a[j].spec_is_valid());
    }
    assert(forall|x: Card| b.to_multiset().contains(x) ==> b.to_multiset().count(x) == 1);
    b.lemma_multiset_has_no_duplicates_conv();
    assert(b.no_duplicates());
}


/// Pushing a fresh valid card keeps a card sequence well formed.
pub proof fn lemma_cards_ok_push(s: Seq<Card>, c: Card)
    requires
        cards_ok(s),
        c.spec_is_valid(),
        !s.contains(c),
    ensures
        cards_ok(s.push(c)),
{
    let r = s.push(c);
    assert forall|k: int| 0 <= k < r.len() implies (#[trigger] r[k]).spec_is_valid() by {
        if k < s.len() {
            assert(r[k] == s[k]);
        }
    }
    assert forall|k: int, l: int| #![trigger r[k], r[l]] 0 <= k < l < r.len() implies r[k]
        != r[l] by {
        if l < s.len() {
            assert(r[k] == s[k] && r[l] == s[l]);
        } else {
            assert(r[l] == c && r[k] == s[k]);
            if r[k] == c {
                assert(s.contains(c));
            }
        }
    }
}

} // verus!
