//! Cards, fixed-size card sets and the deck.

use rand::seq::SliceRandom;
use vstd::prelude::*;

verus! {

/// Number of cards in a standard deck.
pub const NUM_CARDS: usize = 52;

/// Maximum number of cards a [`CardSet`] holds.
pub const CARD_SET_CAPACITY: usize = 5;

/// A playing card with rank (2-14, where 14 = Ace) and suit (0-3:
/// clubs, diamonds, hearts, spades).
///
/// Besides the 52 real cards, a card can only be the placeholder `(0, 0)`
/// that fills unused slots (and that `Card::default()` returns).
#[derive(Debug, Clone, Copy, PartialEq, Eq, Hash, Structural)]
pub struct Card {
    rank: u8,
    suit: u8,
}

/// The card that `Card::new(rank, suit)` would give, as a mathematical value.
pub closed spec fn card_of(rank: u8, suit: u8) -> Card {
    Card { rank, suit }
}

/// Character shown for a rank: `A K Q J T`, otherwise the digit `'0' + rank`.
pub open spec fn rank_char(rank: u8) -> char {
    if rank == 14 {
        'A'
    } else if rank == 13 {
        'K'
    } else if rank == 12 {
        'Q'
    } else if rank == 11 {
        'J'
    } else if rank == 10 {
        'T'
    } else {
        (48 + rank) as char
    }
}

/// Character shown for a suit: `c d h s`, `?` for anything else.
pub open spec fn suit_char(suit: u8) -> char {
    if suit == 0 {
        'c'
    } else if suit == 1 {
        'd'
    } else if suit == 2 {
        'h'
    } else if suit == 3 {
        's'
    } else {
        '?'
    }
}

/// The two-character text of a card, such as `As` or `Td`.
pub open spec fn card_text(c: Card) -> Seq<char> {
    seq![rank_char(c.spec_rank()), suit_char(c.spec_suit())]
}

/// The `i`-th card of a fresh deck: ranks ascend, and within a rank the suits do.
pub open spec fn deck_card(i: int) -> Card {
    card_of((2 + i / 4) as u8, (i % 4) as u8)
}

/// The 52 cards of a fresh deck, in order.
pub open spec fn full_deck() -> Seq<Card> {
    Seq::new(NUM_CARDS as nat, |i: int| deck_card(i))
}

/// Two cards are equal exactly when rank and suit are.
pub proof fn lemma_card_eq(a: Card, b: Card)
    ensures
        (a == b) <==> (a.spec_rank() == b.spec_rank() && a.spec_suit() == b.spec_suit()),
{
}

/// `card_of` builds the card with the given rank and suit.
pub proof fn lemma_card_of(rank: u8, suit: u8)
    ensures
        card_of(rank, suit).spec_rank() == rank,
        card_of(rank, suit).spec_suit() == suit,
{
}

/// A fresh deck holds 52 valid cards, no two alike.
pub proof fn lemma_full_deck_distinct()
    ensures
        full_deck().len() == NUM_CARDS,
        full_deck().no_duplicates(),
        forall|i: int| 0 <= i < NUM_CARDS ==> (#[trigger] full_deck()[i]).spec_is_valid(),
{
    assert forall|i: int, j: int|
        0 <= i < NUM_CARDS && 0 <= j < NUM_CARDS && i != j implies full_deck()[i]
        != full_deck()[j] by {
        assert(deck_card(i).spec_rank() == 2 + i / 4 && deck_card(i).spec_suit() == i % 4);
        assert(deck_card(j).spec_rank() == 2 + j / 4 && deck_card(j).spec_suit() == j % 4);
        assert(i == 4 * (i / 4) + i % 4 && j == 4 * (j / 4) + j % 4);
    }
    assert forall|i: int| 0 <= i < NUM_CARDS implies (#[trigger] full_deck()[i]).spec_is_valid() by {
        assert(deck_card(i).spec_rank() == 2 + i / 4 && deck_card(i).spec_suit() == i % 4);
    }
}

/// Reordering cards (the same multiset) keeps them free of duplicates.
pub proof fn lemma_permutation_keeps_distinct(a: Seq<Card>, b: Seq<Card>)
    requires
        a.to_multiset() == b.to_multiset(),
        a.no_duplicates(),
    ensures
        b.no_duplicates(),
{
    broadcast use vstd::multiset::group_multiset_axioms;

    a.lemma_multiset_has_no_duplicates();
    b.lemma_multiset_has_no_duplicates_conv();
}

/// Any arrangement of the 52 cards has 52 cards, no two alike.
pub proof fn lemma_full_deck_arrangement(s: Seq<Card>)
    requires
        s.to_multiset() == full_deck().to_multiset(),
    ensures
        s.len() == NUM_CARDS,
        s.no_duplicates(),
{
    lemma_full_deck_distinct();
    vstd::seq_lib::to_multiset_len(s);
    vstd::seq_lib::to_multiset_len(full_deck());
    lemma_permutation_keeps_distinct(full_deck(), s);
}

/// Consecutive deals from cards with no duplicates never share a card.
pub proof fn lemma_deals_disjoint(cards: Seq<Card>, p: int, q: int, r: int)
    requires
        cards.no_duplicates(),
        0 <= p <= q <= r <= cards.len(),
    ensures
        forall|c: Card|
            #[trigger] cards.subrange(p, q).contains(c) ==> !cards.subrange(q, r).contains(c),
{
    assert forall|c: Card| #[trigger] cards.subrange(p, q).contains(c) implies !cards.subrange(
        q,
        r,
    ).contains(c) by {
        let i = choose|i: int| 0 <= i < q - p && cards.subrange(p, q)[i] == c;
        if cards.subrange(q, r).contains(c) {
            let j = choose|j: int| 0 <= j < r - q && cards.subrange(q, r)[j] == c;
            assert(cards[p + i] == cards[q + j]);
        }
    }
}

impl Card {
    /// The rank of the card.
    pub closed spec fn spec_rank(self) -> u8 {
        self.rank
    }

    /// The suit of the card.
    pub closed spec fn spec_suit(self) -> u8 {
        self.suit
    }

    /// The values a card can take: a real card or the placeholder.
    /// Every card satisfies it.
    #[verifier::type_invariant]
    pub open spec fn wf(self) -> bool {
        ||| (2 <= self.spec_rank() <= 14 && self.spec_suit() < 4)
        ||| (self.spec_rank() == 0 && self.spec_suit() == 0)
    }

    /// A real card (rank 2-14, suit 0-3).
    pub open spec fn spec_is_valid(self) -> bool {
        2 <= self.spec_rank() <= 14 && self.spec_suit() < 4
    }

    /// Creates a new card; `None` if the rank is not in 2-14 or the suit not in 0-3.
    pub fn new(rank: u8, suit: u8) -> (res: Option<Self>)
        ensures
            res is Some <==> (2 <= rank <= 14 && suit < 4),
            res matches Some(c) ==> c == card_of(rank, suit) && c.wf(),
    {
        if 2 <= rank && rank <= 14 && suit < 4 {
            Some(Card { rank, suit })
        } else {
            None
        }
    }

    /// Returns the rank of the card (2-14, where 14 = Ace).
    pub fn rank(self) -> (r: u8)
        ensures
            r == self.spec_rank(),
    {
        self.rank
    }

    /// Returns the suit of the card (0-3: clubs, diamonds, hearts, spades).
    pub fn suit(self) -> (s: u8)
        ensures
            s == self.spec_suit(),
    {
        self.suit
    }

    /// Returns `true` for a real card (rank 2-14, suit 0-3).
    pub fn is_valid(self) -> (b: bool)
        ensures
            b == self.spec_is_valid(),
    {
        2 <= self.rank && self.rank <= 14 && self.suit < 4
    }

    /// The placeholder card that fills unused slots.
    pub(crate) fn placeholder() -> (c: Self)
        ensures
            c == card_of(0, 0),
            c.wf(),
    {
        Card { rank: 0, suit: 0 }
    }

    /// Returns all 52 cards in deck order (ranks ascending, then suits).
    pub fn all() -> (cards: Vec<Card>)
        ensures
            cards@ == full_deck(),
    {
        let mut cards: Vec<Card> = Vec::new();
        let mut rank: u8 = 2;
        while rank <= 14
            invariant
                2 <= rank <= 15,
                cards@.len() == 4 * (rank - 2),
                forall|i: int| 0 <= i < cards@.len() ==> #[trigger] cards@[i] == deck_card(i),
            decreases 15 - rank,
        {
            let mut suit: u8 = 0;
            while suit < 4
                invariant
                    2 <= rank <= 14,
                    suit <= 4,
                    cards@.len() == 4 * (rank - 2) + suit,
                    forall|i: int| 0 <= i < cards@.len() ==> #[trigger] cards@[i] == deck_card(i),
                decreases 4 - suit,
            {
                proof {
                    let i = cards@.len() as int;
                    assert(i / 4 == rank - 2 && i % 4 == suit) by (nonlinear_arith)
                        requires
                            i == 4 * (rank - 2) + suit,
                            suit < 4,
                            rank >= 2,
                    ;
                }
                cards.push(Card { rank, suit });
                suit = suit + 1;
            }
            rank = rank + 1;
        }
        assert(cards@ =~= full_deck());
        cards
    }

    /// Returns the two-character text of the card, such as `As` or `Td`.
    pub fn to_string(&self) -> (s: String)
        ensures
            s@ == card_text(*self),
    {
        proof {
            use_type_invariant(self);
        }
        let mut s = String::new();
        let r: &str = match self.rank {
            14 => "A",
            13 => "K",
            12 => "Q",
            11 => "J",
            10 => "T",
            0 => "0",
            1 => "1",
            2 => "2",
            3 => "3",
            4 => "4",
            5 => "5",
            6 => "6",
            7 => "7",
            8 => "8",
            _ => "9",
        };
        proof {
            reveal_strlit("A");
            reveal_strlit("K");
            reveal_strlit("Q");
            reveal_strlit("J");
            reveal_strlit("T");
            reveal_strlit("0");
            reveal_strlit("1");
            reveal_strlit("2");
            reveal_strlit("3");
            reveal_strlit("4");
            reveal_strlit("5");
            reveal_strlit("6");
            reveal_strlit("7");
            reveal_strlit("8");
            reveal_strlit("9");
        }
        s.append(r);
        let t: &str = match self.suit {
            0 => "c",
            1 => "d",
            2 => "h",
            3 => "s",
            _ => "?",
        };
        proof {
            reveal_strlit("c");
            reveal_strlit("d");
            reveal_strlit("h");
            reveal_strlit("s");
            reveal_strlit("?");
        }
        s.append(t);
        s
    }
}


impl Default for Card {
    /// The placeholder card `(0, 0)`, which is not a valid card.
    fn default() -> (c: Self)
        ensures
            c == card_of(0, 0),
    {
        Card { rank: 0, suit: 0 }
    }
}

/// A collection of up to five cards kept in order.
#[derive(Debug, Clone, Copy, Hash, PartialEq, Eq)]
pub struct CardSet {
    cards: [Card; 5],
    len: u8,
}

impl View for CardSet {
    type V = Seq<Card>;

    closed spec fn view(&self) -> Seq<Card> {
        self.cards@.take(self.len as int)
    }
}

impl CardSet {
    /// At most five cards; the unused slots hold the placeholder.
    #[verifier::type_invariant]
    spec fn set_inv(self) -> bool {
        &&& self.len <= 5
        &&& forall|i: int| self.len <= i < 5 ==> #[trigger] self.cards@[i] == card_of(0, 0)
    }

    /// Creates an empty card set.
    pub fn empty() -> (s: Self)
        ensures
            s@ == Seq::<Card>::empty(),
    {
        let p = Card::placeholder();
        let s = CardSet { cards: [p; 5], len: 0 };
        assert(s@ =~= Seq::<Card>::empty());
        s
    }

    /// Creates a card set from the first (at most five) cards of a slice.
    pub fn from_cards(cards: &[Card]) -> (s: Self)
        ensures
            s@ == cards@.take(if cards@.len() < 5 { cards@.len() as int } else { 5 }),
    {
        let p = Card::placeholder();
        let mut arr = [p; 5];
        let len: usize = if cards.len() < 5 { cards.len() } else { 5 };
        let mut i: usize = 0;
        while i < len
            invariant
                len <= 5,
                len <= cards@.len(),
                i <= len,
                forall|j: int| 0 <= j < i ==> #[trigger] arr@[j] == cards@[j],
                forall|j: int| i <= j < 5 ==> #[trigger] arr@[j] == card_of(0, 0),
            decreases len - i,
        {
            arr[i] = cards[i];
            i = i + 1;
        }
        let s = CardSet { cards: arr, len: len as u8 };
        assert(s@ =~= cards@.take(len as int));
        s
    }

    /// Returns the cards as a slice.
    pub fn as_slice(&self) -> (out: &[Card])
        ensures
            out@ == self@,
    {
        proof {
            use_type_invariant(self);
        }
        let all: &[Card] = self.cards.as_slice();
        let out = vstd::slice::slice_subrange(all, 0, self.len as usize);
        assert(out@ =~= self@);
        out
    }

    /// Returns the number of cards in the set.
    pub fn len(&self) -> (n: usize)
        ensures
            n == self@.len(),
            n <= CARD_SET_CAPACITY,
    {
        proof {
            use_type_invariant(self);
        }
        self.len as usize
    }

    /// Returns `true` if the set holds no cards.
    pub fn is_empty(&self) -> (b: bool)
        ensures
            b == (self@.len() == 0),
    {
        proof {
            use_type_invariant(self);
        }
        self.len == 0
    }

    /// Returns `true` if the set holds the given card.
    pub fn contains(&self, card: &Card) -> (b: bool)
        ensures
            b == self@.contains(*card),
    {
        proof {
            use_type_invariant(self);
        }
        let n = self.len as usize;
        let mut i: usize = 0;
        while i < n
            invariant
                n == self@.len(),
                n == self.len,
                n <= 5,
                self.cards@.len() == 5,
                i <= n,
                forall|j: int| 0 <= j < i ==> self@[j] != *card,
            decreases n - i,
        {
            assert(self@[i as int] == self.cards@[i as int]);
            if self.cards[i] == *card {
                return true;
            }
            i = i + 1;
        }
        false
    }
}

/// A 52-card deck that is dealt from the front.
#[derive(Debug)]
pub struct Deck {
    cards: Vec<Card>,
    pos: usize,
}

/// Shuffles the cards with the given random generator.
///
/// Calls `rand::seq::SliceRandom::shuffle` (a Fisher-Yates shuffle made of swaps).
/// Trusted: the result is a permutation of the input (the same multiset of cards).
/// Which permutation comes out depends on the generator and is left unsaid.
#[verifier::external_body]
fn shuffle_cards(cards: &mut Vec<Card>, rng: &mut rand::rngs::ThreadRng)
    ensures
        final(cards)@.to_multiset() == old(cards)@.to_multiset(),
{
    cards.shuffle(rng);
}

/// `rand::rngs::ThreadRng`, the thread-local random generator, carried opaquely.
#[verifier::external_type_specification]
#[verifier::external_body]
pub struct ExThreadRng(rand::rngs::ThreadRng);

impl Deck {
    /// The cards of the deck, in dealing order.
    pub closed spec fn spec_cards(&self) -> Seq<Card> {
        self.cards@
    }

    /// How many cards have been dealt.
    pub closed spec fn spec_pos(&self) -> nat {
        self.pos as nat
    }

    /// The cards that are still to be dealt.
    pub open spec fn remaining(&self) -> Seq<Card> {
        self.spec_cards().skip(self.spec_pos() as int)
    }

    /// The deck holds each of the 52 cards exactly once, in some order.
    pub open spec fn holds_full_deck(&self) -> bool {
        self.spec_cards().to_multiset() == full_deck().to_multiset()
    }

    /// The deck holds each of the 52 cards once, and the deal position never
    /// passes its end.
    #[verifier::type_invariant]
    spec fn deck_inv(self) -> bool {
        &&& self.pos <= self.cards@.len()
        &&& self.cards@.to_multiset() == full_deck().to_multiset()
    }

    /// Returns the number of cards still to be dealt.
    pub fn remaining_len(&self) -> (n: usize)
        ensures
            n == self.remaining().len(),
            self.spec_pos() <= self.spec_cards().len(),
            self.holds_full_deck(),
    {
        proof {
            use_type_invariant(self);
        }
        self.cards.len() - self.pos
    }

    /// Creates a new deck with all 52 cards in order.
    pub fn new() -> (d: Self)
        ensures
            d.spec_cards() == full_deck(),
            d.spec_cards().no_duplicates(),
            d.holds_full_deck(),
            d.spec_pos() == 0,
    {
        proof {
            lemma_full_deck_distinct();
        }
        Deck { cards: Card::all(), pos: 0 }
    }

    /// Shuffles the deck with the given generator and resets the deal position.
    pub fn shuffle(&mut self, rng: &mut rand::rngs::ThreadRng)
        ensures
            final(self).spec_cards().to_multiset() == old(self).spec_cards().to_multiset(),
            final(self).spec_cards().len() == old(self).spec_cards().len(),
            final(self).spec_cards().no_duplicates(),
            final(self).holds_full_deck(),
            final(self).spec_pos() == 0,
    {
        proof {
            use_type_invariant(&*self);
        }
        let mut cards = copy_cards(&self.cards);
        shuffle_cards(&mut cards, rng);
        proof {
            vstd::seq_lib::to_multiset_len(cards@);
            vstd::seq_lib::to_multiset_len(old(self).spec_cards());
            lemma_full_deck_arrangement(cards@);
        }
        *self = Deck { cards, pos: 0 };
    }

    /// Deals one card; `None` once the deck is exhausted.
    pub fn deal_one(&mut self) -> (c: Option<Card>)
        ensures
            final(self).spec_cards() == old(self).spec_cards(),
            final(self).holds_full_deck(),
            old(self).spec_pos() < old(self).spec_cards().len() ==> c == Some(
                old(self).spec_cards()[old(self).spec_pos() as int],
            ) && final(self).spec_pos() == old(self).spec_pos() + 1,
            old(self).spec_pos() >= old(self).spec_cards().len() ==> c is None
                && final(self).spec_pos() == old(self).spec_pos(),
    {
        proof {
            use_type_invariant(&*self);
        }
        if self.pos < self.cards.len() {
            let card = self.cards[self.pos];
            self.pos = self.pos + 1;
            Some(card)
        } else {
            None
        }
    }

    /// Deals `n` cards, or all that remain if fewer than `n` do.
    pub fn deal(&mut self, n: usize) -> (dealt: Vec<Card>)
        ensures
            final(self).spec_cards() == old(self).spec_cards(),
            final(self).holds_full_deck(),
            dealt@ == old(self).remaining().take(
                if n < old(self).remaining().len() { n as int } else { old(self).remaining().len() as int },
            ),
            final(self).spec_pos() == old(self).spec_pos() + dealt@.len(),
    {
        proof {
            use_type_invariant(&*self);
        }
        let pos = self.pos;
        let cards = &self.cards;
        let available = cards.len() - pos;
        let count = if n < available { n } else { available };
        let mut dealt: Vec<Card> = Vec::new();
        let mut i: usize = 0;
        while i < count
            invariant
                count <= available,
                available == cards@.len() - pos,
                pos + available == cards.len(),
                pos <= cards@.len(),
                i <= count,
                dealt@ =~= cards@.subrange(pos as int, pos + i),
            decreases count - i,
        {
            dealt.push(cards[pos + i]);
            i = i + 1;
        }
        self.pos = pos + count;
        dealt
    }
}

/// Copies the cards in order.
fn copy_cards(v: &Vec<Card>) -> (out: Vec<Card>)
    ensures
        out@ == v@,
{
    let mut out: Vec<Card> = Vec::new();
    let mut i: usize = 0;
    while i < v.len()
        invariant
            i <= v@.len(),
            out@ =~= v@.take(i as int),
        decreases v@.len() - i,
    {
        out.push(v[i]);
        i = i + 1;
    }
    assert(v@.take(v@.len() as int) =~= v@);
    out
}

impl Clone for Deck {
    /// A deck with the same cards in the same order and the same deal position.
    fn clone(&self) -> (d: Self)
        ensures
            d.spec_cards() == self.spec_cards(),
            d.spec_pos() == self.spec_pos(),
            d.holds_full_deck(),
    {
        proof {
            use_type_invariant(self);
        }
        Deck { cards: copy_cards(&self.cards), pos: self.pos }
    }
}

impl Default for Deck {
    /// A fresh, unshuffled deck.
    fn default() -> (d: Self)
        ensures
            d.spec_cards() == full_deck(),
            d.holds_full_deck(),
            d.spec_pos() == 0,
    {
        Self::new()
    }
}

} // verus!
