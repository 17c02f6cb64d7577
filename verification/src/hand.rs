//! Poker hand evaluation (high card through royal flush).
//!
//! A hand is scored from the rank histogram of its cards: the category sits in
//! the top byte of the score and up to five tie-break values follow in 4-bit
//! slots, so comparing scores compares hands.

use vstd::prelude::*;

use crate::card::Card;

verus! {

// ---------------------------------------------------------------------------
// Counting
// ---------------------------------------------------------------------------

/// Number of cards of rank `r`.
pub open spec fn count_rank(cs: Seq<Card>, r: int) -> nat
    decreases cs.len(),
{
    if cs.len() == 0 {
        0
    } else {
        count_rank(cs.drop_last(), r) + if cs.last().spec_rank() == r { 1nat } else { 0nat }
    }
}

/// Number of cards of suit `s`.
pub open spec fn count_suit(cs: Seq<Card>, s: int) -> nat
    decreases cs.len(),
{
    if cs.len() == 0 {
        0
    } else {
        count_suit(cs.drop_last(), s) + if cs.last().spec_suit() == s { 1nat } else { 0nat }
    }
}

/// Number of cards of rank `r` and suit `s`.
pub open spec fn count_rank_suit(cs: Seq<Card>, r: int, s: int) -> nat
    decreases cs.len(),
{
    if cs.len() == 0 {
        0
    } else {
        count_rank_suit(cs.drop_last(), r, s) + if cs.last().spec_rank() == r
            && cs.last().spec_suit() == s {
            1nat
        } else {
            0nat
        }
    }
}

/// The rank histogram (ranks 0-14) of a set of cards.
pub open spec fn rank_counts(cs: Seq<Card>) -> Seq<u8> {
    Seq::new(15, |r: int| count_rank(cs, r) as u8)
}

/// The rank histogram of the cards of suit `s`.
pub open spec fn suit_rank_counts(cs: Seq<Card>, s: int) -> Seq<u8> {
    Seq::new(15, |r: int| count_rank_suit(cs, r, s) as u8)
}

/// The lowest suit held at least five times, or -1 if there is no flush.
pub open spec fn flush_suit_from(cs: Seq<Card>, s: int) -> int
    decreases 4 - s,
{
    if s >= 4 {
        -1
    } else if count_suit(cs, s) >= 5 {
        s
    } else {
        flush_suit_from(cs, s + 1)
    }
}

/// The suit of the flush, or -1 if no suit is held five times.
pub open spec fn flush_suit(cs: Seq<Card>) -> int {
    flush_suit_from(cs, 0)
}

// ---------------------------------------------------------------------------
// Features of a rank histogram
// ---------------------------------------------------------------------------

/// All five ranks `h-4 ..= h` are present.
pub open spec fn has_run(c: Seq<u8>, h: int) -> bool {
    c[h] > 0 && c[h - 1] > 0 && c[h - 2] > 0 && c[h - 3] > 0 && c[h - 4] > 0
}

/// The wheel A-2-3-4-5 is present.
pub open spec fn has_wheel(c: Seq<u8>) -> bool {
    c[14] > 0 && c[2] > 0 && c[3] > 0 && c[4] > 0 && c[5] > 0
}

/// The highest straight top at or below `h` (down to 5), the wheel's 5 after
/// that, or 0 when there is none.
pub open spec fn straight_from(c: Seq<u8>, h: int) -> int
    decreases h,
{
    if h < 5 {
        if has_wheel(c) {
            5
        } else {
            0
        }
    } else if has_run(c, h) {
        h
    } else {
        straight_from(c, h - 1)
    }
}

/// The top rank of the best straight, or 0 if there is no straight.
pub open spec fn straight_high(c: Seq<u8>) -> int {
    straight_from(c, 14)
}

/// The lowest rank at or above `r` held exactly `k` times, or -1.
pub open spec fn lowest_eq(c: Seq<u8>, k: u8, r: int) -> int
    decreases 15 - r,
{
    if r > 14 {
        -1
    } else if c[r] == k {
        r
    } else {
        lowest_eq(c, k, r + 1)
    }
}

/// The highest rank at or below `r` held exactly `k` times, or -1.
pub open spec fn highest_eq(c: Seq<u8>, k: u8, r: int) -> int
    decreases r + 1,
{
    if r < 0 {
        -1
    } else if c[r] == k {
        r
    } else {
        highest_eq(c, k, r - 1)
    }
}

/// The highest rank at or below `r`, other than `x`, held at least `k` times, or -1.
pub open spec fn highest_ge_except(c: Seq<u8>, k: u8, x: int, r: int) -> int
    decreases r + 1,
{
    if r < 0 {
        -1
    } else if c[r] >= k && r != x {
        r
    } else {
        highest_ge_except(c, k, x, r - 1)
    }
}

/// The `k` highest distinct ranks at or below `r` that are held and not excluded,
/// in descending order (fewer if there are not enough).
pub open spec fn top_distinct(c: Seq<u8>, excl: Seq<u8>, k: nat, r: int) -> Seq<u8>
    decreases r + 1,
{
    if k == 0 || r < 0 {
        seq![]
    } else if c[r] > 0 && !excl.contains(r as u8) {
        seq![r as u8] + top_distinct(c, excl, (k - 1) as nat, r - 1)
    } else {
        top_distinct(c, excl, k, r - 1)
    }
}

/// All held ranks at or below `r`, each repeated as often as it is held,
/// in descending order.
pub open spec fn desc_ranks(c: Seq<u8>, r: int) -> Seq<u8>
    decreases r + 1,
{
    if r < 0 {
        seq![]
    } else {
        Seq::new(c[r] as nat, |i: int| r as u8) + desc_ranks(c, r - 1)
    }
}

// ---------------------------------------------------------------------------
// Categories and scores
// ---------------------------------------------------------------------------

/// The weight of tie-break slot `i` (slot 0 is the most significant).
pub open spec fn slot_weight(i: int) -> int {
    if i == 0 {
        0x100000
    } else if i == 1 {
        0x10000
    } else if i == 2 {
        0x1000
    } else if i == 3 {
        0x100
    } else {
        0x10
    }
}

/// The sum of the slot weights from slot `i` on.
pub open spec fn weight_tail(i: int) -> int
    decreases 5 - i,
{
    if i >= 5 {
        0
    } else {
        slot_weight(i) + weight_tail(i + 1)
    }
}

/// The slot weights add up to `0x111110`.
pub proof fn lemma_weight_tail()
    ensures
        weight_tail(5) == 0,
        weight_tail(4) == 0x10,
        weight_tail(3) == 0x110,
        weight_tail(2) == 0x1110,
        weight_tail(1) == 0x11110,
        weight_tail(0) == 0x111110,
{
    assert(weight_tail(5) == 0);
    assert(weight_tail(4) == 0x10);
    assert(weight_tail(3) == 0x110);
    assert(weight_tail(2) == 0x1110);
    assert(weight_tail(1) == 0x11110);
}

/// The first `k` elements of `s` (all of `s` if it is shorter).
pub open spec fn prefix(s: Seq<u8>, k: int) -> Seq<u8> {
    if k < s.len() {
        s.take(k)
    } else {
        s
    }
}

/// The weighted sum of the tie-break values from slot `i` on.
pub open spec fn values_score(vals: Seq<u8>, i: int) -> int
    decreases 5 - i,
{
    if i >= 5 || i >= vals.len() {
        0
    } else {
        vals[i] * slot_weight(i) + values_score(vals, i + 1)
    }
}

/// The score of a category with its tie-break values.
pub open spec fn encode(category: int, vals: Seq<u8>) -> int {
    category * 0x1000000 + values_score(vals, 0)
}

/// The category (0 = high card ... 9 = royal flush) and the tie-break values of
/// a set of two to seven cards.
pub open spec fn hand_value(cs: Seq<Card>) -> (int, Seq<u8>) {
    let c = rank_counts(cs);
    let fs = flush_suit(cs);
    let fc = suit_rank_counts(cs, fs);
    let st = straight_high(c);
    let quad = lowest_eq(c, 4, 0);
    let trips = highest_ge_except(c, 3, -1, 14);
    let fh_pair = highest_ge_except(c, 2, trips, 14);
    let three = highest_eq(c, 3, 14);
    let pair_hi = highest_eq(c, 2, 14);
    let pair_lo = highest_eq(c, 2, pair_hi - 1);
    if cs.len() < 5 {
        (0, prefix(desc_ranks(c, 14), 5))
    } else if fs >= 0 && straight_high(fc) > 0 {
        if straight_high(fc) == 14 {
            (9, seq![14u8])
        } else {
            (8, seq![straight_high(fc) as u8])
        }
    } else if quad >= 0 {
        (7, seq![quad as u8] + top_distinct(c, seq![quad as u8], 1, 14))
    } else if trips >= 0 && fh_pair >= 0 {
        (6, seq![trips as u8, fh_pair as u8])
    } else if fs >= 0 {
        (5, prefix(desc_ranks(fc, 14), 5))
    } else if st > 0 {
        (4, seq![st as u8])
    } else if three >= 0 {
        (3, seq![three as u8] + top_distinct(c, seq![three as u8], 2, 14))
    } else if pair_hi >= 0 && pair_lo >= 0 {
        (2, seq![pair_hi as u8, pair_lo as u8] + top_distinct(
            c,
            seq![pair_hi as u8, pair_lo as u8],
            1,
            14,
        ))
    } else if pair_hi >= 0 {
        (1, seq![pair_hi as u8] + top_distinct(c, seq![pair_hi as u8], 3, 14))
    } else {
        (0, prefix(desc_ranks(c, 14), 5))
    }
}

/// The score of a set of cards.
pub open spec fn hand_score(cs: Seq<Card>) -> int {
    encode(hand_value(cs).0, hand_value(cs).1)
}

/// The cards a hand is made of: the two hole cards and at most five board cards.
pub open spec fn hand_cards(hole: Seq<Card>, board: Seq<Card>) -> Seq<Card> {
    hole + board.take(if board.len() < 5 { board.len() as int } else { 5 })
}


// ---------------------------------------------------------------------------
// Lemmas on the histogram features
// ---------------------------------------------------------------------------

/// No rank is counted more often than there are cards.
pub proof fn lemma_count_rank_le(cs: Seq<Card>, r: int)
    ensures
        count_rank(cs, r) <= cs.len(),
    decreases cs.len(),
{
    if cs.len() > 0 {
        lemma_count_rank_le(cs.drop_last(), r);
    }
}

/// No suit is counted more often than there are cards.
pub proof fn lemma_count_suit_le(cs: Seq<Card>, s: int)
    ensures
        count_suit(cs, s) <= cs.len(),
    decreases cs.len(),
{
    if cs.len() > 0 {
        lemma_count_suit_le(cs.drop_last(), s);
    }
}

/// No (rank, suit) pair is counted more often than there are cards.
pub proof fn lemma_count_rank_suit_le(cs: Seq<Card>, r: int, s: int)
    ensures
        count_rank_suit(cs, r, s) <= cs.len(),
    decreases cs.len(),
{
    if cs.len() > 0 {
        lemma_count_rank_suit_le(cs.drop_last(), r, s);
    }
}

/// `top_distinct` yields at most `k` ranks, each at most `r`.
pub proof fn lemma_top_distinct_bounds(c: Seq<u8>, excl: Seq<u8>, k: nat, r: int)
    requires
        r <= 14,
    ensures
        top_distinct(c, excl, k, r).len() <= k,
        forall|i: int|
            0 <= i < top_distinct(c, excl, k, r).len() ==> #[trigger] top_distinct(
                c,
                excl,
                k,
                r,
            )[i] <= 14,
    decreases r + 1,
{
    if k == 0 || r < 0 {
    } else if c[r] > 0 && !excl.contains(r as u8) {
        lemma_top_distinct_bounds(c, excl, (k - 1) as nat, r - 1);
        let t = top_distinct(c, excl, (k - 1) as nat, r - 1);
        assert forall|i: int| 0 <= i < (seq![r as u8] + t).len() implies #[trigger] (seq![
            r as u8,
        ] + t)[i] <= 14 by {
            if i > 0 {
                assert((seq![r as u8] + t)[i] == t[i - 1]);
            }
        }
    } else {
        lemma_top_distinct_bounds(c, excl, k, r - 1);
    }
}

/// `desc_ranks` yields ranks of at most `r`.
pub proof fn lemma_desc_ranks_bounds(c: Seq<u8>, r: int)
    requires
        r <= 14,
    ensures
        forall|i: int| 0 <= i < desc_ranks(c, r).len() ==> #[trigger] desc_ranks(c, r)[i] <= 14,
    decreases r + 1,
{
    if r >= 0 {
        lemma_desc_ranks_bounds(c, r - 1);
        let h = Seq::new(c[r] as nat, |i: int| r as u8);
        let t = desc_ranks(c, r - 1);
        assert forall|i: int| 0 <= i < (h + t).len() implies #[trigger] (h + t)[i] <= 14 by {
            if i >= h.len() {
                assert((h + t)[i] == t[i - h.len()]);
            }
        }
    }
}

// ---------------------------------------------------------------------------
// Executable evaluation
// ---------------------------------------------------------------------------

/// An evaluated poker hand with a comparable score.
#[derive(Debug, Clone, Copy, PartialEq, Eq, PartialOrd, Ord, Hash)]
pub struct Hand {
    rank: u32,
}

/// The type (category) of a poker hand.
#[derive(Debug, Clone, Copy, PartialEq, Eq, PartialOrd, Ord, Hash, Structural)]
pub enum HandType {
    /// High card only.
    HighCard,
    /// One pair.
    Pair,
    /// Two pairs.
    TwoPair,
    /// Three of a kind.
    ThreeOfAKind,
    /// Straight (five consecutive ranks).
    Straight,
    /// Flush (five cards of one suit).
    Flush,
    /// Full house (three of a kind and a pair).
    FullHouse,
    /// Four of a kind.
    FourOfAKind,
    /// Straight flush.
    StraightFlush,
    /// Royal flush (A-K-Q-J-T of one suit).
    RoyalFlush,
}

/// The hand type that a category number stands for (numbers above 9 read as high card).
pub open spec fn hand_type_of(category: int) -> HandType {
    if category == 1 {
        HandType::Pair
    } else if category == 2 {
        HandType::TwoPair
    } else if category == 3 {
        HandType::ThreeOfAKind
    } else if category == 4 {
        HandType::Straight
    } else if category == 5 {
        HandType::Flush
    } else if category == 6 {
        HandType::FullHouse
    } else if category == 7 {
        HandType::FourOfAKind
    } else if category == 8 {
        HandType::StraightFlush
    } else if category == 9 {
        HandType::RoyalFlush
    } else {
        HandType::HighCard
    }
}

/// Counts the cards of each rank.
fn count_ranks(cards: &Vec<Card>) -> (counts: [u8; 15])
    requires
        cards@.len() <= 7,
    ensures
        counts@ == rank_counts(cards@),
        forall|r: int| 0 <= r < 15 ==> counts@[r] <= 7,
{
    let mut counts = [0u8; 15];
    let mut i: usize = 0;
    while i < cards.len()
        invariant
            i <= cards@.len() <= 7,
            forall|r: int| 0 <= r < 15 ==> #[trigger] counts@[r] == count_rank(cards@.take(i as int), r),
        decreases cards@.len() - i,
    {
        let c = cards[i];
        proof {
            use_type_invariant(&c);
            assert(cards@.take(i + 1).drop_last() =~= cards@.take(i as int));
            assert forall|r: int| 0 <= r < 15 implies count_rank(cards@.take(i as int), r) <= i by {
                lemma_count_rank_le(cards@.take(i as int), r);
            }
        }
        let r = c.rank() as usize;
        counts[r] = counts[r] + 1;
        i = i + 1;
    }
    proof {
        assert(cards@.take(cards@.len() as int) =~= cards@);
        assert forall|r: int| 0 <= r < 15 implies counts@[r] <= 7 by {
            lemma_count_rank_le(cards@, r);
        }
    }
    assert(counts@ =~= rank_counts(cards@));
    counts
}

/// Counts the cards of each rank within suit `suit`.
fn count_suit_ranks(cards: &Vec<Card>, suit: u8) -> (counts: [u8; 15])
    requires
        cards@.len() <= 7,
    ensures
        counts@ == suit_rank_counts(cards@, suit as int),
        forall|r: int| 0 <= r < 15 ==> counts@[r] <= 7,
{
    let mut counts = [0u8; 15];
    let mut i: usize = 0;
    while i < cards.len()
        invariant
            i <= cards@.len() <= 7,
            forall|r: int|
                0 <= r < 15 ==> #[trigger] counts@[r] == count_rank_suit(
                    cards@.take(i as int),
                    r,
                    suit as int,
                ),
        decreases cards@.len() - i,
    {
        let c = cards[i];
        proof {
            use_type_invariant(&c);
            assert(cards@.take(i + 1).drop_last() =~= cards@.take(i as int));
            assert forall|r: int|
                0 <= r < 15 implies count_rank_suit(cards@.take(i as int), r, suit as int) <= i by {
                lemma_count_rank_suit_le(cards@.take(i as int), r, suit as int);
            }
        }
        if c.suit() == suit {
            let r = c.rank() as usize;
            counts[r] = counts[r] + 1;
        }
        i = i + 1;
    }
    proof {
        assert(cards@.take(cards@.len() as int) =~= cards@);
    }
    proof {
        assert forall|r: int| 0 <= r < 15 implies counts@[r] <= 7 by {
            lemma_count_rank_suit_le(cards@, r, suit as int);
        }
    }
    assert(counts@ =~= suit_rank_counts(cards@, suit as int));
    counts
}

/// Finds the suit held at least five times, if any (the lowest such suit).
fn find_flush(cards: &Vec<Card>) -> (suit: Option<u8>)
    requires
        cards@.len() <= 7,
    ensures
        match suit {
            Some(s) => s as int == flush_suit(cards@) && s < 4,
            None => flush_suit(cards@) == -1,
        },
{
    let mut suit_counts = [0u8; 4];
    let mut i: usize = 0;
    while i < cards.len()
        invariant
            i <= cards@.len() <= 7,
            forall|s: int| 0 <= s < 4 ==> #[trigger] suit_counts@[s] == count_suit(cards@.take(i as int), s),
        decreases cards@.len() - i,
    {
        let c = cards[i];
        proof {
            use_type_invariant(&c);
            assert(cards@.take(i + 1).drop_last() =~= cards@.take(i as int));
            assert forall|s: int| 0 <= s < 4 implies count_suit(cards@.take(i as int), s) <= i by {
                lemma_count_suit_le(cards@.take(i as int), s);
            }
        }
        let s = c.suit() as usize;
        suit_counts[s] = suit_counts[s] + 1;
        i = i + 1;
    }
    proof {
        assert(cards@.take(cards@.len() as int) =~= cards@);
    }
    let mut s: usize = 0;
    while s < 4
        invariant
            s <= 4,
            forall|t: int| 0 <= t < 4 ==> #[trigger] suit_counts@[t] == count_suit(cards@, t),
            flush_suit_from(cards@, 0) == flush_suit_from(cards@, s as int),
        decreases 4 - s,
    {
        if suit_counts[s] >= 5 {
            return Some(s as u8);
        }
        s = s + 1;
    }
    None
}

/// Finds the top rank of the best straight (the wheel counts as 5-high).
fn find_straight(counts: &[u8; 15]) -> (high: Option<u8>)
    ensures
        match high {
            Some(h) => h as int == straight_high(counts@) && h > 0,
            None => straight_high(counts@) == 0,
        },
{
    let mut high: usize = 14;
    while high >= 5
        invariant
            4 <= high <= 14,
            straight_from(counts@, 14) == straight_from(counts@, high as int),
        decreases high,
    {
        if counts[high] > 0 && counts[high - 1] > 0 && counts[high - 2] > 0 && counts[high - 3] > 0
            && counts[high - 4] > 0 {
            return Some(high as u8);
        }
        high = high - 1;
    }
    if counts[14] > 0 && counts[2] > 0 && counts[3] > 0 && counts[4] > 0 && counts[5] > 0 {
        Some(5)
    } else {
        None
    }
}

/// The flush cards (given by their rank histogram) hold a straight.
fn is_straight_flush(flush_counts: &[u8; 15]) -> (b: bool)
    ensures
        b == (straight_high(flush_counts@) > 0),
{
    match find_straight(flush_counts) {
        Some(_) => true,
        None => false,
    }
}

/// Finds the lowest rank held exactly four times.
fn find_four_of_a_kind(counts: &[u8; 15]) -> (rank: Option<u8>)
    ensures
        match rank {
            Some(r) => r as int == lowest_eq(counts@, 4, 0) && r <= 14,
            None => lowest_eq(counts@, 4, 0) == -1,
        },
{
    let mut r: usize = 0;
    while r < 15
        invariant
            r <= 15,
            lowest_eq(counts@, 4, 0) == lowest_eq(counts@, 4, r as int),
        decreases 15 - r,
    {
        if counts[r] == 4 {
            return Some(r as u8);
        }
        r = r + 1;
    }
    None
}

/// Finds the highest rank at or below `from` held exactly `k` times.
fn find_highest_eq(counts: &[u8; 15], k: u8, from: usize) -> (rank: Option<u8>)
    requires
        from <= 14,
    ensures
        match rank {
            Some(r) => r as int == highest_eq(counts@, k, from as int) && r <= from,
            None => highest_eq(counts@, k, from as int) == -1,
        },
{
    let mut next: usize = from + 1;
    while next > 0
        invariant
            next <= from + 1,
            from <= 14,
            highest_eq(counts@, k, from as int) == highest_eq(counts@, k, next - 1),
        decreases next,
    {
        let r = next - 1;
        if counts[r] == k {
            return Some(r as u8);
        }
        next = r;
    }
    None
}

/// Finds the highest rank other than `except`, held at least `k` times.
fn find_highest_ge_except(counts: &[u8; 15], k: u8, except: Option<u8>) -> (rank: Option<u8>)
    ensures
        ({
            let x = match except {
                Some(e) => e as int,
                None => -1,
            };
            match rank {
                Some(r) => r as int == highest_ge_except(counts@, k, x, 14) && r <= 14,
                None => highest_ge_except(counts@, k, x, 14) == -1,
            }
        }),
{
    let ghost x = match except {
        Some(e) => e as int,
        None => -1,
    };
    let mut next: usize = 15;
    while next > 0
        invariant
            next <= 15,
            highest_ge_except(counts@, k, x, 14) == highest_ge_except(counts@, k, x, next - 1),
            x == match except {
                Some(e) => e as int,
                None => -1,
            },
        decreases next,
    {
        let r = next - 1;
        let excluded = match except {
            Some(e) => e as usize == r,
            None => false,
        };
        if counts[r] >= k && !excluded {
            return Some(r as u8);
        }
        next = r;
    }
    None
}

/// Finds three of a kind (the highest rank held exactly three times).
fn find_three_of_a_kind(counts: &[u8; 15]) -> (rank: Option<u8>)
    ensures
        match rank {
            Some(r) => r as int == highest_eq(counts@, 3, 14) && r <= 14,
            None => highest_eq(counts@, 3, 14) == -1,
        },
{
    find_highest_eq(counts, 3, 14)
}

/// Finds the highest pair.
fn find_pair(counts: &[u8; 15]) -> (rank: Option<u8>)
    ensures
        match rank {
            Some(r) => r as int == highest_eq(counts@, 2, 14) && r <= 14,
            None => highest_eq(counts@, 2, 14) == -1,
        },
{
    find_highest_eq(counts, 2, 14)
}

/// Finds the two highest pairs.
fn find_two_pair(counts: &[u8; 15]) -> (pairs: Option<(u8, u8)>)
    ensures
        ({
            let hi = highest_eq(counts@, 2, 14);
            let lo = highest_eq(counts@, 2, hi - 1);
            match pairs {
                Some((a, b)) => a as int == hi && b as int == lo && a <= 14 && b <= 14,
                None => hi == -1 || lo == -1,
            }
        }),
{
    match find_highest_eq(counts, 2, 14) {
        None => None,
        Some(first) => {
            if first == 0 {
                assert(highest_eq(counts@, 2, -1) == -1);
                None
            } else {
                match find_highest_eq(counts, 2, (first - 1) as usize) {
                    None => None,
                    Some(second) => Some((first, second)),
                }
            }
        },
    }
}

/// Finds a full house: the highest rank held three or more times and the
/// highest other rank held twice or more.
fn find_full_house(counts: &[u8; 15]) -> (fh: Option<(u8, u8)>)
    ensures
        ({
            let t = highest_ge_except(counts@, 3, -1, 14);
            let p = highest_ge_except(counts@, 2, t, 14);
            match fh {
                Some((a, b)) => a as int == t && b as int == p && a <= 14 && b <= 14,
                None => t == -1 || p == -1,
            }
        }),
{
    match find_highest_ge_except(counts, 3, None) {
        None => None,
        Some(trips) => match find_highest_ge_except(counts, 2, Some(trips)) {
            None => None,
            Some(pair) => Some((trips, pair)),
        },
    }
}

/// The highest held rank that is not excluded, or 0 if there is none.
fn best_kicker(counts: &[u8; 15], excluded: &[u8]) -> (kicker: u8)
    ensures
        top_distinct(counts@, excluded@, 1, 14).len() == 1 ==> kicker == top_distinct(
            counts@,
            excluded@,
            1,
            14,
        )[0],
        top_distinct(counts@, excluded@, 1, 14).len() == 0 ==> kicker == 0,
{
    let ks = best_kickers_fixed(counts, excluded, 1);
    proof {
        lemma_top_distinct_bounds(counts@, excluded@, 1, 14);
    }
    if ks.len() == 1 {
        ks[0]
    } else {
        0
    }
}

/// The `k` highest distinct held ranks that are not excluded, in descending order.
fn best_kickers_fixed(counts: &[u8; 15], excluded: &[u8], k: usize) -> (kickers: Vec<u8>)
    requires
        k <= 5,
    ensures
        kickers@ == top_distinct(counts@, excluded@, k as nat, 14),
{
    let mut kickers: Vec<u8> = Vec::new();
    let mut next: usize = 15;
    while next > 0
        invariant
            next <= 15,
            kickers@.len() <= k <= 5,
            kickers@ + top_distinct(counts@, excluded@, (k - kickers@.len()) as nat, next - 1)
                == top_distinct(counts@, excluded@, k as nat, 14),
        decreases next,
    {
        if kickers.len() == k {
            assert(top_distinct(counts@, excluded@, 0, next - 1) =~= seq![]);
            assert(kickers@ + seq![] =~= kickers@);
            return kickers;
        }
        let r = next - 1;
        let mut excl = false;
        let mut j: usize = 0;
        while j < excluded.len()
            invariant
                j <= excluded@.len(),
                r < 15,
                excl == exists|m: int| 0 <= m < j && excluded@[m] == r as u8,
            decreases excluded@.len() - j,
        {
            if excluded[j] == r as u8 {
                excl = true;
            }
            j = j + 1;
        }
        assert(excl == excluded@.contains(r as u8));
        let ghost before = kickers@;
        if counts[r] > 0 && !excl {
            kickers.push(r as u8);
            assert(before + (seq![r as u8] + top_distinct(
                counts@,
                excluded@,
                (k - before.len() - 1) as nat,
                r - 1,
            )) =~= kickers@ + top_distinct(
                counts@,
                excluded@,
                (k - kickers@.len()) as nat,
                r - 1,
            ));
        }
        next = r;
    }
    assert(top_distinct(counts@, excluded@, (k - kickers@.len()) as nat, -1) =~= seq![]);
    assert(kickers@ + seq![] =~= kickers@);
    kickers
}

/// The `k` highest ranks held, repeated as often as they are held, in descending order.
fn top_ranks(counts: &[u8; 15], k: usize) -> (ranks: Vec<u8>)
    requires
        forall|r: int| 0 <= r < 15 ==> counts@[r] <= 7,
    ensures
        ranks@ == prefix(desc_ranks(counts@, 14), k as int),
        ranks@.len() <= k,
{
    let mut all: Vec<u8> = Vec::new();
    let mut next: usize = 15;
    while next > 0
        invariant
            next <= 15,
            forall|r: int| 0 <= r < 15 ==> counts@[r] <= 7,
            all@.len() <= 7 * (15 - next),
            all@ + desc_ranks(counts@, next - 1) == desc_ranks(counts@, 14),
        decreases next,
    {
        let r = next - 1;
        let n = counts[r];
        let ghost before = all@;
        let mut j: u8 = 0;
        while j < n
            invariant
                j <= n,
                n == counts@[r as int],
                n <= 7,
                r < 15,
                all@.len() == before.len() + j,
                before.len() <= 7 * (14 - r),
                all@ == before + Seq::new(j as nat, |i: int| r as u8),
            decreases n - j,
        {
            all.push(r as u8);
            assert(all@ =~= before + Seq::new((j + 1) as nat, |i: int| r as u8));
            j = j + 1;
        }
        assert(desc_ranks(counts@, r as int) == Seq::new(counts@[r as int] as nat, |i: int| r as u8)
            + desc_ranks(counts@, r - 1));
        assert(all@ + desc_ranks(counts@, r - 1) =~= before + desc_ranks(counts@, r as int));
        next = r;
    }
    assert(desc_ranks(counts@, -1) =~= seq![]);
    assert(all@ =~= desc_ranks(counts@, 14));
    if k < all.len() {
        all.truncate(k);
    }
    all
}

/// The score of a category with up to five tie-break values.
fn hand_rank(hand_type: u32, values: &[u8]) -> (rank: u32)
    requires
        hand_type <= 9,
        values@.len() <= 5,
    ensures
        rank as int == encode(hand_type as int, values@),
{
    let mut total: u32 = hand_type * 0x1000000;
    let n = values.len();
    let mut i: usize = n;
    proof {
        lemma_weight_tail();
    }
    while i > 0
        invariant
            i <= n <= 5,
            n == values@.len(),
            hand_type <= 9,
            total as int == hand_type * 0x1000000 + values_score(values@, i as int),
            0 <= values_score(values@, i as int) <= 255 * weight_tail(i as int),
        decreases i,
    {
        let j = i - 1;
        let w: u32 = if j == 0 {
            0x100000
        } else if j == 1 {
            0x10000
        } else if j == 2 {
            0x1000
        } else if j == 3 {
            0x100
        } else {
            0x10
        };
        let v = values[j];
        proof {
            assert(values_score(values@, j as int) == values@[j as int] * slot_weight(j as int)
                + values_score(values@, i as int));
            assert(0 <= values@[j as int] * slot_weight(j as int) <= 255 * slot_weight(j as int))
                by (nonlinear_arith)
                requires
                    0 <= values@[j as int] <= 255,
                    slot_weight(j as int) >= 0,
            ;
            assert(weight_tail(j as int) == slot_weight(j as int) + weight_tail(i as int));
            lemma_weight_tail();
        }
        total = total + (v as u32) * w;
        i = j;
    }
    total
}


/// Scores two to seven cards (the body of [`Hand::evaluate`]).
fn evaluate_hand_rank(cards: &Vec<Card>) -> (rank: u32)
    requires
        2 <= cards@.len() <= 7,
    ensures
        rank as int == hand_score(cards@),
{
    proof {
        lemma_hand_value_bounds(cards@);
    }
    let counts = count_ranks(cards);
    if cards.len() < 5 {
        let ks = top_ranks(&counts, 5);
        return hand_rank(0, ks.as_slice());
    }
    let flush = find_flush(cards);
    let straight = find_straight(&counts);
    let fcounts: [u8; 15] = match flush {
        Some(s) => count_suit_ranks(cards, s),
        None => [0u8; 15],
    };
    if let Some(_) = flush {
        if is_straight_flush(&fcounts) {
            if let Some(high) = find_straight(&fcounts) {
                if high == 14 {
                    let v = vec![14u8];
                    assert(v@ =~= seq![14u8]);
                    return hand_rank(9, v.as_slice());
                }
                let v = vec![high];
                assert(v@ =~= seq![high]);
                return hand_rank(8, v.as_slice());
            }
        }
    }
    if let Some(quad) = find_four_of_a_kind(&counts) {
        let excl = vec![quad];
        assert(excl@ =~= seq![quad]);
        proof {
            lemma_top_distinct_bounds(counts@, excl@, 1, 14);
        }
        let kicker = best_kicker(&counts, excl.as_slice());
        let vals = vec![quad, kicker];
        assert(vals@ =~= seq![quad, kicker]);
        proof {
            lemma_weight_tail();
            let t = top_distinct(counts@, excl@, 1, 14);
            if t.len() == 0 {
                assert(kicker == 0);
                assert(values_score(vals@, 2) == 0);
                assert(values_score(vals@, 1) == 0);
                assert(values_score(seq![quad] + t, 1) == 0);
                assert((seq![quad] + t)[0] == quad);
                assert(values_score(vals@, 0) == values_score(seq![quad] + t, 0));
            } else {
                assert(seq![quad] + t =~= vals@);
            }
        }
        return hand_rank(7, vals.as_slice());
    }
    if let Some((trips, pair)) = find_full_house(&counts) {
        let vals = vec![trips, pair];
        assert(vals@ =~= seq![trips, pair]);
        return hand_rank(6, vals.as_slice());
    }
    if let Some(_) = flush {
        let ks = top_ranks(&fcounts, 5);
        return hand_rank(5, ks.as_slice());
    }
    if let Some(high) = straight {
        let vals = vec![high];
        assert(vals@ =~= seq![high]);
        return hand_rank(4, vals.as_slice());
    }
    if let Some(three) = find_three_of_a_kind(&counts) {
        let excl = vec![three];
        let mut vals = vec![three];
        assert(excl@ =~= seq![three]);
        assert(vals@ =~= seq![three]);
        proof {
            lemma_top_distinct_bounds(counts@, excl@, 2, 14);
        }
        let mut kick = best_kickers_fixed(&counts, excl.as_slice(), 2);
        vals.append(&mut kick);
        return hand_rank(3, vals.as_slice());
    }
    if let Some((high, low)) = find_two_pair(&counts) {
        let excl = vec![high, low];
        let mut vals = vec![high, low];
        assert(excl@ =~= seq![high, low]);
        assert(vals@ =~= seq![high, low]);
        proof {
            lemma_top_distinct_bounds(counts@, excl@, 1, 14);
        }
        let mut kick = best_kickers_fixed(&counts, excl.as_slice(), 1);
        vals.append(&mut kick);
        return hand_rank(2, vals.as_slice());
    }
    if let Some(pair) = find_pair(&counts) {
        let excl = vec![pair];
        let mut vals = vec![pair];
        assert(excl@ =~= seq![pair]);
        assert(vals@ =~= seq![pair]);
        proof {
            lemma_top_distinct_bounds(counts@, excl@, 3, 14);
        }
        let mut kick = best_kickers_fixed(&counts, excl.as_slice(), 3);
        vals.append(&mut kick);
        return hand_rank(1, vals.as_slice());
    }
    let ks = top_ranks(&counts, 5);
    hand_rank(0, ks.as_slice())
}

/// `lowest_eq` finds -1 or a rank in `r ..= 14`.
pub proof fn lemma_lowest_eq_range(c: Seq<u8>, k: u8, r: int)
    requires
        r >= 0,
    ensures
        lowest_eq(c, k, r) == -1 || (r <= lowest_eq(c, k, r) <= 14),
    decreases 15 - r,
{
    if r <= 14 && c[r] != k {
        lemma_lowest_eq_range(c, k, r + 1);
    }
}

/// `highest_eq` finds -1 or a rank in `0 ..= r`.
pub proof fn lemma_highest_eq_range(c: Seq<u8>, k: u8, r: int)
    ensures
        highest_eq(c, k, r) == -1 || (0 <= highest_eq(c, k, r) <= r),
    decreases r + 1,
{
    if r >= 0 && c[r] != k {
        lemma_highest_eq_range(c, k, r - 1);
    }
}

/// `highest_ge_except` finds -1 or a rank in `0 ..= r`.
pub proof fn lemma_highest_ge_except_range(c: Seq<u8>, k: u8, x: int, r: int)
    ensures
        highest_ge_except(c, k, x, r) == -1 || (0 <= highest_ge_except(c, k, x, r) <= r),
    decreases r + 1,
{
    if r >= 0 && !(c[r] >= k && r != x) {
        lemma_highest_ge_except_range(c, k, x, r - 1);
    }
}

/// `straight_from` finds 0 or a top rank in `5 ..= max(h, 5)`.
pub proof fn lemma_straight_from_range(c: Seq<u8>, h: int)
    ensures
        straight_from(c, h) == 0 || (5 <= straight_from(c, h) && (straight_from(c, h) <= h
            || straight_from(c, h) == 5)),
    decreases h,
{
    if h >= 5 && !has_run(c, h) {
        lemma_straight_from_range(c, h - 1);
    }
}

/// A hand value has a category 0-9 and at most five tie-break values of at most 14.
pub proof fn lemma_hand_value_bounds(cs: Seq<Card>)
    ensures
        0 <= hand_value(cs).0 <= 9,
        hand_value(cs).1.len() <= 5,
        forall|i: int| 0 <= i < hand_value(cs).1.len() ==> #[trigger] hand_value(cs).1[i] <= 14,
{
    let c = rank_counts(cs);
    let fs = flush_suit(cs);
    let fc = suit_rank_counts(cs, fs);
    let st = straight_high(c);
    let quad = lowest_eq(c, 4, 0);
    let trips = highest_ge_except(c, 3, -1, 14);
    let fh_pair = highest_ge_except(c, 2, trips, 14);
    let three = highest_eq(c, 3, 14);
    let pair_hi = highest_eq(c, 2, 14);
    let pair_lo = highest_eq(c, 2, pair_hi - 1);
    lemma_straight_from_range(c, 14);
    lemma_straight_from_range(fc, 14);
    lemma_lowest_eq_range(c, 4, 0);
    lemma_highest_ge_except_range(c, 3, -1, 14);
    lemma_highest_ge_except_range(c, 2, trips, 14);
    lemma_highest_eq_range(c, 3, 14);
    lemma_highest_eq_range(c, 2, 14);
    lemma_highest_eq_range(c, 2, pair_hi - 1);
    lemma_desc_ranks_bounds(c, 14);
    lemma_desc_ranks_bounds(fc, 14);
    lemma_top_distinct_bounds(c, seq![quad as u8], 1, 14);
    lemma_top_distinct_bounds(c, seq![three as u8], 2, 14);
    lemma_top_distinct_bounds(c, seq![pair_hi as u8, pair_lo as u8], 1, 14);
    lemma_top_distinct_bounds(c, seq![pair_hi as u8], 3, 14);
    let v = hand_value(cs).1;
    assert forall|i: int| 0 <= i < v.len() implies #[trigger] v[i] <= 14 by {
        if cs.len() < 5 {
            assert(v[i] == desc_ranks(c, 14)[i]);
        } else if fs >= 0 && straight_high(fc) > 0 {
        } else if quad >= 0 {
            let t = top_distinct(c, seq![quad as u8], 1, 14);
            if i > 0 {
                assert(v[i] == t[i - 1]);
            }
        } else if trips >= 0 && fh_pair >= 0 {
        } else if fs >= 0 {
            assert(v[i] == desc_ranks(fc, 14)[i]);
        } else if st > 0 {
        } else if three >= 0 {
            let t = top_distinct(c, seq![three as u8], 2, 14);
            if i > 0 {
                assert(v[i] == t[i - 1]);
            }
        } else if pair_hi >= 0 && pair_lo >= 0 {
            let t = top_distinct(c, seq![pair_hi as u8, pair_lo as u8], 1, 14);
            if i > 1 {
                assert(v[i] == t[i - 2]);
            }
        } else if pair_hi >= 0 {
            let t = top_distinct(c, seq![pair_hi as u8], 3, 14);
            if i > 0 {
                assert(v[i] == t[i - 1]);
            }
        } else {
            assert(v[i] == desc_ranks(c, 14)[i]);
        }
    }
}

/// With tie-break values of at most 15, the values occupy only the low 24 bits.
pub proof fn lemma_values_score_small(vals: Seq<u8>, i: int)
    requires
        0 <= i,
        forall|j: int| 0 <= j < vals.len() ==> #[trigger] vals[j] <= 15,
    ensures
        0 <= values_score(vals, i) <= 15 * weight_tail(i),
    decreases 5 - i,
{
    if i < 5 && i < vals.len() {
        lemma_values_score_small(vals, i + 1);
        assert(0 <= vals[i] * slot_weight(i) <= 15 * slot_weight(i)) by (nonlinear_arith)
            requires
                0 <= vals[i] <= 15,
                slot_weight(i) >= 0,
        ;
    }
    lemma_weight_tail();
    if i >= 5 {
    } else {
        assert(weight_tail(i) >= 0);
    }
}

/// The category of a hand is the top byte of its score.
pub proof fn lemma_score_category(cs: Seq<Card>)
    ensures
        hand_score(cs) / 0x1000000 == hand_value(cs).0,
        0 <= hand_score(cs) < 10 * 0x1000000,
{
    lemma_hand_value_bounds(cs);
    let v = hand_value(cs).1;
    lemma_values_score_small(v, 0);
    lemma_weight_tail();
    let low = values_score(v, 0);
    let t = hand_value(cs).0;
    assert(0 <= low < 0x1000000);
    assert((t * 0x1000000 + low) / 0x1000000 == t) by (nonlinear_arith)
        requires
            0 <= low < 0x1000000,
    ;
}

/// A hand of a better category always scores higher, whatever the tie-breaks.
pub proof fn lemma_better_category_wins(a: Seq<Card>, b: Seq<Card>)
    requires
        hand_value(a).0 > hand_value(b).0,
    ensures
        hand_score(a) > hand_score(b),
{
    lemma_hand_value_bounds(a);
    lemma_hand_value_bounds(b);
    lemma_values_score_small(hand_value(a).1, 0);
    lemma_values_score_small(hand_value(b).1, 0);
    lemma_weight_tail();
    let ta = hand_value(a).0;
    let tb = hand_value(b).0;
    assert(ta * 0x1000000 >= (tb + 1) * 0x1000000) by (nonlinear_arith)
        requires
            ta >= tb + 1,
    ;
}

/// Counting over a concatenation adds the counts of the parts.
pub proof fn lemma_counts_concat(x: Seq<Card>, y: Seq<Card>)
    ensures
        forall|r: int| #[trigger] count_rank(x + y, r) == count_rank(x, r) + count_rank(y, r),
        forall|s: int| #[trigger] count_suit(x + y, s) == count_suit(x, s) + count_suit(y, s),
        forall|r: int, s: int|
            #[trigger] count_rank_suit(x + y, r, s) == count_rank_suit(x, r, s) + count_rank_suit(
                y,
                r,
                s,
            ),
    decreases y.len(),
{
    if y.len() == 0 {
        assert(x + y =~= x);
    } else {
        lemma_counts_concat(x, y.drop_last());
        assert((x + y).drop_last() =~= x + y.drop_last());
        assert((x + y).last() == y.last());
        assert forall|r: int| #[trigger] count_rank(x + y, r) == count_rank(x, r) + count_rank(
            y,
            r,
        ) by {
            assert(count_rank(x + y, r) == count_rank(x + y.drop_last(), r) + if y.last().spec_rank()
                == r {
                1nat
            } else {
                0nat
            });
        }
        assert forall|t: int| #[trigger] count_suit(x + y, t) == count_suit(x, t) + count_suit(
            y,
            t,
        ) by {
            assert(count_suit(x + y, t) == count_suit(x + y.drop_last(), t) + if y.last().spec_suit()
                == t {
                1nat
            } else {
                0nat
            });
        }
        assert forall|r: int, t: int| #[trigger] count_rank_suit(x + y, r, t) == count_rank_suit(
            x,
            r,
            t,
        ) + count_rank_suit(y, r, t) by {
            assert(count_rank_suit(x + y, r, t) == count_rank_suit(x + y.drop_last(), r, t) + if y.last().spec_rank()
                == r && y.last().spec_suit() == t {
                1nat
            } else {
                0nat
            });
        }
    }
}

/// Two card sequences of the same length with the same number of cards of every
/// rank, suit and (rank, suit) have the same hand value.
pub proof fn lemma_same_counts_same_value(a: Seq<Card>, b: Seq<Card>)
    requires
        a.len() == b.len(),
        forall|r: int| #[trigger] count_rank(a, r) == count_rank(b, r),
        forall|s: int| #[trigger] count_suit(a, s) == count_suit(b, s),
        forall|r: int, s: int| #[trigger] count_rank_suit(a, r, s) == count_rank_suit(b, r, s),
    ensures
        hand_value(a) == hand_value(b),
        hand_score(a) == hand_score(b),
{
    assert(rank_counts(a) =~= rank_counts(b));
    assert(count_suit(a, 0) == count_suit(b, 0));
    assert(count_suit(a, 1) == count_suit(b, 1));
    assert(count_suit(a, 2) == count_suit(b, 2));
    assert(count_suit(a, 3) == count_suit(b, 3));
    assert(flush_suit_from(a, 4) == -1);
    assert(flush_suit_from(b, 4) == -1);
    assert(flush_suit_from(a, 3) == flush_suit_from(b, 3));
    assert(flush_suit_from(a, 2) == flush_suit_from(b, 2));
    assert(flush_suit_from(a, 1) == flush_suit_from(b, 1));
    assert(flush_suit(a) == flush_suit(b));
    assert(suit_rank_counts(a, flush_suit(a)) =~= suit_rank_counts(b, flush_suit(b)));
}

/// How often the value `v` occurs in `s`.
pub open spec fn occurrences(s: Seq<u8>, v: int) -> nat
    decreases s.len(),
{
    if s.len() == 0 {
        0
    } else {
        occurrences(s.drop_last(), v) + if s.last() == v {
            1nat
        } else {
            0nat
        }
    }
}

/// Occurrences add up over a concatenation.
pub proof fn lemma_occurrences_concat(a: Seq<u8>, b: Seq<u8>, v: int)
    ensures
        occurrences(a + b, v) == occurrences(a, v) + occurrences(b, v),
    decreases b.len(),
{
    if b.len() == 0 {
        assert(a + b =~= a);
    } else {
        lemma_occurrences_concat(a, b.drop_last(), v);
        assert((a + b).drop_last() =~= a + b.drop_last());
    }
}

/// A value absent from `s` occurs in it zero times.
pub proof fn lemma_occurrences_absent(s: Seq<u8>, v: int)
    requires
        forall|i: int| 0 <= i < s.len() ==> s[i] != v,
    ensures
        occurrences(s, v) == 0,
    decreases s.len(),
{
    if s.len() > 0 {
        lemma_occurrences_absent(s.drop_last(), v);
    }
}

/// `n` copies of `r` hold `r` exactly `n` times and nothing else.
pub proof fn lemma_occurrences_repeat(n: nat, r: u8, v: int)
    ensures
        occurrences(Seq::new(n, |i: int| r), v) == if v == r {
            n
        } else {
            0
        },
    decreases n,
{
    if n > 0 {
        lemma_occurrences_repeat((n - 1) as nat, r, v);
        assert(Seq::new(n, |i: int| r).drop_last() =~= Seq::new((n - 1) as nat, |i: int| r));
    }
}

/// The sum of the histogram entries for ranks `0 ..= r`.
pub open spec fn count_sum(c: Seq<u8>, r: int) -> int
    decreases r + 1,
{
    if r < 0 {
        0
    } else {
        c[r] + count_sum(c, r - 1)
    }
}

/// `desc_ranks` lists every held rank up to `r` exactly as often as it is
/// held, in non-increasing order, and so has as many entries as the counts add to.
pub proof fn lemma_desc_ranks_contents(c: Seq<u8>, r: int)
    requires
        r <= 14,
    ensures
        forall|v: int|
            #[trigger] occurrences(desc_ranks(c, r), v) == if 0 <= v <= r {
                c[v] as int
            } else {
                0
            },
        forall|i: int, j: int|
            0 <= i <= j < desc_ranks(c, r).len() ==> desc_ranks(c, r)[i] >= desc_ranks(c, r)[j],
        forall|i: int| 0 <= i < desc_ranks(c, r).len() ==> desc_ranks(c, r)[i] <= r,
        desc_ranks(c, r).len() == count_sum(c, r),
    decreases r + 1,
{
    if r >= 0 {
        lemma_desc_ranks_contents(c, r - 1);
        let h = Seq::new(c[r] as nat, |i: int| r as u8);
        let t = desc_ranks(c, r - 1);
        assert(desc_ranks(c, r) == h + t);
        assert forall|v: int|
            #[trigger] occurrences(desc_ranks(c, r), v) == if 0 <= v <= r {
                c[v] as int
            } else {
                0
            } by {
            lemma_occurrences_concat(h, t, v);
            lemma_occurrences_repeat(c[r] as nat, r as u8, v);
        }
        assert forall|i: int, j: int| 0 <= i <= j < (h + t).len() implies (h + t)[i] >= (h
            + t)[j] by {
            if j >= h.len() {
                assert((h + t)[j] == t[j - h.len()]);
                if i >= h.len() {
                    assert((h + t)[i] == t[i - h.len()]);
                }
            }
        }
        assert forall|i: int| 0 <= i < (h + t).len() implies (h + t)[i] <= r by {
            if i >= h.len() {
                assert((h + t)[i] == t[i - h.len()]);
            }
        }
    } else {
        assert forall|v: int| #[trigger] occurrences(desc_ranks(c, r), v) == 0 by {
            assert(desc_ranks(c, r).len() == 0);
        }
    }
}

/// Summing the rank counts of one suit over ranks `0 ..= r`.
pub open spec fn suit_count_sum(cs: Seq<Card>, s: int, r: int) -> int
    decreases r + 1,
{
    if r < 0 {
        0
    } else {
        count_rank_suit(cs, r, s) + suit_count_sum(cs, s, r - 1)
    }
}

/// The rank counts of a suit add up to the number of cards of the suit.
pub proof fn lemma_suit_count_sum(cs: Seq<Card>, s: int)
    requires
        forall|i: int| 0 <= i < cs.len() ==> (#[trigger] cs[i]).wf(),
    ensures
        suit_count_sum(cs, s, 14) == count_suit(cs, s),
    decreases cs.len(),
{
    if cs.len() > 0 {
        let d = cs.drop_last();
        assert forall|i: int| 0 <= i < d.len() implies (#[trigger] d[i]).wf() by {
            assert(d[i] == cs[i]);
        }
        lemma_suit_count_sum(d, s);
        let x = cs.last();
        assert(x == cs[cs.len() - 1]);
        assert(x.wf());
        lemma_suit_count_sum_step(cs, s, 14);
    } else {
        lemma_suit_count_sum_empty(cs, s, 14);
    }
}

/// With no cards every partial sum is zero.
proof fn lemma_suit_count_sum_empty(cs: Seq<Card>, s: int, r: int)
    requires
        cs.len() == 0,
    ensures
        suit_count_sum(cs, s, r) == 0,
    decreases r + 1,
{
    if r >= 0 {
        lemma_suit_count_sum_empty(cs, s, r - 1);
    }
}

/// Removing the last card lowers the partial sum by one exactly when that
/// card is of the suit and its rank is in range.
proof fn lemma_suit_count_sum_step(cs: Seq<Card>, s: int, r: int)
    requires
        cs.len() > 0,
    ensures
        suit_count_sum(cs, s, r) == suit_count_sum(cs.drop_last(), s, r) + if cs.last().spec_suit()
            == s && 0 <= cs.last().spec_rank() <= r {
            1int
        } else {
            0int
        },
    decreases r + 1,
{
    if r >= 0 {
        lemma_suit_count_sum_step(cs, s, r - 1);
    }
}

/// For a flush, the tie-break values are the five highest ranks held in the
/// flush suit: five values, in non-increasing order, none occurring more often
/// than cards of that rank in the flush suit, and every rank above the fifth
/// value occurring exactly as often as the flush suit holds it (so cards of
/// other suits never count).
pub proof fn lemma_flush_tie_breaks(cs: Seq<Card>)
    requires
        cs.len() <= 7,
        forall|i: int| 0 <= i < cs.len() ==> (#[trigger] cs[i]).wf(),
        hand_value(cs).0 == 5,
    ensures
        ({
            let fs = flush_suit(cs);
            let v = hand_value(cs).1;
            &&& 0 <= fs < 4
            &&& count_suit(cs, fs) >= 5
            &&& v.len() == 5
            &&& forall|i: int, j: int| 0 <= i <= j < 5 ==> v[i] >= v[j]
            &&& forall|r: int| #[trigger] occurrences(v, r) <= count_rank_suit(cs, r, fs)
            &&& forall|r: int|
                r > v[4] ==> #[trigger] occurrences(v, r) == count_rank_suit(cs, r, fs)
        }),
{
    let fs = flush_suit(cs);
    lemma_flush_suit_found(cs, 0);
    let fc = suit_rank_counts(cs, fs);
    let full = desc_ranks(fc, 14);
    let v = hand_value(cs).1;
    lemma_desc_ranks_contents(fc, 14);
    lemma_suit_count_sum(cs, fs);
    assert forall|r: int| 0 <= r <= 14 implies #[trigger] fc[r] == count_rank_suit(cs, r, fs) by {
        lemma_count_rank_suit_le(cs, r, fs);
    }
    assert(count_sum(fc, 14) == suit_count_sum(cs, fs, 14)) by {
        lemma_count_sum_matches(cs, fs, fc, 14);
    }
    assert(v == full.take(5));
    let rest = full.skip(5);
    assert(full =~= v + rest);
    assert forall|r: int| #[trigger] occurrences(v, r) <= count_rank_suit(cs, r, fs) by {
        lemma_occurrences_concat(v, rest, r);
        if !(0 <= r <= 14) {
            assert(occurrences(full, r) == 0);
        }
    }
    assert forall|r: int| r > v[4] implies #[trigger] occurrences(v, r) == count_rank_suit(
        cs,
        r,
        fs,
    ) by {
        lemma_occurrences_concat(v, rest, r);
        assert forall|i: int| 0 <= i < rest.len() implies rest[i] != r by {
            assert(rest[i] == full[i + 5]);
            assert(full[4] >= full[i + 5]);
        }
        lemma_occurrences_absent(rest, r);
        if r > 14 {
            lemma_count_rank_suit_out_of_range(cs, r, fs);
        }
    }
}

/// The histogram sum equals the sum of the unclipped counts.
proof fn lemma_count_sum_matches(cs: Seq<Card>, s: int, fc: Seq<u8>, r: int)
    requires
        r <= 14,
        forall|q: int| 0 <= q <= 14 ==> #[trigger] fc[q] == count_rank_suit(cs, q, s),
    ensures
        count_sum(fc, r) == suit_count_sum(cs, s, r),
    decreases r + 1,
{
    if r >= 0 {
        lemma_count_sum_matches(cs, s, fc, r - 1);
    }
}

/// No valid card has a rank above 14.
proof fn lemma_count_rank_suit_out_of_range(cs: Seq<Card>, r: int, s: int)
    requires
        r > 14,
        forall|i: int| 0 <= i < cs.len() ==> (#[trigger] cs[i]).wf(),
    ensures
        count_rank_suit(cs, r, s) == 0,
    decreases cs.len(),
{
    if cs.len() > 0 {
        let d = cs.drop_last();
        assert forall|i: int| 0 <= i < d.len() implies (#[trigger] d[i]).wf() by {
            assert(d[i] == cs[i]);
        }
        lemma_count_rank_suit_out_of_range(d, r, s);
        assert(cs.last() == cs[cs.len() - 1]);
    }
}

/// A suit found by the flush search is one of the four and holds five cards.
proof fn lemma_flush_suit_found(cs: Seq<Card>, s: int)
    requires
        0 <= s,
    ensures
        flush_suit_from(cs, s) == -1 || (s <= flush_suit_from(cs, s) < 4 && count_suit(
            cs,
            flush_suit_from(cs, s),
        ) >= 5),
    decreases 4 - s,
{
    if s < 4 && count_suit(cs, s) < 5 {
        lemma_flush_suit_found(cs, s + 1);
    }
}

/// Sequences holding the same cards (in any order) have the same counts.
pub proof fn lemma_permutation_same_counts(a: Seq<Card>, b: Seq<Card>)
    requires
        a.to_multiset() == b.to_multiset(),
    ensures
        a.len() == b.len(),
        forall|r: int| #[trigger] count_rank(a, r) == count_rank(b, r),
        forall|s: int| #[trigger] count_suit(a, s) == count_suit(b, s),
        forall|r: int, s: int| #[trigger] count_rank_suit(a, r, s) == count_rank_suit(b, r, s),
    decreases a.len(),
{
    broadcast use vstd::seq_lib::group_to_multiset_ensures;
    broadcast use vstd::multiset::group_multiset_axioms;

    vstd::seq_lib::to_multiset_len(a);
    vstd::seq_lib::to_multiset_len(b);
    if a.len() == 0 {
        assert(b.len() == 0);
    } else {
        let x = a.last();
        let a1 = a.drop_last();
        assert(a1.push(x) =~= a);
        vstd::seq_lib::to_multiset_build(a1, x);
        assert(a.to_multiset().count(x) > 0);
        vstd::seq_lib::to_multiset_contains(b, x);
        let i = choose|i: int| 0 <= i < b.len() && b[i] == x;
        let b1 = b.remove(i);
        vstd::seq_lib::to_multiset_remove(b, i);
        assert(b1.to_multiset() =~= a1.to_multiset());
        lemma_permutation_same_counts(a1, b1);
        let pre = b.take(i);
        let post = b.skip(i + 1);
        assert(b1 =~= pre + post);
        assert(b =~= pre + seq![x] + post);
        lemma_counts_concat(pre, post);
        lemma_counts_concat(pre, seq![x]);
        lemma_counts_concat(pre + seq![x], post);
        lemma_counts_concat(a1, seq![x]);
        assert(a1 + seq![x] =~= a);
        assert(seq![x].drop_last() =~= Seq::<Card>::empty());
    }
}

/// A hand's value depends only on which cards it holds, not on their order.
pub proof fn lemma_permutation_same_score(a: Seq<Card>, b: Seq<Card>)
    requires
        a.to_multiset() == b.to_multiset(),
    ensures
        hand_value(a) == hand_value(b),
        hand_score(a) == hand_score(b),
{
    lemma_permutation_same_counts(a, b);
    lemma_same_counts_same_value(a, b);
}

/// The order of the two hole cards does not change the value of a hand.
pub proof fn lemma_hole_order_irrelevant(c0: Card, c1: Card, board: Seq<Card>)
    ensures
        hand_value(hand_cards(seq![c0, c1], board)) == hand_value(hand_cards(seq![c1, c0], board)),
        hand_score(hand_cards(seq![c0, c1], board)) == hand_score(hand_cards(seq![c1, c0], board)),
{
    let b = board.take(if board.len() < 5 { board.len() as int } else { 5 });
    let p = seq![c0, c1];
    let q = seq![c1, c0];
    lemma_counts_concat(p, b);
    lemma_counts_concat(q, b);
    lemma_counts_concat(seq![c0], seq![c1]);
    lemma_counts_concat(seq![c1], seq![c0]);
    assert(seq![c0] + seq![c1] =~= p);
    assert(seq![c1] + seq![c0] =~= q);
    assert(seq![c0].drop_last() =~= Seq::<Card>::empty());
    assert(seq![c1].drop_last() =~= Seq::<Card>::empty());
    lemma_same_counts_same_value(hand_cards(p, board), hand_cards(q, board));
}

impl Hand {
    /// The score of the hand.
    pub closed spec fn spec_rank(self) -> u32 {
        self.rank
    }

    /// The category number of the hand (its score's top byte).
    pub open spec fn category(self) -> int {
        self.spec_rank() as int / 0x1000000
    }

    /// Returns the score of this hand; a higher score is a better hand.
    pub fn rank(self) -> (r: u32)
        ensures
            r == self.spec_rank(),
    {
        self.rank
    }

    /// Returns the type of hand (pair, flush, ...), read from the score's top byte.
    pub fn hand_type(&self) -> (t: HandType)
        ensures
            t == hand_type_of(self.category()),
    {
        let r = self.rank;
        let top = r >> 24;
        assert(top == r / 0x1000000) by (bit_vector)
            requires
                top == r >> 24,
        ;
        match top {
            0 => HandType::HighCard,
            1 => HandType::Pair,
            2 => HandType::TwoPair,
            3 => HandType::ThreeOfAKind,
            4 => HandType::Straight,
            5 => HandType::Flush,
            6 => HandType::FullHouse,
            7 => HandType::FourOfAKind,
            8 => HandType::StraightFlush,
            9 => HandType::RoyalFlush,
            _ => HandType::HighCard,
        }
    }

    /// Evaluates a poker hand from two hole cards and up to five board cards
    /// (board cards past the fifth are ignored).
    pub fn evaluate(hole: &[Card; 2], board: &[Card]) -> (h: Hand)
        ensures
            h.spec_rank() == hand_score(hand_cards(hole@, board@)),
            h.category() == hand_value(hand_cards(hole@, board@)).0,
    {
        let mut cards: Vec<Card> = Vec::new();
        cards.push(hole[0]);
        cards.push(hole[1]);
        let n: usize = if board.len() < 5 { board.len() } else { 5 };
        let mut i: usize = 0;
        while i < n
            invariant
                n <= 5,
                n <= board@.len(),
                i <= n,
                hole@.len() == 2,
                cards@ =~= hole@ + board@.take(i as int),
            decreases n - i,
        {
            cards.push(board[i]);
            assert(board@.take(i + 1) =~= board@.take(i as int).push(board@[i as int]));
            i = i + 1;
        }
        proof {
            lemma_score_category(cards@);
        }
        Hand { rank: evaluate_hand_rank(&cards) }
    }
}

/// The name of a hand type, such as `Full House`.
pub open spec fn hand_type_text(t: HandType) -> Seq<char> {
    match t {
        HandType::HighCard => seq!['H', 'i', 'g', 'h', ' ', 'C', 'a', 'r', 'd'],
        HandType::Pair => seq!['P', 'a', 'i', 'r'],
        HandType::TwoPair => seq!['T', 'w', 'o', ' ', 'P', 'a', 'i', 'r'],
        HandType::ThreeOfAKind => seq![
            'T',
            'h',
            'r',
            'e',
            'e',
            ' ',
            'o',
            'f',
            ' ',
            'a',
            ' ',
            'K',
            'i',
            'n',
            'd',
        ],
        HandType::Straight => seq!['S', 't', 'r', 'a', 'i', 'g', 'h', 't'],
        HandType::Flush => seq!['F', 'l', 'u', 's', 'h'],
        HandType::FullHouse => seq!['F', 'u', 'l', 'l', ' ', 'H', 'o', 'u', 's', 'e'],
        HandType::FourOfAKind => seq![
            'F',
            'o',
            'u',
            'r',
            ' ',
            'o',
            'f',
            ' ',
            'a',
            ' ',
            'K',
            'i',
            'n',
            'd',
        ],
        HandType::StraightFlush => seq![
            'S',
            't',
            'r',
            'a',
            'i',
            'g',
            'h',
            't',
            ' ',
            'F',
            'l',
            'u',
            's',
            'h',
        ],
        HandType::RoyalFlush => seq!['R', 'o', 'y', 'a', 'l', ' ', 'F', 'l', 'u', 's', 'h'],
    }
}

impl HandType {
    /// Returns the name of the hand type, such as `Three of a Kind`.
    pub fn to_string(&self) -> (s: String)
        ensures
            s@ == hand_type_text(*self),
    {
        proof {
            reveal_strlit("High Card");
            reveal_strlit("Pair");
            reveal_strlit("Two Pair");
            reveal_strlit("Three of a Kind");
            reveal_strlit("Straight");
            reveal_strlit("Flush");
            reveal_strlit("Full House");
            reveal_strlit("Four of a Kind");
            reveal_strlit("Straight Flush");
            reveal_strlit("Royal Flush");
        }
        match self {
            HandType::HighCard => String::from_str("High Card"),
            HandType::Pair => String::from_str("Pair"),
            HandType::TwoPair => String::from_str("Two Pair"),
            HandType::ThreeOfAKind => String::from_str("Three of a Kind"),
            HandType::Straight => String::from_str("Straight"),
            HandType::Flush => String::from_str("Flush"),
            HandType::FullHouse => String::from_str("Full House"),
            HandType::FourOfAKind => String::from_str("Four of a Kind"),
            HandType::StraightFlush => String::from_str("Straight Flush"),
            HandType::RoyalFlush => String::from_str("Royal Flush"),
        }
    }
}

impl Hand {
    /// Returns the name of the hand's type, such as `Flush`.
    pub fn to_string(&self) -> (s: String)
        ensures
            s@ == hand_type_text(hand_type_of(self.category())),
    {
        self.hand_type().to_string()
    }
}

impl Default for Hand {
    /// The lowest possible score (an empty high-card hand).
    fn default() -> (h: Self)
        ensures
            h.spec_rank() == 0,
    {
        Hand { rank: 0 }
    }
}

} // verus!
