//! The decision logic of the CFR+ solver that involves no probabilities:
//! configuration checks, the per-iteration schedule, the deal context and the
//! chips a player wins or loses at the end of a hand.

use vstd::prelude::*;

use crate::card::{lemma_full_deck_arrangement, Card, CardSet, Deck};
use crate::config::{CFRConfig, CFRConfigError, ConfigError, GameConfig};
use crate::game::{min_int, GameModel, GameState, Player, Street};
use crate::hand::{hand_cards, hand_score, lemma_hole_order_irrelevant, Hand};

verus! {

/// Error returned when a solver cannot be created.
#[derive(Debug, Clone, Copy, PartialEq, Eq, Structural)]
pub enum SolverError {
    /// Invalid game configuration.
    InvalidGameConfig(ConfigError),
    /// Invalid solver configuration.
    InvalidCFRConfig(CFRConfigError),
}

/// The validated configuration and the iteration counter of a CFR+ solver.
///
/// The strategy table and the traversals, which work on probabilities, are
/// kept by the program that drives the solver.
#[derive(Debug, Clone)]
pub struct CFRSolver {
    /// Game configuration.
    pub config: GameConfig,
    /// Solver configuration.
    pub cfr_config: CFRConfig,
    /// The current iteration (0 before the first).
    pub iteration: usize,
}

/// What the solver does at the end of one iteration.
#[derive(Debug, Clone, Copy, PartialEq, Eq, Structural)]
pub struct IterationPlan {
    /// Estimate exploitability (and possibly stop early).
    pub check_exploitability: bool,
    /// Log progress.
    pub log: bool,
    /// Save the strategy (an intermediate save; the final one is separate).
    pub save: bool,
}

impl CFRSolver {
    /// The outcome of creating a solver: the game configuration is checked
    /// first, then the solver configuration.
    pub open spec fn spec_new_result(game_config: GameConfig, cfr_config: CFRConfig) -> Result<
        (),
        SolverError,
    > {
        match game_config.spec_validate() {
            Err(e) => Err(SolverError::InvalidGameConfig(e)),
            Ok(_) => match cfr_config.spec_validate() {
                Err(e) => Err(SolverError::InvalidCFRConfig(e)),
                Ok(_) => Ok(()),
            },
        }
    }

    /// Creates a solver after validating both configurations.
    pub fn new(game_config: GameConfig, cfr_config: CFRConfig) -> (res: Result<Self, SolverError>)
        ensures
            res is Ok <==> Self::spec_new_result(game_config, cfr_config) is Ok,
            res matches Err(e) ==> Self::spec_new_result(game_config, cfr_config) == Err::<(), _>(
                e,
            ),
            res matches Ok(s) ==> s.config == game_config && s.cfr_config == cfr_config
                && s.iteration == 0,
    {
        match game_config.validate() {
            Err(e) => return Err(SolverError::InvalidGameConfig(e)),
            Ok(_) => {},
        }
        match cfr_config.validate() {
            Err(e) => return Err(SolverError::InvalidCFRConfig(e)),
            Ok(_) => {},
        }
        Ok(CFRSolver { config: game_config, cfr_config, iteration: 0 })
    }

    /// Returns the current iteration number.
    pub fn iteration(&self) -> (i: usize)
        ensures
            i == self.iteration,
    {
        self.iteration
    }

    /// The number of information sets to reserve room for: 10 000 with chance
    /// sampling, 100 000 for full enumeration.
    pub fn estimated_info_sets(&self) -> (n: usize)
        ensures
            n == (if self.cfr_config.use_chance_sampling {
                10_000usize
            } else {
                100_000usize
            }),
    {
        if self.cfr_config.use_chance_sampling {
            10_000
        } else {
            100_000
        }
    }

    /// Deals to sample in one iteration: the configured number, or one per
    /// worker thread (at least one) when it is 0.
    pub fn samples_per_iteration(&self, num_threads: usize) -> (n: usize)
        ensures
            self.cfr_config.samples_per_iteration > 0 ==> n == self.cfr_config.samples_per_iteration,
            self.cfr_config.samples_per_iteration == 0 ==> n == (if num_threads > 1 {
                num_threads
            } else {
                1
            }),
            n >= 1,
    {
        if self.cfr_config.samples_per_iteration > 0 {
            self.cfr_config.samples_per_iteration
        } else if num_threads > 1 {
            num_threads
        } else {
            1
        }
    }

    /// The schedule at iteration `iter`: exploitability every
    /// `exploitability_interval` iterations (never when 0), a log line every
    /// `log_interval` iterations, and an intermediate save every `save_interval`
    /// iterations before the last one when a save path is set.
    pub open spec fn spec_plan(&self, iter: usize) -> IterationPlan {
        let c = self.cfr_config;
        IterationPlan {
            check_exploitability: c.exploitability_interval > 0 && iter % c.exploitability_interval
                == 0,
            log: c.log_interval > 0 && iter % c.log_interval == 0,
            save: c.save_path is Some && c.save_interval > 0 && iter < c.num_iterations && iter
                % c.save_interval == 0,
        }
    }

    /// Starts iteration `iter` and says what to do at its end.
    pub fn begin_iteration(&mut self, iter: usize) -> (plan: IterationPlan)
        ensures
            final(self).iteration == iter,
            final(self).config == old(self).config,
            final(self).cfr_config == old(self).cfr_config,
            plan == old(self).spec_plan(iter),
    {
        self.iteration = iter;
        let c = &self.cfr_config;
        let check_exploitability = c.exploitability_interval > 0 && iter
            % c.exploitability_interval == 0;
        let log = c.log_interval > 0 && iter % c.log_interval == 0;
        let save = c.save_path.is_some() && c.save_interval > 0 && iter < c.num_iterations && iter
            % c.save_interval == 0;
        IterationPlan { check_exploitability, log, save }
    }
}

// ---------------------------------------------------------------------------
// Deals
// ---------------------------------------------------------------------------

/// The board cards visible on each street, built once per deal.
#[derive(Debug, Clone, Copy)]
pub struct BoardSets {
    /// Preflop, flop, turn and river views, in street order.
    pub sets: [CardSet; 4],
}

/// The first `n` cards of the board (all of them if it is shorter).
pub open spec fn board_prefix(board: Seq<Card>, n: int) -> Seq<Card> {
    board.take(min_int(n, board.len() as int))
}

impl BoardSets {
    /// Builds the board view of every street from the full board.
    pub fn from_board(board: &[Card]) -> (b: Self)
        ensures
            forall|i: int|
                0 <= i < 4 ==> (#[trigger] b.sets@[i])@ == board_prefix(
                    board@,
                    street_of(i).spec_board_card_count(),
                ),
    {
        let preflop = Self::prefix_set(board, Street::Preflop);
        let flop = Self::prefix_set(board, Street::Flop);
        let turn = Self::prefix_set(board, Street::Turn);
        let river = Self::prefix_set(board, Street::River);
        BoardSets { sets: [preflop, flop, turn, river] }
    }

    /// The board as seen on one street.
    fn prefix_set(board: &[Card], street: Street) -> (s: CardSet)
        ensures
            s@ == board_prefix(board@, street.spec_board_card_count()),
    {
        let n = street.board_card_count();
        let k = if n < board.len() {
            n
        } else {
            board.len()
        };
        let part = vstd::slice::slice_subrange(board, 0, k);
        let s = CardSet::from_cards(part);
        assert(s@ =~= board_prefix(board@, street.spec_board_card_count()));
        s
    }

    /// Returns the board as seen on the given street.
    pub fn get(&self, street: Street) -> (s: &CardSet)
        ensures
            *s == self.sets@[street.spec_ordinal()],
    {
        &self.sets[street.ordinal()]
    }
}

/// The street with the given position (0 = preflop ... 3 = river).
pub open spec fn street_of(i: int) -> Street {
    if i == 0 {
        Street::Preflop
    } else if i == 1 {
        Street::Flop
    } else if i == 2 {
        Street::Turn
    } else {
        Street::River
    }
}

/// Card `a` comes before card `b` in canonical order: by rank, then by suit.
pub open spec fn card_le(a: Card, b: Card) -> bool {
    a.spec_rank() < b.spec_rank() || (a.spec_rank() == b.spec_rank() && a.spec_suit()
        <= b.spec_suit())
}

/// The two hole cards in canonical order.
pub open spec fn canonical_hole(h: [Card; 2]) -> [Card; 2] {
    if card_le(h[0], h[1]) {
        h
    } else {
        [h[1], h[0]]
    }
}

/// The cards of one deal: both players' hole cards (each pair in canonical
/// order) and the board as seen on every street.
#[derive(Debug, Clone, Copy)]
pub struct DealContext {
    /// Hole cards of SB and BB.
    pub holes: [[Card; 2]; 2],
    /// The board on each street.
    pub board_sets: BoardSets,
}

/// Puts two hole cards in canonical order.
fn sort_hole(h: [Card; 2]) -> (s: [Card; 2])
    ensures
        s == canonical_hole(h),
{
    let a = h[0];
    let b = h[1];
    if a.rank() < b.rank() || (a.rank() == b.rank() && a.suit() <= b.suit()) {
        h
    } else {
        let s = [b, a];
        assert(s =~= canonical_hole(h));
        s
    }
}

/// Putting the hole cards in canonical order does not change the hand's value.
pub proof fn lemma_canonical_hole_same_score(h: [Card; 2], board: Seq<Card>)
    ensures
        hand_score(hand_cards(canonical_hole(h)@, board)) == hand_score(hand_cards(h@, board)),
{
    assert(h@ =~= seq![h[0], h[1]]);
    assert([h[1], h[0]]@ =~= seq![h[1], h[0]]);
    lemma_hole_order_irrelevant(h[0], h[1], board);
}

impl DealContext {
    /// Builds the deal context from both players' hole cards and the board;
    /// each pair of hole cards is put in canonical order (the order of the two
    /// cards does not change a hand's value).
    pub fn new(hands: [[Card; 2]; 2], board: &[Card]) -> (d: Self)
        ensures
            d.holes[0] == canonical_hole(hands[0]),
            d.holes[1] == canonical_hole(hands[1]),
            forall|i: int|
                0 <= i < 4 ==> (#[trigger] d.board_sets.sets@[i])@ == board_prefix(
                    board@,
                    street_of(i).spec_board_card_count(),
                ),
    {
        let board_sets = BoardSets::from_board(board);
        let h0 = sort_hole(hands[0]);
        let h1 = sort_hole(hands[1]);
        DealContext { holes: [h0, h1], board_sets }
    }
}

/// The cards of `s` except those at positions `i`, `j`, `k` and `l`, in order.
pub open spec fn cards_excluding(s: Seq<Card>, i: int, j: int, k: int, l: int) -> Seq<Card>
    decreases s.len(),
{
    if s.len() == 0 {
        seq![]
    } else {
        let n = s.len() - 1;
        let rest = cards_excluding(s.drop_last(), i, j, k, l);
        if n == i || n == j || n == k || n == l {
            rest
        } else {
            rest.push(s.last())
        }
    }
}

/// Returns the cards left for the board once the four hole cards at positions
/// `i`, `j`, `k` and `l` of `all_cards` are dealt.
pub fn remaining_cards(all_cards: &[Card], i: usize, j: usize, k: usize, l: usize) -> (rest: Vec<
    Card,
>)
    ensures
        rest@ == cards_excluding(all_cards@, i as int, j as int, k as int, l as int),
{
    let mut rest: Vec<Card> = Vec::new();
    let mut idx: usize = 0;
    while idx < all_cards.len()
        invariant
            idx <= all_cards@.len(),
            rest@ == cards_excluding(all_cards@.take(idx as int), i as int, j as int, k as int, l as int),
        decreases all_cards@.len() - idx,
    {
        assert(all_cards@.take(idx + 1).drop_last() =~= all_cards@.take(idx as int));
        if idx != i && idx != j && idx != k && idx != l {
            rest.push(all_cards[idx]);
        }
        idx = idx + 1;
    }
    assert(all_cards@.take(all_cards@.len() as int) =~= all_cards@);
    rest
}

impl DealContext {
    /// Builds the deal context from both players' hole cards and the cards left
    /// over, taking the last five of those as the board (where a partial shuffle
    /// puts the cards it picks).
    pub fn with_board_at_end(hands: [[Card; 2]; 2], rest: &[Card]) -> (d: Self)
        requires
            rest@.len() >= 5,
        ensures
            d.holes[0] == canonical_hole(hands[0]),
            d.holes[1] == canonical_hole(hands[1]),
            forall|i: int|
                0 <= i < 4 ==> (#[trigger] d.board_sets.sets@[i])@ == board_prefix(
                    rest@.subrange(rest@.len() - 5, rest@.len() as int),
                    street_of(i).spec_board_card_count(),
                ),
    {
        let n = rest.len();
        let board = vstd::slice::slice_subrange(rest, n - 5, n);
        DealContext::new(hands, board)
    }
}

/// Deals one hand from the deck: two hole cards for SB, two for BB, then a
/// five-card board. Nothing is dealt (`None`) when fewer than nine cards remain.
/// The nine cards dealt are distinct, since a deck holds each card once.
pub fn deal_hand(deck: &mut Deck) -> (d: Option<DealContext>)
    ensures
        final(deck).spec_cards() == old(deck).spec_cards(),
        old(deck).remaining().len() < 9 ==> d is None && final(deck).spec_pos() == old(
            deck,
        ).spec_pos(),
        old(deck).remaining().len() >= 9 ==> ({
            let dealt = old(deck).remaining().take(9);
            &&& final(deck).spec_pos() == old(deck).spec_pos() + 9
            &&& dealt.no_duplicates()
            &&& d matches Some(ctx) && ctx.holes[0] == canonical_hole([dealt[0], dealt[1]])
                && ctx.holes[1] == canonical_hole([dealt[2], dealt[3]]) && forall|i: int|
                0 <= i < 4 ==> (#[trigger] ctx.board_sets.sets@[i])@ == board_prefix(
                    dealt.subrange(4, 9),
                    street_of(i).spec_board_card_count(),
                )
        }),
{
    if deck.remaining_len() < 9 {
        return None;
    }
    let cards = deck.deal(9);
    proof {
        let all = old(deck).spec_cards();
        let p = old(deck).spec_pos() as int;
        lemma_full_deck_arrangement(all);
        assert forall|i: int, j: int| 0 <= i < 9 && 0 <= j < 9 && i != j implies cards@[i]
            != cards@[j] by {
            assert(cards@[i] == all.skip(p)[i]);
            assert(cards@[j] == all.skip(p)[j]);
        }
    }
    let board = vstd::slice::slice_subrange(cards.as_slice(), 4, 9);
    let ctx = DealContext::new([[cards[0], cards[1]], [cards[2], cards[3]]], board);
    assert([cards@[0], cards@[1]] =~= [cards[0], cards[1]]);
    Some(ctx)
}

// ---------------------------------------------------------------------------
// Payoffs
// ---------------------------------------------------------------------------

/// Chips `p` wins (positive) or loses (negative) at the end of a hand.
///
/// After a fold the player to act (the one who did not fold) takes the pot, so
/// each side nets the pot minus its own commitment or loses its commitment.
/// At showdown the hands are scored on the board visible on the street (the
/// whole board after an all-in), and only the contested amount (the smaller
/// commitment) changes hands; a tie moves nothing.
pub open spec fn utility(
    m: GameModel,
    holes: Seq<[Card; 2]>,
    board: Seq<Card>,
    p: Player,
) -> int {
    let mine = m.committed(p);
    if m.is_fold() {
        if m.current == p {
            m.pot - mine
        } else {
            -mine
        }
    } else {
        let shown = if m.all_in_showdown {
            board_prefix(board, 5)
        } else {
            board_prefix(board, m.street.spec_board_card_count())
        };
        let contested = min_int(mine, m.committed(p.spec_opponent()));
        let my_score = hand_score(hand_cards(holes[p.spec_index()]@, shown));
        let their_score = hand_score(hand_cards(holes[p.spec_opponent().spec_index()]@, shown));
        if my_score > their_score {
            contested
        } else if my_score < their_score {
            -contested
        } else {
            0
        }
    }
}

/// An all-in showdown is decided on the first five board cards, whatever
/// street the betting stopped on: the player with the higher score on that
/// board wins the contested amount (the smaller of the two commitments) and
/// the other loses it; equal scores move nothing.
pub proof fn lemma_all_in_showdown_uses_full_board(
    m: GameModel,
    holes: Seq<[Card; 2]>,
    board: Seq<Card>,
    p: Player,
)
    requires
        m.all_in_showdown,
        !m.is_fold(),
    ensures
        ({
            let five = board.take(if board.len() < 5 { board.len() as int } else { 5 });
            let mine = hand_score(holes[p.spec_index()]@ + five);
            let theirs = hand_score(holes[p.spec_opponent().spec_index()]@ + five);
            let contested = if m.committed(p) < m.committed(p.spec_opponent()) {
                m.committed(p)
            } else {
                m.committed(p.spec_opponent())
            };
            utility(m, holes, board, p) == if mine > theirs {
                contested
            } else if mine < theirs {
                -contested
            } else {
                0
            }
        }),
{
    let five = board.take(if board.len() < 5 { board.len() as int } else { 5 });
    assert(five.take(five.len() as int) =~= five);
    assert(board_prefix(board, 5) =~= five);
}

/// A hand that ends by a fold pays the player still in (the one to act) the
/// pot less its own commitment, and the folder loses its commitment; the
/// cards play no part.
pub proof fn lemma_fold_payoff(m: GameModel, holes: Seq<[Card; 2]>, board: Seq<Card>, p: Player)
    requires
        m.is_fold(),
    ensures
        utility(m, holes, board, p) == if p == m.current {
            m.pot - m.committed(p)
        } else {
            -m.committed(p)
        },
{
}

impl CFRSolver {
    /// Returns the chips `player` wins or loses at the end of the hand in
    /// `state`, with the given hole cards (SB first) and board.
    pub fn get_utility_impl(
        state: &GameState,
        hands: &[[Card; 2]],
        board: &[Card],
        player: Player,
    ) -> (u: i128)
        requires
            hands@.len() >= 2,
        ensures
            u as int == utility(state.model(), hands@, board@, player),
    {
        let me = player.index();
        let opp = player.opponent().index();
        let mine = state.committed[me];
        if state.is_fold() {
            return match state.winner() {
                Some(winner) => {
                    if winner == player {
                        state.pot as i128 - mine as i128
                    } else {
                        -(mine as i128)
                    }
                },
                None => 0,
            };
        }
        let shown_len = if state.is_all_in_showdown() {
            if 5 < board.len() {
                5
            } else {
                board.len()
            }
        } else {
            state.visible_board_count(board.len())
        };
        let shown = vstd::slice::slice_subrange(board, 0, shown_len);
        let theirs = state.committed[opp];
        let contested: u64 = if mine < theirs {
            mine
        } else {
            theirs
        };
        let hand = Hand::evaluate(&hands[me], shown);
        let opp_hand = Hand::evaluate(&hands[opp], shown);
        proof {
            assert(shown@ =~= (if state.all_in_showdown {
                board_prefix(board@, 5)
            } else {
                board_prefix(board@, state.street.spec_board_card_count())
            }));
            assert(shown@.len() <= 5);
            assert(shown@.take(shown@.len() as int) =~= shown@);
        }
        if hand.rank() > opp_hand.rank() {
            contested as i128
        } else if hand.rank() < opp_hand.rank() {
            -(contested as i128)
        } else {
            0
        }
    }
}

} // verus!
