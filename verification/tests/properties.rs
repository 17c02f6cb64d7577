//! Concrete checks of the library's laws, edge cases, formulas and error variants.

use nash::config::{CFRConfigError, ConfigError};
use nash::game::{ActionHistory, LegalActions};
use nash::solver::{deal_hand, remaining_cards, BoardSets, DealContext, IterationPlan};
use nash::{
    Action, CFRConfig, CFRSolver, Card, CardSet, Deck, GameConfig, GameState, Hand, HandType,
    InfoSet, Player, SolverError, Street,
};
use rand::thread_rng;

fn c(rank: u8, suit: u8) -> Card {
    Card::new(rank, suit).expect("valid card")
}

fn config(sb_stack: u64, bb_stack: u64) -> GameConfig {
    GameConfig { initial_stacks: [sb_stack, bb_stack], small_blind: 1, big_blind: 2, min_bet: 2 }
}

fn actions(la: &LegalActions) -> Vec<Action> {
    la.as_slice().to_vec()
}

// --- players and streets ---

#[test]
fn law_opponent_is_an_involution() {
    for p in [Player::SB, Player::BB] {
        assert_eq!(p.opponent().opponent(), p);
        assert_ne!(p.opponent(), p);
        assert_eq!(Player::from_index(p.index()), Some(p));
    }
}

#[test]
fn law_next_street_shows_more_cards() {
    let mut s = Street::Preflop;
    let mut seen = 1;
    while let Some(n) = s.next() {
        assert!(n.board_card_count() > s.board_card_count());
        assert_eq!(n.ordinal(), s.ordinal() + 1);
        s = n;
        seen += 1;
    }
    assert_eq!(s, Street::River);
    assert_eq!(seen, 4);
}

// --- cards, sets and decks ---

#[test]
fn card_new_keeps_rank_and_suit() {
    let card = c(11, 2);
    assert_eq!(card.rank(), 11);
    assert_eq!(card.suit(), 2);
    assert!(Card::new(0, 0).is_none());
    assert!(Card::new(14, 4).is_none());
    assert_eq!(Card::default().rank(), 0);
    assert_eq!(Card::default().to_string(), "0c");
}

#[test]
fn card_all_is_the_full_ordered_deck() {
    let all = Card::all();
    assert_eq!(all.len(), 52);
    assert_eq!(all[0], c(2, 0));
    assert_eq!(all[5], c(3, 1));
    assert_eq!(all[51], c(14, 3));
    for i in 0..52 {
        assert!(all[i].is_valid());
        for j in (i + 1)..52 {
            assert_ne!(all[i], all[j]);
        }
    }
}

#[test]
fn card_set_keeps_at_most_five_cards_in_order() {
    let cards = [c(2, 0), c(3, 0), c(4, 0), c(5, 0), c(6, 0), c(7, 0)];
    let set = CardSet::from_cards(&cards);
    assert_eq!(set.len(), 5);
    assert_eq!(set.as_slice(), &cards[..5]);
    assert!(!set.contains(&c(7, 0)));
    assert!(CardSet::empty().is_empty());
}

#[test]
fn deck_deals_every_card_once_then_nothing() {
    let mut deck = Deck::new();
    let first = deck.deal_one();
    assert_eq!(first, Some(c(2, 0)));
    let rest = deck.deal(100);
    assert_eq!(rest.len(), 51);
    assert_eq!(rest[0], c(2, 1));
    assert_eq!(deck.deal_one(), None);
    assert!(deck.deal(3).is_empty());
}

#[test]
fn law_shuffle_permutes_and_deals_are_disjoint() {
    let mut deck = Deck::new();
    deck.shuffle(&mut thread_rng());
    let a = deck.deal(20);
    let b = deck.deal(32);
    for x in &a {
        assert!(!b.contains(x));
    }
    let mut all: Vec<Card> = a.iter().chain(b.iter()).copied().collect();
    // Shuffling left the deck's contents unchanged (and, with overwhelming
    // probability, changed their order).
    assert_ne!(all, Card::all());
    all.sort_by_key(|x| (x.rank(), x.suit()));
    assert_eq!(all, Card::all());
}

#[test]
fn deck_clone_deals_the_same_cards() {
    let mut deck = Deck::new();
    deck.shuffle(&mut thread_rng());
    let _ = deck.deal(3);
    let mut copy = deck.clone();
    assert_eq!(deck.deal(49), copy.deal(49));
}

// --- hand evaluation ---

#[test]
fn hand_rank_formula_pair() {
    let board = [c(10, 2), c(8, 3), c(5, 0), c(3, 1), c(2, 2)];
    let hand = Hand::evaluate(&[c(14, 0), c(14, 1)], &board);
    // Category 1 in the top byte, then the pair rank and the kickers 10, 8, 5.
    assert_eq!(hand.rank(), (1 << 24) + (14 << 20) + (10 << 16) + (8 << 12) + (5 << 8));
    assert_eq!(hand.rank(), 0x01EA_8500);
}

#[test]
fn hand_rank_formula_royal_and_wheel() {
    let royal = Hand::evaluate(&[c(14, 0), c(13, 0)], &[c(12, 0), c(11, 0), c(10, 0), c(3, 1), c(2, 2)]);
    assert_eq!(royal.rank(), 0x09E0_0000);
    let wheel = Hand::evaluate(&[c(14, 0), c(2, 1)], &[c(5, 2), c(4, 3), c(3, 0), c(10, 1), c(9, 2)]);
    assert_eq!(wheel.rank(), 0x0450_0000);
    assert_eq!(wheel.hand_type(), HandType::Straight);
}

#[test]
fn hand_with_short_board_is_scored_on_ranks_only() {
    let hand = Hand::evaluate(&[c(14, 0), c(14, 1)], &[]);
    assert_eq!(hand.hand_type(), HandType::HighCard);
    assert_eq!(hand.rank(), 0x00EE_0000);
}

#[test]
fn hand_straight_flush_inside_a_higher_straight() {
    // 5-9 of clubs plus a ten of diamonds: the clubs make a 9-high straight
    // flush, which beats the ten-high straight of all seven cards.
    let hand = Hand::evaluate(&[c(9, 0), c(8, 0)], &[c(7, 0), c(6, 0), c(5, 0), c(10, 1), c(2, 2)]);
    assert_eq!(hand.hand_type(), HandType::StraightFlush);
    assert_eq!(hand.rank(), (8 << 24) + (9 << 20));
    let wheel = Hand::evaluate(&[c(14, 3), c(2, 3)], &[c(3, 3), c(4, 3), c(5, 3), c(6, 0), c(13, 3)]);
    assert_eq!(wheel.hand_type(), HandType::StraightFlush);
    assert_eq!(wheel.rank(), (8 << 24) + (5 << 20));
}

#[test]
fn hand_ignores_board_cards_past_the_fifth() {
    let board = [c(10, 2), c(8, 3), c(5, 0), c(3, 1), c(2, 2), c(14, 2)];
    let six = Hand::evaluate(&[c(14, 0), c(12, 1)], &board);
    let five = Hand::evaluate(&[c(14, 0), c(12, 1)], &board[..5]);
    assert_eq!(six, five);
}

#[test]
fn law_better_category_scores_higher() {
    let board = [c(10, 0), c(10, 1), c(5, 0), c(3, 1), c(2, 2)];
    let two_pair = Hand::evaluate(&[c(3, 0), c(2, 0)], &board);
    let trips = Hand::evaluate(&[c(10, 2), c(4, 3)], &board);
    assert_eq!(two_pair.hand_type(), HandType::TwoPair);
    assert_eq!(trips.hand_type(), HandType::ThreeOfAKind);
    assert!(trips.rank() > two_pair.rank());
    assert_eq!(trips.rank() >> 24, 3);
}

#[test]
fn law_card_order_does_not_change_a_hand() {
    let board = [c(12, 0), c(11, 0), c(10, 1), c(3, 1), c(2, 2)];
    let a = Hand::evaluate(&[c(14, 0), c(13, 0)], &board);
    let b = Hand::evaluate(&[c(13, 0), c(14, 0)], &board);
    let reversed: Vec<Card> = board.iter().rev().copied().collect();
    let d = Hand::evaluate(&[c(13, 0), c(14, 0)], &reversed);
    assert_eq!(a, b);
    assert_eq!(a, d);
}

#[test]
fn hand_type_names() {
    let hand = Hand::evaluate(&[c(14, 0), c(14, 1)], &[c(14, 2), c(10, 0), c(10, 1)]);
    assert_eq!(hand.hand_type(), HandType::FullHouse);
    assert_eq!(hand.to_string(), "Full House");
    assert_eq!(Hand::default().rank(), 0);
}

// --- betting rules ---

#[test]
fn legal_actions_exact_preflop_and_after_limp() {
    let state = GameState::new(config(1000, 1000));
    assert_eq!(
        actions(&state.legal_actions()),
        vec![Action::Fold, Action::Call, Action::Raise(2), Action::Raise(3), Action::AllIn]
    );
    let state = state.apply_action(Action::Call);
    assert_eq!(state.current_player, Player::BB);
    assert_eq!(
        actions(&state.legal_actions()),
        vec![Action::Fold, Action::Check, Action::Bet(2), Action::Bet(4), Action::AllIn]
    );
}

#[test]
fn law_legal_actions_are_distinct_and_chips_are_conserved() {
    let mut state = GameState::new(config(60, 40));
    let mut steps = 0;
    while !state.is_terminal() && steps < 20 {
        let legal = actions(&state.legal_actions());
        assert!(legal.len() <= 8);
        for i in 0..legal.len() {
            for j in (i + 1)..legal.len() {
                assert_ne!(legal[i], legal[j]);
            }
        }
        if legal.is_empty() {
            break;
        }
        // Always take the most aggressive option.
        state = state.apply_action(legal[legal.len() - 1]);
        assert_eq!(state.pot, state.committed[0] + state.committed[1]);
        assert!(state.committed[0] <= 60 && state.committed[1] <= 40);
        steps += 1;
    }
    assert!(state.is_terminal());
}

#[test]
fn law_fold_gives_the_pot_to_the_opponent() {
    let state = GameState::new(config(1000, 1000)).apply_action(Action::Raise(3));
    let folded = state.apply_action(Action::Fold);
    assert!(folded.is_terminal());
    assert_eq!(folded.winner(), Some(Player::SB));
    assert_eq!(folded.pot, state.pot);
    let board = [c(2, 0), c(4, 1), c(6, 2), c(8, 3), c(9, 0)];
    let hands = [[c(3, 0), c(7, 1)], [c(14, 2), c(14, 3)]];
    let sb = CFRSolver::get_utility_impl(&folded, &hands, &board, Player::SB);
    let bb = CFRSolver::get_utility_impl(&folded, &hands, &board, Player::BB);
    assert_eq!(sb, 2);
    assert_eq!(bb, -2);
}

#[test]
fn showdown_tie_moves_no_chips() {
    let state = GameState::new(config(10, 10)).apply_action(Action::AllIn).apply_action(Action::Call);
    let board = [c(14, 0), c(13, 1), c(12, 2), c(11, 3), c(10, 0)];
    let hands = [[c(2, 0), c(3, 1)], [c(2, 2), c(3, 3)]];
    assert_eq!(CFRSolver::get_utility_impl(&state, &hands, &board, Player::SB), 0);
}

#[test]
fn visible_board_follows_the_street() {
    let state = GameState::new(config(1000, 1000));
    assert_eq!(state.visible_board_count(5), 0);
    let flop = state.apply_action(Action::Call).apply_action(Action::Check);
    assert_eq!(flop.visible_board_count(5), 3);
    assert_eq!(flop.visible_board_count(2), 2);
}

#[test]
fn round_closes_after_bet_and_call_on_the_river() {
    let mut state = GameState::new(config(1000, 1000)).apply_action(Action::Call).apply_action(Action::Check);
    for _ in 0..2 {
        state = state.apply_action(Action::Check).apply_action(Action::Check);
    }
    assert_eq!(state.street, Street::River);
    state = state.apply_action(Action::Bet(2));
    assert!(!state.is_terminal());
    state = state.apply_action(Action::Call);
    assert!(state.is_showdown());
    assert!(state.is_terminal());
    assert!(!state.is_all_in_showdown());
}

#[test]
fn all_in_player_facing_a_bet_has_no_options() {
    let mut state = GameState::new(config(1000, 1000));
    state.committed = [1000, 500];
    state.pot = 1500;
    state.last_bet = 1200;
    assert!(state.legal_actions().is_empty());
}

#[test]
fn legal_actions_cursor_and_iterators() {
    let la = GameState::new(config(1000, 1000)).legal_actions();
    let mut it = la.into_actions_iter();
    assert_eq!(it.len(), 5);
    assert_eq!(it.next(), Some(Action::Fold));
    assert_eq!(it.len(), 4);
    let mut rest = Vec::new();
    while let Some(a) = it.next() {
        rest.push(a);
    }
    assert_eq!(rest.len(), 4);
    assert_eq!(it.next(), None);
    assert_eq!(la.to_vec(), actions(&la));
    assert_eq!(la.iter().count(), 5);
}

#[test]
fn action_history_records_in_order() {
    let mut h = ActionHistory::default();
    for i in 0..24 {
        h.push(Action::Bet(i));
    }
    assert_eq!(h.len(), 24);
    assert_eq!(h.as_slice()[23], Action::Bet(23));
}

// --- text ---

#[test]
fn info_set_full_text() {
    let hole = [c(14, 0), c(13, 1)];
    let board = CardSet::from_cards(&[c(10, 2), c(9, 3), c(8, 0)]);
    let mut info = InfoSet::from_cards(Player::BB, Street::Flop, &hole, board);
    assert_eq!(info.to_string(), "BB:Flop:Ac/Kd/Th/9s/8c");
    info.add_action(&Action::Check);
    info.add_action(&Action::Bet(12));
    assert_eq!(info.to_string(), "BB:Flop:Ac/Kd/Th/9s/8c:CheckBet(12)");
    let same = InfoSet::from_cards_with_history(Player::BB, Street::Flop, &hole, board, info.history);
    assert_eq!(same, info);
}

#[test]
fn action_text_of_large_amounts() {
    assert_eq!(Action::Bet(0).to_string(), "Bet(0)");
    assert_eq!(Action::Raise(u64::MAX).to_string(), "Raise(18446744073709551615)");
}

// --- configuration and solver ---

#[test]
fn config_error_variants() {
    let ok = GameConfig::default();
    assert_eq!(ok.validate(), Ok(()));
    assert_eq!(GameConfig { initial_stacks: [5, 0], ..ok }.validate(), Err(ConfigError::InvalidStacks));
    assert_eq!(GameConfig { big_blind: 0, ..ok }.validate(), Err(ConfigError::InvalidBlinds));
    assert_eq!(GameConfig { small_blind: 3, ..ok }.validate(), Err(ConfigError::InvalidBlindRatio));
    assert_eq!(GameConfig { min_bet: 0, ..ok }.validate(), Err(ConfigError::InvalidMinBet));
}

#[test]
fn cfr_config_error_variants() {
    let d = CFRConfig::default();
    assert_eq!(CFRConfig { num_iterations: 0, ..d.clone() }.validate(), Err(CFRConfigError::InvalidNumIterations));
    assert_eq!(CFRConfig { log_interval: 0, ..d.clone() }.validate(), Err(CFRConfigError::InvalidLogInterval));
    assert_eq!(CFRConfig { save_interval: 0, ..d.clone() }.validate(), Err(CFRConfigError::InvalidSaveInterval));
    assert_eq!(
        CFRConfig { convergence_threshold: (-0.5f64).to_bits(), ..d.clone() }.validate(),
        Err(CFRConfigError::InvalidConvergenceThreshold)
    );
    assert_eq!(CFRConfig { convergence_threshold: (-0.0f64).to_bits(), ..d.clone() }.validate(), Ok(()));
    assert_eq!(CFRConfig { convergence_threshold: f64::NAN.to_bits(), ..d.clone() }.validate(), Ok(()));
    assert_eq!(CFRConfig { convergence_threshold: 0.01f64.to_bits(), ..d }.validate(), Ok(()));
}

#[test]
fn solver_new_reports_the_first_invalid_config() {
    let bad_game = GameConfig { min_bet: 0, ..GameConfig::default() };
    let bad_cfr = CFRConfig { num_iterations: 0, ..CFRConfig::default() };
    assert_eq!(
        CFRSolver::new(bad_game, bad_cfr.clone()).unwrap_err(),
        SolverError::InvalidGameConfig(ConfigError::InvalidMinBet)
    );
    assert_eq!(
        CFRSolver::new(GameConfig::default(), bad_cfr).unwrap_err(),
        SolverError::InvalidCFRConfig(CFRConfigError::InvalidNumIterations)
    );
    let solver = CFRSolver::new(GameConfig::default(), CFRConfig::default()).unwrap();
    assert_eq!(solver.iteration(), 0);
    assert_eq!(solver.estimated_info_sets(), 10_000);
}

#[test]
fn solver_schedule() {
    let cfg = CFRConfig {
        num_iterations: 100,
        log_interval: 10,
        save_interval: 50,
        save_path: Some("s.bin".to_string()),
        exploitability_interval: 25,
        ..CFRConfig::default()
    };
    let mut solver = CFRSolver::new(GameConfig::default(), cfg).unwrap();
    assert_eq!(
        solver.begin_iteration(50),
        IterationPlan { check_exploitability: true, log: true, save: true }
    );
    assert_eq!(solver.iteration(), 50);
    assert_eq!(
        solver.begin_iteration(100),
        IterationPlan { check_exploitability: true, log: true, save: false }
    );
    assert_eq!(
        solver.begin_iteration(7),
        IterationPlan { check_exploitability: false, log: false, save: false }
    );
    assert_eq!(solver.samples_per_iteration(0), 1);
    assert_eq!(solver.samples_per_iteration(6), 6);
}

#[test]
fn deal_context_and_remaining_cards() {
    let all = Card::all();
    let rest = remaining_cards(&all, 0, 5, 10, 51);
    assert_eq!(rest.len(), 48);
    assert!(!rest.contains(&all[5]) && !rest.contains(&all[51]));
    assert_eq!(rest[0], all[1]);
    let board = [c(2, 0), c(4, 1), c(6, 2), c(8, 3), c(9, 0)];
    let deal = DealContext::new([[c(14, 0), c(3, 1)], [c(5, 2), c(5, 1)]], &board);
    assert_eq!(deal.holes[0], [c(3, 1), c(14, 0)]);
    assert_eq!(deal.holes[1], [c(5, 1), c(5, 2)]);
    let sets = BoardSets::from_board(&board);
    assert!(sets.get(Street::Preflop).is_empty());
    assert_eq!(sets.get(Street::Turn).as_slice(), &board[..4]);
    assert_eq!(deal.board_sets.get(Street::River).len(), 5);
}

#[test]
fn deal_hand_deals_nine_distinct_cards_in_order() {
    let mut deck = Deck::new();
    let d = deal_hand(&mut deck).expect("nine cards remain");
    assert_eq!(d.holes[0], [c(2, 0), c(2, 1)]);
    assert_eq!(d.holes[1], [c(2, 2), c(2, 3)]);
    assert_eq!(d.board_sets.get(Street::River).as_slice(), &[c(3, 0), c(3, 1), c(3, 2), c(3, 3), c(4, 0)]);
    assert_eq!(deck.deal_one(), Some(c(4, 1)));

    let mut shuffled = Deck::new();
    shuffled.shuffle(&mut thread_rng());
    let d = deal_hand(&mut shuffled).expect("nine cards remain");
    let mut nine: Vec<Card> = d.holes.iter().flatten().copied().collect();
    nine.extend_from_slice(d.board_sets.get(Street::River).as_slice());
    for i in 0..9 {
        for j in (i + 1)..9 {
            assert_ne!(nine[i], nine[j]);
        }
    }
}

#[test]
fn deal_hand_needs_nine_cards() {
    let mut deck = Deck::new();
    let _ = deck.deal(44);
    assert!(deal_hand(&mut deck).is_none());
    assert_eq!(deck.deal(100).len(), 8);
}

#[test]
fn deal_board_taken_from_the_end() {
    let rest = [c(2, 0), c(3, 0), c(4, 0), c(5, 0), c(6, 0), c(7, 0), c(8, 0)];
    let d = DealContext::with_board_at_end([[c(14, 0), c(13, 0)], [c(12, 1), c(11, 1)]], &rest);
    assert_eq!(d.board_sets.get(Street::River).as_slice(), &rest[2..]);
    assert_eq!(d.holes[0], [c(13, 0), c(14, 0)]);
}
