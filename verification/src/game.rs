//! Game state machine, actions, player positions and streets.

use vstd::prelude::*;

use crate::card::{card_text, Card, CardSet};
use crate::config::GameConfig;

verus! {

/// Number of players in heads-up poker.
pub const NUM_PLAYERS: usize = 2;

/// Maximum number of actions offered at any decision point.
pub const MAX_ACTIONS: usize = 8;

/// Maximum number of actions an [`ActionHistory`] records.
pub const MAX_HISTORY_LEN: usize = 24;

/// Player position in heads-up poker.
#[derive(Debug, Clone, Copy, PartialEq, Eq, PartialOrd, Ord, Hash, Structural)]
pub enum Player {
    /// Small blind position (acts first preflop).
    SB,
    /// Big blind position (acts second preflop).
    BB,
}

impl Player {
    /// The array index of the player: 0 for SB, 1 for BB.
    pub open spec fn spec_index(self) -> int {
        match self {
            Player::SB => 0,
            Player::BB => 1,
        }
    }

    /// The other player.
    pub open spec fn spec_opponent(self) -> Player {
        match self {
            Player::SB => Player::BB,
            Player::BB => Player::SB,
        }
    }

    /// Returns the array index for this player (0 for SB, 1 for BB).
    pub fn index(self) -> (i: usize)
        ensures
            i == self.spec_index(),
    {
        match self {
            Player::SB => 0,
            Player::BB => 1,
        }
    }

    /// Returns the player for an array index (0 -> SB, 1 -> BB, otherwise `None`).
    pub fn from_index(index: usize) -> (p: Option<Self>)
        ensures
            index == 0 ==> p == Some(Player::SB),
            index == 1 ==> p == Some(Player::BB),
            index > 1 ==> p is None,
    {
        match index {
            0 => Some(Player::SB),
            1 => Some(Player::BB),
            _ => None,
        }
    }

    /// Returns the opponent of this player.
    pub fn opponent(self) -> (p: Self)
        ensures
            p == self.spec_opponent(),
    {
        match self {
            Player::SB => Player::BB,
            Player::BB => Player::SB,
        }
    }

    /// Returns the position's name, `SB` or `BB`.
    pub fn to_string(&self) -> (s: String)
        ensures
            s@ == player_text(*self),
    {
        proof {
            reveal_strlit("SB");
            reveal_strlit("BB");
        }
        match self {
            Player::SB => String::from_str("SB"),
            Player::BB => String::from_str("BB"),
        }
    }
}

/// The text of a player position.
pub open spec fn player_text(p: Player) -> Seq<char> {
    match p {
        Player::SB => seq!['S', 'B'],
        Player::BB => seq!['B', 'B'],
    }
}

/// The opponent of the opponent is the player itself, and a player is never
/// its own opponent.
pub proof fn lemma_opponent_involution(p: Player)
    ensures
        p.spec_opponent().spec_opponent() == p,
        p.spec_opponent() != p,
        p.spec_opponent().spec_index() == 1 - p.spec_index(),
{
}

/// Betting street of a poker hand.
#[derive(Debug, Clone, Copy, PartialEq, Eq, PartialOrd, Ord, Hash, Structural)]
pub enum Street {
    /// No community cards.
    Preflop,
    /// Three community cards.
    Flop,
    /// Four community cards.
    Turn,
    /// Five community cards.
    River,
}

impl Street {
    /// The position of the street in the hand: 0 (preflop) to 3 (river).
    pub open spec fn spec_ordinal(self) -> int {
        match self {
            Street::Preflop => 0,
            Street::Flop => 1,
            Street::Turn => 2,
            Street::River => 3,
        }
    }

    /// Number of community cards on the street.
    pub open spec fn spec_board_card_count(self) -> int {
        match self {
            Street::Preflop => 0,
            Street::Flop => 3,
            Street::Turn => 4,
            Street::River => 5,
        }
    }

    /// The following street, if any.
    pub open spec fn spec_next(self) -> Option<Street> {
        match self {
            Street::Preflop => Some(Street::Flop),
            Street::Flop => Some(Street::Turn),
            Street::Turn => Some(Street::River),
            Street::River => None,
        }
    }

    /// Returns the number of community cards on this street.
    pub fn board_card_count(self) -> (n: usize)
        ensures
            n == self.spec_board_card_count(),
    {
        match self {
            Street::Preflop => 0,
            Street::Flop => 3,
            Street::Turn => 4,
            Street::River => 5,
        }
    }

    /// Returns the next street, or `None` on the river.
    pub fn next(self) -> (s: Option<Self>)
        ensures
            s == self.spec_next(),
    {
        match self {
            Street::Preflop => Some(Street::Flop),
            Street::Flop => Some(Street::Turn),
            Street::Turn => Some(Street::River),
            Street::River => None,
        }
    }

    /// Returns the position of the street in the hand (0 = preflop ... 3 = river).
    pub fn ordinal(self) -> (i: usize)
        ensures
            i == self.spec_ordinal(),
    {
        match self {
            Street::Preflop => 0,
            Street::Flop => 1,
            Street::Turn => 2,
            Street::River => 3,
        }
    }

    /// Returns the street's name, such as `Flop`.
    pub fn to_string(&self) -> (s: String)
        ensures
            s@ == street_text(*self),
    {
        proof {
            reveal_strlit("Preflop");
            reveal_strlit("Flop");
            reveal_strlit("Turn");
            reveal_strlit("River");
        }
        match self {
            Street::Preflop => String::from_str("Preflop"),
            Street::Flop => String::from_str("Flop"),
            Street::Turn => String::from_str("Turn"),
            Street::River => String::from_str("River"),
        }
    }
}

/// The text of a street.
pub open spec fn street_text(s: Street) -> Seq<char> {
    match s {
        Street::Preflop => seq!['P', 'r', 'e', 'f', 'l', 'o', 'p'],
        Street::Flop => seq!['F', 'l', 'o', 'p'],
        Street::Turn => seq!['T', 'u', 'r', 'n'],
        Street::River => seq!['R', 'i', 'v', 'e', 'r'],
    }
}

/// Each street but the river is followed by the next one, which shows more cards.
pub proof fn lemma_next_street(s: Street)
    ensures
        s.spec_next() is None <==> s == Street::River,
        s.spec_next() matches Some(n) ==> n.spec_ordinal() == s.spec_ordinal() + 1
            && n.spec_board_card_count() > s.spec_board_card_count(),
{
}

/// A player action in a poker hand.
#[derive(Debug, Clone, Copy, PartialEq, Eq, PartialOrd, Ord, Hash, Structural)]
pub enum Action {
    /// Fold and forfeit the hand.
    Fold,
    /// Check (pass when there is no bet to call).
    Check,
    /// Call the current bet.
    Call,
    /// Bet the given amount.
    Bet(u64),
    /// Raise by the given amount over the current bet.
    Raise(u64),
    /// Go all-in with the remaining stack.
    AllIn,
}

/// The decimal digits of `n`.
pub open spec fn decimal_text(n: nat) -> Seq<char>
    decreases n,
{
    if n < 10 {
        seq![(48 + n) as char]
    } else {
        decimal_text(n / 10).push((48 + n % 10) as char)
    }
}

/// Appends the decimal digits of `n` to `s`.
fn push_decimal(s: &mut String, n: u64)
    ensures
        final(s)@ == old(s)@ + decimal_text(n as nat),
    decreases n,
{
    if n >= 10 {
        push_decimal(s, n / 10);
    }
    let d = n % 10;
    proof {
        reveal_strlit("0");
        reveal_strlit("1");
        reveal_strlit("2");
        reveal_strlit("3");
        reveal_strlit("4");
        reveal_strlit("5");
        reveal_strlit("6");
        reveal_strlit("7");
        reveal_strlit("8");
        reveal_strlit("9");
    }
    let digit: &str = match d {
        0 => "0",
        1 => "1",
        2 => "2",
        3 => "3",
        4 => "4",
        5 => "5",
        6 => "6",
        7 => "7",
        8 => "8",
        _ => "9",
    };
    s.append(digit);
    assert(s@ =~= old(s)@ + decimal_text(n as nat));
}

/// The text of an action, such as `Fold` or `Bet(100)`.
pub open spec fn action_text(a: Action) -> Seq<char> {
    match a {
        Action::Fold => seq!['F', 'o', 'l', 'd'],
        Action::Check => seq!['C', 'h', 'e', 'c', 'k'],
        Action::Call => seq!['C', 'a', 'l', 'l'],
        Action::Bet(x) => seq!['B', 'e', 't', '('] + decimal_text(x as nat) + seq![')'],
        Action::Raise(x) => seq!['R', 'a', 'i', 's', 'e', '('] + decimal_text(x as nat) + seq![')'],
        Action::AllIn => seq!['A', 'l', 'l', 'I', 'n'],
    }
}

impl Action {
    /// Returns the action's text, such as `Fold` or `Raise(50)`.
    pub fn to_string(&self) -> (s: String)
        ensures
            s@ == action_text(*self),
    {
        proof {
            reveal_strlit("Fold");
            reveal_strlit("Check");
            reveal_strlit("Call");
            reveal_strlit("Bet(");
            reveal_strlit("Raise(");
            reveal_strlit(")");
            reveal_strlit("AllIn");
        }
        match self {
            Action::Fold => String::from_str("Fold"),
            Action::Check => String::from_str("Check"),
            Action::Call => String::from_str("Call"),
            Action::Bet(x) => {
                let mut s = String::from_str("Bet(");
                push_decimal(&mut s, *x);
                s.append(")");
                s
            },
            Action::Raise(x) => {
                let mut s = String::from_str("Raise(");
                push_decimal(&mut s, *x);
                s.append(")");
                s
            },
            Action::AllIn => String::from_str("AllIn"),
        }
    }
}

/// Fixed-capacity record of the actions of a hand.
#[derive(Debug, Clone, Copy, PartialEq, Eq, Hash)]
pub struct ActionHistory {
    actions: [Action; 24],
    len: u8,
}

impl View for ActionHistory {
    type V = Seq<Action>;

    closed spec fn view(&self) -> Seq<Action> {
        self.actions@.take(self.len as int)
    }
}

impl ActionHistory {
    /// At most 24 actions; unused slots hold `Fold`.
    #[verifier::type_invariant]
    spec fn history_inv(self) -> bool {
        &&& self.len <= 24
        &&& forall|i: int| self.len <= i < 24 ==> #[trigger] self.actions@[i] == Action::Fold
    }

    /// Creates an empty action history.
    pub fn new() -> (h: Self)
        ensures
            h@ == Seq::<Action>::empty(),
    {
        let h = ActionHistory { actions: [Action::Fold; 24], len: 0 };
        assert(h@ =~= Seq::<Action>::empty());
        h
    }

    /// Appends an action; the history must not be full.
    pub fn push(&mut self, action: Action)
        requires
            old(self)@.len() < MAX_HISTORY_LEN,
        ensures
            final(self)@ == old(self)@.push(action),
    {
        proof {
            use_type_invariant(&*self);
        }
        let i = self.len as usize;
        let mut actions = self.actions;
        actions[i] = action;
        *self = ActionHistory { actions, len: self.len + 1 };
        assert(self@ =~= old(self)@.push(action));
    }

    /// Returns the number of recorded actions.
    pub fn len(&self) -> (n: usize)
        ensures
            n == self@.len(),
            n <= MAX_HISTORY_LEN,
    {
        proof {
            use_type_invariant(self);
        }
        self.len as usize
    }

    /// Returns `true` if no action has been recorded.
    pub fn is_empty(&self) -> (b: bool)
        ensures
            b == (self@.len() == 0),
    {
        proof {
            use_type_invariant(self);
        }
        self.len == 0
    }

    /// Returns the recorded actions as a slice.
    pub fn as_slice(&self) -> (out: &[Action])
        ensures
            out@ == self@,
    {
        proof {
            use_type_invariant(self);
        }
        let all: &[Action] = self.actions.as_slice();
        let out = vstd::slice::slice_subrange(all, 0, self.len as usize);
        assert(out@ =~= self@);
        out
    }

    /// Returns an iterator over the recorded actions.
    pub fn iter(&self) -> (it: std::slice::Iter<'_, Action>)
        ensures
            vstd::std_specs::iter::IteratorSpec::remaining(&it) == self@.as_ref(),
    {
        let s = self.as_slice();
        proof {
            vstd::std_specs::slice::axiom_spec_slice_iter(s);
        }
        s.iter()
    }
}

impl Default for ActionHistory {
    /// An empty history.
    fn default() -> (h: Self)
        ensures
            h@ == Seq::<Action>::empty(),
    {
        Self::new()
    }
}

/// The actions offered at a decision point (at most eight).
#[derive(Debug, Clone, Copy, PartialEq, Eq)]
pub struct LegalActions {
    actions: [Action; 8],
    len: u8,
}

impl View for LegalActions {
    type V = Seq<Action>;

    closed spec fn view(&self) -> Seq<Action> {
        self.actions@.take(self.len as int)
    }
}

impl LegalActions {
    /// At most eight actions.
    #[verifier::type_invariant]
    spec fn legal_inv(self) -> bool {
        self.len <= 8
    }

    /// Returns the number of legal actions.
    pub fn len(&self) -> (n: usize)
        ensures
            n == self@.len(),
            n <= MAX_ACTIONS,
    {
        proof {
            use_type_invariant(self);
        }
        self.len as usize
    }

    /// Returns `true` if there are no legal actions.
    pub fn is_empty(&self) -> (b: bool)
        ensures
            b == (self@.len() == 0),
    {
        proof {
            use_type_invariant(self);
        }
        self.len == 0
    }

    /// Returns the actions as a slice.
    pub fn as_slice(&self) -> (out: &[Action])
        ensures
            out@ == self@,
    {
        proof {
            use_type_invariant(self);
        }
        let all: &[Action] = self.actions.as_slice();
        let out = vstd::slice::slice_subrange(all, 0, self.len as usize);
        assert(out@ =~= self@);
        out
    }

    /// Returns `true` if the action is among the legal actions.
    pub fn contains(&self, action: &Action) -> (b: bool)
        ensures
            b == self@.contains(*action),
    {
        let s = self.as_slice();
        slice_contains(s, action)
    }

    /// Returns an iterator over the legal actions.
    pub fn iter(&self) -> (it: std::slice::Iter<'_, Action>)
        ensures
            vstd::std_specs::iter::IteratorSpec::remaining(&it) == self@.as_ref(),
    {
        let s = self.as_slice();
        proof {
            vstd::std_specs::slice::axiom_spec_slice_iter(s);
        }
        s.iter()
    }

    /// Returns the legal actions as an owned vector.
    pub fn to_vec(&self) -> (v: Vec<Action>)
        ensures
            v@ == self@,
    {
        let s = self.as_slice();
        let mut v: Vec<Action> = Vec::new();
        let mut i: usize = 0;
        while i < s.len()
            invariant
                i <= s@.len(),
                v@ =~= s@.take(i as int),
            decreases s@.len() - i,
        {
            v.push(s[i]);
            i = i + 1;
        }
        assert(s@.take(s@.len() as int) =~= s@);
        v
    }

    /// Consumes the legal actions and iterates over them in order.
    pub fn into_iter(self) -> (it: std::vec::IntoIter<Action>)
        ensures
            vstd::std_specs::iter::IteratorSpec::remaining(&it) == self@,
    {
        let v = self.to_vec();
        proof {
            vstd::std_specs::vec::axiom_spec_into_iter(v);
        }
        v.into_iter()
    }
}

/// An owned cursor over legal actions, yielding them in order.
#[derive(Debug, Clone, Copy)]
pub struct LegalActionsIter {
    actions: [Action; 8],
    len: u8,
    pos: u8,
}

impl LegalActionsIter {
    /// The cursor never passes the end.
    #[verifier::type_invariant]
    spec fn iter_inv(self) -> bool {
        self.pos <= self.len <= 8
    }

    /// The actions still to be yielded.
    pub closed spec fn remaining(&self) -> Seq<Action> {
        self.actions@.subrange(self.pos as int, self.len as int)
    }

    /// Yields the next action, or `None` once all have been yielded (and ever after).
    pub fn next(&mut self) -> (a: Option<Action>)
        ensures
            old(self).remaining().len() == 0 ==> a is None && final(self).remaining() == old(
                self,
            ).remaining(),
            old(self).remaining().len() > 0 ==> a == Some(old(self).remaining()[0])
                && final(self).remaining() == old(self).remaining().drop_first(),
    {
        proof {
            use_type_invariant(&*self);
        }
        if self.pos < self.len {
            let action = self.actions[self.pos as usize];
            *self = LegalActionsIter { actions: self.actions, len: self.len, pos: self.pos + 1 };
            assert(self.remaining() =~= old(self).remaining().drop_first());
            Some(action)
        } else {
            None
        }
    }

    /// The number of actions still to be yielded.
    pub fn len(&self) -> (n: usize)
        ensures
            n == self.remaining().len(),
    {
        proof {
            use_type_invariant(self);
        }
        (self.len - self.pos) as usize
    }
}

impl LegalActions {
    /// Consumes the legal actions into an owned cursor over them.
    pub fn into_actions_iter(self) -> (it: LegalActionsIter)
        ensures
            it.remaining() == self@,
    {
        proof {
            use_type_invariant(&self);
        }
        let it = LegalActionsIter { actions: self.actions, len: self.len, pos: 0 };
        assert(it.remaining() =~= self@);
        it
    }
}

/// Returns `true` if the slice holds the action.
fn slice_contains(s: &[Action], action: &Action) -> (b: bool)
    ensures
        b == s@.contains(*action),
{
    let mut i: usize = 0;
    while i < s.len()
        invariant
            i <= s@.len(),
            forall|j: int| 0 <= j < i ==> s@[j] != *action,
        decreases s@.len() - i,
    {
        if s[i] == *action {
            assert(s@[i as int] == *action);
            return true;
        }
        i = i + 1;
    }
    false
}


// ---------------------------------------------------------------------------
// The game state and its mathematical model
// ---------------------------------------------------------------------------

/// The mathematical model of a [`GameState`]: every field as a plain value.
pub struct GameModel {
    /// Current betting street.
    pub street: Street,
    /// Player to act.
    pub current: Player,
    /// Chips in the pot.
    pub pot: int,
    /// Chips committed by the small blind.
    pub committed_sb: int,
    /// Chips committed by the big blind.
    pub committed_bb: int,
    /// Actions taken so far.
    pub history: Seq<Action>,
    /// Minimum raise size in the current round.
    pub min_raise: int,
    /// Highest commitment to match in the current round.
    pub last_bet: int,
    /// The game configuration.
    pub config: GameConfig,
    /// Index in `history` where the current round started.
    pub round_start: int,
    /// Both players can no longer act: the hand goes to showdown.
    pub all_in_showdown: bool,
}

/// `a - b`, or 0 when `b` exceeds `a`.
pub open spec fn sat_sub(a: int, b: int) -> int {
    if a > b {
        a - b
    } else {
        0
    }
}

/// The smaller of two integers.
pub open spec fn min_int(a: int, b: int) -> int {
    if a < b {
        a
    } else {
        b
    }
}

/// The larger of two integers.
pub open spec fn max_int(a: int, b: int) -> int {
    if a > b {
        a
    } else {
        b
    }
}

/// Appends `a` unless `s` already holds it.
pub open spec fn push_unique(s: Seq<Action>, a: Action) -> Seq<Action> {
    if s.contains(a) {
        s
    } else {
        s.push(a)
    }
}

/// The current betting round is over: at least two actions in the round, and
/// the last is a call, or a check after a check or a call.
pub open spec fn round_closed(h: Seq<Action>, start: int) -> bool {
    &&& 0 <= start < h.len()
    &&& h.len() - start >= 2
    &&& (h.last() == Action::Call || (h.last() == Action::Check && (h[h.len() - 2]
        == Action::Check || h[h.len() - 2] == Action::Call)))
}

impl GameModel {
    /// Initial stack of a player.
    pub open spec fn stack(self, p: Player) -> int {
        self.config.initial_stacks[p.spec_index()] as int
    }

    /// Chips committed by a player.
    pub open spec fn committed(self, p: Player) -> int {
        match p {
            Player::SB => self.committed_sb,
            Player::BB => self.committed_bb,
        }
    }

    /// Chips the player to act still has behind.
    pub open spec fn remaining(self) -> int {
        sat_sub(self.stack(self.current), self.committed(self.current))
    }

    /// Chips the player to act must add to match the current bet.
    pub open spec fn to_call(self) -> int {
        sat_sub(self.last_bet, self.committed(self.current))
    }

    /// The opponent of the player to act has committed the whole stack.
    pub open spec fn opponent_all_in(self) -> bool {
        self.committed(self.current.spec_opponent()) >= self.stack(self.current.spec_opponent())
    }

    /// Bet size for a third-pot fraction `frac` (1/3, 2/3 or the full pot),
    /// capped at the remaining stack.
    pub open spec fn bet_size(self, frac: int) -> int {
        min_int(self.pot * frac / 3, self.remaining())
    }

    /// Raise size (over the call) for a half-pot fraction `frac`, at least the
    /// minimum raise and at most what remains after calling.
    pub open spec fn raise_size(self, frac: int) -> int {
        min_int(max_int(self.pot * frac / 2, self.min_raise), self.remaining() - self.to_call())
    }

    /// Adds the bets for the first `k` pot fractions that reach the minimum bet.
    pub open spec fn add_bets(self, s: Seq<Action>, k: int) -> Seq<Action>
        decreases k,
    {
        if k <= 0 {
            s
        } else {
            let prev = self.add_bets(s, k - 1);
            let size = self.bet_size(k);
            if size >= self.config.min_bet {
                push_unique(prev, Action::Bet(size as u64))
            } else {
                prev
            }
        }
    }

    /// Adds the raises for the first `k` pot fractions that reach the minimum raise.
    pub open spec fn add_raises(self, s: Seq<Action>, k: int) -> Seq<Action>
        decreases k,
    {
        if k <= 0 {
            s
        } else {
            let prev = self.add_raises(s, k - 1);
            let size = self.raise_size(k);
            if size >= self.min_raise {
                push_unique(prev, Action::Raise(size as u64))
            } else {
                prev
            }
        }
    }

    /// The actions before the all-in option is considered.
    pub open spec fn base_actions(self) -> Seq<Action> {
        let start = if self.remaining() != 0 {
            seq![Action::Fold]
        } else {
            seq![]
        };
        if self.to_call() == 0 {
            let s = start.push(Action::Check);
            if !self.opponent_all_in() {
                self.add_bets(s, 3)
            } else {
                s
            }
        } else if self.to_call() <= self.remaining() {
            let s = start.push(Action::Call);
            if !self.opponent_all_in() {
                self.add_raises(s, 2)
            } else {
                s
            }
        } else {
            start
        }
    }

    /// The actions offered to the player to act, in order.
    pub open spec fn legal_actions(self) -> Seq<Action> {
        let base = self.base_actions();
        let rem = self.remaining();
        let tc = self.to_call();
        if rem > 0 {
            let skip = (self.opponent_all_in() && tc < rem) || tc == rem;
            let dup = base.contains(Action::Bet(rem as u64)) || (tc < rem && base.contains(
                Action::Raise((rem - tc) as u64),
            ));
            if !skip && !dup {
                base.push(Action::AllIn)
            } else {
                base
            }
        } else {
            base
        }
    }

    /// The last action was a fold.
    pub open spec fn is_fold(self) -> bool {
        self.history.len() > 0 && self.history.last() == Action::Fold
    }

    /// The river betting round is over.
    pub open spec fn is_showdown(self) -> bool {
        self.street == Street::River && round_closed(self.history, self.round_start)
    }

    /// The hand is over.
    pub open spec fn is_terminal(self) -> bool {
        self.is_fold() || self.is_showdown() || self.all_in_showdown
    }

    /// Chips an action adds to the acting player's commitment.
    pub open spec fn added(self, a: Action) -> int {
        match a {
            Action::Fold => 0,
            Action::Check => 0,
            Action::Call => self.to_call(),
            Action::Bet(x) => x as int,
            Action::Raise(x) => self.to_call() + x,
            Action::AllIn => self.remaining(),
        }
    }

    /// Applying the action does not overflow the 64-bit chip counters.
    pub open spec fn fits(self, a: Action) -> bool {
        &&& self.pot + self.added(a) <= u64::MAX
        &&& self.committed(self.current) + self.added(a) <= u64::MAX
    }

    /// The action may be applied: it is legal, or the hand is already over.
    pub open spec fn can_apply(self, a: Action) -> bool {
        (self.legal_actions().contains(a) || self.is_terminal()) && self.fits(a)
    }

    /// The chip accounting of a well-formed state: the pot is the sum of the
    /// commitments, nobody has committed more than the stack, and both stacks
    /// together fit in 64 bits.
    pub open spec fn wf(self) -> bool {
        &&& self.pot == self.committed_sb + self.committed_bb
        &&& 0 <= self.committed_sb <= self.stack(Player::SB)
        &&& 0 <= self.committed_bb <= self.stack(Player::BB)
        &&& self.stack(Player::SB) + self.stack(Player::BB) <= u64::MAX
        &&& 0 <= self.round_start <= self.history.len()
    }

    /// The state right after the acting player's chips move (before the turn passes).
    pub open spec fn after_chips(self, a: Action) -> GameModel {
        let cur = self.current;
        let add = self.added(a);
        let new_committed = self.committed(cur) + add;
        let csb = if cur == Player::SB {
            new_committed
        } else {
            self.committed_sb
        };
        let cbb = if cur == Player::BB {
            new_committed
        } else {
            self.committed_bb
        };
        let last_bet = match a {
            Action::Bet(_) | Action::Raise(_) | Action::AllIn => new_committed,
            _ => self.last_bet,
        };
        let raise_portion = sat_sub(self.remaining(), self.to_call());
        let min_raise = match a {
            Action::Bet(x) => x as int,
            Action::Raise(x) => x as int,
            Action::AllIn => if raise_portion > self.min_raise {
                raise_portion
            } else {
                self.min_raise
            },
            _ => self.min_raise,
        };
        GameModel {
            pot: self.pot + add,
            committed_sb: csb,
            committed_bb: cbb,
            history: self.history.push(a),
            min_raise,
            last_bet,
            ..self
        }
    }

    /// The state after the action: chips move, then the hand ends on a fold,
    /// goes to showdown when both are all-in, moves to the next street when the
    /// round closes (straight to showdown when exactly one player is all-in),
    /// or passes the turn to the opponent.
    pub open spec fn step(self, a: Action) -> GameModel {
        let m = self.after_chips(a);
        let sb_all_in = m.committed_sb >= m.stack(Player::SB);
        let bb_all_in = m.committed_bb >= m.stack(Player::BB);
        if a == Action::Fold {
            GameModel { current: self.current.spec_opponent(), ..m }
        } else if sb_all_in && bb_all_in {
            GameModel { all_in_showdown: true, ..m }
        } else if round_closed(m.history, m.round_start) && m.street != Street::River {
            GameModel {
                street: m.street.spec_next().unwrap(),
                last_bet: 0,
                min_raise: m.config.min_bet as int,
                current: Player::SB,
                round_start: m.history.len() as int,
                all_in_showdown: m.all_in_showdown || sb_all_in != bb_all_in,
                ..m
            }
        } else {
            GameModel { current: self.current.spec_opponent(), ..m }
        }
    }
}

/// Complete state of a poker hand.
#[derive(Debug, Clone, Copy)]
pub struct GameState {
    /// Current betting street.
    pub street: Street,
    /// Player whose turn it is to act.
    pub current_player: Player,
    /// Current pot size.
    pub pot: u64,
    /// Amount each player has committed to the pot.
    pub committed: [u64; 2],
    /// History of actions taken in this hand.
    pub history: ActionHistory,
    /// Minimum raise size for the current betting round.
    pub min_raise: u64,
    /// The highest commitment in the current round.
    pub last_bet: u64,
    /// Game configuration.
    pub config: GameConfig,
    /// Index in `history` where the current betting round started.
    pub round_start: usize,
    /// Both players can no longer act: the hand goes straight to showdown.
    pub all_in_showdown: bool,
}

impl GameState {
    /// The state as a mathematical value.
    pub open spec fn model(&self) -> GameModel {
        GameModel {
            street: self.street,
            current: self.current_player,
            pot: self.pot as int,
            committed_sb: self.committed[0] as int,
            committed_bb: self.committed[1] as int,
            history: self.history@,
            min_raise: self.min_raise as int,
            last_bet: self.last_bet as int,
            config: self.config,
            round_start: self.round_start as int,
            all_in_showdown: self.all_in_showdown,
        }
    }

    /// Chips the player to act still has behind.
    fn remaining(&self) -> (r: u64)
        ensures
            r == self.model().remaining(),
    {
        let i = self.current_player.index();
        let stack = self.config.initial_stacks[i];
        let c = self.committed[i];
        if stack > c {
            stack - c
        } else {
            0
        }
    }

    /// Chips the player to act must add to match the current bet.
    fn to_call(&self) -> (t: u64)
        ensures
            t == self.model().to_call(),
    {
        let c = self.committed[self.current_player.index()];
        if self.last_bet > c {
            self.last_bet - c
        } else {
            0
        }
    }

    /// Returns the legal actions for the player to act.
    ///
    /// An all-in player (nothing behind) is only offered Check; facing a bet the
    /// player may call (if the stack covers it) and raise; otherwise check and
    /// bet a third, two thirds or all of the pot. Bets and raises are not offered
    /// against an all-in opponent, and All-in is left out where it would repeat
    /// another offered action.
    pub fn legal_actions(&self) -> (la: LegalActions)
        ensures
            la@ == self.model().legal_actions(),
    {
        let ghost m = self.model();
        let remaining = self.remaining();
        let to_call = self.to_call();
        let opp = self.current_player.opponent().index();
        let opponent_all_in = self.committed[opp] >= self.config.initial_stacks[opp];
        let mut acts: Vec<Action> = Vec::new();
        if remaining != 0 {
            acts.push(Action::Fold);
        }
        assert(acts@ =~= (if m.remaining() != 0 { seq![Action::Fold] } else { seq![] }));
        if to_call == 0 {
            acts.push(Action::Check);
            if !opponent_all_in {
                let ghost s = acts@;
                let mut frac: u64 = 1;
                while frac <= 3
                    invariant
                        1 <= frac <= 4,
                        acts@ == m.add_bets(s, frac - 1),
                        acts@.len() <= s.len() + frac - 1,
                        s.len() <= 2,
                        remaining == m.remaining(),
                        self.model() == m,
                    decreases 4 - frac,
                {
                    let pot128 = self.pot as u128;
                    let frac128 = frac as u128;
                    assert(pot128 * frac128 <= 3 * 0xFFFF_FFFF_FFFF_FFFFu128) by (nonlinear_arith)
                        requires
                            pot128 <= 0xFFFF_FFFF_FFFF_FFFFu128,
                            frac128 <= 3,
                    ;
                    let bet128 = pot128 * frac128 / 3;
                    let bet_size: u64 = if bet128 < remaining as u128 {
                        bet128 as u64
                    } else {
                        remaining
                    };
                    assert(bet_size == m.bet_size(frac as int));
                    if bet_size >= self.config.min_bet && acts.len() < MAX_ACTIONS - 1 {
                        let action = Action::Bet(bet_size);
                        if !slice_contains(acts.as_slice(), &action) {
                            acts.push(action);
                        }
                    }
                    frac = frac + 1;
                }
            }
        } else if to_call <= remaining {
            acts.push(Action::Call);
            if !opponent_all_in {
                let ghost s = acts@;
                let mut frac: u64 = 1;
                while frac <= 2
                    invariant
                        1 <= frac <= 3,
                        acts@ == m.add_raises(s, frac - 1),
                        acts@.len() <= s.len() + frac - 1,
                        s.len() <= 2,
                        remaining == m.remaining(),
                        to_call == m.to_call(),
                        to_call <= remaining,
                        self.model() == m,
                    decreases 3 - frac,
                {
                    let pot128 = self.pot as u128;
                    let frac128 = frac as u128;
                    assert(pot128 * frac128 <= 2 * 0xFFFF_FFFF_FFFF_FFFFu128) by (nonlinear_arith)
                        requires
                            pot128 <= 0xFFFF_FFFF_FFFF_FFFFu128,
                            frac128 <= 2,
                    ;
                    assert(pot128 * frac128 / 2 <= 0xFFFF_FFFF_FFFF_FFFFu128) by (nonlinear_arith)
                        requires
                            pot128 <= 0xFFFF_FFFF_FFFF_FFFFu128,
                            frac128 <= 2,
                    ;
                    let pot_frac = (pot128 * frac128 / 2) as u64;
                    let at_least = if pot_frac > self.min_raise {
                        pot_frac
                    } else {
                        self.min_raise
                    };
                    let raise_over_call = if at_least < remaining - to_call {
                        at_least
                    } else {
                        remaining - to_call
                    };
                    assert(raise_over_call == m.raise_size(frac as int));
                    if raise_over_call >= self.min_raise && acts.len() < MAX_ACTIONS - 1 {
                        let action = Action::Raise(raise_over_call);
                        if !slice_contains(acts.as_slice(), &action) {
                            acts.push(action);
                        }
                    }
                    frac = frac + 1;
                }
            }
        }
        assert(acts@ == m.base_actions());
        if remaining > 0 {
            let skip_all_in = opponent_all_in && to_call < remaining || to_call == remaining;
            if !skip_all_in {
                let dup = slice_contains(acts.as_slice(), &Action::Bet(remaining)) || (to_call
                    < remaining && slice_contains(
                    acts.as_slice(),
                    &Action::Raise(remaining - to_call),
                ));
                if !dup {
                    acts.push(Action::AllIn);
                }
            }
        }
        assert(acts@ == m.legal_actions());
        LegalActions::from_vec(acts)
    }
}

/// The model of the state that starts a hand: blinds posted (each capped at
/// its stack), small blind to act, and an immediate showdown when the small
/// blind is all-in from posting.
pub open spec fn initial_model(config: GameConfig) -> GameModel {
    let sb = min_int(config.small_blind as int, config.initial_stacks[0] as int);
    let bb = min_int(config.big_blind as int, config.initial_stacks[1] as int);
    GameModel {
        street: Street::Preflop,
        current: Player::SB,
        pot: sb + bb,
        committed_sb: sb,
        committed_bb: bb,
        history: seq![],
        min_raise: config.min_bet as int,
        last_bet: bb,
        config,
        round_start: 0,
        all_in_showdown: sb >= config.initial_stacks[0],
    }
}

impl GameState {
    /// Creates the state that starts a hand, with the blinds posted.
    ///
    /// A blind larger than its stack is capped at the stack; the hand is over
    /// at once when the small blind has nothing left behind.
    pub fn new(config: GameConfig) -> (s: Self)
        requires
            min_int(config.small_blind as int, config.initial_stacks[0] as int) + min_int(
                config.big_blind as int,
                config.initial_stacks[1] as int,
            ) <= u64::MAX,
        ensures
            s.model() == initial_model(config),
            config.initial_stacks[0] + config.initial_stacks[1] <= u64::MAX ==> s.model().wf(),
    {
        let sb_committed = if config.small_blind < config.initial_stacks[0] {
            config.small_blind
        } else {
            config.initial_stacks[0]
        };
        let bb_committed = if config.big_blind < config.initial_stacks[1] {
            config.big_blind
        } else {
            config.initial_stacks[1]
        };
        let pot = sb_committed + bb_committed;
        let all_in_showdown = sb_committed >= config.initial_stacks[0];
        let s = GameState {
            street: Street::Preflop,
            current_player: Player::SB,
            pot,
            committed: [sb_committed, bb_committed],
            history: ActionHistory::new(),
            min_raise: config.min_bet,
            last_bet: bb_committed,
            config,
            round_start: 0,
            all_in_showdown,
        };
        assert(s.model() =~= initial_model(config));
        s
    }

    /// Returns `true` if the hand has ended (fold, river showdown, or all-in showdown).
    pub fn is_terminal(&self) -> (b: bool)
        ensures
            b == self.model().is_terminal(),
    {
        self.is_fold() || self.is_showdown() || self.all_in_showdown
    }

    /// Returns the number of board cards visible on the current street.
    pub fn visible_board_count(&self, board_len: usize) -> (n: usize)
        ensures
            n == min_int(self.street.spec_board_card_count(), board_len as int),
    {
        let c = self.street.board_card_count();
        if c < board_len {
            c
        } else {
            board_len
        }
    }

    /// Returns `true` if the last action was a fold.
    pub fn is_fold(&self) -> (b: bool)
        ensures
            b == self.model().is_fold(),
    {
        let h = self.history.as_slice();
        h.len() > 0 && h[h.len() - 1] == Action::Fold
    }

    /// Returns `true` if the river betting round is over.
    pub fn is_showdown(&self) -> (b: bool)
        ensures
            b == self.model().is_showdown(),
    {
        self.street == Street::River && self.betting_round_closed()
    }

    /// Returns `true` if the hand goes straight to showdown because no player can act.
    pub fn is_all_in_showdown(&self) -> (b: bool)
        ensures
            b == self.all_in_showdown,
    {
        self.all_in_showdown
    }

    /// Returns `true` if the current betting round is complete: at least two
    /// actions in the round, and the last a call, or a check after a check or
    /// a call.
    pub fn betting_round_closed(&self) -> (b: bool)
        ensures
            b == round_closed(self.history@, self.round_start as int),
    {
        let history = self.history.as_slice();
        if self.round_start >= history.len() || history.len() - self.round_start < 2 {
            return false;
        }
        let n = history.len();
        let last = history[n - 1];
        match last {
            Action::Call => true,
            Action::Check => {
                let prev = history[n - 2];
                prev == Action::Check || prev == Action::Call
            },
            _ => false,
        }
    }

    /// Returns the winner if the hand ended by a fold: after a fold the turn has
    /// passed to the player who did not fold.
    pub fn winner(&self) -> (w: Option<Player>)
        ensures
            w == (if self.model().is_fold() {
                Some(self.current_player)
            } else {
                None
            }),
    {
        if self.is_fold() {
            Some(self.current_player)
        } else {
            None
        }
    }

    /// Applies an action and returns the new state.
    ///
    /// The action must be legal, unless the hand is already over.
    pub fn apply_action(&self, action: Action) -> (s: Self)
        requires
            self.history@.len() < MAX_HISTORY_LEN,
            self.model().can_apply(action),
        ensures
            s.model() == self.model().step(action),
            self.model().wf() && self.model().legal_actions().contains(action) ==> s.model().wf(),
    {
        let ghost m = self.model();
        proof {
            if m.wf() && m.legal_actions().contains(action) {
                m.lemma_step_preserves_wf(action);
            }
        }
        let cur = self.current_player.index();
        let remaining = self.remaining();
        let to_call = self.to_call();
        let mut committed = self.committed;
        let mut pot = self.pot;
        let mut last_bet = self.last_bet;
        let mut min_raise = self.min_raise;
        match action {
            Action::Fold | Action::Check => {},
            Action::Call => {
                committed[cur] = committed[cur] + to_call;
                pot = pot + to_call;
            },
            Action::Bet(amount) => {
                committed[cur] = committed[cur] + amount;
                pot = pot + amount;
                last_bet = committed[cur];
                min_raise = amount;
            },
            Action::Raise(amount) => {
                let total = to_call + amount;
                committed[cur] = committed[cur] + total;
                pot = pot + total;
                last_bet = committed[cur];
                min_raise = amount;
            },
            Action::AllIn => {
                committed[cur] = committed[cur] + remaining;
                pot = pot + remaining;
                last_bet = committed[cur];
                let raise_portion = if remaining > to_call {
                    remaining - to_call
                } else {
                    0
                };
                if raise_portion > min_raise {
                    min_raise = raise_portion;
                }
            },
        }
        let mut history = self.history;
        history.push(action);
        let mut next = GameState {
            street: self.street,
            current_player: self.current_player,
            pot,
            committed,
            history,
            min_raise,
            last_bet,
            config: self.config,
            round_start: self.round_start,
            all_in_showdown: self.all_in_showdown,
        };
        assert(next.model() =~= m.after_chips(action));
        if action == Action::Fold {
            next.current_player = self.current_player.opponent();
        } else {
            let sb_all_in = next.committed[0] >= next.config.initial_stacks[0];
            let bb_all_in = next.committed[1] >= next.config.initial_stacks[1];
            if sb_all_in && bb_all_in {
                next.all_in_showdown = true;
            } else if next.betting_round_closed() && next.street != Street::River {
                if let Some(next_street) = next.street.next() {
                    next.street = next_street;
                    next.last_bet = 0;
                    next.min_raise = next.config.min_bet;
                    next.current_player = Player::SB;
                    next.round_start = next.history.len();
                }
                if sb_all_in != bb_all_in {
                    next.all_in_showdown = true;
                }
            } else {
                next.current_player = self.current_player.opponent();
            }
        }
        assert(next.model() =~= m.step(action));
        next
    }
}

/// The texts of the cards, each preceded by `/`.
pub open spec fn cards_text(cs: Seq<Card>) -> Seq<char>
    decreases cs.len(),
{
    if cs.len() == 0 {
        seq![]
    } else {
        cards_text(cs.drop_last()) + seq!['/'] + card_text(cs.last())
    }
}

/// The texts of the actions, one after the other.
pub open spec fn actions_text(s: Seq<Action>) -> Seq<char>
    decreases s.len(),
{
    if s.len() == 0 {
        seq![]
    } else {
        actions_text(s.drop_last()) + action_text(s.last())
    }
}

/// The text of an information set: player, street and hole cards separated by
/// `:` and `/`, then `/` and each board card, then `:` and the actions if any.
pub open spec fn info_set_text(i: InfoSet) -> Seq<char> {
    let head = player_text(i.player) + seq![':'] + street_text(i.street) + seq![':'] + card_text(
        i.hole[0],
    ) + seq!['/'] + card_text(i.hole[1]) + cards_text(i.board@);
    if i.history@.len() == 0 {
        head
    } else {
        head + seq![':'] + actions_text(i.history@)
    }
}

/// Information set of a player: what that player can see.
#[derive(Debug, Clone, Copy, PartialEq, Eq, Hash)]
pub struct InfoSet {
    /// The player this information set belongs to.
    pub player: Player,
    /// Current betting street.
    pub street: Street,
    /// The player's hole cards.
    pub hole: [Card; 2],
    /// Community cards visible so far.
    pub board: CardSet,
    /// Betting history.
    pub history: ActionHistory,
}

impl InfoSet {
    /// Creates an information set from cards and an existing action history.
    pub fn from_cards_with_history(
        player: Player,
        street: Street,
        hole: &[Card; 2],
        board: CardSet,
        history: ActionHistory,
    ) -> (i: Self)
        ensures
            i.player == player,
            i.street == street,
            i.hole == *hole,
            i.board == board,
            i.history == history,
    {
        InfoSet { player, street, hole: *hole, board, history }
    }

    /// Creates an information set from cards, with an empty history.
    pub fn from_cards(player: Player, street: Street, hole: &[Card; 2], board: CardSet) -> (i: Self)
        ensures
            i.player == player,
            i.street == street,
            i.hole == *hole,
            i.board == board,
            i.history@ == Seq::<Action>::empty(),
    {
        InfoSet { player, street, hole: *hole, board, history: ActionHistory::new() }
    }

    /// Returns the text of the information set, such as `SB:Flop:Ac/Kd/Th/9s/8c:Call`.
    pub fn to_string(&self) -> (s: String)
        ensures
            s@ == info_set_text(*self),
    {
        proof {
            reveal_strlit(":");
            reveal_strlit("/");
        }
        let mut s = self.player.to_string();
        s.append(":");
        let street = self.street.to_string();
        s.append(street.as_str());
        s.append(":");
        let h0 = self.hole[0].to_string();
        s.append(h0.as_str());
        s.append("/");
        let h1 = self.hole[1].to_string();
        s.append(h1.as_str());
        let ghost head = s@;
        let board = self.board.as_slice();
        let mut i: usize = 0;
        while i < board.len()
            invariant
                i <= board@.len(),
                s@ == head + cards_text(board@.take(i as int)),
            decreases board@.len() - i,
        {
            proof {
                reveal_strlit("/");
            }
            s.append("/");
            let c = board[i].to_string();
            s.append(c.as_str());
            assert(board@.take(i + 1).drop_last() =~= board@.take(i as int));
            assert(board@.take(i + 1).last() == board@[i as int]);
            assert(cards_text(board@.take(i + 1)) == cards_text(board@.take(i as int)) + seq!['/']
                + card_text(board@[i as int]));
            assert(s@ =~= head + cards_text(board@.take(i + 1)));
            i = i + 1;
        }
        assert(board@.take(board@.len() as int) =~= board@);
        if !self.history.is_empty() {
            s.append(":");
            let ghost mid = s@;
            let actions = self.history.as_slice();
            let mut j: usize = 0;
            while j < actions.len()
                invariant
                    j <= actions@.len(),
                    s@ == mid + actions_text(actions@.take(j as int)),
                decreases actions@.len() - j,
            {
                let a = actions[j].to_string();
                s.append(a.as_str());
                assert(actions@.take(j + 1).drop_last() =~= actions@.take(j as int));
                assert(actions@.take(j + 1).last() == actions@[j as int]);
                assert(s@ =~= mid + actions_text(actions@.take(j + 1)));
                j = j + 1;
            }
            assert(actions@.take(actions@.len() as int) =~= actions@);
        }
        s
    }

    /// Appends an action to the history (which must not be full).
    pub fn add_action(&mut self, action: &Action)
        requires
            old(self).history@.len() < MAX_HISTORY_LEN,
        ensures
            final(self).history@ == old(self).history@.push(*action),
            final(self).player == old(self).player,
            final(self).street == old(self).street,
            final(self).hole == old(self).hole,
            final(self).board == old(self).board,
    {
        self.history.push(*action);
    }
}

impl LegalActions {
    /// Packs up to eight actions.
    fn from_vec(v: Vec<Action>) -> (la: LegalActions)
        requires
            v@.len() <= MAX_ACTIONS,
        ensures
            la@ == v@,
    {
        let mut arr = [Action::Fold; 8];
        let mut i: usize = 0;
        while i < v.len()
            invariant
                i <= v@.len() <= 8,
                forall|j: int| 0 <= j < i ==> #[trigger] arr@[j] == v@[j],
            decreases v@.len() - i,
        {
            arr[i] = v[i];
            i = i + 1;
        }
        let la = LegalActions { actions: arr, len: v.len() as u8 };
        assert(la@ =~= v@);
        la
    }
}

} // verus!

verus! {

// ---------------------------------------------------------------------------
// Laws of the betting rules
// ---------------------------------------------------------------------------

/// `push_unique` keeps a sequence free of duplicates and only adds `a`.
pub proof fn lemma_push_unique(s: Seq<Action>, a: Action)
    ensures
        s.no_duplicates() ==> push_unique(s, a).no_duplicates(),
        forall|x: Action| push_unique(s, a).contains(x) <==> (s.contains(x) || x == a),
{
    if !s.contains(a) {
        assert forall|x: Action| s.push(a).contains(x) <==> (s.contains(x) || x == a) by {
            if s.push(a).contains(x) {
                let i = choose|i: int| 0 <= i < s.push(a).len() && s.push(a)[i] == x;
                if i < s.len() {
                    assert(s.contains(x));
                }
            }
            if s.contains(x) {
                let i = choose|i: int| 0 <= i < s.len() && s[i] == x;
                assert(s.push(a)[i] == x);
            }
            if x == a {
                assert(s.push(a)[s.len() as int] == x);
            }
        }
    }
}

impl GameModel {
    /// What the bets added for the first `k` fractions can be.
    pub proof fn lemma_add_bets(self, s: Seq<Action>, k: int)
        requires
            0 <= k <= 3,
        ensures
            s.no_duplicates() ==> self.add_bets(s, k).no_duplicates(),
            self.add_bets(s, k).len() <= s.len() + k,
            forall|x: Action|
                #[trigger] self.add_bets(s, k).contains(x) ==> s.contains(x) || exists|j: int|
                    1 <= j <= k && x == Action::Bet(self.bet_size(j) as u64) && self.bet_size(j)
                        >= self.config.min_bet,
        decreases k,
    {
        if k > 0 {
            self.lemma_add_bets(s, k - 1);
            let prev = self.add_bets(s, k - 1);
            let size = self.bet_size(k);
            lemma_push_unique(prev, Action::Bet(size as u64));
            assert forall|x: Action| #[trigger] self.add_bets(s, k).contains(x) implies s.contains(
                x,
            ) || exists|j: int|
                1 <= j <= k && x == Action::Bet(self.bet_size(j) as u64) && self.bet_size(j)
                    >= self.config.min_bet by {
                if prev.contains(x) {
                    if !s.contains(x) {
                        let j = choose|j: int|
                            1 <= j <= k - 1 && x == Action::Bet(self.bet_size(j) as u64)
                                && self.bet_size(j) >= self.config.min_bet;
                        assert(1 <= j <= k);
                    }
                } else {
                    assert(x == Action::Bet(size as u64));
                }
            }
        }
    }

    /// What the raises added for the first `k` fractions can be.
    pub proof fn lemma_add_raises(self, s: Seq<Action>, k: int)
        requires
            0 <= k <= 2,
        ensures
            s.no_duplicates() ==> self.add_raises(s, k).no_duplicates(),
            self.add_raises(s, k).len() <= s.len() + k,
            forall|x: Action|
                #[trigger] self.add_raises(s, k).contains(x) ==> s.contains(x) || exists|j: int|
                    1 <= j <= k && x == Action::Raise(self.raise_size(j) as u64)
                        && self.raise_size(j) >= self.min_raise,
        decreases k,
    {
        if k > 0 {
            self.lemma_add_raises(s, k - 1);
            let prev = self.add_raises(s, k - 1);
            let size = self.raise_size(k);
            lemma_push_unique(prev, Action::Raise(size as u64));
            assert forall|x: Action| #[trigger] self.add_raises(s, k).contains(x) implies s.contains(
                x,
            ) || exists|j: int|
                1 <= j <= k && x == Action::Raise(self.raise_size(j) as u64) && self.raise_size(j)
                    >= self.min_raise by {
                if prev.contains(x) {
                    if !s.contains(x) {
                        let j = choose|j: int|
                            1 <= j <= k - 1 && x == Action::Raise(self.raise_size(j) as u64)
                                && self.raise_size(j) >= self.min_raise;
                        assert(1 <= j <= k);
                    }
                } else {
                    assert(x == Action::Raise(size as u64));
                }
            }
        }
    }

    /// The conditions under which the rules offer an action.
    pub open spec fn offered_ok(self, a: Action) -> bool {
        match a {
            Action::Fold => self.remaining() > 0,
            Action::Check => self.to_call() == 0,
            Action::Call => 0 < self.to_call() <= self.remaining(),
            Action::Bet(x) => self.to_call() == 0 && !self.opponent_all_in() && self.config.min_bet
                <= x <= self.remaining(),
            Action::Raise(x) => 0 < self.to_call() <= self.remaining() && !self.opponent_all_in()
                && self.min_raise <= x <= self.remaining() - self.to_call(),
            Action::AllIn => self.remaining() > 0,
        }
    }

    /// Every offered action is one of the rules' options: fold only with chips
    /// behind; check only with nothing to call; call only when the stack covers
    /// it; bets (of at least the minimum bet and at most the stack) only with
    /// nothing to call and an opponent who is not all-in; raises (of at least the
    /// minimum raise, at most what remains after calling) only facing a bet the
    /// stack covers and an opponent who is not all-in; all-in only with chips
    /// behind. No action is offered twice, and at most eight are offered.
    pub proof fn lemma_legal_actions(self)
        requires
            self.wf(),
        ensures
            self.legal_actions().no_duplicates(),
            self.legal_actions().len() <= MAX_ACTIONS,
            forall|a: Action| #[trigger] self.legal_actions().contains(a) ==> self.offered_ok(a),
    {
        let rem = self.remaining();
        let tc = self.to_call();
        let start = if rem != 0 {
            seq![Action::Fold]
        } else {
            seq![]
        };
        assert(start.no_duplicates());
        assert forall|a: Action| start.contains(a) implies a == Action::Fold && rem > 0 by {
            let i = choose|i: int| 0 <= i < start.len() && start[i] == a;
        }
        let base = self.base_actions();
        if tc == 0 {
            let s = start.push(Action::Check);
            lemma_push_unique(start, Action::Check);
            assert(push_unique(start, Action::Check) == s);
            assert forall|a: Action| s.contains(a) implies self.offered_ok(a) by {
                assert(push_unique(start, Action::Check).contains(a));
            }
            if !self.opponent_all_in() {
                self.lemma_add_bets(s, 3);
                assert forall|a: Action| base.contains(a) implies self.offered_ok(a) by {
                    if !s.contains(a) {
                        let j = choose|j: int|
                            1 <= j <= 3 && a == Action::Bet(self.bet_size(j) as u64)
                                && self.bet_size(j) >= self.config.min_bet;
                        assert(self.pot * j / 3 >= 0) by (nonlinear_arith)
                            requires
                                self.pot >= 0,
                                j >= 1,
                        ;
                    }
                }
            }
        } else if tc <= rem {
            let s = start.push(Action::Call);
            lemma_push_unique(start, Action::Call);
            assert(push_unique(start, Action::Call) == s);
            assert forall|a: Action| s.contains(a) implies self.offered_ok(a) by {
                assert(push_unique(start, Action::Call).contains(a));
            }
            if !self.opponent_all_in() {
                self.lemma_add_raises(s, 2);
                assert forall|a: Action| base.contains(a) implies self.offered_ok(a) by {
                    if !s.contains(a) {
                        let j = choose|j: int|
                            1 <= j <= 2 && a == Action::Raise(self.raise_size(j) as u64)
                                && self.raise_size(j) >= self.min_raise;
                    }
                }
            }
        }
        assert(base.no_duplicates());
        assert(forall|a: Action| base.contains(a) ==> self.offered_ok(a));
        assert(!base.contains(Action::AllIn));
        assert(base.len() <= 5);
        if rem > 0 {
            lemma_push_unique(base, Action::AllIn);
            assert forall|a: Action| #[trigger] self.legal_actions().contains(a) implies self.offered_ok(
                a,
            ) by {
                if self.legal_actions() != base {
                    assert(push_unique(base, Action::AllIn).contains(a));
                }
            }
        }
    }

    /// A legal action never overflows the chip counters and keeps the chip
    /// accounting: the pot stays the sum of the commitments and nobody commits
    /// more than the stack.
    pub proof fn lemma_step_preserves_wf(self, a: Action)
        requires
            self.wf(),
            self.legal_actions().contains(a),
        ensures
            self.fits(a),
            self.step(a).wf(),
    {
        self.lemma_legal_actions();
    }

    /// A legal action in a hand that is not over keeps the chip accounting, adds
    /// chips only to the acting player (never taking any back), leaves the
    /// opponent's commitment alone, and only ever jumps to showdown when some
    /// player has committed the whole stack.
    pub proof fn lemma_legal_step(self, a: Action)
        requires
            self.wf(),
            !self.is_terminal(),
            self.legal_actions().contains(a),
        ensures
            self.fits(a),
            self.step(a).wf(),
            self.step(a).pot == self.step(a).committed_sb + self.step(a).committed_bb,
            self.step(a).committed(self.current) >= self.committed(self.current),
            self.step(a).committed(self.current.spec_opponent()) == self.committed(
                self.current.spec_opponent(),
            ),
            self.step(a).all_in_showdown ==> self.step(a).committed_sb >= self.step(a).stack(
                Player::SB,
            ) || self.step(a).committed_bb >= self.step(a).stack(Player::BB),
    {
        self.lemma_step_preserves_wf(a);
        self.lemma_legal_actions();
    }

    /// A fold ends the hand and the folder's opponent wins it.
    pub proof fn lemma_fold_ends_hand(self)
        requires
            self.can_apply(Action::Fold),
        ensures
            self.step(Action::Fold).is_terminal(),
            self.step(Action::Fold).is_fold(),
            self.step(Action::Fold).current == self.current.spec_opponent(),
            self.step(Action::Fold).pot == self.pot,
    {
    }

    /// An action never takes chips back, never goes back a street, and adds
    /// exactly itself to the history.
    pub proof fn lemma_step_monotone(self, a: Action)
        requires
            self.can_apply(a),
            self.committed_sb >= 0,
            self.committed_bb >= 0,
        ensures
            self.step(a).committed_sb >= self.committed_sb,
            self.step(a).committed_bb >= self.committed_bb,
            self.step(a).pot >= self.pot,
            self.step(a).street.spec_ordinal() >= self.street.spec_ordinal(),
            self.step(a).history == self.history.push(a),
            self.step(a).config == self.config,
    {
    }

    /// A raise puts in what it takes to match the current bet and then the
    /// raise amount on top: the raiser's commitment becomes the larger of the
    /// current bet and its own commitment, plus the amount; that is the new bet
    /// to match, the pot grows by exactly the chips added, and the opponent's
    /// commitment is untouched.
    pub proof fn lemma_raise_goes_over_the_bet(self, x: u64)
        requires
            self.committed_sb >= 0,
            self.committed_bb >= 0,
        ensures
            self.step(Action::Raise(x)).committed(self.current) == max_int(
                self.last_bet,
                self.committed(self.current),
            ) + x,
            self.step(Action::Raise(x)).last_bet == max_int(
                self.last_bet,
                self.committed(self.current),
            ) + x,
            self.step(Action::Raise(x)).committed(self.current.spec_opponent()) == self.committed(
                self.current.spec_opponent(),
            ),
            self.step(Action::Raise(x)).pot == self.pot + self.step(Action::Raise(x)).committed(
                self.current,
            ) - self.committed(self.current),
            self.step(Action::Raise(x)).min_raise == x,
            self.last_bet >= self.committed(self.current) ==> self.step(Action::Raise(x)).last_bet
                == self.last_bet + x,
    {
        let m = self.after_chips(Action::Raise(x));
        assert(!round_closed(m.history, m.round_start));
    }

    /// A call brings the caller's commitment up to the current bet (never
    /// down), and an all-in commits the whole stack (or keeps a commitment that
    /// is already larger); neither touches the opponent's commitment.
    pub proof fn lemma_call_and_all_in_amounts(self)
        requires
            self.committed_sb >= 0,
            self.committed_bb >= 0,
        ensures
            self.step(Action::Call).committed(self.current) == max_int(
                self.last_bet,
                self.committed(self.current),
            ),
            self.step(Action::AllIn).committed(self.current) == max_int(
                self.stack(self.current),
                self.committed(self.current),
            ),
            self.step(Action::Call).committed(self.current.spec_opponent()) == self.committed(
                self.current.spec_opponent(),
            ),
            self.step(Action::AllIn).committed(self.current.spec_opponent()) == self.committed(
                self.current.spec_opponent(),
            ),
    {
    }

    /// A player with chips behind who faces a bet larger than the stack may
    /// only fold or call for less by going all-in: exactly those two are offered.
    pub proof fn lemma_short_stack_may_go_all_in(self)
        requires
            self.remaining() > 0,
            self.to_call() > self.remaining(),
        ensures
            self.legal_actions().contains(Action::AllIn),
            self.legal_actions() == seq![Action::Fold, Action::AllIn],
    {
        let base = self.base_actions();
        assert(base =~= seq![Action::Fold]);
        assert(!base.contains(Action::Bet(self.remaining() as u64)));
        let l = self.legal_actions();
        assert(l =~= seq![Action::Fold, Action::AllIn]);
        assert(l[1] == Action::AllIn);
    }
}

/// A hand starts already decided only when the small blind's stack is used up
/// by posting it. While the small blind has chips behind, the starting state
/// is not over (whatever the big blind's stack), the small blind acts first,
/// and the pot holds exactly the two posted blinds, each capped at its stack.
pub proof fn lemma_start_of_hand(config: GameConfig)
    ensures
        initial_model(config).all_in_showdown <==> config.small_blind >= config.initial_stacks[0],
        config.small_blind < config.initial_stacks[0] ==> !initial_model(config).is_terminal(),
        initial_model(config).current == Player::SB,
        initial_model(config).committed_sb == min_int(
            config.small_blind as int,
            config.initial_stacks[0] as int,
        ),
        initial_model(config).committed_bb == min_int(
            config.big_blind as int,
            config.initial_stacks[1] as int,
        ),
        initial_model(config).pot == initial_model(config).committed_sb + initial_model(
            config,
        ).committed_bb,
        initial_model(config).history.len() == 0,
{
}

} // verus!