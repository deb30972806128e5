use vstd::prelude::*;

use rand::rngs::StdRng;

use crate::cards::{Card, CardCollection, DeckDraw, GamePlayerCards, Pile};
use crate::rng::shuffle_cards;

verus! {

pub const CARDS_PER_PLAYER: usize = 2;
pub const MAX_CARDS_TO_EXCHANGE: usize = 2;
pub const ASSASSINATION_COST: usize = 3;
pub const INCOME: usize = 1;
pub const FOREIGN_AID: usize = 2;
pub const TAX: usize = 3;
pub const MAX_STEAL: usize = 2;
pub const COUP_COST: usize = 7;
pub const MAX_COINS: usize = 10;

/// A move of one player.
#[derive(Debug, Copy, Clone, PartialEq, Eq, Structural)]
pub struct Action {
    pub player: usize,
    pub action_type: ActionType,
}

#[derive(Debug, Copy, Clone, PartialEq, Eq, Structural)]
pub enum ActionType {
    Income,
    ForeignAid,
    Coup(usize),
    Tax,
    Assassinate(usize),
    Exchange,
    Steal(usize),
    BlockForeignAid,
    BlockAssassination,
    BlockSteal(Card),
    PassChallenge,
    PassBlock,
    Challenge,
    ShowCard(Card),
    RevealCard(Card),
    TakeCard,
    ShuffleDeck,
    DropCard(Card),
}

/// Why a move was refused.
#[derive(Debug, Copy, Clone, PartialEq, Eq, Structural)]
pub enum Error {
    InvalidPlayer,
    InvalidTarget,
    InvalidAction,
    InvalidCard,
    InvalidSource,
    NotEnoughCoins,
    TooManyCoins,
    InactivePlayer,
}

/// The move that the game expects next.
#[derive(Debug, PartialEq, Eq, PartialOrd, Ord)]
pub enum StateType {
    Turn { player: usize },
    ForeignAid { player: usize },
    Tax { player: usize },
    Exchange { player: usize },
    Assassination { player: usize, target: usize, can_challenge: bool },
    Steal { player: usize, target: usize, can_challenge: bool },
    Challenge { current_player: usize, source: Box<StateType>, state: ChallengeState },
    BlockForeignAid { player: usize, target: usize },
    NeedCards { player: usize, count: usize },
    TookCards { player: usize, count: usize },
    DroppedCard { player: usize, left: usize },
    BlockAssassination { player: usize, target: usize },
    BlockSteal { player: usize, target: usize, card: Card },
    LostInfluence { player: usize, current_player: usize },
}

impl Clone for StateType {
    fn clone(&self) -> (r: Self)
        ensures
            r == *self,
        decreases self,
    {
        match self {
            StateType::Turn { player } => StateType::Turn { player: *player },
            StateType::ForeignAid { player } => StateType::ForeignAid { player: *player },
            StateType::Tax { player } => StateType::Tax { player: *player },
            StateType::Exchange { player } => StateType::Exchange { player: *player },
            StateType::Assassination { player, target, can_challenge } => StateType::Assassination {
                player: *player,
                target: *target,
                can_challenge: *can_challenge,
            },
            StateType::Steal { player, target, can_challenge } => StateType::Steal {
                player: *player,
                target: *target,
                can_challenge: *can_challenge,
            },
            StateType::Challenge { current_player, source, state } => {
                let inner: &StateType = source;
                StateType::Challenge {
                    current_player: *current_player,
                    source: Box::new(inner.clone()),
                    state: *state,
                }
            },
            StateType::BlockForeignAid { player, target } => StateType::BlockForeignAid {
                player: *player,
                target: *target,
            },
            StateType::NeedCards { player, count } => StateType::NeedCards {
                player: *player,
                count: *count,
            },
            StateType::TookCards { player, count } => StateType::TookCards {
                player: *player,
                count: *count,
            },
            StateType::DroppedCard { player, left } => StateType::DroppedCard {
                player: *player,
                left: *left,
            },
            StateType::BlockAssassination { player, target } => StateType::BlockAssassination {
                player: *player,
                target: *target,
            },
            StateType::BlockSteal { player, target, card } => StateType::BlockSteal {
                player: *player,
                target: *target,
                card: *card,
            },
            StateType::LostInfluence { player, current_player } => StateType::LostInfluence {
                player: *player,
                current_player: *current_player,
            },
        }
    }
}

/// Steps of a challenge: the challenged player either shows the claimed card (and then
/// replaces it from the deck) or loses an influence.
#[derive(Debug, Copy, Clone, PartialEq, Eq, Structural, PartialOrd, Ord)]
pub enum ChallengeState {
    Initial { initiator: usize, target: usize, card: Card },
    ShownCard { initiator: usize, target: usize },
    InitiatorRevealedCard { target: usize },
    DeckShuffled { target: usize },
    TookCard,
    TargetRevealedCard,
}

/// Everything the rules act on.
#[derive(Debug, Clone, PartialEq, Eq, PartialOrd, Ord)]
pub struct State {
    pub state_type: StateType,
    pub player_coins: Vec<usize>,
    pub player_hands: Vec<usize>,
    pub player_cards_counter: Vec<usize>,
    pub player_cards: Vec<GamePlayerCards>,
    pub deck: CardCollection,
    pub revealed_cards: Vec<Card>,
}

/// A model of `State`: hand sizes count face-down cards, counters count the cards held.
#[verifier::ext_equal]
pub struct StateModel {
    pub state_type: StateType,
    pub coins: Seq<usize>,
    pub hands: Seq<usize>,
    pub counters: Seq<usize>,
    pub cards: Seq<Pile>,
    pub deck: Pile,
    pub revealed: Seq<Card>,
}

impl View for State {
    type V = StateModel;

    open spec fn view(&self) -> StateModel {
        StateModel {
            state_type: self.state_type,
            coins: self.player_coins@,
            hands: self.player_hands@,
            counters: self.player_cards_counter@,
            cards: self.player_cards@.map_values(|h: GamePlayerCards| h@),
            deck: self.deck@,
            revealed: self.revealed_cards@,
        }
    }
}

/// Sum of a sequence of counts.
pub open spec fn sum(s: Seq<usize>) -> int
    decreases s.len(),
{
    if s.len() == 0 {
        0
    } else {
        sum(s.drop_last()) + s.last()
    }
}

pub proof fn lemma_sum_update(s: Seq<usize>, i: int, v: usize)
    requires
        0 <= i < s.len(),
    ensures
        sum(s.update(i, v)) == sum(s) - s[i] + v,
    decreases s.len(),
{
    if i < s.len() - 1 {
        lemma_sum_update(s.drop_last(), i, v);
        assert(s.update(i, v).drop_last() =~= s.drop_last().update(i, v));
    } else {
        assert(s.update(i, v).drop_last() =~= s.drop_last());
    }
}

pub proof fn lemma_sum_bound(s: Seq<usize>, i: int)
    requires
        0 <= i < s.len(),
    ensures
        0 <= s[i] <= sum(s),
    decreases s.len(),
{
    lemma_sum_nonneg(s.drop_last());
    if i < s.len() - 1 {
        lemma_sum_bound(s.drop_last(), i);
    }
}

pub proof fn lemma_sum_nonneg(s: Seq<usize>)
    ensures
        sum(s) >= 0,
    decreases s.len(),
{
    if s.len() > 0 {
        lemma_sum_nonneg(s.drop_last());
    }
}

/// The seat after `q` at a table of `n` seats.
pub open spec fn succ(q: int, n: int) -> int {
    if q + 1 >= n {
        0
    } else {
        q + 1
    }
}

/// Walks at most `left` seats on from `q` to an active player; when there is none,
/// the seat after `start`.
pub open spec fn seek_active(q: int, hands: Seq<usize>, left: nat, start: int) -> int
    decreases left,
{
    if left == 0 {
        succ(start, hands.len() as int)
    } else if hands[succ(q, hands.len() as int)] > 0 {
        succ(q, hands.len() as int)
    } else {
        seek_active(succ(q, hands.len() as int), hands, (left - 1) as nat, start)
    }
}

/// The first active player after `p`, going round the table.
pub open spec fn next_player(p: int, hands: Seq<usize>) -> int {
    seek_active(p, hands, hands.len(), p)
}

pub proof fn lemma_seek_active_bound(q: int, hands: Seq<usize>, left: nat, start: int)
    requires
        hands.len() > 0,
        0 <= q < hands.len(),
        0 <= start < hands.len(),
    ensures
        0 <= seek_active(q, hands, left, start) < hands.len(),
    decreases left,
{
    if left > 0 && hands[succ(q, hands.len() as int)] == 0 {
        lemma_seek_active_bound(succ(q, hands.len() as int), hands, (left - 1) as nat, start);
    }
}

/// States whose outcome a challenge can decide.
pub open spec fn is_challengeable(s: StateType) -> bool {
    match s {
        StateType::Tax { .. } | StateType::Exchange { .. } | StateType::Assassination { .. }
        | StateType::Steal { .. } | StateType::BlockForeignAid { .. }
        | StateType::BlockAssassination { .. } | StateType::BlockSteal { .. } => true,
        _ => false,
    }
}

/// Indices of a state that is not a challenge are seats, and counts are positive.
pub open spec fn plain_state_wf(s: StateType, n: int) -> bool {
    match s {
        StateType::Turn { player } | StateType::ForeignAid { player } | StateType::Tax { player }
        | StateType::Exchange { player } => player < n,
        StateType::Assassination { player, target, .. } | StateType::Steal { player, target, .. }
        | StateType::BlockForeignAid { player, target }
        | StateType::BlockAssassination { player, target }
        | StateType::BlockSteal { player, target, .. } => player < n && target < n && player
            != target,
        StateType::NeedCards { player, count } | StateType::TookCards { player, count } => player
            < n && count >= 1,
        StateType::DroppedCard { player, left } => player < n && left >= 1,
        StateType::LostInfluence { player, current_player } => player < n && current_player < n,
        StateType::Challenge { .. } => false,
    }
}

pub open spec fn challenge_wf(c: ChallengeState, n: int) -> bool {
    match c {
        ChallengeState::Initial { initiator, target, .. }
        | ChallengeState::ShownCard { initiator, target } => initiator < n && target < n
            && initiator != target,
        ChallengeState::InitiatorRevealedCard { target }
        | ChallengeState::DeckShuffled { target } => target < n,
        _ => false,
    }
}

pub open spec fn state_type_wf(s: StateType, n: int) -> bool {
    match s {
        StateType::Challenge { current_player, source, state } => current_player < n
            && is_challengeable(*source) && plain_state_wf(*source, n) && challenge_wf(state, n),
        _ => plain_state_wf(s, n),
    }
}

/// The player who gains coins when the pending move goes through.
pub open spec fn plain_gainer(s: StateType) -> Option<usize> {
    match s {
        StateType::ForeignAid { player } | StateType::Tax { player }
        | StateType::Steal { player, .. } => Some(player),
        StateType::BlockForeignAid { target, .. } | StateType::BlockSteal { target, .. } => Some(
            target,
        ),
        _ => None,
    }
}

pub open spec fn gainer(s: StateType) -> Option<usize> {
    match s {
        StateType::Challenge { source, .. } => plain_gainer(*source),
        _ => plain_gainer(s),
    }
}

/// The player who has shown a card to a challenge and not yet taken its replacement.
pub open spec fn replacing(s: StateType) -> Option<usize> {
    match s {
        StateType::Challenge { state, .. } => match state {
            ChallengeState::ShownCard { target, .. }
            | ChallengeState::InitiatorRevealedCard { target }
            | ChallengeState::DeckShuffled { target } => Some(target),
            _ => None,
        },
        _ => None,
    }
}

/// The player whose claim a challenge of `s` tests.
pub open spec fn claimant(s: StateType) -> usize {
    match s {
        StateType::Tax { player } | StateType::Exchange { player }
        | StateType::Assassination { player, .. } | StateType::Steal { player, .. }
        | StateType::BlockForeignAid { player, .. } | StateType::BlockAssassination { player, .. }
        | StateType::BlockSteal { player, .. } => player,
        _ => 0,
    }
}

/// The players of a challenged move that still has to be played out are in the game.
pub open spec fn source_players_active(s: StateType, h: Seq<usize>) -> bool {
    match s {
        StateType::Tax { player } | StateType::Exchange { player }
        | StateType::Assassination { player, .. } | StateType::Steal { player, .. } => h[player as int] > 0,
        StateType::BlockForeignAid { player, target }
        | StateType::BlockAssassination { player, target }
        | StateType::BlockSteal { player, target, .. } => h[player as int] > 0 && h[target as int] > 0,
        _ => true,
    }
}

/// The players whose moves the game awaits still hold face-down cards, and a challenge tests
/// the claim of the player who made it.
pub open spec fn awaited_active(m: StateModel) -> bool {
    let h = m.hands;
    match m.state_type {
        StateType::Turn { player } | StateType::ForeignAid { player } | StateType::Tax { player }
        | StateType::Exchange { player } | StateType::NeedCards { player, .. }
        | StateType::TookCards { player, .. } | StateType::DroppedCard { player, .. }
        | StateType::Assassination { player, .. } | StateType::Steal { player, .. } => h[player as int] > 0,
        StateType::BlockForeignAid { player, target }
        | StateType::BlockAssassination { player, target }
        | StateType::BlockSteal { player, target, .. } => h[player as int] > 0 && h[target as int] > 0,
        StateType::LostInfluence { player, current_player } => h[player as int] > 0
            && h[current_player as int] > 0 && player != current_player,
        StateType::Challenge { source, state, .. } => match state {
            ChallengeState::Initial { initiator, target, .. } => h[initiator as int] > 0
                && h[target as int] > 0 && target == claimant(*source)
                && source_players_active(*source, h),
            ChallengeState::ShownCard { initiator, target } => h[initiator as int] > 0
                && h[target as int] > 0 && target == claimant(*source),
            ChallengeState::InitiatorRevealedCard { target }
            | ChallengeState::DeckShuffled { target } => h[target as int] > 0 && target == claimant(*source),
            _ => true,
        },
    }
}

/// A game played for real: every hand is fully known and every card is a real card.
pub open spec fn real_cards(m: StateModel) -> bool {
    &&& forall|p: int| 0 <= p < m.cards.len() ==> (#[trigger] m.cards[p]).exact && m.cards[p].is_real()
    &&& m.deck.is_real()
}

impl StateModel {
    pub open spec fn n(self) -> int {
        self.hands.len() as int
    }

    /// Cards held, in the deck and revealed: the same after every move.
    pub open spec fn total(self) -> int {
        sum(self.counters) + self.deck.count() + self.revealed.len()
    }

    pub open spec fn shapes_wf(self) -> bool {
        &&& 0 < self.n() <= usize::MAX
        &&& self.coins.len() == self.n()
        &&& self.counters.len() == self.n()
        &&& self.cards.len() == self.n()
        &&& !self.deck.exact
    }

    pub open spec fn cards_wf(self) -> bool {
        &&& forall|p: int| 0 <= p < self.n() ==> self.counters[p] == #[trigger] self.cards[p].count()
        &&& self.total() <= usize::MAX
    }

    /// Holding at least as many cards as face-down influences, but while a shown card
    /// waits for its replacement; an exchange knows how many cards are still to return.
    pub open spec fn counters_wf(self) -> bool {
        &&& forall|p: int|
            0 <= p < self.n() ==> if replacing(self.state_type) == Some(p as usize) {
                self.counters[p] + 1 >= #[trigger] self.hands[p]
            } else {
                self.counters[p] >= self.hands[p]
            }
        &&& match self.state_type {
            StateType::TookCards { player, count } => self.counters[player as int]
                == self.hands[player as int] + count,
            StateType::DroppedCard { player, left } => self.counters[player as int]
                == self.hands[player as int] + left,
            _ => true,
        }
    }

    /// Coins stay small: a pending gain goes to a player below the mandatory-coup limit.
    pub open spec fn coins_wf(self) -> bool {
        &&& forall|p: int|
            0 <= p < self.n() ==> #[trigger] self.coins[p] <= MAX_COINS + TAX - 1
        &&& match gainer(self.state_type) {
            Some(g) => self.coins[g as int] < MAX_COINS,
            None => true,
        }
    }

    /// A draw that the game awaits has a card to take: an exchange needs no more cards than
    /// the deck holds, and a shown card waits in the deck for its replacement to be drawn.
    pub open spec fn draws_wf(self) -> bool {
        &&& match self.state_type {
            StateType::NeedCards { count, .. } => count <= self.deck.count(),
            _ => true,
        }
        &&& replacing(self.state_type) is Some ==> self.deck.count() >= 1
    }

    pub open spec fn wf(self) -> bool {
        &&& self.draws_wf()
        &&& self.shapes_wf()
        &&& state_type_wf(self.state_type, self.n())
        &&& self.cards_wf()
        &&& self.counters_wf()
        &&& self.coins_wf()
    }

    pub open spec fn with_type(self, s: StateType) -> StateModel {
        StateModel { state_type: s, ..self }
    }

    pub open spec fn next_turn(self, p: int) -> StateType {
        StateType::Turn { player: next_player(p, self.hands) as usize }
    }

    pub open spec fn add_coins(self, p: int, k: int) -> StateModel {
        StateModel { coins: self.coins.update(p, (self.coins[p] + k) as usize), ..self }
    }

    /// `p` loses the influence `c`: it leaves the hand face up.
    pub open spec fn lose_influence(self, p: int, c: Card) -> StateModel {
        StateModel {
            cards: self.cards.update(p, self.cards[p].drop_card(c)),
            hands: self.hands.update(p, (self.hands[p] - 1) as usize),
            counters: self.counters.update(p, (self.counters[p] - 1) as usize),
            revealed: self.revealed.push(c),
            ..self
        }
    }

    /// `p` puts `c` from the hand into the deck.
    pub open spec fn return_card(self, p: int, c: Card) -> StateModel {
        StateModel {
            cards: self.cards.update(p, self.cards[p].drop_card(c)),
            counters: self.counters.update(p, (self.counters[p] - 1) as usize),
            deck: self.deck.push_card(c),
            ..self
        }
    }

    /// `p` takes `c` from the deck, which is left as `deck`.
    pub open spec fn take_card(self, p: int, c: Card, deck: Pile) -> StateModel {
        StateModel {
            cards: self.cards.update(p, self.cards[p].add_card(c)),
            counters: self.counters.update(p, (self.counters[p] + 1) as usize),
            deck,
            ..self
        }
    }
}

pub open spec fn start_exchange_step(m: StateModel, player: usize) -> StateType {
    let count = if m.deck.count() < MAX_CARDS_TO_EXCHANGE {
        m.deck.count()
    } else {
        MAX_CARDS_TO_EXCHANGE as nat
    };
    if count == 0 {
        m.next_turn(player as int)
    } else {
        StateType::NeedCards { player, count: count as usize }
    }
}

pub open spec fn is_valid_target(m: StateModel, player: usize, target: usize) -> bool {
    target != player && target < m.n() && m.hands[target as int] != 0
}

pub open spec fn turn_step(m: StateModel, player: usize, a: Action) -> Result<StateModel, Error> {
    if player != a.player {
        Err(Error::InvalidPlayer)
    } else if m.coins[player as int] >= MAX_COINS && !(a.action_type is Coup) {
        Err(Error::TooManyCoins)
    } else {
        match a.action_type {
            ActionType::Income => Ok(
                m.add_coins(player as int, INCOME as int).with_type(m.next_turn(player as int)),
            ),
            ActionType::ForeignAid => Ok(m.with_type(StateType::ForeignAid { player })),
            ActionType::Tax => Ok(m.with_type(StateType::Tax { player })),
            ActionType::Exchange => Ok(m.with_type(StateType::Exchange { player })),
            ActionType::Coup(target) => if !is_valid_target(m, player, target) {
                Err(Error::InvalidTarget)
            } else if m.coins[player as int] < COUP_COST {
                Err(Error::NotEnoughCoins)
            } else {
                Ok(
                    m.add_coins(player as int, -(COUP_COST as int)).with_type(
                        StateType::LostInfluence { player: target, current_player: player },
                    ),
                )
            },
            ActionType::Assassinate(target) => if !is_valid_target(m, player, target) {
                Err(Error::InvalidTarget)
            } else if m.coins[player as int] < ASSASSINATION_COST {
                Err(Error::NotEnoughCoins)
            } else {
                Ok(
                    m.add_coins(player as int, -(ASSASSINATION_COST as int)).with_type(
                        StateType::Assassination { player, target, can_challenge: true },
                    ),
                )
            },
            ActionType::Steal(target) => if !is_valid_target(m, player, target) {
                Err(Error::InvalidTarget)
            } else {
                Ok(m.with_type(StateType::Steal { player, target, can_challenge: true }))
            },
            _ => Err(Error::InvalidAction),
        }
    }
}

pub open spec fn foreign_aid_step(m: StateModel, player: usize, a: Action) -> Result<
    StateModel,
    Error,
> {
    match a.action_type {
        ActionType::PassBlock => if player != a.player {
            Err(Error::InvalidPlayer)
        } else {
            Ok(m.add_coins(player as int, FOREIGN_AID as int).with_type(m.next_turn(player as int)))
        },
        ActionType::BlockForeignAid => if player == a.player {
            Err(Error::InvalidTarget)
        } else {
            Ok(m.with_type(StateType::BlockForeignAid { player: a.player, target: player }))
        },
        _ => Err(Error::InvalidAction),
    }
}

/// A challenge of the claim of `card` by `target`, opened by `a.player`.
pub open spec fn open_challenge(
    current_player: usize,
    source: StateType,
    target: usize,
    card: Card,
    a: Action,
) -> StateType {
    StateType::Challenge {
        current_player,
        source: Box::new(source),
        state: ChallengeState::Initial { initiator: a.player, target, card },
    }
}

pub open spec fn tax_step(m: StateModel, player: usize, a: Action) -> Result<StateModel, Error> {
    match a.action_type {
        ActionType::PassChallenge => if player != a.player {
            Err(Error::InvalidPlayer)
        } else {
            Ok(m.add_coins(player as int, TAX as int).with_type(m.next_turn(player as int)))
        },
        ActionType::Challenge => if player == a.player {
            Err(Error::InvalidTarget)
        } else {
            Ok(
                m.with_type(
                    open_challenge(player, StateType::Tax { player }, player, Card::Duke, a),
                ),
            )
        },
        _ => Err(Error::InvalidAction),
    }
}

pub open spec fn exchange_step(m: StateModel, player: usize, a: Action) -> Result<
    StateModel,
    Error,
> {
    match a.action_type {
        ActionType::PassChallenge => if player != a.player {
            Err(Error::InvalidPlayer)
        } else {
            Ok(m.with_type(start_exchange_step(m, player)))
        },
        ActionType::Challenge => if player == a.player {
            Err(Error::InvalidTarget)
        } else {
            Ok(
                m.with_type(
                    open_challenge(
                        player,
                        StateType::Exchange { player },
                        player,
                        Card::Ambassador,
                        a,
                    ),
                ),
            )
        },
        _ => Err(Error::InvalidAction),
    }
}

pub open spec fn assassination_step(
    m: StateModel,
    player: usize,
    target: usize,
    can_challenge: bool,
    a: Action,
) -> Result<StateModel, Error> {
    if can_challenge {
        match a.action_type {
            ActionType::PassChallenge => if player != a.player {
                Err(Error::InvalidPlayer)
            } else {
                Ok(
                    m.with_type(
                        StateType::Assassination { player, target, can_challenge: false },
                    ),
                )
            },
            ActionType::Challenge => if player == a.player {
                Err(Error::InvalidTarget)
            } else {
                Ok(
                    m.with_type(
                        open_challenge(
                            player,
                            StateType::Assassination { player, target, can_challenge: true },
                            player,
                            Card::Assassin,
                            a,
                        ),
                    ),
                )
            },
            _ => Err(Error::InvalidAction),
        }
    } else {
        match a.action_type {
            ActionType::PassBlock => if player != a.player {
                Err(Error::InvalidPlayer)
            } else if m.hands[target as int] == 0 {
                Ok(m.with_type(m.next_turn(player as int)))
            } else {
                Ok(m.with_type(StateType::LostInfluence { player: target, current_player: player }))
            },
            ActionType::BlockAssassination => if player == a.player || target != a.player {
                Err(Error::InvalidTarget)
            } else {
                Ok(m.with_type(StateType::BlockAssassination { player: a.player, target: player }))
            },
            _ => Err(Error::InvalidAction),
        }
    }
}

/// Coins that a steal takes from a player holding `coins`.
pub open spec fn stolen(coins: usize) -> int {
    if coins < MAX_STEAL {
        coins as int
    } else {
        MAX_STEAL as int
    }
}

pub open spec fn steal_step(
    m: StateModel,
    player: usize,
    target: usize,
    can_challenge: bool,
    a: Action,
) -> Result<StateModel, Error> {
    if can_challenge {
        match a.action_type {
            ActionType::PassChallenge => if player != a.player {
                Err(Error::InvalidPlayer)
            } else {
                Ok(m.with_type(StateType::Steal { player, target, can_challenge: false }))
            },
            ActionType::Challenge => if player == a.player {
                Err(Error::InvalidTarget)
            } else {
                Ok(
                    m.with_type(
                        open_challenge(
                            player,
                            StateType::Steal { player, target, can_challenge: true },
                            player,
                            Card::Captain,
                            a,
                        ),
                    ),
                )
            },
            _ => Err(Error::InvalidAction),
        }
    } else {
        match a.action_type {
            ActionType::PassBlock => if player != a.player {
                Err(Error::InvalidPlayer)
            } else {
                let k = stolen(m.coins[target as int]);
                Ok(
                    m.add_coins(target as int, -k).add_coins(player as int, k).with_type(
                        m.next_turn(player as int),
                    ),
                )
            },
            ActionType::BlockSteal(card) => if player == a.player || target != a.player {
                Err(Error::InvalidTarget)
            } else if card != Card::Ambassador && card != Card::Captain {
                Err(Error::InvalidCard)
            } else {
                Ok(m.with_type(StateType::BlockSteal { player: a.player, target: player, card }))
            },
            _ => Err(Error::InvalidAction),
        }
    }
}

/// A block of `target`'s move by `player`, claiming `card`.
pub open spec fn block_step(
    m: StateModel,
    source: StateType,
    player: usize,
    target: usize,
    card: Card,
    challenge_error: Error,
    a: Action,
) -> Result<StateModel, Error> {
    match a.action_type {
        ActionType::PassChallenge => if player != a.player {
            Err(Error::InvalidPlayer)
        } else {
            Ok(m.with_type(m.next_turn(target as int)))
        },
        ActionType::Challenge => if player == a.player {
            Err(challenge_error)
        } else {
            Ok(m.with_type(open_challenge(target, source, player, card, a)))
        },
        _ => Err(Error::InvalidAction),
    }
}

pub open spec fn need_cards_step(
    m: StateModel,
    player: usize,
    count: usize,
    a: Action,
    draw: DeckDraw,
) -> Result<StateModel, Error> {
    if player != a.player {
        Err(Error::InvalidPlayer)
    } else {
        match a.action_type {
            ActionType::TakeCard => match m.deck.pop_card(draw) {
                Some((c, deck)) => {
                    let m2 = m.take_card(player as int, c, deck);
                    if count == 1 {
                        Ok(
                            m2.with_type(
                                StateType::TookCards {
                                    player,
                                    count: (m2.counters[player as int] - m2.hands[player as int]) as usize,
                                },
                            ),
                        )
                    } else {
                        Ok(m2.with_type(StateType::NeedCards { player, count: (count - 1) as usize }))
                    }
                },
                None => Err(Error::InvalidCard),
            },
            _ => Err(Error::InvalidAction),
        }
    }
}

/// Returning a card to the deck at the end of an exchange; `next` is the state if cards
/// remain to return.
pub open spec fn drop_step(
    m: StateModel,
    player: usize,
    left: usize,
    next: StateType,
    a: Action,
) -> Result<StateModel, Error> {
    match a.action_type {
        ActionType::DropCard(card) => if player != a.player {
            Err(Error::InvalidPlayer)
        } else if !m.cards[player as int].has_card(card) {
            Err(Error::InvalidCard)
        } else {
            let m2 = m.return_card(player as int, card);
            if left == 1 {
                Ok(m2.with_type(m2.next_turn(player as int)))
            } else {
                Ok(m2.with_type(next))
            }
        },
        _ => Err(Error::InvalidAction),
    }
}

pub open spec fn lost_influence_step(
    m: StateModel,
    player: usize,
    current_player: usize,
    a: Action,
) -> Result<StateModel, Error> {
    match a.action_type {
        ActionType::RevealCard(card) => if player != a.player {
            Err(Error::InvalidPlayer)
        } else if !m.cards[player as int].has_card(card) {
            Err(Error::InvalidCard)
        } else {
            let m2 = m.lose_influence(player as int, card);
            Ok(m2.with_type(m2.next_turn(current_player as int)))
        },
        _ => Err(Error::InvalidAction),
    }
}

/// One step of a challenge: its next sub-state and the model after it.
pub open spec fn challenge_action_step(
    m: StateModel,
    c: ChallengeState,
    a: Action,
    draw: DeckDraw,
) -> Result<(ChallengeState, StateModel), Error> {
    match c {
        ChallengeState::Initial { initiator, target, card } => if target != a.player {
            Err(Error::InvalidPlayer)
        } else {
            match a.action_type {
                ActionType::ShowCard(shown) => if shown != card || !m.cards[target as int].has_card(
                    card,
                ) {
                    Err(Error::InvalidCard)
                } else {
                    Ok(
                        (
                            ChallengeState::ShownCard { initiator, target },
                            m.return_card(target as int, card),
                        ),
                    )
                },
                ActionType::RevealCard(revealed) => if !m.cards[target as int].has_card(
                    revealed,
                ) {
                    Err(Error::InvalidCard)
                } else {
                    Ok((ChallengeState::TargetRevealedCard, m.lose_influence(target as int, revealed)))
                },
                _ => Err(Error::InvalidAction),
            }
        },
        ChallengeState::ShownCard { initiator, target } => if initiator != a.player {
            Err(Error::InvalidPlayer)
        } else {
            match a.action_type {
                ActionType::RevealCard(card) => if !m.cards[initiator as int].has_card(card) {
                    Err(Error::InvalidCard)
                } else {
                    Ok(
                        (
                            ChallengeState::InitiatorRevealedCard { target },
                            m.lose_influence(initiator as int, card),
                        ),
                    )
                },
                _ => Err(Error::InvalidAction),
            }
        },
        ChallengeState::InitiatorRevealedCard { target } => if target != a.player {
            Err(Error::InvalidPlayer)
        } else {
            match a.action_type {
                ActionType::ShuffleDeck => Ok((ChallengeState::DeckShuffled { target }, m)),
                _ => Err(Error::InvalidAction),
            }
        },
        ChallengeState::DeckShuffled { target } => if target != a.player {
            Err(Error::InvalidPlayer)
        } else {
            match a.action_type {
                ActionType::TakeCard => match m.deck.pop_card(draw) {
                    Some((card, deck)) => Ok(
                        (ChallengeState::TookCard, m.take_card(target as int, card, deck)),
                    ),
                    None => Err(Error::InvalidCard),
                },
                _ => Err(Error::InvalidAction),
            }
        },
        _ => Err(Error::InvalidAction),
    }
}

/// The state after a challenge on `source` ends with the claim proven.
pub open spec fn after_proven_claim(
    m: StateModel,
    current_player: usize,
    source: StateType,
) -> Result<StateModel, Error> {
    match source {
        StateType::Tax { player } => Ok(
            m.add_coins(player as int, TAX as int).with_type(m.next_turn(current_player as int)),
        ),
        StateType::BlockForeignAid { .. } | StateType::BlockAssassination { .. }
        | StateType::BlockSteal { .. } => Ok(m.with_type(m.next_turn(current_player as int))),
        StateType::Exchange { player } => Ok(m.with_type(start_exchange_step(m, player))),
        StateType::Assassination { player, target, .. } => Ok(
            m.with_type(StateType::Assassination { player, target, can_challenge: false }),
        ),
        StateType::Steal { player, target, .. } => Ok(
            m.with_type(StateType::Steal { player, target, can_challenge: false }),
        ),
        _ => Err(Error::InvalidSource),
    }
}

/// The state after a challenge on `source` ends with the claim refuted.
pub open spec fn after_refuted_claim(
    m: StateModel,
    current_player: usize,
    source: StateType,
) -> Result<StateModel, Error> {
    match source {
        StateType::BlockForeignAid { target, .. } => Ok(
            m.with_type(StateType::ForeignAid { player: target }),
        ),
        StateType::BlockAssassination { player, target } => Ok(
            m.with_type(
                StateType::Assassination { player: target, target: player, can_challenge: false },
            ),
        ),
        StateType::BlockSteal { player, target, .. } => Ok(
            m.with_type(StateType::Steal { player: target, target: player, can_challenge: false }),
        ),
        StateType::Tax { .. } | StateType::Exchange { .. } | StateType::Assassination { .. }
        | StateType::Steal { .. } => Ok(m.with_type(m.next_turn(current_player as int))),
        _ => Err(Error::InvalidSource),
    }
}

pub open spec fn challenge_step(
    m: StateModel,
    current_player: usize,
    source: StateType,
    c: ChallengeState,
    a: Action,
    draw: DeckDraw,
) -> Result<StateModel, Error> {
    if !is_challengeable(source) {
        Err(Error::InvalidSource)
    } else {
        match challenge_action_step(m, c, a, draw) {
            Err(e) => Err(e),
            Ok((next, m2)) => match next {
                ChallengeState::TookCard => after_proven_claim(m2, current_player, source),
                ChallengeState::TargetRevealedCard => after_refuted_claim(m2, current_player, source),
                _ => Ok(
                    m2.with_type(
                        StateType::Challenge { current_player, source: Box::new(source), state: next },
                    ),
                ),
            },
        }
    }
}

/// The rules: what the move `a` does in the game `m`, drawing from the deck as `draw` says.
pub open spec fn transition(m: StateModel, a: Action, draw: DeckDraw) -> Result<StateModel, Error> {
    if a.player >= m.n() {
        Err(Error::InvalidPlayer)
    } else if m.hands[a.player as int] == 0 {
        Err(Error::InactivePlayer)
    } else {
        match m.state_type {
            StateType::Turn { player } => turn_step(m, player, a),
            StateType::ForeignAid { player } => foreign_aid_step(m, player, a),
            StateType::Tax { player } => tax_step(m, player, a),
            StateType::Exchange { player } => exchange_step(m, player, a),
            StateType::Assassination { player, target, can_challenge } => assassination_step(
                m,
                player,
                target,
                can_challenge,
                a,
            ),
            StateType::Steal { player, target, can_challenge } => steal_step(
                m,
                player,
                target,
                can_challenge,
                a,
            ),
            StateType::Challenge { current_player, source, state } => challenge_step(
                m,
                current_player,
                *source,
                state,
                a,
                draw,
            ),
            StateType::BlockForeignAid { player, target } => block_step(
                m,
                StateType::BlockForeignAid { player, target },
                player,
                target,
                Card::Duke,
                Error::InvalidTarget,
                a,
            ),
            StateType::NeedCards { player, count } => need_cards_step(m, player, count, a, draw),
            StateType::TookCards { player, count } => drop_step(
                m,
                player,
                count,
                StateType::TookCards { player, count: (count - 1) as usize },
                a,
            ),
            StateType::DroppedCard { player, left } => drop_step(
                m,
                player,
                left,
                StateType::DroppedCard { player, left: (left - 1) as usize },
                a,
            ),
            StateType::BlockAssassination { player, target } => block_step(
                m,
                StateType::BlockAssassination { player, target },
                player,
                target,
                Card::Contessa,
                Error::InvalidPlayer,
                a,
            ),
            StateType::BlockSteal { player, target, card } => block_step(
                m,
                StateType::BlockSteal { player, target, card },
                player,
                target,
                card,
                Error::InvalidPlayer,
                a,
            ),
            StateType::LostInfluence { player, current_player } => lost_influence_step(
                m,
                player,
                current_player,
                a,
            ),
        }
    }
}

/// Whether `a` is the shuffle that ends a proven claim's challenge (the one move whose
/// effect on the deck's order is left to chance).
pub open spec fn shuffles(m: StateModel, a: Action) -> bool {
    &&& a.action_type == ActionType::ShuffleDeck
    &&& m.state_type matches StateType::Challenge { state, .. }
    &&& state matches ChallengeState::InitiatorRevealedCard { .. }
}

/// `r` and the model `after` are what `expected` says: on an error nothing has changed.
pub open spec fn outcome(
    before: StateModel,
    after: StateModel,
    r: Result<(), Error>,
    expected: Result<StateModel, Error>,
) -> bool {
    match expected {
        Ok(m) => r is Ok && after == m,
        Err(e) => r == Err::<(), Error>(e) && after == before,
    }
}

/// What the handlers of one state may assume: a well-formed game, and an active player
/// with a seat at the table.
pub open spec fn can_act(m: StateModel, a: Action) -> bool {
    &&& m.wf()
    &&& a.player < m.n()
    &&& m.hands[a.player as int] > 0
}

impl State {
    proof fn lemma_counter_bound(&self, p: int)
        requires
            self@.shapes_wf(),
            self@.cards_wf(),
            0 <= p < self@.n(),
        ensures
            self@.counters[p] + self@.deck.count() + self@.revealed.len() <= usize::MAX,
            self@.cards[p].count() == self@.counters[p],
    {
        lemma_sum_bound(self@.counters, p);
    }

    fn add_coins(&mut self, p: usize, k: usize)
        requires
            p < old(self).player_coins@.len(),
            old(self).player_coins@[p as int] + k <= usize::MAX,
        ensures
            final(self)@ == old(self)@.add_coins(p as int, k as int),
    {
        let c = self.player_coins[p];
        self.player_coins.set(p, c + k);
        assert(final(self)@ =~= old(self)@.add_coins(p as int, k as int));
    }

    fn sub_coins(&mut self, p: usize, k: usize)
        requires
            p < old(self).player_coins@.len(),
            old(self).player_coins@[p as int] >= k,
        ensures
            final(self)@ == old(self)@.add_coins(p as int, -k),
    {
        let c = self.player_coins[p];
        self.player_coins.set(p, c - k);
        assert(final(self)@ =~= old(self)@.add_coins(p as int, -k));
    }

    fn has_card(&self, p: usize, c: Card) -> (r: bool)
        requires
            p < self@.cards.len(),
        ensures
            r == self@.cards[p as int].has_card(c),
    {
        self.player_cards[p].has_card(c)
    }

    /// `p` loses the influence `c`.
    fn lose_card(&mut self, p: usize, c: Card)
        requires
            old(self)@.shapes_wf(),
            old(self)@.cards_wf(),
            p < old(self)@.n(),
            old(self)@.hands[p as int] > 0,
            old(self)@.cards[p as int].has_card(c),
        ensures
            final(self)@ == old(self)@.lose_influence(p as int, c),
    {
        proof {
            self.lemma_counter_bound(p as int);
        }
        let mut hand = self.player_cards.remove(p);
        hand.drop_card(c);
        self.player_cards.insert(p, hand);
        let h = self.player_hands[p];
        self.player_hands.set(p, h - 1);
        let k = self.player_cards_counter[p];
        self.player_cards_counter.set(p, k - 1);
        self.revealed_cards.push(c);
        assert(final(self)@ =~= old(self)@.lose_influence(p as int, c));
    }

    /// `p` puts `c` back into the deck.
    fn return_card(&mut self, p: usize, c: Card)
        requires
            old(self)@.shapes_wf(),
            old(self)@.cards_wf(),
            p < old(self)@.n(),
            old(self)@.cards[p as int].has_card(c),
        ensures
            final(self)@ == old(self)@.return_card(p as int, c),
    {
        proof {
            self.lemma_counter_bound(p as int);
        }
        let mut hand = self.player_cards.remove(p);
        hand.drop_card(c);
        self.player_cards.insert(p, hand);
        let k = self.player_cards_counter[p];
        self.player_cards_counter.set(p, k - 1);
        self.deck.push_card(c);
        assert(final(self)@ =~= old(self)@.return_card(p as int, c));
    }

    /// `p` draws from the deck as `draw` says; an error when the deck holds no such card.
    fn take_card(&mut self, p: usize, draw: DeckDraw) -> (r: Result<(), Error>)
        requires
            old(self)@.shapes_wf(),
            old(self)@.cards_wf(),
            p < old(self)@.n(),
        ensures
            match old(self)@.deck.pop_card(draw) {
                Some((c, d)) => r is Ok && final(self)@ == old(self)@.take_card(p as int, c, d),
                None => r == Err::<(), Error>(Error::InvalidCard) && final(self)@ == old(self)@,
            },
    {
        proof {
            self.lemma_counter_bound(p as int);
        }
        match self.deck.pop_card(draw) {
            Some(c) => {
                let mut hand = self.player_cards.remove(p);
                hand.add_card(c);
                self.player_cards.insert(p, hand);
                let k = self.player_cards_counter[p];
                self.player_cards_counter.set(p, k + 1);
                assert(final(self)@ =~= old(self)@.take_card(
                    p as int,
                    c,
                    final(self)@.deck,
                ));
                Ok(())
            },
            None => {
                assert(final(self)@ =~= old(self)@);
                Err(Error::InvalidCard)
            },
        }
    }
}

/// The first active player after `player`, going round the table.
pub fn get_next_player(player: usize, player_hands: &Vec<usize>) -> (r: usize)
    requires
        player < player_hands@.len(),
    ensures
        r == next_player(player as int, player_hands@),
        r < player_hands@.len(),
{
    let n = player_hands.len();
    let mut q = player;
    let mut left = n;
    proof {
        lemma_seek_active_bound(player as int, player_hands@, n as nat, player as int);
    }
    while left > 0
        invariant
            n == player_hands@.len(),
            q < n,
            player < n,
            left <= n,
            seek_active(q as int, player_hands@, left as nat, player as int) == next_player(
                player as int,
                player_hands@,
            ),
        decreases left,
    {
        let r = if q + 1 >= n {
            0
        } else {
            q + 1
        };
        if player_hands[r] > 0 {
            return r;
        }
        q = r;
        left = left - 1;
    }
    if player + 1 >= n {
        0
    } else {
        player + 1
    }
}

/// `after` is `m` but for the order of the known cards of the deck.
pub open spec fn deck_reordered(after: StateModel, m: StateModel) -> bool {
    &&& after == (StateModel { deck: after.deck, ..m })
    &&& after.deck.same_cards(m.deck)
}

/// As `outcome`, where a shuffle may have reordered the deck.
pub open spec fn outcome_shuffled(
    before: StateModel,
    after: StateModel,
    r: Result<(), Error>,
    expected: Result<StateModel, Error>,
    shuffled: bool,
) -> bool {
    match expected {
        Ok(m) => r is Ok && if shuffled {
            deck_reordered(after, m)
        } else {
            after == m
        },
        Err(e) => r == Err::<(), Error>(e) && after == before,
    }
}

fn is_valid_target_exec(state: &State, player: usize, target: usize) -> (r: bool)
    requires
        state@.shapes_wf(),
    ensures
        r == is_valid_target(state@, player, target),
{
    target != player && target < state.player_hands.len() && state.player_hands[target] != 0
}

fn next_turn(state: &State, player: usize) -> (r: StateType)
    requires
        player < state@.n(),
    ensures
        r == state@.next_turn(player as int),
{
    StateType::Turn { player: get_next_player(player, &state.player_hands) }
}

fn on_turn(player: usize, state: &mut State, action: &Action) -> (r: Result<(), Error>)
    requires
        can_act(old(state)@, *action),
        old(state).state_type == (StateType::Turn { player }),
    ensures
        outcome(old(state)@, final(state)@, r, turn_step(old(state)@, player, *action)),
{
    if player != action.player {
        return Err(Error::InvalidPlayer);
    }
    let is_coup = match action.action_type {
        ActionType::Coup(..) => true,
        _ => false,
    };
    if state.player_coins[player] >= MAX_COINS && !is_coup {
        return Err(Error::TooManyCoins);
    }
    match action.action_type {
        ActionType::Income => {
            let next = next_turn(state, player);
            state.add_coins(player, INCOME);
            state.state_type = next;
            Ok(())
        },
        ActionType::ForeignAid => {
            state.state_type = StateType::ForeignAid { player };
            Ok(())
        },
        ActionType::Tax => {
            state.state_type = StateType::Tax { player };
            Ok(())
        },
        ActionType::Exchange => {
            state.state_type = StateType::Exchange { player };
            Ok(())
        },
        ActionType::Coup(target) => {
            if !is_valid_target_exec(state, player, target) {
                return Err(Error::InvalidTarget);
            }
            if state.player_coins[player] < COUP_COST {
                return Err(Error::NotEnoughCoins);
            }
            state.sub_coins(player, COUP_COST);
            state.state_type = StateType::LostInfluence { player: target, current_player: player };
            Ok(())
        },
        ActionType::Assassinate(target) => {
            if !is_valid_target_exec(state, player, target) {
                return Err(Error::InvalidTarget);
            }
            if state.player_coins[player] < ASSASSINATION_COST {
                return Err(Error::NotEnoughCoins);
            }
            state.sub_coins(player, ASSASSINATION_COST);
            state.state_type = StateType::Assassination { player, target, can_challenge: true };
            Ok(())
        },
        ActionType::Steal(target) => {
            if !is_valid_target_exec(state, player, target) {
                return Err(Error::InvalidTarget);
            }
            state.state_type = StateType::Steal { player, target, can_challenge: true };
            Ok(())
        },
        _ => Err(Error::InvalidAction),
    }
}

fn on_foreign_aid(player: usize, state: &mut State, action: &Action) -> (r: Result<(), Error>)
    requires
        can_act(old(state)@, *action),
        old(state).state_type == (StateType::ForeignAid { player }),
    ensures
        outcome(old(state)@, final(state)@, r, foreign_aid_step(old(state)@, player, *action)),
{
    match action.action_type {
        ActionType::PassBlock => {
            if player != action.player {
                return Err(Error::InvalidPlayer);
            }
            let next = next_turn(state, player);
            state.add_coins(player, FOREIGN_AID);
            state.state_type = next;
            Ok(())
        },
        ActionType::BlockForeignAid => {
            if player == action.player {
                return Err(Error::InvalidTarget);
            }
            state.state_type = StateType::BlockForeignAid { player: action.player, target: player };
            Ok(())
        },
        _ => Err(Error::InvalidAction),
    }
}

fn challenge_of(current_player: usize, source: StateType, target: usize, card: Card, action: &Action) -> (r: StateType)
    ensures
        r == open_challenge(current_player, source, target, card, *action),
{
    StateType::Challenge {
        current_player,
        source: Box::new(source),
        state: ChallengeState::Initial { initiator: action.player, target, card },
    }
}

fn on_tax(player: usize, state: &mut State, action: &Action) -> (r: Result<(), Error>)
    requires
        can_act(old(state)@, *action),
        old(state).state_type == (StateType::Tax { player }),
    ensures
        outcome(old(state)@, final(state)@, r, tax_step(old(state)@, player, *action)),
{
    match action.action_type {
        ActionType::PassChallenge => {
            if player != action.player {
                return Err(Error::InvalidPlayer);
            }
            let next = next_turn(state, player);
            state.add_coins(player, TAX);
            state.state_type = next;
            Ok(())
        },
        ActionType::Challenge => {
            if player == action.player {
                return Err(Error::InvalidTarget);
            }
            state.state_type = challenge_of(player, StateType::Tax { player }, player, Card::Duke, action);
            Ok(())
        },
        _ => Err(Error::InvalidAction),
    }
}

fn start_exchange(player: usize, state: &State) -> (r: StateType)
    requires
        state@.deck.count() <= usize::MAX,
        player < state@.n(),
    ensures
        r == start_exchange_step(state@, player),
{
    let size = state.deck.len();
    let count = if size < MAX_CARDS_TO_EXCHANGE { size } else { MAX_CARDS_TO_EXCHANGE };
    if count == 0 {
        next_turn(state, player)
    } else {
        StateType::NeedCards { player, count }
    }
}

fn on_exchange(player: usize, state: &mut State, action: &Action) -> (r: Result<(), Error>)
    requires
        can_act(old(state)@, *action),
        old(state).state_type == (StateType::Exchange { player }),
    ensures
        outcome(old(state)@, final(state)@, r, exchange_step(old(state)@, player, *action)),
{
    match action.action_type {
        ActionType::PassChallenge => {
            if player != action.player {
                return Err(Error::InvalidPlayer);
            }
            proof {
                lemma_sum_nonneg(state@.counters);
            }
            state.state_type = start_exchange(player, state);
            Ok(())
        },
        ActionType::Challenge => {
            if player == action.player {
                return Err(Error::InvalidTarget);
            }
            state.state_type = challenge_of(player, StateType::Exchange { player }, player, Card::Ambassador, action);
            Ok(())
        },
        _ => Err(Error::InvalidAction),
    }
}

fn on_assassination(player: usize, target: usize, can_challenge: bool, state: &mut State, action: &Action) -> (r: Result<(), Error>)
    requires
        can_act(old(state)@, *action),
        old(state).state_type == (StateType::Assassination { player, target, can_challenge }),
    ensures
        outcome(old(state)@, final(state)@, r, assassination_step(old(state)@, player, target, can_challenge, *action)),
{
    if can_challenge {
        match action.action_type {
            ActionType::PassChallenge => {
                if player != action.player {
                    return Err(Error::InvalidPlayer);
                }
                state.state_type = StateType::Assassination { player, target, can_challenge: false };
                Ok(())
            },
            ActionType::Challenge => {
                if player == action.player {
                    return Err(Error::InvalidTarget);
                }
                state.state_type = challenge_of(
                    player,
                    StateType::Assassination { player, target, can_challenge: true },
                    player,
                    Card::Assassin,
                    action,
                );
                Ok(())
            },
            _ => Err(Error::InvalidAction),
        }
    } else {
        match action.action_type {
            ActionType::PassBlock => {
                if player != action.player {
                    return Err(Error::InvalidPlayer);
                }
                if state.player_hands[target] == 0 {
                    state.state_type = next_turn(state, player);
                } else {
                    state.state_type = StateType::LostInfluence { player: target, current_player: player };
                }
                Ok(())
            },
            ActionType::BlockAssassination => {
                if player == action.player || target != action.player {
                    return Err(Error::InvalidTarget);
                }
                state.state_type = StateType::BlockAssassination { player: action.player, target: player };
                Ok(())
            },
            _ => Err(Error::InvalidAction),
        }
    }
}

fn on_steal(player: usize, target: usize, can_challenge: bool, state: &mut State, action: &Action) -> (r: Result<(), Error>)
    requires
        can_act(old(state)@, *action),
        old(state).state_type == (StateType::Steal { player, target, can_challenge }),
    ensures
        outcome(old(state)@, final(state)@, r, steal_step(old(state)@, player, target, can_challenge, *action)),
{
    if can_challenge {
        match action.action_type {
            ActionType::PassChallenge => {
                if player != action.player {
                    return Err(Error::InvalidPlayer);
                }
                state.state_type = StateType::Steal { player, target, can_challenge: false };
                Ok(())
            },
            ActionType::Challenge => {
                if player == action.player {
                    return Err(Error::InvalidTarget);
                }
                state.state_type = challenge_of(
                    player,
                    StateType::Steal { player, target, can_challenge: true },
                    player,
                    Card::Captain,
                    action,
                );
                Ok(())
            },
            _ => Err(Error::InvalidAction),
        }
    } else {
        match action.action_type {
            ActionType::PassBlock => {
                if player != action.player {
                    return Err(Error::InvalidPlayer);
                }
                let next = next_turn(state, player);
                let held = state.player_coins[target];
                let coins = if held < MAX_STEAL { held } else { MAX_STEAL };
                state.sub_coins(target, coins);
                state.add_coins(player, coins);
                state.state_type = next;
                Ok(())
            },
            ActionType::BlockSteal(card) => {
                if player == action.player || target != action.player {
                    return Err(Error::InvalidTarget);
                }
                if card != Card::Ambassador && card != Card::Captain {
                    return Err(Error::InvalidCard);
                }
                state.state_type = StateType::BlockSteal { player: action.player, target: player, card };
                Ok(())
            },
            _ => Err(Error::InvalidAction),
        }
    }
}

fn on_block(
    source: StateType,
    player: usize,
    target: usize,
    card: Card,
    challenge_error: Error,
    state: &mut State,
    action: &Action,
) -> (r: Result<(), Error>)
    requires
        can_act(old(state)@, *action),
        old(state).state_type == source,
        player < old(state)@.n(),
        target < old(state)@.n(),
    ensures
        outcome(old(state)@, final(state)@, r, block_step(old(state)@, source, player, target, card, challenge_error, *action)),
{
    match action.action_type {
        ActionType::PassChallenge => {
            if player != action.player {
                return Err(Error::InvalidPlayer);
            }
            state.state_type = next_turn(state, target);
            Ok(())
        },
        ActionType::Challenge => {
            if player == action.player {
                return Err(challenge_error);
            }
            state.state_type = challenge_of(target, source, player, card, action);
            Ok(())
        },
        _ => Err(Error::InvalidAction),
    }
}

fn on_block_foreign_aid(player: usize, target: usize, state: &mut State, action: &Action) -> (r: Result<(), Error>)
    requires
        can_act(old(state)@, *action),
        old(state).state_type == (StateType::BlockForeignAid { player, target }),
    ensures
        outcome(old(state)@, final(state)@, r, transition(old(state)@, *action, DeckDraw::Top)),
{
    on_block(StateType::BlockForeignAid { player, target }, player, target, Card::Duke, Error::InvalidTarget, state, action)
}

fn on_block_assassination(player: usize, target: usize, state: &mut State, action: &Action) -> (r: Result<(), Error>)
    requires
        can_act(old(state)@, *action),
        old(state).state_type == (StateType::BlockAssassination { player, target }),
    ensures
        outcome(old(state)@, final(state)@, r, transition(old(state)@, *action, DeckDraw::Top)),
{
    on_block(StateType::BlockAssassination { player, target }, player, target, Card::Contessa, Error::InvalidPlayer, state, action)
}

fn on_block_steal(player: usize, target: usize, card: Card, state: &mut State, action: &Action) -> (r: Result<(), Error>)
    requires
        can_act(old(state)@, *action),
        old(state).state_type == (StateType::BlockSteal { player, target, card }),
    ensures
        outcome(old(state)@, final(state)@, r, transition(old(state)@, *action, DeckDraw::Top)),
{
    on_block(StateType::BlockSteal { player, target, card }, player, target, card, Error::InvalidPlayer, state, action)
}

fn on_need_cards(player: usize, count: usize, state: &mut State, action: &Action, draw: DeckDraw) -> (r: Result<(), Error>)
    requires
        can_act(old(state)@, *action),
        old(state).state_type == (StateType::NeedCards { player, count }),
    ensures
        outcome(old(state)@, final(state)@, r, need_cards_step(old(state)@, player, count, *action, draw)),
{
    if player != action.player {
        return Err(Error::InvalidPlayer);
    }
    match action.action_type {
        ActionType::TakeCard => {
            assert(state@.counters[player as int] >= state@.hands[player as int]);
            let ghost before = state@;
            proof {
                state.lemma_counter_bound(player as int);
            }
            match state.take_card(player, draw) {
                Ok(()) => {},
                Err(e) => return Err(e),
            }
            proof {
                let (c, d) = before.deck.pop_card(draw).unwrap();
                assert(state@ == before.take_card(player as int, c, d));
                assert(state@.hands == before.hands);
                assert(state@.counters[player as int] == before.counters[player as int] + 1);
            }
            if count == 1 {
                let left = state.player_cards_counter[player] - state.player_hands[player];
                state.state_type = StateType::TookCards { player, count: left };
            } else {
                state.state_type = StateType::NeedCards { player, count: count - 1 };
            }
            Ok(())
        },
        _ => Err(Error::InvalidAction),
    }
}

/// Returns a card to the deck during an exchange; `left` cards were still to return.
fn on_drop_card(player: usize, left: usize, next: StateType, state: &mut State, action: &Action) -> (r: Result<(), Error>)
    requires
        can_act(old(state)@, *action),
        player < old(state)@.n(),
    ensures
        outcome(old(state)@, final(state)@, r, drop_step(old(state)@, player, left, next, *action)),
{
    match action.action_type {
        ActionType::DropCard(card) => {
            if player != action.player {
                return Err(Error::InvalidPlayer);
            }
            if !state.has_card(player, card) {
                return Err(Error::InvalidCard);
            }
            state.return_card(player, card);
            if left == 1 {
                state.state_type = next_turn(state, player);
            } else {
                state.state_type = next;
            }
            Ok(())
        },
        _ => Err(Error::InvalidAction),
    }
}

fn on_lost_influence(player: usize, current_player: usize, state: &mut State, action: &Action) -> (r: Result<(), Error>)
    requires
        can_act(old(state)@, *action),
        old(state).state_type == (StateType::LostInfluence { player, current_player }),
    ensures
        outcome(old(state)@, final(state)@, r, lost_influence_step(old(state)@, player, current_player, *action)),
{
    match action.action_type {
        ActionType::RevealCard(card) => {
            if player != action.player {
                return Err(Error::InvalidPlayer);
            }
            if !state.has_card(player, card) {
                return Err(Error::InvalidCard);
            }
            state.lose_card(player, card);
            state.state_type = next_turn(state, current_player);
            Ok(())
        },
        _ => Err(Error::InvalidAction),
    }
}

fn on_challenge_shown_card(initiator: usize, target: usize, state: &mut State, action: &Action) -> (r: Result<ChallengeState, Error>)
    requires
        can_act(old(state)@, *action),
        initiator < old(state)@.n(),
    ensures
        match challenge_action_step(old(state)@, ChallengeState::ShownCard { initiator, target }, *action, DeckDraw::Top) {
            Ok((next, m)) => r == Ok::<ChallengeState, Error>(next) && final(state)@ == m,
            Err(e) => r == Err::<ChallengeState, Error>(e) && final(state)@ == old(state)@,
        },
{
    if initiator != action.player {
        return Err(Error::InvalidPlayer);
    }
    match action.action_type {
        ActionType::RevealCard(card) => {
            if !state.has_card(initiator, card) {
                return Err(Error::InvalidCard);
            }
            state.lose_card(initiator, card);
            Ok(ChallengeState::InitiatorRevealedCard { target })
        },
        _ => Err(Error::InvalidAction),
    }
}

/// One step of a challenge; the shuffle uses `rng` when there is one, else keeps the order.
fn play_challenge_action(
    c: ChallengeState,
    state: &mut State,
    action: &Action,
    draw: DeckDraw,
    rng: Option<&mut StdRng>,
) -> (r: Result<ChallengeState, Error>)
    requires
        can_act(old(state)@, *action),
        challenge_wf(c, old(state)@.n()),
    ensures
        match challenge_action_step(old(state)@, c, *action, draw) {
            Ok((next, m)) => r == Ok::<ChallengeState, Error>(next) && if rng is Some
                && action.action_type == ActionType::ShuffleDeck {
                deck_reordered(final(state)@, m)
            } else {
                final(state)@ == m
            },
            Err(e) => r == Err::<ChallengeState, Error>(e) && final(state)@ == old(state)@,
        },
{
    match c {
        ChallengeState::Initial { initiator, target, card } => {
            if target != action.player {
                return Err(Error::InvalidPlayer);
            }
            match action.action_type {
                ActionType::ShowCard(shown) => {
                    if shown != card || !state.has_card(target, card) {
                        return Err(Error::InvalidCard);
                    }
                    state.return_card(target, card);
                    Ok(ChallengeState::ShownCard { initiator, target })
                },
                ActionType::RevealCard(revealed) => {
                    if !state.has_card(target, revealed) {
                        return Err(Error::InvalidCard);
                    }
                    state.lose_card(target, revealed);
                    Ok(ChallengeState::TargetRevealedCard)
                },
                _ => Err(Error::InvalidAction),
            }
        },
        ChallengeState::ShownCard { initiator, target } => {
            on_challenge_shown_card(initiator, target, state, action)
        },
        ChallengeState::InitiatorRevealedCard { target } => {
            if target != action.player {
                return Err(Error::InvalidPlayer);
            }
            match action.action_type {
                ActionType::ShuffleDeck => {
                    match rng {
                        Some(rng) => shuffle_cards(&mut state.deck.known, rng),
                        None => {},
                    }
                    Ok(ChallengeState::DeckShuffled { target })
                },
                _ => Err(Error::InvalidAction),
            }
        },
        ChallengeState::DeckShuffled { target } => {
            if target != action.player {
                return Err(Error::InvalidPlayer);
            }
            match action.action_type {
                ActionType::TakeCard => {
                    match state.take_card(target, draw) {
                        Ok(()) => Ok(ChallengeState::TookCard),
                        Err(e) => Err(e),
                    }
                },
                _ => Err(Error::InvalidAction),
            }
        },
        _ => Err(Error::InvalidAction),
    }
}

fn is_challengeable_exec(s: &StateType) -> (r: bool)
    ensures
        r == is_challengeable(*s),
{
    match s {
        StateType::Tax { .. } | StateType::Exchange { .. } | StateType::Assassination { .. }
        | StateType::Steal { .. } | StateType::BlockForeignAid { .. }
        | StateType::BlockAssassination { .. } | StateType::BlockSteal { .. } => true,
        _ => false,
    }
}

fn on_challenge(
    current_player: usize,
    source: StateType,
    c: ChallengeState,
    state: &mut State,
    action: &Action,
    draw: DeckDraw,
    rng: Option<&mut StdRng>,
) -> (r: Result<(), Error>)
    requires
        can_act(old(state)@, *action),
        old(state).state_type == (StateType::Challenge { current_player, source: Box::new(source), state: c }),
    ensures
        outcome_shuffled(
            old(state)@,
            final(state)@,
            r,
            challenge_step(old(state)@, current_player, source, c, *action, draw),
            rng is Some && shuffles(old(state)@, *action),
        ),
{
    if !is_challengeable_exec(&source) {
        return Err(Error::InvalidSource);
    }
    let ghost before = state@;
    proof {
        lemma_sum_nonneg(before.counters);
    }
    let next = match play_challenge_action(c, state, action, draw, rng) {
        Ok(next) => next,
        Err(e) => return Err(e),
    };
    proof {
        if before.deck.pop_card(draw) is Some {
            before.deck.lemma_pop_count(draw);
        }
    }
    match next {
        ChallengeState::TookCard => match source {
            StateType::Tax { player } => {
                let turn = next_turn(state, current_player);
                state.add_coins(player, TAX);
                state.state_type = turn;
                Ok(())
            },
            StateType::BlockForeignAid { .. } | StateType::BlockAssassination { .. }
            | StateType::BlockSteal { .. } => {
                state.state_type = next_turn(state, current_player);
                Ok(())
            },
            StateType::Exchange { player } => {
                state.state_type = start_exchange(player, state);
                Ok(())
            },
            StateType::Assassination { player, target, .. } => {
                state.state_type = StateType::Assassination { player, target, can_challenge: false };
                Ok(())
            },
            StateType::Steal { player, target, .. } => {
                state.state_type = StateType::Steal { player, target, can_challenge: false };
                Ok(())
            },
            _ => Err(Error::InvalidSource),
        },
        ChallengeState::TargetRevealedCard => match source {
            StateType::BlockForeignAid { target, .. } => {
                state.state_type = StateType::ForeignAid { player: target };
                Ok(())
            },
            StateType::BlockAssassination { player, target } => {
                state.state_type = StateType::Assassination { player: target, target: player, can_challenge: false };
                Ok(())
            },
            StateType::BlockSteal { player, target, .. } => {
                state.state_type = StateType::Steal { player: target, target: player, can_challenge: false };
                Ok(())
            },
            StateType::Tax { .. } | StateType::Exchange { .. } | StateType::Assassination { .. }
            | StateType::Steal { .. } => {
                state.state_type = next_turn(state, current_player);
                Ok(())
            },
            _ => Err(Error::InvalidSource),
        },
        _ => {
            state.state_type = StateType::Challenge { current_player, source: Box::new(source), state: next };
            Ok(())
        },
    }
}

/// Plays `action` by the rules: on success the game has moved on, on an error nothing has
/// changed. A draw from the deck takes what `draw` says; the shuffle of a challenge reorders
/// the deck with `rng`, and keeps it as it is without one.
pub fn play_action(action: &Action, state: &mut State, draw: DeckDraw, rng: Option<&mut StdRng>) -> (r: Result<(), Error>)
    requires
        old(state)@.wf(),
    ensures
        outcome_shuffled(
            old(state)@,
            final(state)@,
            r,
            transition(old(state)@, *action, draw),
            rng is Some && shuffles(old(state)@, *action),
        ),
{
    if action.player >= state.player_hands.len() {
        return Err(Error::InvalidPlayer);
    }
    if state.player_hands[action.player] == 0 {
        return Err(Error::InactivePlayer);
    }
    let current = state.state_type.clone();
    match current {
        StateType::Turn { player } => on_turn(player, state, action),
        StateType::ForeignAid { player } => on_foreign_aid(player, state, action),
        StateType::Tax { player } => on_tax(player, state, action),
        StateType::Exchange { player } => on_exchange(player, state, action),
        StateType::Assassination { player, target, can_challenge } => on_assassination(player, target, can_challenge, state, action),
        StateType::Steal { player, target, can_challenge } => on_steal(player, target, can_challenge, state, action),
        StateType::Challenge { current_player, source, state: c } => on_challenge(current_player, *source, c, state, action, draw, rng),
        StateType::BlockForeignAid { player, target } => on_block_foreign_aid(player, target, state, action),
        StateType::NeedCards { player, count } => on_need_cards(player, count, state, action, draw),
        StateType::TookCards { player, count } => on_drop_card(
            player,
            count,
            StateType::TookCards { player, count: count - 1 },
            state,
            action,
        ),
        StateType::DroppedCard { player, left } => on_drop_card(
            player,
            left,
            StateType::DroppedCard { player, left: left - 1 },
            state,
            action,
        ),
        StateType::BlockAssassination { player, target } => on_block_assassination(player, target, state, action),
        StateType::BlockSteal { player, target, card } => on_block_steal(player, target, card, state, action),
        StateType::LostInfluence { player, current_player } => on_lost_influence(player, current_player, state, action),
    }
}

} // verus!
