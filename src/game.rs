use rand::rngs::StdRng;
use vstd::multiset::Multiset;
use vstd::prelude::*;

use crate::cards::{is_sorted, sort_cards, Card, CardCollection, DeckDraw, GamePlayerCards, Pile};
use crate::fsm::{
    play_action, sum, transition, Action, ActionType, Error, State, StateType,
    CARDS_PER_PLAYER, deck_reordered,
};
use crate::rng::shuffle_cards;

verus! {

pub const INITIAL_COINS: usize = 2;

/// The number of seats and the copies of each of the five cards.
#[derive(Debug, Clone, Copy, PartialEq, Eq, Structural)]
pub struct Settings {
    pub players_number: usize,
    pub cards_per_type: usize,
}

/// `k` copies of `c`.
pub open spec fn copies(c: Card, k: nat) -> Seq<Card> {
    Seq::new(k, |_i: int| c)
}

/// A fresh deck: the copies of each card, in card order.
pub open spec fn full_deck(cards_per_type: nat) -> Seq<Card> {
    copies(Card::Assassin, cards_per_type) + copies(Card::Ambassador, cards_per_type) + copies(
        Card::Captain,
        cards_per_type,
    ) + copies(Card::Contessa, cards_per_type) + copies(Card::Duke, cards_per_type)
}

proof fn lemma_full_deck_real(k: nat)
    ensures
        !full_deck(k).contains(Card::Unknown),
{
    if full_deck(k).contains(Card::Unknown) {
        let j = choose|j: int| 0 <= j < full_deck(k).len() && full_deck(k)[j] == Card::Unknown;
        let a = copies(Card::Assassin, k);
        let b = copies(Card::Ambassador, k);
        let c = copies(Card::Captain, k);
        let d = copies(Card::Contessa, k);
        let e = copies(Card::Duke, k);
        assert(full_deck(k) == a + b + c + d + e);
        if j < k {
            assert((a + b + c + d + e)[j] == a[j]);
        } else if j < 2 * k {
            assert((a + b + c + d + e)[j] == b[j - k]);
        } else if j < 3 * k {
            assert((a + b + c + d + e)[j] == c[j - 2 * k]);
        } else if j < 4 * k {
            assert((a + b + c + d + e)[j] == d[j - 3 * k]);
        } else {
            assert((a + b + c + d + e)[j] == e[j - 4 * k]);
        }
    }
}

fn push_copies(deck: &mut Vec<Card>, c: Card, k: usize)
    ensures
        final(deck)@ == old(deck)@ + copies(c, k as nat),
{
    let mut i: usize = 0;
    while i < k
        invariant
            i <= k,
            deck@ == old(deck)@ + copies(c, i as nat),
        decreases k - i,
    {
        deck.push(c);
        i = i + 1;
        assert(deck@ =~= old(deck)@ + copies(c, i as nat));
    }
}

pub fn make_deck(cards_per_type: usize) -> (r: Vec<Card>)
    ensures
        r@ == full_deck(cards_per_type as nat),
{
    let mut deck: Vec<Card> = Vec::new();
    push_copies(&mut deck, Card::Assassin, cards_per_type);
    push_copies(&mut deck, Card::Ambassador, cards_per_type);
    push_copies(&mut deck, Card::Captain, cards_per_type);
    push_copies(&mut deck, Card::Contessa, cards_per_type);
    push_copies(&mut deck, Card::Duke, cards_per_type);
    assert(deck@ =~= full_deck(cards_per_type as nat));
    deck
}

/// What one player sees of a game.
#[derive(Debug, Clone)]
pub struct PlayerView {
    pub step: usize,
    pub turn: usize,
    pub round: usize,
    pub player: usize,
    pub coins: usize,
    pub cards: Vec<Card>,
    pub state_type: StateType,
    pub player_coins: Vec<usize>,
    pub player_hands: Vec<usize>,
    pub player_cards: Vec<usize>,
    pub revealed_cards: Vec<Card>,
    pub deck: usize,
}

/// What anyone sees of a game.
#[derive(Debug, Clone)]
pub struct AnonymousView {
    pub step: usize,
    pub turn: usize,
    pub round: usize,
    pub state_type: StateType,
    pub player_coins: Vec<usize>,
    pub player_hands: Vec<usize>,
    pub player_cards: Vec<usize>,
    pub revealed_cards: Vec<Card>,
    pub deck: usize,
}

pub fn copy_counts(v: &Vec<usize>) -> (r: Vec<usize>)
    ensures
        r@ == v@,
{
    let mut r: Vec<usize> = Vec::new();
    let mut i: usize = 0;
    while i < v.len()
        invariant
            i <= v@.len(),
            r@ == v@.subrange(0, i as int),
        decreases v@.len() - i,
    {
        r.push(v[i]);
        i = i + 1;
        assert(r@ =~= v@.subrange(0, i as int));
    }
    assert(r@ =~= v@);
    r
}

pub fn copy_cards(v: &Vec<Card>) -> (r: Vec<Card>)
    ensures
        r@ == v@,
{
    let mut r: Vec<Card> = Vec::new();
    let mut i: usize = 0;
    while i < v.len()
        invariant
            i <= v@.len(),
            r@ == v@.subrange(0, i as int),
        decreases v@.len() - i,
    {
        r.push(v[i]);
        i = i + 1;
        assert(r@ =~= v@.subrange(0, i as int));
    }
    assert(r@ =~= v@);
    r
}

/// Number of players with face-down cards.
pub open spec fn active_count(hands: Seq<usize>) -> nat
    decreases hands.len(),
{
    if hands.len() == 0 {
        0
    } else {
        active_count(hands.drop_last()) + if hands.last() > 0 { 1nat } else { 0nat }
    }
}

/// A game played for real: the rules' state and the step, turn and round counts.
#[derive(Debug, Clone)]
pub struct Game {
    pub step: usize,
    pub turn: usize,
    pub round: usize,
    pub player: usize,
    pub state: State,
}

pub proof fn lemma_active_count_zero(hands: Seq<usize>)
    requires
        forall|i: int| 0 <= i < hands.len() ==> hands[i] == 0,
    ensures
        active_count(hands) == 0,
    decreases hands.len(),
{
    if hands.len() > 0 {
        lemma_active_count_zero(hands.drop_last());
    }
}

pub proof fn lemma_active_count_bound(hands: Seq<usize>)
    ensures
        active_count(hands) <= hands.len(),
    decreases hands.len(),
{
    if hands.len() > 0 {
        lemma_active_count_bound(hands.drop_last());
    }
}

/// How the step, turn and round counts move on when the game enters `st`.
pub open spec fn counted(before: Game, after: Game, st: StateType) -> bool {
    &&& after.step == before.step + 1
    &&& match st {
        StateType::Turn { player } => {
            &&& after.turn == before.turn + 1
            &&& after.round == before.round + if before.player >= player { 1int } else { 0int }
            &&& after.player == player
        },
        _ => after.turn == before.turn && after.round == before.round && after.player == before.player,
    }
}

/// All the cards of the hands `hands`, together.
pub open spec fn cards_in(hands: Seq<Seq<Card>>) -> Multiset<Card>
    decreases hands.len(),
{
    if hands.len() == 0 {
        Multiset::empty()
    } else {
        cards_in(hands.drop_last()).add(hands.last().to_multiset())
    }
}

/// The known cards of the piles `cards`.
pub open spec fn known_of(cards: Seq<Pile>) -> Seq<Seq<Card>> {
    cards.map_values(|p: Pile| p.known)
}

proof fn lemma_cards_in_push(s: Seq<Seq<Card>>, p: int, c: Card)
    requires
        0 <= p < s.len(),
    ensures
        cards_in(s.update(p, s[p].push(c))) == cards_in(s).insert(c),
    decreases s.len(),
{
    vstd::seq_lib::to_multiset_build(s[p], c);
    if p < s.len() - 1 {
        lemma_cards_in_push(s.drop_last(), p, c);
        assert(s.update(p, s[p].push(c)).drop_last() =~= s.drop_last().update(p, s[p].push(c)));
    } else {
        assert(s.update(p, s[p].push(c)).drop_last() =~= s.drop_last());
    }
    assert(cards_in(s.update(p, s[p].push(c))) =~= cards_in(s).insert(c));
}

proof fn lemma_cards_in_empty(s: Seq<Seq<Card>>)
    requires
        forall|p: int| 0 <= p < s.len() ==> (#[trigger] s[p]).len() == 0,
    ensures
        cards_in(s) == Multiset::<Card>::empty(),
    decreases s.len(),
{
    if s.len() > 0 {
        lemma_cards_in_empty(s.drop_last());
        vstd::seq_lib::to_multiset_len(s.last());
        vstd::multiset::lemma_multiset_empty_len(s.last().to_multiset());
        assert(cards_in(s) =~= Multiset::<Card>::empty());
    }
}

proof fn lemma_cards_in_same(a: Seq<Seq<Card>>, b: Seq<Seq<Card>>)
    requires
        a.len() == b.len(),
        forall|p: int| 0 <= p < a.len() ==> (#[trigger] a[p]).to_multiset() == b[p].to_multiset(),
    ensures
        cards_in(a) == cards_in(b),
    decreases a.len(),
{
    if a.len() > 0 {
        lemma_cards_in_same(a.drop_last(), b.drop_last());
        assert(a[a.len() - 1].to_multiset() == b[b.len() - 1].to_multiset());
    }
}

/// Deals `rounds` cards to each of `n` players from the top of `deck`, a card to each player
/// in turn.
fn deal(deck: &mut Vec<Card>, n: usize, rounds: usize) -> (r: Vec<Vec<Card>>)
    requires
        n * rounds <= old(deck)@.len(),
    ensures
        r@.len() == n,
        forall|p: int| 0 <= p < n ==> (#[trigger] r@[p])@.len() == rounds,
        final(deck)@.len() == old(deck)@.len() - n * rounds,
        final(deck)@ == old(deck)@.subrange(0, final(deck)@.len() as int),
        forall|p: int, j: int| 0 <= p < n && 0 <= j < rounds ==> old(deck)@.contains(#[trigger] r@[p]@[j]),
        final(deck)@.to_multiset().add(cards_in(r@.map_values(|h: Vec<Card>| h@))) == old(deck)@.to_multiset(),
{
    let mut hands: Vec<Vec<Card>> = Vec::new();
    let mut p: usize = 0;
    while p < n
        invariant
            p <= n,
            hands@.len() == p,
            forall|q: int| 0 <= q < p ==> (#[trigger] hands@[q])@.len() == 0,
            deck@ == old(deck)@,
        decreases n - p,
    {
        hands.push(Vec::new());
        p = p + 1;
    }
    proof {
        lemma_cards_in_empty(hands@.map_values(|h: Vec<Card>| h@));
        assert(deck@.to_multiset().add(Multiset::empty()) =~= deck@.to_multiset());
    }
    let mut round: usize = 0;
    while round < rounds
        invariant
            round <= rounds,
            hands@.len() == n,
            n * rounds <= old(deck)@.len(),
            deck@.len() == old(deck)@.len() - n * round,
            forall|q: int| 0 <= q < n ==> (#[trigger] hands@[q])@.len() == round,
            deck@ == old(deck)@.subrange(0, deck@.len() as int),
            forall|q: int, j: int| 0 <= q < n && 0 <= j < round ==> old(deck)@.contains(#[trigger] hands@[q]@[j]),
            deck@.to_multiset().add(cards_in(hands@.map_values(|h: Vec<Card>| h@))) == old(deck)@.to_multiset(),
        decreases rounds - round,
    {
        let mut p: usize = 0;
        while p < n
            invariant
                round < rounds,
                p <= n,
                hands@.len() == n,
                n * rounds <= old(deck)@.len(),
                deck@.len() == old(deck)@.len() - n * round - p,
                forall|q: int| 0 <= q < p ==> (#[trigger] hands@[q])@.len() == round + 1,
                forall|q: int| p <= q < n ==> (#[trigger] hands@[q])@.len() == round,
                deck@ == old(deck)@.subrange(0, deck@.len() as int),
                forall|q: int, j: int| 0 <= q < n && 0 <= j < hands@[q]@.len() ==> old(deck)@.contains(#[trigger] hands@[q]@[j]),
                deck@.to_multiset().add(cards_in(hands@.map_values(|h: Vec<Card>| h@))) == old(deck)@.to_multiset(),
            decreases n - p,
        {
            proof {
                assert(n * (round + 1) <= n * rounds) by (nonlinear_arith)
                    requires round + 1 <= rounds;
                assert(n * (round + 1) == n * round + n) by (nonlinear_arith);
                assert(n * round + p < n * rounds);
            }
            let ghost before_deck = deck@;
            let ghost before_hands = hands@;
            let card = deck.pop().unwrap();
            proof {
                assert(before_deck[before_deck.len() - 1] == card);
                assert(old(deck)@[before_deck.len() - 1] == card);
                assert(old(deck)@.contains(card));
                assert(deck@ =~= old(deck)@.subrange(0, deck@.len() as int));
            }
            let mut hand = hands.remove(p);
            hand.push(card);
            hands.insert(p, hand);
            proof {
                let hv = before_hands.map_values(|h: Vec<Card>| h@);
                assert(hands@.map_values(|h: Vec<Card>| h@) =~= hv.update(p as int, hv[p as int].push(card)));
                lemma_cards_in_push(hv, p as int, card);
                assert(deck@.push(card) =~= before_deck);
                vstd::seq_lib::to_multiset_build(deck@, card);
                assert(deck@.to_multiset().add(cards_in(hv).insert(card)) =~= before_deck.to_multiset().add(cards_in(hv)));
                assert forall|q: int, j: int| 0 <= q < n && 0 <= j < hands@[q]@.len() implies old(deck)@.contains(#[trigger] hands@[q]@[j]) by {
                    if q != p {
                        assert(hands@[q] == before_hands[q]);
                    } else if j < round {
                        assert(hands@[q]@[j] == before_hands[q]@[j]);
                    }
                }
            }
            p = p + 1;
        }
        proof {
            assert(n * (round + 1) == n * round + n) by (nonlinear_arith);
        }
        round = round + 1;
    }
    hands
}

pub proof fn lemma_sum_repeat(s: Seq<usize>, v: usize)
    requires
        forall|i: int| 0 <= i < s.len() ==> s[i] == v,
    ensures
        sum(s) == v * s.len(),
    decreases s.len(),
{
    if s.len() > 0 {
        lemma_sum_repeat(s.drop_last(), v);
        assert(v * (s.len() - 1) + v == v * s.len()) by (nonlinear_arith);
    }
}

pub fn repeat_count(v: usize, n: usize) -> (r: Vec<usize>)
    ensures
        r@.len() == n,
        forall|i: int| 0 <= i < n ==> r@[i] == v,
{
    let mut r: Vec<usize> = Vec::new();
    let mut i: usize = 0;
    while i < n
        invariant
            i <= n,
            r@.len() == i,
            forall|k: int| 0 <= k < i ==> r@[k] == v,
        decreases n - i,
    {
        r.push(v);
        i = i + 1;
    }
    r
}

/// A game at its start: every hand of two cards sorted, two coins each, the first player to move.
fn start(hands: Vec<Vec<Card>>, deck: Vec<Card>) -> (r: Game)
    requires
        hands@.len() > 0,
        forall|p: int| 0 <= p < hands@.len() ==> (#[trigger] hands@[p])@.len() == CARDS_PER_PLAYER,
        CARDS_PER_PLAYER * hands@.len() + deck@.len() <= usize::MAX,
        forall|p: int| 0 <= p < hands@.len() ==> !(#[trigger] hands@[p])@.contains(Card::Unknown),
        !deck@.contains(Card::Unknown),
    ensures
        r.wf(),
        r.step == 0 && r.turn == 0 && r.round == 0 && r.player == 0,
        r.state@.state_type == (StateType::Turn { player: 0 }),
        r.state@.n() == hands@.len(),
        forall|p: int| 0 <= p < hands@.len() ==> #[trigger] r.state@.coins[p] == INITIAL_COINS,
        forall|p: int| 0 <= p < hands@.len() ==> #[trigger] r.state@.hands[p] == CARDS_PER_PLAYER,
        forall|p: int| 0 <= p < hands@.len() ==> #[trigger] r.state@.counters[p] == CARDS_PER_PLAYER,
        forall|p: int| 0 <= p < hands@.len() ==> (#[trigger] r.state@.cards[p]).exact,
        r.state@.deck == (Pile { exact: false, known: deck@, unknown: 0 }),
        r.state@.revealed.len() == 0,
        r.state@.total() == CARDS_PER_PLAYER * hands@.len() + deck@.len(),
        forall|p: int| 0 <= p < hands@.len() ==> (#[trigger] r.state@.cards[p]).known.to_multiset() == hands@[p]@.to_multiset(),
        forall|p: int| 0 <= p < hands@.len() ==> is_sorted((#[trigger] r.state@.cards[p]).known),
{
    let n = hands.len();
    let mut hands = hands;
    let mut cards: Vec<GamePlayerCards> = Vec::new();
    let ghost dealt = hands@;
    let mut i: usize = 0;
    while hands.len() > 0
        invariant
            cards@.len() + hands@.len() == n,
            hands@ == dealt.subrange(cards@.len() as int, n as int),
            dealt.len() == n,
            forall|p: int| 0 <= p < n ==> (#[trigger] dealt[p])@.len() == CARDS_PER_PLAYER,
            forall|p: int| 0 <= p < cards@.len() ==> (#[trigger] cards@[p])@.count() == CARDS_PER_PLAYER && cards@[p]@.exact && cards@[p]@.unknown == 0,
            forall|p: int| 0 <= p < n ==> !(#[trigger] dealt[p])@.contains(Card::Unknown),
            forall|p: int| 0 <= p < cards@.len() ==> (#[trigger] cards@[p])@.is_real(),
            forall|p: int| 0 <= p < cards@.len() ==> (#[trigger] cards@[p])@.known.to_multiset() == dealt[p]@.to_multiset(),
            forall|p: int| 0 <= p < cards@.len() ==> is_sorted((#[trigger] cards@[p])@.known),
        decreases hands@.len(),
    {
        let mut hand = hands.remove(0);
        assert(hand@ == dealt[cards@.len() as int]@);
        let ghost unsorted = hand@;
        sort_cards(&mut hand);
        proof {
            vstd::seq_lib::to_multiset_contains(unsorted, Card::Unknown);
            vstd::seq_lib::to_multiset_contains(hand@, Card::Unknown);
        }
        cards.push(GamePlayerCards::Player(hand));
        assert(hands@ =~= dealt.subrange(cards@.len() as int, n as int));
    }
    let coins = repeat_count(INITIAL_COINS, n);
    let hand_sizes = repeat_count(CARDS_PER_PLAYER, n);
    let counters = repeat_count(CARDS_PER_PLAYER, n);
    let game = Game {
        step: 0,
        turn: 0,
        round: 0,
        player: 0,
        state: State {
            state_type: StateType::Turn { player: 0 },
            player_coins: coins,
            player_hands: hand_sizes,
            player_cards_counter: counters,
            player_cards: cards,
            deck: CardCollection { known: deck, unknown: 0 },
            revealed_cards: Vec::new(),
        },
    };
    proof {
        lemma_sum_repeat(game.state@.counters, CARDS_PER_PLAYER);
        assert(game.state@.revealed.len() == 0);
        assert forall|p: int| 0 <= p < n implies game.state@.counters[p] == #[trigger] game.state@.cards[p].count() by {
            assert(game.state@.cards[p] == cards@[p]@);
        }
    }
    game
}

impl Game {
    pub open spec fn wf(&self) -> bool {
        &&& self.state@.wf()
        &&& crate::fsm::awaited_active(self.state@)
        &&& crate::fsm::real_cards(self.state@)
        &&& self.player < self.state@.n()
        &&& self.round <= self.turn <= self.step
    }

    /// A game with a shuffled deck of `cards_per_type` copies of each card, two cards dealt to
    /// each player in turn from its top.
    pub fn new(settings: Settings, rng: &mut StdRng) -> (r: Self)
        requires
            settings.players_number >= 1,
            5 * settings.cards_per_type <= usize::MAX,
            CARDS_PER_PLAYER * settings.players_number <= 5 * settings.cards_per_type,
        ensures
            r.wf(),
            r.step == 0 && r.turn == 0 && r.round == 0,
            r.state@.state_type == (StateType::Turn { player: 0 }),
            r.state@.n() == settings.players_number,
            forall|p: int| 0 <= p < settings.players_number ==> #[trigger] r.state@.coins[p] == INITIAL_COINS,
            forall|p: int| 0 <= p < settings.players_number ==> #[trigger] r.state@.hands[p] == CARDS_PER_PLAYER,
            r.state@.deck.count() == 5 * settings.cards_per_type - CARDS_PER_PLAYER * settings.players_number,
            r.state@.revealed.len() == 0,
            r.state@.total() == 5 * settings.cards_per_type,
            r.state@.deck.known.to_multiset().add(cards_in(known_of(r.state@.cards))) == full_deck(settings.cards_per_type as nat).to_multiset(),
            forall|p: int| 0 <= p < settings.players_number ==> is_sorted((#[trigger] r.state@.cards[p]).known),
    {
        let mut deck = make_deck(settings.cards_per_type);
        proof {
            lemma_full_deck_real(settings.cards_per_type as nat);
            vstd::seq_lib::to_multiset_contains(deck@, Card::Unknown);
        }
        shuffle_cards(&mut deck, rng);
        proof {
            vstd::seq_lib::to_multiset_contains(deck@, Card::Unknown);
        }
        let ghost shuffled = deck@;
        let hands = deal(&mut deck, settings.players_number, CARDS_PER_PLAYER);
        proof {
            assert forall|p: int| 0 <= p < hands@.len() implies !(#[trigger] hands@[p])@.contains(Card::Unknown) by {
                if hands@[p]@.contains(Card::Unknown) {
                    let j = choose|j: int| 0 <= j < hands@[p]@.len() && hands@[p]@[j] == Card::Unknown;
                    assert(shuffled.contains(hands@[p]@[j]));
                }
            }
            if deck@.contains(Card::Unknown) {
                let j = choose|j: int| 0 <= j < deck@.len() && deck@[j] == Card::Unknown;
                assert(shuffled[j] == Card::Unknown);
            }
        }
        proof {
            assert(settings.players_number * CARDS_PER_PLAYER == CARDS_PER_PLAYER * settings.players_number) by (nonlinear_arith);
        }
        let ghost dealt = hands@.map_values(|h: Vec<Card>| h@);
        let ghost rest = deck@;
        let game = start(hands, deck);
        proof {
            lemma_cards_in_same(known_of(game.state@.cards), dealt);
        }
        game
    }

    /// A game with the given hands and deck, whose top is its last card.
    pub fn custom(player_cards: Vec<Vec<Card>>, deck: Vec<Card>) -> (r: Self)
        requires
            player_cards@.len() > 0,
            forall|p: int| 0 <= p < player_cards@.len() ==> !(#[trigger] player_cards@[p])@.contains(Card::Unknown),
            !deck@.contains(Card::Unknown),
            forall|p: int| 0 <= p < player_cards@.len() ==> (#[trigger] player_cards@[p])@.len() == CARDS_PER_PLAYER,
            CARDS_PER_PLAYER * player_cards@.len() + deck@.len() <= usize::MAX,
        ensures
            r.wf(),
            r.step == 0 && r.turn == 0 && r.round == 0,
            r.state@.state_type == (StateType::Turn { player: 0 }),
            r.state@.n() == player_cards@.len(),
            r.state@.deck == (Pile { exact: false, known: deck@, unknown: 0 }),
            r.state@.revealed.len() == 0,
            forall|p: int| 0 <= p < player_cards@.len() ==> #[trigger] r.state@.coins[p] == INITIAL_COINS,
            forall|p: int| 0 <= p < player_cards@.len() ==> #[trigger] r.state@.hands[p] == CARDS_PER_PLAYER,
            forall|p: int| 0 <= p < player_cards@.len() ==> #[trigger] r.state@.counters[p] == CARDS_PER_PLAYER,
            forall|p: int| 0 <= p < player_cards@.len() ==> (#[trigger] r.state@.cards[p]).exact && r.state@.cards[p].unknown == 0,
            forall|p: int| 0 <= p < player_cards@.len() ==> (#[trigger] r.state@.cards[p]).known.to_multiset() == player_cards@[p]@.to_multiset(),
            forall|p: int| 0 <= p < player_cards@.len() ==> is_sorted((#[trigger] r.state@.cards[p]).known),
    {
        start(player_cards, deck)
    }

    pub fn step(&self) -> (r: usize)
        ensures
            r == self.step,
    {
        self.step
    }

    pub fn turn(&self) -> (r: usize)
        ensures
            r == self.turn,
    {
        self.turn
    }

    pub fn round(&self) -> (r: usize)
        ensures
            r == self.round,
    {
        self.round
    }

    pub fn get_anonymous_view(&self) -> (r: AnonymousView)
        requires
            self.wf(),
        ensures
            r.step == self.step && r.turn == self.turn && r.round == self.round,
            r.state_type == self.state.state_type,
            r.player_coins@ == self.state@.coins,
            r.player_hands@ == self.state@.hands,
            r.player_cards@ == self.state@.counters,
            r.revealed_cards@ == self.state@.revealed,
            r.deck == self.state@.deck.count(),
    {
        proof {
            crate::fsm::lemma_sum_nonneg(self.state@.counters);
        }
        AnonymousView {
            step: self.step,
            turn: self.turn,
            round: self.round,
            state_type: self.state.state_type.clone(),
            player_coins: copy_counts(&self.state.player_coins),
            player_hands: copy_counts(&self.state.player_hands),
            player_cards: copy_counts(&self.state.player_cards_counter),
            revealed_cards: copy_cards(&self.state.revealed_cards),
            deck: self.state.deck.len(),
        }
    }

    pub fn get_player_view(&self, player: usize) -> (r: PlayerView)
        requires
            player < self.state@.n(),
            self.wf(),
        ensures
            r.step == self.step && r.turn == self.turn && r.round == self.round,
            r.player == player,
            r.coins == self.state@.coins[player as int],
            r.cards@ == self.state@.cards[player as int].known,
            r.state_type == self.state.state_type,
            r.player_coins@ == self.state@.coins,
            r.player_hands@ == self.state@.hands,
            r.player_cards@ == self.state@.counters,
            r.revealed_cards@ == self.state@.revealed,
            r.deck == self.state@.deck.count(),
    {
        proof {
            crate::fsm::lemma_sum_nonneg(self.state@.counters);
        }
        let cards = match &self.state.player_cards[player] {
            GamePlayerCards::Player(cards) => copy_cards(cards),
            GamePlayerCards::Opponent(cards) => copy_cards(&cards.known),
        };
        PlayerView {
            step: self.step,
            turn: self.turn,
            round: self.round,
            player,
            coins: self.state.player_coins[player],
            cards,
            state_type: self.state.state_type.clone(),
            player_coins: copy_counts(&self.state.player_coins),
            player_hands: copy_counts(&self.state.player_hands),
            player_cards: copy_counts(&self.state.player_cards_counter),
            revealed_cards: copy_cards(&self.state.revealed_cards),
            deck: self.state.deck.len(),
        }
    }

    pub fn is_player_active(&self, index: usize) -> (r: bool)
        requires
            index < self.state@.n(),
        ensures
            r == (self.state@.hands[index as int] > 0),
    {
        self.state.player_hands[index] > 0
    }

    fn count_active(&self) -> (r: usize)
        ensures
            r == active_count(self.state@.hands),
    {
        let hands = &self.state.player_hands;
        let mut i: usize = 0;
        let mut count: usize = 0;
        while i < hands.len()
            invariant
                i <= hands@.len(),
                count == active_count(hands@.subrange(0, i as int)),
                count <= i,
            decreases hands@.len() - i,
        {
            proof {
                assert(hands@.subrange(0, i as int + 1).drop_last() =~= hands@.subrange(0, i as int));
                lemma_active_count_bound(hands@.subrange(0, i as int));
            }
            if hands[i] > 0 {
                count = count + 1;
            }
            i = i + 1;
        }
        assert(hands@.subrange(0, hands@.len() as int) =~= hands@);
        count
    }

    /// Whether at most one player still has face-down cards.
    pub fn is_done(&self) -> (r: bool)
        ensures
            r == (active_count(self.state@.hands) <= 1),
    {
        self.count_active() <= 1
    }

    /// The one player left with face-down cards, once there is exactly one.
    pub fn get_winner(&self) -> (r: Option<usize>)
        ensures
            match r {
                Some(p) => active_count(self.state@.hands) == 1 && p < self.state@.n() && self.state@.hands[p as int] > 0,
                None => active_count(self.state@.hands) != 1,
            },
    {
        let active = self.count_active();
        if active != 1 {
            return None;
        }
        let hands = &self.state.player_hands;
        let mut i: usize = 0;
        while i < hands.len()
            invariant
                i <= hands@.len(),
                hands@ == self.state@.hands,
                active == active_count(self.state@.hands),
                active == 1,
                forall|k: int| 0 <= k < i ==> hands@[k] == 0,
            decreases hands@.len() - i,
        {
            if hands[i] > 0 {
                return Some(i);
            }
            i = i + 1;
        }
        proof {
            lemma_active_count_zero(hands@);
        }
        None
    }

    /// Plays `action`; on success counts the step, and a turn (and a round when play has gone
    /// round the table) whenever a turn starts. A refused move leaves the game as it was.
    pub fn play(&mut self, action: &Action, rng: &mut StdRng) -> (r: Result<(), String>)
        requires
            old(self).wf(),
            old(self).step < usize::MAX,
        ensures
            final(self).wf(),
            match transition(old(self).state@, *action, DeckDraw::Top) {
                Ok(m) => {
                    &&& r is Ok
                    &&& (final(self).state@ == m || (crate::fsm::shuffles(old(self).state@, *action)
                        && deck_reordered(final(self).state@, m)))
                    &&& counted(*old(self), *final(self), m.state_type)
                },
                Err(e) => {
                    &&& r matches Err(s) && s@ == failure_text(e)
                    &&& final(self).state@ == old(self).state@
                    &&& final(self).step == old(self).step && final(self).turn == old(self).turn
                    &&& final(self).round == old(self).round && final(self).player == old(self).player
                },
            },
    {
        let ghost before = self.state@;
        let result = play_action(action, &mut self.state, DeckDraw::Top, Some(rng));
        match result {
            Err(e) => Err(failure_message(e)),
            Ok(()) => {
                proof {
                    let m = transition(before, *action, DeckDraw::Top).unwrap();
                    crate::laws::lemma_transition_wf(before, *action, DeckDraw::Top);
                    crate::laws::lemma_transition_awaited(before, *action, DeckDraw::Top);
                    crate::laws::lemma_transition_real(before, *action);
                    crate::laws::lemma_reordered_wf(self.state@, m);
                }
                self.step = self.step + 1;
                match self.state.state_type {
                    StateType::Turn { player } => {
                        self.turn = self.turn + 1;
                        if self.player >= player {
                            self.round = self.round + 1;
                        }
                        self.player = player;
                    },
                    _ => {},
                }
                Ok(())
            },
        }
    }
}

/// The message that tells a human why a move was refused.
pub open spec fn failure_text(e: Error) -> Seq<char> {
    match e {
        Error::InvalidPlayer => "State machine check is failed: InvalidPlayer"@,
        Error::InvalidTarget => "State machine check is failed: InvalidTarget"@,
        Error::InvalidAction => "State machine check is failed: InvalidAction"@,
        Error::InvalidCard => "State machine check is failed: InvalidCard"@,
        Error::InvalidSource => "State machine check is failed: InvalidSource"@,
        Error::NotEnoughCoins => "State machine check is failed: NotEnoughCoins"@,
        Error::TooManyCoins => "State machine check is failed: TooManyCoins"@,
        Error::InactivePlayer => "State machine check is failed: InactivePlayer"@,
    }
}

pub fn failure_message(e: Error) -> (r: String)
    ensures
        r@ == failure_text(e),
{
    match e {
        Error::InvalidPlayer => "State machine check is failed: InvalidPlayer".to_owned(),
        Error::InvalidTarget => "State machine check is failed: InvalidTarget".to_owned(),
        Error::InvalidAction => "State machine check is failed: InvalidAction".to_owned(),
        Error::InvalidCard => "State machine check is failed: InvalidCard".to_owned(),
        Error::InvalidSource => "State machine check is failed: InvalidSource".to_owned(),
        Error::NotEnoughCoins => "State machine check is failed: NotEnoughCoins".to_owned(),
        Error::TooManyCoins => "State machine check is failed: TooManyCoins".to_owned(),
        Error::InactivePlayer => "State machine check is failed: InactivePlayer".to_owned(),
    }
}

pub fn get_example_settings() -> (r: Settings)
    ensures
        r == (Settings { players_number: 6, cards_per_type: 3 }),
{
    Settings { players_number: 6, cards_per_type: 3 }
}

/// The moves of a whole scripted game for the example settings.
pub open spec fn example_actions() -> Seq<Action> {
    seq![
        Action { player: 0, action_type: ActionType::Income },
        Action { player: 1, action_type: ActionType::ForeignAid },
        Action { player: 0, action_type: ActionType::BlockForeignAid },
        Action { player: 0, action_type: ActionType::PassChallenge },
        Action { player: 2, action_type: ActionType::ForeignAid },
        Action { player: 1, action_type: ActionType::BlockForeignAid },
        Action { player: 2, action_type: ActionType::Challenge },
        Action { player: 1, action_type: ActionType::ShowCard(Card::Duke) },
        Action { player: 2, action_type: ActionType::RevealCard(Card::Ambassador) },
        Action { player: 1, action_type: ActionType::ShuffleDeck },
        Action { player: 1, action_type: ActionType::TakeCard },
        Action { player: 3, action_type: ActionType::Tax },
        Action { player: 3, action_type: ActionType::PassChallenge },
        Action { player: 4, action_type: ActionType::Tax },
        Action { player: 1, action_type: ActionType::Challenge },
        Action { player: 4, action_type: ActionType::RevealCard(Card::Contessa) },
        Action { player: 5, action_type: ActionType::Steal(3) },
        Action { player: 5, action_type: ActionType::PassChallenge },
        Action { player: 3, action_type: ActionType::BlockSteal(Card::Ambassador) },
        Action { player: 3, action_type: ActionType::PassChallenge },
        Action { player: 0, action_type: ActionType::Tax },
        Action { player: 0, action_type: ActionType::PassChallenge },
        Action { player: 1, action_type: ActionType::Steal(3) },
        Action { player: 1, action_type: ActionType::PassChallenge },
        Action { player: 3, action_type: ActionType::BlockSteal(Card::Captain) },
        Action { player: 1, action_type: ActionType::Challenge },
        Action { player: 3, action_type: ActionType::ShowCard(Card::Captain) },
        Action { player: 1, action_type: ActionType::RevealCard(Card::Captain) },
        Action { player: 3, action_type: ActionType::ShuffleDeck },
        Action { player: 3, action_type: ActionType::TakeCard },
        Action { player: 2, action_type: ActionType::Tax },
        Action { player: 2, action_type: ActionType::PassChallenge },
        Action { player: 3, action_type: ActionType::Steal(2) },
        Action { player: 3, action_type: ActionType::PassChallenge },
        Action { player: 3, action_type: ActionType::PassBlock },
        Action { player: 4, action_type: ActionType::Income },
        Action { player: 5, action_type: ActionType::Income },
        Action { player: 0, action_type: ActionType::Assassinate(3) },
        Action { player: 0, action_type: ActionType::PassChallenge },
        Action { player: 0, action_type: ActionType::PassBlock },
        Action { player: 3, action_type: ActionType::RevealCard(Card::Ambassador) },
        Action { player: 1, action_type: ActionType::Income },
        Action { player: 2, action_type: ActionType::Tax },
        Action { player: 2, action_type: ActionType::PassChallenge },
        Action { player: 3, action_type: ActionType::Steal(2) },
        Action { player: 3, action_type: ActionType::PassChallenge },
        Action { player: 3, action_type: ActionType::PassBlock },
        Action { player: 4, action_type: ActionType::Income },
        Action { player: 5, action_type: ActionType::Income },
        Action { player: 0, action_type: ActionType::Tax },
        Action { player: 0, action_type: ActionType::PassChallenge },
        Action { player: 1, action_type: ActionType::Income },
        Action { player: 2, action_type: ActionType::Tax },
        Action { player: 2, action_type: ActionType::PassChallenge },
        Action { player: 3, action_type: ActionType::Coup(0) },
        Action { player: 0, action_type: ActionType::RevealCard(Card::Assassin) },
        Action { player: 4, action_type: ActionType::Income },
        Action { player: 5, action_type: ActionType::Income },
        Action { player: 0, action_type: ActionType::Assassinate(2) },
        Action { player: 0, action_type: ActionType::PassChallenge },
        Action { player: 2, action_type: ActionType::BlockAssassination },
        Action { player: 0, action_type: ActionType::Challenge },
        Action { player: 2, action_type: ActionType::RevealCard(Card::Duke) },
        Action { player: 0, action_type: ActionType::PassBlock },
        Action { player: 1, action_type: ActionType::ForeignAid },
        Action { player: 1, action_type: ActionType::PassBlock },
        Action { player: 3, action_type: ActionType::Steal(4) },
        Action { player: 3, action_type: ActionType::PassChallenge },
        Action { player: 3, action_type: ActionType::PassBlock },
        Action { player: 4, action_type: ActionType::ForeignAid },
        Action { player: 4, action_type: ActionType::PassBlock },
        Action { player: 5, action_type: ActionType::ForeignAid },
        Action { player: 5, action_type: ActionType::PassBlock },
        Action { player: 0, action_type: ActionType::ForeignAid },
        Action { player: 0, action_type: ActionType::PassBlock },
        Action { player: 1, action_type: ActionType::ForeignAid },
        Action { player: 1, action_type: ActionType::PassBlock },
        Action { player: 3, action_type: ActionType::Steal(5) },
        Action { player: 3, action_type: ActionType::PassChallenge },
        Action { player: 3, action_type: ActionType::PassBlock },
        Action { player: 4, action_type: ActionType::ForeignAid },
        Action { player: 4, action_type: ActionType::PassBlock },
        Action { player: 5, action_type: ActionType::ForeignAid },
        Action { player: 5, action_type: ActionType::PassBlock },
        Action { player: 0, action_type: ActionType::Assassinate(1) },
        Action { player: 0, action_type: ActionType::PassChallenge },
        Action { player: 1, action_type: ActionType::BlockAssassination },
        Action { player: 0, action_type: ActionType::Challenge },
        Action { player: 1, action_type: ActionType::ShowCard(Card::Contessa) },
        Action { player: 0, action_type: ActionType::RevealCard(Card::Assassin) },
        Action { player: 1, action_type: ActionType::ShuffleDeck },
        Action { player: 1, action_type: ActionType::TakeCard },
        Action { player: 1, action_type: ActionType::ForeignAid },
        Action { player: 1, action_type: ActionType::PassBlock },
        Action { player: 3, action_type: ActionType::Steal(1) },
        Action { player: 3, action_type: ActionType::PassChallenge },
        Action { player: 3, action_type: ActionType::PassBlock },
        Action { player: 4, action_type: ActionType::Exchange },
        Action { player: 4, action_type: ActionType::PassChallenge },
        Action { player: 4, action_type: ActionType::TakeCard },
        Action { player: 4, action_type: ActionType::TakeCard },
        Action { player: 4, action_type: ActionType::DropCard(Card::Ambassador) },
        Action { player: 4, action_type: ActionType::DropCard(Card::Contessa) },
        Action { player: 5, action_type: ActionType::ForeignAid },
        Action { player: 4, action_type: ActionType::BlockForeignAid },
        Action { player: 5, action_type: ActionType::Challenge },
        Action { player: 4, action_type: ActionType::ShowCard(Card::Duke) },
        Action { player: 5, action_type: ActionType::RevealCard(Card::Contessa) },
        Action { player: 4, action_type: ActionType::ShuffleDeck },
        Action { player: 4, action_type: ActionType::TakeCard },
        Action { player: 1, action_type: ActionType::Tax },
        Action { player: 1, action_type: ActionType::PassChallenge },
        Action { player: 3, action_type: ActionType::Steal(1) },
        Action { player: 3, action_type: ActionType::PassChallenge },
        Action { player: 3, action_type: ActionType::PassBlock },
        Action { player: 4, action_type: ActionType::Assassinate(1) },
        Action { player: 1, action_type: ActionType::Challenge },
        Action { player: 4, action_type: ActionType::ShowCard(Card::Assassin) },
        Action { player: 1, action_type: ActionType::RevealCard(Card::Duke) },
        Action { player: 4, action_type: ActionType::ShuffleDeck },
        Action { player: 4, action_type: ActionType::TakeCard },
        Action { player: 4, action_type: ActionType::PassBlock },
        Action { player: 5, action_type: ActionType::ForeignAid },
        Action { player: 5, action_type: ActionType::PassBlock },
        Action { player: 3, action_type: ActionType::Coup(5) },
        Action { player: 5, action_type: ActionType::RevealCard(Card::Captain) },
        Action { player: 4, action_type: ActionType::Tax },
        Action { player: 3, action_type: ActionType::Challenge },
        Action { player: 4, action_type: ActionType::ShowCard(Card::Duke) },
        Action { player: 3, action_type: ActionType::RevealCard(Card::Captain) },
        Action { player: 4, action_type: ActionType::ShuffleDeck },
        Action { player: 4, action_type: ActionType::TakeCard },
    ]
}

/// A whole scripted game for the example settings.
pub fn get_example_actions() -> (r: Vec<Action>)
    ensures
        r@ == example_actions(),
{
    let r = vec![
        Action { player: 0, action_type: ActionType::Income },
        Action { player: 1, action_type: ActionType::ForeignAid },
        Action { player: 0, action_type: ActionType::BlockForeignAid },
        Action { player: 0, action_type: ActionType::PassChallenge },
        Action { player: 2, action_type: ActionType::ForeignAid },
        Action { player: 1, action_type: ActionType::BlockForeignAid },
        Action { player: 2, action_type: ActionType::Challenge },
        Action { player: 1, action_type: ActionType::ShowCard(Card::Duke) },
        Action { player: 2, action_type: ActionType::RevealCard(Card::Ambassador) },
        Action { player: 1, action_type: ActionType::ShuffleDeck },
        Action { player: 1, action_type: ActionType::TakeCard },
        Action { player: 3, action_type: ActionType::Tax },
        Action { player: 3, action_type: ActionType::PassChallenge },
        Action { player: 4, action_type: ActionType::Tax },
        Action { player: 1, action_type: ActionType::Challenge },
        Action { player: 4, action_type: ActionType::RevealCard(Card::Contessa) },
        Action { player: 5, action_type: ActionType::Steal(3) },
        Action { player: 5, action_type: ActionType::PassChallenge },
        Action { player: 3, action_type: ActionType::BlockSteal(Card::Ambassador) },
        Action { player: 3, action_type: ActionType::PassChallenge },
        Action { player: 0, action_type: ActionType::Tax },
        Action { player: 0, action_type: ActionType::PassChallenge },
        Action { player: 1, action_type: ActionType::Steal(3) },
        Action { player: 1, action_type: ActionType::PassChallenge },
        Action { player: 3, action_type: ActionType::BlockSteal(Card::Captain) },
        Action { player: 1, action_type: ActionType::Challenge },
        Action { player: 3, action_type: ActionType::ShowCard(Card::Captain) },
        Action { player: 1, action_type: ActionType::RevealCard(Card::Captain) },
        Action { player: 3, action_type: ActionType::ShuffleDeck },
        Action { player: 3, action_type: ActionType::TakeCard },
        Action { player: 2, action_type: ActionType::Tax },
        Action { player: 2, action_type: ActionType::PassChallenge },
        Action { player: 3, action_type: ActionType::Steal(2) },
        Action { player: 3, action_type: ActionType::PassChallenge },
        Action { player: 3, action_type: ActionType::PassBlock },
        Action { player: 4, action_type: ActionType::Income },
        Action { player: 5, action_type: ActionType::Income },
        Action { player: 0, action_type: ActionType::Assassinate(3) },
        Action { player: 0, action_type: ActionType::PassChallenge },
        Action { player: 0, action_type: ActionType::PassBlock },
        Action { player: 3, action_type: ActionType::RevealCard(Card::Ambassador) },
        Action { player: 1, action_type: ActionType::Income },
        Action { player: 2, action_type: ActionType::Tax },
        Action { player: 2, action_type: ActionType::PassChallenge },
        Action { player: 3, action_type: ActionType::Steal(2) },
        Action { player: 3, action_type: ActionType::PassChallenge },
        Action { player: 3, action_type: ActionType::PassBlock },
        Action { player: 4, action_type: ActionType::Income },
        Action { player: 5, action_type: ActionType::Income },
        Action { player: 0, action_type: ActionType::Tax },
        Action { player: 0, action_type: ActionType::PassChallenge },
        Action { player: 1, action_type: ActionType::Income },
        Action { player: 2, action_type: ActionType::Tax },
        Action { player: 2, action_type: ActionType::PassChallenge },
        Action { player: 3, action_type: ActionType::Coup(0) },
        Action { player: 0, action_type: ActionType::RevealCard(Card::Assassin) },
        Action { player: 4, action_type: ActionType::Income },
        Action { player: 5, action_type: ActionType::Income },
        Action { player: 0, action_type: ActionType::Assassinate(2) },
        Action { player: 0, action_type: ActionType::PassChallenge },
        Action { player: 2, action_type: ActionType::BlockAssassination },
        Action { player: 0, action_type: ActionType::Challenge },
        Action { player: 2, action_type: ActionType::RevealCard(Card::Duke) },
        Action { player: 0, action_type: ActionType::PassBlock },
        Action { player: 1, action_type: ActionType::ForeignAid },
        Action { player: 1, action_type: ActionType::PassBlock },
        Action { player: 3, action_type: ActionType::Steal(4) },
        Action { player: 3, action_type: ActionType::PassChallenge },
        Action { player: 3, action_type: ActionType::PassBlock },
        Action { player: 4, action_type: ActionType::ForeignAid },
        Action { player: 4, action_type: ActionType::PassBlock },
        Action { player: 5, action_type: ActionType::ForeignAid },
        Action { player: 5, action_type: ActionType::PassBlock },
        Action { player: 0, action_type: ActionType::ForeignAid },
        Action { player: 0, action_type: ActionType::PassBlock },
        Action { player: 1, action_type: ActionType::ForeignAid },
        Action { player: 1, action_type: ActionType::PassBlock },
        Action { player: 3, action_type: ActionType::Steal(5) },
        Action { player: 3, action_type: ActionType::PassChallenge },
        Action { player: 3, action_type: ActionType::PassBlock },
        Action { player: 4, action_type: ActionType::ForeignAid },
        Action { player: 4, action_type: ActionType::PassBlock },
        Action { player: 5, action_type: ActionType::ForeignAid },
        Action { player: 5, action_type: ActionType::PassBlock },
        Action { player: 0, action_type: ActionType::Assassinate(1) },
        Action { player: 0, action_type: ActionType::PassChallenge },
        Action { player: 1, action_type: ActionType::BlockAssassination },
        Action { player: 0, action_type: ActionType::Challenge },
        Action { player: 1, action_type: ActionType::ShowCard(Card::Contessa) },
        Action { player: 0, action_type: ActionType::RevealCard(Card::Assassin) },
        Action { player: 1, action_type: ActionType::ShuffleDeck },
        Action { player: 1, action_type: ActionType::TakeCard },
        Action { player: 1, action_type: ActionType::ForeignAid },
        Action { player: 1, action_type: ActionType::PassBlock },
        Action { player: 3, action_type: ActionType::Steal(1) },
        Action { player: 3, action_type: ActionType::PassChallenge },
        Action { player: 3, action_type: ActionType::PassBlock },
        Action { player: 4, action_type: ActionType::Exchange },
        Action { player: 4, action_type: ActionType::PassChallenge },
        Action { player: 4, action_type: ActionType::TakeCard },
        Action { player: 4, action_type: ActionType::TakeCard },
        Action { player: 4, action_type: ActionType::DropCard(Card::Ambassador) },
        Action { player: 4, action_type: ActionType::DropCard(Card::Contessa) },
        Action { player: 5, action_type: ActionType::ForeignAid },
        Action { player: 4, action_type: ActionType::BlockForeignAid },
        Action { player: 5, action_type: ActionType::Challenge },
        Action { player: 4, action_type: ActionType::ShowCard(Card::Duke) },
        Action { player: 5, action_type: ActionType::RevealCard(Card::Contessa) },
        Action { player: 4, action_type: ActionType::ShuffleDeck },
        Action { player: 4, action_type: ActionType::TakeCard },
        Action { player: 1, action_type: ActionType::Tax },
        Action { player: 1, action_type: ActionType::PassChallenge },
        Action { player: 3, action_type: ActionType::Steal(1) },
        Action { player: 3, action_type: ActionType::PassChallenge },
        Action { player: 3, action_type: ActionType::PassBlock },
        Action { player: 4, action_type: ActionType::Assassinate(1) },
        Action { player: 1, action_type: ActionType::Challenge },
        Action { player: 4, action_type: ActionType::ShowCard(Card::Assassin) },
        Action { player: 1, action_type: ActionType::RevealCard(Card::Duke) },
        Action { player: 4, action_type: ActionType::ShuffleDeck },
        Action { player: 4, action_type: ActionType::TakeCard },
        Action { player: 4, action_type: ActionType::PassBlock },
        Action { player: 5, action_type: ActionType::ForeignAid },
        Action { player: 5, action_type: ActionType::PassBlock },
        Action { player: 3, action_type: ActionType::Coup(5) },
        Action { player: 5, action_type: ActionType::RevealCard(Card::Captain) },
        Action { player: 4, action_type: ActionType::Tax },
        Action { player: 3, action_type: ActionType::Challenge },
        Action { player: 4, action_type: ActionType::ShowCard(Card::Duke) },
        Action { player: 3, action_type: ActionType::RevealCard(Card::Captain) },
        Action { player: 4, action_type: ActionType::ShuffleDeck },
        Action { player: 4, action_type: ActionType::TakeCard },
    ];
    assert(r@ =~= example_actions());
    r
}

} // verus!
