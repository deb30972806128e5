use vstd::prelude::*;

use crate::cards::{card_rank, is_sorted, rank_of, sort_cards, Card, CardCollection, GamePlayerCards, Pile};
use crate::fsm::{ChallengeState, State, StateModel, StateType, CARDS_PER_PLAYER};
use crate::game::{copy_cards, copy_counts, lemma_sum_repeat, Settings, INITIAL_COINS};

verus! {

/// One state of the game that the public history allows, as the tracking player sees it.
#[derive(Debug, Clone, PartialEq, Eq)]
pub struct GameState {
    pub valid: bool,
    pub state: State,
}

pub fn copy_hand(h: &GamePlayerCards) -> (r: GamePlayerCards)
    ensures
        r@ == h@,
{
    match h {
        GamePlayerCards::Player(cards) => GamePlayerCards::Player(copy_cards(cards)),
        GamePlayerCards::Opponent(c) => GamePlayerCards::Opponent(CardCollection { known: copy_cards(&c.known), unknown: c.unknown }),
    }
}

pub fn copy_state(s: &State) -> (r: State)
    ensures
        r@ == s@,
{
    let mut hands: Vec<GamePlayerCards> = Vec::new();
    let mut i: usize = 0;
    while i < s.player_cards.len()
        invariant
            i <= s.player_cards@.len(),
            hands@.len() == i,
            forall|k: int| 0 <= k < i ==> (#[trigger] hands@[k])@ == s.player_cards@[k]@,
        decreases s.player_cards@.len() - i,
    {
        hands.push(copy_hand(&s.player_cards[i]));
        i = i + 1;
    }
    let r = State {
        state_type: s.state_type.clone(),
        player_coins: copy_counts(&s.player_coins),
        player_hands: copy_counts(&s.player_hands),
        player_cards_counter: copy_counts(&s.player_cards_counter),
        player_cards: hands,
        deck: CardCollection { known: copy_cards(&s.deck.known), unknown: s.deck.unknown },
        revealed_cards: copy_cards(&s.revealed_cards),
    };
    assert(r@.cards =~= s@.cards);
    assert(r@ =~= s@);
    r
}

fn same_counts(a: &Vec<usize>, b: &Vec<usize>) -> (r: bool)
    ensures
        r == (a@ == b@),
{
    if a.len() != b.len() {
        return false;
    }
    let mut i: usize = 0;
    while i < a.len()
        invariant
            a@.len() == b@.len(),
            i <= a@.len(),
            forall|k: int| 0 <= k < i ==> a@[k] == b@[k],
        decreases a@.len() - i,
    {
        if a[i] != b[i] {
            return false;
        }
        i = i + 1;
    }
    assert(a@ =~= b@);
    true
}

fn same_cards(a: &Vec<Card>, b: &Vec<Card>) -> (r: bool)
    ensures
        r == (a@ == b@),
{
    if a.len() != b.len() {
        return false;
    }
    let mut i: usize = 0;
    while i < a.len()
        invariant
            a@.len() == b@.len(),
            i <= a@.len(),
            forall|k: int| 0 <= k < i ==> a@[k] == b@[k],
        decreases a@.len() - i,
    {
        if a[i] != b[i] {
            return false;
        }
        i = i + 1;
    }
    assert(a@ =~= b@);
    true
}

fn same_hand(a: &GamePlayerCards, b: &GamePlayerCards) -> (r: bool)
    ensures
        r == (a@ == b@),
{
    match (a, b) {
        (GamePlayerCards::Player(x), GamePlayerCards::Player(y)) => same_cards(x, y),
        (GamePlayerCards::Opponent(x), GamePlayerCards::Opponent(y)) => x.unknown == y.unknown && same_cards(&x.known, &y.known),
        _ => false,
    }
}

fn same_hands(a: &Vec<GamePlayerCards>, b: &Vec<GamePlayerCards>) -> (r: bool)
    ensures
        r == (a@.map_values(|h: GamePlayerCards| h@) == b@.map_values(|h: GamePlayerCards| h@)),
{
    if a.len() != b.len() {
        proof {
            assert(a@.map_values(|h: GamePlayerCards| h@).len() != b@.map_values(|h: GamePlayerCards| h@).len());
        }
        return false;
    }
    let mut i: usize = 0;
    while i < a.len()
        invariant
            a@.len() == b@.len(),
            i <= a@.len(),
            forall|k: int| 0 <= k < i ==> (#[trigger] a@[k])@ == b@[k]@,
        decreases a@.len() - i,
    {
        if !same_hand(&a[i], &b[i]) {
            proof {
                assert(a@.map_values(|h: GamePlayerCards| h@)[i as int] != b@.map_values(|h: GamePlayerCards| h@)[i as int]);
            }
            return false;
        }
        i = i + 1;
    }
    assert(a@.map_values(|h: GamePlayerCards| h@) =~= b@.map_values(|h: GamePlayerCards| h@));
    true
}

fn same_state_type(a: &StateType, b: &StateType) -> (r: bool)
    ensures
        r == (*a == *b),
    decreases a,
{
    match (a, b) {
        (StateType::Challenge { current_player: p1, source: s1, state: c1 }, StateType::Challenge { current_player: p2, source: s2, state: c2 }) => {
            let x: &StateType = s1;
            let y: &StateType = s2;
            *p1 == *p2 && *c1 == *c2 && same_state_type(x, y)
        },
        (StateType::Challenge { .. }, _) | (_, StateType::Challenge { .. }) => false,
        (StateType::Turn { player: x }, StateType::Turn { player: y }) => *x == *y,
        (StateType::ForeignAid { player: x }, StateType::ForeignAid { player: y }) => *x == *y,
        (StateType::Tax { player: x }, StateType::Tax { player: y }) => *x == *y,
        (StateType::Exchange { player: x }, StateType::Exchange { player: y }) => *x == *y,
        (StateType::Assassination { player: x, target: t, can_challenge: c }, StateType::Assassination { player: y, target: u, can_challenge: d }) => *x == *y && *t == *u && *c == *d,
        (StateType::Steal { player: x, target: t, can_challenge: c }, StateType::Steal { player: y, target: u, can_challenge: d }) => *x == *y && *t == *u && *c == *d,
        (StateType::BlockForeignAid { player: x, target: t }, StateType::BlockForeignAid { player: y, target: u }) => *x == *y && *t == *u,
        (StateType::NeedCards { player: x, count: t }, StateType::NeedCards { player: y, count: u }) => *x == *y && *t == *u,
        (StateType::TookCards { player: x, count: t }, StateType::TookCards { player: y, count: u }) => *x == *y && *t == *u,
        (StateType::DroppedCard { player: x, left: t }, StateType::DroppedCard { player: y, left: u }) => *x == *y && *t == *u,
        (StateType::BlockAssassination { player: x, target: t }, StateType::BlockAssassination { player: y, target: u }) => *x == *y && *t == *u,
        (StateType::BlockSteal { player: x, target: t, card: c }, StateType::BlockSteal { player: y, target: u, card: d }) => *x == *y && *t == *u && *c == *d,
        (StateType::LostInfluence { player: x, current_player: t }, StateType::LostInfluence { player: y, current_player: u }) => *x == *y && *t == *u,
        _ => false,
    }
}

/// Whether two beliefs are the same state, valid or not alike.
pub fn same_game_state(a: &GameState, b: &GameState) -> (r: bool)
    ensures
        r == (a.valid == b.valid && a.state@ == b.state@),
{
    let r = a.valid == b.valid && same_state_type(&a.state.state_type, &b.state.state_type)
        && same_counts(&a.state.player_coins, &b.state.player_coins)
        && same_counts(&a.state.player_hands, &b.state.player_hands)
        && same_counts(&a.state.player_cards_counter, &b.state.player_cards_counter)
        && same_hands(&a.state.player_cards, &b.state.player_cards)
        && a.state.deck.unknown == b.state.deck.unknown
        && same_cards(&a.state.deck.known, &b.state.deck.known)
        && same_cards(&a.state.revealed_cards, &b.state.revealed_cards);
    proof {
        if a.state@ == b.state@ {
            assert(a.state@.deck.known == b.state@.deck.known);
        }
        if r {
            assert(a.state@ =~= b.state@);
        }
    }
    r
}

/// -1, 0 or 1 as `a` is below, equal to or above `b`.
pub open spec fn sgn(a: int, b: int) -> int {
    if a < b {
        -1
    } else if a > b {
        1
    } else {
        0
    }
}

/// Lexicographic order of counts, a shorter prefix first.
pub open spec fn lex_counts(a: Seq<usize>, b: Seq<usize>) -> int
    decreases a.len(),
{
    if a.len() == 0 || b.len() == 0 {
        sgn(a.len() as int, b.len() as int)
    } else if a[0] != b[0] {
        sgn(a[0] as int, b[0] as int)
    } else {
        lex_counts(a.drop_first(), b.drop_first())
    }
}

/// Lexicographic order of cards by card order, a shorter prefix first.
pub open spec fn lex_cards(a: Seq<Card>, b: Seq<Card>) -> int
    decreases a.len(),
{
    if a.len() == 0 || b.len() == 0 {
        sgn(a.len() as int, b.len() as int)
    } else if a[0] != b[0] {
        sgn(card_rank(a[0]), card_rank(b[0]))
    } else {
        lex_cards(a.drop_first(), b.drop_first())
    }
}

/// Order of hands: fully known ones first, then by known cards, then by unknown count.
pub open spec fn cmp_pile(a: Pile, b: Pile) -> int {
    if a.exact && b.exact {
        lex_cards(a.known, b.known)
    } else if a.exact {
        -1
    } else if b.exact {
        1
    } else if lex_cards(a.known, b.known) != 0 {
        lex_cards(a.known, b.known)
    } else {
        sgn(a.unknown as int, b.unknown as int)
    }
}

/// Lexicographic order of hands, a shorter prefix first.
pub open spec fn lex_piles(a: Seq<Pile>, b: Seq<Pile>) -> int
    decreases a.len(),
{
    if a.len() == 0 || b.len() == 0 {
        sgn(a.len() as int, b.len() as int)
    } else if cmp_pile(a[0], b[0]) != 0 {
        cmp_pile(a[0], b[0])
    } else {
        lex_piles(a.drop_first(), b.drop_first())
    }
}

pub open spec fn kind_of(s: StateType) -> int {
    match s {
        StateType::Turn { .. } => 0,
        StateType::ForeignAid { .. } => 1,
        StateType::Tax { .. } => 2,
        StateType::Exchange { .. } => 3,
        StateType::Assassination { .. } => 4,
        StateType::Steal { .. } => 5,
        StateType::Challenge { .. } => 6,
        StateType::BlockForeignAid { .. } => 7,
        StateType::NeedCards { .. } => 8,
        StateType::TookCards { .. } => 9,
        StateType::DroppedCard { .. } => 10,
        StateType::BlockAssassination { .. } => 11,
        StateType::BlockSteal { .. } => 12,
        StateType::LostInfluence { .. } => 13,
    }
}

pub open spec fn fields_of(s: StateType) -> (int, int, int) {
    match s {
        StateType::Turn { player } | StateType::ForeignAid { player } | StateType::Tax { player }
        | StateType::Exchange { player } => (player as int, 0, 0),
        StateType::Assassination { player, target, can_challenge }
        | StateType::Steal { player, target, can_challenge } => (player as int, target as int, if can_challenge { 1 } else { 0 }),
        StateType::BlockForeignAid { player, target }
        | StateType::BlockAssassination { player, target } => (player as int, target as int, 0),
        StateType::NeedCards { player, count } | StateType::TookCards { player, count } => (player as int, count as int, 0),
        StateType::DroppedCard { player, left } => (player as int, left as int, 0),
        StateType::BlockSteal { player, target, card } => (player as int, target as int, card_rank(card)),
        StateType::LostInfluence { player, current_player } => (player as int, current_player as int, 0),
        StateType::Challenge { current_player, .. } => (current_player as int, 0, 0),
    }
}

pub open spec fn challenge_fields_of(c: ChallengeState) -> (int, int, int, int) {
    match c {
        ChallengeState::Initial { initiator, target, card } => (0, initiator as int, target as int, card_rank(card)),
        ChallengeState::ShownCard { initiator, target } => (1, initiator as int, target as int, 0),
        ChallengeState::InitiatorRevealedCard { target } => (2, target as int, 0, 0),
        ChallengeState::DeckShuffled { target } => (3, target as int, 0, 0),
        ChallengeState::TookCard => (4, 0, 0, 0),
        ChallengeState::TargetRevealedCard => (5, 0, 0, 0),
    }
}

pub open spec fn cmp4(a: (int, int, int, int), b: (int, int, int, int)) -> int {
    if a.0 != b.0 {
        sgn(a.0, b.0)
    } else if a.1 != b.1 {
        sgn(a.1, b.1)
    } else if a.2 != b.2 {
        sgn(a.2, b.2)
    } else {
        sgn(a.3, b.3)
    }
}

/// Order of states: by kind, then by their fields in order.
pub open spec fn cmp_st(a: StateType, b: StateType) -> int
    decreases a,
{
    if kind_of(a) != kind_of(b) {
        sgn(kind_of(a), kind_of(b))
    } else {
        match (a, b) {
            (StateType::Challenge { current_player: p1, source: s1, state: c1 }, StateType::Challenge { current_player: p2, source: s2, state: c2 }) =>
                if p1 != p2 {
                    sgn(p1 as int, p2 as int)
                } else if cmp_st(*s1, *s2) != 0 {
                    cmp_st(*s1, *s2)
                } else {
                    cmp4(challenge_fields_of(c1), challenge_fields_of(c2))
                },
            _ => cmp4(
                (fields_of(a).0, fields_of(a).1, fields_of(a).2, 0),
                (fields_of(b).0, fields_of(b).1, fields_of(b).2, 0),
            ),
        }
    }
}

/// The order of beliefs, field by field in the order in which a belief lists them.
pub open spec fn cmp_belief(av: bool, a: StateModel, bv: bool, b: StateModel) -> int {
    let steps = seq![
        sgn(if av { 1 } else { 0 }, if bv { 1 } else { 0 }),
        cmp_st(a.state_type, b.state_type),
        lex_counts(a.coins, b.coins),
        lex_counts(a.hands, b.hands),
        lex_counts(a.counters, b.counters),
        lex_piles(a.cards, b.cards),
        lex_cards(a.revealed, b.revealed),
        lex_cards(a.deck.known, b.deck.known),
        sgn(a.deck.unknown as int, b.deck.unknown as int),
    ];
    first_nonzero(steps)
}

proof fn lemma_first_nonzero_steps(av: bool, a: StateModel, bv: bool, b: StateModel)
    ensures
        cmp_belief(av, a, bv, b) == (
            if sgn(if av { 1int } else { 0 }, if bv { 1int } else { 0 }) != 0 { sgn(if av { 1int } else { 0 }, if bv { 1int } else { 0 }) }
            else if cmp_st(a.state_type, b.state_type) != 0 { cmp_st(a.state_type, b.state_type) }
            else if lex_counts(a.coins, b.coins) != 0 { lex_counts(a.coins, b.coins) }
            else if lex_counts(a.hands, b.hands) != 0 { lex_counts(a.hands, b.hands) }
            else if lex_counts(a.counters, b.counters) != 0 { lex_counts(a.counters, b.counters) }
            else if lex_piles(a.cards, b.cards) != 0 { lex_piles(a.cards, b.cards) }
            else if lex_cards(a.revealed, b.revealed) != 0 { lex_cards(a.revealed, b.revealed) }
            else if lex_cards(a.deck.known, b.deck.known) != 0 { lex_cards(a.deck.known, b.deck.known) }
            else { sgn(a.deck.unknown as int, b.deck.unknown as int) }),
{
    reveal_with_fuel(first_nonzero, 10);
}

/// The first entry of `s` that is not 0, or 0.
pub open spec fn first_nonzero(s: Seq<int>) -> int
    decreases s.len(),
{
    if s.len() == 0 {
        0
    } else if s[0] != 0 {
        s[0]
    } else {
        first_nonzero(s.drop_first())
    }
}

proof fn lemma_lex_counts(a: Seq<usize>, b: Seq<usize>)
    ensures
        lex_counts(a, b) == -lex_counts(b, a),
        lex_counts(a, b) == 0 ==> a == b,
    decreases a.len(),
{
    if a.len() > 0 && b.len() > 0 && a[0] == b[0] {
        lemma_lex_counts(a.drop_first(), b.drop_first());
        if lex_counts(a, b) == 0 {
            assert(a =~= seq![a[0]] + a.drop_first());
            assert(b =~= seq![b[0]] + b.drop_first());
        }
    }
    if a.len() == 0 && b.len() == 0 {
        assert(a =~= b);
    }
}

proof fn lemma_card_rank_injective(x: Card, y: Card)
    ensures
        card_rank(x) == card_rank(y) ==> x == y,
{
}

proof fn lemma_lex_cards(a: Seq<Card>, b: Seq<Card>)
    ensures
        lex_cards(a, b) == -lex_cards(b, a),
        lex_cards(a, b) == 0 ==> a == b,
    decreases a.len(),
{
    if a.len() > 0 && b.len() > 0 {
        lemma_card_rank_injective(a[0], b[0]);
        if a[0] == b[0] {
            lemma_lex_cards(a.drop_first(), b.drop_first());
            if lex_cards(a, b) == 0 {
                assert(a =~= seq![a[0]] + a.drop_first());
                assert(b =~= seq![b[0]] + b.drop_first());
            }
        }
    }
    if a.len() == 0 && b.len() == 0 {
        assert(a =~= b);
    }
}

/// A fully known pile has no unknown card.
pub open spec fn pile_shaped(p: Pile) -> bool {
    p.exact ==> p.unknown == 0
}

proof fn lemma_cmp_pile(a: Pile, b: Pile)
    ensures
        cmp_pile(a, b) == -cmp_pile(b, a),
        cmp_pile(a, b) == 0 && pile_shaped(a) && pile_shaped(b) ==> a == b,
{
    lemma_lex_cards(a.known, b.known);
}

proof fn lemma_lex_piles(a: Seq<Pile>, b: Seq<Pile>)
    ensures
        lex_piles(a, b) == -lex_piles(b, a),
        lex_piles(a, b) == 0 && (forall|i: int| 0 <= i < a.len() ==> pile_shaped(#[trigger] a[i]))
            && (forall|i: int| 0 <= i < b.len() ==> pile_shaped(#[trigger] b[i])) ==> a == b,
    decreases a.len(),
{
    if a.len() > 0 && b.len() > 0 {
        lemma_cmp_pile(a[0], b[0]);
        if cmp_pile(a[0], b[0]) == 0 {
            lemma_lex_piles(a.drop_first(), b.drop_first());
            if lex_piles(a, b) == 0 && (forall|i: int| 0 <= i < a.len() ==> pile_shaped(#[trigger] a[i]))
                && (forall|i: int| 0 <= i < b.len() ==> pile_shaped(#[trigger] b[i])) {
                assert(pile_shaped(a[0]) && pile_shaped(b[0]));
                assert forall|i: int| 0 <= i < a.drop_first().len() implies pile_shaped(#[trigger] a.drop_first()[i]) by {
                    assert(pile_shaped(a[i + 1]));
                }
                assert forall|i: int| 0 <= i < b.drop_first().len() implies pile_shaped(#[trigger] b.drop_first()[i]) by {
                    assert(pile_shaped(b[i + 1]));
                }
                assert(a =~= seq![a[0]] + a.drop_first());
                assert(b =~= seq![b[0]] + b.drop_first());
            }
        }
    }
    if a.len() == 0 && b.len() == 0 {
        assert(a =~= b);
    }
}

proof fn lemma_cmp_st(a: StateType, b: StateType)
    ensures
        cmp_st(a, b) == -cmp_st(b, a),
        cmp_st(a, b) == 0 ==> a == b,
    decreases a,
{
    if kind_of(a) == kind_of(b) {
        match (a, b) {
            (StateType::Challenge { current_player: p1, source: s1, state: c1 }, StateType::Challenge { current_player: p2, source: s2, state: c2 }) => {
                lemma_cmp_st(*s1, *s2);
                match c1 {
                    ChallengeState::Initial { card: x, .. } => match c2 {
                        ChallengeState::Initial { card: y, .. } => lemma_card_rank_injective(x, y),
                        _ => {},
                    },
                    _ => {},
                }
            },
            (StateType::BlockSteal { card: x, .. }, StateType::BlockSteal { card: y, .. }) => {
                lemma_card_rank_injective(x, y);
            },
            _ => {},
        }
    }
}

/// Beliefs compare as 0 only when they are the same belief; the order is antisymmetric.
pub proof fn lemma_cmp_belief(av: bool, a: StateModel, bv: bool, b: StateModel)
    requires
        !a.deck.exact && !b.deck.exact,
        forall|i: int| 0 <= i < a.cards.len() ==> pile_shaped(#[trigger] a.cards[i]),
        forall|i: int| 0 <= i < b.cards.len() ==> pile_shaped(#[trigger] b.cards[i]),
    ensures
        cmp_belief(av, a, bv, b) == -cmp_belief(bv, b, av, a),
        cmp_belief(av, a, bv, b) == 0 ==> av == bv && a == b,
{
    lemma_first_nonzero_steps(av, a, bv, b);
    lemma_first_nonzero_steps(bv, b, av, a);
    lemma_cmp_st(a.state_type, b.state_type);
    lemma_lex_counts(a.coins, b.coins);
    lemma_lex_counts(a.hands, b.hands);
    lemma_lex_counts(a.counters, b.counters);
    lemma_lex_piles(a.cards, b.cards);
    lemma_lex_cards(a.revealed, b.revealed);
    lemma_lex_cards(a.deck.known, b.deck.known);
    if cmp_belief(av, a, bv, b) == 0 {
        assert(a.deck == b.deck);
        assert(a =~= b);
    }
}

fn cmp_usize(a: usize, b: usize) -> (r: i8)
    ensures
        r as int == sgn(a as int, b as int),
{
    if a < b {
        -1
    } else if a > b {
        1
    } else {
        0
    }
}

fn cmp_counts(a: &Vec<usize>, b: &Vec<usize>) -> (r: i8)
    ensures
        r as int == lex_counts(a@, b@),
{
    let mut i: usize = 0;
    proof {
        assert(a@.skip(0) =~= a@);
        assert(b@.skip(0) =~= b@);
    }
    while i < a.len() && i < b.len()
        invariant
            i <= a@.len() && i <= b@.len(),
            lex_counts(a@, b@) == lex_counts(a@.skip(i as int), b@.skip(i as int)),
        decreases a@.len() - i,
    {
        proof {
            assert(a@.skip(i as int).drop_first() =~= a@.skip(i as int + 1));
            assert(b@.skip(i as int).drop_first() =~= b@.skip(i as int + 1));
            assert(a@.skip(i as int)[0] == a@[i as int]);
            assert(b@.skip(i as int)[0] == b@[i as int]);
        }
        let c = cmp_usize(a[i], b[i]);
        if c != 0 {
            return c;
        }
        i = i + 1;
    }
    cmp_usize(a.len(), b.len())
}

fn cmp_card(a: Card, b: Card) -> (r: i8)
    ensures
        r as int == sgn(card_rank(a), card_rank(b)),
{
    cmp_usize(rank_of(a) as usize, rank_of(b) as usize)
}

fn cmp_cards(a: &Vec<Card>, b: &Vec<Card>) -> (r: i8)
    ensures
        r as int == lex_cards(a@, b@),
{
    let mut i: usize = 0;
    proof {
        assert(a@.skip(0) =~= a@);
        assert(b@.skip(0) =~= b@);
    }
    while i < a.len() && i < b.len()
        invariant
            i <= a@.len() && i <= b@.len(),
            lex_cards(a@, b@) == lex_cards(a@.skip(i as int), b@.skip(i as int)),
        decreases a@.len() - i,
    {
        proof {
            assert(a@.skip(i as int).drop_first() =~= a@.skip(i as int + 1));
            assert(b@.skip(i as int).drop_first() =~= b@.skip(i as int + 1));
            assert(a@.skip(i as int)[0] == a@[i as int]);
            assert(b@.skip(i as int)[0] == b@[i as int]);
        }
        let c = cmp_card(a[i], b[i]);
        if c != 0 {
            return c;
        }
        i = i + 1;
    }
    cmp_usize(a.len(), b.len())
}

fn cmp_bool(a: bool, b: bool) -> (r: i8)
    ensures
        r as int == sgn(if a { 1 } else { 0 }, if b { 1 } else { 0 }),
{
    cmp_usize(if a { 1 } else { 0 }, if b { 1 } else { 0 })
}

fn cmp_hand(a: &GamePlayerCards, b: &GamePlayerCards) -> (r: i8)
    ensures
        r as int == cmp_pile(a@, b@),
{
    match (a, b) {
        (GamePlayerCards::Player(x), GamePlayerCards::Player(y)) => cmp_cards(x, y),
        (GamePlayerCards::Player(..), GamePlayerCards::Opponent(..)) => -1,
        (GamePlayerCards::Opponent(..), GamePlayerCards::Player(..)) => 1,
        (GamePlayerCards::Opponent(x), GamePlayerCards::Opponent(y)) => {
            let c = cmp_cards(&x.known, &y.known);
            if c != 0 {
                c
            } else {
                cmp_usize(x.unknown, y.unknown)
            }
        },
    }
}

fn cmp_hands(a: &Vec<GamePlayerCards>, b: &Vec<GamePlayerCards>) -> (r: i8)
    ensures
        r as int == lex_piles(a@.map_values(|h: GamePlayerCards| h@), b@.map_values(|h: GamePlayerCards| h@)),
{
    let ghost av = a@.map_values(|h: GamePlayerCards| h@);
    let ghost bv = b@.map_values(|h: GamePlayerCards| h@);
    let mut i: usize = 0;
    proof {
        assert(av.skip(0) =~= av);
        assert(bv.skip(0) =~= bv);
    }
    while i < a.len() && i < b.len()
        invariant
            i <= a@.len() && i <= b@.len(),
            av == a@.map_values(|h: GamePlayerCards| h@),
            bv == b@.map_values(|h: GamePlayerCards| h@),
            lex_piles(av, bv) == lex_piles(av.skip(i as int), bv.skip(i as int)),
        decreases a@.len() - i,
    {
        proof {
            assert(av.skip(i as int).drop_first() =~= av.skip(i as int + 1));
            assert(bv.skip(i as int).drop_first() =~= bv.skip(i as int + 1));
            assert(av.skip(i as int)[0] == a@[i as int]@);
            assert(bv.skip(i as int)[0] == b@[i as int]@);
        }
        let c = cmp_hand(&a[i], &b[i]);
        if c != 0 {
            return c;
        }
        i = i + 1;
    }
    cmp_usize(a.len(), b.len())
}

/// Position of a state kind in the order of the kinds.
fn state_kind(s: &StateType) -> (r: usize)
    ensures
        r as int == kind_of(*s),
{
    match s {
        StateType::Turn { .. } => 0,
        StateType::ForeignAid { .. } => 1,
        StateType::Tax { .. } => 2,
        StateType::Exchange { .. } => 3,
        StateType::Assassination { .. } => 4,
        StateType::Steal { .. } => 5,
        StateType::Challenge { .. } => 6,
        StateType::BlockForeignAid { .. } => 7,
        StateType::NeedCards { .. } => 8,
        StateType::TookCards { .. } => 9,
        StateType::DroppedCard { .. } => 10,
        StateType::BlockAssassination { .. } => 11,
        StateType::BlockSteal { .. } => 12,
        StateType::LostInfluence { .. } => 13,
    }
}

/// The fields of a state that is not a challenge, in order, with a card as a number.
fn state_fields(s: &StateType) -> (r: (usize, usize, usize))
    ensures
        (r.0 as int, r.1 as int, r.2 as int) == fields_of(*s),
{
    match s {
        StateType::Turn { player } | StateType::ForeignAid { player } | StateType::Tax { player }
        | StateType::Exchange { player } => (*player, 0, 0),
        StateType::Assassination { player, target, can_challenge }
        | StateType::Steal { player, target, can_challenge } => (*player, *target, if *can_challenge { 1 } else { 0 }),
        StateType::BlockForeignAid { player, target }
        | StateType::BlockAssassination { player, target } => (*player, *target, 0),
        StateType::NeedCards { player, count } | StateType::TookCards { player, count } => (*player, *count, 0),
        StateType::DroppedCard { player, left } => (*player, *left, 0),
        StateType::BlockSteal { player, target, card } => (*player, *target, rank_of(*card) as usize),
        StateType::LostInfluence { player, current_player } => (*player, *current_player, 0),
        StateType::Challenge { current_player, .. } => (*current_player, 0, 0),
    }
}

fn challenge_fields(c: &ChallengeState) -> (r: (usize, usize, usize, usize))
    ensures
        (r.0 as int, r.1 as int, r.2 as int, r.3 as int) == challenge_fields_of(*c),
{
    match c {
        ChallengeState::Initial { initiator, target, card } => (0, *initiator, *target, rank_of(*card) as usize),
        ChallengeState::ShownCard { initiator, target } => (1, *initiator, *target, 0),
        ChallengeState::InitiatorRevealedCard { target } => (2, *target, 0, 0),
        ChallengeState::DeckShuffled { target } => (3, *target, 0, 0),
        ChallengeState::TookCard => (4, 0, 0, 0),
        ChallengeState::TargetRevealedCard => (5, 0, 0, 0),
    }
}

fn cmp_tuple(a: (usize, usize, usize, usize), b: (usize, usize, usize, usize)) -> (r: i8)
    ensures
        r as int == cmp4((a.0 as int, a.1 as int, a.2 as int, a.3 as int), (b.0 as int, b.1 as int, b.2 as int, b.3 as int)),
{
    let c = cmp_usize(a.0, b.0);
    if c != 0 {
        return c;
    }
    let c = cmp_usize(a.1, b.1);
    if c != 0 {
        return c;
    }
    let c = cmp_usize(a.2, b.2);
    if c != 0 {
        return c;
    }
    cmp_usize(a.3, b.3)
}

fn cmp_state_type(a: &StateType, b: &StateType) -> (r: i8)
    ensures
        r as int == cmp_st(*a, *b),
    decreases a,
{
    let c = cmp_usize(state_kind(a), state_kind(b));
    if c != 0 {
        return c;
    }
    match (a, b) {
        (StateType::Challenge { current_player: p1, source: s1, state: c1 }, StateType::Challenge { current_player: p2, source: s2, state: c2 }) => {
            let c = cmp_usize(*p1, *p2);
            if c != 0 {
                return c;
            }
            let x: &StateType = s1;
            let y: &StateType = s2;
            let c = cmp_state_type(x, y);
            if c != 0 {
                return c;
            }
            cmp_tuple(challenge_fields(c1), challenge_fields(c2))
        },
        _ => {
            let (x0, x1, x2) = state_fields(a);
            let (y0, y1, y2) = state_fields(b);
            cmp_tuple((x0, x1, x2, 0), (y0, y1, y2, 0))
        },
    }
}

/// Orders beliefs field by field, in the order in which a belief lists them.
fn cmp_game_state(a: &GameState, b: &GameState) -> (r: i8)
    ensures
        r as int == cmp_belief(a.valid, a.state@, b.valid, b.state@),
{
    proof {
        lemma_first_nonzero_steps(a.valid, a.state@, b.valid, b.state@);
    }
    let c = cmp_bool(a.valid, b.valid);
    if c != 0 {
        return c;
    }
    let c = cmp_state_type(&a.state.state_type, &b.state.state_type);
    if c != 0 {
        return c;
    }
    let c = cmp_counts(&a.state.player_coins, &b.state.player_coins);
    if c != 0 {
        return c;
    }
    let c = cmp_counts(&a.state.player_hands, &b.state.player_hands);
    if c != 0 {
        return c;
    }
    let c = cmp_counts(&a.state.player_cards_counter, &b.state.player_cards_counter);
    if c != 0 {
        return c;
    }
    let c = cmp_hands(&a.state.player_cards, &b.state.player_cards);
    if c != 0 {
        return c;
    }
    let c = cmp_cards(&a.state.revealed_cards, &b.state.revealed_cards);
    if c != 0 {
        return c;
    }
    let c = cmp_cards(&a.state.deck.known, &b.state.deck.known);
    if c != 0 {
        return c;
    }
    cmp_usize(a.state.deck.unknown, b.state.deck.unknown)
}

/// `s` holds the model `m` in a belief marked valid.
pub open spec fn holds_state(s: Seq<GameState>, m: StateModel) -> bool {
    exists|i: int| 0 <= i < s.len() && s[i].valid && #[trigger] s[i].state@ == m
}

/// No model is held twice.
pub open spec fn no_repeats(s: Seq<GameState>) -> bool {
    forall|i: int, j: int| 0 <= i < j < s.len() ==> s[i].state@ != s[j].state@
}

fn position_of(states: &Vec<GameState>, g: &GameState) -> (r: Option<usize>)
    ensures
        match r {
            Some(i) => i < states@.len() && states@[i as int].valid == g.valid && states@[i as int].state@ == g.state@,
            None => forall|i: int| 0 <= i < states@.len() ==> !(states@[i].valid == g.valid && states@[i].state@ == g.state@),
        },
{
    let mut i: usize = 0;
    while i < states.len()
        invariant
            i <= states@.len(),
            forall|k: int| 0 <= k < i ==> !(states@[k].valid == g.valid && states@[k].state@ == g.state@),
        decreases states@.len() - i,
    {
        if same_game_state(&states[i], g) {
            return Some(i);
        }
        i = i + 1;
    }
    None
}

/// Each belief of `s` comes strictly before the next in the order of beliefs.
pub open spec fn beliefs_sorted(s: Seq<GameState>) -> bool {
    forall|i: int| 0 <= i < s.len() - 1 ==> cmp_belief(
        (#[trigger] s[i]).valid,
        s[i].state@,
        s[i + 1].valid,
        s[i + 1].state@,
    ) < 0
}

proof fn lemma_view_shaped(st: State)
    ensures
        !st@.deck.exact,
        forall|i: int| 0 <= i < st@.cards.len() ==> pile_shaped(#[trigger] st@.cards[i]),
{
    assert forall|i: int| 0 <= i < st@.cards.len() implies pile_shaped(#[trigger] st@.cards[i]) by {
        assert(st@.cards[i] == st.player_cards@[i]@);
    }
}

/// Puts `g` into the sorted beliefs `out` at its place in the order; returns where.
fn insert_belief(out: &mut Vec<GameState>, g: GameState) -> (at: usize)
    requires
        beliefs_sorted(old(out)@),
        forall|i: int| 0 <= i < old(out)@.len() ==> !((#[trigger] old(out)@[i]).valid == g.valid && old(out)@[i].state@ == g.state@),
    ensures
        at <= old(out)@.len(),
        final(out)@ == old(out)@.insert(at as int, g),
        beliefs_sorted(final(out)@),
{
    let ghost before_out = out@;
    let mut at: usize = 0;
    while at < out.len() && cmp_game_state(&out[at], &g) < 0
        invariant
            at <= out@.len(),
            out@ == before_out,
            forall|k: int| 0 <= k < at ==> cmp_belief(
                (#[trigger] out@[k]).valid,
                out@[k].state@,
                g.valid,
                g.state@,
            ) < 0,
        decreases out@.len() - at,
    {
        at = at + 1;
    }
    proof {
        if at < out@.len() {
            lemma_view_shaped(out@[at as int].state);
            lemma_view_shaped(g.state);
            lemma_cmp_belief(out@[at as int].valid, out@[at as int].state@, g.valid, g.state@);
            assert(cmp_belief(g.valid, g.state@, out@[at as int].valid, out@[at as int].state@) < 0);
        }
    }
    out.insert(at, g);
    proof {
        assert forall|i: int| 0 <= i < out@.len() - 1 implies cmp_belief(
            (#[trigger] out@[i]).valid,
            out@[i].state@,
            out@[i + 1].valid,
            out@[i + 1].state@,
        ) < 0 by {
            if i + 1 < at {
                assert(out@[i] == before_out[i] && out@[i + 1] == before_out[i + 1]);
            } else if i + 1 == at {
                assert(out@[i] == before_out[i] && out@[i + 1] == g);
            } else if i == at {
                assert(out@[i] == g && out@[i + 1] == before_out[i]);
            } else {
                assert(out@[i] == before_out[i - 1] && out@[i + 1] == before_out[i]);
            }
        }
    }
    at
}

/// The valid beliefs of `states`, each model once, in order.
#[verifier::rlimit(50)]
pub fn normalize(states: Vec<GameState>) -> (r: Vec<GameState>)
    ensures
        beliefs_sorted(r@),
        forall|i: int| 0 <= i < r@.len() ==> (#[trigger] r@[i]).valid,
        forall|i: int| 0 <= i < r@.len() ==> states@.contains(#[trigger] r@[i]),
        forall|m: StateModel| #[trigger] holds_state(r@, m) <==> holds_state(states@, m),
        no_repeats(r@),
        r@.len() <= states@.len(),
{
    let ghost input = states@;
    let mut states = states;
    let mut out: Vec<GameState> = Vec::new();
    while states.len() > 0
        invariant
            forall|i: int| 0 <= i < out@.len() ==> (#[trigger] out@[i]).valid,
            forall|i: int| 0 <= i < out@.len() ==> input.contains(#[trigger] out@[i]),
            forall|i: int| 0 <= i < states@.len() ==> input.contains(#[trigger] states@[i]),
            forall|m: StateModel|
                #[trigger] holds_state(input, m) <==> holds_state(out@, m) || holds_state(states@, m),
            no_repeats(out@),
            out@.len() + states@.len() <= input.len(),
            beliefs_sorted(out@),
        decreases states@.len(),
    {
        let ghost before_out = out@;
        let ghost before_states = states@;
        let g = states.pop().unwrap();
        proof {
            assert(before_states.last() == g);
            assert(input.contains(g));
            assert forall|m: StateModel| #[trigger] holds_state(before_states, m) <==> holds_state(states@, m) || (g.valid && g.state@ == m) by {
                if holds_state(before_states, m) {
                    let i = choose|i: int| 0 <= i < before_states.len() && before_states[i].valid && #[trigger] before_states[i].state@ == m;
                    if i < states@.len() {
                        assert(states@[i] == before_states[i]);
                    }
                }
                if holds_state(states@, m) {
                    let i = choose|i: int| 0 <= i < states@.len() && states@[i].valid && #[trigger] states@[i].state@ == m;
                    assert(before_states[i] == states@[i]);
                }
                if g.valid && g.state@ == m {
                    assert(before_states[before_states.len() - 1] == g);
                }
            }
        }
        if g.valid {
            match position_of(&out, &g) {
                Some(_) => {},
                None => {
                    let at = insert_belief(&mut out, g);
                    proof {
                        assert(out@ =~= before_out.insert(at as int, g));
                        assert forall|i: int, j: int| 0 <= i < j < out@.len() implies out@[i].state@ != out@[j].state@ by {
                            if i < at && j < at {
                                assert(out@[i] == before_out[i] && out@[j] == before_out[j]);
                            } else if i < at && j == at {
                                assert(out@[i] == before_out[i]);
                            } else if i < at {
                                assert(out@[i] == before_out[i] && out@[j] == before_out[j - 1]);
                            } else if i == at {
                                assert(out@[j] == before_out[j - 1]);
                            } else {
                                assert(out@[i] == before_out[i - 1] && out@[j] == before_out[j - 1]);
                            }
                        }
                        assert forall|i: int| 0 <= i < out@.len() implies input.contains(#[trigger] out@[i]) by {
                            if i < at {
                                assert(out@[i] == before_out[i]);
                            } else if i > at {
                                assert(out@[i] == before_out[i - 1]);
                            }
                        }
                        assert forall|m: StateModel| #[trigger] holds_state(out@, m) <==> holds_state(before_out, m) || (g.state@ == m) by {
                            if holds_state(out@, m) {
                                let i = choose|i: int| 0 <= i < out@.len() && out@[i].valid && #[trigger] out@[i].state@ == m;
                                if i < at {
                                    assert(out@[i] == before_out[i]);
                                } else if i > at {
                                    assert(out@[i] == before_out[i - 1]);
                                }
                            }
                            if holds_state(before_out, m) {
                                let i = choose|i: int| 0 <= i < before_out.len() && before_out[i].valid && #[trigger] before_out[i].state@ == m;
                                if i < at {
                                    assert(out@[i] == before_out[i]);
                                } else {
                                    assert(out@[i + 1] == before_out[i]);
                                }
                            }
                            if g.state@ == m {
                                assert(out@[at as int] == g);
                            }
                        }
                    }
                },
            }
        }
    }
    out
}

/// `idx` picks `k` positions among `n`, in order, a position possibly more than once.
pub open spec fn is_pick(idx: Seq<int>, n: int, k: int) -> bool {
    &&& idx.len() == k
    &&& forall|j: int| 0 <= j < k ==> 0 <= #[trigger] idx[j] < n
    &&& forall|i: int, j: int| 0 <= i < j < k ==> idx[i] <= idx[j]
}

/// The items of `items` at the positions `idx`.
pub open spec fn picked(items: Seq<usize>, idx: Seq<int>) -> Seq<usize> {
    idx.map_values(|x: int| items[x])
}

/// Relies on itertools' `combinations_with_replacement`: it yields, for every way to pick `k`
/// positions of `items` in nondecreasing order, the items at those positions, and nothing else.
#[verifier::external_body]
fn combinations_with_replacement(items: &Vec<usize>, k: usize) -> (r: Vec<Vec<usize>>)
    ensures
        forall|i: int| 0 <= i < r@.len() ==> (#[trigger] r@[i])@.len() == k,
        forall|i: int, j: int|
            0 <= i < r@.len() && 0 <= j < k ==> items@.contains(#[trigger] r@[i]@[j]),
        forall|i: int| 0 <= i < r@.len() ==> exists|idx: Seq<int>|
            is_pick(idx, items@.len() as int, k as int) && (#[trigger] r@[i])@ == picked(items@, idx),
        forall|idx: Seq<int>| is_pick(idx, items@.len() as int, k as int) ==> exists|i: int|
            0 <= i < r@.len() && (#[trigger] r@[i])@ == picked(items@, idx),
{
    itertools::Itertools::combinations_with_replacement(items.iter().cloned(), k).collect()
}

/// A belief at the start of a game of `settings` for `player`: the hand known, the rest unknown
/// but for the copies of the hand's cards placed so far.
pub open spec fn is_initial_belief(m: StateModel, player: usize, settings: Settings) -> bool {
    &&& m.wf()
    &&& m.n() == settings.players_number
    &&& m.state_type == (StateType::Turn { player: 0 })
    &&& forall|p: int| 0 <= p < m.n() ==> #[trigger] m.coins[p] == INITIAL_COINS
    &&& forall|p: int| 0 <= p < m.n() ==> #[trigger] m.hands[p] == CARDS_PER_PLAYER
    &&& forall|p: int| 0 <= p < m.n() ==> #[trigger] m.counters[p] == CARDS_PER_PLAYER
    &&& forall|p: int| 0 <= p < m.n() ==> ((#[trigger] m.cards[p]).exact <==> p == player)
    &&& m.revealed.len() == 0
    &&& m.deck.count() + CARDS_PER_PLAYER * settings.players_number == 5 * settings.cards_per_type
}

/// Learning that one unknown card at the seat `at` (the deck for `player`'s own seat) is `card`;
/// `None` when there is no unknown card there.
pub open spec fn learn_spec(m: StateModel, player: usize, at: usize, card: Card) -> Option<StateModel> {
    if at == player {
        if m.deck.unknown > 0 {
            Some(StateModel { deck: Pile { known: m.deck.known.push(card), unknown: (m.deck.unknown - 1) as nat, ..m.deck }, ..m })
        } else {
            None
        }
    } else if m.cards[at as int].unknown > 0 {
        Some(StateModel {
            cards: m.cards.update(at as int, Pile {
                known: m.cards[at as int].known.push(card),
                unknown: (m.cards[at as int].unknown - 1) as nat,
                ..m.cards[at as int]
            }),
            ..m
        })
    } else {
        None
    }
}

/// Learning, seat after seat of `seats`, that one more copy of `card` is there.
pub open spec fn place(m: StateModel, player: usize, seats: Seq<usize>, card: Card) -> Option<StateModel>
    decreases seats.len(),
{
    if seats.len() == 0 {
        Some(m)
    } else {
        match place(m, player, seats.drop_last(), card) {
            Some(m1) => learn_spec(m1, player, seats.last(), card),
            None => None,
        }
    }
}

/// Learns that one unknown card of `at` (the deck when `at` is `player`) is `card`; false,
/// with nothing changed, when `at` holds no unknown card.
fn learn(state: &mut State, player: usize, at: usize, card: Card) -> (r: bool)
    requires
        player < old(state)@.n(),
        at < old(state)@.n(),
        old(state)@.shapes_wf(),
        forall|p: int| 0 <= p < old(state)@.n() ==> ((#[trigger] old(state)@.cards[p]).exact <==> p == player),
    ensures
        final(state)@.state_type == old(state)@.state_type,
        final(state)@.coins == old(state)@.coins,
        final(state)@.hands == old(state)@.hands,
        final(state)@.counters == old(state)@.counters,
        final(state)@.revealed == old(state)@.revealed,
        final(state)@.cards.len() == old(state)@.cards.len(),
        final(state)@.deck.count() == old(state)@.deck.count(),
        !final(state)@.deck.exact,
        forall|p: int| 0 <= p < old(state)@.n() ==> (#[trigger] final(state)@.cards[p]).count() == old(state)@.cards[p].count(),
        forall|p: int| 0 <= p < old(state)@.n() ==> (#[trigger] final(state)@.cards[p]).exact == old(state)@.cards[p].exact,
        final(state)@.cards[player as int] == old(state)@.cards[player as int],
        r == (learn_spec(old(state)@, player, at, card) is Some),
        r ==> final(state)@ == learn_spec(old(state)@, player, at, card).unwrap(),
{
    if at == player {
        if !state.deck.has_any() {
            return false;
        }
        state.deck.replace_any_by_known(card);
        assert(state@ =~= learn_spec(old(state)@, player, at, card).unwrap());
        true
    } else {
        if !state.player_cards[at].has_any() {
            return false;
        }
        let mut hand = state.player_cards.remove(at);
        hand.replace_any_by_known(card);
        state.player_cards.insert(at, hand);
        assert forall|p: int| 0 <= p < old(state)@.n() implies (#[trigger] state@.cards[p]).count() == old(state)@.cards[p].count() && state@.cards[p].exact == old(state)@.cards[p].exact by {
            if p != at {
                assert(state@.cards[p] == old(state)@.cards[p]);
            }
        }
        assert(state@.cards =~= learn_spec(old(state)@, player, at, card).unwrap().cards);
        assert(state@ =~= learn_spec(old(state)@, player, at, card).unwrap());
        true
    }
}

proof fn lemma_place_stuck(m: StateModel, player: usize, seats: Seq<usize>, card: Card, j: int)
    requires
        0 <= j <= seats.len(),
        place(m, player, seats.subrange(0, j), card) is None,
    ensures
        place(m, player, seats, card) is None,
    decreases seats.len() - j,
{
    if j < seats.len() {
        assert(seats.subrange(0, j + 1).drop_last() =~= seats.subrange(0, j));
        lemma_place_stuck(m, player, seats, card, j + 1);
    } else {
        assert(seats.subrange(0, j) =~= seats);
    }
}

/// Learns, for each seat in `at`, that an unknown card there is `card` (the deck for the
/// player's own seat); false when some seat has no unknown card left.
fn learn_all(state: &mut State, player: usize, at: &Vec<usize>, card: Card) -> (r: bool)
    requires
        player < old(state)@.n(),
        forall|j: int| 0 <= j < at@.len() ==> #[trigger] at@[j] < old(state)@.n(),
        old(state)@.shapes_wf(),
        forall|p: int| 0 <= p < old(state)@.n() ==> ((#[trigger] old(state)@.cards[p]).exact <==> p == player),
    ensures
        final(state)@.state_type == old(state)@.state_type,
        final(state)@.coins == old(state)@.coins,
        final(state)@.hands == old(state)@.hands,
        final(state)@.counters == old(state)@.counters,
        final(state)@.revealed == old(state)@.revealed,
        final(state)@.cards.len() == old(state)@.cards.len(),
        final(state)@.deck.count() == old(state)@.deck.count(),
        !final(state)@.deck.exact,
        forall|p: int| 0 <= p < old(state)@.n() ==> (#[trigger] final(state)@.cards[p]).count() == old(state)@.cards[p].count(),
        forall|p: int| 0 <= p < old(state)@.n() ==> (#[trigger] final(state)@.cards[p]).exact == old(state)@.cards[p].exact,
        final(state)@.cards[player as int] == old(state)@.cards[player as int],
        r == (place(old(state)@, player, at@, card) is Some),
        r ==> final(state)@ == place(old(state)@, player, at@, card).unwrap(),
{
    let mut j: usize = 0;
    while j < at.len()
        invariant
            j <= at@.len(),
            player < old(state)@.n(),
            forall|k: int| 0 <= k < at@.len() ==> #[trigger] at@[k] < old(state)@.n(),
            state@.state_type == old(state)@.state_type,
            state@.coins == old(state)@.coins,
            state@.hands == old(state)@.hands,
            state@.counters == old(state)@.counters,
            state@.revealed == old(state)@.revealed,
            state@.cards.len() == old(state)@.cards.len(),
            state@.deck.count() == old(state)@.deck.count(),
            !state@.deck.exact,
            old(state)@.shapes_wf(),
            forall|p: int| 0 <= p < old(state)@.n() ==> (#[trigger] state@.cards[p]).count() == old(state)@.cards[p].count(),
            forall|p: int| 0 <= p < old(state)@.n() ==> (#[trigger] state@.cards[p]).exact == old(state)@.cards[p].exact,
            forall|p: int| 0 <= p < old(state)@.n() ==> ((#[trigger] old(state)@.cards[p]).exact <==> p == player),
            state@.cards[player as int] == old(state)@.cards[player as int],
            place(old(state)@, player, at@.subrange(0, j as int), card) == Some(state@),
        decreases at@.len() - j,
    {
        assert(state@.shapes_wf());
        assert forall|p: int| 0 <= p < state@.n() implies ((#[trigger] state@.cards[p]).exact <==> p == player) by {
            assert(old(state)@.cards[p].exact <==> p == player);
        }
        let ghost before = state@;
        proof {
            assert(at@.subrange(0, j as int + 1).drop_last() =~= at@.subrange(0, j as int));
        }
        if !learn(state, player, at[j], card) {
            proof {
                lemma_place_stuck(old(state)@, player, at@, card, j as int + 1);
                assert(at@.subrange(0, at@.len() as int) =~= at@);
            }
            return false;
        }
        j = j + 1;
    }
    proof {
        assert(at@.subrange(0, at@.len() as int) =~= at@);
    }
    true
}

proof fn lemma_seats(combo: Seq<usize>, targets: Seq<usize>, n: usize, k: usize)
    requires
        combo.len() == k,
        forall|j: int| 0 <= j < k ==> targets.contains(#[trigger] combo[j]),
        forall|j: int| 0 <= j < targets.len() ==> #[trigger] targets[j] < n,
    ensures
        forall|j: int| 0 <= j < combo.len() ==> #[trigger] combo[j] < n,
{
    assert forall|j: int| 0 <= j < combo.len() implies #[trigger] combo[j] < n by {
        assert(targets.contains(combo[j]));
        let t = choose|t: int| 0 <= t < targets.len() && targets[t] == combo[j];
    }
}

proof fn lemma_learned_initial(base: StateModel, m: StateModel, player: usize, settings: Settings, cards: Seq<Card>)
    requires
        is_initial_belief(base, player, settings),
        player < base.n(),
        base.cards[player as int].known == cards,
        m.state_type == base.state_type,
        m.coins == base.coins,
        m.hands == base.hands,
        m.counters == base.counters,
        m.revealed == base.revealed,
        m.cards.len() == base.cards.len(),
        m.deck.count() == base.deck.count(),
        !m.deck.exact,
        forall|p: int| 0 <= p < base.n() ==> (#[trigger] m.cards[p]).count() == base.cards[p].count(),
        forall|p: int| 0 <= p < base.n() ==> (#[trigger] m.cards[p]).exact == base.cards[p].exact,
        m.cards[player as int].known == cards,
    ensures
        is_initial_belief(m, player, settings),
{
    assert forall|p: int| 0 <= p < m.n() implies m.counters[p] == #[trigger] m.cards[p].count() by {
        assert(base.counters[p] == base.cards[p].count());
    }
    assert forall|p: int| 0 <= p < m.n() implies ((#[trigger] m.cards[p]).exact <==> p == player) by {
        assert(base.cards[p].exact <==> p == player);
    }
    assert forall|p: int| 0 <= p < m.n() implies if crate::fsm::replacing(m.state_type) == Some(p as usize) {
        m.counters[p] + 1 >= #[trigger] m.hands[p]
    } else {
        m.counters[p] >= m.hands[p]
    } by {
        assert(base.counters[p] >= base.hands[p]);
    }
}

/// Sorts the known cards of every hand and of the deck.
fn sort_belief(state: &mut State, player: usize, settings: Settings)
    requires
        is_initial_belief(old(state)@, player, settings),
        player < old(state)@.n(),
    ensures
        is_initial_belief(final(state)@, player, settings),
        final(state)@.cards[player as int].known.to_multiset() == old(state)@.cards[player as int].known.to_multiset(),
        same_up_to_order(final(state)@, old(state)@),
        piles_sorted(final(state)@),
{
    let ghost before = state@;
    let n = state.player_cards.len();
    let mut p: usize = 0;
    while p < n
        invariant
            p <= n,
            n == before.n(),
            player < n,
            state@.cards.len() == n,
            state@ == (StateModel { cards: state@.cards, ..before }),
            forall|q: int| 0 <= q < n ==> (#[trigger] state@.cards[q]).same_cards(before.cards[q]),
            forall|q: int| 0 <= q < p ==> is_sorted((#[trigger] state@.cards[q]).known),
        decreases n - p,
    {
        let ghost prev = state@;
        let mut hand = state.player_cards.remove(p);
        let ghost unsorted = hand@;
        proof {
            assert(unsorted == prev.cards[p as int]);
            assert(prev.cards[p as int].same_cards(before.cards[p as int]));
        }
        hand.sort();
        state.player_cards.insert(p, hand);
        proof {
            assert(state@.cards =~= prev.cards.update(p as int, hand@));
            assert forall|q: int| 0 <= q < n implies (#[trigger] state@.cards[q]).same_cards(before.cards[q]) by {
                assert(prev.cards[q].same_cards(before.cards[q]));
                if q != p {
                    assert(state@.cards[q] == prev.cards[q]);
                } else {
                    assert(state@.cards[q] == hand@);
                    assert(hand@.same_cards(unsorted));
                }
            }
            assert forall|q: int| 0 <= q < p + 1 implies is_sorted((#[trigger] state@.cards[q]).known) by {
                if q != p {
                    assert(state@.cards[q] == prev.cards[q]);
                }
            }
            assert(state@ =~= (StateModel { cards: state@.cards, ..before }));
        }
        p = p + 1;
    }
    let ghost mid = state@;
    state.deck.sort();
    proof {
        assert(state@ =~= (StateModel { deck: state@.deck, ..mid }));
        assert forall|q: int| 0 <= q < n implies state@.counters[q] == #[trigger] state@.cards[q].count() by {
            assert(before.counters[q] == before.cards[q].count());
            assert(state@.cards[q].same_cards(before.cards[q]));
        }
        assert forall|q: int| 0 <= q < n implies ((#[trigger] state@.cards[q]).exact <==> q == player) by {
            assert(state@.cards[q].same_cards(before.cards[q]));
        }
        assert forall|q: int| 0 <= q < n implies if crate::fsm::replacing(state@.state_type) == Some(q as usize) {
            state@.counters[q] + 1 >= #[trigger] state@.hands[q]
        } else {
            state@.counters[q] >= state@.hands[q]
        } by {
            assert(before.counters[q] >= before.hands[q]);
        }
        assert(state@.cards[player as int].same_cards(before.cards[player as int]));
    }
}

/// The known cards of every hand and of the deck are listed in card order.
pub open spec fn piles_sorted(m: StateModel) -> bool {
    &&& forall|q: int| 0 <= q < m.cards.len() ==> is_sorted((#[trigger] m.cards[q]).known)
    &&& is_sorted(m.deck.known)
}

/// `m` is, but for the order of known cards, the belief in which the other copies of the hand's
/// cards are at some picked seats; or, when no pick fits, the belief with none of them placed.
pub open spec fn is_placement(player: usize, cards: Seq<Card>, settings: Settings, m: StateModel) -> bool {
    (exists|idx1: Seq<int>, idx2: Seq<int>|
        is_pick(idx1, initial_seats(player, settings).len() as int, copies_to_place(cards, settings) as int)
        && is_pick(idx2, initial_seats(player, settings).len() as int, copies_to_place(cards, settings) as int)
        && #[trigger] placement(player, cards, settings, idx1, idx2) is Some
        && same_up_to_order(m, placement(player, cards, settings, idx1, idx2).unwrap()))
    || ((forall|idx1: Seq<int>, idx2: Seq<int>|
        is_pick(idx1, initial_seats(player, settings).len() as int, copies_to_place(cards, settings) as int)
        && is_pick(idx2, initial_seats(player, settings).len() as int, copies_to_place(cards, settings) as int)
        ==> #[trigger] placement(player, cards, settings, idx1, idx2) is None)
        && same_up_to_order(m, initial_base(player, cards, settings)))
}

proof fn lemma_same_refl(m: StateModel)
    ensures
        same_up_to_order(m, m),
{
}

proof fn lemma_same_trans(a: StateModel, b: StateModel, c: StateModel)
    requires
        same_up_to_order(a, b),
        same_up_to_order(b, c),
    ensures
        same_up_to_order(a, c),
{
    assert forall|q: int| 0 <= q < a.cards.len() implies (#[trigger] a.cards[q]).same_cards(c.cards[q]) by {
        assert(a.cards[q].same_cards(b.cards[q]));
        assert(b.cards[q].same_cards(c.cards[q]));
    }
}

proof fn lemma_placement_reorder(player: usize, cards: Seq<Card>, settings: Settings, m: StateModel, m2: StateModel)
    requires
        is_placement(player, cards, settings, m),
        same_up_to_order(m2, m),
    ensures
        is_placement(player, cards, settings, m2),
{
    if exists|idx1: Seq<int>, idx2: Seq<int>|
        is_pick(idx1, initial_seats(player, settings).len() as int, copies_to_place(cards, settings) as int)
        && is_pick(idx2, initial_seats(player, settings).len() as int, copies_to_place(cards, settings) as int)
        && #[trigger] placement(player, cards, settings, idx1, idx2) is Some
        && same_up_to_order(m, placement(player, cards, settings, idx1, idx2).unwrap()) {
        let (idx1, idx2) = choose|idx1: Seq<int>, idx2: Seq<int>|
            is_pick(idx1, initial_seats(player, settings).len() as int, copies_to_place(cards, settings) as int)
            && is_pick(idx2, initial_seats(player, settings).len() as int, copies_to_place(cards, settings) as int)
            && #[trigger] placement(player, cards, settings, idx1, idx2) is Some
            && same_up_to_order(m, placement(player, cards, settings, idx1, idx2).unwrap());
        lemma_same_trans(m2, m, placement(player, cards, settings, idx1, idx2).unwrap());
    } else {
        lemma_same_trans(m2, m, initial_base(player, cards, settings));
    }
}

/// `a` and `b` are the same state but for the order in which known cards are listed.
pub open spec fn same_up_to_order(a: StateModel, b: StateModel) -> bool {
    &&& a.state_type == b.state_type
    &&& a.coins == b.coins
    &&& a.hands == b.hands
    &&& a.counters == b.counters
    &&& a.revealed == b.revealed
    &&& a.cards.len() == b.cards.len()
    &&& forall|q: int| 0 <= q < a.cards.len() ==> (#[trigger] a.cards[q]).same_cards(b.cards[q])
    &&& a.deck.same_cards(b.deck)
}

/// Some valid belief of `s` is `m` but for the order of known cards.
pub open spec fn held_up_to_order(s: Seq<GameState>, m: StateModel) -> bool {
    exists|k: int| 0 <= k < s.len() && s[k].valid && #[trigger] same_up_to_order(s[k].state@, m)
}

/// Cards in the deck at the start of a game of `settings`.
pub open spec fn initial_deck_size(settings: Settings) -> nat {
    (5 * settings.cards_per_type - CARDS_PER_PLAYER * settings.players_number) as nat
}

/// The belief of `player`, holding `cards`, before any other copy of the hand's cards is placed.
pub open spec fn initial_base(player: usize, cards: Seq<Card>, settings: Settings) -> StateModel {
    let n = settings.players_number as nat;
    StateModel {
        state_type: StateType::Turn { player: 0 },
        coins: Seq::new(n, |_q: int| INITIAL_COINS),
        hands: Seq::new(n, |_q: int| CARDS_PER_PLAYER),
        counters: Seq::new(n, |_q: int| CARDS_PER_PLAYER),
        cards: Seq::new(n, |q: int| if q == player {
            Pile { exact: true, known: cards, unknown: 0 }
        } else {
            Pile { exact: false, known: Seq::empty(), unknown: CARDS_PER_PLAYER as nat }
        }),
        deck: Pile { exact: false, known: Seq::empty(), unknown: initial_deck_size(settings) },
        revealed: Seq::empty(),
    }
}

/// The first `t` places another copy of a card of `player` can be: every other seat, and the
/// deck (written as the player's own seat) when there is one.
pub open spec fn seats_below(player: usize, settings: Settings, t: nat) -> Seq<usize>
    decreases t,
{
    if t == 0 {
        Seq::empty()
    } else {
        let prev = seats_below(player, settings, (t - 1) as nat);
        if (t - 1) as usize != player || initial_deck_size(settings) > 0 {
            prev.push((t - 1) as usize)
        } else {
            prev
        }
    }
}

/// Every place another copy of a card of `player` can be.
pub open spec fn initial_seats(player: usize, settings: Settings) -> Seq<usize> {
    seats_below(player, settings, settings.players_number as nat)
}

/// The lower of the two cards of a hand, in card order; and the higher.
pub open spec fn lower_card(cards: Seq<Card>) -> Card {
    if crate::cards::card_rank(cards[0]) <= crate::cards::card_rank(cards[1]) { cards[0] } else { cards[1] }
}

pub open spec fn higher_card(cards: Seq<Card>) -> Card {
    if crate::cards::card_rank(cards[0]) <= crate::cards::card_rank(cards[1]) { cards[1] } else { cards[0] }
}

/// How many other copies of each card of the hand there are to place.
pub open spec fn copies_to_place(cards: Seq<Card>, settings: Settings) -> nat {
    if lower_card(cards) != higher_card(cards) {
        if settings.cards_per_type > 1 { (settings.cards_per_type - 1) as nat } else { 0 }
    } else {
        if settings.cards_per_type > 2 { (settings.cards_per_type - 2) as nat } else { 0 }
    }
}

/// The belief in which the other copies of the lower card are at the seats `idx1` picks, and
/// (for a hand of two different cards) those of the higher card at the seats `idx2` picks.
pub open spec fn placement(player: usize, cards: Seq<Card>, settings: Settings, idx1: Seq<int>, idx2: Seq<int>) -> Option<StateModel> {
    let seats = initial_seats(player, settings);
    let base = initial_base(player, cards, settings);
    if lower_card(cards) != higher_card(cards) {
        match place(base, player, picked(seats, idx1), lower_card(cards)) {
            Some(m) => place(m, player, picked(seats, idx2), higher_card(cards)),
            None => None,
        }
    } else {
        place(base, player, picked(seats, idx1), lower_card(cards))
    }
}

/// The placement of the lower card at `c1` and the higher at `c2`, if it can be made, is held.
pub open spec fn pair_done(result: Seq<GameState>, base: StateModel, player: usize, c1: Seq<usize>, c2: Seq<usize>, first: Card, second: Card) -> bool {
    match place(base, player, c1, first) {
        Some(m) => match place(m, player, c2, second) {
            Some(m2) => holds_state(result, m2),
            None => true,
        },
        None => true,
    }
}

/// The placement of the card at `c1`, if it can be made, is held.
pub open spec fn single_done(result: Seq<GameState>, base: StateModel, player: usize, c1: Seq<usize>, first: Card) -> bool {
    match place(base, player, c1, first) {
        Some(m) => holds_state(result, m),
        None => true,
    }
}

proof fn lemma_holds_push(s: Seq<GameState>, g: GameState)
    ensures
        forall|m: StateModel| holds_state(s, m) ==> #[trigger] holds_state(s.push(g), m),
        g.valid ==> holds_state(s.push(g), g.state@),
{
    assert forall|m: StateModel| holds_state(s, m) implies #[trigger] holds_state(s.push(g), m) by {
        let k = choose|k: int| 0 <= k < s.len() && s[k].valid && #[trigger] s[k].state@ == m;
        assert(s.push(g)[k] == s[k]);
    }
    if g.valid {
        assert(s.push(g)[s.len() as int] == g);
    }
}

/// What a pick of seats for the lower card (`c1`) and, for two different cards, for the higher
/// card (`c2`) makes of the base belief.
pub open spec fn combo_result(base: StateModel, player: usize, c1: Seq<usize>, c2: Seq<usize>, first: Card, second: Card, distinct: bool) -> Option<StateModel> {
    if distinct {
        match place(base, player, c1, first) {
            Some(m) => place(m, player, c2, second),
            None => None,
        }
    } else {
        place(base, player, c1, first)
    }
}

/// Every belief of `result` comes from a pair of the picks `combos`.
pub open spec fn made_from(result: Seq<GameState>, combos: Seq<Seq<usize>>, base: StateModel, player: usize, first: Card, second: Card, distinct: bool) -> bool {
    forall|k: int| 0 <= k < result.len() ==> exists|a: int, b: int|
        0 <= a < combos.len() && 0 <= b < combos.len()
        && #[trigger] combo_result(base, player, combos[a], combos[b], first, second, distinct) == Some((#[trigger] result[k]).state@)
}

proof fn lemma_made_from_push(result: Seq<GameState>, combos: Seq<Seq<usize>>, base: StateModel, player: usize, first: Card, second: Card, distinct: bool, g: GameState, a: int, b: int)
    requires
        made_from(result, combos, base, player, first, second, distinct),
        0 <= a < combos.len() && 0 <= b < combos.len(),
        combo_result(base, player, combos[a], combos[b], first, second, distinct) == Some(g.state@),
    ensures
        made_from(result.push(g), combos, base, player, first, second, distinct),
{
    let r2 = result.push(g);
    assert forall|k: int| #![trigger r2[k]] 0 <= k < r2.len() implies exists|a2: int, b2: int|
        0 <= a2 < combos.len() && 0 <= b2 < combos.len()
        && #[trigger] combo_result(base, player, combos[a2], combos[b2], first, second, distinct) == Some(r2[k].state@) by {
        if k < result.len() {
            assert(r2[k] == result[k]);
        } else {
            assert(r2[k] == g);
            assert(combo_result(base, player, combos[a], combos[b], first, second, distinct) == Some(r2[k].state@));
        }
    }
}

/// The beliefs of every pick of seats for the other copies of the hand's cards that fits.
fn place_copies(
    base: &State,
    player: usize,
    cards: &Vec<Card>,
    settings: &Settings,
    targets: &Vec<usize>,
    first: Card,
    second: Card,
    distinct: bool,
    copies_left: usize,
    placing: bool,
) -> (result: Vec<GameState>)
    requires
        player < settings.players_number,
        settings.players_number == base@.n(),
        base@ == initial_base(player, cards@, *settings),
        is_initial_belief(base@, player, *settings),
        base@.cards[player as int].known == cards@,
        targets@ == initial_seats(player, *settings),
        forall|j: int| 0 <= j < targets@.len() ==> #[trigger] targets@[j] < settings.players_number,
        copies_left == copies_to_place(cards@, *settings),
        first == lower_card(cards@) && second == higher_card(cards@),
        distinct == (first != second),
        placing == (copies_left > 0),
    ensures
        forall|k: int| 0 <= k < result@.len() ==> is_initial_belief((#[trigger] result@[k]).state@, player, *settings),
        forall|k: int| 0 <= k < result@.len() ==> (#[trigger] result@[k]).state@.cards[player as int].known == cards@,
        forall|k: int| 0 <= k < result@.len() ==> (#[trigger] result@[k]).valid,
        !placing ==> result@.len() == 0,
        placing ==> forall|idx1: Seq<int>, idx2: Seq<int>|
            is_pick(idx1, targets@.len() as int, copies_left as int)
            && is_pick(idx2, targets@.len() as int, copies_left as int)
            && #[trigger] placement(player, cards@, *settings, idx1, idx2) is Some
            ==> holds_state(result@, placement(player, cards@, *settings, idx1, idx2).unwrap()),
        forall|k: int| #![trigger result@[k]] 0 <= k < result@.len() ==> exists|idx1: Seq<int>, idx2: Seq<int>|
            is_pick(idx1, targets@.len() as int, copies_left as int)
            && is_pick(idx2, targets@.len() as int, copies_left as int)
            && #[trigger] placement(player, cards@, *settings, idx1, idx2) == Some(result@[k].state@),
{
    let ghost sp = *settings;
    let n = settings.players_number;
    let mut result: Vec<GameState> = Vec::new();
        if placing {
            let combos = combinations_with_replacement(&targets, copies_left);
            let ghost cv = combos@.map_values(|c: Vec<usize>| c@);
            let mut i: usize = 0;
            while i < combos.len()
                invariant
                    i <= combos@.len(),
                    player < n,
                    n == base@.n(),
                    is_initial_belief(base@, player, *settings),
                    base@.cards[player as int].known == cards@,
                    forall|k: int| 0 <= k < combos@.len() ==> (#[trigger] combos@[k])@.len() == copies_left,
                    forall|k: int, j: int| 0 <= k < combos@.len() && 0 <= j < copies_left ==> targets@.contains(#[trigger] combos@[k]@[j]),
                    forall|j: int| 0 <= j < targets@.len() ==> #[trigger] targets@[j] < n,
                    forall|k: int| 0 <= k < result@.len() ==> is_initial_belief((#[trigger] result@[k]).state@, player, *settings),
                    forall|k: int| 0 <= k < result@.len() ==> (#[trigger] result@[k]).state@.cards[player as int].known == cards@,
                    forall|k: int| 0 <= k < result@.len() ==> (#[trigger] result@[k]).valid,
                    distinct ==> forall|a: int, b: int| 0 <= a < i && 0 <= b < combos@.len() ==> #[trigger] pair_done(result@, base@, player, combos@[a]@, combos@[b]@, first, second),
                    !distinct ==> forall|a: int| 0 <= a < i ==> #[trigger] single_done(result@, base@, player, combos@[a]@, first),
                    cv == combos@.map_values(|c: Vec<usize>| c@),
                    made_from(result@, cv, base@, player, first, second, distinct),
                decreases combos@.len() - i,
            {
                if distinct {
                    let mut j: usize = 0;
                    while j < combos.len()
                        invariant
                            distinct,
                            i < combos@.len(),
                            j <= combos@.len(),
                            player < n,
                            n == base@.n(),
                            is_initial_belief(base@, player, *settings),
                            base@.cards[player as int].known == cards@,
                            forall|k: int| 0 <= k < combos@.len() ==> (#[trigger] combos@[k])@.len() == copies_left,
                            forall|k: int, j: int| 0 <= k < combos@.len() && 0 <= j < copies_left ==> targets@.contains(#[trigger] combos@[k]@[j]),
                            forall|j: int| 0 <= j < targets@.len() ==> #[trigger] targets@[j] < n,
                            forall|k: int| 0 <= k < result@.len() ==> is_initial_belief((#[trigger] result@[k]).state@, player, *settings),
                            forall|k: int| 0 <= k < result@.len() ==> (#[trigger] result@[k]).state@.cards[player as int].known == cards@,
                            forall|k: int| 0 <= k < result@.len() ==> (#[trigger] result@[k]).valid,
                            forall|a: int, b: int| 0 <= a < i && 0 <= b < combos@.len() ==> #[trigger] pair_done(result@, base@, player, combos@[a]@, combos@[b]@, first, second),
                            forall|b: int| 0 <= b < j ==> #[trigger] pair_done(result@, base@, player, combos@[i as int]@, combos@[b]@, first, second),
                            cv == combos@.map_values(|c: Vec<usize>| c@),
                            made_from(result@, cv, base@, player, first, second, distinct),
                        decreases combos@.len() - j,
                    {
                        let mut state = copy_state(base);
                        proof {
                            lemma_seats(combos@[i as int]@, targets@, n, copies_left);
                            lemma_seats(combos@[j as int]@, targets@, n, copies_left);
                        }
                        let ghost prev = result@;
                        if learn_all(&mut state, player, &combos[i], first) {
                            let ghost mid = state@;
                            if learn_all(&mut state, player, &combos[j], second) {
                                proof {
                                    lemma_learned_initial(base@, state@, player, *settings, cards@);
                                }
                                let g = GameState { valid: true, state };
                                proof {
                                    lemma_holds_push(prev, g);
                                    assert(cv[i as int] == combos@[i as int]@ && cv[j as int] == combos@[j as int]@);
                                    assert(place(base@, player, cv[i as int], first) == Some(mid));
                                    assert(combo_result(base@, player, cv[i as int], cv[j as int], first, second, distinct) == Some(g.state@));
                                    lemma_made_from_push(prev, cv, base@, player, first, second, distinct, g, i as int, j as int);
                                }
                                result.push(g);
                            }
                        }
                        proof {
                            assert forall|a: int, b: int| 0 <= a < i && 0 <= b < combos@.len() implies #[trigger] pair_done(result@, base@, player, combos@[a]@, combos@[b]@, first, second) by {
                                assert(pair_done(prev, base@, player, combos@[a]@, combos@[b]@, first, second));
                            }
                            assert forall|b: int| 0 <= b < j + 1 implies #[trigger] pair_done(result@, base@, player, combos@[i as int]@, combos@[b]@, first, second) by {
                                if b < j {
                                    assert(pair_done(prev, base@, player, combos@[i as int]@, combos@[b]@, first, second));
                                }
                            }
                        }
                        j = j + 1;
                    }
                } else {
                    let mut state = copy_state(base);
                    proof {
                        lemma_seats(combos@[i as int]@, targets@, n, copies_left);
                    }
                    let ghost prev = result@;
                    if learn_all(&mut state, player, &combos[i], first) {
                        proof {
                            lemma_learned_initial(base@, state@, player, *settings, cards@);
                        }
                        let g = GameState { valid: true, state };
                        proof {
                            lemma_holds_push(prev, g);
                            assert(cv[i as int] == combos@[i as int]@);
                            assert(combo_result(base@, player, cv[i as int], cv[i as int], first, second, distinct) == Some(g.state@));
                            lemma_made_from_push(prev, cv, base@, player, first, second, distinct, g, i as int, i as int);
                        }
                        result.push(g);
                    }
                    proof {
                        assert forall|a: int| 0 <= a < i + 1 implies #[trigger] single_done(result@, base@, player, combos@[a]@, first) by {
                            if a < i {
                                assert(single_done(prev, base@, player, combos@[a]@, first));
                            }
                        }
                    }
                }
                i = i + 1;
            }
            proof {
                assert forall|idx1: Seq<int>, idx2: Seq<int>|
                    is_pick(idx1, targets@.len() as int, copies_left as int)
                    && is_pick(idx2, targets@.len() as int, copies_left as int)
                    && #[trigger] placement(player, cards@, sp, idx1, idx2) is Some
                    implies holds_state(result@, placement(player, cards@, sp, idx1, idx2).unwrap()) by {
                    let a = choose|a: int| 0 <= a < combos@.len() && (#[trigger] combos@[a])@ == picked(targets@, idx1);
                    let b = choose|b: int| 0 <= b < combos@.len() && (#[trigger] combos@[b])@ == picked(targets@, idx2);
                    if distinct {
                        assert(pair_done(result@, base@, player, combos@[a]@, combos@[b]@, first, second));
                    } else {
                        assert(single_done(result@, base@, player, combos@[a]@, first));
                    }
                }
            }
            proof {
                assert forall|k: int| #![trigger result@[k]] 0 <= k < result@.len() implies exists|idx1: Seq<int>, idx2: Seq<int>|
                    is_pick(idx1, targets@.len() as int, copies_left as int)
                    && is_pick(idx2, targets@.len() as int, copies_left as int)
                    && #[trigger] placement(player, cards@, *settings, idx1, idx2) == Some(result@[k].state@) by {
                    let (a, b) = choose|a: int, b: int|
                        0 <= a < cv.len() && 0 <= b < cv.len()
                        && #[trigger] combo_result(base@, player, cv[a], cv[b], first, second, distinct) == Some(result@[k].state@);
                    assert(cv[a] == combos@[a]@ && cv[b] == combos@[b]@);
                    let idx1 = choose|idx: Seq<int>| is_pick(idx, targets@.len() as int, copies_left as int) && (#[trigger] combos@[a])@ == picked(targets@, idx);
                    let idx2 = choose|idx: Seq<int>| is_pick(idx, targets@.len() as int, copies_left as int) && (#[trigger] combos@[b])@ == picked(targets@, idx);
                    assert(placement(player, cards@, *settings, idx1, idx2) == Some(result@[k].state@));
                }
            }
        }
    result
}

/// Sorts the known cards of every belief, then orders the beliefs and drops repeats.
fn settle(result: Vec<GameState>, player: usize, cards: &Vec<Card>, settings: &Settings) -> (r: Vec<GameState>)
    requires
        result@.len() > 0,
        player < settings.players_number,
        forall|q: int| 0 <= q < result@.len() ==> (#[trigger] result@[q]).valid,
        forall|q: int| 0 <= q < result@.len() ==> is_initial_belief((#[trigger] result@[q]).state@, player, *settings),
        forall|q: int| 0 <= q < result@.len() ==> (#[trigger] result@[q]).state@.cards[player as int].known == cards@,
        forall|q: int| 0 <= q < result@.len() ==> is_placement(player, cards@, *settings, (#[trigger] result@[q]).state@),
    ensures
        r@.len() > 0,
        forall|i: int| 0 <= i < r@.len() ==> (#[trigger] r@[i]).valid,
        forall|i: int| 0 <= i < r@.len() ==> is_initial_belief((#[trigger] r@[i]).state@, player, *settings),
        forall|i: int| 0 <= i < r@.len() ==> (#[trigger] r@[i]).state@.cards[player as int].known.to_multiset() == cards@.to_multiset(),
        no_repeats(r@),
        forall|i: int| 0 <= i < r@.len() ==> is_placement(player, cards@, *settings, (#[trigger] r@[i]).state@),
        forall|i: int| 0 <= i < r@.len() ==> piles_sorted((#[trigger] r@[i]).state@),
        forall|m: StateModel| #[trigger] holds_state(result@, m) ==> held_up_to_order(r@, m),
        beliefs_sorted(r@),
{
    let ghost sp = *settings;
    let n = settings.players_number;
    let mut result = result;
        let ghost pre = result@;
        let mut k: usize = 0;
        while k < result.len()
            invariant
                k <= result@.len(),
                result@.len() == pre.len(),
                result@.len() > 0,
                player < n,
                n == settings.players_number,
                forall|q: int| 0 <= q < result@.len() ==> (#[trigger] result@[q]).valid,
                forall|q: int| 0 <= q < pre.len() ==> (#[trigger] pre[q]).valid,
                forall|q: int| 0 <= q < result@.len() ==> is_initial_belief((#[trigger] result@[q]).state@, player, *settings),
                forall|q: int| 0 <= q < k ==> (#[trigger] result@[q]).state@.cards[player as int].known.to_multiset() == cards@.to_multiset(),
                forall|q: int| k <= q < result@.len() ==> (#[trigger] result@[q]).state@.cards[player as int].known == cards@,
                forall|q: int| 0 <= q < result@.len() ==> same_up_to_order((#[trigger] result@[q]).state@, pre[q].state@),
                forall|q: int| 0 <= q < pre.len() ==> is_placement(player, cards@, sp, (#[trigger] pre[q]).state@),
                forall|q: int| 0 <= q < k ==> piles_sorted((#[trigger] result@[q]).state@),
                sp == *settings,
            decreases result@.len() - k,
        {
            let ghost prev = result@;
            let mut g = result.remove(k);
            sort_belief(&mut g.state, player, *settings);
            result.insert(k, g);
            proof {
                assert(result@ =~= prev.update(k as int, g));
                assert(same_up_to_order(prev[k as int].state@, pre[k as int].state@));
                assert(same_up_to_order(g.state@, pre[k as int].state@));
            }
            k = k + 1;
        }
        let ghost sorted = result@;
        let ghost first_model = result@[0].state@;
        proof {
            assert(crate::belief::holds_state(result@, first_model));
        }
        let r = normalize(result);
        proof {
            assert(holds_state(r@, first_model));
            assert forall|i: int| 0 <= i < r@.len() implies is_initial_belief((#[trigger] r@[i]).state@, player, *settings)
                && r@[i].state@.cards[player as int].known.to_multiset() == cards@.to_multiset() by {
                assert(sorted.contains(r@[i]));
                let k = choose|k: int| 0 <= k < sorted.len() && sorted[k] == r@[i];
                assert(is_initial_belief(sorted[k].state@, player, *settings));
            }
            assert forall|i: int| 0 <= i < r@.len() implies is_placement(player, cards@, *settings, (#[trigger] r@[i]).state@)
                && piles_sorted(r@[i].state@) by {
                assert(sorted.contains(r@[i]));
                let k = choose|k: int| 0 <= k < sorted.len() && sorted[k] == r@[i];
                lemma_placement_reorder(player, cards@, *settings, pre[k].state@, sorted[k].state@);
            }
            assert forall|m: StateModel| #[trigger] holds_state(pre, m) implies held_up_to_order(r@, m) by {
                let q = choose|q: int| 0 <= q < pre.len() && pre[q].valid && #[trigger] pre[q].state@ == m;
                assert(same_up_to_order(sorted[q].state@, m));
                assert(holds_state(sorted, sorted[q].state@));
                assert(holds_state(r@, sorted[q].state@));
                let w = choose|w: int| 0 <= w < r@.len() && r@[w].valid && #[trigger] r@[w].state@ == sorted[q].state@;
                assert(same_up_to_order(r@[w].state@, m));
            }
        }
        r
}

impl GameState {
    /// The beliefs of `player`, holding `cards`, at the start of a game of `settings`: every way
    /// to place the other copies of the hand's cards among the opponents and the deck.
    pub fn initial(player: usize, cards: &Vec<Card>, settings: &Settings) -> (r: Vec<GameState>)
        requires
            cards@.len() == CARDS_PER_PLAYER,
            player < settings.players_number,
            CARDS_PER_PLAYER * settings.players_number <= 5 * settings.cards_per_type,
            5 * settings.cards_per_type <= usize::MAX,
        ensures
            r@.len() > 0,
            forall|i: int| 0 <= i < r@.len() ==> (#[trigger] r@[i]).valid,
            forall|i: int| 0 <= i < r@.len() ==> is_initial_belief((#[trigger] r@[i]).state@, player, *settings),
            forall|i: int| 0 <= i < r@.len() ==> (#[trigger] r@[i]).state@.cards[player as int].known.to_multiset() == cards@.to_multiset(),
            no_repeats(r@),
            beliefs_sorted(r@),
            forall|i: int| 0 <= i < r@.len() ==> is_placement(player, cards@, *settings, (#[trigger] r@[i]).state@),
            forall|i: int| 0 <= i < r@.len() ==> piles_sorted((#[trigger] r@[i]).state@),
            forall|idx1: Seq<int>, idx2: Seq<int>|
                is_pick(idx1, initial_seats(player, *settings).len() as int, copies_to_place(cards@, *settings) as int)
                && is_pick(idx2, initial_seats(player, *settings).len() as int, copies_to_place(cards@, *settings) as int)
                && #[trigger] placement(player, cards@, *settings, idx1, idx2) is Some
                ==> held_up_to_order(r@, placement(player, cards@, *settings, idx1, idx2).unwrap()),
    {
        let n = settings.players_number;
        let first = if rank_of(cards[0]) <= rank_of(cards[1]) { cards[0] } else { cards[1] };
        let second = if rank_of(cards[0]) <= rank_of(cards[1]) { cards[1] } else { cards[0] };
        let distinct = first != second;
        let deck_len = 5 * settings.cards_per_type - CARDS_PER_PLAYER * n;
        let ghost sp = *settings;
        let ghost goal = initial_base(player, cards@, sp);
        let mut hands: Vec<GamePlayerCards> = Vec::new();
        let mut p: usize = 0;
        while p < n
            invariant
                p <= n,
                n == settings.players_number,
                player < n,
                hands@.len() == p,
                cards@.len() == CARDS_PER_PLAYER,
                goal == initial_base(player, cards@, sp),
                sp == *settings,
                forall|q: int| 0 <= q < p ==> (#[trigger] hands@[q])@ == goal.cards[q],
            decreases n - p,
        {
            if p == player {
                hands.push(GamePlayerCards::Player(crate::game::copy_cards(cards)));
            } else {
                hands.push(GamePlayerCards::Opponent(CardCollection { known: Vec::new(), unknown: CARDS_PER_PLAYER }));
            }
            proof {
                assert(hands@[p as int]@ == goal.cards[p as int]) by {
                    if p != player {
                        assert(hands@[p as int]@.known =~= Seq::<Card>::empty());
                    }
                }
            }
            p = p + 1;
        }
        let coins = crate::game::repeat_count(INITIAL_COINS, n);
        let hand_sizes = crate::game::repeat_count(CARDS_PER_PLAYER, n);
        let counters = crate::game::repeat_count(CARDS_PER_PLAYER, n);
        let base = State {
            state_type: StateType::Turn { player: 0 },
            player_coins: coins,
            player_hands: hand_sizes,
            player_cards_counter: counters,
            player_cards: hands,
            deck: CardCollection { known: Vec::new(), unknown: deck_len },
            revealed_cards: Vec::new(),
        };
        proof {
            assert(base@.coins =~= goal.coins);
            assert(base@.hands =~= goal.hands);
            assert(base@.counters =~= goal.counters);
            assert(base@.cards =~= goal.cards);
            assert(base@.deck.known =~= goal.deck.known);
            assert(base@.revealed =~= goal.revealed);
            assert(base@ =~= goal);
            lemma_sum_repeat(base@.counters, CARDS_PER_PLAYER);
            assert forall|q: int| 0 <= q < n implies base@.counters[q] == #[trigger] base@.cards[q].count() by {
                assert(base@.cards[q] == goal.cards[q]);
            }
            assert(base@.wf());
            assert forall|q: int| 0 <= q < n implies ((#[trigger] base@.cards[q]).exact <==> q == player) by {
                assert(base@.cards[q] == goal.cards[q]);
            }
            assert(base@.cards[player as int].known == cards@);
        }
        let mut targets: Vec<usize> = Vec::new();
        let mut t: usize = 0;
        while t < n
            invariant
                t <= n,
                player < n,
                n == settings.players_number,
                sp == *settings,
                deck_len == initial_deck_size(sp),
                targets@ == seats_below(player, sp, t as nat),
                forall|j: int| 0 <= j < targets@.len() ==> #[trigger] targets@[j] < n,
            decreases n - t,
        {
            if t != player || deck_len > 0 {
                targets.push(t);
            }
            t = t + 1;
        }
        let copies_left = if distinct {
            if settings.cards_per_type > 1 { settings.cards_per_type - 1 } else { 0 }
        } else {
            if settings.cards_per_type > 2 { settings.cards_per_type - 2 } else { 0 }
        };
        let placing = if distinct { settings.cards_per_type > 1 } else { settings.cards_per_type > 2 };
        proof {
            assert(first == lower_card(cards@) && second == higher_card(cards@));
            assert(copies_left == copies_to_place(cards@, sp));
            assert(targets@ == initial_seats(player, sp));
        }
        let mut result = place_copies(&base, player, cards, settings, &targets, first, second, distinct, copies_left, placing);
        proof {
            if !placing {
                assert forall|idx1: Seq<int>, idx2: Seq<int>|
                    is_pick(idx1, targets@.len() as int, copies_left as int)
                    && is_pick(idx2, targets@.len() as int, copies_left as int)
                    && #[trigger] placement(player, cards@, sp, idx1, idx2) is Some
                    implies placement(player, cards@, sp, idx1, idx2).unwrap() == base@ by {
                    assert(picked(targets@, idx1) =~= Seq::<usize>::empty());
                    assert(picked(targets@, idx2) =~= Seq::<usize>::empty());
                }
            }
        }
        let ghost placed = result@;
        if result.len() == 0 {
            let g = GameState { valid: true, state: base };
            proof {
                lemma_holds_push(placed, g);
                lemma_same_refl(g.state@);
                if placing {
                    assert forall|idx1: Seq<int>, idx2: Seq<int>|
                        is_pick(idx1, initial_seats(player, sp).len() as int, copies_to_place(cards@, sp) as int)
                        && is_pick(idx2, initial_seats(player, sp).len() as int, copies_to_place(cards@, sp) as int)
                        implies #[trigger] placement(player, cards@, sp, idx1, idx2) is None by {
                        if placement(player, cards@, sp, idx1, idx2) is Some {
                            assert(holds_state(placed, placement(player, cards@, sp, idx1, idx2).unwrap()));
                        }
                    }
                } else {
                    let e = Seq::<int>::empty();
                    assert(is_pick(e, targets@.len() as int, copies_left as int));
                    assert(picked(targets@, e) =~= Seq::<usize>::empty());
                    assert(placement(player, cards@, sp, e, e) == Some(base@));
                }
                assert(is_placement(player, cards@, sp, g.state@));
            }
            result.push(g);
        }
        proof {
            assert forall|q: int| 0 <= q < result@.len() implies is_placement(player, cards@, sp, (#[trigger] result@[q]).state@) by {
                if q < placed.len() {
                    assert(result@[q] == placed[q]);
                    let (idx1, idx2) = choose|idx1: Seq<int>, idx2: Seq<int>|
                        is_pick(idx1, targets@.len() as int, copies_left as int)
                        && is_pick(idx2, targets@.len() as int, copies_left as int)
                        && #[trigger] placement(player, cards@, sp, idx1, idx2) == Some(placed[q].state@);
                    lemma_same_refl(placed[q].state@);
                }
            }
        }
        proof {
            assert forall|idx1: Seq<int>, idx2: Seq<int>|
                is_pick(idx1, targets@.len() as int, copies_left as int)
                && is_pick(idx2, targets@.len() as int, copies_left as int)
                && #[trigger] placement(player, cards@, sp, idx1, idx2) is Some
                implies holds_state(result@, placement(player, cards@, sp, idx1, idx2).unwrap()) by {
                if placing {
                    assert(holds_state(placed, placement(player, cards@, sp, idx1, idx2).unwrap()));
                }
            }
        }
        let ghost pre = result@;
        let r = settle(result, player, cards, settings);
        proof {
            assert forall|idx1: Seq<int>, idx2: Seq<int>|
                is_pick(idx1, initial_seats(player, *settings).len() as int, copies_to_place(cards@, *settings) as int)
                && is_pick(idx2, initial_seats(player, *settings).len() as int, copies_to_place(cards@, *settings) as int)
                && #[trigger] placement(player, cards@, *settings, idx1, idx2) is Some
                implies held_up_to_order(r@, placement(player, cards@, *settings, idx1, idx2).unwrap()) by {
                assert(holds_state(pre, placement(player, cards@, *settings, idx1, idx2).unwrap()));
            }
        }
        r
    }
}

} // verus!
