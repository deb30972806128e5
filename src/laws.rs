use vstd::prelude::*;

use crate::actions::is_available;
use crate::game::active_count;
use crate::cards::{Card, DeckDraw};
use crate::fsm::{
    claimant, real_cards,
    lemma_seek_active_bound, lemma_sum_bound, lemma_sum_nonneg, lemma_sum_update, next_player,
    replacing, seek_active, succ, transition, awaited_active, Action, ActionType, ChallengeState,
    Error, StateModel, StateType,
    MAX_COINS,
};

verus! {

proof fn lemma_lose_influence(m: StateModel, p: int, c: Card)
    requires
        m.shapes_wf(),
        m.cards_wf(),
        0 <= p < m.n(),
        m.cards[p].has_card(c),
        m.hands[p] > 0,
    ensures
        m.lose_influence(p, c).shapes_wf(),
        m.lose_influence(p, c).cards_wf(),
        m.lose_influence(p, c).total() == m.total(),
        m.lose_influence(p, c).counters[p] + 1 == m.counters[p],
        m.lose_influence(p, c).hands[p] + 1 == m.hands[p],
{
    let m2 = m.lose_influence(p, c);
    m.cards[p].lemma_drop_count(c);
    lemma_sum_update(m.counters, p, (m.counters[p] - 1) as usize);
    assert forall|q: int| 0 <= q < m2.n() implies m2.counters[q] == #[trigger] m2.cards[q].count() by {
        if q != p {
            assert(m.counters[q] == m.cards[q].count());
        }
    }
}

proof fn lemma_return_card(m: StateModel, p: int, c: Card)
    requires
        m.shapes_wf(),
        m.cards_wf(),
        0 <= p < m.n(),
        m.cards[p].has_card(c),
    ensures
        m.return_card(p, c).shapes_wf(),
        m.return_card(p, c).cards_wf(),
        m.return_card(p, c).total() == m.total(),
        m.return_card(p, c).counters[p] + 1 == m.counters[p],
{
    let m2 = m.return_card(p, c);
    m.cards[p].lemma_drop_count(c);
    lemma_sum_update(m.counters, p, (m.counters[p] - 1) as usize);
    assert forall|q: int| 0 <= q < m2.n() implies m2.counters[q] == #[trigger] m2.cards[q].count() by {
        if q != p {
            assert(m.counters[q] == m.cards[q].count());
        }
    }
}

proof fn lemma_take_card(m: StateModel, p: int, draw: DeckDraw)
    requires
        m.shapes_wf(),
        m.cards_wf(),
        0 <= p < m.n(),
        m.deck.pop_card(draw) is Some,
    ensures
        ({
            let (c, d) = m.deck.pop_card(draw).unwrap();
            let m2 = m.take_card(p, c, d);
            &&& m2.shapes_wf()
            &&& m2.cards_wf()
            &&& m2.total() == m.total()
            &&& m2.counters[p] == m.counters[p] + 1
        }),
{
    let (c, d) = m.deck.pop_card(draw).unwrap();
    let m2 = m.take_card(p, c, d);
    m.deck.lemma_pop_count(draw);
    m.cards[p].lemma_add_count(c);
    lemma_sum_bound(m.counters, p);
    lemma_sum_update(m.counters, p, (m.counters[p] + 1) as usize);
    assert forall|q: int| 0 <= q < m2.n() implies m2.counters[q] == #[trigger] m2.cards[q].count() by {
        if q != p {
            assert(m.counters[q] == m.cards[q].count());
        }
    }
}

proof fn lemma_next_player_bound(hands: Seq<usize>)
    requires
        hands.len() > 0,
    ensures
        forall|p: int| 0 <= p < hands.len() ==> 0 <= #[trigger] next_player(p, hands) < hands.len(),
{
    assert forall|p: int| 0 <= p < hands.len() implies 0 <= #[trigger] next_player(p, hands) < hands.len() by {
        lemma_seek_active_bound(p, hands, hands.len(), p);
    }
}

/// `k` seats on from `q`, going round a table of `n` seats.
spec fn seat_after(q: int, k: int, n: int) -> int {
    (q + k) % n
}

proof fn lemma_seek_finds(q: int, hands: Seq<usize>, left: nat, start: int, k: int)
    requires
        hands.len() > 0,
        0 <= q < hands.len(),
        1 <= k <= left,
        hands[seat_after(q, k, hands.len() as int)] > 0,
    ensures
        hands[seek_active(q, hands, left, start)] > 0,
    decreases left,
{
    let n = hands.len() as int;
    let r = succ(q, n);
    assert(r == seat_after(q, 1, n)) by {
        if q + 1 >= n {
            vstd::arithmetic::div_mod::lemma_mod_self_0(n);
        } else {
            vstd::arithmetic::div_mod::lemma_small_mod((q + 1) as nat, n as nat);
        }
    }
    if hands[r] == 0 {
        assert(k != 1);
        assert(seat_after(r, k - 1, n) == seat_after(q, k, n)) by {
            if q + 1 >= n {
                vstd::arithmetic::div_mod::lemma_mod_add_multiples_vanish(k - 1, n);
            }
        }
        lemma_seek_finds(r, hands, (left - 1) as nat, start, k - 1);
    }
}

/// Whenever some player `q` holds face-down cards, so does the next player after `p`.
pub proof fn lemma_next_player_active(p: int, q: int, hands: Seq<usize>)
    requires
        0 <= p < hands.len(),
        0 <= q < hands.len(),
        hands[q] > 0,
    ensures
        hands[next_player(p, hands)] > 0,
{
    let n = hands.len() as int;
    let k = if q > p { q - p } else { q - p + n };
    assert(seat_after(p, k, n) == q) by {
        if q > p {
            vstd::arithmetic::div_mod::lemma_small_mod(q as nat, n as nat);
        } else {
            vstd::arithmetic::div_mod::lemma_mod_add_multiples_vanish(q, n);
            vstd::arithmetic::div_mod::lemma_small_mod(q as nat, n as nat);
        }
    }
    lemma_seek_finds(p, hands, hands.len(), p, k);
}

proof fn lemma_challenge_draws(
    m: StateModel,
    current_player: usize,
    source: StateType,
    c: ChallengeState,
    a: Action,
    draw: DeckDraw,
)
    requires
        m.wf(),
        a.player < m.n(),
        m.hands[a.player as int] > 0,
        m.state_type == (StateType::Challenge { current_player, source: Box::new(source), state: c }),
        transition(m, a, draw) is Ok,
    ensures
        transition(m, a, draw).unwrap().draws_wf(),
{
    let m2 = transition(m, a, draw).unwrap();
    match c {
        ChallengeState::Initial { initiator, target, card } => {
            if let ActionType::ShowCard(_) = a.action_type {
                assert(m2.deck == m.deck.push_card(card));
            }
        },
        ChallengeState::DeckShuffled { target } => {
            m.deck.lemma_pop_count(draw);
        },
        _ => {},
    }
}

proof fn lemma_challenge_wf(
    m: StateModel,
    current_player: usize,
    source: StateType,
    c: ChallengeState,
    a: Action,
    draw: DeckDraw,
)
    requires
        m.wf(),
        a.player < m.n(),
        m.hands[a.player as int] > 0,
        m.state_type == (StateType::Challenge { current_player, source: Box::new(source), state: c }),
        transition(m, a, draw) is Ok,
    ensures
        transition(m, a, draw).unwrap().wf(),
        transition(m, a, draw).unwrap().total() == m.total(),
{
    let m2 = transition(m, a, draw).unwrap();
    lemma_next_player_bound(m.hands);
    match c {
        ChallengeState::Initial { initiator, target, card } => {
            match a.action_type {
                ActionType::ShowCard(_) => {
                    lemma_return_card(m, target as int, card);
                    let m1 = m.return_card(target as int, card);
                    assert forall|p: int| 0 <= p < m2.n() implies if replacing(m2.state_type) == Some(p as usize) {
                        m2.counters[p] + 1 >= #[trigger] m2.hands[p]
                    } else {
                        m2.counters[p] >= m2.hands[p]
                    } by {
                        assert(m.counters[p] >= m.hands[p]);
                    }
                },
                ActionType::RevealCard(r) => {
                    lemma_lose_influence(m, target as int, r);
                    let m1 = m.lose_influence(target as int, r);
                    lemma_next_player_bound(m1.hands);
                    assert forall|p: int| 0 <= p < m2.n() implies if replacing(m2.state_type) == Some(p as usize) {
                        m2.counters[p] + 1 >= #[trigger] m2.hands[p]
                    } else {
                        m2.counters[p] >= m2.hands[p]
                    } by {
                        assert(m.counters[p] >= m.hands[p]);
                    }
                },
                _ => {},
            }
        },
        ChallengeState::ShownCard { initiator, target } => {
            if let ActionType::RevealCard(r) = a.action_type {
                lemma_lose_influence(m, initiator as int, r);
                assert forall|p: int| 0 <= p < m2.n() implies if replacing(m2.state_type) == Some(p as usize) {
                    m2.counters[p] + 1 >= #[trigger] m2.hands[p]
                } else {
                    m2.counters[p] >= m2.hands[p]
                } by {
                    assert(m.counters[p] + 1 >= m.hands[p]);
                }
            }
        },
        ChallengeState::InitiatorRevealedCard { target } => {
            assert forall|p: int| 0 <= p < m2.n() implies if replacing(m2.state_type) == Some(p as usize) {
                m2.counters[p] + 1 >= #[trigger] m2.hands[p]
            } else {
                m2.counters[p] >= m2.hands[p]
            } by {
                assert(m.counters[p] + 1 >= m.hands[p]);
            }
        },
        ChallengeState::DeckShuffled { target } => {
            lemma_take_card(m, target as int, draw);
            let (card, d) = m.deck.pop_card(draw).unwrap();
            let m1 = m.take_card(target as int, card, d);
            lemma_next_player_bound(m1.hands);
            lemma_sum_nonneg(m1.counters);
            assert forall|p: int| 0 <= p < m2.n() implies if replacing(m2.state_type) == Some(p as usize) {
                m2.counters[p] + 1 >= #[trigger] m2.hands[p]
            } else {
                m2.counters[p] >= m2.hands[p]
            } by {
                assert(replacing(m.state_type) == Some(target));
                if p == target {
                    assert(m.counters[p] + 1 >= m.hands[p]);
                } else {
                    assert(replacing(m.state_type) != Some(p as usize));
                    assert(m.counters[p] >= m.hands[p]);
                }
            }
        },
        _ => {},
    }
}

/// A draw that an accepted move leaves awaited has a card to take.
proof fn lemma_transition_draws(m: StateModel, a: Action, draw: DeckDraw)
    requires
        m.wf(),
        transition(m, a, draw) is Ok,
    ensures
        transition(m, a, draw).unwrap().draws_wf(),
{
    match m.state_type {
        StateType::Challenge { current_player, source, state } => {
            lemma_challenge_draws(m, current_player, *source, state, a, draw);
        },
        StateType::NeedCards { .. } => {
            m.deck.lemma_pop_count(draw);
        },
        _ => {},
    }
}

/// A move that the rules accept keeps the game well formed, and the cards held, in the deck
/// and revealed stay as many as before.
pub proof fn lemma_transition_wf(m: StateModel, a: Action, draw: DeckDraw)
    requires
        m.wf(),
        transition(m, a, draw) is Ok,
    ensures
        transition(m, a, draw).unwrap().wf(),
        transition(m, a, draw).unwrap().total() == m.total(),
{
    let m2 = transition(m, a, draw).unwrap();
    lemma_next_player_bound(m.hands);
    lemma_sum_nonneg(m.counters);
    lemma_transition_draws(m, a, draw);
    match m.state_type {
        StateType::Challenge { current_player, source, state } => {
            lemma_challenge_wf(m, current_player, *source, state, a, draw);
        },
        StateType::NeedCards { player, count } => {
            lemma_take_card(m, player as int, draw);
            assert(m.counters[player as int] >= m.hands[player as int]);
            assert forall|p: int| 0 <= p < m2.n() implies if replacing(m2.state_type) == Some(p as usize) {
                m2.counters[p] + 1 >= #[trigger] m2.hands[p]
            } else {
                m2.counters[p] >= m2.hands[p]
            } by {
                assert(m.counters[p] >= m.hands[p]);
            }
        },
        StateType::TookCards { player, count } => {
            if let ActionType::DropCard(c) = a.action_type {
                lemma_return_card(m, player as int, c);
                let m1 = m.return_card(player as int, c);
                lemma_next_player_bound(m1.hands);
                assert forall|p: int| 0 <= p < m2.n() implies if replacing(m2.state_type) == Some(p as usize) {
                    m2.counters[p] + 1 >= #[trigger] m2.hands[p]
                } else {
                    m2.counters[p] >= m2.hands[p]
                } by {
                    assert(m.counters[p] >= m.hands[p]);
                }
            }
        },
        StateType::DroppedCard { player, left } => {
            if let ActionType::DropCard(c) = a.action_type {
                lemma_return_card(m, player as int, c);
                let m1 = m.return_card(player as int, c);
                lemma_next_player_bound(m1.hands);
                assert forall|p: int| 0 <= p < m2.n() implies if replacing(m2.state_type) == Some(p as usize) {
                    m2.counters[p] + 1 >= #[trigger] m2.hands[p]
                } else {
                    m2.counters[p] >= m2.hands[p]
                } by {
                    assert(m.counters[p] >= m.hands[p]);
                }
            }
        },
        StateType::LostInfluence { player, current_player } => {
            if let ActionType::RevealCard(c) = a.action_type {
                lemma_lose_influence(m, player as int, c);
                let m1 = m.lose_influence(player as int, c);
                lemma_next_player_bound(m1.hands);
                assert forall|p: int| 0 <= p < m2.n() implies if replacing(m2.state_type) == Some(p as usize) {
                    m2.counters[p] + 1 >= #[trigger] m2.hands[p]
                } else {
                    m2.counters[p] >= m2.hands[p]
                } by {
                    assert(m.counters[p] >= m.hands[p]);
                }
            }
        },
        _ => {
            assert(m2.counters == m.counters && m2.hands == m.hands && m2.cards == m.cards);
            assert forall|p: int| 0 <= p < m2.n() implies if replacing(m2.state_type) == Some(p as usize) {
                m2.counters[p] + 1 >= #[trigger] m2.hands[p]
            } else {
                m2.counters[p] >= m2.hands[p]
            } by {
                assert(m.counters[p] >= m.hands[p]);
            }
        },
    }
}

/// The move `a` names a card that its player holds, or draws a card that the deck can give.
pub open spec fn card_move_possible(m: StateModel, a: Action, draw: DeckDraw) -> bool {
    match a.action_type {
        ActionType::ShowCard(c) | ActionType::RevealCard(c) | ActionType::DropCard(c) => m.cards[a.player as int].has_card(c),
        ActionType::TakeCard => draw == DeckDraw::Top || m.deck.pop_card(draw) is Some,
        _ => true,
    }
}

/// Every move that the enumerator offers is accepted, provided that its player holds the card
/// it names (or the deck can give the card it draws).
pub proof fn lemma_enumerator_sound(m: StateModel, a: Action, draw: DeckDraw)
    requires
        m.wf(),
        awaited_active(m),
        is_available(m.state_type, m.coins, m.hands, a),
        card_move_possible(m, a, draw),
    ensures
        transition(m, a, draw) is Ok,
{
}

/// No move outside the enumerator is accepted, in a game played for real (whose hands hold
/// no card of unknown identity).
pub proof fn lemma_enumerator_complete(m: StateModel, a: Action, draw: DeckDraw)
    requires
        m.wf(),
        real_cards(m),
        transition(m, a, draw) is Ok,
    ensures
        is_available(m.state_type, m.coins, m.hands, a),
{
    assert(m.cards[a.player as int].is_real());
}

/// At the start of a turn, a player holding the mandatory-coup amount of coins can do
/// nothing but a coup.
pub proof fn lemma_too_many_coins(m: StateModel, a: Action, draw: DeckDraw)
    requires
        m.wf(),
        m.state_type == (StateType::Turn { player: a.player }),
        a.player < m.n(),
        m.hands[a.player as int] > 0,
        m.coins[a.player as int] >= MAX_COINS,
        !(a.action_type is Coup),
    ensures
        transition(m, a, draw) == Err::<StateModel, Error>(Error::TooManyCoins),
{
}

/// A player without face-down cards never acts, can never be the target of a coup, an
/// assassination or a steal, and never gets a card back face down.
pub proof fn lemma_inactive_player(m: StateModel, a: Action, draw: DeckDraw)
    requires
        m.wf(),
        transition(m, a, draw) is Ok,
    ensures
        m.hands[a.player as int] > 0,
        a.action_type matches ActionType::Coup(t) ==> m.hands[t as int] > 0,
        a.action_type matches ActionType::Assassinate(t) ==> m.hands[t as int] > 0,
        a.action_type matches ActionType::Steal(t) ==> m.hands[t as int] > 0,
        forall|p: int|
            0 <= p < m.n() ==> #[trigger] transition(m, a, draw).unwrap().hands[p] <= m.hands[p],
{
    let m2 = transition(m, a, draw).unwrap();
    assert forall|p: int| 0 <= p < m.n() implies #[trigger] m2.hands[p] <= m.hands[p] by {
    }
}

/// Reordering the known cards of the deck keeps a game well formed, and its cards real.
pub proof fn lemma_reordered_wf(after: StateModel, m: StateModel)
    requires
        m.wf(),
        after == m || crate::fsm::deck_reordered(after, m),
    ensures
        after.wf(),
        after.total() == m.total(),
        real_cards(m) ==> real_cards(after),
{
    vstd::seq_lib::to_multiset_contains(after.deck.known, Card::Unknown);
    vstd::seq_lib::to_multiset_contains(m.deck.known, Card::Unknown);
    assert forall|p: int| 0 <= p < after.n() implies after.counters[p] == #[trigger] after.cards[p].count() by {
        assert(m.counters[p] == m.cards[p].count());
    }
}

proof fn lemma_active_count_update(s: Seq<usize>, i: int, v: usize)
    requires
        0 <= i < s.len(),
    ensures
        active_count(s.update(i, v)) + (if s[i] > 0 { 1int } else { 0int }) == active_count(s) + (if v > 0 { 1int } else { 0int }),
    decreases s.len(),
{
    if i < s.len() - 1 {
        lemma_active_count_update(s.drop_last(), i, v);
        assert(s.update(i, v).drop_last() =~= s.drop_last().update(i, v));
    } else {
        assert(s.update(i, v).drop_last() =~= s.drop_last());
    }
}

/// A move turns at most one face-down card face up.
proof fn lemma_hands_step(m: StateModel, a: Action, draw: DeckDraw) -> (q: int)
    requires
        m.wf(),
        transition(m, a, draw) is Ok,
    ensures
        transition(m, a, draw).unwrap().hands == m.hands || (0 <= q < m.n() && m.hands[q] > 0
            && transition(m, a, draw).unwrap().hands == m.hands.update(q, (m.hands[q] - 1) as usize)),
{
    match m.state_type {
        StateType::LostInfluence { player, .. } => player as int,
        StateType::Challenge { state, .. } => match state {
            ChallengeState::Initial { target, .. } => target as int,
            ChallengeState::ShownCard { initiator, .. } => initiator as int,
            _ => 0,
        },
        _ => 0,
    }
}

/// While two or more players hold face-down cards, a move leaves at least one of them in the
/// game: once the game is over, exactly one player is left, and that player is the winner.
pub proof fn lemma_one_player_left(m: StateModel, a: Action, draw: DeckDraw)
    requires
        m.wf(),
        active_count(m.hands) >= 2,
        transition(m, a, draw) is Ok,
    ensures
        active_count(transition(m, a, draw).unwrap().hands) >= 1,
{
    let q = lemma_hands_step(m, a, draw);
    let m2 = transition(m, a, draw).unwrap();
    if m2.hands != m.hands {
        lemma_active_count_update(m.hands, q, (m.hands[q] - 1) as usize);
    }
}

/// Every player whose move an accepted move leaves awaited still holds face-down cards.
pub proof fn lemma_transition_awaited(m: StateModel, a: Action, draw: DeckDraw)
    requires
        m.wf(),
        awaited_active(m),
        transition(m, a, draw) is Ok,
    ensures
        awaited_active(transition(m, a, draw).unwrap()),
{
    let m2 = transition(m, a, draw).unwrap();
    let n = m.n();
    assert(a.player < n && m.hands[a.player as int] > 0);
    lemma_next_player_bound(m.hands);
    match m.state_type {
        StateType::Turn { player } => {
            lemma_next_player_active(player as int, player as int, m.hands);
            match a.action_type {
                ActionType::Income => {
                    assert(m2.hands == m.hands);
                    assert(m2.state_type == m.next_turn(player as int));
                },
                ActionType::Coup(t) => {
                    assert(m2.state_type == (StateType::LostInfluence { player: t, current_player: player }));
                    assert(m2.hands == m.hands);
                },
                _ => {},
            }
        },
        StateType::ForeignAid { player } | StateType::Tax { player } => {
            lemma_next_player_active(player as int, player as int, m.hands);
        },
        StateType::Steal { player, .. } => {
            lemma_next_player_active(player as int, player as int, m.hands);
        },
        StateType::Assassination { player, .. } => {
            lemma_next_player_active(player as int, player as int, m.hands);
        },
        StateType::BlockForeignAid { player, target } | StateType::BlockAssassination { player, target } => {
            lemma_next_player_active(target as int, player as int, m.hands);
        },
        StateType::BlockSteal { player, target, .. } => {
            lemma_next_player_active(target as int, player as int, m.hands);
        },
        StateType::Exchange { player } => {
            lemma_next_player_active(player as int, player as int, m.hands);
        },
        StateType::TookCards { player, .. } | StateType::DroppedCard { player, .. } => {
            if let ActionType::DropCard(c) = a.action_type {
                let m1 = m.return_card(player as int, c);
                lemma_next_player_bound(m1.hands);
                lemma_next_player_active(player as int, player as int, m1.hands);
            }
        },
        StateType::LostInfluence { player, current_player } => {
            if let ActionType::RevealCard(c) = a.action_type {
                let m1 = m.lose_influence(player as int, c);
                lemma_next_player_bound(m1.hands);
                lemma_next_player_active(current_player as int, current_player as int, m1.hands);
            }
        },
        StateType::Challenge { current_player, source, state } => {
            match state {
                ChallengeState::Initial { initiator, target, card } => {
                    if let ActionType::RevealCard(c) = a.action_type {
                        let m1 = m.lose_influence(target as int, c);
                        assert(m1.hands[initiator as int] > 0);
                        lemma_next_player_bound(m1.hands);
                        lemma_next_player_active(current_player as int, initiator as int, m1.hands);
                    }
                },
                ChallengeState::DeckShuffled { target } => {
                    if m.deck.pop_card(draw) is Some {
                        let (c, d) = m.deck.pop_card(draw).unwrap();
                        let m1 = m.take_card(target as int, c, d);
                        lemma_next_player_bound(m1.hands);
                        lemma_next_player_active(current_player as int, target as int, m1.hands);
                        lemma_next_player_active(claimant(*source) as int, target as int, m1.hands);
                    }
                },
                _ => {},
            }
        },
        _ => {},
    }
}

proof fn lemma_real_hand_change(m: StateModel, p: int, h: crate::cards::Pile, m2: StateModel)
    requires
        real_cards(m),
        0 <= p < m.cards.len(),
        h.exact && h.is_real(),
        m2.cards == m.cards.update(p, h),
        m2.deck.is_real(),
    ensures
        real_cards(m2),
{
    assert forall|q: int| 0 <= q < m2.cards.len() implies (#[trigger] m2.cards[q]).exact && m2.cards[q].is_real() by {
        if q != p {
            assert(m2.cards[q] == m.cards[q]);
        }
    }
}

/// In a game whose cards are all real and known, every move accepted with the deck drawn from
/// its top keeps them so.
pub proof fn lemma_transition_real(m: StateModel, a: Action)
    requires
        m.wf(),
        real_cards(m),
        transition(m, a, DeckDraw::Top) is Ok,
    ensures
        real_cards(transition(m, a, DeckDraw::Top).unwrap()),
{
    let m2 = transition(m, a, DeckDraw::Top).unwrap();
    match m.state_type {
        StateType::LostInfluence { player, .. } => {
            if let ActionType::RevealCard(c) = a.action_type {
                let p = player as int;
                m.cards[p].lemma_real_drop(c);
                lemma_real_hand_change(m, p, m.cards[p].drop_card(c), m2);
            }
        },
        StateType::TookCards { player, .. } | StateType::DroppedCard { player, .. } => {
            if let ActionType::DropCard(c) = a.action_type {
                let p = player as int;
                assert(c != Card::Unknown);
                m.cards[p].lemma_real_drop(c);
                m.deck.lemma_real_push(c);
                lemma_real_hand_change(m, p, m.cards[p].drop_card(c), m2);
            }
        },
        StateType::NeedCards { player, .. } => {
            let p = player as int;
            m.deck.lemma_real_pop();
            let (c, d) = m.deck.pop_card(DeckDraw::Top).unwrap();
            m.cards[p].lemma_real_add(c);
            lemma_real_hand_change(m, p, m.cards[p].add_card(c), m2);
        },
        StateType::Challenge { state, .. } => {
            match state {
                ChallengeState::Initial { initiator, target, card } => {
                    let p = target as int;
                    match a.action_type {
                        ActionType::ShowCard(_) => {
                            assert(card != Card::Unknown);
                            m.cards[p].lemma_real_drop(card);
                            m.deck.lemma_real_push(card);
                            lemma_real_hand_change(m, p, m.cards[p].drop_card(card), m2);
                        },
                        ActionType::RevealCard(c) => {
                            m.cards[p].lemma_real_drop(c);
                            lemma_real_hand_change(m, p, m.cards[p].drop_card(c), m2);
                        },
                        _ => {},
                    }
                },
                ChallengeState::ShownCard { initiator, .. } => {
                    if let ActionType::RevealCard(c) = a.action_type {
                        let p = initiator as int;
                        m.cards[p].lemma_real_drop(c);
                        lemma_real_hand_change(m, p, m.cards[p].drop_card(c), m2);
                    }
                },
                ChallengeState::DeckShuffled { target } => {
                    let p = target as int;
                    m.deck.lemma_real_pop();
                    let (c, d) = m.deck.pop_card(DeckDraw::Top).unwrap();
                    m.cards[p].lemma_real_add(c);
                    lemma_real_hand_change(m, p, m.cards[p].add_card(c), m2);
                },
                _ => {},
            }
        },
        _ => {},
    }
}

} // verus!
