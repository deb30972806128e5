use vstd::prelude::*;

use crate::belief::{
    beliefs_sorted, copy_state, copies_to_place, is_placement, piles_sorted, held_up_to_order, holds_state, initial_seats, is_initial_belief, is_pick,
    no_repeats, normalize, placement, GameState,
};
use crate::bots::{action_of, observed, ActionTypeView, ActionView};
use crate::cards::{count_of, Card, DeckDraw, Pile};
use crate::fsm::{play_action, transition, Action, ActionType, State, StateModel};
use crate::game::{PlayerView, Settings};

verus! {

/// The result of playing `a` in a belief, drawing as `draw` says.
fn advance(s: &State, a: Action, draw: DeckDraw) -> (r: GameState)
    requires
        s@.wf(),
    ensures
        r.valid == (transition(s@, a, draw) is Ok),
        r.valid ==> r.state@ == transition(s@, a, draw).unwrap() && r.state@.wf(),
{
    let mut state = copy_state(s);
    let result = play_action(&a, &mut state, draw, None);
    proof {
        if result is Ok {
            crate::laws::lemma_transition_wf(s@, a, draw);
        }
    }
    GameState { valid: result.is_ok(), state }
}

/// The card that the player drew: the first card of the new hand that differs from the
/// belief's hand, or else its last card.
pub open spec fn drawn_from(view: Seq<Card>, hand: Seq<Card>, i: int) -> Option<Card>
    decreases view.len() - i,
{
    if i < 0 || i >= view.len() || i >= hand.len() {
        if view.len() > 0 {
            Some(view.last())
        } else {
            None
        }
    } else if view[i] != hand[i] {
        Some(view[i])
    } else {
        drawn_from(view, hand, i + 1)
    }
}

fn drawn_card(view: &Vec<Card>, hand: &Vec<Card>) -> (r: Option<Card>)
    ensures
        r == drawn_from(view@, hand@, 0),
{
    let mut i: usize = 0;
    while i < view.len() && i < hand.len()
        invariant
            i <= view@.len(),
            drawn_from(view@, hand@, i as int) == drawn_from(view@, hand@, 0),
        decreases view@.len() - i,
    {
        if view[i] != hand[i] {
            return Some(view[i]);
        }
        i = i + 1;
    }
    if view.len() > 0 {
        Some(view[view.len() - 1])
    } else {
        None
    }
}

/// What the tracking player's own move `a` leaves of the belief `s`, given what the player
/// sees after it: a belief in which the deck shrank draws the card that the new hand shows.
#[verifier::opaque]
pub open spec fn after_own_move(s: StateModel, view_deck: usize, view_cards: Seq<Card>, a: Action) -> Option<StateModel> {
    if s.deck.count() > view_deck {
        if a.player >= s.n() {
            None
        } else {
            match drawn_from(view_cards, s.cards[a.player as int].known, 0) {
                None => None,
                Some(c) => if !s.deck.has_card(c) {
                    None
                } else {
                    match transition(s, a, DeckDraw::Known(c)) {
                        Ok(m) => Some(m),
                        Err(_) => None,
                    }
                },
            }
        }
    } else {
        match transition(s, a, DeckDraw::Top) {
            Ok(m) => Some(m),
            Err(_) => None,
        }
    }
}

/// Some belief among the first `upto` of `s` becomes `m` after the tracking player's own move.
pub open spec fn made_by_own_move(s: Seq<GameState>, upto: int, view_deck: usize, view_cards: Seq<Card>, a: Action, m: StateModel) -> bool {
    exists|k: int| 0 <= k < upto && #[trigger] after_own_move(s[k].state@, view_deck, view_cards, a) == Some(m)
}

/// `m` is what some move of `player` observed as `seen` makes of the belief `s`.
#[verifier::opaque]
pub open spec fn explained_by(s: StateModel, m: StateModel, player: usize, seen: ActionTypeView) -> bool {
    exists|t: ActionType, d: DeckDraw|
        observed(t) == seen && #[trigger] transition(s, Action { player, action_type: t }, d) == Ok::<StateModel, crate::fsm::Error>(m)
}

/// Some belief among the first `upto` of `s` becomes `m` after an opponent's move seen as `seen`.
pub open spec fn made_by_opponent(
    s: Seq<GameState>,
    upto: int,
    view_counters: Seq<usize>,
    view_revealed: nat,
    view_deck: usize,
    seen: ActionView,
    m: StateModel,
) -> bool {
    exists|k: int| 0 <= k < upto && #[trigger] opponent_makes(s[k].state@, view_counters, view_revealed, view_deck, seen, m)
}

/// `m` is what a move of `player` observed as `seen` makes of one of the first `upto` beliefs of `s`.
pub open spec fn explained(s: Seq<GameState>, upto: int, m: StateModel, player: usize, seen: ActionTypeView) -> bool {
    exists|i: int| 0 <= i < upto && #[trigger] explained_by(s[i].state@, m, player, seen)
}

proof fn lemma_explains(s: StateModel, a: Action, d: DeckDraw, seen: ActionTypeView)
    requires
        transition(s, a, d) is Ok,
        observed(a.action_type) == seen,
    ensures
        explained_by(s, transition(s, a, d).unwrap(), a.player, seen),
{
    reveal(explained_by);
    let m = transition(s, a, d).unwrap();
    assert(transition(s, Action { player: a.player, action_type: a.action_type }, d) == Ok::<StateModel, crate::fsm::Error>(m));
}

/// Every valid belief of `next` is well formed.
pub open spec fn valid_wf(next: Seq<GameState>) -> bool {
    forall|k: int| 0 <= k < next.len() ==> (#[trigger] next[k]).valid ==> next[k].state@.wf()
}

/// Every model held in `next` was held in `base` or comes from `s` by a move seen as `seen`.
pub open spec fn sound_step(next: Seq<GameState>, base: Seq<GameState>, s: StateModel, player: usize, seen: ActionTypeView) -> bool {
    forall|m: StateModel| #[trigger] holds_state(next, m) ==> holds_state(base, m) || explained_by(s, m, player, seen)
}

/// Appends what the move `a`, seen as `seen`, makes of the belief `s`.
fn push_advanced(next: &mut Vec<GameState>, s: &State, a: Action, d: DeckDraw, Ghost(base): Ghost<Seq<GameState>>, seen: ActionTypeView)
    requires
        s@.wf(),
        observed(a.action_type) == seen,
        valid_wf(old(next)@),
        sound_step(old(next)@, base, s@, a.player, seen),
    ensures
        valid_wf(final(next)@),
        sound_step(final(next)@, base, s@, a.player, seen),
        final(next)@.len() == old(next)@.len() + 1,
        forall|m: StateModel| #[trigger] holds_state(final(next)@, m) <==> holds_state(old(next)@, m)
            || transition(s@, a, d) == Ok::<StateModel, crate::fsm::Error>(m),
{
    let g = advance(s, a, d);
    proof {
        if g.valid {
            lemma_explains(s@, a, d, seen);
        }
    }
    let ghost prev = next@;
    push_belief(next, g);
    proof {
        assert forall|k: int| 0 <= k < next@.len() implies (#[trigger] next@[k]).valid ==> next@[k].state@.wf() by {
            if k < prev.len() {
                assert(prev[k] == next@[k]);
            }
        }
    }
}

/// Moves after which one belief may split into several: a card returned to the deck, shown, or
/// drawn, unseen.
pub open spec fn splits(seen: ActionTypeView) -> bool {
    seen == ActionTypeView::DropCard || seen is ShowCard || seen == ActionTypeView::TakeCard
}

/// Returning the `k`-th known card, for some `k < upto`, of the hand of `p` in `s` gives `m`.
pub open spec fn known_drop_makes(s: StateModel, p: usize, upto: int, m: StateModel) -> bool {
    exists|k: int| 0 <= k < upto && #[trigger] transition(
        s,
        Action { player: p, action_type: ActionType::DropCard(s.cards[p as int].known[k]) },
        DeckDraw::Top,
    ) == Ok::<StateModel, crate::fsm::Error>(m)
}

/// Drawing the `k`-th known card of the deck, for some `k < upto`, gives `m`.
pub open spec fn known_take_makes(s: StateModel, p: usize, upto: int, m: StateModel) -> bool {
    exists|k: int| 0 <= k < upto && #[trigger] transition(
        s,
        Action { player: p, action_type: ActionType::TakeCard },
        DeckDraw::Known(s.deck.known[k]),
    ) == Ok::<StateModel, crate::fsm::Error>(m)
}

/// The beliefs that a move of an opponent, seen as `seen`, makes of the belief `s`, given
/// what the tracking player sees after it (the counts of cards held, the number of revealed
/// cards, the size of the deck). A move that changes no card count is replayed as seen; a
/// revealed card is replayed; a card returned or shown is each known card of the hand and an
/// unknown one; a drawn card is each known card of the deck and an unknown one.
#[verifier::opaque]
pub open spec fn opponent_makes(
    s: StateModel,
    view_counters: Seq<usize>,
    view_revealed: nat,
    view_deck: usize,
    seen: ActionView,
    m: StateModel,
) -> bool {
    let p = seen.player;
    if p >= s.counters.len() || p >= view_counters.len() {
        false
    } else if s.counters[p as int] == view_counters[p as int] {
        match action_of(seen.action_type) {
            Some(t) => transition(s, Action { player: p, action_type: t }, DeckDraw::Top) == Ok::<StateModel, crate::fsm::Error>(m),
            None => false,
        }
    } else if s.revealed.len() != view_revealed {
        match seen.action_type {
            ActionTypeView::RevealCard(c) => transition(
                s,
                Action { player: p, action_type: ActionType::RevealCard(c) },
                DeckDraw::Top,
            ) == Ok::<StateModel, crate::fsm::Error>(m),
            _ => false,
        }
    } else if s.deck.count() < view_deck {
        match seen.action_type {
            ActionTypeView::DropCard => known_drop_makes(s, p, s.cards[p as int].known.len() as int, m) || (
            s.cards[p as int].unknown > 0 && transition(
                s,
                Action { player: p, action_type: ActionType::DropCard(Card::Unknown) },
                DeckDraw::Top,
            ) == Ok::<StateModel, crate::fsm::Error>(m)),
            ActionTypeView::ShowCard(c) => (s.cards[p as int].known.len() > 0 || s.cards[p as int].unknown > 0)
                && transition(
                s,
                Action { player: p, action_type: ActionType::ShowCard(c) },
                DeckDraw::Top,
            ) == Ok::<StateModel, crate::fsm::Error>(m),
            _ => false,
        }
    } else if s.deck.count() > view_deck {
        seen.action_type == ActionTypeView::TakeCard && (known_take_makes(s, p, s.deck.known.len() as int, m) || (
        s.deck.unknown > 0 && transition(
            s,
            Action { player: p, action_type: ActionType::TakeCard },
            DeckDraw::Unknown,
        ) == Ok::<StateModel, crate::fsm::Error>(m)))
    } else {
        false
    }
}

/// Appends every belief that the opponent's move seen as `seen` may make of `s`.
fn opponent_move_beliefs(next: &mut Vec<GameState>, s: &State, view: &PlayerView, seen: &ActionView)
    requires
        s@.wf(),
        valid_wf(old(next)@),
    ensures
        valid_wf(final(next)@),
        sound_step(final(next)@, old(next)@, s@, seen.player, seen.action_type),
        !splits(seen.action_type) ==> final(next)@.len() <= old(next)@.len() + 1,
        forall|m: StateModel| #[trigger] holds_state(final(next)@, m) <==> holds_state(old(next)@, m)
            || opponent_makes(s@, view.player_cards@, view.revealed_cards@.len(), view.deck, *seen, m),
{
    let ghost base = next@;
    let ghost vc = view.player_cards@;
    let ghost vr = view.revealed_cards@.len();
    let p = seen.player;
    let st = seen.action_type;
    proof {
        crate::fsm::lemma_sum_nonneg(s@.counters);
    }
    if p >= s.player_cards_counter.len() || p >= view.player_cards.len() {
        assert forall|m: StateModel| #[trigger] holds_state(next@, m) <==> holds_state(base, m)
            || opponent_makes(s@, vc, vr, view.deck, *seen, m) by {
            reveal(opponent_makes);
        }
        return;
    }
    if s.player_cards_counter[p] == view.player_cards[p] {
        match st.as_action_type() {
            Some(t) => push_advanced(next, s, Action { player: p, action_type: t }, DeckDraw::Top, Ghost(base), st),
            None => {},
        }
        assert forall|m: StateModel| #[trigger] holds_state(next@, m) <==> holds_state(base, m)
            || opponent_makes(s@, vc, vr, view.deck, *seen, m) by {
            reveal(opponent_makes);
        }
    } else if s.revealed_cards.len() != view.revealed_cards.len() {
        match st {
            ActionTypeView::RevealCard(card) => push_advanced(
                next,
                s,
                Action { player: p, action_type: ActionType::RevealCard(card) },
                DeckDraw::Top,
                Ghost(base),
                st,
            ),
            _ => {},
        }
        assert forall|m: StateModel| #[trigger] holds_state(next@, m) <==> holds_state(base, m)
            || opponent_makes(s@, vc, vr, view.deck, *seen, m) by {
            reveal(opponent_makes);
        }
    } else if s.deck.len() < view.deck {
        let hand = &s.player_cards[p];
        match st {
            ActionTypeView::DropCard => {
                let mut k: usize = 0;
                while k < hand.known_len()
                    invariant
                        s@.wf(),
                        p < s@.n(),
                        hand@ == s@.cards[p as int],
                        st == ActionTypeView::DropCard,
                        k <= hand@.known.len(),
                        valid_wf(next@),
                        sound_step(next@, base, s@, p, st),
                        forall|m: StateModel| #[trigger] holds_state(next@, m) <==> holds_state(base, m)
                            || known_drop_makes(s@, p, k as int, m),
                    decreases hand@.known.len() - k,
                {
                    let c = hand.get_known(k);
                    let ghost prev = next@;
                    push_advanced(next, s, Action { player: p, action_type: ActionType::DropCard(c) }, DeckDraw::Top, Ghost(base), st);
                    proof {
                        assert forall|m: StateModel| #[trigger] holds_state(next@, m) <==> holds_state(base, m)
                            || known_drop_makes(s@, p, k + 1, m) by {
                            if known_drop_makes(s@, p, k + 1, m) && !known_drop_makes(s@, p, k as int, m) {
                                let j = choose|j: int| 0 <= j < k + 1 && #[trigger] transition(
                                    s@,
                                    Action { player: p, action_type: ActionType::DropCard(s@.cards[p as int].known[j]) },
                                    DeckDraw::Top,
                                ) == Ok::<StateModel, crate::fsm::Error>(m);
                                assert(j == k);
                            }
                            if transition(s@, Action { player: p, action_type: ActionType::DropCard(c) }, DeckDraw::Top)
                                == Ok::<StateModel, crate::fsm::Error>(m) {
                                assert(known_drop_makes(s@, p, k + 1, m));
                            }
                        }
                    }
                    k = k + 1;
                }
                if hand.has_any() {
                    push_advanced(next, s, Action { player: p, action_type: ActionType::DropCard(Card::Unknown) }, DeckDraw::Top, Ghost(base), st);
                }
                assert forall|m: StateModel| #[trigger] holds_state(next@, m) <==> holds_state(base, m)
                    || opponent_makes(s@, vc, vr, view.deck, *seen, m) by {
                    reveal(opponent_makes);
                }
            },
            ActionTypeView::ShowCard(card) => {
                if hand.known_len() > 0 || hand.has_any() {
                    push_advanced(next, s, Action { player: p, action_type: ActionType::ShowCard(card) }, DeckDraw::Top, Ghost(base), st);
                }
                assert forall|m: StateModel| #[trigger] holds_state(next@, m) <==> holds_state(base, m)
                    || opponent_makes(s@, vc, vr, view.deck, *seen, m) by {
                    reveal(opponent_makes);
                }
            },
            _ => {
                assert forall|m: StateModel| #[trigger] holds_state(next@, m) <==> holds_state(base, m)
                    || opponent_makes(s@, vc, vr, view.deck, *seen, m) by {
                    reveal(opponent_makes);
                }
            },
        }
    } else if s.deck.len() > view.deck {
        if st != ActionTypeView::TakeCard {
            assert forall|m: StateModel| #[trigger] holds_state(next@, m) <==> holds_state(base, m)
                || opponent_makes(s@, vc, vr, view.deck, *seen, m) by {
                reveal(opponent_makes);
            }
            return;
        }
        let mut k: usize = 0;
        while k < s.deck.known.len()
            invariant
                s@.wf(),
                st == ActionTypeView::TakeCard,
                k <= s@.deck.known.len(),
                valid_wf(next@),
                sound_step(next@, base, s@, p, st),
                forall|m: StateModel| #[trigger] holds_state(next@, m) <==> holds_state(base, m)
                    || known_take_makes(s@, p, k as int, m),
            decreases s@.deck.known.len() - k,
        {
            let card = s.deck.known[k];
            push_advanced(next, s, Action { player: p, action_type: ActionType::TakeCard }, DeckDraw::Known(card), Ghost(base), st);
            proof {
                assert forall|m: StateModel| #[trigger] holds_state(next@, m) <==> holds_state(base, m)
                    || known_take_makes(s@, p, k + 1, m) by {
                    if known_take_makes(s@, p, k + 1, m) && !known_take_makes(s@, p, k as int, m) {
                        let j = choose|j: int| 0 <= j < k + 1 && #[trigger] transition(
                            s@,
                            Action { player: p, action_type: ActionType::TakeCard },
                            DeckDraw::Known(s@.deck.known[j]),
                        ) == Ok::<StateModel, crate::fsm::Error>(m);
                        assert(j == k);
                    }
                    if transition(s@, Action { player: p, action_type: ActionType::TakeCard }, DeckDraw::Known(card))
                        == Ok::<StateModel, crate::fsm::Error>(m) {
                        assert(known_take_makes(s@, p, k + 1, m));
                    }
                }
            }
            k = k + 1;
        }
        if s.deck.has_any() {
            push_advanced(next, s, Action { player: p, action_type: ActionType::TakeCard }, DeckDraw::Unknown, Ghost(base), st);
        }
        assert forall|m: StateModel| #[trigger] holds_state(next@, m) <==> holds_state(base, m)
            || opponent_makes(s@, vc, vr, view.deck, *seen, m) by {
            reveal(opponent_makes);
        }
    } else {
        assert forall|m: StateModel| #[trigger] holds_state(next@, m) <==> holds_state(base, m)
            || opponent_makes(s@, vc, vr, view.deck, *seen, m) by {
            reveal(opponent_makes);
        }
    }
}

/// Number of known copies of `c` in the hands.
pub open spec fn known_count(cards: Seq<Pile>, c: Card) -> nat
    decreases cards.len(),
{
    if cards.len() == 0 {
        0
    } else {
        known_count(cards.drop_last(), c) + count_of(cards.last().known, c)
    }
}

proof fn lemma_known_count_prefix(cards: Seq<Pile>, c: Card, i: int)
    requires
        0 <= i <= cards.len(),
    ensures
        known_count(cards.subrange(0, i), c) <= known_count(cards, c),
    decreases cards.len() - i,
{
    if i < cards.len() {
        lemma_known_count_prefix(cards, c, i + 1);
        assert(cards.subrange(0, i + 1).drop_last() =~= cards.subrange(0, i));
    } else {
        assert(cards.subrange(0, i) =~= cards);
    }
}

/// Number of copies of `c` whose place is known: in a hand or in the deck.
pub open spec fn placed_count(m: StateModel, c: Card) -> nat {
    known_count(m.cards, c) + count_of(m.deck.known, c)
}

/// An opponent of `player` is known to hold `c`.
pub open spec fn held_by_opponent(cards: Seq<Pile>, player: usize, c: Card) -> bool {
    exists|p: int| 0 <= p < cards.len() && p != player && (#[trigger] cards[p]).known.contains(c)
}

/// The card that the move seen last claims, if it claims one.
pub open spec fn claim_of(seen: ActionTypeView) -> Option<Card> {
    match seen {
        ActionTypeView::Tax | ActionTypeView::BlockForeignAid => Some(Card::Duke),
        ActionTypeView::Assassinate(..) => Some(Card::Assassin),
        ActionTypeView::Exchange => Some(Card::Ambassador),
        ActionTypeView::Steal(..) => Some(Card::Captain),
        ActionTypeView::BlockAssassination => Some(Card::Contessa),
        ActionTypeView::BlockSteal(c) => Some(c),
        _ => None,
    }
}

/// In the belief `m`, a move of `player` of kind `t` cannot be met by a counter that the
/// belief allows: every copy of the card that could counter it is placed (in a hand or in the
/// deck), and not with an opponent; a challenge is safe when every copy of the claimed card is placed away from the
/// claimant.
pub open spec fn is_safe_in(m: StateModel, player: usize, t: ActionType, last: Option<ActionView>, cards_per_type: usize) -> bool {
    match t {
        ActionType::ForeignAid => placed_count(m, Card::Duke) == cards_per_type && !held_by_opponent(m.cards, player, Card::Duke),
        ActionType::Assassinate(..) => placed_count(m, Card::Duke) == cards_per_type && !held_by_opponent(m.cards, player, Card::Contessa),
        ActionType::Steal(..) => placed_count(m, Card::Ambassador) == cards_per_type
            && held_by_opponent(m.cards, player, Card::Ambassador)
            && placed_count(m, Card::Captain) == cards_per_type
            && held_by_opponent(m.cards, player, Card::Captain),
        ActionType::Challenge => match last {
            None => true,
            Some(v) => match claim_of(v.action_type) {
                None => true,
                Some(c) => !(v.player < m.cards.len() && m.cards[v.player as int].known.contains(c))
                    && placed_count(m, c) == cards_per_type,
            },
        },
        _ => true,
    }
}

impl GameState {
    /// Whether the known copies of `card`, in the hands and in the deck, number exactly
    /// `cards_per_type`.
    pub fn count_known_is(&self, card: Card, cards_per_type: usize) -> (r: bool)
        ensures
            r == (placed_count(self.state@, card) == cards_per_type),
    {
        let hands = &self.state.player_cards;
        let mut acc: usize = 0;
        let mut p: usize = 0;
        while p < hands.len()
            invariant
                p <= hands@.len(),
                hands@.map_values(|h: crate::cards::GamePlayerCards| h@) == self.state@.cards,
                acc == known_count(self.state@.cards.subrange(0, p as int), card),
                acc <= cards_per_type,
            decreases hands@.len() - p,
        {
            let k = hands[p].count_known(card);
            proof {
                assert(self.state@.cards.subrange(0, p as int + 1).drop_last() =~= self.state@.cards.subrange(0, p as int));
                assert(self.state@.cards[p as int] == hands@[p as int]@);
            }
            if k > cards_per_type - acc {
                proof {
                    lemma_known_count_prefix(self.state@.cards, card, p as int + 1);
                }
                return false;
            }
            acc = acc + k;
            p = p + 1;
        }
        proof {
            assert(self.state@.cards.subrange(0, p as int) =~= self.state@.cards);
        }
        let in_deck = crate::cards::count_card(&self.state.deck.known, card);
        in_deck == cards_per_type - acc
    }

    pub fn is_card_hold_by_opponent(&self, player: usize, card: Card) -> (r: bool)
        ensures
            r == held_by_opponent(self.state@.cards, player, card),
    {
        let hands = &self.state.player_cards;
        let mut p: usize = 0;
        while p < hands.len()
            invariant
                p <= hands@.len(),
                hands@.map_values(|h: crate::cards::GamePlayerCards| h@) == self.state@.cards,
                forall|q: int| 0 <= q < p && q != player ==> !(#[trigger] self.state@.cards[q]).known.contains(card),
            decreases hands@.len() - p,
        {
            if p != player && hands[p].contains_known(card) {
                proof {
                    assert(self.state@.cards[p as int] == hands@[p as int]@);
                }
                return true;
            }
            proof {
                assert(self.state@.cards[p as int] == hands@[p as int]@);
            }
            p = p + 1;
        }
        false
    }

    pub fn is_safe_action_type(&self, player: usize, action_type: &ActionType, last_action: Option<ActionView>, cards_per_type: usize) -> (r: bool)
        ensures
            r == is_safe_in(self.state@, player, *action_type, last_action, cards_per_type),
    {
        match action_type {
            ActionType::ForeignAid => self.count_known_is(Card::Duke, cards_per_type) && !self.is_card_hold_by_opponent(player, Card::Duke),
            ActionType::Assassinate(..) => self.count_known_is(Card::Duke, cards_per_type) && !self.is_card_hold_by_opponent(player, Card::Contessa),
            ActionType::Steal(..) => self.count_known_is(Card::Ambassador, cards_per_type)
                && self.is_card_hold_by_opponent(player, Card::Ambassador)
                && self.count_known_is(Card::Captain, cards_per_type)
                && self.is_card_hold_by_opponent(player, Card::Captain),
            ActionType::Challenge => match last_action {
                None => true,
                Some(v) => {
                    let claimed = match v.action_type {
                        ActionTypeView::Tax | ActionTypeView::BlockForeignAid => Card::Duke,
                        ActionTypeView::Assassinate(..) => Card::Assassin,
                        ActionTypeView::Exchange => Card::Ambassador,
                        ActionTypeView::Steal(..) => Card::Captain,
                        ActionTypeView::BlockAssassination => Card::Contessa,
                        ActionTypeView::BlockSteal(card) => card,
                        _ => return true,
                    };
                    let shown = v.player < self.state.player_cards.len() && self.state.player_cards[v.player].contains_known(claimed);
                    !shown && self.count_known_is(claimed, cards_per_type)
                },
            },
            _ => true,
        }
    }
}

/// Appends `g` to `next`.
fn push_belief(next: &mut Vec<GameState>, g: GameState)
    ensures
        final(next)@ == old(next)@.push(g),
        forall|m: StateModel| #[trigger] holds_state(final(next)@, m) <==> holds_state(old(next)@, m) || (g.valid && g.state@ == m),
{
    let ghost prev = next@;
    next.push(g);
    proof {
        assert forall|m: StateModel| #[trigger] holds_state(next@, m) <==> holds_state(prev, m) || (g.valid && g.state@ == m) by {
            if holds_state(next@, m) {
                let j = choose|j: int| 0 <= j < next@.len() && next@[j].valid && #[trigger] next@[j].state@ == m;
                if j < prev.len() {
                    assert(prev[j] == next@[j]);
                }
            }
            if holds_state(prev, m) {
                let j = choose|j: int| 0 <= j < prev.len() && prev[j].valid && #[trigger] prev[j].state@ == m;
                assert(next@[j] == prev[j]);
            }
            if g.valid && g.state@ == m {
                assert(next@[prev.len() as int] == g);
            }
        }
    }
}

/// The belief `s` after the tracking player's own move.
fn own_move_belief(s: &State, view: &PlayerView, action: &Action) -> (g: GameState)
    requires
        s@.wf(),
    ensures
        g.valid ==> after_own_move(s@, view.deck, view.cards@, *action) == Some(g.state@) && g.state@.wf(),
        !g.valid ==> after_own_move(s@, view.deck, view.cards@, *action) is None,
{
    proof {
        crate::fsm::lemma_sum_nonneg(s@.counters);
        reveal(after_own_move);
    }
    if s.deck.len() > view.deck {
        if action.player >= s.player_cards.len() {
            GameState { valid: false, state: copy_state(s) }
        } else {
            let hand = match &s.player_cards[action.player] {
                crate::cards::GamePlayerCards::Player(cards) => cards,
                crate::cards::GamePlayerCards::Opponent(cards) => &cards.known,
            };
            match drawn_card(&view.cards, hand) {
                None => GameState { valid: false, state: copy_state(s) },
                Some(card) => {
                    if !s.deck.has_any() && !s.deck.contains_known(card) {
                        GameState { valid: false, state: copy_state(s) }
                    } else {
                        advance(s, *action, DeckDraw::Known(card))
                    }
                },
            }
        }
    } else {
        advance(s, *action, DeckDraw::Top)
    }
}

/// The beliefs of one player: every state of the game that the public history and the
/// player's own hand allow.
#[derive(Debug, Clone)]
pub struct CardsTracker {
    pub player: usize,
    pub cards_per_type: usize,
    pub game_states: Vec<GameState>,
    pub last_action: Option<ActionView>,
}

impl CardsTracker {
    pub open spec fn wf(&self) -> bool {
        &&& forall|i: int| 0 <= i < self.game_states@.len() ==> (#[trigger] self.game_states@[i]).valid
        &&& forall|i: int| 0 <= i < self.game_states@.len() ==> (#[trigger] self.game_states@[i]).state@.wf()
        &&& no_repeats(self.game_states@)
        &&& beliefs_sorted(self.game_states@)
    }

    pub fn new(player: usize, hand: &Vec<Card>, settings: &Settings) -> (r: Self)
        requires
            hand@.len() == crate::fsm::CARDS_PER_PLAYER,
            player < settings.players_number,
            crate::fsm::CARDS_PER_PLAYER * settings.players_number <= 5 * settings.cards_per_type,
            5 * settings.cards_per_type <= usize::MAX,
        ensures
            r.wf(),
            r.player == player,
            r.cards_per_type == settings.cards_per_type,
            r.last_action is None,
            r.game_states@.len() > 0,
            forall|i: int| 0 <= i < r.game_states@.len() ==> is_initial_belief((#[trigger] r.game_states@[i]).state@, player, *settings),
            forall|i: int| 0 <= i < r.game_states@.len() ==> (#[trigger] r.game_states@[i]).state@.cards[player as int].known.to_multiset() == hand@.to_multiset(),
            forall|i: int| 0 <= i < r.game_states@.len() ==> is_placement(player, hand@, *settings, (#[trigger] r.game_states@[i]).state@),
            forall|i: int| 0 <= i < r.game_states@.len() ==> piles_sorted((#[trigger] r.game_states@[i]).state@),
            forall|idx1: Seq<int>, idx2: Seq<int>|
                is_pick(idx1, initial_seats(player, *settings).len() as int, copies_to_place(hand@, *settings) as int)
                && is_pick(idx2, initial_seats(player, *settings).len() as int, copies_to_place(hand@, *settings) as int)
                && #[trigger] placement(player, hand@, *settings, idx1, idx2) is Some
                ==> held_up_to_order(r.game_states@, placement(player, hand@, *settings, idx1, idx2).unwrap()),
    {
        CardsTracker {
            player,
            cards_per_type: settings.cards_per_type,
            game_states: GameState::initial(player, hand, settings),
            last_action: None,
        }
    }

    /// Whether no belief allows a counter to the move `action_type` of `player`.
    pub fn is_safe_action_type(&self, player: usize, action_type: &ActionType) -> (r: bool)
        ensures
            r == forall|i: int| 0 <= i < self.game_states@.len() ==> is_safe_in(
                (#[trigger] self.game_states@[i]).state@,
                player,
                *action_type,
                self.last_action,
                self.cards_per_type,
            ),
    {
        let mut i: usize = 0;
        while i < self.game_states.len()
            invariant
                i <= self.game_states@.len(),
                forall|k: int| 0 <= k < i ==> is_safe_in(
                    (#[trigger] self.game_states@[k]).state@,
                    player,
                    *action_type,
                    self.last_action,
                    self.cards_per_type,
                ),
            decreases self.game_states@.len() - i,
        {
            if !self.game_states[i].is_safe_action_type(player, action_type, self.last_action, self.cards_per_type) {
                return false;
            }
            i = i + 1;
        }
        true
    }

    /// Follows the tracking player's own move `action`, after which the player sees `view`.
    pub fn after_player_action(&mut self, view: &PlayerView, action: &Action)
        requires
            old(self).wf(),
        ensures
            final(self).wf(),
            final(self).player == old(self).player,
            final(self).cards_per_type == old(self).cards_per_type,
            final(self).last_action == Some(ActionView { player: action.player, action_type: observed(action.action_type) }),
            forall|m: StateModel| #[trigger] holds_state(final(self).game_states@, m) <==> made_by_own_move(
                old(self).game_states@,
                old(self).game_states@.len() as int,
                view.deck,
                view.cards@,
                *action,
                m,
            ),
            final(self).game_states@.len() <= old(self).game_states@.len(),
    {
        let ghost before = self.game_states@;
        let mut next: Vec<GameState> = Vec::new();
        let mut i: usize = 0;
        while i < self.game_states.len()
            invariant
                i <= self.game_states@.len(),
                self.game_states@ == before,
                forall|k: int| 0 <= k < before.len() ==> (#[trigger] before[k]).state@.wf(),
                forall|k: int| 0 <= k < next@.len() ==> (#[trigger] next@[k]).valid ==> next@[k].state@.wf(),
                forall|m: StateModel| #[trigger] holds_state(next@, m) <==> made_by_own_move(before, i as int, view.deck, view.cards@, *action, m),
                next@.len() == i,
            decreases before.len() - i,
        {
            let g = own_move_belief(&self.game_states[i].state, view, action);
            let ghost prev = next@;
            push_belief(&mut next, g);
            proof {
                assert forall|m: StateModel| #[trigger] holds_state(next@, m) <==> made_by_own_move(before, i + 1, view.deck, view.cards@, *action, m) by {
                    if made_by_own_move(before, i + 1, view.deck, view.cards@, *action, m) {
                        let k = choose|k: int| 0 <= k < i + 1 && #[trigger] after_own_move(before[k].state@, view.deck, view.cards@, *action) == Some(m);
                        if k < i {
                            assert(made_by_own_move(before, i as int, view.deck, view.cards@, *action, m));
                        }
                    }
                    if made_by_own_move(before, i as int, view.deck, view.cards@, *action, m) {
                        let k = choose|k: int| 0 <= k < i && #[trigger] after_own_move(before[k].state@, view.deck, view.cards@, *action) == Some(m);
                        assert(made_by_own_move(before, i + 1, view.deck, view.cards@, *action, m));
                    }
                    if g.valid && g.state@ == m {
                        assert(after_own_move(before[i as int].state@, view.deck, view.cards@, *action) == Some(m));
                    }
                }
                assert forall|k: int| 0 <= k < next@.len() implies (#[trigger] next@[k]).valid ==> next@[k].state@.wf() by {
                    if k < prev.len() {
                        assert(prev[k] == next@[k]);
                    }
                }
            }
            i = i + 1;
        }
        let ghost collected = next@;
        let states = normalize(next);
        proof {
            assert forall|k: int| 0 <= k < states@.len() implies (#[trigger] states@[k]).state@.wf() by {
                assert(collected.contains(states@[k]));
                let j = choose|j: int| 0 <= j < collected.len() && collected[j] == states@[k];
                assert(collected[j].valid);
            }
        }
        self.game_states = states;
        self.last_action = Some(ActionView::from_action(action));
    }

    /// Follows a move of an opponent seen as `action_view`, after which the tracking player
    /// sees `view`. Where the move returns an unseen card to the deck or draws one, each
    /// belief splits into one per card that it could have been.
    pub fn after_opponent_action(&mut self, view: &PlayerView, action_view: &ActionView)
        requires
            old(self).wf(),
        ensures
            final(self).wf(),
            final(self).player == old(self).player,
            final(self).cards_per_type == old(self).cards_per_type,
            final(self).last_action == Some(*action_view),
            forall|m: StateModel| #[trigger] holds_state(final(self).game_states@, m) ==> explained(
                old(self).game_states@,
                old(self).game_states@.len() as int,
                m,
                action_view.player,
                action_view.action_type,
            ),
            forall|m: StateModel| #[trigger] holds_state(final(self).game_states@, m) <==> made_by_opponent(
                old(self).game_states@,
                old(self).game_states@.len() as int,
                view.player_cards@,
                view.revealed_cards@.len(),
                view.deck,
                *action_view,
                m,
            ),
            !splits(action_view.action_type) ==> final(self).game_states@.len() <= old(self).game_states@.len(),
    {
        let ghost before = self.game_states@;
        let mut next: Vec<GameState> = Vec::new();
        let mut i: usize = 0;
        while i < self.game_states.len()
            invariant
                i <= self.game_states@.len(),
                self.game_states@ == before,
                forall|k: int| 0 <= k < before.len() ==> (#[trigger] before[k]).state@.wf(),
                valid_wf(next@),
                forall|m: StateModel| #[trigger] holds_state(next@, m) ==> explained(before, i as int, m, action_view.player, action_view.action_type),
                forall|m: StateModel| #[trigger] holds_state(next@, m) <==> made_by_opponent(
                    before,
                    i as int,
                    view.player_cards@,
                    view.revealed_cards@.len(),
                    view.deck,
                    *action_view,
                    m,
                ),
                !splits(action_view.action_type) ==> next@.len() <= i,
            decreases before.len() - i,
        {
            let ghost prev = next@;
            opponent_move_beliefs(&mut next, &self.game_states[i].state, view, action_view);
            proof {
                assert forall|m: StateModel| #[trigger] holds_state(next@, m) implies explained(before, i + 1, m, action_view.player, action_view.action_type) by {
                    if holds_state(prev, m) {
                        let k = choose|k: int| 0 <= k < i && #[trigger] explained_by(before[k].state@, m, action_view.player, action_view.action_type);
                    } else {
                        assert(explained_by(before[i as int].state@, m, action_view.player, action_view.action_type));
                    }
                }
                assert forall|m: StateModel| #[trigger] holds_state(next@, m) <==> made_by_opponent(
                    before,
                    i + 1,
                    view.player_cards@,
                    view.revealed_cards@.len(),
                    view.deck,
                    *action_view,
                    m,
                ) by {
                    let vc = view.player_cards@;
                    let vr = view.revealed_cards@.len();
                    if made_by_opponent(before, i + 1, vc, vr, view.deck, *action_view, m) {
                        let k = choose|k: int| 0 <= k < i + 1 && #[trigger] opponent_makes(before[k].state@, vc, vr, view.deck, *action_view, m);
                        if k < i {
                            assert(made_by_opponent(before, i as int, vc, vr, view.deck, *action_view, m));
                        }
                    }
                    if made_by_opponent(before, i as int, vc, vr, view.deck, *action_view, m) {
                        let k = choose|k: int| 0 <= k < i && #[trigger] opponent_makes(before[k].state@, vc, vr, view.deck, *action_view, m);
                        assert(made_by_opponent(before, i + 1, vc, vr, view.deck, *action_view, m));
                    }
                    if opponent_makes(before[i as int].state@, vc, vr, view.deck, *action_view, m) {
                        assert(made_by_opponent(before, i + 1, vc, vr, view.deck, *action_view, m));
                    }
                }
            }
            i = i + 1;
        }
        let ghost collected = next@;
        let states = normalize(next);
        proof {
            assert forall|k: int| 0 <= k < states@.len() implies (#[trigger] states@[k]).state@.wf() by {
                assert(collected.contains(states@[k]));
                let j = choose|j: int| 0 <= j < collected.len() && collected[j] == states@[k];
                assert(collected[j].valid);
            }
        }
        self.game_states = states;
        self.last_action = Some(*action_view);
    }
}

} // verus!
