use vstd::prelude::*;

use crate::cards::Card;
use crate::fsm::{
    Action, ActionType, ChallengeState, StateType, ASSASSINATION_COST, COUP_COST, MAX_COINS,
};

verus! {

/// `x` can be the target of a move of `player`: another player, still in the game.
pub open spec fn is_target(player: usize, hands: Seq<usize>, x: usize) -> bool {
    x != player && x < hands.len() && hands[x as int] > 0
}

/// Another active player than `player` makes the move `a` of kind `t`.
pub open spec fn by_other(player: usize, hands: Seq<usize>, a: Action, t: ActionType) -> bool {
    a.action_type == t && is_target(player, hands, a.player)
}

pub open spec fn is_card(c: Card) -> bool {
    c != Card::Unknown
}

/// Moves open to `player` at the start of the turn.
pub open spec fn turn_allows(player: usize, coins: Seq<usize>, hands: Seq<usize>, t: ActionType) -> bool {
    if coins[player as int] >= MAX_COINS {
        t matches ActionType::Coup(x) && is_target(player, hands, x)
    } else {
        match t {
            ActionType::Income | ActionType::ForeignAid | ActionType::Tax | ActionType::Exchange => true,
            ActionType::Steal(x) => is_target(player, hands, x),
            ActionType::Assassinate(x) => is_target(player, hands, x) && coins[player as int]
                >= ASSASSINATION_COST,
            ActionType::Coup(x) => is_target(player, hands, x) && coins[player as int] >= COUP_COST,
            _ => false,
        }
    }
}

/// The moves that the enumerator offers in a state, given the public coins and hand sizes.
pub open spec fn is_available(st: StateType, coins: Seq<usize>, hands: Seq<usize>, a: Action) -> bool {
    match st {
        StateType::Turn { player } => a.player == player && turn_allows(player, coins, hands, a.action_type),
        StateType::ForeignAid { player } => by_other(player, hands, a, ActionType::BlockForeignAid)
            || a == (Action { player, action_type: ActionType::PassBlock }),
        StateType::Tax { player } | StateType::Exchange { player }
        | StateType::BlockForeignAid { player, .. } | StateType::BlockSteal { player, .. }
        | StateType::BlockAssassination { player, .. } => by_other(player, hands, a, ActionType::Challenge)
            || a == (Action { player, action_type: ActionType::PassChallenge }),
        StateType::Assassination { player, target, can_challenge } => if can_challenge {
            by_other(player, hands, a, ActionType::Challenge)
                || a == (Action { player, action_type: ActionType::PassChallenge })
        } else {
            (hands[target as int] > 0 && a == (Action { player: target, action_type: ActionType::BlockAssassination }))
                || a == (Action { player, action_type: ActionType::PassBlock })
        },
        StateType::Steal { player, target, can_challenge } => if can_challenge {
            by_other(player, hands, a, ActionType::Challenge)
                || a == (Action { player, action_type: ActionType::PassChallenge })
        } else {
            (hands[target as int] > 0 && a.player == target && (a.action_type == ActionType::BlockSteal(Card::Ambassador)
                || a.action_type == ActionType::BlockSteal(Card::Captain)))
                || a == (Action { player, action_type: ActionType::PassBlock })
        },
        StateType::Challenge { state, .. } => challenge_allows(state, a),
        StateType::NeedCards { player, .. } => a == (Action { player, action_type: ActionType::TakeCard }),
        StateType::TookCards { player, .. } | StateType::DroppedCard { player, .. } => a.player == player
            && (a.action_type matches ActionType::DropCard(c) && is_card(c)),
        StateType::LostInfluence { player, .. } => a.player == player && (
        a.action_type matches ActionType::RevealCard(c) && is_card(c)),
    }
}

/// The moves open in each step of a challenge.
pub open spec fn challenge_allows(c: ChallengeState, a: Action) -> bool {
    match c {
        ChallengeState::Initial { target, card, .. } => a.player == target && (a.action_type
            == ActionType::ShowCard(card) || (a.action_type matches ActionType::RevealCard(x)
            && is_card(x))),
        ChallengeState::ShownCard { initiator, .. } => a.player == initiator && (
        a.action_type matches ActionType::RevealCard(x) && is_card(x)),
        ChallengeState::InitiatorRevealedCard { target } => a == (Action {
            player: target,
            action_type: ActionType::ShuffleDeck,
        }),
        ChallengeState::DeckShuffled { target } => a == (Action {
            player: target,
            action_type: ActionType::TakeCard,
        }),
        _ => false,
    }
}

proof fn lemma_contains_five(s: Seq<Action>, a: Action)
    requires
        s.len() == 5,
    ensures
        s.contains(a) <==> (a == s[0] || a == s[1] || a == s[2] || a == s[3] || a == s[4]),
{
    if s.contains(a) {
        let k = choose|k: int| 0 <= k < s.len() && s[k] == a;
        assert(k == 0 || k == 1 || k == 2 || k == 3 || k == 4);
    }
    if a == s[0] { assert(s.contains(a)); }
    if a == s[1] { assert(s[1] == a); assert(s.contains(a)); }
    if a == s[2] { assert(s[2] == a); assert(s.contains(a)); }
    if a == s[3] { assert(s[3] == a); assert(s.contains(a)); }
    if a == s[4] { assert(s[4] == a); assert(s.contains(a)); }
}

proof fn lemma_empty_contains(s: Seq<Action>)
    requires
        s.len() == 0,
    ensures
        forall|a: Action| !s.contains(a),
{
    assert forall|a: Action| !s.contains(a) by {
        if s.contains(a) {
            let k = choose|k: int| 0 <= k < s.len() && s[k] == a;
        }
    }
}

/// The moves of kind `t` by each active seat in `lo..hi` but `target`, in seat order.
pub open spec fn moves_in(t: ActionType, target: usize, hands: Seq<usize>, lo: int, hi: int) -> Seq<Action>
    decreases hi - lo,
{
    if hi <= lo {
        Seq::empty()
    } else {
        let prev = moves_in(t, target, hands, lo, hi - 1);
        if hi - 1 != target && hands[hi - 1] > 0 {
            prev.push(Action { player: (hi - 1) as usize, action_type: t })
        } else {
            prev
        }
    }
}

/// The moves of kind `t` by every other active seat, going round the table from the seat after
/// `target`.
pub open spec fn moves_round(t: ActionType, target: usize, hands: Seq<usize>) -> Seq<Action> {
    moves_in(t, target, hands, target + 1, hands.len() as int) + moves_in(t, target, hands, 0, target as int)
}

/// Revealing each of the five cards, by `player`, in card order.
pub open spec fn reveal_moves(player: usize) -> Seq<Action> {
    seq![
        Action { player, action_type: ActionType::RevealCard(Card::Assassin) },
        Action { player, action_type: ActionType::RevealCard(Card::Ambassador) },
        Action { player, action_type: ActionType::RevealCard(Card::Captain) },
        Action { player, action_type: ActionType::RevealCard(Card::Contessa) },
        Action { player, action_type: ActionType::RevealCard(Card::Duke) },
    ]
}

/// Returning each of the five cards, by `player`, in card order.
pub open spec fn drop_moves(player: usize) -> Seq<Action> {
    seq![
        Action { player, action_type: ActionType::DropCard(Card::Assassin) },
        Action { player, action_type: ActionType::DropCard(Card::Ambassador) },
        Action { player, action_type: ActionType::DropCard(Card::Captain) },
        Action { player, action_type: ActionType::DropCard(Card::Contessa) },
        Action { player, action_type: ActionType::DropCard(Card::Duke) },
    ]
}

/// The moves against the seat `q` of a player holding `coins`: a coup alone at the
/// mandatory-coup limit, else a steal, then an assassination and a coup when affordable.
pub open spec fn moves_against(player: usize, coins: usize, q: usize) -> Seq<Action> {
    if coins >= MAX_COINS {
        seq![Action { player, action_type: ActionType::Coup(q) }]
    } else {
        seq![Action { player, action_type: ActionType::Steal(q) }]
            + (if coins >= ASSASSINATION_COST { seq![Action { player, action_type: ActionType::Assassinate(q) }] } else { Seq::empty() })
            + (if coins >= COUP_COST { seq![Action { player, action_type: ActionType::Coup(q) }] } else { Seq::empty() })
    }
}

/// The moves against every active other seat below `hi`, seat by seat.
pub open spec fn targeted_moves(player: usize, coins: usize, hands: Seq<usize>, hi: int) -> Seq<Action>
    decreases hi,
{
    if hi <= 0 {
        Seq::empty()
    } else {
        let prev = targeted_moves(player, coins, hands, hi - 1);
        if hi - 1 != player && hands[hi - 1] > 0 {
            prev + moves_against(player, coins, (hi - 1) as usize)
        } else {
            prev
        }
    }
}

/// The moves that open a turn, in order: income, foreign aid, tax and exchange (unless a coup
/// is mandatory), then the moves against each other active seat in seat order.
pub open spec fn turn_moves(player: usize, coins: Seq<usize>, hands: Seq<usize>) -> Seq<Action> {
    (if coins[player as int] < MAX_COINS {
        seq![
            Action { player, action_type: ActionType::Income },
            Action { player, action_type: ActionType::ForeignAid },
            Action { player, action_type: ActionType::Tax },
            Action { player, action_type: ActionType::Exchange },
        ]
    } else {
        Seq::empty()
    }) + targeted_moves(player, coins[player as int], hands, hands.len() as int)
}

/// The moves of a challenge's current step, in order.
pub open spec fn challenge_moves(c: ChallengeState) -> Seq<Action> {
    match c {
        ChallengeState::Initial { target, card, .. } => seq![Action { player: target, action_type: ActionType::ShowCard(card) }]
            + reveal_moves(target),
        ChallengeState::ShownCard { initiator, .. } => reveal_moves(initiator),
        ChallengeState::InitiatorRevealedCard { target } => seq![Action { player: target, action_type: ActionType::ShuffleDeck }],
        ChallengeState::DeckShuffled { target } => seq![Action { player: target, action_type: ActionType::TakeCard }],
        _ => Seq::empty(),
    }
}

/// The challenges by every other active seat, then the pass of `player`.
pub open spec fn challenge_window(player: usize, hands: Seq<usize>) -> Seq<Action> {
    moves_round(ActionType::Challenge, player, hands).push(Action { player, action_type: ActionType::PassChallenge })
}

/// The list of moves offered in a state, in the order they are listed.
pub open spec fn listed_moves(st: StateType, coins: Seq<usize>, hands: Seq<usize>) -> Seq<Action> {
    match st {
        StateType::Turn { player } => turn_moves(player, coins, hands),
        StateType::ForeignAid { player } => moves_round(ActionType::BlockForeignAid, player, hands).push(
            Action { player, action_type: ActionType::PassBlock },
        ),
        StateType::Tax { player } | StateType::Exchange { player }
        | StateType::BlockForeignAid { player, .. } | StateType::BlockSteal { player, .. }
        | StateType::BlockAssassination { player, .. } => challenge_window(player, hands),
        StateType::Assassination { player, target, can_challenge } => if can_challenge {
            challenge_window(player, hands)
        } else {
            (if hands[target as int] > 0 {
                seq![Action { player: target, action_type: ActionType::BlockAssassination }]
            } else {
                Seq::empty()
            }).push(Action { player, action_type: ActionType::PassBlock })
        },
        StateType::Steal { player, target, can_challenge } => if can_challenge {
            challenge_window(player, hands)
        } else {
            (if hands[target as int] > 0 {
                seq![
                    Action { player: target, action_type: ActionType::BlockSteal(Card::Ambassador) },
                    Action { player: target, action_type: ActionType::BlockSteal(Card::Captain) },
                ]
            } else {
                Seq::empty()
            }).push(Action { player, action_type: ActionType::PassBlock })
        },
        StateType::Challenge { state, .. } => challenge_moves(state),
        StateType::NeedCards { player, .. } => seq![Action { player, action_type: ActionType::TakeCard }],
        StateType::TookCards { player, .. } | StateType::DroppedCard { player, .. } => drop_moves(player),
        StateType::LostInfluence { player, .. } => reveal_moves(player),
    }
}

/// No move is listed twice.
pub open spec fn distinct(s: Seq<Action>) -> bool {
    forall|i: int, j: int| 0 <= i < j < s.len() ==> s[i] != s[j]
}

proof fn lemma_distinct_push(s: Seq<Action>, x: Action)
    requires
        distinct(s),
        !s.contains(x),
    ensures
        distinct(s.push(x)),
{
    assert forall|i: int, j: int| 0 <= i < j < s.push(x).len() implies s.push(x)[i] != s.push(x)[j] by {
        if j == s.len() {
            assert(s[i] == s.push(x)[i]);
        }
    }
}

proof fn lemma_contains_push(s: Seq<Action>, x: Action, a: Action)
    ensures
        s.push(x).contains(a) <==> s.contains(a) || a == x,
{
    if s.push(x).contains(a) && a != x {
        let k = choose|k: int| 0 <= k < s.push(x).len() && s.push(x)[k] == a;
        assert(s[k] == a);
    }
    if a == x {
        assert(s.push(x)[s.len() as int] == a);
    }
    if s.contains(a) {
        let k = choose|k: int| 0 <= k < s.len() && s[k] == a;
        assert(s.push(x)[k] == a);
    }
}

/// Revealing each of the five cards, by `player`.
pub fn get_lost_influence_available_actions(player: usize) -> (r: Vec<Action>)
    ensures
        r@ == reveal_moves(player),
        forall|a: Action|
            r@.contains(a) <==> (a.player == player && (a.action_type matches ActionType::RevealCard(c) && is_card(c))),
        distinct(r@),
{
    let r = vec![
        Action { player, action_type: ActionType::RevealCard(Card::Assassin) },
        Action { player, action_type: ActionType::RevealCard(Card::Ambassador) },
        Action { player, action_type: ActionType::RevealCard(Card::Captain) },
        Action { player, action_type: ActionType::RevealCard(Card::Contessa) },
        Action { player, action_type: ActionType::RevealCard(Card::Duke) },
    ];
    proof {
        assert forall|a: Action|
            r@.contains(a) <==> (a.player == player && (a.action_type matches ActionType::RevealCard(c) && is_card(c))) by {
            lemma_contains_five(r@, a);
        }
    }
    r
}

/// Returning each of the five cards to the deck, by `player`.
pub fn get_drop_card_actions(player: usize) -> (r: Vec<Action>)
    ensures
        r@ == drop_moves(player),
        forall|a: Action|
            r@.contains(a) <==> (a.player == player && (a.action_type matches ActionType::DropCard(c) && is_card(c))),
        distinct(r@),
{
    let r = vec![
        Action { player, action_type: ActionType::DropCard(Card::Assassin) },
        Action { player, action_type: ActionType::DropCard(Card::Ambassador) },
        Action { player, action_type: ActionType::DropCard(Card::Captain) },
        Action { player, action_type: ActionType::DropCard(Card::Contessa) },
        Action { player, action_type: ActionType::DropCard(Card::Duke) },
    ];
    proof {
        assert forall|a: Action|
            r@.contains(a) <==> (a.player == player && (a.action_type matches ActionType::DropCard(c) && is_card(c))) by {
            lemma_contains_five(r@, a);
        }
    }
    r
}

pub fn get_need_cards_available_actions(player: usize) -> (r: Vec<Action>)
    ensures
        r@ == seq![Action { player, action_type: ActionType::TakeCard }],
        distinct(r@),
{
    vec![Action { player, action_type: ActionType::TakeCard }]
}

/// `a` is the move of kind `t` by an active player other than `target`, among the seats
/// `lo <= seat < hi`.
pub open spec fn other_in(target: usize, hands: Seq<usize>, a: Action, t: ActionType, lo: int, hi: int) -> bool {
    by_other(target, hands, a, t) && lo <= a.player < hi
}

/// Adds to `actions` the move of kind `t` by each active player in `lo..hi` but `target`.
fn fill_range(t: ActionType, target: usize, lo: usize, hi: usize, player_hands: &Vec<usize>, actions: &mut Vec<Action>)
    requires
        target < player_hands@.len(),
        lo <= hi <= player_hands@.len(),
        target < lo || hi <= target,
        distinct(old(actions)@),
        forall|a: Action| old(actions)@.contains(a) ==> !other_in(target, player_hands@, a, t, lo as int, hi as int),
    ensures
        forall|a: Action|
            #[trigger] final(actions)@.contains(a) <==> old(actions)@.contains(a) || other_in(
                target,
                player_hands@,
                a,
                t,
                lo as int,
                hi as int,
            ),
        distinct(final(actions)@),
        final(actions)@ == old(actions)@ + moves_in(t, target, player_hands@, lo as int, hi as int),
{
    let ghost before = actions@;
    let mut player = lo;
    proof {
        assert(before + moves_in(t, target, player_hands@, lo as int, lo as int) =~= before);
    }
    while player < hi
        invariant
            lo <= player <= hi,
            hi <= player_hands@.len(),
            target < lo || hi <= target,
            forall|a: Action|
                #[trigger] actions@.contains(a) <==> before.contains(a) || other_in(
                    target,
                    player_hands@,
                    a,
                    t,
                    lo as int,
                    player as int,
                ),
            distinct(actions@),
            forall|a: Action| before.contains(a) ==> !other_in(target, player_hands@, a, t, lo as int, hi as int),
            actions@ == before + moves_in(t, target, player_hands@, lo as int, player as int),
        decreases hi - player,
    {
        let ghost prev = actions@;
        let x = Action { player, action_type: t };
        if player_hands[player] > 0 {
            proof {
                if prev.contains(x) {
                    assert(before.contains(x) || other_in(target, player_hands@, x, t, lo as int, player as int));
                }
                lemma_distinct_push(prev, x);
            }
            actions.push(x);
        }
        proof {
            assert forall|a: Action|
                #[trigger] actions@.contains(a) <==> before.contains(a) || other_in(
                    target,
                    player_hands@,
                    a,
                    t,
                    lo as int,
                    player + 1,
                ) by {
                if player_hands@[player as int] > 0 {
                    lemma_contains_push(prev, x, a);
                }
                assert(prev.contains(a) <==> before.contains(a) || other_in(
                    target,
                    player_hands@,
                    a,
                    t,
                    lo as int,
                    player as int,
                ));
                if a.player == player && a.action_type == t {
                    assert(a == x);
                }
            }
        }
        proof {
            assert(actions@ =~= before + moves_in(t, target, player_hands@, lo as int, player + 1));
        }
        player = player + 1;
    }
}

/// Adds the move of kind `action_type` by each active player but `target`, going round the
/// table from the seat after `target`.
pub fn fill_actions(action_type: ActionType, target: usize, player_hands: &Vec<usize>, actions: &mut Vec<Action>)
    requires
        target < player_hands@.len(),
        distinct(old(actions)@),
        forall|a: Action| old(actions)@.contains(a) ==> a.action_type != action_type,
    ensures
        forall|a: Action|
            final(actions)@.contains(a) <==> old(actions)@.contains(a) || by_other(target, player_hands@, a, action_type),
        distinct(final(actions)@),
        final(actions)@ == old(actions)@ + moves_round(action_type, target, player_hands@),
{
    let ghost before = actions@;
    let n = player_hands.len();
    fill_range(action_type, target, target + 1, n, player_hands, actions);
    let ghost middle = actions@;
    fill_range(action_type, target, 0, target, player_hands, actions);
    proof {
        assert(actions@ =~= before + moves_round(action_type, target, player_hands@));
        assert forall|a: Action|
            actions@.contains(a) <==> before.contains(a) || by_other(target, player_hands@, a, action_type) by {
            assert(actions@.contains(a) <==> middle.contains(a) || other_in(target, player_hands@, a, action_type, 0, target as int));
            assert(middle.contains(a) <==> before.contains(a) || other_in(target, player_hands@, a, action_type, target + 1, player_hands@.len() as int));
        }
    }
}

pub fn fill_challenge_actions(target: usize, player_hands: &Vec<usize>, actions: &mut Vec<Action>)
    requires
        target < player_hands@.len(),
        distinct(old(actions)@),
        forall|a: Action| old(actions)@.contains(a) ==> a.action_type != ActionType::Challenge,
    ensures
        forall|a: Action|
            final(actions)@.contains(a) <==> old(actions)@.contains(a) || by_other(target, player_hands@, a, ActionType::Challenge),
        distinct(final(actions)@),
        final(actions)@ == old(actions)@ + moves_round(ActionType::Challenge, target, player_hands@),
{
    fill_actions(ActionType::Challenge, target, player_hands, actions);
}

/// A challenge by any other active player, or the pass of `player`.
pub fn get_non_blocking_available_actions(player: usize, player_hands: &Vec<usize>) -> (r: Vec<Action>)
    requires
        player < player_hands@.len(),
    ensures
        forall|a: Action|
            r@.contains(a) <==> by_other(player, player_hands@, a, ActionType::Challenge)
                || a == (Action { player, action_type: ActionType::PassChallenge }),
        distinct(r@),
        r@ == moves_round(ActionType::Challenge, player, player_hands@).push(Action { player, action_type: ActionType::PassChallenge }),
{
    let mut actions: Vec<Action> = Vec::new();
    let ghost empty = actions@;
    proof {
        lemma_empty_contains(empty);
    }
    fill_challenge_actions(player, player_hands, &mut actions);
    let ghost mid = actions@;
    let x = Action { player, action_type: ActionType::PassChallenge };
    proof {
        if mid.contains(x) {
            assert(empty.contains(x) || by_other(player, player_hands@, x, ActionType::Challenge));
        }
        lemma_distinct_push(mid, x);
    }
    actions.push(x);
    proof {
        lemma_empty_contains(empty);
        assert forall|a: Action|
            actions@.contains(a) <==> by_other(player, player_hands@, a, ActionType::Challenge) || a == x by {
            lemma_contains_push(mid, x, a);
            assert(mid.contains(a) <==> empty.contains(a) || by_other(player, player_hands@, a, ActionType::Challenge));
        }
    }
    actions
}

/// A block by any other active player, or the pass of `player`.
pub fn get_foreign_aid_available_actions(player: usize, player_hands: &Vec<usize>) -> (r: Vec<Action>)
    requires
        player < player_hands@.len(),
    ensures
        forall|a: Action|
            r@.contains(a) <==> by_other(player, player_hands@, a, ActionType::BlockForeignAid)
                || a == (Action { player, action_type: ActionType::PassBlock }),
        distinct(r@),
        r@ == moves_round(ActionType::BlockForeignAid, player, player_hands@).push(Action { player, action_type: ActionType::PassBlock }),
{
    let mut actions: Vec<Action> = Vec::new();
    let ghost empty = actions@;
    proof {
        lemma_empty_contains(empty);
    }
    fill_actions(ActionType::BlockForeignAid, player, player_hands, &mut actions);
    let ghost mid = actions@;
    let x = Action { player, action_type: ActionType::PassBlock };
    proof {
        if mid.contains(x) {
            assert(empty.contains(x) || by_other(player, player_hands@, x, ActionType::BlockForeignAid));
        }
        lemma_distinct_push(mid, x);
    }
    actions.push(x);
    proof {
        lemma_empty_contains(empty);
        assert forall|a: Action|
            actions@.contains(a) <==> by_other(player, player_hands@, a, ActionType::BlockForeignAid) || a == x by {
            lemma_contains_push(mid, x, a);
            assert(mid.contains(a) <==> empty.contains(a) || by_other(player, player_hands@, a, ActionType::BlockForeignAid));
        }
    }
    actions
}

fn push_action(actions: &mut Vec<Action>, x: Action)
    ensures
        forall|a: Action| #[trigger] final(actions)@.contains(a) <==> old(actions)@.contains(a) || a == x,
        distinct(old(actions)@) && !old(actions)@.contains(x) ==> distinct(final(actions)@),
        final(actions)@ == old(actions)@.push(x),
{
    let ghost prev = actions@;
    proof {
        if distinct(prev) && !prev.contains(x) {
            lemma_distinct_push(prev, x);
        }
    }
    actions.push(x);
    proof {
        assert forall|a: Action| #[trigger] actions@.contains(a) <==> prev.contains(a) || a == x by {
            lemma_contains_push(prev, x, a);
        }
    }
}

/// The target a move names, if it names one.
pub open spec fn target_of(t: ActionType) -> Option<usize> {
    match t {
        ActionType::Coup(x) | ActionType::Assassinate(x) | ActionType::Steal(x) => Some(x),
        _ => None,
    }
}

pub open spec fn turn_allows_below(player: usize, coins: Seq<usize>, hands: Seq<usize>, t: ActionType, i: int) -> bool {
    turn_allows(player, coins, hands, t) && match target_of(t) {
        Some(x) => x < i,
        None => true,
    }
}

/// The moves that `player` may start a turn with.
pub fn get_turn_available_actions(player: usize, player_coins: &Vec<usize>, player_hands: &Vec<usize>) -> (r: Vec<Action>)
    requires
        player < player_coins@.len(),
        player_hands@.len() == player_coins@.len(),
    ensures
        r@ == turn_moves(player, player_coins@, player_hands@),
        forall|a: Action|
            r@.contains(a) <==> a.player == player && turn_allows(player, player_coins@, player_hands@, a.action_type),
        distinct(r@),
{
    let n = player_hands.len();
    let coins = player_coins[player];
    let mut actions: Vec<Action> = Vec::new();
    let ghost empty = actions@;
    proof {
        lemma_empty_contains(empty);
    }
    if coins < MAX_COINS {
        push_action(&mut actions, Action { player, action_type: ActionType::Income });
        assert(distinct(actions@));
        assert(!actions@.contains(Action { player, action_type: ActionType::ForeignAid }));
        push_action(&mut actions, Action { player, action_type: ActionType::ForeignAid });
        assert(!actions@.contains(Action { player, action_type: ActionType::Tax }));
        push_action(&mut actions, Action { player, action_type: ActionType::Tax });
        assert(!actions@.contains(Action { player, action_type: ActionType::Exchange }));
        push_action(&mut actions, Action { player, action_type: ActionType::Exchange });
    }
    let ghost opening = actions@;
    proof {
        if coins < MAX_COINS {
            assert(opening =~= seq![
                Action { player, action_type: ActionType::Income },
                Action { player, action_type: ActionType::ForeignAid },
                Action { player, action_type: ActionType::Tax },
                Action { player, action_type: ActionType::Exchange },
            ]);
        } else {
            assert(opening =~= Seq::<Action>::empty());
        }
        assert(opening + targeted_moves(player, coins, player_hands@, 0) =~= opening);
    }
    let mut other: usize = 0;
    while other < n
        invariant
            n == player_hands@.len(),
            n == player_coins@.len(),
            player < n,
            coins == player_coins@[player as int],
            other <= n,
            forall|a: Action|
                #[trigger] actions@.contains(a) <==> a.player == player && turn_allows_below(
                    player,
                    player_coins@,
                    player_hands@,
                    a.action_type,
                    other as int,
                ),
            distinct(actions@),
            actions@ == opening + targeted_moves(player, coins, player_hands@, other as int),
            opening == (if coins < MAX_COINS {
                seq![
                    Action { player, action_type: ActionType::Income },
                    Action { player, action_type: ActionType::ForeignAid },
                    Action { player, action_type: ActionType::Tax },
                    Action { player, action_type: ActionType::Exchange },
                ]
            } else {
                Seq::<Action>::empty()
            }),
        decreases n - other,
    {
        let ghost start = actions@;
        if other != player && player_hands[other] > 0 {
            if coins >= MAX_COINS {
                assert(!actions@.contains(Action { player, action_type: ActionType::Coup(other) }));
                push_action(&mut actions, Action { player, action_type: ActionType::Coup(other) });
            } else {
                assert(!actions@.contains(Action { player, action_type: ActionType::Steal(other) }));
                push_action(&mut actions, Action { player, action_type: ActionType::Steal(other) });
                if coins >= ASSASSINATION_COST {
                    assert(!actions@.contains(Action { player, action_type: ActionType::Assassinate(other) }));
                    push_action(&mut actions, Action { player, action_type: ActionType::Assassinate(other) });
                }
                if coins >= COUP_COST {
                    assert(!actions@.contains(Action { player, action_type: ActionType::Coup(other) }));
                    push_action(&mut actions, Action { player, action_type: ActionType::Coup(other) });
                }
            }
        }
        proof {
            if other != player && player_hands@[other as int] > 0 {
                assert(actions@ =~= start + moves_against(player, coins, other));
            } else {
                assert(actions@ =~= start);
            }
            assert(actions@ =~= opening + targeted_moves(player, coins, player_hands@, other + 1));
            assert forall|a: Action|
                #[trigger] actions@.contains(a) <==> a.player == player && turn_allows_below(
                    player,
                    player_coins@,
                    player_hands@,
                    a.action_type,
                    other + 1,
                ) by {
                if a.player == player && target_of(a.action_type) == Some(other) {
                    assert(a == Action { player, action_type: a.action_type });
                }
            }
        }
        other = other + 1;
    }
    proof {
        assert forall|a: Action|
            actions@.contains(a) <==> a.player == player && turn_allows(player, player_coins@, player_hands@, a.action_type) by {
            assert(actions@.contains(a) <==> a.player == player && turn_allows_below(
                player,
                player_coins@,
                player_hands@,
                a.action_type,
                n as int,
            ));
        }
    }
    actions
}

pub fn get_assassination_available_actions(player: usize, target: usize, can_challenge: bool, player_hands: &Vec<usize>) -> (r: Vec<Action>)
    requires
        player < player_hands@.len(),
        target < player_hands@.len(),
    ensures
        r@ == listed_moves(StateType::Assassination { player, target, can_challenge }, Seq::empty(), player_hands@),
        forall|a: Action|
            r@.contains(a) <==> is_available(
                StateType::Assassination { player, target, can_challenge },
                Seq::empty(),
                player_hands@,
                a,
            ),
        distinct(r@),
{
    if can_challenge {
        get_non_blocking_available_actions(player, player_hands)
    } else {
        let mut actions: Vec<Action> = Vec::new();
        proof {
            lemma_empty_contains(actions@);
        }
        if player_hands[target] > 0 {
            push_action(&mut actions, Action { player: target, action_type: ActionType::BlockAssassination });
        }
        push_action(&mut actions, Action { player, action_type: ActionType::PassBlock });
        actions
    }
}

pub fn get_steal_available_actions(player: usize, target: usize, can_challenge: bool, player_hands: &Vec<usize>) -> (r: Vec<Action>)
    requires
        player < player_hands@.len(),
        target < player_hands@.len(),
    ensures
        r@ == listed_moves(StateType::Steal { player, target, can_challenge }, Seq::empty(), player_hands@),
        forall|a: Action|
            r@.contains(a) <==> is_available(
                StateType::Steal { player, target, can_challenge },
                Seq::empty(),
                player_hands@,
                a,
            ),
        distinct(r@),
{
    if can_challenge {
        get_non_blocking_available_actions(player, player_hands)
    } else {
        let mut actions: Vec<Action> = Vec::new();
        proof {
            lemma_empty_contains(actions@);
        }
        if player_hands[target] > 0 {
            push_action(&mut actions, Action { player: target, action_type: ActionType::BlockSteal(Card::Ambassador) });
            push_action(&mut actions, Action { player: target, action_type: ActionType::BlockSteal(Card::Captain) });
        }
        push_action(&mut actions, Action { player, action_type: ActionType::PassBlock });
        proof {
            assert forall|a: Action| actions@.contains(a) <==> is_available(
                StateType::Steal { player, target, can_challenge },
                Seq::empty(),
                player_hands@,
                a,
            ) by {
                if a.player == target && (a.action_type == ActionType::BlockSteal(Card::Ambassador)
                    || a.action_type == ActionType::BlockSteal(Card::Captain)) {
                    assert(a == Action { player: target, action_type: a.action_type });
                }
            }
        }
        actions
    }
}

/// The moves open in a challenge: the challenged player shows the claimed card or reveals
/// one; then the challenger reveals one; then the challenged player shuffles and draws.
pub fn get_challenge_available_actions(state: &ChallengeState) -> (r: Vec<Action>)
    ensures
        r@ == challenge_moves(*state),
        forall|a: Action|
            r@.contains(a) <==> challenge_allows(*state, a),
        distinct(r@),
{
    match state {
        ChallengeState::Initial { target, card, .. } => {
            let mut actions: Vec<Action> = Vec::new();
            proof {
                lemma_empty_contains(actions@);
            }
            let player = *target;
            push_action(&mut actions, Action { player, action_type: ActionType::ShowCard(*card) });
            push_action(&mut actions, Action { player, action_type: ActionType::RevealCard(Card::Assassin) });
            push_action(&mut actions, Action { player, action_type: ActionType::RevealCard(Card::Ambassador) });
            push_action(&mut actions, Action { player, action_type: ActionType::RevealCard(Card::Captain) });
            push_action(&mut actions, Action { player, action_type: ActionType::RevealCard(Card::Contessa) });
            push_action(&mut actions, Action { player, action_type: ActionType::RevealCard(Card::Duke) });
            proof {
                assert forall|a: Action| #[trigger] actions@.contains(a) <==> challenge_allows(*state, a) by {
                    if a.player == player {
                        assert(a == Action { player, action_type: a.action_type });
                    }
                }
            }
            actions
        },
        ChallengeState::ShownCard { initiator, .. } => {
            let r = get_lost_influence_available_actions(*initiator);
            assert(forall|a: Action| #[trigger] r@.contains(a) <==> challenge_allows(*state, a));
            r
        },
        ChallengeState::InitiatorRevealedCard { target } => {
            let mut actions: Vec<Action> = Vec::new();
            proof {
                lemma_empty_contains(actions@);
            }
            push_action(&mut actions, Action { player: *target, action_type: ActionType::ShuffleDeck });
            assert(forall|a: Action| #[trigger] actions@.contains(a) <==> challenge_allows(*state, a));
            actions
        },
        ChallengeState::DeckShuffled { target } => {
            let mut actions: Vec<Action> = Vec::new();
            proof {
                lemma_empty_contains(actions@);
            }
            push_action(&mut actions, Action { player: *target, action_type: ActionType::TakeCard });
            assert(forall|a: Action| #[trigger] actions@.contains(a) <==> challenge_allows(*state, a));
            actions
        },
        _ => {
            let actions: Vec<Action> = Vec::new();
            proof {
                lemma_empty_contains(actions@);
            }
            actions
        },
    }
}

/// Every move that the rules may accept next, and no other: a pure function of the state,
/// the public coins and the hand sizes.
pub fn get_available_actions(state_type: &StateType, player_coins: &Vec<usize>, player_hands: &Vec<usize>) -> (r: Vec<Action>)
    requires
        player_coins@.len() == player_hands@.len(),
        crate::fsm::state_type_wf(*state_type, player_hands@.len() as int),
    ensures
        r@ == listed_moves(*state_type, player_coins@, player_hands@),
        forall|a: Action| r@.contains(a) <==> is_available(*state_type, player_coins@, player_hands@, a),
        distinct(r@),
{
    match state_type {
        StateType::Turn { player } => get_turn_available_actions(*player, player_coins, player_hands),
        StateType::ForeignAid { player } => get_foreign_aid_available_actions(*player, player_hands),
        StateType::Tax { player } | StateType::Exchange { player }
        | StateType::BlockForeignAid { player, .. } | StateType::BlockSteal { player, .. }
        | StateType::BlockAssassination { player, .. } => get_non_blocking_available_actions(*player, player_hands),
        StateType::Assassination { player, target, can_challenge } => get_assassination_available_actions(
            *player,
            *target,
            *can_challenge,
            player_hands,
        ),
        StateType::Steal { player, target, can_challenge } => get_steal_available_actions(
            *player,
            *target,
            *can_challenge,
            player_hands,
        ),
        StateType::Challenge { state, .. } => get_challenge_available_actions(state),
        StateType::NeedCards { player, .. } => {
            let r = get_need_cards_available_actions(*player);
            proof {
                lemma_contains_push(Seq::empty(), Action { player: *player, action_type: ActionType::TakeCard }, Action { player: *player, action_type: ActionType::TakeCard });
                assert forall|a: Action| r@.contains(a) <==> is_available(*state_type, player_coins@, player_hands@, a) by {
                    lemma_empty_contains(Seq::empty());
                    lemma_contains_push(Seq::empty(), Action { player: *player, action_type: ActionType::TakeCard }, a);
                    assert(r@ == Seq::<Action>::empty().push(Action { player: *player, action_type: ActionType::TakeCard }));
                }
            }
            r
        },
        StateType::TookCards { player, .. } | StateType::DroppedCard { player, .. } => get_drop_card_actions(*player),
        StateType::LostInfluence { player, .. } => get_lost_influence_available_actions(*player),
    }
}

} // verus!
