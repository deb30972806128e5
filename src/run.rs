use vstd::prelude::*;

use crate::bots::{is_allowed_action_type, is_honest_action_type, claimed_card};
use crate::cards::Card;
use crate::fsm::{Action, ActionType};
use crate::game::Game;
use crate::tracker::{is_safe_in, CardsTracker};

verus! {

/// The kinds of bot that can take a seat.
#[derive(Debug, Clone, Copy, PartialEq, Eq, Structural, Hash, PartialOrd, Ord)]
pub enum BotType {
    Random,
    HonestCarefulRandom,
}

/// A finished game and how it began.
#[derive(Debug, Clone)]
pub struct RunResult {
    pub begin: Game,
    pub end: Game,
}

/// What many finished games add up to.
#[derive(Debug, Clone)]
pub struct Stats {
    pub games: usize,
    pub steps: Vec<usize>,
    pub turns: Vec<usize>,
    pub rounds: Vec<usize>,
    pub winner_bot_type: Vec<BotType>,
    pub winner_initial_cards: Vec<Vec<Card>>,
    pub winner_bot_type_and_initial_cards: Vec<(BotType, Vec<Card>)>,
}

impl Stats {
    pub fn new() -> (r: Self)
        ensures
            r.games == 0,
            r.steps@.len() == 0 && r.turns@.len() == 0 && r.rounds@.len() == 0,
            r.winner_bot_type@.len() == 0 && r.winner_initial_cards@.len() == 0,
            r.winner_bot_type_and_initial_cards@.len() == 0,
    {
        Stats {
            games: 0,
            steps: Vec::new(),
            turns: Vec::new(),
            rounds: Vec::new(),
            winner_bot_type: Vec::new(),
            winner_initial_cards: Vec::new(),
            winner_bot_type_and_initial_cards: Vec::new(),
        }
    }
}

/// Number of copies of `v` in `s`.
pub open spec fn occurrences(s: Seq<usize>, v: usize) -> nat
    decreases s.len(),
{
    if s.len() == 0 {
        0
    } else {
        occurrences(s.drop_last(), v) + if s.last() == v { 1nat } else { 0nat }
    }
}

proof fn lemma_occurrences_bound(s: Seq<usize>, v: usize)
    ensures
        occurrences(s, v) <= s.len(),
    decreases s.len(),
{
    if s.len() > 0 {
        lemma_occurrences_bound(s.drop_last(), v);
    }
}

/// How many times each value occurs in `values`, by increasing value, each value once.
pub fn count(values: &Vec<usize>) -> (r: Vec<(usize, usize)>)
    ensures
        forall|i: int, j: int| 0 <= i < j < r@.len() ==> r@[i].0 < r@[j].0,
        forall|i: int| 0 <= i < r@.len() ==> (#[trigger] r@[i]).1 == occurrences(values@, r@[i].0) && r@[i].1 > 0,
        forall|v: usize| occurrences(values@, v) > 0 ==> exists|i: int| 0 <= i < r@.len() && (#[trigger] r@[i]).0 == v,
{
    let mut r: Vec<(usize, usize)> = Vec::new();
    let mut n: usize = 0;
    while n < values.len()
        invariant
            n <= values@.len(),
            forall|i: int, j: int| 0 <= i < j < r@.len() ==> r@[i].0 < r@[j].0,
            forall|i: int| 0 <= i < r@.len() ==> (#[trigger] r@[i]).1 == occurrences(values@.subrange(0, n as int), r@[i].0) && r@[i].1 > 0,
            forall|v: usize| occurrences(values@.subrange(0, n as int), v) > 0 ==> exists|i: int| 0 <= i < r@.len() && (#[trigger] r@[i]).0 == v,
        decreases values@.len() - n,
    {
        let v = values[n];
        let ghost before = values@.subrange(0, n as int);
        let ghost after = values@.subrange(0, n as int + 1);
        proof {
            assert(after.drop_last() =~= before);
            assert(after.last() == v);
            lemma_occurrences_bound(before, v);
        }
        let mut i: usize = 0;
        while i < r.len() && r[i].0 < v
            invariant
                i <= r@.len(),
                forall|k: int| 0 <= k < i ==> r@[k].0 < v,
            decreases r@.len() - i,
        {
            i = i + 1;
        }
        let ghost old_r = r@;
        if i < r.len() && r[i].0 == v {
            let k = r[i].1;
            proof {
                assert(k == occurrences(before, v));
            }
            r.set(i, (v, k + 1));
            proof {
                assert forall|a: int| 0 <= a < r@.len() implies (#[trigger] r@[a]).1 == occurrences(after, r@[a].0) && r@[a].1 > 0 by {
                    assert(old_r[a].1 == occurrences(before, old_r[a].0));
                }
                assert forall|w: usize| occurrences(after, w) > 0 implies exists|a: int| 0 <= a < r@.len() && (#[trigger] r@[a]).0 == w by {
                    if w != v {
                        assert(occurrences(before, w) > 0);
                        let a = choose|a: int| 0 <= a < old_r.len() && (#[trigger] old_r[a]).0 == w;
                        assert(r@[a].0 == w);
                    } else {
                        assert(r@[i as int].0 == w);
                    }
                }
            }
        } else {
            proof {
                assert(occurrences(before, v) == 0) by {
                    if occurrences(before, v) > 0 {
                        let a = choose|a: int| 0 <= a < old_r.len() && (#[trigger] old_r[a]).0 == v;
                        if a < i {
                            assert(old_r[a].0 < v);
                        } else if a > i {
                            assert(old_r[i as int].0 < old_r[a].0);
                        }
                    }
                }
            }
            r.insert(i, (v, 1));
            proof {
                assert forall|a: int, b: int| 0 <= a < b < r@.len() implies r@[a].0 < r@[b].0 by {
                    if a < i && b < i {
                        assert(r@[a] == old_r[a] && r@[b] == old_r[b]);
                    } else if a < i && b == i {
                        assert(r@[a] == old_r[a]);
                    } else if a < i {
                        assert(r@[a] == old_r[a] && r@[b] == old_r[b - 1]);
                    } else if a == i {
                        assert(r@[b] == old_r[b - 1]);
                        assert(old_r[i as int].0 > v || b - 1 == i || old_r[i as int].0 <= old_r[b - 1].0);
                    } else {
                        assert(r@[a] == old_r[a - 1] && r@[b] == old_r[b - 1]);
                    }
                }
                assert forall|a: int| 0 <= a < r@.len() implies (#[trigger] r@[a]).1 == occurrences(after, r@[a].0) && r@[a].1 > 0 by {
                    if a < i {
                        assert(r@[a] == old_r[a]);
                        assert(old_r[a].1 == occurrences(before, old_r[a].0));
                    } else if a > i {
                        assert(r@[a] == old_r[a - 1]);
                        assert(old_r[a - 1].1 == occurrences(before, old_r[a - 1].0));
                    }
                }
                assert forall|w: usize| occurrences(after, w) > 0 implies exists|a: int| 0 <= a < r@.len() && (#[trigger] r@[a]).0 == w by {
                    if w != v {
                        assert(occurrences(before, w) > 0);
                        let a = choose|a: int| 0 <= a < old_r.len() && (#[trigger] old_r[a]).0 == w;
                        if a < i {
                            assert(r@[a] == old_r[a]);
                        } else {
                            assert(r@[a + 1] == old_r[a]);
                        }
                    } else {
                        assert(r@[i as int].0 == w);
                    }
                }
            }
        }
        n = n + 1;
    }
    proof {
        assert(values@.subrange(0, values@.len() as int) =~= values@);
    }
    r
}

/// The players of `actions`, each once, in the order in which `actions` first names them.
pub open spec fn first_named(actions: Seq<Action>) -> Seq<usize>
    decreases actions.len(),
{
    if actions.len() == 0 {
        Seq::empty()
    } else {
        let prev = first_named(actions.drop_last());
        if prev.contains(actions.last().player) {
            prev
        } else {
            prev.push(actions.last().player)
        }
    }
}

/// The players who may move next, each once, in the order in which `actions` first names them.
pub fn acting_players(actions: &Vec<Action>) -> (r: Vec<usize>)
    ensures
        r@ == first_named(actions@),
        forall|p: usize| r@.contains(p) <==> exists|i: int| 0 <= i < actions@.len() && (#[trigger] actions@[i]).player == p,
        forall|i: int, j: int| 0 <= i < j < r@.len() ==> r@[i] != r@[j],
{
    let mut players: Vec<usize> = Vec::new();
    let mut i: usize = 0;
    proof {
        assert(actions@.subrange(0, 0) =~= Seq::<Action>::empty());
    }
    while i < actions.len()
        invariant
            i <= actions@.len(),
            forall|p: usize| players@.contains(p) <==> exists|k: int| 0 <= k < i && (#[trigger] actions@[k]).player == p,
            forall|a: int, b: int| 0 <= a < b < players@.len() ==> players@[a] != players@[b],
            players@ == first_named(actions@.subrange(0, i as int)),
        decreases actions@.len() - i,
    {
        proof {
            assert(actions@.subrange(0, i as int + 1).drop_last() =~= actions@.subrange(0, i as int));
        }
        let p = actions[i].player;
        let mut seen = false;
        let mut k: usize = 0;
        while k < players.len()
            invariant
                k <= players@.len(),
                seen <==> exists|a: int| 0 <= a < k && players@[a] == p,
            decreases players@.len() - k,
        {
            if players[k] == p {
                seen = true;
            }
            k = k + 1;
        }
        let ghost prev = players@;
        if !seen {
            players.push(p);
        }
        proof {
            assert forall|q: usize| players@.contains(q) <==> exists|k: int| 0 <= k < i + 1 && (#[trigger] actions@[k]).player == q by {
                if players@.contains(q) {
                    let a = choose|a: int| 0 <= a < players@.len() && players@[a] == q;
                    if a < prev.len() {
                        assert(prev.contains(q));
                    } else {
                        assert(actions@[i as int].player == q);
                    }
                }
                if exists|k: int| 0 <= k < i + 1 && (#[trigger] actions@[k]).player == q {
                    let k = choose|k: int| 0 <= k < i + 1 && (#[trigger] actions@[k]).player == q;
                    if k < i {
                        assert(prev.contains(q));
                        let a = choose|a: int| 0 <= a < prev.len() && prev[a] == q;
                        assert(players@[a] == q);
                    } else if seen {
                        let a = choose|a: int| 0 <= a < prev.len() && prev[a] == p;
                        assert(players@[a] == q);
                    } else {
                        assert(players@[prev.len() as int] == q);
                    }
                }
            }
        }
        i = i + 1;
    }
    proof {
        assert(actions@.subrange(0, actions@.len() as int) =~= actions@);
    }
    players
}

/// Who is asked for a move at step `asked` when the players `players` may move: each in turn,
/// free to pass but for the last one, who must move; `None` once all have been asked.
pub fn next_to_ask(players: &Vec<usize>, asked: usize) -> (r: Option<(usize, bool)>)
    ensures
        match r {
            Some((p, optional)) => asked < players@.len() && p == players@[asked as int]
                && optional == (asked + 1 < players@.len()),
            None => asked >= players@.len(),
        },
{
    if asked < players.len() {
        Some((players[asked], asked + 1 < players.len()))
    } else {
        None
    }
}

/// The moves of `actions` that `player` makes, in order.
pub fn actions_of(actions: &Vec<Action>, player: usize) -> (r: Vec<Action>)
    ensures
        r@ == actions@.filter(|a: Action| a.player == player),
{
    let mut r: Vec<Action> = Vec::new();
    let mut i: usize = 0;
    proof {
        reveal(Seq::filter);
        assert(actions@.subrange(0, 0) =~= Seq::<Action>::empty());
    }
    while i < actions.len()
        invariant
            i <= actions@.len(),
            r@ == actions@.subrange(0, i as int).filter(|a: Action| a.player == player),
        decreases actions@.len() - i,
    {
        proof {
            assert(actions@.subrange(0, i as int + 1).drop_last() =~= actions@.subrange(0, i as int));
            reveal(Seq::filter);
        }
        if actions[i].player == player {
            r.push(actions[i]);
        }
        i = i + 1;
    }
    proof {
        assert(actions@.subrange(0, actions@.len() as int) =~= actions@);
    }
    r
}

/// The moves a random bot holding `cards` picks from: every move but those naming a card it
/// does not hold.
pub fn random_bot_actions(actions: &Vec<Action>, cards: &Vec<Card>) -> (r: Vec<Action>)
    ensures
        r@ == actions@.filter(|a: Action| match a.action_type {
            ActionType::ShowCard(c) | ActionType::RevealCard(c) | ActionType::DropCard(c) => cards@.contains(c),
            _ => true,
        }),
{
    let mut r: Vec<Action> = Vec::new();
    let mut i: usize = 0;
    proof {
        reveal(Seq::filter);
        assert(actions@.subrange(0, 0) =~= Seq::<Action>::empty());
    }
    while i < actions.len()
        invariant
            i <= actions@.len(),
            r@ == actions@.subrange(0, i as int).filter(|a: Action| match a.action_type {
                ActionType::ShowCard(c) | ActionType::RevealCard(c) | ActionType::DropCard(c) => cards@.contains(c),
                _ => true,
            }),
        decreases actions@.len() - i,
    {
        proof {
            assert(actions@.subrange(0, i as int + 1).drop_last() =~= actions@.subrange(0, i as int));
            reveal(Seq::filter);
        }
        if is_allowed_action_type(&actions[i].action_type, cards) {
            r.push(actions[i]);
        }
        i = i + 1;
    }
    proof {
        assert(actions@.subrange(0, actions@.len() as int) =~= actions@);
    }
    r
}

/// The move `a` is one that an honest and careful bot holding `cards` may make: its hand backs
/// every claim of the move, and no belief of `tracker` allows a counter to it.
pub open spec fn honest_and_careful(tracker: CardsTracker, player: usize, cards: Seq<Card>, a: Action) -> bool {
    &&& match claimed_card(a.action_type) {
        Some(c) => cards.contains(c),
        None => true,
    }
    &&& forall|k: int| 0 <= k < tracker.game_states@.len() ==> is_safe_in(
        (#[trigger] tracker.game_states@[k]).state@,
        player,
        a.action_type,
        tracker.last_action,
        tracker.cards_per_type,
    )
}

/// The moves an honest and careful bot picks from: those whose claims its hand backs and that
/// no belief of its tracker allows a counter to, in the order given.
pub fn honest_careful_actions(tracker: &CardsTracker, player: usize, actions: &Vec<Action>, cards: &Vec<Card>) -> (r: Vec<Action>)
    ensures
        r@ == actions@.filter(|a: Action| honest_and_careful(*tracker, player, cards@, a)),
{
    let mut r: Vec<Action> = Vec::new();
    let mut i: usize = 0;
    proof {
        reveal(Seq::filter);
        assert(actions@.subrange(0, 0) =~= Seq::<Action>::empty());
    }
    while i < actions.len()
        invariant
            i <= actions@.len(),
            r@ == actions@.subrange(0, i as int).filter(|a: Action| honest_and_careful(*tracker, player, cards@, a)),
        decreases actions@.len() - i,
    {
        proof {
            assert(actions@.subrange(0, i as int + 1).drop_last() =~= actions@.subrange(0, i as int));
            reveal(Seq::filter);
        }
        let a = actions[i];
        if is_honest_action_type(&a.action_type, cards) && tracker.is_safe_action_type(player, &a.action_type) {
            r.push(a);
        }
        i = i + 1;
    }
    proof {
        assert(actions@.subrange(0, actions@.len() as int) =~= actions@);
    }
    r
}

} // verus!
