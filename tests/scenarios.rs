use coup::actions::get_available_actions;
use coup::belief::GameState;
use coup::bots::{is_allowed_action_type, is_honest_action_type, ActionTypeView, ActionView};
use coup::cards::{Card, CardCollection, DeckDraw, GamePlayerCards};
use coup::fsm::{play_action, Action, ActionType, ChallengeState, Error, State, StateType};
use coup::game::{get_example_actions, get_example_settings, make_deck, Game, Settings};
use coup::tracker::CardsTracker;
use rand::rngs::StdRng;
use rand::{Rng, SeedableRng};

fn act(player: usize, action_type: ActionType) -> Action {
    Action { player, action_type }
}

fn play_all(game: &mut Game, actions: &[Action], rng: &mut StdRng) -> Result<(), String> {
    for action in actions {
        game.play(action, rng)?;
    }
    Ok(())
}

fn hand(game: &Game, player: usize) -> Vec<Card> {
    game.get_player_view(player).cards
}

fn total_cards(game: &Game) -> usize {
    let view = game.get_anonymous_view();
    view.player_cards.iter().sum::<usize>() + view.deck + view.revealed_cards.len()
}

#[test]
fn income_gives_one_coin_and_passes_the_turn() {
    let mut rng = StdRng::seed_from_u64(7);
    let mut game = Game::new(Settings { players_number: 2, cards_per_type: 1 }, &mut rng);
    assert_eq!(play_all(&mut game, &[act(0, ActionType::Income)], &mut rng), Ok(()));
    assert_eq!(game.state.player_coins[0], 3);
    assert_eq!(game.state.state_type, StateType::Turn { player: 1 });
}

#[test]
fn blocked_foreign_aid_leaves_coins_unchanged() {
    let mut rng = StdRng::seed_from_u64(7);
    let mut game = Game::new(Settings { players_number: 2, cards_per_type: 1 }, &mut rng);
    let actions = [
        act(0, ActionType::ForeignAid),
        act(1, ActionType::BlockForeignAid),
        act(1, ActionType::PassChallenge),
    ];
    assert_eq!(play_all(&mut game, &actions, &mut rng), Ok(()));
    assert_eq!(game.state.player_coins, vec![2, 2]);
    assert_eq!(game.state.state_type, StateType::Turn { player: 1 });
}

#[test]
fn exchange_lost_on_challenge_reveals_the_card() {
    let mut rng = StdRng::seed_from_u64(7);
    let mut game = Game::custom(
        vec![vec![Card::Assassin, Card::Assassin], vec![Card::Duke, Card::Captain]],
        vec![Card::Contessa],
    );
    let actions = [
        act(0, ActionType::Exchange),
        act(1, ActionType::Challenge),
        act(0, ActionType::RevealCard(Card::Assassin)),
    ];
    assert_eq!(play_all(&mut game, &actions, &mut rng), Ok(()));
    assert_eq!(game.state.player_hands[0], 1);
    assert_eq!(game.state.revealed_cards, vec![Card::Assassin]);
    assert_eq!(game.state.state_type, StateType::Turn { player: 1 });
}

#[test]
fn proven_block_of_assassination_keeps_the_cost_spent() {
    let mut rng = StdRng::seed_from_u64(7);
    let mut game = Game::custom(
        vec![
            vec![Card::Assassin, Card::Duke],
            vec![Card::Captain, Card::Ambassador],
            vec![Card::Contessa, Card::Duke],
            vec![Card::Captain, Card::Ambassador],
        ],
        vec![Card::Assassin, Card::Contessa],
    );
    game.state.player_coins[0] = 3;
    let actions = [
        act(0, ActionType::Assassinate(2)),
        act(0, ActionType::PassChallenge),
        act(2, ActionType::BlockAssassination),
        act(1, ActionType::Challenge),
        act(2, ActionType::ShowCard(Card::Contessa)),
        act(1, ActionType::RevealCard(Card::Captain)),
        act(2, ActionType::ShuffleDeck),
        act(2, ActionType::TakeCard),
    ];
    assert_eq!(play_all(&mut game, &actions, &mut rng), Ok(()));
    assert_eq!(game.state.player_coins[0], 0);
    assert_eq!(game.state.player_hands, vec![2, 1, 2, 2]);
    assert_eq!(game.state.state_type, StateType::Turn { player: 1 });
}

#[test]
fn proven_exchange_restores_hand_and_deck() {
    let mut rng = StdRng::seed_from_u64(7);
    let mut game = Game::custom(
        vec![vec![Card::Ambassador, Card::Ambassador], vec![Card::Duke, Card::Captain]],
        vec![Card::Contessa, Card::Assassin, Card::Duke],
    );
    let deck_before = game.get_anonymous_view().deck;
    let actions = [
        act(0, ActionType::Exchange),
        act(1, ActionType::Challenge),
        act(0, ActionType::ShowCard(Card::Ambassador)),
        act(1, ActionType::RevealCard(Card::Duke)),
        act(0, ActionType::ShuffleDeck),
        act(0, ActionType::TakeCard),
        act(0, ActionType::TakeCard),
        act(0, ActionType::TakeCard),
    ];
    assert_eq!(play_all(&mut game, &actions, &mut rng), Ok(()));
    assert!(matches!(game.state.state_type, StateType::TookCards { player: 0, count: 2 }));
    let held = hand(&game, 0);
    assert_eq!(held.len(), 4);
    let drops = [act(0, ActionType::DropCard(held[0])), act(0, ActionType::DropCard(held[1]))];
    assert_eq!(play_all(&mut game, &drops, &mut rng), Ok(()));
    assert_eq!(hand(&game, 0).len(), 2);
    assert_eq!(game.get_anonymous_view().deck, deck_before);
    assert_eq!(game.state.state_type, StateType::Turn { player: 1 });
}

#[test]
fn example_game_keeps_cards_and_counters_at_every_step() {
    let settings = get_example_settings();
    let mut rng = StdRng::seed_from_u64(42);
    let mut game = Game::new(settings, &mut rng);
    let total = settings.cards_per_type * 5;
    assert_eq!(total_cards(&game), total);
    for action in get_example_actions() {
        assert_eq!(game.play(&action, &mut rng), Ok(()));
        assert_eq!(total_cards(&game), total);
        let view = game.get_anonymous_view();
        let replacing = match &view.state_type {
            StateType::Challenge { state, .. } => match state {
                ChallengeState::ShownCard { target, .. }
                | ChallengeState::InitiatorRevealedCard { target }
                | ChallengeState::DeckShuffled { target } => Some(*target),
                _ => None,
            },
            _ => None,
        };
        for p in 0..view.player_hands.len() {
            if replacing == Some(p) {
                assert!(view.player_cards[p] + 1 >= view.player_hands[p]);
            } else {
                assert!(view.player_cards[p] >= view.player_hands[p]);
            }
        }
    }
    assert_eq!(game.get_winner(), Some(4));
    let active: Vec<usize> = (0..6).filter(|p| game.is_player_active(*p)).collect();
    assert_eq!(active, vec![4]);
}

fn every_action(players: usize) -> Vec<Action> {
    let cards = [Card::Unknown, Card::Assassin, Card::Ambassador, Card::Captain, Card::Contessa, Card::Duke];
    let mut all = Vec::new();
    for player in 0..players {
        let mut kinds = vec![
            ActionType::Income,
            ActionType::ForeignAid,
            ActionType::Tax,
            ActionType::Exchange,
            ActionType::BlockForeignAid,
            ActionType::BlockAssassination,
            ActionType::PassChallenge,
            ActionType::PassBlock,
            ActionType::Challenge,
            ActionType::TakeCard,
            ActionType::ShuffleDeck,
        ];
        for target in 0..players + 1 {
            kinds.push(ActionType::Coup(target));
            kinds.push(ActionType::Assassinate(target));
            kinds.push(ActionType::Steal(target));
        }
        for card in cards {
            kinds.push(ActionType::BlockSteal(card));
            kinds.push(ActionType::ShowCard(card));
            kinds.push(ActionType::RevealCard(card));
            kinds.push(ActionType::DropCard(card));
        }
        for action_type in kinds {
            all.push(Action { player, action_type });
        }
    }
    all
}

#[test]
fn enumerator_offers_exactly_the_accepted_moves_along_the_example_game() {
    let settings = get_example_settings();
    let mut rng = StdRng::seed_from_u64(42);
    let mut game = Game::new(settings, &mut rng);
    for action in get_example_actions() {
        let view = game.get_anonymous_view();
        let available = get_available_actions(&view.state_type, &view.player_coins, &view.player_hands);
        for candidate in every_action(settings.players_number) {
            let mut copy = game.clone();
            let mut copy_rng = StdRng::seed_from_u64(1);
            let accepted = copy.play(&candidate, &mut copy_rng).is_ok();
            if accepted {
                assert!(available.contains(&candidate), "{:?} accepted but not offered", candidate);
            }
            let holds = is_allowed_action_type(&candidate.action_type, &hand(&game, candidate.player));
            if available.contains(&candidate) && holds && game.is_player_active(candidate.player) {
                assert!(accepted, "{:?} offered but refused", candidate);
            }
        }
        assert_eq!(game.play(&action, &mut rng), Ok(()));
    }
}

fn bare_state(state_type: StateType, coins: Vec<usize>) -> State {
    State {
        state_type,
        player_coins: coins,
        player_hands: vec![2, 2, 0],
        player_cards_counter: vec![2, 2, 0],
        player_cards: vec![
            GamePlayerCards::Player(vec![Card::Assassin, Card::Duke]),
            GamePlayerCards::Player(vec![Card::Captain, Card::Contessa]),
            GamePlayerCards::Player(vec![]),
        ],
        deck: CardCollection { known: vec![Card::Ambassador], unknown: 0 },
        revealed_cards: vec![Card::Ambassador, Card::Ambassador],
    }
}

#[test]
fn each_refusal_names_its_reason_and_changes_nothing() {
    let cases = [
        (StateType::Turn { player: 0 }, vec![2, 2, 2], act(1, ActionType::Income), Error::InvalidPlayer),
        (StateType::Turn { player: 0 }, vec![2, 2, 2], act(0, ActionType::Steal(0)), Error::InvalidTarget),
        (StateType::Turn { player: 0 }, vec![7, 2, 2], act(0, ActionType::Coup(2)), Error::InvalidTarget),
        (StateType::Turn { player: 0 }, vec![2, 2, 2], act(0, ActionType::PassBlock), Error::InvalidAction),
        (StateType::Turn { player: 0 }, vec![6, 2, 2], act(0, ActionType::Coup(1)), Error::NotEnoughCoins),
        (StateType::Turn { player: 0 }, vec![2, 2, 2], act(0, ActionType::Assassinate(1)), Error::NotEnoughCoins),
        (StateType::Turn { player: 0 }, vec![10, 2, 2], act(0, ActionType::Income), Error::TooManyCoins),
        (StateType::Turn { player: 0 }, vec![2, 2, 2], act(2, ActionType::Income), Error::InactivePlayer),
        (StateType::Turn { player: 0 }, vec![2, 2, 2], act(5, ActionType::Income), Error::InvalidPlayer),
        (
            StateType::LostInfluence { player: 1, current_player: 0 },
            vec![2, 2, 2],
            act(1, ActionType::RevealCard(Card::Duke)),
            Error::InvalidCard,
        ),
        (
            StateType::Challenge {
                current_player: 0,
                source: Box::new(StateType::Turn { player: 0 }),
                state: ChallengeState::Initial { initiator: 1, target: 0, card: Card::Duke },
            },
            vec![2, 2, 2],
            act(0, ActionType::ShowCard(Card::Duke)),
            Error::InvalidSource,
        ),
    ];
    for (state_type, coins, action, error) in cases {
        let mut state = bare_state(state_type, coins);
        let before = state.clone();
        assert_eq!(play_action(&action, &mut state, DeckDraw::Top, None), Err(error), "{:?}", action);
        assert_eq!(state, before);
    }
}

#[test]
fn game_reports_refusals_as_messages() {
    let mut rng = StdRng::seed_from_u64(7);
    let mut game = Game::new(Settings { players_number: 2, cards_per_type: 1 }, &mut rng);
    assert_eq!(
        game.play(&act(1, ActionType::Income), &mut rng),
        Err("State machine check is failed: InvalidPlayer".to_string())
    );
    assert_eq!(game.step(), 0);
}

#[test]
fn a_shown_card_can_come_back_from_the_deck() {
    let mut state = bare_state(StateType::Tax { player: 0 }, vec![2, 2, 2]);
    let actions = [
        act(1, ActionType::Challenge),
        act(0, ActionType::ShowCard(Card::Duke)),
        act(1, ActionType::RevealCard(Card::Captain)),
        act(0, ActionType::ShuffleDeck),
        act(0, ActionType::TakeCard),
    ];
    for action in actions {
        assert_eq!(play_action(&action, &mut state, DeckDraw::Top, None), Ok(()));
    }
    assert_eq!(state.player_coins, vec![5, 2, 2]);
    assert_eq!(state.player_cards[0], GamePlayerCards::Player(vec![Card::Assassin, Card::Duke]));
    assert_eq!(state.deck.known, vec![Card::Ambassador]);
    assert_eq!(state.state_type, StateType::Turn { player: 1 });
}

#[test]
fn seeded_shuffle_reorders_the_deck() {
    let mut rng = StdRng::seed_from_u64(42);
    let game = Game::new(Settings { players_number: 2, cards_per_type: 3 }, &mut rng);
    let mut dealt: Vec<Card> = game.state.deck.known.clone();
    dealt.extend(hand(&game, 0));
    dealt.extend(hand(&game, 1));
    let unshuffled = make_deck(3);
    assert_eq!(dealt.len(), unshuffled.len());
    assert_ne!(game.state.deck.known, unshuffled[..11].to_vec());
    let mut sorted = dealt.clone();
    sorted.sort();
    assert_eq!(sorted, unshuffled);
}

#[test]
fn fresh_deck_holds_each_card_in_order() {
    assert_eq!(
        make_deck(2),
        vec![
            Card::Assassin,
            Card::Assassin,
            Card::Ambassador,
            Card::Ambassador,
            Card::Captain,
            Card::Captain,
            Card::Contessa,
            Card::Contessa,
            Card::Duke,
            Card::Duke,
        ]
    );
    assert!(make_deck(0).is_empty());
}

#[test]
fn winner_is_unknown_until_one_player_is_left() {
    let game = Game::custom(vec![vec![Card::Duke, Card::Duke], vec![Card::Captain, Card::Captain]], vec![]);
    assert!(!game.is_done());
    assert_eq!(game.get_winner(), None);
    let mut rng = StdRng::seed_from_u64(7);
    let mut game = game;
    game.state.player_coins[0] = 7;
    let actions = [
        act(0, ActionType::Coup(1)),
        act(1, ActionType::RevealCard(Card::Captain)),
        act(1, ActionType::Income),
        act(0, ActionType::Income),
    ];
    assert_eq!(play_all(&mut game, &actions, &mut rng), Ok(()));
    game.state.player_coins[0] = 7;
    let finish = [act(1, ActionType::Income), act(0, ActionType::Coup(1)), act(1, ActionType::RevealCard(Card::Captain))];
    assert_eq!(play_all(&mut game, &finish, &mut rng), Ok(()));
    assert!(game.is_done());
    assert_eq!(game.get_winner(), Some(0));
}

#[test]
fn tracker_never_grows_on_own_moves() {
    let settings = Settings { players_number: 3, cards_per_type: 2 };
    let mut rng = StdRng::seed_from_u64(42);
    let mut game = Game::new(settings, &mut rng);
    let mut tracker = CardsTracker::new(0, &hand(&game, 0), &settings);
    let before = tracker.game_states.len();
    assert!(before > 1);
    let action = act(0, ActionType::Income);
    assert_eq!(game.play(&action, &mut rng), Ok(()));
    tracker.after_player_action(&game.get_player_view(0), &action);
    assert_eq!(tracker.game_states.len(), before);
    assert!(tracker.game_states.iter().all(|s| s.valid && s.state.player_coins[0] == 3));
}

#[test]
fn tracker_safety_follows_every_belief() {
    let settings = Settings { players_number: 2, cards_per_type: 1 };
    let tracker = CardsTracker::new(0, &vec![Card::Duke, Card::Contessa], &settings);
    assert_eq!(tracker.game_states.len(), 1);
    assert!(tracker.is_safe_action_type(0, &ActionType::ForeignAid));
    assert!(tracker.is_safe_action_type(0, &ActionType::Assassinate(1)));
    assert!(!tracker.is_safe_action_type(0, &ActionType::Steal(1)));
    assert!(tracker.is_safe_action_type(0, &ActionType::Income));
    let settings = Settings { players_number: 2, cards_per_type: 2 };
    let tracker = CardsTracker::new(0, &vec![Card::Duke, Card::Contessa], &settings);
    assert!(!tracker.is_safe_action_type(0, &ActionType::ForeignAid));
    assert!(tracker.game_states.iter().any(|s| !s.is_safe_action_type(0, &ActionType::ForeignAid, None, 2)));
}

#[test]
fn tracker_keeps_the_true_game_on_an_exchange() {
    let settings = Settings { players_number: 2, cards_per_type: 2 };
    let mut rng = StdRng::seed_from_u64(3);
    let mut game = Game::custom(
        vec![vec![Card::Assassin, Card::Duke], vec![Card::Ambassador, Card::Captain]],
        vec![Card::Contessa, Card::Contessa, Card::Duke, Card::Captain, Card::Ambassador, Card::Assassin],
    );
    let mut tracker = CardsTracker::new(0, &hand(&game, 0), &settings);
    let actions = [
        act(0, ActionType::Income),
        act(1, ActionType::Exchange),
        act(1, ActionType::PassChallenge),
        act(1, ActionType::TakeCard),
        act(1, ActionType::TakeCard),
        act(1, ActionType::DropCard(Card::Ambassador)),
        act(1, ActionType::DropCard(Card::Captain)),
    ];
    for action in actions {
        assert_eq!(game.play(&action, &mut rng), Ok(()));
        if action.player == 0 {
            tracker.after_player_action(&game.get_player_view(0), &action);
        } else {
            tracker.after_opponent_action(&game.get_player_view(0), &ActionView::from_action(&action));
        }
        assert!(!tracker.game_states.is_empty());
        let view = game.get_anonymous_view();
        for belief in &tracker.game_states {
            assert_eq!(belief.state.state_type, view.state_type);
            assert_eq!(belief.state.player_coins, view.player_coins);
            assert_eq!(belief.state.player_cards_counter, view.player_cards);
        }
    }
    assert_eq!(tracker.last_action, Some(ActionView { player: 1, action_type: ActionTypeView::DropCard }));
}

#[test]
fn initial_beliefs_place_the_other_copies() {
    let settings = Settings { players_number: 2, cards_per_type: 2 };
    let states = GameState::initial(0, &vec![Card::Duke, Card::Assassin], &settings);
    assert_eq!(states.len(), 4);
    for state in &states {
        assert_eq!(state.state.player_cards[0], GamePlayerCards::Player(vec![Card::Assassin, Card::Duke]));
        let placed = state.state.deck.known.len()
            + match &state.state.player_cards[1] {
                GamePlayerCards::Opponent(c) => c.known.len(),
                GamePlayerCards::Player(_) => 0,
            };
        assert_eq!(placed, 2);
    }
}

#[test]
fn honesty_and_permission_read_the_hand() {
    let cards = vec![Card::Duke, Card::Captain];
    assert!(is_honest_action_type(&ActionType::Tax, &cards));
    assert!(!is_honest_action_type(&ActionType::Exchange, &cards));
    assert!(is_honest_action_type(&ActionType::Steal(1), &cards));
    assert!(!is_honest_action_type(&ActionType::BlockAssassination, &cards));
    assert!(is_honest_action_type(&ActionType::Income, &cards));
    assert!(is_allowed_action_type(&ActionType::RevealCard(Card::Duke), &cards));
    assert!(!is_allowed_action_type(&ActionType::DropCard(Card::Contessa), &cards));
    assert!(is_allowed_action_type(&ActionType::Tax, &cards));
}

#[test]
fn observed_moves_hide_only_the_returned_card() {
    assert_eq!(
        ActionView::from_action(&act(2, ActionType::DropCard(Card::Duke))),
        ActionView { player: 2, action_type: ActionTypeView::DropCard }
    );
    assert_eq!(ActionTypeView::DropCard.as_action_type(), None);
    assert_eq!(ActionTypeView::Steal(3).as_action_type(), Some(ActionType::Steal(3)));
    assert_eq!(ActionTypeView::ShowCard(Card::Duke).as_action_type(), Some(ActionType::ShowCard(Card::Duke)));
}

fn sub_multiset(small: &[Card], big: &[Card]) -> bool {
    let mut rest = big.to_vec();
    for card in small {
        match rest.iter().position(|c| c == card) {
            Some(i) => {
                rest.remove(i);
            }
            None => return false,
        }
    }
    true
}

fn agrees(belief: &GameState, game: &Game, me: usize) -> bool {
    let b = &belief.state;
    let g = &game.state;
    if b.state_type != g.state_type
        || b.player_coins != g.player_coins
        || b.player_hands != g.player_hands
        || b.player_cards_counter != g.player_cards_counter
        || b.revealed_cards != g.revealed_cards
        || b.player_cards.len() != g.player_cards.len()
    {
        return false;
    }
    for p in 0..g.player_cards.len() {
        let real = hand(game, p);
        match &b.player_cards[p] {
            GamePlayerCards::Player(cards) => {
                if p != me || *cards != real {
                    return false;
                }
            }
            GamePlayerCards::Opponent(c) => {
                if p == me || c.known.len() + c.unknown != real.len() || !sub_multiset(&c.known, &real) {
                    return false;
                }
            }
        }
    }
    b.deck.known.len() + b.deck.unknown == g.deck.known.len() && sub_multiset(&b.deck.known, &g.deck.known)
}

fn true_game_stays_believed(seed: u64, settings: Settings, steps: usize) {
    let mut rng = StdRng::seed_from_u64(seed);
    let mut game = Game::new(settings, &mut rng);
    let mut tracker = CardsTracker::new(0, &hand(&game, 0), &settings);
    assert!(tracker.game_states.iter().any(|b| agrees(b, &game, 0)));
    for _ in 0..steps {
        if game.is_done() || !game.is_player_active(0) {
            break;
        }
        let view = game.get_anonymous_view();
        let mut moves: Vec<Action> = get_available_actions(&view.state_type, &view.player_coins, &view.player_hands)
            .into_iter()
            .filter(|a| is_allowed_action_type(&a.action_type, &hand(&game, a.player)))
            .collect();
        moves.sort_by_key(|a| format!("{:?}", a));
        let pick = (rng_index(&mut rng)) % moves.len();
        let action = moves[pick];
        assert_eq!(game.play(&action, &mut rng), Ok(()));
        if action.player == 0 {
            tracker.after_player_action(&game.get_player_view(0), &action);
        } else {
            tracker.after_opponent_action(&game.get_player_view(0), &ActionView::from_action(&action));
        }
        assert!(
            tracker.game_states.iter().any(|b| agrees(b, &game, 0)),
            "no belief agrees with the game after {:?}",
            action
        );
    }
}

fn rng_index(rng: &mut StdRng) -> usize {
    rng.gen::<u32>() as usize
}

#[test]
fn tracker_keeps_a_belief_that_agrees_with_the_game() {
    for seed in 0..6 {
        true_game_stays_believed(seed, Settings { players_number: 3, cards_per_type: 2 }, 60);
    }
    for seed in 10..13 {
        true_game_stays_believed(seed, Settings { players_number: 2, cards_per_type: 3 }, 60);
    }
}

fn one_belief_tracker(deck_known: Vec<Card>, deck_unknown: usize) -> CardsTracker {
    let state = State {
        state_type: StateType::Turn { player: 0 },
        player_coins: vec![2, 2],
        player_hands: vec![2, 2],
        player_cards_counter: vec![2, 2],
        player_cards: vec![
            GamePlayerCards::Player(vec![Card::Assassin, Card::Captain]),
            GamePlayerCards::Opponent(CardCollection { known: vec![], unknown: 2 }),
        ],
        deck: CardCollection { known: deck_known, unknown: deck_unknown },
        revealed_cards: vec![],
    };
    CardsTracker { player: 0, cards_per_type: 1, game_states: vec![GameState { valid: true, state }], last_action: None }
}

#[test]
fn safety_counts_known_cards_in_the_deck() {
    let tracker = one_belief_tracker(vec![Card::Duke], 0);
    assert!(tracker.is_safe_action_type(0, &ActionType::ForeignAid));
    assert!(tracker.is_safe_action_type(0, &ActionType::Assassinate(1)));
    let unknown_deck = one_belief_tracker(vec![], 1);
    assert!(!unknown_deck.is_safe_action_type(0, &ActionType::ForeignAid));
}

#[test]
fn careful_bot_keeps_only_honest_safe_moves_in_order() {
    let tracker = one_belief_tracker(vec![Card::Duke], 0);
    let actions = vec![
        act(0, ActionType::Income),
        act(0, ActionType::Tax),
        act(0, ActionType::ForeignAid),
        act(0, ActionType::Steal(1)),
        act(0, ActionType::Exchange),
    ];
    let kept = coup::run::honest_careful_actions(&tracker, 0, &actions, &vec![Card::Assassin, Card::Captain]);
    assert_eq!(kept, vec![act(0, ActionType::Income), act(0, ActionType::ForeignAid)]);
}

#[test]
fn players_are_asked_in_turn_and_the_last_must_move() {
    let players = vec![3, 1, 2];
    assert_eq!(coup::run::next_to_ask(&players, 0), Some((3, true)));
    assert_eq!(coup::run::next_to_ask(&players, 1), Some((1, true)));
    assert_eq!(coup::run::next_to_ask(&players, 2), Some((2, false)));
    assert_eq!(coup::run::next_to_ask(&players, 3), None);
}

#[test]
fn listed_moves_are_never_repeated() {
    let settings = get_example_settings();
    let mut rng = StdRng::seed_from_u64(42);
    let mut game = Game::new(settings, &mut rng);
    for action in get_example_actions() {
        let view = game.get_anonymous_view();
        let available = get_available_actions(&view.state_type, &view.player_coins, &view.player_hands);
        for i in 0..available.len() {
            for j in i + 1..available.len() {
                assert_ne!(available[i], available[j]);
            }
        }
        assert_eq!(game.play(&action, &mut rng), Ok(()));
    }
}
