use coup::belief::GameState;
use coup::bots::ActionView;
use coup::cards::{Card, CardCollection, GamePlayerCards};
use coup::fsm::{Action, ActionType, ChallengeState, State, StateType};
use coup::game::{Game, Settings};
use coup::tracker::CardsTracker;
use rand::rngs::StdRng;
use rand::SeedableRng;

fn play_actions(
    actions: &[Action],
    game: &mut Game,
    tracker: &mut CardsTracker,
    rng: &mut StdRng,
) -> Result<(), String> {
    for i in 0..actions.len() {
        let action = &actions[i];
        println!("Play {:?}", action);
        if let Err(e) = game.play(action, rng) {
            return Err(e);
        }
        if action.player == 0 {
            tracker.after_player_action(&game.get_player_view(0), action);
        } else {
            tracker.after_opponent_action(
                &game.get_player_view(0),
                &ActionView::from_action(&action),
            );
        }
    }
    Ok(())
}

#[test]
fn initial_game_states_for_hand_with_equal_cards_should_be_valid() {
    let settings = Settings {
        players_number: 6,
        cards_per_type: 3,
    };
    for target_player in 0..settings.players_number {
        let game_states = GameState::initial(
            target_player,
            &vec![Card::Captain, Card::Captain],
            &settings,
        );
        assert_eq!(game_states.len(), 6);
        for game_state in game_states.iter() {
            assert!(game_state.valid);
            assert_eq!(game_state.state.revealed_cards.len(), 0);
            assert_eq!(game_state.state.deck.known.len() + game_state.state.deck.unknown, 3);
            assert_eq!(game_state.state.player_coins.len(), 6);
            assert_eq!(game_state.state.player_hands.len(), 6);
            assert_eq!(game_state.state.player_cards_counter.len(), 6);
            assert_eq!(game_state.state.player_cards.len(), 6);
            for player in 0..game_state.state.player_cards.len() {
                assert_eq!(game_state.state.player_coins[player], 2, "{}", player);
                assert_eq!(game_state.state.player_hands[player], 2, "{}", player);
                assert_eq!(game_state.state.player_cards_counter[player], 2, "{}", player);
                assert_eq!(game_state.state.player_cards[player].count(), 2, "{}", player);
                if player != target_player {
                    assert!(
                        matches!(
                            game_state.state.player_cards[player],
                            GamePlayerCards::Opponent(..)
                        ),
                        "{:?}",
                        game_state.state.player_cards[player]
                    );
                }
            }
            assert_eq!(
                game_state.state.player_cards[target_player],
                GamePlayerCards::Player(vec![Card::Captain, Card::Captain])
            );
        }
    }
}

#[test]
fn initial_game_states_for_hand_with_different_cards_should_be_valid() {
    let settings = Settings {
        players_number: 6,
        cards_per_type: 3,
    };
    for target_player in 0..settings.players_number {
        let game_states =
            GameState::initial(target_player, &vec![Card::Duke, Card::Captain], &settings);
        assert_eq!(game_states.len(), 385);
        for game_state in game_states.iter() {
            assert!(game_state.valid);
            assert_eq!(game_state.state.revealed_cards.len(), 0);
            assert_eq!(game_state.state.deck.known.len() + game_state.state.deck.unknown, 3);
            assert_eq!(game_state.state.player_coins.len(), 6);
            assert_eq!(game_state.state.player_hands.len(), 6);
            assert_eq!(game_state.state.player_cards_counter.len(), 6);
            assert_eq!(game_state.state.player_cards.len(), 6);
            for player in 0..game_state.state.player_cards.len() {
                assert_eq!(game_state.state.player_coins[player], 2, "{}", player);
                assert_eq!(game_state.state.player_hands[player], 2, "{}", player);
                assert_eq!(game_state.state.player_cards_counter[player], 2, "{}", player);
                assert_eq!(game_state.state.player_cards[player].count(), 2, "{}", player);
                if player != target_player {
                    assert!(
                        matches!(
                            game_state.state.player_cards[player],
                            GamePlayerCards::Opponent(..)
                        ),
                        "{:?}",
                        game_state.state.player_cards[player]
                    );
                }
            }
            assert_eq!(
                game_state.state.player_cards[target_player],
                GamePlayerCards::Player(vec![Card::Captain, Card::Duke])
            );
        }
    }
}

#[test]
fn cards_tracker_should_reveal_player_card() {
    let hand = vec![Card::Assassin, Card::Assassin];
    let settings = Settings {
        players_number: 2,
        cards_per_type: 2,
    };
    let mut tracker = CardsTracker::new(0, &hand, &settings);
    let mut rng = StdRng::seed_from_u64(42);
    let mut game = Game::new(settings.clone(), &mut rng);
    let actions = [
        Action {
            player: 0,
            action_type: ActionType::Exchange,
        },
        Action {
            player: 1,
            action_type: ActionType::Challenge,
        },
        Action {
            player: 0,
            action_type: ActionType::RevealCard(Card::Assassin),
        },
    ];
    assert_eq!(
        play_actions(&actions, &mut game, &mut tracker, &mut rng),
        Ok(())
    );
    assert_eq!(
        tracker.game_states,
        vec![GameState {
            valid: true,
                state: State {
            state_type: StateType::Turn { player: 1 },
            player_coins: vec![2, 2],
            player_hands: vec![1, 2],
            player_cards_counter: vec![1, 2],
            player_cards: vec![
                GamePlayerCards::Player(vec![Card::Assassin]),
                GamePlayerCards::Opponent(CardCollection {
                    known: vec![],
                    unknown: 2
                }),
            ],
            revealed_cards: vec![Card::Assassin],
            deck: CardCollection {
                known: vec![],
                unknown: 6
            },
        },
            },]
    );
}

#[test]
fn cards_tracker_should_reveal_opponent_cards() {
    let settings = Settings {
        players_number: 2,
        cards_per_type: 2,
    };
    let mut rng = StdRng::seed_from_u64(42);
    let mut game = Game::custom(
        vec![
            vec![Card::Ambassador, Card::Ambassador],
            vec![Card::Assassin, Card::Assassin],
        ],
        vec![
            Card::Captain,
            Card::Duke,
            Card::Contessa,
            Card::Duke,
            Card::Captain,
            Card::Contessa,
        ],
    );
    let hand: Vec<Card> = game.get_player_view(0).cards.into();
    let mut tracker = CardsTracker::new(0, &hand, &settings);
    let actions = [
        Action {
            player: 0,
            action_type: ActionType::Exchange,
        },
        Action {
            player: 1,
            action_type: ActionType::Challenge,
        },
        Action {
            player: 0,
            action_type: ActionType::ShowCard(Card::Ambassador),
        },
        Action {
            player: 1,
            action_type: ActionType::RevealCard(Card::Assassin),
        },
    ];
    assert_eq!(
        play_actions(&actions, &mut game, &mut tracker, &mut rng),
        Ok(())
    );
    assert_eq!(
        tracker.game_states,
        vec![GameState {
            valid: true,
                state: State {
            state_type: StateType::Challenge {
                current_player: 0,
                source: Box::new(StateType::Exchange { player: 0 }),
                state: ChallengeState::InitiatorRevealedCard { target: 0 },
            },
            player_coins: vec![2, 2],
            player_hands: vec![2, 1],
            player_cards_counter: vec![1, 1],
            player_cards: vec![
                GamePlayerCards::Player(vec![Card::Ambassador]),
                GamePlayerCards::Opponent(CardCollection {
                    known: vec![],
                    unknown: 1
                }),
            ],
            revealed_cards: vec![Card::Assassin],
            deck: CardCollection {
                known: vec![Card::Ambassador],
                unknown: 6
            },
        },
            },]
    );
}

#[test]
fn cards_tracker_should_pop_cards_from_deck_for_player() {
    let settings = Settings {
        players_number: 2,
        cards_per_type: 2,
    };
    let mut rng = StdRng::seed_from_u64(42);
    let mut game = Game::custom(
        vec![
            vec![Card::Ambassador, Card::Ambassador],
            vec![Card::Assassin, Card::Assassin],
        ],
        vec![
            Card::Captain,
            Card::Duke,
            Card::Contessa,
            Card::Duke,
            Card::Captain,
            Card::Contessa,
        ],
    );
    let hand: Vec<Card> = game.get_player_view(0).cards.into();
    let mut tracker = CardsTracker::new(0, &hand, &settings);
    let actions = [
        Action {
            player: 0,
            action_type: ActionType::Exchange,
        },
        Action {
            player: 1,
            action_type: ActionType::Challenge,
        },
        Action {
            player: 0,
            action_type: ActionType::ShowCard(Card::Ambassador),
        },
        Action {
            player: 1,
            action_type: ActionType::RevealCard(Card::Assassin),
        },
        Action {
            player: 0,
            action_type: ActionType::ShuffleDeck,
        },
        Action {
            player: 0,
            action_type: ActionType::TakeCard,
        },
    ];
    assert_eq!(
        play_actions(&actions, &mut game, &mut tracker, &mut rng),
        Ok(())
    );
    assert_eq!(
        tracker.game_states,
        vec![GameState {
            valid: true,
                state: State {
            state_type: StateType::NeedCards {
                player: 0,
                count: 2
            },
            player_coins: vec![2, 2],
            player_hands: vec![2, 1],
            player_cards_counter: vec![2, 1],
            player_cards: vec![
                GamePlayerCards::Player(vec![Card::Ambassador, Card::Duke]),
                GamePlayerCards::Opponent(CardCollection {
                    known: vec![],
                    unknown: 1
                }),
            ],
            revealed_cards: vec![Card::Assassin],
            deck: CardCollection {
                known: vec![Card::Ambassador],
                unknown: 5
            },
        },
            },]
    );
}

#[test]
fn cards_tracker_should_push_cards_to_deck_for_player() {
    let settings = Settings {
        players_number: 2,
        cards_per_type: 2,
    };
    let mut rng = StdRng::seed_from_u64(42);
    let mut game = Game::custom(
        vec![
            vec![Card::Ambassador, Card::Ambassador],
            vec![Card::Assassin, Card::Assassin],
        ],
        vec![
            Card::Captain,
            Card::Duke,
            Card::Contessa,
            Card::Duke,
            Card::Captain,
            Card::Contessa,
        ],
    );
    let hand: Vec<Card> = game.get_player_view(0).cards.into();
    let mut tracker = CardsTracker::new(0, &hand, &settings);
    let actions = [
        Action {
            player: 0,
            action_type: ActionType::Exchange,
        },
        Action {
            player: 1,
            action_type: ActionType::Challenge,
        },
        Action {
            player: 0,
            action_type: ActionType::ShowCard(Card::Ambassador),
        },
        Action {
            player: 1,
            action_type: ActionType::RevealCard(Card::Assassin),
        },
        Action {
            player: 0,
            action_type: ActionType::ShuffleDeck,
        },
        Action {
            player: 0,
            action_type: ActionType::TakeCard,
        },
        Action {
            player: 0,
            action_type: ActionType::TakeCard,
        },
        Action {
            player: 0,
            action_type: ActionType::TakeCard,
        },
        Action {
            player: 0,
            action_type: ActionType::DropCard(Card::Ambassador),
        },
        Action {
            player: 0,
            action_type: ActionType::DropCard(Card::Duke),
        },
    ];
    assert_eq!(
        play_actions(&actions, &mut game, &mut tracker, &mut rng),
        Ok(())
    );
    assert_eq!(
        tracker.game_states,
        vec![GameState {
            valid: true,
                state: State {
            state_type: StateType::Turn { player: 1 },
            player_coins: vec![2, 2],
            player_hands: vec![2, 1],
            player_cards_counter: vec![2, 1],
            player_cards: vec![
                GamePlayerCards::Player(vec![Card::Captain, Card::Duke]),
                GamePlayerCards::Opponent(CardCollection {
                    known: vec![],
                    unknown: 1
                }),
            ],
            revealed_cards: vec![Card::Assassin],
            deck: CardCollection {
                known: vec![Card::Ambassador, Card::Ambassador, Card::Duke],
                unknown: 3
            },
        },
            },]
    );
}

#[test]
fn cards_tracker_should_pop_cards_from_deck_for_opponent() {
    let settings = Settings {
        players_number: 2,
        cards_per_type: 2,
    };
    let mut rng = StdRng::seed_from_u64(42);
    let mut game = Game::custom(
        vec![
            vec![Card::Assassin, Card::Assassin],
            vec![Card::Ambassador, Card::Ambassador],
        ],
        vec![
            Card::Captain,
            Card::Duke,
            Card::Contessa,
            Card::Duke,
            Card::Captain,
            Card::Contessa,
        ],
    );
    let hand: Vec<Card> = game.get_player_view(0).cards.into();
    let mut tracker = CardsTracker::new(0, &hand, &settings);
    let actions = [
        Action {
            player: 0,
            action_type: ActionType::Income,
        },
        Action {
            player: 1,
            action_type: ActionType::Exchange,
        },
        Action {
            player: 0,
            action_type: ActionType::Challenge,
        },
        Action {
            player: 1,
            action_type: ActionType::ShowCard(Card::Ambassador),
        },
        Action {
            player: 0,
            action_type: ActionType::RevealCard(Card::Assassin),
        },
        Action {
            player: 1,
            action_type: ActionType::ShuffleDeck,
        },
        Action {
            player: 1,
            action_type: ActionType::TakeCard,
        },
    ];
    assert_eq!(
        play_actions(&actions, &mut game, &mut tracker, &mut rng),
        Ok(())
    );
    for game_state in tracker.game_states.iter() {
        assert!(
            matches!(
                game_state.state.state_type,
                StateType::NeedCards {
                    player: 1,
                    count: 2
                }
            ),
            "{:?}",
            game_state.state.state_type
        );
    }
    assert_eq!(
        tracker.game_states,
        vec![
            GameState {
                valid: true,
                state: State {
                state_type: StateType::NeedCards {
                    player: 1,
                    count: 2
                },
                player_coins: vec![3, 2],
                player_hands: vec![1, 2],
                player_cards_counter: vec![1, 2],
                player_cards: vec![
                    GamePlayerCards::Player(vec![Card::Assassin]),
                    GamePlayerCards::Opponent(CardCollection {
                        known: vec![],
                        unknown: 2
                    }),
                ],
                revealed_cards: vec![Card::Assassin],
                deck: CardCollection {
                    known: vec![Card::Ambassador],
                    unknown: 5
                },
            },
            },
            GameState {
                valid: true,
                state: State {
                state_type: StateType::NeedCards {
                    player: 1,
                    count: 2
                },
                player_coins: vec![3, 2],
                player_hands: vec![1, 2],
                player_cards_counter: vec![1, 2],
                player_cards: vec![
                    GamePlayerCards::Player(vec![Card::Assassin]),
                    GamePlayerCards::Opponent(CardCollection {
                        known: vec![Card::Ambassador],
                        unknown: 1
                    }),
                ],
                revealed_cards: vec![Card::Assassin],
                deck: CardCollection {
                    known: vec![],
                    unknown: 6
                },
            },
            },
        ]
    );
}

#[test]
fn cards_tracker_should_push_cards_to_deck_for_opponent() {
    let settings = Settings {
        players_number: 2,
        cards_per_type: 2,
    };
    let mut rng = StdRng::seed_from_u64(42);
    let mut game = Game::custom(
        vec![
            vec![Card::Assassin, Card::Assassin],
            vec![Card::Ambassador, Card::Ambassador],
        ],
        vec![
            Card::Captain,
            Card::Duke,
            Card::Contessa,
            Card::Duke,
            Card::Captain,
            Card::Contessa,
        ],
    );
    let hand: Vec<Card> = game.get_player_view(0).cards.into();
    let mut tracker = CardsTracker::new(0, &hand, &settings);
    let actions = [
        Action {
            player: 0,
            action_type: ActionType::Income,
        },
        Action {
            player: 1,
            action_type: ActionType::Exchange,
        },
        Action {
            player: 0,
            action_type: ActionType::Challenge,
        },
        Action {
            player: 1,
            action_type: ActionType::ShowCard(Card::Ambassador),
        },
        Action {
            player: 0,
            action_type: ActionType::RevealCard(Card::Assassin),
        },
        Action {
            player: 1,
            action_type: ActionType::ShuffleDeck,
        },
        Action {
            player: 1,
            action_type: ActionType::TakeCard,
        },
        Action {
            player: 1,
            action_type: ActionType::TakeCard,
        },
        Action {
            player: 1,
            action_type: ActionType::TakeCard,
        },
        Action {
            player: 1,
            action_type: ActionType::DropCard(Card::Duke),
        },
        Action {
            player: 1,
            action_type: ActionType::DropCard(Card::Captain),
        },
    ];
    assert_eq!(
        play_actions(&actions, &mut game, &mut tracker, &mut rng),
        Ok(())
    );
    for game_state in tracker.game_states.iter() {
        assert!(
            matches!(game_state.state.state_type, StateType::Turn { player: 0 }),
            "{:?}",
            game_state.state.state_type
        );
    }
    assert_eq!(
        tracker.game_states,
        vec![
            GameState {
                valid: true,
                state: State {
                state_type: StateType::Turn { player: 0 },
                player_coins: vec![3, 2],
                player_hands: vec![1, 2],
                player_cards_counter: vec![1, 2],
                player_cards: vec![
                    GamePlayerCards::Player(vec![Card::Assassin]),
                    GamePlayerCards::Opponent(CardCollection {
                        known: vec![],
                        unknown: 2
                    }),
                ],
                revealed_cards: vec![Card::Assassin],
                deck: CardCollection {
                    known: vec![Card::Ambassador],
                    unknown: 5
                },
            },
            },
            GameState {
                valid: true,
                state: State {
                state_type: StateType::Turn { player: 0 },
                player_coins: vec![3, 2],
                player_hands: vec![1, 2],
                player_cards_counter: vec![1, 2],
                player_cards: vec![
                    GamePlayerCards::Player(vec![Card::Assassin]),
                    GamePlayerCards::Opponent(CardCollection {
                        known: vec![Card::Ambassador],
                        unknown: 1
                    }),
                ],
                revealed_cards: vec![Card::Assassin],
                deck: CardCollection {
                    known: vec![],
                    unknown: 6
                },
            },
            },
        ]
    );
}
