use coup::cards::{Card, GamePlayerCards};
use coup::fsm::{Action, ActionType, StateType};
use coup::game::{get_example_actions, get_example_settings, Game, Settings};
use coup::actions::get_available_actions;
use rand::rngs::StdRng;
use rand::SeedableRng;

fn cards_of(game: &Game, player: usize) -> Vec<Card> {
    match &game.state.player_cards[player] {
        GamePlayerCards::Player(cards) => cards.clone(),
        GamePlayerCards::Opponent(cards) => cards.known.clone(),
    }
}

fn cards_mut(game: &mut Game, player: usize) -> &mut Vec<Card> {
    match &mut game.state.player_cards[player] {
        GamePlayerCards::Player(cards) => cards,
        GamePlayerCards::Opponent(cards) => &mut cards.known,
    }
}

fn all_cards(game: &Game) -> Vec<Vec<Card>> {
    (0..game.state.player_cards.len()).map(|p| cards_of(game, p)).collect()
}

fn play_actions(actions: &[Action], game: &mut Game, rng: &mut StdRng) -> Result<(), String> {
    for i in 0..actions.len() {
        let action = &actions[i];
        let view = game.get_player_view(action.player);
        let available_actions = get_available_actions(&view.state_type, &view.player_coins, &view.player_hands);
        println!("Play {:?}", action);
        match game.play(action, rng) {
            Ok(_) => {
                assert!(available_actions.contains(action), "{}) played action {:?} is not considered as available: {:?}", i, action, available_actions);
            }
            Err(e) => {
                assert!(!available_actions.contains(action), "{}) failed action {:?} is considered as available: {:?}", i, action, available_actions);
                return Err(e);
            }
        }
    }
    Ok(())
}

#[test]
fn income_should_add_coin_and_start_new_turn() {
    let mut rng = StdRng::seed_from_u64(42);
    let mut game = Game::new(Settings { players_number: 2, cards_per_type: 1 }, &mut rng);
    assert_eq!(
        game.play(&Action {
            player: 0,
            action_type: ActionType::Income,
        }, &mut rng),
        Ok(())
    );
    assert_eq!(game.state.player_coins[0], 3);
}

#[test]
fn unblocked_foreign_aid_should_add_coins() {
    let mut rng = StdRng::seed_from_u64(42);
    let mut game = Game::new(Settings { players_number: 2, cards_per_type: 1 }, &mut rng);
    let actions = [
        Action {
            player: 0,
            action_type: ActionType::ForeignAid,
        },
        Action {
            player: 0,
            action_type: ActionType::PassBlock,
        },
    ];
    assert_eq!(play_actions(&actions, &mut game, &mut rng), Ok(()));
    assert_eq!(game.state.state_type, StateType::Turn { player: 1 });
    assert_eq!(game.state.player_coins[0], 4);
}

#[test]
fn blocked_foreign_aid_should_not_add_coins() {
    let mut rng = StdRng::seed_from_u64(42);
    let mut game = Game::new(Settings { players_number: 2, cards_per_type: 1 }, &mut rng);
    let actions = [
        Action {
            player: 0,
            action_type: ActionType::ForeignAid,
        },
        Action {
            player: 1,
            action_type: ActionType::BlockForeignAid,
        },
        Action {
            player: 1,
            action_type: ActionType::PassChallenge,
        },
    ];
    assert_eq!(play_actions(&actions, &mut game, &mut rng), Ok(()));
    assert_eq!(game.state.state_type, StateType::Turn { player: 1 });
    assert_eq!(game.state.player_coins, vec![2, 2]);
}

#[test]
fn failed_challenge_on_block_foreign_aid_should_fail_foreign_aid() {
    let mut rng = StdRng::seed_from_u64(42);
    let mut game = Game::new(Settings { players_number: 2, cards_per_type: 1 }, &mut rng);
    let actions = [
        Action {
            player: 0,
            action_type: ActionType::ForeignAid,
        },
        Action {
            player: 1,
            action_type: ActionType::BlockForeignAid,
        },
        Action {
            player: 0,
            action_type: ActionType::Challenge,
        },
        Action {
            player: 1,
            action_type: ActionType::ShowCard(Card::Duke),
        },
        Action {
            player: 0,
            action_type: ActionType::RevealCard(cards_of(&game, 0)[0]),
        },
        Action {
            player: 1,
            action_type: ActionType::ShuffleDeck,
        },
        Action {
            player: 1,
            action_type: ActionType::TakeCard,
        },
    ];
    assert_eq!(play_actions(&actions, &mut game, &mut rng), Ok(()));
    assert_eq!(game.state.state_type, StateType::Turn { player: 1 });
    assert_eq!(game.state.player_coins, vec![2, 2]);
    assert_eq!(all_cards(&game), vec![
        vec![Card::Contessa],
        vec![Card::Assassin, Card::Captain],
    ]);
    assert_eq!(game.state.revealed_cards, vec![Card::Ambassador]);
}

#[test]
fn successful_challenge_for_block_foreign_aid_should_allow_first_aid() {
    let mut rng = StdRng::seed_from_u64(42);
    let mut game = Game::new(Settings { players_number: 2, cards_per_type: 1 }, &mut rng);
    let actions = [
        Action {
            player: 0,
            action_type: ActionType::ForeignAid,
        },
        Action {
            player: 1,
            action_type: ActionType::BlockForeignAid,
        },
        Action {
            player: 0,
            action_type: ActionType::Challenge,
        },
        Action {
            player: 1,
            action_type: ActionType::RevealCard(cards_of(&game, 1)[0]),
        },
        Action {
            player: 0,
            action_type: ActionType::PassBlock,
        },
    ];
    assert_eq!(play_actions(&actions, &mut game, &mut rng), Ok(()));
    assert_eq!(game.state.state_type, StateType::Turn { player: 1 });
    assert_eq!(game.state.player_coins, vec![4, 2]);
    assert_eq!(all_cards(&game), vec![
        vec![Card::Ambassador, Card::Contessa],
        vec![Card::Duke],
    ]);
    assert_eq!(game.state.revealed_cards, vec![Card::Captain]);
}

#[test]
fn unchallenged_tax_should_add_coins() {
    let mut rng = StdRng::seed_from_u64(42);
    let mut game = Game::new(Settings { players_number: 2, cards_per_type: 1 }, &mut rng);
    let actions = [
        Action {
            player: 0,
            action_type: ActionType::Tax,
        },
        Action {
            player: 0,
            action_type: ActionType::PassChallenge,
        },
    ];
    assert_eq!(play_actions(&actions, &mut game, &mut rng), Ok(()));
    assert_eq!(game.state.state_type, StateType::Turn { player: 1 });
    assert_eq!(game.state.player_coins[0], 5);
}

#[test]
fn coup_should_subtract_coins_add_lead_to_lost_influence() {
    let mut rng = StdRng::seed_from_u64(42);
    let mut game = Game::new(Settings { players_number: 2, cards_per_type: 1 }, &mut rng);
    game.state.player_coins[0] = 7;
    assert_eq!(
        game.play(&Action {
            player: 0,
            action_type: ActionType::Coup(1),
        }, &mut rng),
        Ok(())
    );
    assert_eq!(game.state.state_type, StateType::LostInfluence { player: 1, current_player: 0 });
    assert_eq!(game.state.player_coins[0], 0);
}

#[test]
fn coup_against_not_active_player_should_return_error() {
    let mut rng = StdRng::seed_from_u64(42);
    let mut game = Game::new(Settings { players_number: 2, cards_per_type: 1 }, &mut rng);
    game.state.player_coins[0] = 7;
    game.state.player_hands[1] = 0;
    cards_mut(&mut game, 1).clear();
    assert_eq!(
        game.play(&Action {
            player: 0,
            action_type: ActionType::Coup(1),
        }, &mut rng),
        Err(String::from("State machine check is failed: InvalidTarget"))
    );
    assert_eq!(game.state.state_type, StateType::Turn { player: 0 });
}

#[test]
fn block_steal_after_steal_should_add_counteraction() {
    let mut rng = StdRng::seed_from_u64(42);
    let mut game = Game::new(Settings { players_number: 2, cards_per_type: 1 }, &mut rng);
    let actions = [
        Action {
            player: 0,
            action_type: ActionType::Steal(1),
        },
        Action {
            player: 0,
            action_type: ActionType::PassChallenge,
        },
        Action {
            player: 1,
            action_type: ActionType::BlockSteal(Card::Ambassador),
        },
    ];
    assert_eq!(play_actions(&actions, &mut game, &mut rng), Ok(()));
    assert_eq!(game.state.state_type, StateType::BlockSteal { player: 1, target: 0, card: Card::Ambassador });
}

#[test]
fn block_steal_should_fail_for_non_targeted_player() {
    let mut rng = StdRng::seed_from_u64(42);
    let mut game = Game::new(Settings { players_number: 3, cards_per_type: 2 }, &mut rng);
    let actions = [
        Action {
            player: 0,
            action_type: ActionType::Steal(1),
        },
        Action {
            player: 0,
            action_type: ActionType::PassChallenge,
        },
        Action {
            player: 2,
            action_type: ActionType::BlockSteal(Card::Captain),
        },
    ];
    assert_eq!(
        play_actions(&actions, &mut game, &mut rng),
        Err(String::from("State machine check is failed: InvalidTarget"))
    );
    assert_eq!(game.state.state_type, StateType::Steal { player: 0, target: 1, can_challenge: false });
}

#[test]
fn successful_challenged_block_steal_should_prevent_steal() {
    let mut rng = StdRng::seed_from_u64(42);
    let mut game = Game::new(Settings { players_number: 2, cards_per_type: 1 }, &mut rng);
    cards_mut(&mut game, 1)[0] = Card::Ambassador;
    let actions = [
        Action {
            player: 0,
            action_type: ActionType::Steal(1),
        },
        Action {
            player: 0,
            action_type: ActionType::PassChallenge,
        },
        Action {
            player: 1,
            action_type: ActionType::BlockSteal(Card::Ambassador),
        },
        Action {
            player: 0,
            action_type: ActionType::Challenge,
        },
        Action {
            player: 1,
            action_type: ActionType::ShowCard(Card::Ambassador),
        },
        Action {
            player: 0,
            action_type: ActionType::RevealCard(cards_of(&game, 0)[0]),
        },
        Action {
            player: 1,
            action_type: ActionType::ShuffleDeck,
        },
        Action {
            player: 1,
            action_type: ActionType::TakeCard,
        },
    ];
    assert_eq!(play_actions(&actions, &mut game, &mut rng), Ok(()));
    assert_eq!(game.state.state_type, StateType::Turn { player: 1 });
    assert_eq!(game.state.player_coins[0], 2);
    assert_eq!(game.state.player_coins[1], 2);
}

#[test]
fn successful_steal_should_transfer_coins_from_target_to_theft() {
    let mut rng = StdRng::seed_from_u64(42);
    let mut game = Game::new(Settings { players_number: 2, cards_per_type: 1 }, &mut rng);
    let actions = [
        Action {
            player: 0,
            action_type: ActionType::Steal(1),
        },
        Action {
            player: 0,
            action_type: ActionType::PassChallenge,
        },
        Action {
            player: 0,
            action_type: ActionType::PassBlock,
        },
    ];
    assert_eq!(play_actions(&actions, &mut game, &mut rng), Ok(()));
    assert_eq!(game.state.state_type, StateType::Turn { player: 1 });
    assert_eq!(game.state.player_coins[0], 4);
    assert_eq!(game.state.player_coins[1], 0);
}

#[test]
fn successful_steal_challenge_should_prevent_stealing() {
    let mut rng = StdRng::seed_from_u64(42);
    let mut game = Game::new(Settings { players_number: 2, cards_per_type: 1 }, &mut rng);
    let actions = [
        Action {
            player: 0,
            action_type: ActionType::Steal(1),
        },
        Action {
            player: 1,
            action_type: ActionType::Challenge,
        },
        Action {
            player: 0,
            action_type: ActionType::RevealCard(cards_of(&game, 0)[0]),
        },
    ];
    assert_eq!(play_actions(&actions, &mut game, &mut rng), Ok(()));
    assert_eq!(game.state.state_type, StateType::Turn { player: 1 });
    assert_eq!(game.state.player_coins[0], 2);
    assert_eq!(game.state.player_coins[1], 2);
}

#[test]
fn failed_steal_challenge_should_transfer_coins() {
    let mut rng = StdRng::seed_from_u64(42);
    let mut game = Game::new(Settings { players_number: 2, cards_per_type: 1 }, &mut rng);
    cards_mut(&mut game, 0)[0] = Card::Captain;
    let actions = [
        Action {
            player: 0,
            action_type: ActionType::Steal(1),
        },
        Action {
            player: 1,
            action_type: ActionType::Challenge,
        },
        Action {
            player: 0,
            action_type: ActionType::ShowCard(cards_of(&game, 0)[0]),
        },
        Action {
            player: 1,
            action_type: ActionType::RevealCard(cards_of(&game, 1)[0]),
        },
        Action {
            player: 0,
            action_type: ActionType::ShuffleDeck,
        },
        Action {
            player: 0,
            action_type: ActionType::TakeCard,
        },
        Action {
            player: 0,
            action_type: ActionType::PassBlock,
        },
    ];
    assert_eq!(play_actions(&actions, &mut game, &mut rng), Ok(()));
    assert_eq!(game.state.state_type, StateType::Turn { player: 1 });
    assert_eq!(game.state.player_coins[0], 4);
    assert_eq!(game.state.player_coins[1], 0);
}

#[test]
fn failed_steal_challenge_for_targeted_player_with_one_card_should_transfer_coins() {
    let mut rng = StdRng::seed_from_u64(42);
    let mut game = Game::new(Settings { players_number: 2, cards_per_type: 1 }, &mut rng);
    cards_mut(&mut game, 0)[0] = Card::Captain;
    game.state.player_hands[1] = 1;
    game.state.player_cards_counter[1] = 1;
    cards_mut(&mut game, 1).remove(1);
    let actions = [
        Action {
            player: 0,
            action_type: ActionType::Steal(1),
        },
        Action {
            player: 1,
            action_type: ActionType::Challenge,
        },
        Action {
            player: 0,
            action_type: ActionType::ShowCard(cards_of(&game, 0)[0]),
        },
        Action {
            player: 1,
            action_type: ActionType::RevealCard(cards_of(&game, 1)[0]),
        },
        Action {
            player: 0,
            action_type: ActionType::ShuffleDeck,
        },
        Action {
            player: 0,
            action_type: ActionType::TakeCard,
        },
        Action {
            player: 0,
            action_type: ActionType::PassBlock,
        },
    ];
    assert_eq!(play_actions(&actions, &mut game, &mut rng), Ok(()));
    assert_eq!(game.state.state_type, StateType::Turn { player: 0 });
    assert_eq!(game.state.player_coins[0], 4);
    assert_eq!(game.state.player_coins[1], 0);
    assert_eq!(game.state.player_hands[1], 0);
    assert_eq!(game.state.player_cards_counter[1], 0);
    assert_eq!(cards_of(&game, 1), vec![]);
}

#[test]
fn assassinate_should_subtract_coins() {
    let mut rng = StdRng::seed_from_u64(42);
    let mut game = Game::new(Settings { players_number: 2, cards_per_type: 1 }, &mut rng);
    game.state.player_coins[0] = 3;
    assert_eq!(
        game.play(&Action {
            player: 0,
            action_type: ActionType::Assassinate(1),
        }, &mut rng),
        Ok(())
    );
    assert_eq!(game.state.player_coins[0], 0);
}

#[test]
fn block_assassinate_should_fail_for_non_targeted_player() {
    let mut rng = StdRng::seed_from_u64(42);
    let mut game = Game::new(Settings { players_number: 3, cards_per_type: 2 }, &mut rng);
    game.state.player_coins[0] = 3;
    let actions = [
        Action {
            player: 0,
            action_type: ActionType::Assassinate(1),
        },
        Action {
            player: 0,
            action_type: ActionType::PassChallenge,
        },
        Action {
            player: 2,
            action_type: ActionType::BlockAssassination,
        },
    ];
    assert_eq!(
        play_actions(&actions, &mut game, &mut rng),
        Err(String::from("State machine check is failed: InvalidTarget"))
    );
}

#[test]
fn failed_assassination_challenge_should_end_game_for_targeted_player() {
    let mut rng = StdRng::seed_from_u64(42);
    let mut game = Game::new(Settings { players_number: 3, cards_per_type: 2 }, &mut rng);
    game.state.player_coins[0] = 3;
    cards_mut(&mut game, 0)[0] = Card::Assassin;
    let actions = [
        Action {
            player: 0,
            action_type: ActionType::Assassinate(1),
        },
        Action {
            player: 1,
            action_type: ActionType::Challenge,
        },
        Action {
            player: 0,
            action_type: ActionType::ShowCard(Card::Assassin),
        },
        Action {
            player: 1,
            action_type: ActionType::RevealCard(cards_of(&game, 1)[0]),
        },
        Action {
            player: 0,
            action_type: ActionType::ShuffleDeck,
        },
        Action {
            player: 0,
            action_type: ActionType::TakeCard,
        },
        Action {
            player: 0,
            action_type: ActionType::PassBlock,
        },
        Action {
            player: 1,
            action_type: ActionType::RevealCard(cards_of(&game, 1)[1]),
        },
    ];
    assert_eq!(play_actions(&actions, &mut game, &mut rng), Ok(()));
    assert_eq!(game.state.state_type, StateType::Turn { player: 2 });
    assert_eq!(game.state.player_coins[0], 0);
    assert_eq!(game.state.player_hands[1], 0);
    assert_eq!(game.state.player_cards_counter[1], 0);
    assert_eq!(cards_of(&game, 1), vec![]);
    assert_eq!(game.state.revealed_cards, vec![Card::Ambassador, Card::Duke]);
}

#[test]
fn failed_assassination_challenge_for_targeted_player_with_one_card_should_not_allow_it_to_block() {
    let mut rng = StdRng::seed_from_u64(42);
    let mut game = Game::new(Settings { players_number: 3, cards_per_type: 2 }, &mut rng);
    game.state.player_coins[0] = 3;
    cards_mut(&mut game, 0)[0] = Card::Assassin;
    game.state.player_hands[1] = 1;
    game.state.player_cards_counter[1] = 1;
    cards_mut(&mut game, 1).remove(1);
    let actions = [
        Action {
            player: 0,
            action_type: ActionType::Assassinate(1),
        },
        Action {
            player: 1,
            action_type: ActionType::Challenge,
        },
        Action {
            player: 0,
            action_type: ActionType::ShowCard(Card::Assassin),
        },
        Action {
            player: 1,
            action_type: ActionType::RevealCard(cards_of(&game, 1)[0]),
        },
        Action {
            player: 0,
            action_type: ActionType::ShuffleDeck,
        },
        Action {
            player: 0,
            action_type: ActionType::TakeCard,
        },
        Action {
            player: 0,
            action_type: ActionType::PassBlock,
        },
    ];
    assert_eq!(play_actions(&actions, &mut game, &mut rng), Ok(()));
    assert_eq!(game.state.state_type, StateType::Turn { player: 2 });
    assert_eq!(game.state.player_coins[0], 0);
    assert_eq!(game.state.player_hands[1], 0);
    assert_eq!(game.state.player_cards_counter[1], 0);
    assert_eq!(cards_of(&game, 1), vec![]);
    assert_eq!(game.state.revealed_cards, vec![Card::Ambassador]);
}

#[test]
fn successful_exchange_should_replace_cards_with_deck() {
    let mut rng = StdRng::seed_from_u64(42);
    let mut game = Game::new(Settings { players_number: 3, cards_per_type: 2 }, &mut rng);
    game.state.player_coins[0] = 3;
    cards_mut(&mut game, 0)[0] = Card::Assassin;
    let actions = [
        Action {
            player: 0,
            action_type: ActionType::Exchange,
        },
        Action {
            player: 0,
            action_type: ActionType::PassChallenge,
        },
        Action {
            player: 0,
            action_type: ActionType::TakeCard,
        },
        Action {
            player: 0,
            action_type: ActionType::TakeCard,
        },
        Action {
            player: 0,
            action_type: ActionType::DropCard(cards_of(&game, 0)[0]),
        },
        Action {
            player: 0,
            action_type: ActionType::DropCard(cards_of(&game, 0)[1]),
        },
    ];
    assert_eq!(play_actions(&actions, &mut game, &mut rng), Ok(()));
    assert_eq!(game.state.state_type, StateType::Turn { player: 1 });
    assert_eq!(cards_of(&game, 0), vec![Card::Captain, Card::Duke]);
}

#[test]
fn successful_challenge_for_exchange_should_prevent_exchange() {
    let mut rng = StdRng::seed_from_u64(42);
    let mut game = Game::new(Settings { players_number: 2, cards_per_type: 1 }, &mut rng);
    let actions = [
        Action {
            player: 0,
            action_type: ActionType::Exchange,
        },
        Action {
            player: 1,
            action_type: ActionType::Challenge,
        },
        Action {
            player: 0,
            action_type: ActionType::RevealCard(cards_of(&game, 0)[0]),
        },
    ];
    assert_eq!(play_actions(&actions, &mut game, &mut rng), Ok(()));
    assert_eq!(game.state.state_type, StateType::Turn { player: 1 });
}

#[test]
fn play_full_game_should_set_a_winner() {
    let actions = get_example_actions();
    let mut rng = StdRng::seed_from_u64(42);
    let mut game = Game::new(get_example_settings(), &mut rng);
    assert_eq!(play_actions(&actions, &mut game, &mut rng), Ok(()));
    assert!(game.is_done());
    assert_eq!(game.get_winner(), Some(4));
    assert_eq!(game.step(), actions.len());
    assert_eq!(game.turn(), 45);
    assert_eq!(game.round(), 9);
}
