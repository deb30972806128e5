use coup::cards::{Card, CardCollection, DeckDraw, GamePlayerCards};
use coup::fsm::{play_action, Action, ActionType, Error, State, StateType};

fn hands(cards: Vec<Vec<Card>>) -> Vec<GamePlayerCards> {
    cards.into_iter().map(GamePlayerCards::Player).collect()
}

fn two_players() -> State {
    State {
        state_type: StateType::Turn { player: 0 },
        player_coins: vec![2, 2],
        player_hands: vec![2, 2],
        player_cards_counter: vec![2, 2],
        player_cards: hands(vec![
            vec![Card::Assassin, Card::Captain],
            vec![Card::Ambassador, Card::Duke],
        ]),
        deck: CardCollection { known: vec![Card::Contessa], unknown: 0 },
        revealed_cards: Vec::with_capacity(5),
    }
}

fn four_players() -> State {
    State {
        state_type: StateType::Turn { player: 0 },
        player_coins: vec![2, 2, 2, 2],
        player_hands: vec![2, 2, 1, 0],
        player_cards_counter: vec![2, 2, 1, 0],
        player_cards: hands(vec![
            vec![Card::Assassin, Card::Captain],
            vec![Card::Ambassador, Card::Duke],
            vec![Card::Contessa, Card::Assassin],
            vec![Card::Captain, Card::Ambassador],
        ]),
        deck: CardCollection { known: vec![Card::Duke, Card::Contessa], unknown: 0 },
        revealed_cards: Vec::with_capacity(2 * 5),
    }
}

fn play_actions(state: &mut State, actions: &[Action]) -> Result<(), Error> {
    for action in actions {
        println!("Play action={:?} for state={:?}", action, state);
        match play_action(action, state, DeckDraw::Top, None) {
            Ok(..) => (),
            Err(error) => return Err(error),
        }
    }
    Ok(())
}

#[test]
fn income_for_turn_should_return_turn_for_next_player() {
    let mut state = two_players();
    assert_eq!(
        play_action(
            &Action { player: 0, action_type: ActionType::Income },
            &mut state,
            DeckDraw::Top,
            None,
        ),
        Ok(()),
    );
    assert_eq!(state.state_type, StateType::Turn { player: 1 });
    assert_eq!(state.player_coins[0], 3);
}

#[test]
fn foreign_aid_for_turn_should_return_foreign_aid() {
    let mut state = two_players();
    assert_eq!(
        play_action(
            &Action { player: 0, action_type: ActionType::ForeignAid },
            &mut state,
            DeckDraw::Top,
            None,
        ),
        Ok(()),
    );
    assert_eq!(state.state_type, StateType::ForeignAid { player: 0 });
}

#[test]
fn tax_for_turn_should_return_tax() {
    let mut state = two_players();
    assert_eq!(
        play_action(
            &Action { player: 0, action_type: ActionType::ForeignAid },
            &mut state,
            DeckDraw::Top,
            None,
        ),
        Ok(()),
    );
    assert_eq!(state.state_type, StateType::ForeignAid { player: 0 });
}

#[test]
fn assassinate_for_turn_should_return_assassination() {
    let mut state = two_players();
    state.player_coins[0] = 3;
    assert_eq!(
        play_action(
            &Action { player: 0, action_type: ActionType::Assassinate(1) },
            &mut state,
            DeckDraw::Top,
            None,
        ),
        Ok(()),
    );
    assert_eq!(state.state_type, StateType::Assassination { player: 0, target: 1, can_challenge: true });
    assert_eq!(state.player_coins, vec![0, 2]);
}

#[test]
fn steal_for_turn_should_return_steal() {
    let mut state = two_players();
    assert_eq!(
        play_action(
            &Action { player: 0, action_type: ActionType::Steal(1) },
            &mut state,
            DeckDraw::Top,
            None,
        ),
        Ok(()),
    );
    assert_eq!(state.state_type, StateType::Steal { player: 0, target: 1, can_challenge: true });
}

#[test]
fn coup_for_turn_should_return_lost_influence() {
    let mut state = two_players();
    state.player_coins[0] = 7;
    assert_eq!(
        play_action(
            &Action { player: 0, action_type: ActionType::Coup(1) },
            &mut state,
            DeckDraw::Top,
            None,
        ),
        Ok(()),
    );
    assert_eq!(state.state_type, StateType::LostInfluence { player: 1, current_player: 0 });
    assert_eq!(state.player_coins[0], 0);
}

#[test]
fn exchange_for_turn_should_return_exchange() {
    let mut state = two_players();
    assert_eq!(
        play_action(
            &Action { player: 0, action_type: ActionType::Exchange },
            &mut state,
            DeckDraw::Top,
            None,
        ),
        Ok(()),
    );
    assert_eq!(state.state_type, StateType::Exchange { player: 0 });
}

#[test]
fn reveal_card_for_lost_influence_should_return_turn_for_next_player() {
    let mut state = two_players();
    state.state_type = StateType::LostInfluence { player: 1, current_player: 0 };
    assert_eq!(
        play_action(
            &Action { player: 1, action_type: ActionType::RevealCard(Card::Ambassador) },
            &mut state,
            DeckDraw::Top,
            None,
        ),
        Ok(()),
    );
    assert_eq!(state.state_type, StateType::Turn { player: 1 });
}

#[test]
fn pass_block_for_turn_should_return_invalid_action_error() {
    let mut state = two_players();
    assert_eq!(
        play_action(
            &Action { player: 0, action_type: ActionType::PassBlock },
            &mut state,
            DeckDraw::Top,
            None,
        ),
        Err(Error::InvalidAction),
    );
    assert_eq!(state.state_type, StateType::Turn { player: 0 });
}

#[test]
fn block_foreign_aid_for_tax_should_return_invalid_action_error() {
    let mut state = two_players();
    state.state_type = StateType::Tax { player: 0 };
    assert_eq!(
        play_action(
            &Action { player: 0, action_type: ActionType::BlockForeignAid },
            &mut state,
            DeckDraw::Top,
            None,
        ),
        Err(Error::InvalidAction),
    );
    assert_eq!(state.state_type, StateType::Tax { player: 0 });
}

#[test]
fn successfully_blocked_foreign_aid_leads_to_next_turn() {
    let mut state = four_players();
    let actions = [
        Action { player: 0, action_type: ActionType::ForeignAid },
        Action { player: 1, action_type: ActionType::BlockForeignAid },
        Action { player: 1, action_type: ActionType::PassChallenge },
    ];
    assert_eq!(play_actions(&mut state, &actions), Ok(()));
    assert_eq!(state.state_type, StateType::Turn { player: 1 });
}

#[test]
fn successfully_challenged_blocked_foreign_aid_leads_to_next_turn() {
    let mut state = four_players();
    let actions = [
        Action { player: 0, action_type: ActionType::ForeignAid },
        Action { player: 1, action_type: ActionType::BlockForeignAid },
        Action { player: 2, action_type: ActionType::Challenge },
        Action { player: 1, action_type: ActionType::RevealCard(Card::Duke) },
        Action { player: 0, action_type: ActionType::PassBlock },
    ];
    assert_eq!(play_actions(&mut state, &actions), Ok(()));
    assert_eq!(state.state_type, StateType::Turn { player: 1 });
    assert_eq!(state.player_coins, vec![4, 2, 2, 2]);
}

#[test]
fn block_foreign_aid_can_be_successfully_challenged_multiple_times() {
    let mut state = four_players();
    let actions = [
        Action { player: 0, action_type: ActionType::ForeignAid },
        Action { player: 1, action_type: ActionType::BlockForeignAid },
        Action { player: 2, action_type: ActionType::Challenge },
        Action { player: 1, action_type: ActionType::RevealCard(Card::Ambassador) },
        Action { player: 2, action_type: ActionType::BlockForeignAid },
        Action { player: 0, action_type: ActionType::Challenge },
        Action { player: 2, action_type: ActionType::RevealCard(Card::Contessa) },
        Action { player: 0, action_type: ActionType::PassBlock },
    ];
    assert_eq!(play_actions(&mut state, &actions), Ok(()));
    assert_eq!(state.state_type, StateType::Turn { player: 1 });
    assert_eq!(state.player_coins, vec![4, 2, 2, 2]);
}

#[test]
fn failed_on_challenge_blocked_foreign_aid_leads_to_next_turn() {
    let mut state = four_players();
    let actions = [
        Action { player: 0, action_type: ActionType::ForeignAid },
        Action { player: 1, action_type: ActionType::BlockForeignAid },
        Action { player: 2, action_type: ActionType::Challenge },
        Action { player: 1, action_type: ActionType::ShowCard(Card::Duke) },
        Action { player: 2, action_type: ActionType::RevealCard(Card::Contessa) },
        Action { player: 1, action_type: ActionType::ShuffleDeck },
        Action { player: 1, action_type: ActionType::TakeCard },
    ];
    assert_eq!(play_actions(&mut state, &actions), Ok(()));
    assert_eq!(state.state_type, StateType::Turn { player: 1 });
    assert_eq!(state.player_coins, vec![2, 2, 2, 2]);
}

#[test]
fn unchallenged_tax_leads_to_next_turn() {
    let mut state = four_players();
    let actions = [
        Action { player: 0, action_type: ActionType::Tax },
        Action { player: 0, action_type: ActionType::PassChallenge },
    ];
    assert_eq!(play_actions(&mut state, &actions), Ok(()));
    assert_eq!(state.state_type, StateType::Turn { player: 1 });
    assert_eq!(state.player_coins, vec![5, 2, 2, 2]);
}

#[test]
fn successfully_challenged_tax_leads_to_next_turn() {
    let mut state = four_players();
    let actions = [
        Action { player: 0, action_type: ActionType::Tax },
        Action { player: 1, action_type: ActionType::Challenge },
        Action { player: 0, action_type: ActionType::RevealCard(Card::Assassin) },
    ];
    assert_eq!(play_actions(&mut state, &actions), Ok(()));
    assert_eq!(state.state_type, StateType::Turn { player: 1 });
}

#[test]
fn failed_tax_challenge_leads_to_next_turn() {
    let mut state = four_players();
    state.state_type = StateType::Turn { player: 1 };
    let actions = [
        Action { player: 1, action_type: ActionType::Tax },
        Action { player: 0, action_type: ActionType::Challenge },
        Action { player: 1, action_type: ActionType::ShowCard(Card::Duke) },
        Action { player: 0, action_type: ActionType::RevealCard(Card::Assassin) },
        Action { player: 1, action_type: ActionType::ShuffleDeck },
        Action { player: 1, action_type: ActionType::TakeCard },
    ];
    assert_eq!(play_actions(&mut state, &actions), Ok(()));
    assert_eq!(state.state_type, StateType::Turn { player: 2 });
    assert_eq!(state.player_coins, vec![2, 5, 2, 2]);
}

#[test]
fn block_assassination_can_be_challenged_by_any_player() {
    let mut state = four_players();
    state.player_coins[0] = 3;
    let actions = [
        Action { player: 0, action_type: ActionType::Assassinate(2) },
        Action { player: 0, action_type: ActionType::PassChallenge },
        Action { player: 2, action_type: ActionType::BlockAssassination },
        Action { player: 1, action_type: ActionType::Challenge },
        Action { player: 2, action_type: ActionType::ShowCard(Card::Contessa) },
        Action { player: 1, action_type: ActionType::RevealCard(Card::Ambassador) },
        Action { player: 2, action_type: ActionType::ShuffleDeck },
        Action { player: 2, action_type: ActionType::TakeCard },
    ];
    assert_eq!(play_actions(&mut state, &actions), Ok(()));
    assert_eq!(state.state_type, StateType::Turn { player: 1 });
    assert_eq!(state.player_coins, vec![0, 2, 2, 2]);
}

#[test]
fn successful_assassination_leads_to_next_turn_when_target_has_only_one_card_in_hand() {
    let mut state = four_players();
    state.player_coins[0] = 3;
    let actions = [
        Action { player: 0, action_type: ActionType::Assassinate(2) },
        Action { player: 1, action_type: ActionType::Challenge },
        Action { player: 0, action_type: ActionType::ShowCard(Card::Assassin) },
        Action { player: 1, action_type: ActionType::RevealCard(Card::Ambassador) },
        Action { player: 0, action_type: ActionType::ShuffleDeck },
        Action { player: 0, action_type: ActionType::TakeCard },
        Action { player: 2, action_type: ActionType::BlockAssassination },
        Action { player: 0, action_type: ActionType::Challenge },
        Action { player: 2, action_type: ActionType::RevealCard(Card::Contessa) },
        Action { player: 0, action_type: ActionType::PassBlock },
    ];
    assert_eq!(play_actions(&mut state, &actions), Ok(()));
    assert_eq!(state.state_type, StateType::Turn { player: 1 });
    assert_eq!(state.player_coins, vec![0, 2, 2, 2]);
}

#[test]
fn steal_can_be_challenged_by_any_and_blocked_by_target_player() {
    let mut state = four_players();
    let actions = [
        Action { player: 0, action_type: ActionType::Steal(1) },
        Action { player: 2, action_type: ActionType::Challenge },
        Action { player: 0, action_type: ActionType::ShowCard(Card::Captain) },
        Action { player: 2, action_type: ActionType::RevealCard(Card::Contessa) },
        Action { player: 0, action_type: ActionType::ShuffleDeck },
        Action { player: 0, action_type: ActionType::TakeCard },
        Action { player: 1, action_type: ActionType::BlockSteal(Card::Ambassador) },
        Action { player: 1, action_type: ActionType::PassChallenge },
    ];
    assert_eq!(play_actions(&mut state, &actions), Ok(()));
    assert_eq!(state.state_type, StateType::Turn { player: 1 });
    assert_eq!(state.player_coins, vec![2, 2, 2, 2]);
}

#[test]
fn successfully_challenged_steal_leads_to_next_turn() {
    let mut state = four_players();
    let actions = [
        Action { player: 0, action_type: ActionType::Steal(1) },
        Action { player: 2, action_type: ActionType::Challenge },
        Action { player: 0, action_type: ActionType::RevealCard(Card::Assassin) },
    ];
    assert_eq!(play_actions(&mut state, &actions), Ok(()));
    assert_eq!(state.state_type, StateType::Turn { player: 1 });
    assert_eq!(state.player_coins, vec![2, 2, 2, 2]);
}

#[test]
fn successful_steal_leads_to_next_turn() {
    let mut state = four_players();
    let actions = [
        Action { player: 0, action_type: ActionType::Steal(1) },
        Action { player: 1, action_type: ActionType::Challenge },
        Action { player: 0, action_type: ActionType::ShowCard(Card::Captain) },
        Action { player: 1, action_type: ActionType::RevealCard(Card::Ambassador) },
        Action { player: 0, action_type: ActionType::ShuffleDeck },
        Action { player: 0, action_type: ActionType::TakeCard },
        Action { player: 1, action_type: ActionType::BlockSteal(Card::Captain) },
        Action { player: 0, action_type: ActionType::Challenge },
        Action { player: 1, action_type: ActionType::RevealCard(Card::Duke) },
        Action { player: 0, action_type: ActionType::PassBlock },
    ];
    assert_eq!(play_actions(&mut state, &actions), Ok(()));
    assert_eq!(state.state_type, StateType::Turn { player: 2 });
    assert_eq!(state.player_coins, vec![4, 0, 2, 2]);
}

#[test]
fn block_steal_can_be_challenged_by_any_player() {
    let mut state = four_players();
    let actions = [
        Action { player: 0, action_type: ActionType::Steal(1) },
        Action { player: 0, action_type: ActionType::PassChallenge },
        Action { player: 1, action_type: ActionType::BlockSteal(Card::Captain) },
        Action { player: 2, action_type: ActionType::Challenge },
        Action { player: 1, action_type: ActionType::RevealCard(Card::Duke) },
        Action { player: 1, action_type: ActionType::BlockSteal(Card::Ambassador) },
        Action { player: 0, action_type: ActionType::Challenge },
        Action { player: 1, action_type: ActionType::ShowCard(Card::Ambassador) },
        Action { player: 0, action_type: ActionType::RevealCard(Card::Assassin) },
        Action { player: 1, action_type: ActionType::ShuffleDeck },
        Action { player: 1, action_type: ActionType::TakeCard },
    ];
    assert_eq!(play_actions(&mut state, &actions), Ok(()));
    assert_eq!(state.state_type, StateType::Turn { player: 1 });
    assert_eq!(state.player_coins, vec![2, 2, 2, 2]);
}

#[test]
fn successful_exchange_requires_to_drop_cards() {
    let mut state = four_players();
    state.state_type = StateType::Turn { player: 1 };
    let actions = [
        Action { player: 1, action_type: ActionType::Exchange },
        Action { player: 2, action_type: ActionType::Challenge },
        Action { player: 1, action_type: ActionType::ShowCard(Card::Ambassador) },
        Action { player: 2, action_type: ActionType::RevealCard(Card::Contessa) },
        Action { player: 1, action_type: ActionType::ShuffleDeck },
        Action { player: 1, action_type: ActionType::TakeCard },
        Action { player: 1, action_type: ActionType::TakeCard },
        Action { player: 1, action_type: ActionType::TakeCard },
        Action { player: 1, action_type: ActionType::DropCard(Card::Contessa) },
        Action { player: 1, action_type: ActionType::DropCard(Card::Duke) },
    ];
    assert_eq!(play_actions(&mut state, &actions), Ok(()));
    assert_eq!(state.state_type, StateType::Turn { player: 0 });
}
