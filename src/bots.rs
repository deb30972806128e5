use vstd::prelude::*;

use crate::cards::Card;
use crate::fsm::{Action, ActionType};

verus! {

/// A move as the other players observe it: the card a player returns to the deck is hidden.
#[derive(Debug, Clone, Copy, PartialEq, Eq, Structural)]
pub struct ActionView {
    pub player: usize,
    pub action_type: ActionTypeView,
}

#[derive(Debug, Clone, Copy, PartialEq, Eq, Structural)]
pub enum ActionTypeView {
    Income,
    ForeignAid,
    Coup(usize),
    Tax,
    Assassinate(usize),
    Exchange,
    Steal(usize),
    BlockForeignAid,
    BlockAssassination,
    BlockSteal(Card),
    PassChallenge,
    PassBlock,
    Challenge,
    ShowCard(Card),
    RevealCard(Card),
    DropCard,
    TakeCard,
    ShuffleDeck,
}

/// What others see of a move of kind `t`.
pub open spec fn observed(t: ActionType) -> ActionTypeView {
    match t {
        ActionType::Income => ActionTypeView::Income,
        ActionType::ForeignAid => ActionTypeView::ForeignAid,
        ActionType::Coup(x) => ActionTypeView::Coup(x),
        ActionType::Tax => ActionTypeView::Tax,
        ActionType::Assassinate(x) => ActionTypeView::Assassinate(x),
        ActionType::Exchange => ActionTypeView::Exchange,
        ActionType::Steal(x) => ActionTypeView::Steal(x),
        ActionType::BlockForeignAid => ActionTypeView::BlockForeignAid,
        ActionType::BlockAssassination => ActionTypeView::BlockAssassination,
        ActionType::BlockSteal(c) => ActionTypeView::BlockSteal(c),
        ActionType::PassChallenge => ActionTypeView::PassChallenge,
        ActionType::PassBlock => ActionTypeView::PassBlock,
        ActionType::Challenge => ActionTypeView::Challenge,
        ActionType::ShowCard(c) => ActionTypeView::ShowCard(c),
        ActionType::RevealCard(c) => ActionTypeView::RevealCard(c),
        ActionType::DropCard(..) => ActionTypeView::DropCard,
        ActionType::TakeCard => ActionTypeView::TakeCard,
        ActionType::ShuffleDeck => ActionTypeView::ShuffleDeck,
    }
}

/// The move an observation tells completely, if it does (all but a returned card).
pub open spec fn action_of(v: ActionTypeView) -> Option<ActionType> {
    match v {
        ActionTypeView::Income => Some(ActionType::Income),
        ActionTypeView::ForeignAid => Some(ActionType::ForeignAid),
        ActionTypeView::Coup(x) => Some(ActionType::Coup(x)),
        ActionTypeView::Tax => Some(ActionType::Tax),
        ActionTypeView::Assassinate(x) => Some(ActionType::Assassinate(x)),
        ActionTypeView::Exchange => Some(ActionType::Exchange),
        ActionTypeView::Steal(x) => Some(ActionType::Steal(x)),
        ActionTypeView::BlockForeignAid => Some(ActionType::BlockForeignAid),
        ActionTypeView::BlockAssassination => Some(ActionType::BlockAssassination),
        ActionTypeView::BlockSteal(c) => Some(ActionType::BlockSteal(c)),
        ActionTypeView::PassChallenge => Some(ActionType::PassChallenge),
        ActionTypeView::PassBlock => Some(ActionType::PassBlock),
        ActionTypeView::Challenge => Some(ActionType::Challenge),
        ActionTypeView::ShowCard(c) => Some(ActionType::ShowCard(c)),
        ActionTypeView::RevealCard(c) => Some(ActionType::RevealCard(c)),
        ActionTypeView::TakeCard => Some(ActionType::TakeCard),
        ActionTypeView::ShuffleDeck => Some(ActionType::ShuffleDeck),
        ActionTypeView::DropCard => None,
    }
}

impl ActionTypeView {
    pub fn from_action_type(value: &ActionType) -> (r: Self)
        ensures
            r == observed(*value),
    {
        match value {
            ActionType::Income => ActionTypeView::Income,
            ActionType::ForeignAid => ActionTypeView::ForeignAid,
            ActionType::Coup(target) => ActionTypeView::Coup(*target),
            ActionType::Tax => ActionTypeView::Tax,
            ActionType::Assassinate(target) => ActionTypeView::Assassinate(*target),
            ActionType::Exchange => ActionTypeView::Exchange,
            ActionType::Steal(target) => ActionTypeView::Steal(*target),
            ActionType::BlockForeignAid => ActionTypeView::BlockForeignAid,
            ActionType::BlockAssassination => ActionTypeView::BlockAssassination,
            ActionType::BlockSteal(card) => ActionTypeView::BlockSteal(*card),
            ActionType::PassChallenge => ActionTypeView::PassChallenge,
            ActionType::PassBlock => ActionTypeView::PassBlock,
            ActionType::Challenge => ActionTypeView::Challenge,
            ActionType::ShowCard(card) => ActionTypeView::ShowCard(*card),
            ActionType::RevealCard(card) => ActionTypeView::RevealCard(*card),
            ActionType::DropCard(..) => ActionTypeView::DropCard,
            ActionType::TakeCard => ActionTypeView::TakeCard,
            ActionType::ShuffleDeck => ActionTypeView::ShuffleDeck,
        }
    }

    /// The move observed, when the observation tells it completely (all but a returned card).
    pub fn as_action_type(&self) -> (r: Option<ActionType>)
        ensures
            r == action_of(*self),
            match r {
                Some(t) => observed(t) == *self && !(t is DropCard),
                None => *self == ActionTypeView::DropCard,
            },
    {
        match self {
            ActionTypeView::Income => Some(ActionType::Income),
            ActionTypeView::ForeignAid => Some(ActionType::ForeignAid),
            ActionTypeView::Coup(target) => Some(ActionType::Coup(*target)),
            ActionTypeView::Tax => Some(ActionType::Tax),
            ActionTypeView::Assassinate(target) => Some(ActionType::Assassinate(*target)),
            ActionTypeView::Exchange => Some(ActionType::Exchange),
            ActionTypeView::Steal(target) => Some(ActionType::Steal(*target)),
            ActionTypeView::BlockForeignAid => Some(ActionType::BlockForeignAid),
            ActionTypeView::BlockAssassination => Some(ActionType::BlockAssassination),
            ActionTypeView::BlockSteal(card) => Some(ActionType::BlockSteal(*card)),
            ActionTypeView::PassChallenge => Some(ActionType::PassChallenge),
            ActionTypeView::PassBlock => Some(ActionType::PassBlock),
            ActionTypeView::Challenge => Some(ActionType::Challenge),
            ActionTypeView::ShowCard(card) => Some(ActionType::ShowCard(*card)),
            ActionTypeView::RevealCard(card) => Some(ActionType::RevealCard(*card)),
            ActionTypeView::TakeCard => Some(ActionType::TakeCard),
            ActionTypeView::ShuffleDeck => Some(ActionType::ShuffleDeck),
            ActionTypeView::DropCard => None,
        }
    }
}

impl ActionView {
    pub fn from_action(value: &Action) -> (r: Self)
        ensures
            r.player == value.player,
            r.action_type == observed(value.action_type),
    {
        ActionView { player: value.player, action_type: ActionTypeView::from_action_type(&value.action_type) }
    }
}

fn holds(cards: &Vec<Card>, card: Card) -> (r: bool)
    ensures
        r == cards@.contains(card),
{
    crate::cards::find_card(cards, card).is_some()
}

/// A move that names a card (shown, revealed or returned) is open only to a holder of it.
pub fn is_allowed_action_type(action_type: &ActionType, cards: &Vec<Card>) -> (r: bool)
    ensures
        r == match *action_type {
            ActionType::ShowCard(c) | ActionType::RevealCard(c) | ActionType::DropCard(c) => cards@.contains(c),
            _ => true,
        },
{
    match action_type {
        ActionType::ShowCard(card) | ActionType::RevealCard(card) | ActionType::DropCard(card) => holds(cards, *card),
        _ => true,
    }
}

/// The card that a move claims to hold, if it claims one.
pub open spec fn claimed_card(t: ActionType) -> Option<Card> {
    match t {
        ActionType::Tax | ActionType::BlockForeignAid => Some(Card::Duke),
        ActionType::Assassinate(..) => Some(Card::Assassin),
        ActionType::Exchange => Some(Card::Ambassador),
        ActionType::Steal(..) => Some(Card::Captain),
        ActionType::BlockAssassination => Some(Card::Contessa),
        ActionType::BlockSteal(c) | ActionType::ShowCard(c) | ActionType::RevealCard(c)
        | ActionType::DropCard(c) => Some(c),
        _ => None,
    }
}

/// A move is honest when its player holds every card it claims.
pub fn is_honest_action_type(action_type: &ActionType, cards: &Vec<Card>) -> (r: bool)
    ensures
        r == match claimed_card(*action_type) {
            Some(c) => cards@.contains(c),
            None => true,
        },
{
    match action_type {
        ActionType::Tax | ActionType::BlockForeignAid => holds(cards, Card::Duke),
        ActionType::Assassinate(..) => holds(cards, Card::Assassin),
        ActionType::Exchange => holds(cards, Card::Ambassador),
        ActionType::Steal(..) => holds(cards, Card::Captain),
        ActionType::BlockAssassination => holds(cards, Card::Contessa),
        ActionType::BlockSteal(card) | ActionType::ShowCard(card) | ActionType::RevealCard(card)
        | ActionType::DropCard(card) => holds(cards, *card),
        _ => true,
    }
}

} // verus!
