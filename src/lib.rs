pub mod actions;
pub mod belief;
pub mod bots;
pub mod cards;
pub mod fsm;
pub mod game;
pub mod laws;
pub mod rng;
pub mod run;
pub mod tracker;
