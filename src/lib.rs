//! Klondike solitaire: the card registry, the stacking rules, the move
//! resolver and the pile layout, with their contracts.

pub mod card;
pub mod deck;
pub mod game;
pub mod input;
pub mod cardlist;
pub mod layout;
pub mod session;
pub mod table;
pub mod waste;
