//! A Hanabi bot's game model: identities of cards, the public game state,
//! what each player knows about every card, and the elimination rules that
//! keep that knowledge consistent.

pub mod basics;
pub mod command;
pub mod console;
pub mod fix;
pub mod reactor;
pub mod replay;
pub mod text;
