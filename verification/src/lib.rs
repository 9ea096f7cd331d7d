//! A library of card games played for points in a chat: the hands and rules of poker, the poker
//! lobby, coin flips, payments and the leaderboard.
pub mod cards;
pub mod hand;
pub mod ranking;
pub mod random;
pub mod events;
pub mod poker_game;
pub mod text;
pub mod game_id;
pub mod mention;
pub mod poker_lobby;
pub mod coinflip;
pub mod commands;
pub mod leaderboard;
pub mod messages;
pub mod poker_command;
