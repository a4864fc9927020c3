//! RAT RACER, a terminal highway chase: the rules of the game and the pictures it draws.
//!
//! A game is moved on by [`game::Game::update`], reacts to keys in [`game::Game::on_key`],
//! and is drawn by [`frame::draw`]. Positions, speeds and timers are doubles, whose
//! arithmetic stands in [`num`], [`arith`] and [`rounding`].

pub mod angles;
pub mod approach;
pub mod arith;
pub mod arrivals;
mod chance;
pub mod contact;
pub mod controls;
pub mod course;
pub mod crash;
pub mod dice;
pub mod difficulty;
pub mod drift;
pub mod encounters;
pub mod entities;
pub mod figures;
pub mod frame;
pub mod game;
pub mod geometry;
pub mod grounds;
pub mod handling;
pub mod hiscore;
pub mod hud;
pub mod input;
pub mod letters;
pub mod measure;
pub mod num;
pub mod odds;
pub mod paint;
pub mod panels;
pub mod passage;
pub mod promises;
pub mod readings;
pub mod reward;
pub mod rounding;
pub mod running;
pub mod sights;
pub mod signals;
pub mod simulation;
pub mod sprites;
pub mod style;
pub mod terrain;
pub mod text;
pub mod traffic;
pub mod verge;
pub mod world;
