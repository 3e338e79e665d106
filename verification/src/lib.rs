//! A romanized-Japanese typing trainer core: phonetic candidate expansion,
//! a per-keystroke matcher, a timed session engine, and score derivation.

pub mod text;
pub mod romaji;
pub mod game;
pub mod level;
pub mod stats;
pub mod score;
pub mod config;
