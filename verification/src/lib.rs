//! Audio buffering, mixing helpers and command logic of a Discord voice bot.

pub mod audio;
pub mod commands;
pub mod db;
