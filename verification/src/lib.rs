//! A generator of ASCII bonsai trees for the terminal.
pub mod canvas;
pub mod dice;
pub mod styles;
pub mod pot;
pub mod pine;
pub mod willow;
pub mod broadleaf;
pub mod bamboo;
pub mod grow;
pub mod color;
pub mod cli;
pub mod show;
