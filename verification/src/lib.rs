//! A rule engine that decides whether an agent's tool call is allowed,
//! denied, or needs the user's approval.

pub mod text;
pub mod decision;
pub mod rules;
pub mod evaluate;
pub mod bash;
pub mod path;
pub mod input;
pub mod hook;
pub mod laws;
