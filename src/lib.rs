//! A shared, append-only conversation graph that peers edit on their own and
//! bring together through per-peer deltas, and a walker that holds a chat over it.

pub mod cloud;
pub mod persona;
pub mod phrase;
pub mod tracker;
pub mod database;
pub mod equality;
pub mod chat;
pub mod laws;
pub mod convergence;
