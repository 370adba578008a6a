//! Core of a continuous double-auction matching venue: per-instrument order
//! books with price-time priority matching, and the single-writer engine that
//! serializes all operations across instruments.

pub mod engine;
pub mod models;
pub mod order_book;
