//! Hierarchical abstraction of Texas Hold'em observations: streets, cards
//! and their canonical form under renaming of suits, abstractions,
//! histograms over abstractions, a ground metric with a greedy earth
//! mover's distance, hand strength and River equity, per-street encoders
//! with their binary format, and the k-means learner that builds one
//! street's abstractions from the next.
pub mod abstraction;
pub mod cards;
pub mod encoding;
pub mod equity;
pub mod evaluation;
pub mod histogram;
pub mod layer;
pub mod lookup;
pub mod metric;
pub mod potential;
pub mod street;
pub mod sum;
pub mod table;
