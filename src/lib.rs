//! Texas Hold'em equity engine: cards, a 7-card evaluator, a seeded
//! Monte Carlo driver, the 169 preflop hand classes and a preflop table.
use vstd::prelude::*;

pub mod cards;
pub mod evaluate;
pub mod hand_class;
pub mod rng;
pub mod simulate;
pub mod preflop_table;
pub mod request;
pub mod exact;

verus! {

} // verus!
