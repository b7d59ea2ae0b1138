//! What the operations are for: relations between their inputs and results, over all inputs.

pub mod bounds;
pub mod choices;
pub mod circuits;
pub mod commands;
pub mod counts;
pub mod faults;
pub mod formulas;
pub mod lists;
pub mod meanings;
pub mod readings;
pub mod reports;
pub mod residue;
pub mod sizes;
pub mod steps;
pub mod texts;
pub mod totals;
pub mod weights;
