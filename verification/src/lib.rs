//! Landing-time scheduling for aircraft that share one runway.
//!
//! - [`problem`]: the instance, its solutions and what they cost.
//! - [`order`]: the landing order and the stable sort that restores it.
//! - [`neighborhood`]: moves of one arrival, and the zigzag along which
//!   improvements are looked for.
//! - [`metaheuristics`]: hill climbing and iterated local search over any
//!   [`metaheuristics::Problem`].
//! - [`annealing`]: the discrete part of simulated annealing and of the
//!   calibration of its starting temperature.
//! - [`random`]: the random source of the search.
//! - [`parser`]: the shape in which an instance is handed over, and the
//!   reading of an instance from the text of a file.
//! - [`text`]: lines, words and numbers of such a text.
//!
//! All costs are exact integers, counted in hundredths of a cost unit
//! ([`problem::COST_SCALE`]).
pub mod annealing;
pub mod metaheuristics;
pub mod neighborhood;
pub mod order;
pub mod parser;
pub mod problem;
pub mod random;
pub mod text;
