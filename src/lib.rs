//! Ant Colony System solver for the symmetric travelling salesman problem.
//!
//! All quantities are integers. Distances are whole numbers of a length unit
//! chosen by the caller; the file reader uses thousandths of the file's unit
//! (`input_parser::FIXED_ONE`). Trail levels are fixed-point values with
//! scale `pheromone::PHEROMONE_ONE`, and rates and probabilities have scale
//! `pheromone::RATE_ONE`.
//!
//! - `tsp_instance`: the distance matrix and tour lengths.
//! - `pheromone`: the trail matrix and its blend update.
//! - `tsp_solver`: move selection, ants, the nearest-neighbour baseline and
//!   the colony iterations.
//! - `input_parser`: reading problem and tour files given as lines of bytes.

pub mod input_parser;
pub mod pheromone;
pub mod tsp_instance;
pub mod tsp_solver;
