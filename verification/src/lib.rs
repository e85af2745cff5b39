//! A resource-constrained project-scheduling library: a schedule model with
//! precedence and capacity constraints, penalty and repair procedures, a
//! chromosome interpreter, and the building blocks of an evaluation-budget
//! driven metaheuristic search (individuals, variation, selection, archive).

pub mod assignment;
pub mod constraint;
pub mod driver;
pub mod hall_of_fame;
pub mod individual;
pub mod instance;
pub mod interpreter;
pub mod relation_type;
pub mod resource;
pub mod schedule;
pub mod selection;
pub mod utils;
pub mod variation;
mod rng;
