//! A hierarchical state machine engine.
//!
//! The states of a host object form a forest. Each state may have an enter
//! and an exit action and has a process action, all of them methods of the
//! host, addressed by state index. A message is processed by the current
//! leaf and, while no state handles it, bubbles to the ancestors. The first
//! transition that is asked for is applied once the bubbling is over: the
//! engine exits the current leaf and its ancestors, and enters the
//! destination and its ancestors, in both cases only below their nearest
//! shared active ancestor.
//!
//! - `state`: the records of the state table, the answers of process
//!   actions, the actions of a host, and the errors.
//! - `topology`: parent links as a forest, leaves, and what the cycle
//!   detector counts.
//! - `planner`: root paths, and the enter and exit lists of a transition.
//! - `engine`: what a dispatch does to the table, as a function of the
//!   answers that the process actions give.
//! - `executor`, `validate`, `dispatch`: the executable engine.
//! - `cycles`, `paths`, `bubbling`, `balance`: what holds of every table and
//!   every run of dispatches.
//! - `sample`: a three-level machine that counts its own actions.

pub mod state;
pub mod topology;
pub mod planner;
pub mod engine;
pub mod executor;
pub mod validate;
pub mod dispatch;
pub mod sample;
pub mod cycles;
pub mod paths;
pub mod bubbling;
pub mod balance;
