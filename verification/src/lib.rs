//! A generic bisection engine: given two states of an ordered search space, one
//! that shows an issue and one that does not, it narrows the bracket between
//! them until it reaches the state at which the issue disappears.
//!
//! - `state` holds the two capabilities that a caller supplies, `State` and
//!   `Issue`, and the laws that they have to obey.
//! - `bisector` holds the model of a search, the `IssueBisector` that runs
//!   it, and what is proved of every search: where it ends, how many probes
//!   it takes, and what a failing probe does to it.
//! - `integer` holds a verified pair of capabilities, points on the number
//!   line and a limit, and what is proved of searches over them.

pub mod bisector;
pub mod integer;
pub mod state;

pub use bisector::{BisectorError, IssueBisector};
pub use state::{Issue, State};
