//! A Monte Carlo experiment on a generalised Monty Hall game.
//!
//! There are `n_door` doors and one prize. The player picks a door, the host
//! opens losing doors until `n_leftclose` doors stay closed (always keeping the
//! prize and the player's pick closed), and the player either stays or switches
//! to another closed door. The library runs single trials, folds them into a
//! tally, and parses and checks the experiment's parameters.

mod params;
mod random;

pub use random::DoorRng;
mod trial;
mod tally;

pub use params::{check_params, parse_args, parse_count, MontyError};


pub use trial::{eliminable_doors, simulate_monty_hall_once, switch_candidates, trial_outcome};
pub use tally::{simulate_monty_hall, tally_results, Tally};
