//! Carry costs of open positions in a simulated venue.

use vstd::prelude::*;

pub mod calendar;
pub mod carry;
pub mod carry_laws;
pub mod cfd_swap;
pub mod funding_laws;
pub mod funding_rate;
pub mod ledger;
pub mod number;
pub mod rollover;
pub mod swap_laws;
