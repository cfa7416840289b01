//! A real-time forager simulation that stands between a population-based
//! optimizer and its fitness function: every evaluation request becomes a
//! forager that flies to the candidate, gathers for as long as the candidate
//! is good, and flies back before the result is released to the waiting
//! optimizer worker.
pub mod context;
pub mod coords;
pub mod flight;
pub mod logic;
pub mod spmc;
pub mod state;
pub mod visual;
