//! A bounded, single-producer, multi-consumer broadcast channel: every value
//! sent goes to every reader, through a ring buffer of seats.
pub mod model;
pub mod tally;
pub mod slots;
pub mod bus;
pub mod laws;

pub use bus::{Bus, BusReader, TryRecvError};
pub use model::{BusView, RxState};
