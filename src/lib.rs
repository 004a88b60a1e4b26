//! Boarding simulation of an aircraft cabin laid out as a grid of tiles.
//!
//! Passengers wait in a queue, board through entrance tiles, and walk
//! greedily towards their seats, one synchronous tick at a time.
//!
//! - `tile`, `person`: the grid cell state machine and the passengers.
//! - `aircraft`: the grid, the waiting queue, configuration and queries.
//! - `policy`: the greedy choice of move.
//! - `tick`: the scheduler that sweeps the grid once per tick.
//! - `model`: the tick as a function of the state, which `update` follows.
//! - `laws`, `movement`, `progress`: what holds of every run.
//! - `batch`, `config`: running many aircraft, building them from records.

pub mod aircraft;
pub mod batch;
pub mod config;
pub mod error;
pub mod laws;
pub mod model;
pub mod movement;
pub mod person;
pub mod policy;
pub mod progress;
pub mod tick;
pub mod tile;

pub use aircraft::{Aircraft, AircraftView};
pub use batch::{run_batch, run_unit};
pub use config::{
    append_row_passengers, layout_from_records, passenger_from_record, random_back_first,
    str_to_var, SeatData,
};
pub use error::SimError;
pub use person::{Behaviour, Person, PersonView};
pub use tile::{Tile, TileView, Variant};
