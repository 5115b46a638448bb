//! A ticket service core: session-token parsing, per-request identity
//! resolution, the authentication guard, and an id-stable ticket store.

pub mod error;
pub mod ctx;
pub mod token;
pub mod auth;
pub mod model;

pub use error::Error;
pub use ctx::Ctx;
pub use model::{ModelController, Ticket, TicketForCreate};
