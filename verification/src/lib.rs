//! Wire protocol, authentication and server-state logic of the aegis-link
//! game server, with their contracts.

pub mod ack;
pub mod auth;
pub mod client;
pub mod clock;
pub mod dashboard;
pub mod packet;
pub mod rate_limiter;
pub mod receive;
pub mod server;
pub mod text;
