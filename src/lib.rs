//! Server side of the LSPS2 just-in-time channel protocol: fee arithmetic,
//! payment queueing, the per-channel state machine and the service handler.

pub mod channel;
pub mod fee;
pub mod msgs;
pub mod payment_queue;
pub mod promise;
pub mod registry;
pub mod service;
