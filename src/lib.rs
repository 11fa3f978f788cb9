//! Verified state machines for a regulated blood supply chain: an inventory
//! registry with an audit trail, a cold-chain temperature monitor, and
//! role-based access control with expiring grants.

pub mod access_control;
pub mod address;
pub mod constants;
pub mod registry;
pub mod temperature;
