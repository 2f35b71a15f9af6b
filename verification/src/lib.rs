//! A coordinator for distributed transactions: services report each local
//! step of a global transaction, and once a transaction ends the coordinator
//! tells every participant to roll back when any of them asked for it.

pub mod encrypt;
pub mod fist_core;
pub mod model;
