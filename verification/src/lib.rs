//! Fault-tolerant, privacy preserving sensor fusion on order-preserving
//! encryption: the sensors' values, their wire format, and Marzullo's
//! algorithm run by the collector over ciphertexts.
pub mod client;
pub mod collector;
pub mod data;
pub mod network;
pub mod sensor;
pub mod utils;
