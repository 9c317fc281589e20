//! Measuring the cycle fee of installing a WebAssembly module: the verified
//! core recovers the required amount from a host's rejection message.

pub mod extract;
