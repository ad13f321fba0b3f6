//! Core of a small N-body orbit visualizer: the ring buffer that keeps a
//! fading trail of each body's recent positions, together with the modular
//! index arithmetic that reads the trail back in chronological order.
//!
//! The floating-point integrator and all drawing stay outside the verified
//! library; this crate owns the part with exact, provable content.

pub mod trail;
