//! A verified poker engine core: card primitives, hand-strength lookups,
//! best-hand selection, and the betting state machine that administers a
//! single hand from ante posting to pot computation.

pub mod games;
pub mod hands;
pub mod lookups;
pub mod state;
pub mod utilities;
