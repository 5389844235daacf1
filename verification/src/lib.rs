//! Verified core of an audio monitor: the bin-to-band partition of a
//! magnitude spectrum, the geometry of a mel filter bank, the framing of
//! analysis records, and the subscriber bookkeeping of the broadcaster.
//!
//! Everything here works on integers. The transcendental arithmetic on
//! samples (window, transform, logarithms) is done by the caller, which hands
//! this crate indices and counts and gets back the decisions.

pub mod bands;
pub mod connection_manager;
pub mod mel;
pub mod record;
