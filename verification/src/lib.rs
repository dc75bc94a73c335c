//! Color model conversion between RGBA and HSLA.
//!
//! Channels are held in fixed-point form: a real value `x` is stored as the
//! integer `x * UNIT`, with `UNIT = 255000`.  This makes every byte value
//! `v` representable exactly as `v * 1000`, and keeps the whole conversion
//! pipeline in exact integer arithmetic with a single rounded division per
//! derived quantity.  At this scale the rounding is fine enough that the
//! RGBA to HSLA to RGBA round trip is exact on every unit-range color
//! (see `colors::lemma_round_trip`).

pub mod colors;
pub mod fixed;
