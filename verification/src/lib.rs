//! Flight telemetry processing.
//!
//! Two engines, verified end to end where the data is discrete:
//!
//! - the streaming decoder (`decoder`, `record`, `text`): reassembles
//!   newline-delimited measurement records from an unbounded byte stream
//!   across arbitrary read-chunk boundaries, parses each 17-field line into a
//!   record, assigns gapless increasing sequence numbers, and bounds its
//!   accumulator against a garbled link;
//! - the flight-log statistics support (`stats`, `timefmt`): first-occurrence
//!   extremum selection and display-timestamp synthesis for the batch
//!   analyzer, whose floating-point arithmetic lives outside the library.

pub mod decoder;
pub mod record;
pub mod stats;
pub mod text;
pub mod timefmt;
