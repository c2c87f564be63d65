//! A codec for the cMDC record format: delimiter-framed containers made of a
//! six-number header and a body of raw fields, decoded without copying and
//! interpreted lazily into typed values.
pub mod cmdc;
pub mod codec;
pub mod error;
pub mod laws;
pub mod mdd;
pub mod numeral;
pub mod text;
pub mod wire;
