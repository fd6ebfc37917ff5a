//! Decoding and encoding of a length-framed binary packet stream whose packets
//! carry a keyed, position-dependent obfuscation over everything past their
//! first four bytes.
pub mod encdec;
