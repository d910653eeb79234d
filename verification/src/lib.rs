//! Capture of physical system RAM into a structured dump document.
//!
//! The library has two halves. The locator ([`locator`]) parses a
//! line-oriented memory-map text and returns the address ranges labelled
//! as system RAM. The capture half ([`capture`]) splits each range into
//! chunks of at most 4096 bytes, discards chunks that are entirely zero,
//! and encodes the remaining chunks, with their offset bounds, into a
//! nested tagged byte document. Reading the memory map, reading the
//! physical-memory device and writing the document are left to the
//! surrounding program; everything the library decides is verified.

pub mod capture;
pub mod hex;
pub mod locator;
