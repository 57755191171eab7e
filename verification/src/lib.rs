//! A log-structured, persistent key-value store core.
//!
//! Values and keys are byte strings; an optional absolute expiry timestamp
//! (milliseconds since the Unix epoch, `0` for "never") is attached per key.
//! The store appends fixed-layout records to an active log, keeps an in-memory
//! directory from key to record location, seals the active log into numbered
//! data files when it grows past a threshold, and compacts sealed files into a
//! fresh sequence of data files with companion hint files for fast restart.
//!
//! The engine here works on in-memory images of the data directory's files;
//! a host process mirrors those images to durable storage and feeds them back
//! on open. Everything that decides or computes — codecs, the directory, the
//! rotation, recovery and compaction logic — is verified; the CRC-32 digest
//! and the wall clock are the only outside calls.

pub mod config;
pub mod crc;
pub mod entry;
pub mod error;
pub mod hint;
pub mod keydir;
pub mod store;
pub mod time;
pub mod util;
