//! Restores capture timestamps into the embedded metadata of photo containers.
//!
//! Every function is a pure transformation on in-memory values: callers read
//! the image and its sidecar record, hand the bytes over, and write back what
//! is returned.
//!
//! - [`sidecar`], with [`epoch`] and [`timestamp`], reads the two timestamps
//!   from a sidecar record.
//! - [`segment`] and [`chunk`] split the two container kinds into their parts
//!   and write them out again, byte for byte.
//! - [`exif`], with [`tagdir`] and [`dates`], sets the dates in the metadata
//!   block of the first kind; [`text`] does so in a text chunk of the second.
//! - [`inject`] ties them together.

pub mod bytes;
pub mod chunk;
pub mod crc;
pub mod dates;
pub mod epoch;
pub mod error;
pub mod exif;
pub mod inject;
pub mod segment;
pub mod sidecar;
pub mod tagdir;
pub mod text;
pub mod timestamp;
