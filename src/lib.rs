//! Generate filler content of an exact byte size.
//!
//! A requested size is normalised to bytes ([`Size`]), checked against the
//! size limits ([`policy`]), and then filled with random tokens that are
//! shrunk or padded to the exact byte count ([`Content`]).

pub mod content;
pub mod policy;
pub mod size;

pub use content::{generate, Content, Vocabulary};
pub use policy::{gate, read_reply, Gate, Reply, MAXSIZE, WARNSIZE};
pub use size::{Size, SizeError, Unit};
