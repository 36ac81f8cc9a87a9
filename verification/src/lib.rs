//! Background-job logic of the MiSTer collection manager: lanes and the core gate,
//! placement paths, DAT watching, header parsing, matching and I/O classes.

pub mod assoc;
pub mod jobs;
pub mod sort;
pub mod text;
