//! The intermediate representation that is analysed.

pub mod pdir;
