//! Parsing a flat directory of spec files into specs, a section graph and
//! diagnostics.
pub mod headings;
pub mod corpus;
pub mod cycles;
pub mod file;
pub mod front_matter;
pub mod types;
