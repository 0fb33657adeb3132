//! Display-layout profiles for an external display-configuration tool.
//!
//! The library parses the tool's textual status report into a structured
//! model of connectors, combines that model with the list of currently
//! active monitors into a persistable profile, and regenerates from a
//! profile the exact argument list that re-applies the layout.

pub mod laws;
pub mod lex;
pub mod parse_xrandr_output;
pub mod profile;
pub mod xrandr_output;
