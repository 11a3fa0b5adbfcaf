//! A verified core for editing SubRip (SRT) subtitle files: classifying
//! lines, parsing caption records, shifting timecodes, renumbering, and
//! rendering the records back to text.

pub mod action;
pub mod get;
pub mod laws;
pub mod model;
pub mod text;
pub mod util;
pub mod validate;
