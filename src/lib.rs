//! Classifies audio-sample file names against a catalog of instruments and
//! rewrites each name into a canonical form.
pub mod matcher;
pub mod name;
pub mod path;
pub mod text;
