//! The analyzer of the polynomial identity language PIL.
//!
//! A parsed file goes in, an [`analyzed::Analyzed`] set of definitions, public
//! declarations and identities comes out.
pub mod analyzed;
pub mod error;
pub mod inliner;
pub mod laws;
pub mod lines;
pub mod name_map;
pub mod number;
pub mod parsed;
pub mod pil_analyzer;

pub use crate::inliner::circles::is_inlinable;
pub use crate::inliner::inline_intermediate_polynomials;
pub use crate::pil_analyzer::files::{process_pil_file, process_pil_file_contents};
