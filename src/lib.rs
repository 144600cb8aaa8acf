//! Expansion of compact string templates: brace groups of alternatives
//! (`{a,b,c}`) and bracketed numeric or alphabetic ranges (`[1-10]`,
//! `[ay-bc]`) denote the cartesian product of literal strings.
pub mod error;
pub mod text;
pub mod token;
pub mod pattern;
pub mod expand;

pub use error::{RangeError, SyntaxError};
pub use expand::Expansion;
pub use pattern::Pattern;
pub use token::{Segment, Token, TokenIter};

pub use text::{parse_alphabetic_radix, to_alphabetic_radix};
