//! Keyword argument parsing and numeric field extraction for detection
//! rules: enumeration codecs, byte order and base tokens, binary and text
//! extraction, checked arithmetic, rules whose keywords bind and consume
//! named values in order, and the table of registered keywords.

use vstd::prelude::*;

pub mod byte;
pub mod enum_string;
pub mod extract;
pub mod math;
pub mod registry;
pub mod rule;

verus! {

} // verus!
