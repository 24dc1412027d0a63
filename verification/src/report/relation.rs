//! How a witness relates to the languages of a query.
use vstd::prelude::*;

verus! {

/// The witness is in both languages.
pub const IN_BOTH: &'static str = "in_both";

/// The witness is in the left language only.
pub const LEFT_ONLY: &'static str = "left_only";

/// The witness is in the right language only.
pub const RIGHT_ONLY: &'static str = "right_only";

/// The witness is in the (single) language.
pub const IN_LANGUAGE: &'static str = "in_language";

} // verus!
