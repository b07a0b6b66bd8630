//! Validation of titles: a title is kept trimmed and must not be blank.

use crate::error::DomainError;
use crate::text::{is_blank, trim, trimmed};
use vstd::prelude::*;
use vstd::string::*;

verus! {

/// Validates and trims a title.
///
/// Returns the trimmed text, or `DomainError::EmptyTitle` when nothing but
/// whitespace is left.
pub fn normalize_non_empty_title(title: &str) -> (r: Result<String, DomainError>)
    ensures
        match r {
            Ok(t) => !is_blank(title@) && t@ == trimmed(title@),
            Err(e) => is_blank(title@) && e == DomainError::EmptyTitle,
        },
{
    let t = trim(title);
    if t.unicode_len() == 0 {
        return Err(DomainError::EmptyTitle);
    }
    Ok(String::from_str(t))
}

} // verus!
