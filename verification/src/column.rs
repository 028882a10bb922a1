//! Per-field declarative metadata: sort direction, uniqueness, geo/text
//! index kind, visibility, and an optional wire-name override.

use vstd::prelude::*;

verus! {

/// Declarative attributes of one record field.
///
/// At most one of `asc` / `desc` is meaningful at a time (`desc` wins when
/// both are set). A field is indexed when any of the index-related flags is
/// set or a text language is attached.
#[derive(Debug)]
pub struct ColumnAttr {
    pub asc: bool,
    pub desc: bool,
    pub unique: bool,
    pub sphere2d: bool,
    pub text: Option<String>,
    pub hidden: bool,
    pub name: Option<String>,
}

impl ColumnAttr {
    /// Whether this column asks for an index on its field.
    pub open spec fn spec_is_index(&self) -> bool {
        self.unique || self.asc || self.desc || self.sphere2d || self.text is Some
    }

    /// True iff at least one of {unique, ascending, descending, geo-sphere,
    /// text-language-present} holds.
    pub fn is_index(&self) -> (r: bool)
        ensures
            r == self.spec_is_index(),
    {
        if self.unique || self.asc || self.desc || self.sphere2d || self.text.is_some() {
            return true;
        }
        false
    }
}

} // verus!
