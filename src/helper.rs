use vstd::prelude::*;
use crate::requirement::Requirement;

verus! {

/// A named flag that holds when its requirement does (always, without one).
pub struct Helper {
    pub name: String,
    pub requires: Option<Requirement>,
    pub note: Option<String>,
}

/// The contents of the helper definition file.
pub struct HelperFile {
    pub schema: String,
    pub helpers: Option<Vec<Helper>>,
}

} // verus!
