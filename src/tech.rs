use vstd::prelude::*;
use crate::helper::Helper;

verus! {

/// The contents of the tech definition file; techs share the helper shape.
pub struct TechFile {
    pub schema: String,
    pub techs: Option<Vec<Helper>>,
}

} // verus!
