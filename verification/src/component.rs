//! Component values in their type-erased form.

use vstd::prelude::*;
use crate::blob_data::TypeInfo;

verus! {

/// Names a component type. The caller chooses the identifiers; two values
/// belong to the same component type exactly when their identifiers agree.
pub type ComponentId = u64;

/// One component value: the identifier and layout of its type, and the bytes
/// of the value itself.
pub struct Component {
    pub id: ComponentId,
    pub info: TypeInfo,
    pub bytes: Vec<u8>,
}

impl Component {
    /// The value has exactly as many bytes as its layout says.
    pub open spec fn wf(&self) -> bool {
        self.bytes@.len() == self.info.size
    }

    /// Puts a value together from its parts.
    pub fn new(id: ComponentId, info: TypeInfo, bytes: Vec<u8>) -> (r: Self)
        ensures
            r.id == id,
            r.info == info,
            r.bytes@ == bytes@,
    {
        Component { id, info, bytes }
    }

    /// Tells whether the value has the size that its layout gives.
    pub fn is_valid(&self) -> (r: bool)
        ensures
            r == self.wf(),
    {
        self.bytes.len() == self.info.size
    }
}

} // verus!
