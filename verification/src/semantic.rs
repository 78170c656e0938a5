//! The semantic facts discovered in one file.

use vstd::prelude::*;

use crate::position::Range;
use crate::ItemId;

verus! {

/// One semantic fact, as a tagged variant.
#[derive(Debug)]
pub enum Item {
    /// A module name occurrence: a declaration, or a type reference at an
    /// instantiation site.  The name is resolved through the global symbol
    /// table, never through a same-file id.
    ModuleIdentifier { module_name: String, location: Range },
    /// An instantiation.  `module_name` refers to the same-file
    /// ModuleIdentifier of the referenced type, `instance_name` to the
    /// same-file UnknownIdentifier of the instance's own name token.
    /// `parameters` and `ports` are reserved and currently always empty.
    ModuleInstance {
        module_name: ItemId,
        instance_name: ItemId,
        parameters: Vec<ItemId>,
        ports: Vec<ItemId>,
        location: Range,
    },
    /// An identifier occurrence not yet given full semantic treatment; it
    /// resolves to its own location.
    UnknownIdentifier { name: String, location: Range },
}

impl Item {
    /// The range this fact was discovered at.
    pub open spec fn spec_location(self) -> Range {
        match self {
            Item::ModuleIdentifier { location, .. } => location,
            Item::ModuleInstance { location, .. } => location,
            Item::UnknownIdentifier { location, .. } => location,
        }
    }

    pub fn location(&self) -> (r: &Range)
        ensures
            *r == self.spec_location(),
    {
        match self {
            Item::ModuleIdentifier { location, .. } => location,
            Item::ModuleInstance { location, .. } => location,
            Item::UnknownIdentifier { location, .. } => location,
        }
    }
}

} // verus!
