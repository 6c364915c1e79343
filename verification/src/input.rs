//! The actions that the player's inputs are mapped to.

use vstd::prelude::*;

verus! {

/// Something the player can do with the tool.
#[derive(Debug, Hash, Clone, Copy, PartialEq, Eq, Structural)]
pub enum Action {
    UseTool,
    UseSecondaryTool,
    UseTrinaryTool,
    EnlargeToolShape,
    ShrinkToolShape,
    SwitchToolShape,
}

} // verus!
