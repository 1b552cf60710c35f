//! The (empty) variant state of basic Rummy.

use vstd::prelude::*;

use crate::game::state::VariantState;

verus! {

/// Basic Rummy requires no additional state, so this is an empty struct.
#[derive(Debug, Clone, PartialEq, Eq, Structural)]
pub struct BasicState {}

impl VariantState for BasicState {

}

} // verus!
