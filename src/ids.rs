//! Small handles shared by the analyses.
use vstd::prelude::*;

verus! {

/// Identifies an expression node within one file's lowered representation.
#[derive(Clone, Copy, Debug, PartialEq, Eq, Structural, Hash)]
pub struct ExprId(pub u32);

/// Identifies a statement node within one file's lowered representation.
#[derive(Clone, Copy, Debug, PartialEq, Eq, Structural, Hash)]
pub struct StmtId(pub u32);

/// Handle of an interned type, as computed by inference.
#[derive(Clone, Copy, Debug, PartialEq, Eq, Structural, Hash)]
pub struct Ty(pub u32);

} // verus!
