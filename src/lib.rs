// Union-type algebra and control-flow scopes of a flow-sensitive type
// analyzer: canonical unions with literal widening and escalation, a
// builder that flattens nested unions and unwraps generic instances, and a
// scope stack whose pops merge binding states of code that may not have run.
use vstd::prelude::*;

pub mod analyzer;
pub mod laws;
pub mod scope;
pub mod ty;
pub mod union;

verus! {

} // verus!
