use vstd::prelude::*;

verus! {

/// Errors that the engine reports instead of panicking.
#[derive(Debug)]
pub enum EngineError {
    /// The rules cannot be ordered; `cycle` names the rules left unordered.
    CyclicDependency { cycle: String },
    /// A parameter was given a value it cannot take; `value_bits` holds the
    /// bit pattern of the rejected value.
    InvalidParameter { name: String, value_bits: u64 },
    /// A rule was asked for that the engine does not know.
    UnknownRule { rule_id: String },
}

} // verus!
