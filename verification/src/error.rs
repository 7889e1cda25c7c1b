use vstd::prelude::*;

verus! {

/// Why a pipeline run stops: a configuration problem (the requested model is
/// not a column of the filter table), a malformed table or response, a file
/// problem reported by the caller, or a network problem reported by the
/// caller (including an empty result set from the escalation lookup).
#[derive(Debug, Clone, Copy, PartialEq, Eq, Structural)]
pub enum MapperError {
    UnknownModel,
    Parse,
    Io,
    Network,
}

} // verus!
