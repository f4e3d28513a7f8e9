use vstd::prelude::*;

verus! {

/// Errors that the parameter-server logic reports to its callers.
#[derive(Debug, Clone)]
pub enum TribblerError {
    /// A remote step could not be carried out; the text says which.
    RpcError(String),
    /// Anything else that went wrong.
    Unknown(String),
}

} // verus!
