use vstd::prelude::*;

verus! {

/// The error taxonomy of the bridge.
///
/// Every operation of this layer either completes or reports one of these
/// four failures; none is silently swallowed or retried.
#[derive(Debug, Clone, PartialEq, Eq)]
pub enum BridgeError {
    /// A host or engine value could not be mapped across the boundary
    /// (unsupported value kind, non-string-convertible map key).
    Conversion(String),
    /// An operation was attempted against a disposed transaction handle, or
    /// a second mutating transaction was opened while one is still live.
    TransactionState(String),
    /// A binary update or state vector payload could not be decoded.
    Decode(String),
    /// An index or range lies outside a sequence container's bounds.
    Bounds(String),
}

impl BridgeError {
    /// The human-readable message carried by the error.
    pub open spec fn text(&self) -> Seq<char> {
        match self {
            BridgeError::Conversion(m) => m@,
            BridgeError::TransactionState(m) => m@,
            BridgeError::Decode(m) => m@,
            BridgeError::Bounds(m) => m@,
        }
    }

    /// Returns the human-readable message of this error.
    pub fn message(&self) -> (r: String)
        ensures
            r@ == self.text(),
    {
        match self {
            BridgeError::Conversion(m) => m.clone(),
            BridgeError::TransactionState(m) => m.clone(),
            BridgeError::Decode(m) => m.clone(),
            BridgeError::Bounds(m) => m.clone(),
        }
    }
}

} // verus!
