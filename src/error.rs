use vstd::prelude::*;

verus! {

/// Why a scan could not be set up. Nothing is probed once one of these
/// has been returned.
#[derive(Debug, Clone, Copy, PartialEq, Eq, Structural)]
pub enum ScanError {
    /// A prefix length outside `0..=32`.
    InvalidPrefix,
    /// A subnet mask whose one bits are not contiguous from the top.
    InvalidMask,
    /// The target is not assigned locally and neither a prefix nor a mask
    /// was given.
    UnresolvableTarget,
    /// An IPv6 target: only IPv4 networks are scanned.
    NotSupported,
    /// A worker pool of size zero.
    InvalidPoolSize,
}

impl ScanError {
    /// A configuration error is reported before any resolution; the others
    /// come from resolving the target to a network.
    pub fn is_configuration(&self) -> (r: bool)
        ensures
            r <==> *self == ScanError::InvalidPoolSize,
    {
        match self {
            ScanError::InvalidPoolSize => true,
            _ => false,
        }
    }
}

} // verus!
