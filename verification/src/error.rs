//! The unrecoverable failures of a pipeline run. Parse failures are not
//! errors: they are encoded as sentinel output values and the run continues.

use vstd::prelude::*;

verus! {

/// A fatal condition that aborts the whole run; there is no retry and no
/// partial result.
#[derive(Clone, Copy, Debug, PartialEq, Eq)]
pub enum FatalError {
    /// The device or adapter could not be acquired.
    DeviceInit,
    /// Mapping a device buffer for reading or writing failed.
    BufferMap,
    /// A channel peer disappeared: the other thread of the run crashed.
    ChannelClosed,
}

} // verus!
