use vstd::prelude::*;

verus! {

/// Error kinds visible at the administrative interface.
#[derive(Clone, Copy, Debug, PartialEq, Eq, Structural)]
pub enum SysError {
    /// Malformed input: bad object file, bad tracepoint string, unsupported instruction.
    EINVAL,
    /// A symbol, descriptor or map name could not be found.
    ENOENT,
    /// The program is already attached to the tracepoint.
    EAGAIN,
    /// A probe already exists at the address.
    EEXIST,
    /// The probe is still in use.
    EBUSY,
}

/// Result of an administrative call: a non-negative value on success.
pub type SysResult = Result<usize, SysError>;

} // verus!
