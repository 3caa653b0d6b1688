use vstd::prelude::*;

verus! {

/// The kinds of failure that the library reports.
#[derive(Debug, Clone, Copy, PartialEq, Eq, Structural)]
pub enum Error {
    /// A bad argument: a missing input, a wrong extension, a path that cannot be used.
    InputError,
    /// A short read, bad UTF-8 or an unexpected length prefix.
    MalformedInput,
    /// A version mismatch, an enabled type tree or an unknown patch extension.
    UnsupportedFormat,
    /// A declared size that does not fit the bytes available.
    IntegrityError,
}

} // verus!
