use vstd::prelude::*;

verus! {

/// The structured failures the library and its driver report.
#[derive(Clone, Copy, Debug, PartialEq, Eq, Structural)]
pub enum AsciiError {
    /// An input path could not be opened or decoded.
    InputUnreadable,
    /// Panels handed to the composer have differing line counts.
    MismatchedPanelHeights,
    /// A requested panel index exceeds the atlas's panel count on some line.
    PanelIndexOutOfRange,
    /// An output sink could not be created or written.
    OutputUnwritable,
    /// Conflicting or malformed command-line arguments.
    InvalidArguments,
}

} // verus!
