use vstd::prelude::*;

verus! {

/// Why a byte image or an edit was refused.
#[derive(Clone, Copy, Debug, PartialEq, Eq, Structural)]
pub enum ZeroPodError {
    /// The buffer is shorter than the layout it must hold.
    BufferTooSmall,
    /// A length prefix names more elements than the field's capacity.
    InvalidLength,
    /// A string field holds bytes that are not UTF-8.
    InvalidUtf8,
    /// A boolean byte other than 0 or 1.
    InvalidBool,
    /// An option tag byte other than 0 or 1.
    InvalidTag,
    /// An enum discriminant that names no variant.
    InvalidDiscriminant,
    /// A value that does not fit the field's capacity.
    Overflow,
}

} // verus!
