//! Human-readable byte sizes.

use vstd::prelude::*;

use crate::text::dec_text;

verus! {

/// What `bytesize::ByteSize(n)` shows through `Display`.
pub uninterp spec fn byte_size_text(n: u64) -> Seq<char>;

/// Formats a byte count with the `Display` of `bytesize::ByteSize`.
///
/// The result is named by [`byte_size_text`]; for counts below 1024 the
/// crate prints the count in decimal followed by `" B"`, which the contract
/// states.  Larger counts are printed as a fraction of a binary unit, which
/// is left unstated.
#[verifier::external_body]
pub(crate) fn format_size(n: u64) -> (r: String)
    ensures
        r@ == byte_size_text(n),
        n < 1024 ==> r@ == dec_text(n as nat) + " B"@,
{
    bytesize::ByteSize(n).to_string()
}

} // verus!
