//! Atlas writer support: turns a sprite's name into a filesystem-safe output
//! file name. The file write itself happens outside the library.
use vstd::prelude::*;

verus! {

/// What sanitizing a name returns: reserved and path characters stripped,
/// trailing dots and spaces removed, truncated to 255 bytes.
pub uninterp spec fn sanitized_of(s: Seq<char>) -> Seq<char>;

/// Relies on sanitize_filename::sanitize_with_options with fixed options
/// (windows rules on, truncation on, empty replacement), so the result is a
/// function of the name alone on every platform. Its source replaces the
/// characters `/ ? < > \ : * | "` and control characters with nothing, strips
/// all-dot names, windows-reserved names and trailing dots and spaces, and
/// truncates to at most 255 bytes, so the result holds no path separator and
/// no more than 255 characters.
#[verifier::external_body]
fn sanitize_name(name: &String) -> (r: String)
    ensures
        r@ == sanitized_of(name@),
        r@.len() <= 255,
        forall|i: int| 0 <= i < r@.len() ==> r@[i] != '/' && r@[i] != '\\',
{
    sanitize_filename::sanitize_with_options(
        name.as_str(),
        sanitize_filename::Options { windows: true, truncate: true, replacement: "" },
    )
}

/// The sanitized name of a sprite's output file.
pub open spec fn spec_output_filename(name: Seq<char>) -> Seq<char> {
    sanitized_of(name) + ".png"@
}

/// The file a sprite is written under: its sanitized name plus `.png`.
pub fn output_filename(name: &String) -> (r: String)
    ensures
        r@ == spec_output_filename(name@),
{
    let base = sanitize_name(name);
    base.concat(".png")
}

} // verus!
