//! The one platform-dependent choice the library makes: which line ending
//! newly generated text uses.

use vstd::prelude::*;

verus! {

/// A line ending: `\n`, or `\r\n` on Windows hosts.
pub open spec fn is_newline(nl: Seq<char>) -> bool {
    nl == "\n"@ || nl == "\r\n"@
}

/// Relies on `os_info::get` and `Info::os_type` to learn whether the host
/// reports itself as Windows; nothing is assumed of the answer.
#[verifier::external_body]
fn host_is_windows() -> bool {
    os_info::get().os_type() == os_info::Type::Windows
}

/// The line ending appropriate for the host: `\r\n` on Windows, `\n`
/// elsewhere.
pub fn get_newline() -> (r: String)
    ensures
        is_newline(r@),
{
    if host_is_windows() {
        String::from_str("\r\n")
    } else {
        String::from_str("\n")
    }
}

} // verus!
