//! Small component-level helpers: the depth of a directory in a component
//! hierarchy, and this library's version string.

use vstd::prelude::*;

verus! {

/// The depth of a component, decided from whether the parent directory and
/// the directory itself carry a marker file:
/// 0 = no component yet (a top-level one is probably being created),
/// 1 = a top-level component with no parent,
/// 2 = a sub-component somewhere below a parent.
pub fn get_level(parent_has_marker: bool, current_has_marker: bool) -> (level: u8)
    ensures
        level == (if !parent_has_marker && !current_has_marker {
            0u8
        } else if !parent_has_marker && current_has_marker {
            1u8
        } else {
            2u8
        }),
{
    let level: u8;
    if !parent_has_marker && !current_has_marker {
        level = 0;
    } else if !parent_has_marker && current_has_marker {
        level = 1;
    } else {
        level = 2;
    }
    level
}

/// The remote URL with the credentials worked in: every `https://` prefix
/// becomes `https://username:password@`. When either credential is missing
/// the result is the empty string.
pub fn add_user_pass_to_https(
    url: &str,
    username: &Option<String>,
    password: &Option<String>,
) -> (r: String)
    ensures
        r@ == (match (username, password) {
            (Some(u), Some(p)) => crate::text::replaced_all(
                url@,
                "https://"@,
                "https://"@ + u@ + ":"@ + p@ + "@"@,
            ),
            _ => Seq::<char>::empty(),
        }),
{
    match (username, password) {
        (Some(u), Some(p)) => {
            let mut userpass = String::from_str("https://");
            userpass.append(u.as_str());
            userpass.append(":");
            userpass.append(p.as_str());
            userpass.append("@");
            crate::text::replace_all(url, "https://", userpass.as_str())
        },
        _ => String::new(),
    }
}

/// This library's version string.
pub fn get_version() -> (version: String)
    ensures
        version@ == "0.2.1"@,
{
    String::from_str("0.2.1")
}

} // verus!
