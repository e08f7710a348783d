//! The record a package search result is decoded into, and the line shown
//! for it when the user picks from a list.

use vstd::prelude::*;

verus! {

/// One package found by the external package search: its name, its version,
/// and an optional description.
pub struct PackageInfo {
    pub pname: String,
    pub version: String,
    pub description: Option<String>,
}

/// The view of a package's description: its text, or empty when absent.
pub open spec fn description_view(p: &PackageInfo) -> Seq<char> {
    match p.description {
        Some(d) => d@,
        None => Seq::empty(),
    }
}

/// The line offered for a package in a selection list:
/// `<name> <version>: <description>`.
pub fn describe_package(p: &PackageInfo) -> (r: String)
    ensures
        r@ == p.pname@ + " "@ + p.version@ + ": "@ + description_view(p),
{
    let d: &str = match &p.description {
        Some(d) => d.as_str(),
        None => "",
    };
    proof {
        reveal_strlit("");
        assert(d@ =~= description_view(p));
    }
    let r = p.pname.clone().concat(" ").concat(p.version.as_str()).concat(": ").concat(d);
    proof {
        assert(r@ =~= p.pname@ + " "@ + p.version@ + ": "@ + description_view(p));
    }
    r
}

/// The name picked out of a selection line: its first whitespace-separated
/// token, which is the package name `describe_package` put first.
pub fn selected_package_name(line: &str) -> (r: Option<String>)
    ensures
        match r {
            Some(t) => crate::text::tokens(line@).len() >= 1 && t@ == crate::text::tokens(
                line@,
            )[0],
            None => crate::text::tokens(line@).len() == 0,
        },
{
    crate::text::first_token(line)
}

} // verus!
