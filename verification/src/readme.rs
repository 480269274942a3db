use vstd::prelude::*;
use vstd::string::StringExecFns;

verus! {

/// The text of a README record for one downloaded crate.
pub open spec fn readme_text(
    name: Seq<char>,
    description: Seq<char>,
    version: Seq<char>,
    security: bool,
    license: Seq<char>,
) -> Seq<char> {
    "Name: "@ + name + "\nURL: https://crates.io/crates/"@ + name + "\nDescription: "@
        + description + "\nVersion: "@ + version + "\nSecurity Critical: "@ + (if security {
        "yes"@
    } else {
        "no"@
    }) + "\nLicense: "@ + license + "\n"@
}

/// Generates the contents of the README record describing a downloaded
/// crate: its name, its registry URL, its description, its version, whether
/// it is security critical, and its license.
pub fn gen_readme_chromium_text(
    name: &str,
    description: &str,
    version: &str,
    security: bool,
    license: &str,
) -> (r: String)
    ensures
        r@ == readme_text(name@, description@, version@, security, license@),
{
    let mut out = String::from_str("Name: ");
    out.append(name);
    out.append("\nURL: https://crates.io/crates/");
    out.append(name);
    out.append("\nDescription: ");
    out.append(description);
    out.append("\nVersion: ");
    out.append(version);
    out.append("\nSecurity Critical: ");
    if security {
        out.append("yes");
    } else {
        out.append("no");
    }
    out.append("\nLicense: ");
    out.append(license);
    out.append("\n");
    out
}

} // verus!
