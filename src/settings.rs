//! Defaults of the server settings.

use vstd::prelude::*;
use vstd::string::StringExecFns;

verus! {

/// The address the server binds to when none is configured.
pub fn default_bind() -> (r: String)
    ensures
        r@ == "0.0.0.0:8080"@,
{
    String::from_str("0.0.0.0:8080")
}

/// The directory of generated files served when none is configured.
pub fn default_static_dir() -> (r: String)
    ensures
        r@ == "dist"@,
{
    String::from_str("dist")
}

} // verus!
