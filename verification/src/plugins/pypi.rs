//! What the Python package index says of packages.
use vstd::prelude::*;
use vstd::string::*;
use crate::chars;
use crate::plugin::{Dep, Dependency};
use crate::ranges;
use crate::text;

verus! {

/// Where the index describes a version of a package.
pub fn version_url(name: &str, version: &str) -> (r: String)
    ensures
        r@ == "https://pypi.org/pypi/"@ + name@ + "/"@ + version@ + "/json"@,
{
    let mut out: String = "https://pypi.org/pypi/".to_owned();
    out.append(name);
    out.append("/");
    out.append(version);
    out.append("/json");
    out
}

/// Where the index describes a package.
pub fn package_url(name: &str) -> (r: String)
    ensures
        r@ == "https://pypi.org/pypi/"@ + name@ + "/json"@,
{
    let mut out: String = "https://pypi.org/pypi/".to_owned();
    out.append(name);
    out.append("/json");
    out
}

/// The specifiers admit the latest version. Where that is no version, they are
/// the same text; where they cannot be read, they are that or admit any version.
pub open spec fn satisfies(
    current: Seq<char>,
    latest: Seq<char>,
    valid: bool,
    admitted: Option<bool>,
) -> bool {
    if !valid {
        latest == current
    } else {
        match admitted {
            Some(answer) => answer,
            None => current == "*"@ || latest == current,
        }
    }
}

/// The package after a lookup that gave its latest version or failed.
pub open spec fn resolved(
    dep: Dep,
    latest: Option<Seq<char>>,
    valid: bool,
    admitted: Option<bool>,
) -> Dep {
    match latest {
        Some(version) => dep.checked(version, satisfies(dep.current, version, valid, admitted)),
        None => dep.unchecked(),
    }
}

/// The package after a lookup, given whether the latest version is one, and
/// whether the specifiers admit it.
pub fn settle(
    dep: Dependency,
    latest: Option<String>,
    valid: bool,
    admitted: Option<bool>,
) -> (r: Dependency)
    ensures
        r@ == resolved(dep@, chars::opt(latest), valid, admitted),
{
    match latest {
        Some(version) => {
            let same: bool = text::eq(version.as_str(), dep.current_version.as_str());
            let satisfied: bool = if !valid {
                same
            } else {
                match admitted {
                    Some(answer) => answer,
                    None => text::eq(dep.current_version.as_str(), "*") || same,
                }
            };
            dep.with_latest(version, satisfied)
        },
        None => dep.with_failure(),
    }
}

/// The package after its lookup: its specifiers are held against the version found.
pub open spec fn looked_up(dep: Dep, latest: Option<Seq<char>>) -> Dep {
    match latest {
        Some(version) => resolved(
            dep,
            Some(version),
            ranges::is_python_version(version),
            ranges::python_admits(dep.current, version),
        ),
        None => dep.unchecked(),
    }
}

/// The package after a lookup.
pub fn resolve(dep: Dependency, latest: Option<String>) -> (r: Dependency)
    ensures
        r@ == looked_up(dep@, chars::opt(latest)),
{
    match latest {
        Some(version) => {
            let valid: bool = ranges::python_version(version.as_str());
            let admitted: Option<bool> = ranges::python_contains(
                dep.current_version.as_str(),
                version.as_str(),
            );
            settle(dep, Some(version), valid, admitted)
        },
        None => dep.with_failure(),
    }
}

/// After a lookup a package has the version that was found. It is up to date where
/// that is a version and the specifiers admit it; where they cannot be read, where
/// they are `*` or the same text; where it is no version, where it is the same text.
pub proof fn law_lookup(dep: Dep, latest: Seq<char>, valid: bool, admitted: Option<bool>)
    ensures
        ({
            let r = resolved(dep, Some(latest), valid, admitted);
            &&& r.latest == Some(latest)
            &&& valid && admitted is Some ==> r.satisfied == admitted->0
            &&& latest == dep.current && !(valid && admitted is Some) ==> r.satisfied
            &&& latest != dep.current && !valid ==> !r.satisfied
            &&& latest != dep.current && valid && admitted is None ==> (r.satisfied <==> dep.current
                == "*"@)
            &&& r == Dep { latest: r.latest, satisfied: r.satisfied, ..dep }
            &&& resolved(dep, None, valid, admitted) == (Dep { check_failed: true, ..dep })
        }),
{
}

/// A lookup gives the version found, and whether the specifiers at hand admit it.
pub proof fn law_looked_up(dep: Dep, version: Seq<char>)
    ensures
        ({
            let r = looked_up(dep, Some(version));
            let admitted = ranges::python_admits(dep.current, version);
            &&& r.latest == Some(version)
            &&& ranges::is_python_version(version) && admitted is Some ==> r.satisfied
                == admitted->0
            &&& ranges::is_python_version(version) && admitted is None ==> (r.satisfied
                <==> dep.current == "*"@ || dep.current == version)
            &&& !ranges::is_python_version(version) ==> (r.satisfied <==> dep.current == version)
            &&& looked_up(dep, None) == (Dep { check_failed: true, ..dep })
        }),
{
}

} // verus!
