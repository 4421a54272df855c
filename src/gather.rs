//! Turns a gathered package record into a `Package`: packages matched by the
//! exclusion list are skipped, and a package marked to be ignored is an
//! inconsistency, since such packages are filtered out before this point.
use vstd::prelude::*;
use crate::expr::{LicenseExpr, LicenseError, leaves};
use crate::package::{LicenseFile, Package};

verus! {

/// What is known of a package's licensing when it is gathered.
#[derive(Debug)]
pub enum LicenseInfo {
    /// The text of the package's license expression.
    Expr(String),
    Unknown,
    Ignore,
}

/// Whether `n` occurs as a contiguous part of `h`.
pub open spec fn is_infix(n: Seq<char>, h: Seq<char>) -> bool {
    exists|i: int| 0 <= i && i + n.len() <= h.len() && #[trigger] h.subrange(i, i + n.len()) == n
}

/// Whether a package of this name is excluded by `denylist`: some entry
/// occurs in the name.
pub open spec fn excluded(name: Seq<char>, denylist: Seq<String>) -> bool {
    exists|k: int| 0 <= k < denylist.len() && is_infix((#[trigger] denylist[k])@, name)
}

/// The license expression recorded for a package with this licensing.
pub open spec fn info_text(info: LicenseInfo) -> Seq<char> {
    match info {
        LicenseInfo::Expr(t) => t@,
        _ => seq!['U', 'n', 'k', 'n', 'o', 'w', 'n'],
    }
}

/// Relies on str::contains with a `&str` pattern: whether `needle` occurs in
/// `hay`.
#[verifier::external_body]
fn str_contains(hay: &str, needle: &str) -> (r: bool)
    ensures
        r == is_infix(needle@, hay@),
{
    hay.contains(needle)
}

/// Whether a package of this name is excluded by `denylist`.
pub fn is_excluded(name: &String, denylist: &Vec<String>) -> (r: bool)
    ensures
        r == excluded(name@, denylist@),
{
    let mut k: usize = 0;
    while k < denylist.len()
        invariant
            0 <= k <= denylist.len(),
            forall|j: int| 0 <= j < k ==> !is_infix((#[trigger] denylist@[j])@, name@),
        decreases denylist.len() - k,
    {
        if str_contains(name.as_str(), denylist[k].as_str()) {
            return true;
        }
        k = k + 1;
    }
    false
}

/// Whether the expression's requirement count differs from the number of
/// license files found: a data-quality signal, not an error.
pub fn spdx_file_mismatch(expr: &LicenseExpr, n_files: usize) -> (r: bool)
    ensures
        r == (leaves(expr@).len() != n_files),
{
    let reqs = expr.requirements();
    reqs.len() != n_files
}

/// The package record for a gathered package: `None` when the exclusion list
/// matches its name, `InternalInconsistency` when it is marked to be ignored.
/// The URL is the repository, else the homepage.
pub fn package_from_record(
    name: String,
    version: String,
    repository: Option<String>,
    homepage: Option<String>,
    info: LicenseInfo,
    files: Vec<LicenseFile>,
    denylist: &Vec<String>,
) -> (r: Result<Option<Package>, LicenseError>)
    ensures
        excluded(name@, denylist@) ==> r matches Ok(None),
        !excluded(name@, denylist@) && info is Ignore ==> r matches Err(LicenseError::InternalInconsistency),
        !excluded(name@, denylist@) && !(info is Ignore) ==> (r matches Ok(Some(p)) && {
            &&& p.package_name == name
            &&& p.package_version == version
            &&& p.package_url == (if repository is Some { repository } else { homepage })
            &&& p.license_spdx is Some && p.license_spdx->Some_0@ == info_text(info)
            &&& p.license_files == files
        }),
{
    if is_excluded(&name, denylist) {
        return Ok(None);
    }
    let expression = match info {
        LicenseInfo::Expr(t) => t,
        LicenseInfo::Unknown => {
            proof {
                reveal_strlit("Unknown");
            }
            "Unknown".to_owned()
        },
        LicenseInfo::Ignore => {
            return Err(LicenseError::InternalInconsistency);
        },
    };
    let package_url = match repository {
        Some(u) => Some(u),
        None => homepage,
    };
    Ok(Some(Package {
        package_name: name,
        package_version: version,
        package_url,
        license_spdx: Some(expression),
        license_files: files,
    }))
}

} // verus!
