//! License expressions, their minimization against an accepted-license
//! policy, the pruning of a package's license files that follows, and the
//! classification of license texts against a reference corpus.
pub mod expr;
pub mod minimize;
pub mod package;
pub mod gather;

pub use expr::{LicenseError, LicenseExpr, PostfixNode, from_postfix, parse};
pub use gather::{LicenseInfo, is_excluded, package_from_record, spdx_file_mismatch};
pub use package::{
    Corpus, LicenseFile, Package, PackageError, augment_licenses, license_store_from_cache,
    minimize_package, minimize_requirements, retain_files,
};
