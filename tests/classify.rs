use license_minimizer::{
    augment_licenses, is_excluded, license_store_from_cache, package_from_record, LicenseError,
    LicenseFile, LicenseInfo, Package,
};

fn canonical(id: &str) -> &'static str {
    spdx::license_id(id).unwrap().text()
}

#[test]
fn canonical_mit_text_is_classified_as_mit() {
    let corpus = license_store_from_cache().ok().unwrap();
    assert_eq!(corpus.analyze(canonical("MIT")), "MIT");
}

#[test]
fn canonical_texts_classify_as_themselves() {
    let corpus = license_store_from_cache().ok().unwrap();
    for id in ["MIT", "Apache-2.0", "BSD-3-Clause", "ISC", "Zlib"] {
        assert_eq!(corpus.analyze(canonical(id)), id);
    }
}

#[test]
fn classification_is_repeatable() {
    let corpus = license_store_from_cache().ok().unwrap();
    let t = canonical("Apache-2.0");
    assert_eq!(corpus.analyze(t), corpus.analyze(t));
}

#[test]
fn augment_fills_only_missing_identifiers() {
    let corpus = license_store_from_cache().ok().unwrap();
    let mut pkgs = vec![Package {
        package_name: "native".to_string(),
        package_version: "2.1".to_string(),
        package_url: None,
        license_spdx: None,
        license_files: vec![
            LicenseFile { name: "LICENSE".to_string(), spdx: None, text: canonical("MIT").to_string() },
            LicenseFile { name: "NOTICE".to_string(), spdx: Some("ISC".to_string()), text: canonical("MIT").to_string() },
        ],
    }];
    augment_licenses(&mut pkgs, &corpus);
    assert_eq!(pkgs[0].license_files[0].spdx.as_deref(), Some("MIT"));
    assert_eq!(pkgs[0].license_files[1].spdx.as_deref(), Some("ISC"));
    assert_eq!(pkgs[0].license_files[0].name, "LICENSE");
}

#[test]
fn excluded_names_are_skipped() {
    let deny = vec!["tentris".to_string()];
    assert!(is_excluded(&"tentris-sys".to_string(), &deny));
    assert!(!is_excluded(&"serde".to_string(), &deny));
    let r = package_from_record(
        "tentris-sys".to_string(),
        "0.1.0".to_string(),
        None,
        None,
        LicenseInfo::Expr("MIT".to_string()),
        vec![],
        &deny,
    );
    assert!(matches!(r, Ok(None)));
}

#[test]
fn ignored_package_is_inconsistent() {
    let r = package_from_record(
        "serde".to_string(),
        "1.0.0".to_string(),
        None,
        None,
        LicenseInfo::Ignore,
        vec![],
        &vec![],
    );
    assert!(matches!(r, Err(LicenseError::InternalInconsistency)));
}

#[test]
fn record_prefers_repository_and_names_unknown() {
    let p = package_from_record(
        "serde".to_string(),
        "1.0.0".to_string(),
        Some("https://github.com/serde-rs/serde".to_string()),
        Some("https://serde.rs".to_string()),
        LicenseInfo::Unknown,
        vec![],
        &vec!["tentris".to_string()],
    )
    .ok()
    .unwrap()
    .unwrap();
    assert_eq!(p.package_url.as_deref(), Some("https://github.com/serde-rs/serde"));
    assert_eq!(p.license_spdx.as_deref(), Some("Unknown"));
    let q = package_from_record(
        "x".to_string(),
        "1".to_string(),
        None,
        Some("https://serde.rs".to_string()),
        LicenseInfo::Expr("MIT OR Apache-2.0".to_string()),
        vec![],
        &vec![],
    )
    .ok()
    .unwrap()
    .unwrap();
    assert_eq!(q.package_url.as_deref(), Some("https://serde.rs"));
    assert_eq!(q.license_spdx.as_deref(), Some("MIT OR Apache-2.0"));
}

#[test]
fn analysis_names_a_known_license() {
    let corpus = license_store_from_cache().ok().unwrap();
    for text in ["", "Permission is hereby granted, free of charge", "not a license at all"] {
        let id = corpus.analyze(text);
        assert!(spdx::license_id(&id).is_some(), "{id}");
    }
}
