use license_minimizer::{
    minimize_package, minimize_requirements, parse, retain_files, LicenseError, LicenseFile,
    Package,
};

fn texts(v: &[&str]) -> Vec<String> {
    v.iter().map(|s| s.to_string()).collect()
}

fn file(name: &str, spdx: Option<&str>) -> LicenseFile {
    LicenseFile { name: name.to_string(), spdx: spdx.map(|s| s.to_string()), text: String::new() }
}

fn package(expr: Option<&str>, files: Vec<LicenseFile>) -> Package {
    Package {
        package_name: "demo".to_string(),
        package_version: "1.0.0".to_string(),
        package_url: None,
        license_spdx: expr.map(|s| s.to_string()),
        license_files: files,
    }
}

fn file_names(p: &Package) -> Vec<String> {
    p.license_files.iter().map(|f| f.name.clone()).collect()
}

#[test]
fn or_minimizes_to_accepted_branch() {
    let e = parse("MIT OR Apache-2.0").ok().unwrap();
    let r = e.minimized_requirements(&texts(&["MIT"])).ok().unwrap();
    assert_eq!(r, texts(&["MIT"]));
}

#[test]
fn or_drops_files_of_unselected_license() {
    let mut pkgs = vec![package(
        Some("MIT OR Apache-2.0"),
        vec![file("LICENSE-MIT", Some("MIT")), file("LICENSE-APACHE", Some("Apache-2.0")), file("COPYING", None)],
    )];
    assert!(minimize_requirements(&mut pkgs, &texts(&["MIT"])).is_ok());
    assert_eq!(file_names(&pkgs[0]), texts(&["LICENSE-MIT", "COPYING"]));
}

#[test]
fn and_with_unaccepted_part_is_unsatisfiable() {
    let mut pkgs = vec![package(Some("MIT AND Apache-2.0"), vec![file("LICENSE-MIT", Some("MIT"))])];
    let err = minimize_requirements(&mut pkgs, &texts(&["MIT"])).err().unwrap();
    assert!(matches!(err.error, LicenseError::UnsatisfiableLicense));
    assert_eq!(err.package_name, "demo");
    assert_eq!(err.package_version, "1.0.0");
    assert_eq!(err.expression, "MIT AND Apache-2.0");
    assert_eq!(file_names(&pkgs[0]), texts(&["LICENSE-MIT"]));
}

#[test]
fn unbalanced_parenthesis_is_malformed() {
    match parse("(MIT") {
        Err(LicenseError::MalformedExpression { expression }) => assert_eq!(expression, "(MIT"),
        _ => panic!("expected a malformed expression"),
    }
}

#[test]
fn empty_and_unknown_expressions_are_malformed() {
    assert!(matches!(parse(""), Err(LicenseError::MalformedExpression { .. })));
    assert!(matches!(parse("MIT OR"), Err(LicenseError::MalformedExpression { .. })));
    assert!(matches!(parse("NOT-A-LICENSE-XYZ"), Err(LicenseError::MalformedExpression { .. })));
}

#[test]
fn malformed_expression_in_package_carries_context() {
    let mut pkgs = vec![package(Some("(MIT"), vec![])];
    let err = minimize_requirements(&mut pkgs, &texts(&["MIT"])).err().unwrap();
    assert!(matches!(err.error, LicenseError::MalformedExpression { .. }));
    assert_eq!(err.package_name, "demo");
}

#[test]
fn shared_requirement_is_pruned_to_one() {
    let e = parse("(MIT OR Apache-2.0) AND (Apache-2.0 OR BSD-3-Clause)").ok().unwrap();
    let r = e.minimized_requirements(&texts(&["MIT", "Apache-2.0", "BSD-3-Clause"])).ok().unwrap();
    assert_eq!(r, texts(&["Apache-2.0"]));
    assert!(e.satisfied_by(&r));
    assert!(!e.satisfied_by(&texts(&[])));
}

#[test]
fn minimized_set_is_sound_and_minimal() {
    let policy = texts(&["MIT", "Apache-2.0", "ISC", "Zlib"]);
    for t in [
        "MIT",
        "MIT AND ISC",
        "MIT OR Apache-2.0",
        "(MIT AND ISC) OR Zlib",
        "Apache-2.0 AND (MIT OR ISC) AND (ISC OR Zlib)",
        "MIT AND MIT",
    ] {
        let e = parse(t).ok().unwrap();
        let r = e.minimized_requirements(&policy).ok().unwrap();
        assert!(e.satisfied_by(&r), "{t}");
        assert!(r.iter().all(|x| policy.contains(x)), "{t}");
        for i in 0..r.len() {
            let mut smaller = r.clone();
            smaller.remove(i);
            assert!(!e.satisfied_by(&smaller), "{t}");
        }
    }
}

#[test]
fn or_tie_prefers_left_branch() {
    let e = parse("Apache-2.0 OR MIT").ok().unwrap();
    let r = e.minimized_requirements(&texts(&["MIT", "Apache-2.0"])).ok().unwrap();
    assert_eq!(r, texts(&["Apache-2.0"]));
}

#[test]
fn or_prefers_fewer_requirements() {
    let e = parse("(MIT AND ISC) OR Zlib").ok().unwrap();
    let r = e.minimized_requirements(&texts(&["MIT", "ISC", "Zlib"])).ok().unwrap();
    assert_eq!(r, texts(&["Zlib"]));
}

#[test]
fn minimization_is_deterministic() {
    let e = parse("MIT OR Apache-2.0 OR ISC").ok().unwrap();
    let p = texts(&["ISC", "Apache-2.0"]);
    let a = e.minimized_requirements(&p).ok().unwrap();
    let b = e.minimized_requirements(&p).ok().unwrap();
    assert_eq!(a, b);
}

#[test]
fn remaining_files_are_untagged_or_selected() {
    let mut p = package(
        Some("GPL-2.0-only OR MIT OR Apache-2.0"),
        vec![
            file("a", Some("GPL-2.0-only")),
            file("b", Some("MIT")),
            file("c", None),
            file("d", Some("Apache-2.0")),
        ],
    );
    let policy = texts(&["Apache-2.0"]);
    assert!(minimize_package(&mut p, &policy).is_ok());
    assert_eq!(file_names(&p), texts(&["c", "d"]));
    for f in &p.license_files {
        assert!(f.spdx.is_none() || policy.contains(f.spdx.as_ref().unwrap()));
    }
}

#[test]
fn package_without_expression_keeps_files() {
    let mut p = package(None, vec![file("a", Some("GPL-2.0-only")), file("b", None)]);
    assert!(minimize_package(&mut p, &texts(&[])).is_ok());
    assert_eq!(file_names(&p), texts(&["a", "b"]));
}

#[test]
fn failure_stops_at_first_failing_package() {
    let mut pkgs = vec![
        package(Some("MIT OR Apache-2.0"), vec![file("m", Some("MIT")), file("a", Some("Apache-2.0"))]),
        package(Some("ISC"), vec![file("i", Some("ISC"))]),
        package(Some("MIT OR Apache-2.0"), vec![file("m", Some("MIT")), file("a", Some("Apache-2.0"))]),
    ];
    let err = minimize_requirements(&mut pkgs, &texts(&["MIT"])).err().unwrap();
    assert_eq!(err.expression, "ISC");
    assert!(matches!(err.error, LicenseError::UnsatisfiableLicense));
    assert_eq!(file_names(&pkgs[0]), texts(&["m"]));
    assert_eq!(file_names(&pkgs[1]), texts(&["i"]));
    assert_eq!(file_names(&pkgs[2]), texts(&["m", "a"]));
}

#[test]
fn retain_keeps_order_of_files() {
    let mut fs = vec![file("x", None), file("y", Some("ISC")), file("z", Some("MIT")), file("w", None)];
    retain_files(&mut fs, &texts(&["MIT"]));
    let names: Vec<String> = fs.iter().map(|f| f.name.clone()).collect();
    assert_eq!(names, texts(&["x", "z", "w"]));
}

#[test]
fn empty_policy_is_unsatisfiable() {
    let e = parse("MIT").ok().unwrap();
    assert!(matches!(e.minimized_requirements(&texts(&[])), Err(LicenseError::UnsatisfiableLicense)));
}
