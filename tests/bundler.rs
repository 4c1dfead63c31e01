use robber::bundler::{bundle_order, is_builtin, Dependency, Graph, Package, Target};
use robber::plan::{bundle_plan, emit_section, sanitize_name, select_root, BundleError, Section};

fn target(name: &str, path: &str) -> Option<Target> {
    Some(Target { name: name.to_string(), src_path: path.to_string() })
}

fn dep(name: &str, package: usize) -> Dependency {
    Dependency { name: name.to_string(), package }
}

fn lib_pkg(name: &str, deps: Vec<Dependency>) -> Package {
    Package { deps, lib: target(name, &format!("{}/lib.rs", name)), bin: None }
}

/// 0: app (bin), depends on 1 and 2 and on rand (3); 1 and 2 both depend on 4.
fn diamond() -> Graph {
    Graph {
        packages: vec![
            Package {
                deps: vec![dep("left-lib", 1), dep("right", 2), dep("rand", 3)],
                lib: None,
                bin: target("app", "app/main.rs"),
            },
            lib_pkg("left-lib", vec![dep("base", 4)]),
            lib_pkg("right", vec![dep("base", 4)]),
            lib_pkg("rand", vec![]),
            lib_pkg("base", vec![]),
        ],
    }
}

fn texts(sections: &[Section]) -> Vec<(Option<String>, String)> {
    sections.iter().map(|s| (s.library.clone(), s.src_path.clone())).collect()
}

#[test]
fn shared_dependency_emitted_once_and_first() {
    let order = bundle_order(&diamond(), 0);
    assert_eq!(order, vec![4, 1, 2, 0]);
}

#[test]
fn builtin_dependency_skipped() {
    let order = bundle_order(&diamond(), 0);
    assert!(!order.contains(&3));
    assert!(is_builtin(&"rand".to_string()));
    assert!(is_builtin(&"log".to_string()));
    assert!(is_builtin(&"env_logger".to_string()));
    assert!(!is_builtin(&"serde".to_string()));
}

#[test]
fn plan_lists_libraries_then_binary() {
    let plan = bundle_plan(&diamond(), Some(0)).unwrap();
    assert_eq!(
        texts(&plan),
        vec![
            (Some("base".to_string()), "base/lib.rs".to_string()),
            (Some("left_lib".to_string()), "left-lib/lib.rs".to_string()),
            (Some("right".to_string()), "right/lib.rs".to_string()),
            (None, "app/main.rs".to_string()),
        ]
    );
}

#[test]
fn bundling_twice_gives_the_same_plan() {
    let a = texts(&bundle_plan(&diamond(), None).unwrap());
    let b = texts(&bundle_plan(&diamond(), None).unwrap());
    assert_eq!(a, b);
}

#[test]
fn single_package_without_dependencies() {
    let g = Graph {
        packages: vec![Package { deps: vec![], lib: None, bin: target("hi", "src/main.rs") }],
    };
    let plan = bundle_plan(&g, None).unwrap();
    assert_eq!(texts(&plan), vec![(None, "src/main.rs".to_string())]);
    let source = "fn main(){ println!(\"hi\"); }";
    let mut out = String::new();
    for s in &plan {
        emit_section(&mut out, s, source);
    }
    assert_eq!(out, source);
}

#[test]
fn library_section_is_wrapped_in_a_module() {
    let s = Section { library: Some("base".to_string()), src_path: "base/lib.rs".to_string() };
    let mut out = String::from("// start\n");
    emit_section(&mut out, &s, "pub fn f() {}");
    assert_eq!(out, "// start\npub mod base {\nuse super::*;\npub fn f() {}\n}\n");
}

#[test]
fn root_without_binary_is_an_error() {
    assert_eq!(bundle_plan(&diamond(), Some(1)).unwrap_err(), BundleError::MissingBinary);
}

#[test]
fn no_binary_anywhere_is_an_error() {
    let g = Graph { packages: vec![lib_pkg("a", vec![])] };
    assert_eq!(bundle_plan(&g, None).unwrap_err(), BundleError::NoBinaryPackage);
    assert_eq!(select_root(&g, None), Err(BundleError::NoBinaryPackage));
}

#[test]
fn unknown_package_is_an_error() {
    assert_eq!(bundle_plan(&diamond(), Some(9)).unwrap_err(), BundleError::UnknownPackage);
    let g = Graph {
        packages: vec![Package { deps: vec![dep("gone", 5)], lib: None, bin: target("a", "a.rs") }],
    };
    assert_eq!(bundle_plan(&g, None).unwrap_err(), BundleError::UnknownPackage);
}

#[test]
fn root_defaults_to_first_binary_package() {
    let g = Graph {
        packages: vec![
            lib_pkg("a", vec![]),
            Package { deps: vec![], lib: None, bin: target("b", "b.rs") },
            Package { deps: vec![], lib: None, bin: target("c", "c.rs") },
        ],
    };
    assert_eq!(select_root(&g, None), Ok(1));
    assert_eq!(select_root(&g, Some(2)), Ok(2));
}

#[test]
fn cycle_still_terminates_and_visits_once() {
    let g = Graph {
        packages: vec![
            Package { deps: vec![dep("x", 1)], lib: None, bin: target("a", "a.rs") },
            lib_pkg("x", vec![dep("y", 2)]),
            lib_pkg("y", vec![dep("x", 1)]),
        ],
    };
    assert_eq!(bundle_order(&g, 0), vec![2, 1, 0]);
}

#[test]
fn names_sanitized() {
    assert_eq!(sanitize_name("my-lib-2"), "my_lib_2");
    assert_eq!(sanitize_name("plain"), "plain");
    assert_eq!(sanitize_name(""), "");
}
