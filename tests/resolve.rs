use indexmap::IndexMap;
use windows_sdk::model::{Dependency, DependencyChip, DependencyRaw, DependencyType, Manifest, Package, PackageType};
use windows_sdk::resolve::choose_packages;

fn dep(ty: Option<DependencyType>) -> Dependency {
    match ty {
        None => Dependency::from(DependencyRaw::Version("1.0".to_string())),
        Some(t) => Dependency::from(DependencyRaw::Detailed { version: "1.0".to_string(), ty: Some(t), chip: None }),
    }
}

fn package(id: &str, deps: &[(&str, Option<DependencyType>)]) -> Package {
    let mut dependencies = IndexMap::new();
    for (target, ty) in deps {
        dependencies.insert(target.to_string(), dep(*ty));
    }
    Package {
        id: id.to_string(),
        version: "1.0".to_string(),
        ty: PackageType::Component,
        dependencies,
        payloads: Vec::new(),
    }
}

fn manifest(packages: Vec<Package>) -> Manifest {
    Manifest { manifest_version: "1.1".to_string(), engine_version: "2.0".to_string(), packages }
}

fn ids(m: &Manifest, r: &[usize]) -> Vec<String> {
    let mut v: Vec<String> = r.iter().map(|&i| m.packages[i].id.clone()).collect();
    v.sort();
    v
}

fn roots(v: &[&str]) -> Vec<String> {
    v.iter().map(|s| s.to_string()).collect()
}

#[test]
fn optional_dependency_is_not_followed() {
    let m = manifest(vec![
        package("A", &[("B", None), ("C", Some(DependencyType::Optional))]),
        package("B", &[]),
        package("C", &[]),
    ]);
    let r = choose_packages(&m, &roots(&["A"]));
    assert_eq!(ids(&m, &r), vec!["A", "B"]);
}

#[test]
fn recommended_dependency_is_not_followed() {
    let m = manifest(vec![package("A", &[("B", Some(DependencyType::Recommended))]), package("B", &[])]);
    let r = choose_packages(&m, &roots(&["A"]));
    assert_eq!(ids(&m, &r), vec!["A"]);
}

#[test]
fn package_reached_by_both_kinds_of_edge_is_included() {
    let m = manifest(vec![
        package("A", &[("C", Some(DependencyType::Optional)), ("B", None)]),
        package("B", &[("C", None)]),
        package("C", &[]),
    ]);
    let r = choose_packages(&m, &roots(&["A"]));
    assert_eq!(ids(&m, &r), vec!["A", "B", "C"]);
}

#[test]
fn closure_is_transitive() {
    let m = manifest(vec![
        package("A", &[("B", None)]),
        package("B", &[("C", None)]),
        package("C", &[("D", None)]),
        package("D", &[]),
        package("E", &[]),
    ]);
    let r = choose_packages(&m, &roots(&["A"]));
    assert_eq!(ids(&m, &r), vec!["A", "B", "C", "D"]);
}

#[test]
fn ids_match_ignoring_ascii_case() {
    let m = manifest(vec![package("Microsoft.Alpha", &[("MICROSOFT.BETA", None)]), package("microsoft.beta", &[])]);
    let r = choose_packages(&m, &roots(&["microsoft.ALPHA"]));
    assert_eq!(ids(&m, &r), vec!["Microsoft.Alpha", "microsoft.beta"]);
}

#[test]
fn unknown_ids_are_passed_over() {
    let m = manifest(vec![package("A", &[("Missing", None)])]);
    assert!(choose_packages(&m, &roots(&["Nothing"])).is_empty());
    let r = choose_packages(&m, &roots(&["A", "Nothing"]));
    assert_eq!(ids(&m, &r), vec!["A"]);
}

#[test]
fn cycles_and_self_loops_terminate() {
    let m = manifest(vec![package("A", &[("B", None), ("A", None)]), package("B", &[("A", None)])]);
    let r = choose_packages(&m, &roots(&["A"]));
    assert_eq!(r.len(), 2);
    assert_eq!(ids(&m, &r), vec!["A", "B"]);
}

#[test]
fn first_of_equal_ids_is_taken() {
    let m = manifest(vec![package("X", &[]), package("x", &[]), package("Y", &[("X", None)])]);
    let r = choose_packages(&m, &roots(&["Y"]));
    let mut got = r.clone();
    got.sort();
    assert_eq!(got, vec![0, 2]);
}

#[test]
fn each_package_is_listed_once() {
    let m = manifest(vec![
        package("A", &[("B", None), ("C", None)]),
        package("B", &[("D", None)]),
        package("C", &[("D", None)]),
        package("D", &[]),
    ]);
    let r = choose_packages(&m, &roots(&["A", "a", "D"]));
    assert_eq!(r.len(), 4);
    assert_eq!(ids(&m, &r), vec!["A", "B", "C", "D"]);
}

#[test]
fn requested_order_does_not_change_the_set() {
    let m = manifest(vec![
        package("A", &[("B", None)]),
        package("B", &[]),
        package("C", &[("D", None)]),
        package("D", &[]),
    ]);
    let r1 = choose_packages(&m, &roots(&["A", "C"]));
    let r2 = choose_packages(&m, &roots(&["c", "A", "a"]));
    assert_eq!(ids(&m, &r1), ids(&m, &r2));
    assert_eq!(ids(&m, &r1), vec!["A", "B", "C", "D"]);
}

#[test]
fn empty_request_resolves_to_nothing() {
    let m = manifest(vec![package("A", &[])]);
    assert!(choose_packages(&m, &Vec::new()).is_empty());
}

#[test]
fn bare_dependency_has_no_qualifiers() {
    let d = Dependency::from(DependencyRaw::Version("10.0".to_string()));
    assert_eq!(d.version, "10.0");
    assert!(d.ty.is_none());
    assert!(d.chip.is_none());
    let e = Dependency::from(DependencyRaw::Detailed {
        version: "2".to_string(),
        ty: Some(DependencyType::Optional),
        chip: Some(DependencyChip::Arm64),
    });
    assert_eq!(e.version, "2");
    assert_eq!(e.ty, Some(DependencyType::Optional));
    assert_eq!(e.chip, Some(DependencyChip::Arm64));
}
