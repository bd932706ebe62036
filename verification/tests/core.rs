use dcs_get::types::{Package, InstalledEntry, PlanStep, ResolutionError};
use dcs_get::store::MetadataStore;
use dcs_get::registry::Registry;
use dcs_get::resolver::{resolve_install, step_pkg_name};

fn pkg(name: &str, deps: &[&str], files: &[&str]) -> Package {
    Package {
        name: name.to_string(),
        version: "1".to_string(),
        deps: deps.iter().map(|d| d.to_string()).collect(),
        files: files.iter().map(|f| f.to_string()).collect(),
    }
}

fn entry(name: &str, deps: &[&str], files: &[&str]) -> InstalledEntry {
    InstalledEntry {
        name: name.to_string(),
        version: "1".to_string(),
        deps: deps.iter().map(|d| d.to_string()).collect(),
        files: files.iter().map(|f| f.to_string()).collect(),
    }
}

fn names(plan: &Vec<PlanStep>) -> Vec<String> {
    plan.iter().map(|s| step_pkg_name(s).clone()).collect()
}

fn req(ns: &[&str]) -> Vec<String> {
    ns.iter().map(|n| n.to_string()).collect()
}

#[test]
fn install_orders_dependencies_first() {
    let mut store = MetadataStore::new();
    assert!(store.add(pkg("app", &["libz", "libc"], &["/opt/app"])));
    assert!(store.add(pkg("libz", &["libc"], &["/opt/libz"])));
    assert!(store.add(pkg("libc", &[], &["/opt/libc"])));
    let reg = Registry::new();
    let plan = resolve_install(&store, &reg, &req(&["app"])).unwrap();
    assert_eq!(names(&plan), vec!["libc", "libz", "app"]);
}

#[test]
fn install_ties_break_by_name() {
    let mut store = MetadataStore::new();
    assert!(store.add(pkg("b", &[], &["/b"])));
    assert!(store.add(pkg("a", &[], &["/a"])));
    assert!(store.add(pkg("top", &["b", "a"], &["/top"])));
    let reg = Registry::new();
    let plan = resolve_install(&store, &reg, &req(&["top"])).unwrap();
    assert_eq!(names(&plan), vec!["a", "b", "top"]);
}

#[test]
fn install_is_deterministic() {
    let mut store = MetadataStore::new();
    assert!(store.add(pkg("x", &["y"], &["/x"])));
    assert!(store.add(pkg("y", &[], &["/y"])));
    assert!(store.add(pkg("z", &["y"], &["/z"])));
    let reg = Registry::new();
    let p1 = resolve_install(&store, &reg, &req(&["x", "z"])).unwrap();
    let p2 = resolve_install(&store, &reg, &req(&["x", "z"])).unwrap();
    assert_eq!(names(&p1), names(&p2));
}

#[test]
fn mutual_dependency_is_a_cycle() {
    let mut store = MetadataStore::new();
    assert!(store.add(pkg("a", &["b"], &["/a"])));
    assert!(store.add(pkg("b", &["a"], &["/b"])));
    let reg = Registry::new();
    match resolve_install(&store, &reg, &req(&["a"])) {
        Err(ResolutionError::CyclicDependency { path }) => {
            assert!(path.contains(&"a".to_string()));
            assert!(path.contains(&"b".to_string()));
        },
        other => panic!("expected a cycle, got {:?}", other.map(|p| names(&p))),
    }
}

#[test]
fn unknown_dependency_is_reported() {
    let mut store = MetadataStore::new();
    assert!(store.add(pkg("a", &["ghost"], &["/a"])));
    let reg = Registry::new();
    match resolve_install(&store, &reg, &req(&["a"])) {
        Err(ResolutionError::UnknownPackage { name }) => assert_eq!(name, "ghost"),
        other => panic!("expected unknown package, got {:?}", other.map(|p| names(&p))),
    }
}

#[test]
fn shared_destination_is_a_conflict() {
    let mut store = MetadataStore::new();
    assert!(store.add(pkg("one", &[], &["/opt/x/bin/tool"])));
    assert!(store.add(pkg("two", &[], &["/opt/x/bin/tool"])));
    let reg = Registry::new();
    match resolve_install(&store, &reg, &req(&["one", "two"])) {
        Err(ResolutionError::FileConflict { path, package_a, package_b }) => {
            assert_eq!(path, "/opt/x/bin/tool");
            assert_ne!(package_a, package_b);
        },
        other => panic!("expected a conflict, got {:?}", other.map(|p| names(&p))),
    }
    // resolution is pure: the registry still holds nothing
    assert_eq!(reg.len(), 0);
}

#[test]
fn conflict_with_installed_package() {
    let mut store = MetadataStore::new();
    assert!(store.add(pkg("newb", &[], &["/shared"])));
    let mut reg = Registry::new();
    reg.put(entry("oldie", &[], &["/shared"]));
    match resolve_install(&store, &reg, &req(&["newb"])) {
        Err(ResolutionError::FileConflict { path, package_a, package_b }) => {
            assert_eq!(path, "/shared");
            assert_eq!(package_a, "newb");
            assert_eq!(package_b, "oldie");
        },
        other => panic!("expected a conflict, got {:?}", other.map(|p| names(&p))),
    }
}

#[test]
fn reinstall_same_version_is_a_no_op() {
    let mut store = MetadataStore::new();
    assert!(store.add(pkg("a", &[], &["/a"])));
    let mut reg = Registry::new();
    reg.put(entry("a", &[], &["/a"]));
    let plan = resolve_install(&store, &reg, &req(&["a"])).unwrap();
    assert!(plan.is_empty());
    assert_eq!(reg.len(), 1);
}

#[test]
fn version_change_becomes_an_upgrade() {
    let mut store = MetadataStore::new();
    let mut newer = pkg("a", &[], &["/a"]);
    newer.version = "2".to_string();
    assert!(store.add(newer));
    let mut reg = Registry::new();
    reg.put(entry("a", &[], &["/a"]));
    let plan = resolve_install(&store, &reg, &req(&["a"])).unwrap();
    assert_eq!(plan.len(), 1);
    assert!(matches!(&plan[0], PlanStep::Upgrade { .. }));
}

#[test]
fn registry_put_get_delete_list() {
    let mut reg = Registry::new();
    reg.put(entry("a", &[], &["/a1", "/a2"]));
    reg.put(entry("b", &["a"], &["/b"]));
    assert_eq!(reg.len(), 2);
    assert_eq!(reg.get(&"a".to_string()).unwrap().files, vec!["/a1", "/a2"]);
    assert!(reg.get(&"c".to_string()).is_none());
    let all = reg.list();
    assert_eq!(all.len(), 2);
    assert_eq!(all[0].name, "a");
    assert_eq!(all[1].name, "b");
    assert!(reg.delete(&"a".to_string()));
    assert!(!reg.delete(&"a".to_string()));
    assert!(reg.get(&"a".to_string()).is_none());
}

#[test]
fn registry_snapshot_restores_exactly() {
    let mut reg = Registry::new();
    reg.put(entry("a", &[], &["/a"]));
    let snap = reg.snapshot();
    reg.put(entry("b", &[], &["/b"]));
    assert!(reg.delete(&"a".to_string()));
    reg.restore(snap);
    assert_eq!(reg.len(), 1);
    assert_eq!(reg.get(&"a".to_string()).unwrap().name, "a");
    assert!(reg.get(&"b".to_string()).is_none());
}

#[test]
fn store_rejects_duplicate_names() {
    let mut store = MetadataStore::new();
    assert!(store.add(pkg("a", &[], &[])));
    assert!(!store.add(pkg("a", &[], &["/other"])));
    assert_eq!(store.len(), 1);
    assert!(store.lookup(&"a".to_string()).is_some());
    assert!(store.lookup(&"b".to_string()).is_none());
}

#[test]
fn removal_without_force_names_dependents() {
    let mut reg = Registry::new();
    reg.put(entry("a", &[], &["/a"]));
    reg.put(entry("b", &["a"], &["/b"]));
    match dcs_get::resolver::resolve_remove(&reg, &req(&["a"]), false) {
        Err(ResolutionError::DependentsExist { names }) => {
            assert_eq!(names, vec!["b".to_string()]);
        },
        other => panic!("expected dependents, got {:?}", other.map(|p| names(&p))),
    }
    assert_eq!(reg.len(), 2);
}

#[test]
fn forced_removal_takes_dependents_first() {
    let mut reg = Registry::new();
    reg.put(entry("a", &[], &["/a"]));
    reg.put(entry("b", &["a"], &["/b"]));
    let plan = dcs_get::resolver::resolve_remove(&reg, &req(&["a"]), true).unwrap();
    assert_eq!(names(&plan), vec!["b", "a"]);
    assert!(plan.iter().all(|s| matches!(s, PlanStep::Remove { .. })));
}

#[test]
fn removing_what_is_not_installed_fails() {
    let reg = Registry::new();
    match dcs_get::resolver::resolve_remove(&reg, &req(&["ghost"]), false) {
        Err(ResolutionError::NotInstalled { name }) => assert_eq!(name, "ghost"),
        other => panic!("expected not installed, got {:?}", other.map(|p| names(&p))),
    }
}

#[test]
fn removal_order_breaks_ties_by_name() {
    let mut reg = Registry::new();
    reg.put(entry("base", &[], &["/base"]));
    reg.put(entry("y", &["base"], &["/y"]));
    reg.put(entry("x", &["base"], &["/x"]));
    let plan =
        dcs_get::resolver::resolve_remove(&reg, &req(&["base", "x", "y"]), false).unwrap();
    assert_eq!(names(&plan), vec!["x", "y", "base"]);
}
