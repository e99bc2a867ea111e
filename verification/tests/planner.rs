use workspace_cache::metadata::{
    extract_workspace, get_all_bins, is_bin_target, is_lib_target, packages_for_bins,
    resolve_bins_to_packages, resolve_workspace_deps, Metadata, Package, ResolveNode, Target,
    WorkspaceError,
};

fn s(x: &str) -> String {
    x.to_string()
}

fn target(name: &str, kind: &str) -> Target {
    Target { name: s(name), kind: vec![s(kind)] }
}

fn package(id: u64, name: &str, dir: &str, targets: Vec<Target>, deps: &[&str]) -> Package {
    Package {
        id,
        name: s(name),
        version: s("0.1.0"),
        manifest_dir: format!("/ws/{dir}"),
        targets,
        dependencies: deps.iter().map(|d| s(d)).collect(),
    }
}

fn registry(id: u64, name: &str, version: &str) -> Package {
    Package {
        id,
        name: s(name),
        version: s(version),
        manifest_dir: format!("/registry/{name}-{version}"),
        targets: vec![target(name, "lib")],
        dependencies: vec![],
    }
}

fn node(id: u64, deps: &[u64]) -> ResolveNode {
    ResolveNode { id, dependencies: deps.to_vec() }
}

/// user -> pkg-a -> pkg-b, order -> pkg-a; user uses serde, order uses tokio.
fn workspace() -> Metadata {
    Metadata {
        packages: vec![
            package(1, "user", "crates/user", vec![target("user", "bin")], &["pkg-a", "serde"]),
            package(2, "order", "crates/order", vec![target("order", "bin")], &["pkg-a", "tokio"]),
            package(3, "pkg-a", "crates/pkg-a", vec![target("pkg_a", "lib")], &["pkg-b"]),
            package(4, "pkg-b", "crates/pkg-b", vec![target("pkg_b", "lib")], &[]),
            registry(5, "serde", "1.0.0"),
            registry(6, "tokio", "1.2.0"),
        ],
        workspace_members: vec![1, 2, 3, 4],
        resolve: Some(vec![
            node(1, &[3, 5]),
            node(2, &[3, 6]),
            node(3, &[4]),
            node(4, &[]),
            node(5, &[]),
            node(6, &[]),
        ]),
        workspace_root: s("/ws"),
    }
}

#[test]
fn resolve_follows_transitive_member_dependencies() {
    let meta = workspace();
    assert_eq!(resolve_workspace_deps(&meta, &vec![s("user")]), vec![s("pkg-a"), s("pkg-b"), s("user")]);
    assert_eq!(resolve_workspace_deps(&meta, &vec![s("order")]), vec![s("order"), s("pkg-a"), s("pkg-b")]);
}

#[test]
fn resolve_ignores_names_that_are_not_members() {
    let meta = workspace();
    assert_eq!(resolve_workspace_deps(&meta, &vec![s("serde"), s("nothing")]), Vec::<String>::new());
    assert_eq!(resolve_workspace_deps(&meta, &vec![s("pkg-b"), s("pkg-b")]), vec![s("pkg-b")]);
}

#[test]
fn resolve_again_gives_the_same_members() {
    let meta = workspace();
    let once = resolve_workspace_deps(&meta, &vec![s("user")]);
    let twice = resolve_workspace_deps(&meta, &once);
    assert_eq!(once, twice);
}

#[test]
fn resolve_result_is_sorted() {
    let meta = workspace();
    let all = resolve_workspace_deps(&meta, &vec![s("user"), s("order")]);
    assert_eq!(all, vec![s("order"), s("pkg-a"), s("pkg-b"), s("user")]);
}

#[test]
fn bins_map_to_their_packages() {
    let meta = workspace();
    let entries = resolve_bins_to_packages(&meta, &vec![s("user"), s("missing"), s("user")]);
    assert_eq!(entries.len(), 1);
    assert_eq!(entries[0].bin, "user");
    assert_eq!(entries[0].package, "user");
}

#[test]
fn all_bins_are_listed_member_by_member() {
    let meta = workspace();
    assert_eq!(get_all_bins(&meta), vec![s("user"), s("order")]);
}

#[test]
fn members_for_bin_include_transitive_deps() {
    let meta = workspace();
    match packages_for_bins(&meta, &vec![s("user")]) {
        Ok(p) => assert_eq!(p, vec![s("pkg-a"), s("pkg-b"), s("user")]),
        Err(_) => panic!("user should be found"),
    }
}

#[test]
fn no_bins_selects_nothing() {
    let meta = workspace();
    match packages_for_bins(&meta, &vec![]) {
        Ok(p) => assert!(p.is_empty()),
        Err(_) => panic!("no bins is no error"),
    }
}

#[test]
fn missing_bin_is_reported_with_available_bins() {
    let meta = workspace();
    match packages_for_bins(&meta, &vec![s("user"), s("nonexistent"), s("other")]) {
        Ok(_) => panic!("should fail when binary not found"),
        Err(WorkspaceError::BinaryNotFound { bin, available }) => {
            assert_eq!(bin, "nonexistent");
            assert_eq!(available, vec![s("user"), s("order")]);
        }
    }
}

#[test]
fn multiple_bins_in_one_package_are_each_found() {
    let meta = Metadata {
        packages: vec![package(
            1,
            "app",
            "crates/app",
            vec![target("server", "bin"), target("cli", "bin")],
            &[],
        )],
        workspace_members: vec![1],
        resolve: Some(vec![node(1, &[])]),
        workspace_root: s("/ws"),
    };
    for bin in ["server", "cli"] {
        match packages_for_bins(&meta, &vec![s(bin)]) {
            Ok(p) => assert_eq!(p, vec![s("app")]),
            Err(_) => panic!("{bin} should be found"),
        }
    }
}

#[test]
fn extract_selects_named_members_with_their_info() {
    let meta = workspace();
    let ws = extract_workspace(&meta, &vec![s("pkg-a"), s("user")]);
    let names: Vec<&str> = ws.members.iter().map(|m| m.name.as_str()).collect();
    assert_eq!(names, vec!["user", "pkg-a"]);
    assert_eq!(ws.members[0].path, "crates/user");
    assert!(ws.members[0].is_bin && !ws.members[0].is_lib);
    assert_eq!(ws.members[0].bins, vec![s("user")]);
    assert!(ws.members[1].is_lib && !ws.members[1].is_bin);
    assert!(ws.members[1].bins.is_empty());
}

#[test]
fn extract_keeps_only_outside_dependencies_that_are_used() {
    let meta = workspace();
    let ws = extract_workspace(&meta, &vec![s("user"), s("pkg-a"), s("pkg-b")]);
    assert_eq!(ws.used_dependencies, vec![s("serde")]);
    let all = extract_workspace(&meta, &vec![]);
    assert_eq!(all.members.len(), 4);
    let mut used = all.used_dependencies.clone();
    used.sort();
    assert_eq!(used, vec![s("serde"), s("tokio")]);
}

#[test]
fn extract_resolves_packages_reachable_from_selection() {
    let meta = workspace();
    let ws = extract_workspace(&meta, &vec![s("user"), s("pkg-a"), s("pkg-b")]);
    let mut got: Vec<(String, String)> =
        ws.resolved_packages.iter().map(|p| (p.name.clone(), p.version.clone())).collect();
    got.sort();
    assert_eq!(
        got,
        vec![
            (s("pkg-a"), s("0.1.0")),
            (s("pkg-b"), s("0.1.0")),
            (s("serde"), s("1.0.0")),
            (s("user"), s("0.1.0")),
        ]
    );
}

#[test]
fn extract_without_resolve_graph_resolves_nothing() {
    let mut meta = workspace();
    meta.resolve = None;
    let ws = extract_workspace(&meta, &vec![]);
    assert!(ws.resolved_packages.is_empty());
    assert_eq!(ws.members.len(), 4);
}

#[test]
fn member_outside_root_keeps_its_directory() {
    let mut meta = workspace();
    meta.packages[3].manifest_dir = s("/elsewhere/pkg-b");
    let ws = extract_workspace(&meta, &vec![s("pkg-b")]);
    assert_eq!(ws.members[0].path, "/elsewhere/pkg-b");
}

#[test]
fn target_kinds_are_classified() {
    for kind in ["lib", "rlib", "dylib", "staticlib", "cdylib", "proc-macro"] {
        assert!(is_lib_target(&target("x", kind)), "{kind} is a library");
        assert!(!is_bin_target(&target("x", kind)));
    }
    assert!(is_bin_target(&target("x", "bin")));
    assert!(!is_lib_target(&target("x", "bin")));
    assert!(!is_lib_target(&target("x", "test")));
    assert!(!is_bin_target(&target("x", "example")));
}
