//! The scenarios of the program's end-to-end tests, run against the
//! planner: the workspace metadata is written out as `cargo metadata` would
//! report it, and the checks read the planned files instead of a directory.

use workspace_cache::builder::cargo_build_args;
use workspace_cache::cli::{parse, Command};
use workspace_cache::generator::{generate_minimal_workspace, WorkspacePlan};
use workspace_cache::metadata::{
    extract_workspace, packages_for_bins, Metadata, Package, ResolveNode, Target, WorkspaceError,
};

fn s(x: &str) -> String {
    x.to_string()
}

struct Crate {
    name: &'static str,
    path: &'static str,
    kind: &'static str,
    bins: &'static [&'static str],
    deps: &'static [&'static str],
}

/// Metadata of a workspace whose members are `crates` and whose outside
/// dependencies are `registry` (name, version, its own dependencies).
fn metadata(crates: &[Crate], registry: &[(&str, &str, &[&str])], resolved: bool) -> Metadata {
    let mut packages = Vec::new();
    let names: Vec<&str> = crates.iter().map(|c| c.name).chain(registry.iter().map(|r| r.0)).collect();
    let id_of = |n: &str| names.iter().position(|x| *x == n).unwrap() as u64 + 1;
    for c in crates {
        let targets = if c.bins.is_empty() {
            vec![Target { name: c.name.replace('-', "_"), kind: vec![s(c.kind)] }]
        } else {
            c.bins.iter().map(|b| Target { name: s(b), kind: vec![s("bin")] }).collect()
        };
        packages.push(Package {
            id: id_of(c.name),
            name: s(c.name),
            version: s("0.1.0"),
            manifest_dir: format!("/tmp/ws/{}", c.path),
            targets,
            dependencies: c.deps.iter().map(|d| s(d)).collect(),
        });
    }
    for (name, version, deps) in registry {
        packages.push(Package {
            id: id_of(name),
            name: s(name),
            version: s(version),
            manifest_dir: format!("/home/.cargo/registry/{name}-{version}"),
            targets: vec![Target { name: s(name), kind: vec![s("lib")] }],
            dependencies: deps.iter().map(|d| s(d)).collect(),
        });
    }
    let resolve = if resolved {
        Some(
            packages
                .iter()
                .map(|p| ResolveNode { id: p.id, dependencies: p.dependencies.iter().map(|d| id_of(d)).collect() })
                .collect(),
        )
    } else {
        None
    };
    Metadata {
        packages,
        workspace_members: crates.iter().map(|c| id_of(c.name)).collect(),
        resolve,
        workspace_root: s("/tmp/ws"),
    }
}

fn deps(meta: &Metadata, bins: &[&str], manifest: &str, lock: Option<&str>) -> WorkspacePlan {
    let bins: Vec<String> = bins.iter().map(|b| s(b)).collect();
    let packages = match packages_for_bins(meta, &bins) {
        Ok(p) => p,
        Err(_) => panic!("deps failed"),
    };
    let ws = extract_workspace(meta, &packages);
    match generate_minimal_workspace(meta, &ws, &s(manifest), lock.map(|l| l.as_bytes().to_vec())) {
        Ok(plan) => plan,
        Err(_) => panic!("deps failed"),
    }
}

fn has_file(plan: &WorkspacePlan, member: &str, file: &str) -> bool {
    plan.members.iter().any(|m| m.path == member && m.stub.files.iter().any(|f| f.path == file))
}

fn has_member(plan: &WorkspacePlan, member: &str) -> bool {
    plan.members.iter().any(|m| m.path == member)
}

const USER_PKG_A: &[Crate] = &[
    Crate { name: "user", path: "crates/user", kind: "bin", bins: &["user"], deps: &["serde", "pkg-a"] },
    Crate { name: "pkg-a", path: "crates/pkg-a", kind: "lib", bins: &[], deps: &["log"] },
];

const USER_PKG_A_MANIFEST: &str = r#"[workspace]
members = ["crates/user", "crates/pkg-a"]
resolver = "2"

[workspace.dependencies]
serde = "1"
log = "0.4"
"#;

#[test]
fn test_deps_command_creates_workspace_cache() {
    let meta = metadata(USER_PKG_A, &[("serde", "1.0.0", &[]), ("log", "0.4.0", &[])], true);
    let plan = deps(&meta, &[], USER_PKG_A_MANIFEST, None);
    assert!(has_member(&plan, "crates/user"), "user/Cargo.toml should exist");
    assert!(has_member(&plan, "crates/pkg-a"), "pkg-a/Cargo.toml should exist");
    assert!(has_file(&plan, "crates/user", "src/main.rs"), "user/src/main.rs stub should exist");
    assert!(has_file(&plan, "crates/pkg-a", "src/lib.rs"), "pkg-a/src/lib.rs stub should exist");
    assert!(plan.manifest.contains("[workspace]"), "should have workspace section");
    assert!(plan.manifest.contains("crates/user"), "should include user member");
    assert!(plan.manifest.contains("crates/pkg-a"), "should include pkg-a member");
}

#[test]
fn test_deps_command_copies_lockfile() {
    let meta = metadata(USER_PKG_A, &[("serde", "1.0.0", &[]), ("log", "0.4.0", &[])], true);
    let plan = deps(&meta, &[], USER_PKG_A_MANIFEST, Some("# fake lockfile\n"));
    assert_eq!(plan.lockfile, Some(b"# fake lockfile\n".to_vec()), "Cargo.lock should be copied");
}

#[test]
fn test_build_command() {
    assert_eq!(cargo_build_args(false, &vec![]), vec![s("build"), s("--workspace")]);
}

#[test]
fn test_build_command_release() {
    assert_eq!(cargo_build_args(true, &vec![]), vec![s("build"), s("--workspace"), s("--release")]);
}

#[test]
fn test_build_with_bin_filter() {
    assert_eq!(cargo_build_args(false, &vec![s("user")]), vec![s("build"), s("--bin"), s("user")]);
}

const FILTER: &[Crate] = &[
    Crate { name: "user", path: "crates/user", kind: "bin", bins: &["user"], deps: &["pkg-a", "axum"] },
    Crate { name: "order", path: "crates/order", kind: "bin", bins: &["order"], deps: &["pkg-a", "tokio"] },
    Crate { name: "pkg-a", path: "crates/pkg-a", kind: "lib", bins: &[], deps: &["serde"] },
];

#[test]
fn test_bin_filter() {
    let meta = metadata(FILTER, &[("axum", "0.7.0", &[]), ("tokio", "1.0.0", &[]), ("serde", "1.0.0", &[])], true);
    let manifest = r#"[workspace]
members = ["crates/user", "crates/order", "crates/pkg-a"]
resolver = "2"

[workspace.dependencies]
axum = "0.7"
tokio = "1"
serde = "1"
"#;
    let plan = deps(&meta, &["user"], manifest, None);
    assert!(has_member(&plan, "crates/user"), "should include user");
    assert!(has_member(&plan, "crates/pkg-a"), "should include pkg-a (dependency of user)");
    assert!(!has_member(&plan, "crates/order"), "should NOT include order");
    assert!(plan.manifest.contains("crates/user"), "workspace should list user");
    assert!(plan.manifest.contains("crates/pkg-a"), "workspace should list pkg-a");
    assert!(!plan.manifest.contains("crates/order"), "workspace should NOT list order");
}

#[test]
fn test_binary_crate_creates_main_rs() {
    let crates = &[Crate { name: "user", path: "crates/user", kind: "bin", bins: &["user"], deps: &[] }];
    let meta = metadata(crates, &[], true);
    let plan = deps(&meta, &[], "[workspace]\nmembers = [\"crates/user\"]\nresolver = \"2\"\n", None);
    let stub = plan.members[0].stub.files.iter().find(|f| f.path == "src/main.rs");
    assert!(stub.is_some(), "main.rs stub should exist");
    assert!(stub.unwrap().contents.contains("fn main()"), "stub should have main function");
}

const RESOLVE: &[Crate] = &[
    Crate { name: "user", path: "crates/user", kind: "bin", bins: &["user"], deps: &["pkg-a"] },
    Crate { name: "order", path: "crates/order", kind: "bin", bins: &["order"], deps: &["pkg-a"] },
    Crate { name: "pkg-a", path: "crates/pkg-a", kind: "lib", bins: &[], deps: &["pkg-b"] },
    Crate { name: "pkg-b", path: "crates/pkg-b", kind: "lib", bins: &[], deps: &[] },
];

/// Runs `resolve --bin <bin>` through the command line and the planner, and
/// reads the member names from the printed "path name" lines.
fn members_of(meta: &Metadata, bin: &str) -> Vec<String> {
    let bins = match parse(&vec![s("resolve"), s("--bin"), s(bin)]) {
        Ok(cli) => match cli.command {
            Command::Members { bin } => bin,
            _ => panic!("resolve should list members"),
        },
        Err(_) => panic!("resolve --bin {bin} should parse"),
    };
    let packages = match packages_for_bins(meta, &bins) {
        Ok(p) => p,
        Err(_) => panic!("resolve --bin {bin} failed"),
    };
    let lines: Vec<String> =
        extract_workspace(meta, &packages).members.into_iter().map(|m| format!("{} {}", m.path, m.name)).collect();
    lines.iter().filter_map(|line| line.split_whitespace().nth(1).map(|n| n.to_string())).collect()
}

#[test]
fn test_resolve_command() {
    let meta = metadata(RESOLVE, &[], true);
    let deps = members_of(&meta, "user");
    assert!(deps.contains(&s("user")), "should include user itself");
    assert!(deps.contains(&s("pkg-a")), "should include pkg-a (direct dep)");
    assert!(deps.contains(&s("pkg-b")), "should include pkg-b (transitive dep)");
    assert!(!deps.contains(&s("order")), "should NOT include order");
    let deps = members_of(&meta, "order");
    assert!(deps.contains(&s("order")), "should include order itself");
    assert!(deps.contains(&s("pkg-a")), "should include pkg-a");
    assert!(deps.contains(&s("pkg-b")), "should include pkg-b");
    assert!(!deps.contains(&s("user")), "should NOT include user");
}

#[test]
fn test_cargo_lock_filtering() {
    let crates = &[
        Crate { name: "user", path: "crates/user", kind: "bin", bins: &["user"], deps: &["serde"] },
        Crate { name: "order", path: "crates/order", kind: "bin", bins: &["order"], deps: &["tokio"] },
    ];
    let meta = metadata(crates, &[("serde", "1.0.228", &[]), ("tokio", "1.48.0", &["pin-project-lite"]), ("pin-project-lite", "0.2.16", &[])], true);
    let original_lock = r#"# This file is automatically @generated by Cargo.
# It is not intended for manual editing.
version = 4

[[package]]
name = "order"
version = "0.1.0"
dependencies = [
 "tokio",
]

[[package]]
name = "pin-project-lite"
version = "0.2.16"
source = "registry+https://github.com/rust-lang/crates.io-index"

[[package]]
name = "serde"
version = "1.0.228"
source = "registry+https://github.com/rust-lang/crates.io-index"

[[package]]
name = "tokio"
version = "1.48.0"
source = "registry+https://github.com/rust-lang/crates.io-index"
dependencies = [
 "pin-project-lite",
]

[[package]]
name = "user"
version = "0.1.0"
dependencies = [
 "serde",
]
"#;
    assert!(original_lock.contains("serde"), "original lockfile should contain serde");
    assert!(original_lock.contains("tokio"), "original lockfile should contain tokio");
    let manifest = "[workspace]\nmembers = [\"crates/user\", \"crates/order\"]\nresolver = \"2\"\n";
    let plan = deps(&meta, &["user"], manifest, Some(original_lock));
    let filtered_lock = String::from_utf8(plan.lockfile.unwrap()).unwrap();
    assert!(filtered_lock.contains("serde"), "filtered lockfile should contain serde (user dependency)");
    assert!(!filtered_lock.contains("tokio"), "filtered lockfile should NOT contain tokio (order-only dependency)");
}

#[test]
fn test_workspace_dependencies_filtering() {
    let crates = &[
        Crate { name: "user", path: "crates/user", kind: "bin", bins: &["user"], deps: &["serde"] },
        Crate { name: "order", path: "crates/order", kind: "bin", bins: &["order"], deps: &["tokio", "log"] },
    ];
    let meta = metadata(crates, &[("serde", "1.0.0", &[]), ("tokio", "1.0.0", &[]), ("log", "0.4.0", &[])], true);
    let manifest = r#"[workspace]
members = ["crates/user", "crates/order"]
resolver = "2"

[workspace.dependencies]
serde = "1"
tokio = "1"
log = "0.4"
"#;
    let plan = deps(&meta, &["user"], manifest, None);
    assert!(plan.manifest.contains("serde"), "workspace.dependencies should contain serde");
    assert!(!plan.manifest.contains("tokio"), "workspace.dependencies should NOT contain tokio");
    assert!(!plan.manifest.contains("log"), "workspace.dependencies should NOT contain log");
}

#[test]
fn test_bin_not_found_error() {
    let meta = metadata(USER_PKG_A, &[("serde", "1.0.0", &[]), ("log", "0.4.0", &[])], true);
    match packages_for_bins(&meta, &vec![s("nonexistent")]) {
        Ok(_) => panic!("should fail when binary not found"),
        Err(WorkspaceError::BinaryNotFound { bin, .. }) => {
            assert!(bin.contains("nonexistent"), "error message should mention the missing binary")
        }
    }
}

#[test]
fn test_multiple_bins() {
    let crates = &[Crate { name: "app", path: "crates/app", kind: "bin", bins: &["server", "cli"], deps: &[] }];
    let meta = metadata(crates, &[], true);
    let manifest = "[workspace]\nmembers = [\"crates/app\"]\nresolver = \"2\"\n";
    let plan = deps(&meta, &["server"], manifest, None);
    assert!(has_file(&plan, "crates/app", "src/bin/server.rs"), "deps --bin server failed");
    let plan = deps(&meta, &["cli"], manifest, None);
    assert!(has_file(&plan, "crates/app", "src/bin/cli.rs"), "deps --bin cli failed");
}
