use workspace_cache::builder::cargo_build_args;
use workspace_cache::dockerfile::{generate, template_context, DockerfileConfig};
use workspace_cache::generator::{cache_dir, generate_member_stub, generate_minimal_workspace};
use workspace_cache::lockfile::{filter_lockfile, join, lines_of};
use workspace_cache::manifest::{rewrite_workspace_manifest, ManifestError};
use workspace_cache::metadata::{
    extract_workspace, Metadata, Package, ResolveNode, ResolvedPackage, Target, WorkspaceMember,
};
use workspace_cache::strings::{sort_strings, string_lt};

fn s(x: &str) -> String {
    x.to_string()
}

fn member(name: &str, path: &str, is_bin: bool, is_lib: bool, bins: &[&str]) -> WorkspaceMember {
    WorkspaceMember { name: s(name), path: s(path), is_bin, is_lib, bins: bins.iter().map(|b| s(b)).collect() }
}

fn files(m: &WorkspaceMember) -> Vec<(String, String)> {
    generate_member_stub(m).files.into_iter().map(|f| (f.path, f.contents)).collect()
}

#[test]
fn binary_member_gets_main_stub() {
    let m = member("user", "crates/user", true, false, &["user"]);
    let stub = generate_member_stub(&m);
    assert_eq!(stub.dirs, vec![s("src")]);
    assert_eq!(files(&m), vec![(s("src/main.rs"), s("fn main() {}\n"))]);
    assert!(stub.files[0].contents.contains("fn main()"));
}

#[test]
fn library_member_gets_lib_stub() {
    let m = member("pkg-a", "crates/pkg-a", false, true, &[]);
    assert_eq!(files(&m), vec![(s("src/lib.rs"), s("// stub\n"))]);
}

#[test]
fn member_with_lib_and_bin_gets_both() {
    let m = member("both", "crates/both", true, true, &["both"]);
    assert_eq!(files(&m), vec![(s("src/lib.rs"), s("// stub\n")), (s("src/main.rs"), s("fn main() {}\n"))]);
}

#[test]
fn member_with_several_bins_gets_one_stub_each() {
    let m = member("app", "crates/app", true, false, &["server", "cli"]);
    let stub = generate_member_stub(&m);
    assert_eq!(stub.dirs, vec![s("src"), s("src/bin")]);
    assert_eq!(
        files(&m),
        vec![(s("src/bin/server.rs"), s("fn main() {}\n")), (s("src/bin/cli.rs"), s("fn main() {}\n"))]
    );
}

#[test]
fn member_without_targets_gets_lib_stub() {
    let m = member("odd", "crates/odd", false, false, &[]);
    assert_eq!(files(&m), vec![(s("src/lib.rs"), s("// stub\n"))]);
}

#[test]
fn cache_dir_defaults() {
    assert_eq!(cache_dir(&None), ".workspace-cache");
    assert_eq!(cache_dir(&Some(s("my-cache"))), "my-cache");
}

#[test]
fn build_args_cover_workspace_bins_and_release() {
    assert_eq!(cargo_build_args(false, &vec![]), vec![s("build"), s("--workspace")]);
    assert_eq!(cargo_build_args(true, &vec![]), vec![s("build"), s("--workspace"), s("--release")]);
    assert_eq!(
        cargo_build_args(true, &vec![s("user"), s("order")]),
        vec![s("build"), s("--bin"), s("user"), s("--bin"), s("order"), s("--release")]
    );
}

#[test]
fn strings_sort_lexicographically() {
    let sorted = sort_strings(vec![s("user"), s("pkg-b"), s("pkg-a"), s("Zed"), s("ä"), s("")]);
    assert_eq!(sorted, vec![s(""), s("Zed"), s("pkg-a"), s("pkg-b"), s("user"), s("ä")]);
    let mut by_std = sorted.clone();
    by_std.sort();
    assert_eq!(sorted, by_std);
    assert!(string_lt(&s("pkg"), &s("pkg-a")));
    assert!(!string_lt(&s("pkg-a"), &s("pkg-a")));
    assert!(!string_lt(&s("b"), &s("a")));
}

const MANIFEST: &str = r#"[workspace]
members = ["crates/user", "crates/order", "crates/pkg-a"]
exclude = ["old"]
resolver = "2"

[workspace.dependencies]
axum = "0.7"
tokio = "1"
serde = "1"
"#;

#[test]
fn manifest_lists_members_and_keeps_used_dependencies() {
    let out = match rewrite_workspace_manifest(
        &s(MANIFEST),
        &vec![s("crates/user"), s("crates/pkg-a")],
        &vec![s("axum"), s("serde"), s("user"), s("pkg-a")],
    ) {
        Ok(out) => out,
        Err(_) => panic!("manifest should rewrite"),
    };
    assert!(out.contains("[workspace]"), "should have workspace section: {out}");
    assert!(out.contains(r#"members = ["crates/user", "crates/pkg-a"]"#), "{out}");
    assert!(!out.contains("crates/order"), "{out}");
    assert!(!out.contains("exclude"), "{out}");
    assert!(out.contains("resolver = \"2\""), "{out}");
    assert!(out.contains("axum = \"0.7\""), "{out}");
    assert!(out.contains("serde = \"1\""), "{out}");
    assert!(!out.contains("tokio"), "{out}");
}

#[test]
fn manifest_with_inline_workspace_keeps_exclude() {
    let text = s("workspace = { members = [\"a\"], exclude = [\"b\"] }\n");
    let out = match rewrite_workspace_manifest(&text, &vec![s("crates/x")], &vec![]) {
        Ok(out) => out,
        Err(_) => panic!("inline workspace should rewrite"),
    };
    assert!(out.contains("crates/x"), "{out}");
    assert!(out.contains("exclude"), "{out}");
}

#[test]
fn manifest_without_workspace_is_written_back() {
    let text = s("[package]\nname = \"solo\"\nversion = \"0.1.0\"\n");
    match rewrite_workspace_manifest(&text, &vec![s("x")], &vec![]) {
        Ok(out) => assert_eq!(out, text),
        Err(_) => panic!("a package manifest parses"),
    }
}

#[test]
fn manifest_errors() {
    assert!(matches!(rewrite_workspace_manifest(&s("[[[ nope"), &vec![], &vec![]), Err(ManifestError::Parse(_))));
    assert!(matches!(
        rewrite_workspace_manifest(&s("workspace = 1\n"), &vec![], &vec![]),
        Err(ManifestError::WorkspaceNotTable)
    ));
}

const LOCK: &str = r#"# This file is automatically @generated by Cargo.
# It is not intended for manual editing.
version = 4

[[package]]
name = "order"
version = "0.1.0"
dependencies = [
 "tokio",
]

[[package]]
name = "serde"
version = "1.0.0"
source = "registry+https://github.com/rust-lang/crates.io-index"

[[package]]
name = "tokio"
version = "1.2.0"
source = "registry+https://github.com/rust-lang/crates.io-index"

[[package]]
name = "user"
version = "0.1.0"
dependencies = [
 "serde",
]
"#;

fn resolved(pairs: &[(&str, &str)]) -> Vec<ResolvedPackage> {
    pairs.iter().map(|(n, v)| ResolvedPackage { name: s(n), version: s(v) }).collect()
}

#[test]
fn lockfile_keeps_only_resolved_packages() {
    let out = filter_lockfile(&LOCK.as_bytes().to_vec(), &resolved(&[("user", "0.1.0"), ("serde", "1.0.0")]));
    let out = String::from_utf8(out).unwrap();
    let expected = r#"# This file is automatically @generated by Cargo.
# It is not intended for manual editing.
version = 4

[[package]]
name = "serde"
version = "1.0.0"
source = "registry+https://github.com/rust-lang/crates.io-index"

[[package]]
name = "user"
version = "0.1.0"
dependencies = [
 "serde",
]
"#;
    assert_eq!(out, expected);
    assert!(out.contains("serde"));
    assert!(!out.contains("tokio"));
}

#[test]
fn lockfile_version_must_match() {
    let out = filter_lockfile(&LOCK.as_bytes().to_vec(), &resolved(&[("serde", "9.9.9")]));
    let out = String::from_utf8(out).unwrap();
    assert!(!out.contains("serde"));
    assert!(out.starts_with("# This file"));
}

#[test]
fn lockfile_with_everything_resolved_is_unchanged() {
    let all = resolved(&[("order", "0.1.0"), ("serde", "1.0.0"), ("tokio", "1.2.0"), ("user", "0.1.0")]);
    assert_eq!(filter_lockfile(&LOCK.as_bytes().to_vec(), &all), LOCK.as_bytes().to_vec());
}

#[test]
fn lines_split_and_join_back() {
    for text in ["", "a", "a\n", "\n\n", "x\ny\n\nz"] {
        let bytes = text.as_bytes().to_vec();
        let lines = lines_of(&bytes);
        assert_eq!(lines.len(), text.matches('\n').count() + 1);
        assert_eq!(join(&lines), bytes);
    }
}

fn small_workspace() -> Metadata {
    let pkg = |id: u64, name: &str, kind: &str, deps: &[&str]| Package {
        id,
        name: s(name),
        version: s("0.1.0"),
        manifest_dir: format!("/ws/crates/{name}"),
        targets: vec![Target { name: s(name), kind: vec![s(kind)] }],
        dependencies: deps.iter().map(|d| s(d)).collect(),
    };
    Metadata {
        packages: vec![pkg(1, "user", "bin", &["pkg-a", "serde"]), pkg(2, "pkg-a", "lib", &["log"])],
        workspace_members: vec![1, 2],
        resolve: Some(vec![ResolveNode { id: 1, dependencies: vec![2] }, ResolveNode { id: 2, dependencies: vec![] }]),
        workspace_root: s("/ws"),
    }
}

#[test]
fn minimal_workspace_plan() {
    let meta = small_workspace();
    let ws = extract_workspace(&meta, &vec![]);
    let manifest = s("[workspace]\nmembers = [\"crates/*\"]\n\n[workspace.dependencies]\nserde = \"1\"\nlog = \"0.4\"\ntokio = \"1\"\n");
    let lock = b"version = 4\n\n[[package]]\nname = \"pkg-a\"\nversion = \"0.1.0\"\n\n[[package]]\nname = \"tokio\"\nversion = \"1.0.0\"\n".to_vec();
    let plan = match generate_minimal_workspace(&meta, &ws, &manifest, Some(lock)) {
        Ok(p) => p,
        Err(_) => panic!("plan should succeed"),
    };
    assert!(plan.manifest.contains(r#"members = ["crates/user", "crates/pkg-a"]"#), "{}", plan.manifest);
    assert!(plan.manifest.contains("serde") && plan.manifest.contains("log"));
    assert!(!plan.manifest.contains("tokio"));
    let lock = String::from_utf8(plan.lockfile.unwrap()).unwrap();
    assert_eq!(lock, "version = 4\n\n[[package]]\nname = \"pkg-a\"\nversion = \"0.1.0\"\n");
    assert_eq!(plan.members.len(), 2);
    assert_eq!(plan.members[0].path, "crates/user");
    assert_eq!(plan.members[0].stub.files[0].path, "src/main.rs");
    assert_eq!(plan.members[1].stub.files[0].path, "src/lib.rs");
}

#[test]
fn fast_plan_copies_lockfile() {
    let mut meta = small_workspace();
    meta.resolve = None;
    let ws = extract_workspace(&meta, &vec![]);
    let lock = b"[[package]]\nname = \"tokio\"\nversion = \"1.0.0\"\n".to_vec();
    let plan = match generate_minimal_workspace(&meta, &ws, &s("[workspace]\n"), Some(lock.clone())) {
        Ok(p) => p,
        Err(_) => panic!("plan should succeed"),
    };
    assert_eq!(plan.lockfile, Some(lock));
    let plan = match generate_minimal_workspace(&meta, &ws, &s("[workspace]\n"), None) {
        Ok(p) => p,
        Err(_) => panic!("plan should succeed"),
    };
    assert_eq!(plan.lockfile, None);
}

fn config(profile: &str, from_git: bool, fast: bool, tool_version: Option<&str>) -> DockerfileConfig {
    DockerfileConfig {
        bin: s("user"),
        profile: s(profile),
        base_image: s("rust:1.94-bookworm"),
        runtime_image: s("debian:bookworm-slim"),
        members: vec![
            member("pkg-a", "crates/pkg-a", false, true, &[]),
            member("user", "crates/user", true, false, &["user"]),
        ],
        fast,
        from_git,
        tool_version: tool_version.map(s),
    }
}

fn render(c: &DockerfileConfig) -> String {
    match generate(c) {
        Ok(t) => t,
        Err(_) => panic!("template renders"),
    }
}

#[test]
fn dockerfile_release() {
    let text = render(&config("release", false, false, Some("0.1.0")));
    let expected = r#"# Stage 1: Install workspace-cache tool
FROM rust:1.94-bookworm AS base
WORKDIR /app
RUN cargo install workspace-cache@0.1.0

# Stage 2: Generate minimal workspace with stub sources for dependency resolution
FROM base AS planner
COPY . .
RUN workspace-cache deps --bin user

# Stage 3: Build dependencies only (cached until Cargo.toml/Cargo.lock change)
FROM base AS deps
COPY --from=planner /app/.workspace-cache .
RUN cargo build --release

# Stage 4: Build the actual binary with real source code
FROM deps AS builder
RUN rm -rf crates/pkg-a/src crates/user/src
COPY crates/pkg-a crates/pkg-a
COPY crates/user crates/user
# Clean workspace crates to force rebuild with real sources. Docker COPY
# preserves original file mtimes, which confuses cargo's fingerprinting.
# This only removes workspace crate artifacts - dependencies stay cached.
RUN cargo clean --release -p pkg-a -p user
RUN cargo build --release --bin user

# Stage 5: Minimal runtime image
FROM debian:bookworm-slim AS runtime
COPY --from=builder /app/target/release/user /usr/local/bin/user
ENTRYPOINT ["/usr/local/bin/user"]"#;
    assert_eq!(text, expected);
}

#[test]
fn dockerfile_debug_fast_from_git() {
    let text = render(&config("debug", true, true, None));
    assert!(text.contains("RUN cargo install --git https://github.com/preiter93/workspace-cache workspace-cache\n"));
    assert!(text.contains("RUN workspace-cache deps --bin user --fast\n"));
    assert!(text.contains("RUN cargo build\n"));
    assert!(text.contains("RUN cargo clean -p pkg-a -p user\n"));
    assert!(text.contains("RUN cargo build --bin user\n"));
    assert!(text.contains("/app/target/debug/user"));
    assert!(!text.contains("--release"));
}

#[test]
fn dockerfile_default_tool_version() {
    let text = render(&config("release", false, false, None));
    assert!(text.contains("RUN cargo install workspace-cache@0.1.0\n"));
}

#[test]
fn dockerfile_context_profile_dir() {
    let ctx = template_context(&config("custom", false, false, None));
    assert!(ctx.strings.contains(&(s("profile_dir"), s("debug"))));
    assert!(ctx.flags.contains(&(s("release"), false)));
    let ctx = template_context(&config("release", false, false, None));
    assert!(ctx.strings.contains(&(s("profile_dir"), s("release"))));
    assert!(ctx.flags.contains(&(s("release"), true)));
    assert_eq!(ctx.lists[0].1.len(), 2);
}

#[test]
fn manifest_with_dotted_workspace_headers_prunes_dependencies() {
    let text = s("[workspace.dependencies.serde]\nversion = \"1\"\n");
    let out = match rewrite_workspace_manifest(&text, &vec![s("crates/x")], &vec![]) {
        Ok(out) => out,
        Err(_) => panic!("dotted workspace headers should rewrite"),
    };
    assert!(out.contains(r#"members = ["crates/x"]"#), "{out}");
    assert!(!out.contains("serde"), "{out}");
}
