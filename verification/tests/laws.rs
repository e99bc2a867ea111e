use workspace_cache::generator::generate_member_stub;
use workspace_cache::lockfile::{join, lines_of};
use workspace_cache::metadata::{
    extract_workspace, get_all_bins, packages_for_bins, resolve_bins_to_packages, resolve_workspace_deps,
    Metadata, Package, ResolveNode, Target, WorkspaceMember,
};

fn s(x: &str) -> String {
    x.to_string()
}

fn meta() -> Metadata {
    let pkg = |id: u64, name: &str, bins: &[&str], deps: &[&str]| Package {
        id,
        name: s(name),
        version: format!("0.{id}.0"),
        manifest_dir: format!("/w/{name}"),
        targets: if bins.is_empty() {
            vec![Target { name: s(name), kind: vec![s("lib")] }]
        } else {
            bins.iter().map(|b| Target { name: s(b), kind: vec![s("bin")] }).collect()
        },
        dependencies: deps.iter().map(|d| s(d)).collect(),
    };
    Metadata {
        packages: vec![
            pkg(1, "a", &["a1", "a2"], &["b", "ext"]),
            pkg(2, "b", &[], &["c"]),
            pkg(3, "c", &[], &["b"]),
            pkg(4, "d", &["d"], &["c"]),
            pkg(9, "ext", &[], &[]),
        ],
        workspace_members: vec![1, 2, 3, 4],
        resolve: Some(vec![
            ResolveNode { id: 1, dependencies: vec![2, 9] },
            ResolveNode { id: 2, dependencies: vec![3] },
            ResolveNode { id: 3, dependencies: vec![2] },
            ResolveNode { id: 4, dependencies: vec![3] },
            ResolveNode { id: 9, dependencies: vec![] },
        ]),
        workspace_root: s("/w"),
    }
}

#[test]
fn law_closure_is_idempotent_on_a_cycle() {
    let m = meta();
    let once = resolve_workspace_deps(&m, &vec![s("a")]);
    assert_eq!(once, vec![s("a"), s("b"), s("c")]);
    assert_eq!(resolve_workspace_deps(&m, &once), once);
}

#[test]
fn law_closure_is_monotone() {
    let m = meta();
    let small = resolve_workspace_deps(&m, &vec![s("d")]);
    let big = resolve_workspace_deps(&m, &vec![s("d"), s("a")]);
    assert!(small.iter().all(|x| big.contains(x)));
    assert_eq!(big, vec![s("a"), s("b"), s("c"), s("d")]);
}

#[test]
fn law_found_bins_are_the_available_ones() {
    let m = meta();
    let available = get_all_bins(&m);
    assert_eq!(available, vec![s("a1"), s("a2"), s("d")]);
    for bin in ["a1", "a2", "d", "b", "ext", "zzz"] {
        let found = !resolve_bins_to_packages(&m, &vec![s(bin)]).is_empty();
        assert_eq!(found, available.contains(&s(bin)), "{bin}");
        assert_eq!(packages_for_bins(&m, &vec![s(bin)]).is_ok(), found, "{bin}");
    }
}

#[test]
fn law_selected_members_are_the_requested_ones() {
    let m = meta();
    let wanted = vec![s("c"), s("zzz"), s("a"), s("ext")];
    let ws = extract_workspace(&m, &wanted);
    let names: Vec<String> = ws.members.iter().map(|x| x.name.clone()).collect();
    assert_eq!(names, vec![s("a"), s("c")]);
}

#[test]
fn law_used_dependencies_are_not_members() {
    let m = meta();
    let ws = extract_workspace(&m, &vec![]);
    assert_eq!(ws.used_dependencies, vec![s("ext")]);
}

#[test]
fn law_selected_packages_are_resolved() {
    let m = meta();
    let ws = extract_workspace(&m, &vec![s("d")]);
    let mut got: Vec<(String, String)> =
        ws.resolved_packages.iter().map(|p| (p.name.clone(), p.version.clone())).collect();
    got.sort();
    assert_eq!(got, vec![(s("b"), s("0.2.0")), (s("c"), s("0.3.0")), (s("d"), s("0.4.0"))]);
}

#[test]
fn law_every_stub_has_a_source() {
    for (is_bin, is_lib, bins) in [(false, false, vec![]), (true, false, vec![s("x")]), (true, true, vec![s("x"), s("y")]), (true, false, vec![])] {
        let m = WorkspaceMember { name: s("m"), path: s("m"), is_bin, is_lib, bins };
        assert!(!generate_member_stub(&m).files.is_empty());
    }
}

#[test]
fn law_join_of_split_is_identity() {
    let text = b"a\r\n\nb = \"\xc3\xa4\"\n".to_vec();
    assert_eq!(join(&lines_of(&text)), text);
}

#[test]
fn law_extraction_is_monotone_in_the_filter() {
    let m = meta();
    let small = extract_workspace(&m, &vec![s("d"), s("a")]);
    let big = extract_workspace(&m, &vec![s("b"), s("a"), s("d")]);
    let small_names: Vec<String> = small.members.iter().map(|x| x.name.clone()).collect();
    let big_names: Vec<String> = big.members.iter().map(|x| x.name.clone()).collect();
    assert_eq!(small_names, vec![s("a"), s("d")]);
    assert_eq!(big_names, vec![s("a"), s("b"), s("d")]);
    let filtered: Vec<String> = big_names.iter().filter(|n| *n == "a" || *n == "d").cloned().collect();
    assert_eq!(small_names, filtered);
    assert!(small.used_dependencies.iter().all(|d| big.used_dependencies.contains(d)));
    assert!(small
        .resolved_packages
        .iter()
        .all(|r| big.resolved_packages.iter().any(|q| q.name == r.name && q.version == r.version)));
}

fn lookup(m: &Metadata, bins: &[&str]) -> Vec<(String, String)> {
    let mut v: Vec<(String, String)> =
        resolve_bins_to_packages(m, &bins.iter().map(|b| s(b)).collect()).into_iter().map(|e| (e.bin, e.package)).collect();
    v.sort();
    v
}

#[test]
fn law_bin_lookup_is_the_union_of_single_lookups() {
    let m = meta();
    let together = lookup(&m, &["d", "a2", "nope", "a1"]);
    let mut apart: Vec<(String, String)> =
        ["d", "a2", "nope", "a1"].iter().flat_map(|b| lookup(&m, &[b])).collect();
    apart.sort();
    assert_eq!(together, apart);
    assert_eq!(together, vec![(s("a1"), s("a")), (s("a2"), s("a")), (s("d"), s("d"))]);
}

#[test]
fn law_single_bin_lookup_matches_available_bins() {
    let m = meta();
    let all = get_all_bins(&m);
    for b in ["a1", "a2", "d", "b", "ext", "nope"] {
        let found = lookup(&m, &[b]);
        assert_eq!(!found.is_empty(), all.contains(&s(b)), "{b}");
        assert!(found.iter().all(|(x, _)| x == b));
    }
}
