use vstd::prelude::*;

use crate::graph::{
    first_index, lemma_closed_holds_reachable, lemma_first_index, lemma_first_index_at,
    lemma_start_reachable, lemma_step_reachable, reachable,
};
use crate::paths::{relative_dir, relative_to};
use crate::strings::{
    clone_strings, contains_string, contains_u64, distinct, sort_strings, str_equal, strictly_sorted, views,
};

verus! {

/// A build target of a package: its name and its kinds (`bin`, `lib`, ...).
pub struct Target {
    pub name: String,
    pub kind: Vec<String>,
}

/// A package as the workspace metadata describes it. `id` stands for the
/// package id; equal ids denote the same package.
pub struct Package {
    pub id: u64,
    pub name: String,
    pub version: String,
    /// Directory that holds the package's manifest.
    pub manifest_dir: String,
    pub targets: Vec<Target>,
    /// Names of the package's declared dependencies.
    pub dependencies: Vec<String>,
}

/// A node of the resolved dependency graph.
pub struct ResolveNode {
    pub id: u64,
    pub dependencies: Vec<u64>,
}

/// The workspace metadata the planner works on.
pub struct Metadata {
    pub packages: Vec<Package>,
    pub workspace_members: Vec<u64>,
    /// The resolved dependency graph, absent when resolution was skipped.
    pub resolve: Option<Vec<ResolveNode>>,
    pub workspace_root: String,
}

/// A workspace member as the stub workspace needs it.
pub struct WorkspaceMember {
    pub name: String,
    /// Directory of the member, relative to the workspace root where possible.
    pub path: String,
    pub is_bin: bool,
    pub is_lib: bool,
    /// Names of the member's binary targets, in target order.
    pub bins: Vec<String>,
}

/// A binary target and the workspace member that provides it.
pub struct BinPackage {
    pub bin: String,
    pub package: String,
}

/// Why the planner refused a request.
pub enum WorkspaceError {
    /// A requested binary is provided by no workspace member; `available`
    /// lists the binaries that are.
    BinaryNotFound { bin: String, available: Vec<String> },
}

/// A package of the resolved graph, by name and version.
pub struct ResolvedPackage {
    pub name: String,
    pub version: String,
}

/// What the planner keeps of a workspace: the selected members, the outside
/// dependencies they declare, and every package they pull in.
pub struct ExtractedWorkspace {
    pub members: Vec<WorkspaceMember>,
    /// Distinct names of dependencies that are not workspace members.
    pub used_dependencies: Vec<String>,
    /// Distinct packages reachable in the resolved graph.
    pub resolved_packages: Vec<ResolvedPackage>,
}

/// The abstract content of a `WorkspaceMember`.
pub struct MemberView {
    pub name: Seq<char>,
    pub path: Seq<char>,
    pub is_bin: bool,
    pub is_lib: bool,
    pub bins: Seq<Seq<char>>,
}

impl View for WorkspaceMember {
    type V = MemberView;

    open spec fn view(&self) -> MemberView {
        MemberView {
            name: self.name@,
            path: self.path@,
            is_bin: self.is_bin,
            is_lib: self.is_lib,
            bins: views(self.bins@),
        }
    }
}

impl View for ResolvedPackage {
    type V = (Seq<char>, Seq<char>);

    open spec fn view(&self) -> (Seq<char>, Seq<char>) {
        (self.name@, self.version@)
    }
}

// ---------------------------------------------------------------------------
// Targets

/// Kinds that make a target a library.
pub open spec fn is_lib_kind(k: Seq<char>) -> bool {
    ||| k == "lib"@
    ||| k == "rlib"@
    ||| k == "dylib"@
    ||| k == "staticlib"@
    ||| k == "cdylib"@
    ||| k == "proc-macro"@
}

pub open spec fn spec_is_lib_target(t: Target) -> bool {
    exists|i: int| 0 <= i < t.kind.len() && is_lib_kind(#[trigger] t.kind@[i]@)
}

pub open spec fn spec_is_bin_target(t: Target) -> bool {
    exists|i: int| 0 <= i < t.kind.len() && #[trigger] t.kind@[i]@ == "bin"@
}

/// Whether the target is a library of some kind.
pub fn is_lib_target(target: &Target) -> (lib: bool)
    ensures
        lib == spec_is_lib_target(*target),
{
    let mut i: usize = 0;
    while i < target.kind.len()
        invariant
            i <= target.kind.len(),
            forall|j: int| 0 <= j < i ==> !is_lib_kind(#[trigger] target.kind@[j]@),
        decreases target.kind.len() - i,
    {
        let k = target.kind[i].as_str();
        if str_equal(k, "lib") || str_equal(k, "rlib") || str_equal(k, "dylib") || str_equal(
            k,
            "staticlib",
        ) || str_equal(k, "cdylib") || str_equal(k, "proc-macro") {
            return true;
        }
        i += 1;
    }
    false
}

/// Whether the target is a binary.
pub fn is_bin_target(target: &Target) -> (bin: bool)
    ensures
        bin == spec_is_bin_target(*target),
{
    let mut i: usize = 0;
    while i < target.kind.len()
        invariant
            i <= target.kind.len(),
            forall|j: int| 0 <= j < i ==> #[trigger] target.kind@[j]@ != "bin"@,
        decreases target.kind.len() - i,
    {
        if str_equal(target.kind[i].as_str(), "bin") {
            return true;
        }
        i += 1;
    }
    false
}

/// Names of the binary targets among `targets`, in order.
pub open spec fn bin_names(targets: Seq<Target>) -> Seq<Seq<char>>
    decreases targets.len(),
{
    if targets.len() == 0 {
        seq![]
    } else {
        let rest = bin_names(targets.drop_last());
        if spec_is_bin_target(targets.last()) {
            rest.push(targets.last().name@)
        } else {
            rest
        }
    }
}

pub open spec fn has_lib_target(targets: Seq<Target>) -> bool {
    exists|i: int| 0 <= i < targets.len() && spec_is_lib_target(#[trigger] targets[i])
}

pub open spec fn has_bin_target(targets: Seq<Target>) -> bool {
    exists|i: int| 0 <= i < targets.len() && spec_is_bin_target(#[trigger] targets[i])
}

/// The member a package becomes, its directory taken relative to `root`.
pub open spec fn member_model(pkg: Package, root: Seq<char>) -> MemberView {
    MemberView {
        name: pkg.name@,
        path: relative_dir(pkg.manifest_dir@, root),
        is_bin: has_bin_target(pkg.targets@),
        is_lib: has_lib_target(pkg.targets@),
        bins: bin_names(pkg.targets@),
    }
}

/// Describes a package as a workspace member.
pub fn extract_member_info(pkg: &Package, workspace_root: &String) -> (member: WorkspaceMember)
    ensures
        member@ == member_model(*pkg, workspace_root@),
{
    let path = relative_to(&pkg.manifest_dir, workspace_root);
    let mut is_lib = false;
    let mut is_bin = false;
    let mut bins: Vec<String> = Vec::new();
    let mut i: usize = 0;
    while i < pkg.targets.len()
        invariant
            i <= pkg.targets.len(),
            is_lib == has_lib_target(pkg.targets@.take(i as int)),
            is_bin == has_bin_target(pkg.targets@.take(i as int)),
            views(bins@) == bin_names(pkg.targets@.take(i as int)),
        decreases pkg.targets.len() - i,
    {
        let t = &pkg.targets[i];
        let ghost prefix = pkg.targets@.take(i as int);
        let ghost next = pkg.targets@.take(i + 1);
        assert(next.drop_last() =~= prefix);
        assert(next.last() == *t);
        let lib_here = is_lib_target(t);
        let bin_here = is_bin_target(t);
        proof {
            assert(next[i as int] == *t);
            assert forall|j: int| 0 <= j < i implies next[j] == prefix[j] by {}
            if has_lib_target(prefix) {
                let j = choose|j: int| 0 <= j < prefix.len() && spec_is_lib_target(#[trigger] prefix[j]);
                assert(next[j] == prefix[j]);
            }
            if has_bin_target(prefix) {
                let j = choose|j: int| 0 <= j < prefix.len() && spec_is_bin_target(#[trigger] prefix[j]);
                assert(next[j] == prefix[j]);
            }
            if !is_lib && !lib_here {
                assert forall|j: int| 0 <= j < next.len() implies !spec_is_lib_target(#[trigger] next[j]) by {
                    if j < i {
                        assert(next[j] == prefix[j]);
                    }
                }
            }
            if !is_bin && !bin_here {
                assert forall|j: int| 0 <= j < next.len() implies !spec_is_bin_target(#[trigger] next[j]) by {
                    if j < i {
                        assert(next[j] == prefix[j]);
                    }
                }
            }
        }
        if lib_here {
            is_lib = true;
        }
        if bin_here {
            is_bin = true;
            bins.push(t.name.clone());
        }
        proof {
            assert(views(bins@) =~= bin_names(next));
        }
        i += 1;
    }
    assert(pkg.targets@.take(pkg.targets.len() as int) =~= pkg.targets@);
    WorkspaceMember { name: pkg.name.clone(), path, is_bin, is_lib, bins }
}


// ---------------------------------------------------------------------------
// Workspace members

pub open spec fn has_id(id: u64) -> spec_fn(Package) -> bool {
    |p: Package| p.id == id
}

/// Position of the first package with the given id.
pub open spec fn package_index(meta: Metadata, id: u64) -> Option<int> {
    first_index(meta.packages@, has_id(id))
}

/// Positions of the packages that the member ids `ids` name, in order;
/// an id with no package is passed over.
pub open spec fn member_indices_of(meta: Metadata, ids: Seq<u64>) -> Seq<int>
    decreases ids.len(),
{
    if ids.len() == 0 {
        seq![]
    } else {
        let rest = member_indices_of(meta, ids.drop_last());
        match package_index(meta, ids.last()) {
            Some(i) => rest.push(i),
            None => rest,
        }
    }
}

/// Positions of the workspace member packages, in member order.
pub open spec fn member_indices(meta: Metadata) -> Seq<int> {
    member_indices_of(meta, meta.workspace_members@)
}

/// Names of the workspace member packages.
pub open spec fn member_names(meta: Metadata) -> Set<Seq<char>> {
    names_of(meta, member_indices(meta)).to_set()
}

/// Names of the packages at positions `idx`.
pub open spec fn names_of(meta: Metadata, idx: Seq<int>) -> Seq<Seq<char>> {
    idx.map_values(|i: int| meta.packages@[i].name@)
}

pub open spec fn as_ints(v: Seq<usize>) -> Seq<int> {
    v.map_values(|i: usize| i as int)
}

/// Finds the first package with the given id.
pub fn find_package(meta: &Metadata, id: u64) -> (found: Option<usize>)
    ensures
        match found {
            Some(i) => package_index(*meta, id) == Some(i as int),
            None => package_index(*meta, id) is None,
        },
{
    let mut i: usize = 0;
    while i < meta.packages.len()
        invariant
            i <= meta.packages.len(),
            forall|j: int| 0 <= j < i ==> !has_id(id)(#[trigger] meta.packages@[j]),
        decreases meta.packages.len() - i,
    {
        if meta.packages[i].id == id {
            proof {
                lemma_first_index_at(meta.packages@, has_id(id), i as int);
            }
            return Some(i);
        }
        i += 1;
    }
    proof {
        lemma_first_index(meta.packages@, has_id(id));
    }
    None
}

/// Positions of the workspace member packages, in member order.
pub fn workspace_member_indices(meta: &Metadata) -> (indices: Vec<usize>)
    ensures
        as_ints(indices@) == member_indices(*meta),
        forall|k: int| 0 <= k < indices.len() ==> #[trigger] indices@[k] < meta.packages.len(),
{
    let mut indices: Vec<usize> = Vec::new();
    let mut k: usize = 0;
    while k < meta.workspace_members.len()
        invariant
            k <= meta.workspace_members.len(),
            as_ints(indices@) == member_indices_of(*meta, meta.workspace_members@.take(k as int)),
            forall|j: int| 0 <= j < indices.len() ==> #[trigger] indices@[j] < meta.packages.len(),
        decreases meta.workspace_members.len() - k,
    {
        let ghost prefix = meta.workspace_members@.take(k as int);
        let ghost next = meta.workspace_members@.take(k + 1);
        assert(next.drop_last() =~= prefix);
        match find_package(meta, meta.workspace_members[k]) {
            Some(i) => {
                proof {
                    lemma_first_index(meta.packages@, has_id(meta.workspace_members@[k as int]));
                }
                indices.push(i);
                assert(as_ints(indices@) =~= member_indices_of(*meta, next));
            },
            None => {},
        }
        k += 1;
    }
    assert(meta.workspace_members@.take(meta.workspace_members.len() as int) =~= meta.workspace_members@);
    indices
}

/// Names of the packages at `indices`.
pub fn names_at(meta: &Metadata, indices: &Vec<usize>) -> (names: Vec<String>)
    requires
        forall|k: int| 0 <= k < indices.len() ==> #[trigger] indices@[k] < meta.packages.len(),
    ensures
        views(names@) == names_of(*meta, as_ints(indices@)),
{
    let mut names: Vec<String> = Vec::new();
    let mut k: usize = 0;
    while k < indices.len()
        invariant
            k <= indices.len(),
            forall|j: int| 0 <= j < indices.len() ==> #[trigger] indices@[j] < meta.packages.len(),
            views(names@) == names_of(*meta, as_ints(indices@.take(k as int))),
        decreases indices.len() - k,
    {
        let ghost old_names = names@;
        let name = meta.packages[indices[k]].name.clone();
        names.push(name);
        proof {
            let target = names_of(*meta, as_ints(indices@.take(k + 1)));
            let before = names_of(*meta, as_ints(indices@.take(k as int)));
            assert(indices@.take(k + 1) =~= indices@.take(k as int).push(indices@[k as int]));
            assert(target =~= before.push(name@));
            assert(views(names@) =~= views(old_names).push(name@));
        }
        k += 1;
    }
    assert(indices@.take(indices.len() as int) =~= indices@);
    names
}


// ---------------------------------------------------------------------------
// The resolved dependency graph

pub open spec fn node_has_id(id: u64) -> spec_fn(ResolveNode) -> bool {
    |n: ResolveNode| n.id == id
}

/// Edges of the resolved graph: the dependencies of the first node with an
/// id; an id without a node has none.
pub open spec fn resolve_edges(nodes: Seq<ResolveNode>) -> spec_fn(u64) -> Set<u64> {
    |id: u64|
        match first_index(nodes, node_has_id(id)) {
            Some(k) => nodes[k].dependencies@.to_set(),
            None => Set::empty(),
        }
}

/// Every dependency id that some node lists.
pub open spec fn all_dependency_ids(nodes: Seq<ResolveNode>) -> Seq<u64>
    decreases nodes.len(),
{
    if nodes.len() == 0 {
        seq![]
    } else {
        all_dependency_ids(nodes.drop_last()) + nodes.last().dependencies@
    }
}

proof fn lemma_dependency_listed(nodes: Seq<ResolveNode>, k: int, j: int)
    requires
        0 <= k < nodes.len(),
        0 <= j < nodes[k].dependencies.len(),
    ensures
        all_dependency_ids(nodes).contains(nodes[k].dependencies@[j]),
    decreases nodes.len(),
{
    let rest = all_dependency_ids(nodes.drop_last());
    let last = nodes.last().dependencies@;
    if k == nodes.len() - 1 {
        assert((rest + last)[rest.len() + j] == last[j]);
    } else {
        lemma_dependency_listed(nodes.drop_last(), k, j);
        let t = choose|t: int| 0 <= t < rest.len() && rest[t] == nodes[k].dependencies@[j];
        assert((rest + last)[t] == rest[t]);
    }
}

/// Finds the first node of the resolved graph with the given id.
fn find_node(nodes: &Vec<ResolveNode>, id: u64) -> (found: Option<usize>)
    ensures
        match found {
            Some(k) => first_index(nodes@, node_has_id(id)) == Some(k as int),
            None => first_index(nodes@, node_has_id(id)) is None,
        },
{
    let mut k: usize = 0;
    while k < nodes.len()
        invariant
            k <= nodes.len(),
            forall|j: int| 0 <= j < k ==> !node_has_id(id)(#[trigger] nodes@[j]),
        decreases nodes.len() - k,
    {
        if nodes[k].id == id {
            proof {
                lemma_first_index_at(nodes@, node_has_id(id), k as int);
            }
            return Some(k);
        }
        k += 1;
    }
    proof {
        lemma_first_index(nodes@, node_has_id(id));
    }
    None
}

/// Every id reachable in the resolved graph from the `start` ids, each once.
pub fn reachable_ids(nodes: &Vec<ResolveNode>, start: Vec<u64>) -> (visited: Vec<u64>)
    ensures
        visited@.no_duplicates(),
        visited@.to_set() == reachable(resolve_edges(nodes@), start@.to_set()),
{
    let ghost edges = resolve_edges(nodes@);
    let ghost roots = start@.to_set();
    let ghost all = reachable(edges, roots);
    let ghost universe = (start@ + all_dependency_ids(nodes@)).to_set();
    proof {
        broadcast use vstd::seq_lib::seq_to_set_is_finite;
        assert forall|x: u64| #[trigger] roots.contains(x) implies universe.contains(x) && all.contains(x) by {
            let t = choose|t: int| 0 <= t < start@.len() && start@[t] == x;
            assert((start@ + all_dependency_ids(nodes@))[t] == x);
            lemma_start_reachable(edges, roots, x);
        }
    }
    proof {
        let combined = start@ + all_dependency_ids(nodes@);
        assert forall|x: u64| #[trigger] all_dependency_ids(nodes@).contains(x) implies universe.contains(x) by {
            let t = choose|t: int| 0 <= t < all_dependency_ids(nodes@).len() && all_dependency_ids(nodes@)[t] == x;
            assert(combined[start@.len() + t] == x);
        }
        assert forall|x: u64| #[trigger] start@.contains(x) implies roots.contains(x) by {}
    }
    let mut stack = start;
    let mut visited: Vec<u64> = Vec::new();
    while stack.len() > 0
        invariant
            edges == resolve_edges(nodes@),
            all == reachable(edges, roots),
            universe.finite(),
            visited@.no_duplicates(),
            forall|x: u64| #[trigger] visited@.contains(x) ==> universe.contains(x) && all.contains(x),
            forall|x: u64| #[trigger] stack@.contains(x) ==> universe.contains(x) && all.contains(x),
            forall|x: u64| #[trigger] roots.contains(x) ==> universe.contains(x) && all.contains(x)
                && (visited@.contains(x) || stack@.contains(x)),
            forall|v: u64, y: u64|
                visited@.contains(v) && #[trigger] edges(v).contains(y) ==> visited@.contains(y)
                    || stack@.contains(y),
            forall|x: u64| #[trigger] all_dependency_ids(nodes@).contains(x) ==> universe.contains(x),
        decreases universe.len() - visited.len(), stack.len(),
    {
        proof {
            visited@.unique_seq_to_set();
            vstd::set_lib::lemma_len_subset(visited@.to_set(), universe);
        }
        let ghost stack_before = stack@;
        let id = stack.pop().unwrap();
        assert(stack_before == stack@.push(id));
        assert forall|x: u64| #[trigger] stack_before.contains(x) implies x == id || stack@.contains(x) by {
            let t = choose|t: int| 0 <= t < stack_before.len() && stack_before[t] == x;
            if t < stack@.len() {
                assert(stack@[t] == x);
            }
        }
        assert(stack_before.contains(id)) by {
            assert(stack_before[stack_before.len() - 1] == id);
        }
        if contains_u64(&visited, id) {
            assert forall|x: u64| #[trigger] stack@.contains(x) implies stack_before.contains(x) by {
                let t = choose|t: int| 0 <= t < stack@.len() && stack@[t] == x;
                assert(stack_before[t] == x);
            }
            continue;
        }
        let ghost visited_before = visited@;
        visited.push(id);
        assert forall|x: u64| #[trigger] visited@.contains(x) <==> visited_before.contains(x) || x == id by {
            if visited@.contains(x) {
                let t = choose|t: int| 0 <= t < visited@.len() && visited@[t] == x;
                if t < visited_before.len() {
                    assert(visited_before[t] == x);
                }
            }
            if visited_before.contains(x) {
                let t = choose|t: int| 0 <= t < visited_before.len() && visited_before[t] == x;
                assert(visited@[t] == x);
            }
            if x == id {
                assert(visited@[visited_before.len() as int] == x);
            }
        }
        let ghost stack_mid = stack@;
        assert forall|x: u64| #[trigger] stack_mid.contains(x) implies stack_before.contains(x) by {
            let t = choose|t: int| 0 <= t < stack_mid.len() && stack_mid[t] == x;
            assert(stack_before[t] == x);
        }
        let node = find_node(nodes, id);
        proof {
            lemma_first_index(nodes@, node_has_id(id));
        }
        match node {
            Some(k) => {
                let deps = &nodes[k].dependencies;
                assert(edges(id) == deps@.to_set());
                let mut j: usize = 0;
                while j < deps.len()
                    invariant
                        j <= deps.len(),
                        k < nodes.len(),
                        deps == &nodes@[k as int].dependencies,
                        edges(id) == deps@.to_set(),
                        all.contains(id),
                        edges == resolve_edges(nodes@),
                        all == reachable(edges, roots),
                        forall|x: u64| #[trigger] all_dependency_ids(nodes@).contains(x) ==> universe.contains(x),
                        forall|x: u64| #[trigger] stack_mid.contains(x) ==> stack@.contains(x),
                        forall|x: u64| #[trigger] stack@.contains(x) ==> stack_mid.contains(x) || edges(id).contains(x),
                        forall|t: int| 0 <= t < j ==> visited@.contains(#[trigger] deps@[t]) || stack@.contains(deps@[t]),
                    decreases deps.len() - j,
                {
                    let d = deps[j];
                    let ghost stack_prev = stack@;
                    if !contains_u64(&visited, d) {
                        stack.push(d);
                        assert forall|x: u64| #[trigger] stack@.contains(x) <==> stack_prev.contains(x) || x == d by {
                            if stack@.contains(x) {
                                let t = choose|t: int| 0 <= t < stack@.len() && stack@[t] == x;
                                if t < stack_prev.len() {
                                    assert(stack_prev[t] == x);
                                }
                            }
                            if stack_prev.contains(x) {
                                let t = choose|t: int| 0 <= t < stack_prev.len() && stack_prev[t] == x;
                                assert(stack@[t] == x);
                            }
                            if x == d {
                                assert(stack@[stack_prev.len() as int] == x);
                            }
                        }
                    }
                    assert(deps@.to_set().contains(d)) by {
                        assert(deps@[j as int] == d);
                    }
                    j += 1;
                }
                proof {
                    assert forall|x: u64| #[trigger] edges(id).contains(x) implies universe.contains(x)
                        && all.contains(x) && (visited@.contains(x) || stack@.contains(x)) by {
                        let t = choose|t: int| 0 <= t < deps@.len() && deps@[t] == x;
                        lemma_dependency_listed(nodes@, k as int, t);
                        lemma_step_reachable(edges, roots, id, x);
                    }
                }
            },
            None => {
                assert(edges(id) =~= Set::<u64>::empty());
            },
        }
        proof {
            assert forall|x: u64| #[trigger] stack@.contains(x) implies universe.contains(x) && all.contains(x) by {
                if stack_mid.contains(x) {
                    assert(stack_before.contains(x));
                }
            }
            assert forall|v: u64, y: u64|
                visited@.contains(v) && #[trigger] edges(v).contains(y) implies visited@.contains(y)
                    || stack@.contains(y) by {
                if v != id {
                    assert(visited_before.contains(v));
                    if stack_before.contains(y) && y != id {
                        assert(stack_mid.contains(y));
                    }
                }
            }
            assert forall|x: u64| #[trigger] roots.contains(x) implies visited@.contains(x) || stack@.contains(x) by {
                if stack_before.contains(x) && x != id {
                    assert(stack_mid.contains(x));
                }
            }
            assert(visited@.to_set().subset_of(universe));
            vstd::set_lib::lemma_len_subset(visited@.to_set(), universe);
            visited@.unique_seq_to_set();
        }
    }
    proof {
        let found = visited@.to_set();
        assert forall|x: u64| #[trigger] found.contains(x) implies edges(x).subset_of(found) by {
            assert(visited@.contains(x));
        }
        lemma_closed_holds_reachable(edges, roots, found);
        assert(found =~= all);
    }
    visited
}


// ---------------------------------------------------------------------------
// Workspace dependencies between members

pub open spec fn has_name(n: Seq<char>) -> spec_fn(Package) -> bool {
    |p: Package| p.name@ == n
}

/// The workspace member packages, in member order.
pub open spec fn member_packages(meta: Metadata) -> Seq<Package> {
    member_indices(meta).map_values(|i: int| meta.packages@[i])
}

/// Position among the members of the first member with the given name.
pub open spec fn member_named(meta: Metadata, n: Seq<char>) -> Option<int> {
    first_index(member_packages(meta), has_name(n))
}

/// Edges between members: from a member name to the names of the
/// dependencies of the first member so named that are themselves members.
pub open spec fn member_edges(meta: Metadata) -> spec_fn(Seq<char>) -> Set<Seq<char>> {
    |n: Seq<char>|
        match member_named(meta, n) {
            Some(k) => views(member_packages(meta)[k].dependencies@).to_set().intersect(member_names(meta)),
            None => Set::empty(),
        }
}

/// The members reachable from the member names among `packages`, these
/// included.
pub open spec fn member_closure(meta: Metadata, packages: Seq<Seq<char>>) -> Set<Seq<char>> {
    reachable(member_edges(meta), packages.to_set().intersect(member_names(meta)))
}

/// Finds the first member package with the given name; `members` holds the
/// member positions.
fn find_member_named(meta: &Metadata, members: &Vec<usize>, name: &String) -> (found: Option<usize>)
    requires
        as_ints(members@) == member_indices(*meta),
        forall|k: int| 0 <= k < members.len() ==> #[trigger] members@[k] < meta.packages.len(),
    ensures
        match found {
            Some(i) => exists|k: int|
                member_named(*meta, name@) == Some(k) && 0 <= k < members.len() && #[trigger] members@[k] == i,
            None => member_named(*meta, name@) is None,
        },
{
    let ghost mp = member_packages(*meta);
    assert(mp.len() == members.len());
    let mut k: usize = 0;
    while k < members.len()
        invariant
            k <= members.len(),
            mp == member_packages(*meta),
            mp.len() == members.len(),
            as_ints(members@) == member_indices(*meta),
            forall|j: int| 0 <= j < members.len() ==> #[trigger] members@[j] < meta.packages.len(),
            forall|j: int| 0 <= j < k ==> !has_name(name@)(#[trigger] mp[j]),
        decreases members.len() - k,
    {
        assert(mp[k as int] == meta.packages@[members@[k as int] as int]);
        if meta.packages[members[k]].name == *name {
            proof {
                lemma_first_index_at(mp, has_name(name@), k as int);
            }
            return Some(members[k]);
        }
        k += 1;
    }
    proof {
        lemma_first_index(mp, has_name(name@));
    }
    None
}

proof fn lemma_member_named_is_member(meta: Metadata, n: Seq<char>)
    ensures
        member_named(meta, n) is Some <==> member_names(meta).contains(n),
{
    let mp = member_packages(meta);
    let names = names_of(meta, member_indices(meta));
    lemma_first_index(mp, has_name(n));
    if member_names(meta).contains(n) {
        let t = choose|t: int| 0 <= t < names.len() && names[t] == n;
        assert(has_name(n)(mp[t]));
    }
    if let Some(k) = member_named(meta, n) {
        assert(names[k] == n);
    }
}

/// Names of the workspace members that the given packages need, these
/// included, in sorted order. Names that are not workspace members are
/// passed over.
pub fn resolve_workspace_deps(meta: &Metadata, packages: &Vec<String>) -> (deps: Vec<String>)
    ensures
        strictly_sorted(views(deps@)),
        views(deps@).to_set() == member_closure(*meta, views(packages@)),
{
    let members = workspace_member_indices(meta);
    let member_name_list = names_at(meta, &members);
    let ghost names = member_names(*meta);
    let ghost edges = member_edges(*meta);
    let ghost roots = views(packages@).to_set().intersect(names);
    let ghost all = reachable(edges, roots);
    let mut result: Vec<String> = Vec::new();
    let mut to_visit = clone_strings(packages);
    proof {
        broadcast use vstd::seq_lib::seq_to_set_is_finite;
        assert(views(member_name_list@).to_set() == names);
        assert forall|x: Seq<char>| #[trigger] roots.contains(x) implies all.contains(x) by {
            lemma_start_reachable(edges, roots, x);
        }
        assert forall|x: Seq<char>| #[trigger] views(to_visit@).contains(x) && names.contains(x)
            implies all.contains(x) by {
            assert(views(packages@).to_set().contains(x));
            lemma_start_reachable(edges, roots, x);
        }
        assert forall|x: Seq<char>| #[trigger] roots.contains(x) implies views(to_visit@).contains(x) by {}
    }
    while to_visit.len() > 0
        invariant
            as_ints(members@) == member_indices(*meta),
            forall|k: int| 0 <= k < members.len() ==> #[trigger] members@[k] < meta.packages.len(),
            views(member_name_list@).to_set() == names,
            names == member_names(*meta),
            names.finite(),
            roots == views(packages@).to_set().intersect(names),
            edges == member_edges(*meta),
            all == reachable(edges, roots),
            distinct(views(result@)),
            forall|x: Seq<char>| #[trigger] views(result@).contains(x) ==> names.contains(x) && all.contains(x),
            forall|x: Seq<char>| #[trigger] views(to_visit@).contains(x) && names.contains(x) ==> all.contains(x),
            forall|x: Seq<char>| #[trigger] roots.contains(x) ==> views(result@).contains(x)
                || views(to_visit@).contains(x),
            forall|v: Seq<char>, y: Seq<char>|
                views(result@).contains(v) && #[trigger] edges(v).contains(y) ==> views(result@).contains(y)
                    || views(to_visit@).contains(y),
        decreases names.len() - result.len(), to_visit.len(),
    {
        proof {
            lemma_distinct_len(views(result@), names);
        }
        let ghost stack_before = views(to_visit@);
        let name = to_visit.pop().unwrap();
        assert(stack_before =~= views(to_visit@).push(name@));
        assert forall|x: Seq<char>| #[trigger] stack_before.contains(x) implies x == name@
            || views(to_visit@).contains(x) by {
            let t = choose|t: int| 0 <= t < stack_before.len() && stack_before[t] == x;
            if t < views(to_visit@).len() {
                assert(views(to_visit@)[t] == x);
            }
        }
        assert(stack_before.contains(name@)) by {
            assert(stack_before[stack_before.len() - 1] == name@);
        }
        assert forall|x: Seq<char>| #[trigger] views(to_visit@).contains(x) implies stack_before.contains(x) by {
            let t = choose|t: int| 0 <= t < views(to_visit@).len() && views(to_visit@)[t] == x;
            assert(stack_before[t] == x);
        }
        if contains_string(&result, &name) {
            continue;
        }
        let found = find_member_named(meta, &members, &name);
        proof {
            lemma_member_named_is_member(*meta, name@);
        }
        let i = match found {
            None => {
                assert forall|x: Seq<char>| #[trigger] roots.contains(x) implies views(result@).contains(x)
                    || views(to_visit@).contains(x) by {
                    assert(names.contains(x));
                    assert(!names.contains(name@));
                    assert(views(result@).contains(x) || stack_before.contains(x));
                }
                continue;
            },
            Some(i) => i,
        };
        let ghost k = member_named(*meta, name@).unwrap();
        let ghost pkg = member_packages(*meta)[k];
        assert(meta.packages@[i as int] == pkg);
        let ghost result_before = views(result@);
        result.push(name);
        let ghost stack_mid = views(to_visit@);
        assert forall|x: Seq<char>| #[trigger] views(result@).contains(x) <==> result_before.contains(x)
            || x == stack_before.last() by {
            if views(result@).contains(x) {
                let t = choose|t: int| 0 <= t < views(result@).len() && views(result@)[t] == x;
                if t < result_before.len() {
                    assert(result_before[t] == x);
                }
            }
            if result_before.contains(x) {
                let t = choose|t: int| 0 <= t < result_before.len() && result_before[t] == x;
                assert(views(result@)[t] == x);
            }
            if x == stack_before.last() {
                assert(views(result@)[result_before.len() as int] == x);
            }
        }
        let ghost popped = stack_before.last();
        let deps = &meta.packages[i].dependencies;
        let mut j: usize = 0;
        while j < deps.len()
            invariant
                j <= deps.len(),
                i < meta.packages.len(),
                deps == &meta.packages@[i as int].dependencies,
                meta.packages@[i as int] == pkg,
                member_named(*meta, popped) == Some(k),
                0 <= k < member_packages(*meta).len(),
                member_packages(*meta)[k] == pkg,
                edges == member_edges(*meta),
                names == member_names(*meta),
                views(member_name_list@).to_set() == names,
                views(result@).contains(popped),
                forall|x: Seq<char>| #[trigger] views(result@).contains(x) ==> names.contains(x),
                forall|x: Seq<char>| #[trigger] stack_mid.contains(x) ==> views(to_visit@).contains(x),
                forall|x: Seq<char>| #[trigger] views(to_visit@).contains(x) ==> stack_mid.contains(x)
                    || edges(popped).contains(x),
                forall|t: int| 0 <= t < j && names.contains(#[trigger] views(deps@)[t])
                    ==> views(result@).contains(views(deps@)[t]) || views(to_visit@).contains(views(deps@)[t]),
            decreases deps.len() - j,
        {
            let d = &deps[j];
            let ghost stack_prev = views(to_visit@);
            assert(views(deps@)[j as int] == d@);
            if contains_string(&member_name_list, d) && !contains_string(&result, d) {
                to_visit.push(d.clone());
                assert(views(to_visit@) =~= stack_prev.push(d@));
                assert forall|x: Seq<char>| #[trigger] views(to_visit@).contains(x) <==> stack_prev.contains(x)
                    || x == d@ by {
                    if views(to_visit@).contains(x) {
                        let t = choose|t: int| 0 <= t < views(to_visit@).len() && views(to_visit@)[t] == x;
                        if t < stack_prev.len() {
                            assert(stack_prev[t] == x);
                        }
                    }
                    if stack_prev.contains(x) {
                        let t = choose|t: int| 0 <= t < stack_prev.len() && stack_prev[t] == x;
                        assert(views(to_visit@)[t] == x);
                    }
                    if x == d@ {
                        assert(views(to_visit@)[stack_prev.len() as int] == x);
                    }
                }
                assert(views(deps@).to_set().contains(d@));
                assert(edges(popped).contains(d@));
            }
            j += 1;
        }
        proof {
            assert forall|x: Seq<char>| #[trigger] edges(popped).contains(x) implies names.contains(x)
                && all.contains(x) && (views(result@).contains(x) || views(to_visit@).contains(x)) by {
                let t = choose|t: int| 0 <= t < views(deps@).len() && views(deps@)[t] == x;
                lemma_step_reachable(edges, roots, popped, x);
            }
            assert forall|x: Seq<char>| #[trigger] views(to_visit@).contains(x) && names.contains(x)
                implies all.contains(x) by {
                if stack_mid.contains(x) {
                    assert(stack_before.contains(x));
                }
            }
            assert forall|v: Seq<char>, y: Seq<char>|
                views(result@).contains(v) && #[trigger] edges(v).contains(y) implies views(result@).contains(y)
                    || views(to_visit@).contains(y) by {
                if v != popped {
                    assert(result_before.contains(v));
                    if stack_before.contains(y) && y != popped {
                        assert(stack_mid.contains(y));
                    }
                }
            }
            assert forall|x: Seq<char>| #[trigger] roots.contains(x) implies views(result@).contains(x)
                || views(to_visit@).contains(x) by {
                if stack_before.contains(x) && x != popped {
                    assert(stack_mid.contains(x));
                }
            }
            assert forall|a: int, b: int| 0 <= a < b < views(result@).len()
                implies #[trigger] views(result@)[a] != #[trigger] views(result@)[b] by {
                if b == views(result@).len() - 1 {
                    assert(result_before[a] == views(result@)[a]);
                } else {
                    assert(result_before[a] == views(result@)[a]);
                    assert(result_before[b] == views(result@)[b]);
                }
            }
            assert(all.contains(popped));
            lemma_distinct_len(views(result@), names);
        }
    }
    proof {
        let found = views(result@).to_set();
        assert forall|x: Seq<char>| #[trigger] found.contains(x) implies edges(x).subset_of(found) by {
            assert(views(result@).contains(x));
        }
        assert(roots.subset_of(found));
        lemma_closed_holds_reachable(edges, roots, found);
        assert(found =~= all);
    }
    sort_strings(result)
}

proof fn lemma_distinct_len(s: Seq<Seq<char>>, within: Set<Seq<char>>)
    requires
        distinct(s),
        within.finite(),
        forall|x: Seq<char>| #[trigger] s.contains(x) ==> within.contains(x),
    ensures
        s.len() <= within.len(),
{
    assert(s.no_duplicates()) by {
        assert forall|i: int, j: int| 0 <= i < s.len() && 0 <= j < s.len() && i != j implies s[i] != s[j] by {
            if i < j {
                assert(s[i] != s[j]);
            } else {
                assert(s[j] != s[i]);
            }
        }
    }
    s.unique_seq_to_set();
    assert(s.to_set().subset_of(within));
    vstd::set_lib::lemma_len_subset(s.to_set(), within);
}


// ---------------------------------------------------------------------------
// Packages pulled in through the resolved graph

pub open spec fn pair_views(s: Seq<ResolvedPackage>) -> Seq<(Seq<char>, Seq<char>)> {
    s.map_values(|r: ResolvedPackage| r@)
}

/// Name and version of the first package with the given id.
pub open spec fn package_view_of(meta: Metadata, id: u64) -> Option<(Seq<char>, Seq<char>)> {
    match package_index(meta, id) {
        Some(i) => Some((meta.packages@[i].name@, meta.packages@[i].version@)),
        None => None,
    }
}

/// Ids of the packages at positions `selected`.
pub open spec fn ids_of(meta: Metadata, selected: Seq<int>) -> Seq<u64> {
    selected.map_values(|i: int| meta.packages@[i].id)
}

/// The packages, by name and version, reachable in the resolved graph from
/// the packages at positions `selected`; nothing when the graph is absent.
pub open spec fn resolved_set(meta: Metadata, selected: Seq<int>) -> Set<(Seq<char>, Seq<char>)> {
    match meta.resolve {
        None => Set::empty(),
        Some(nodes) => Set::new(
            |rp: (Seq<char>, Seq<char>)|
                exists|id: u64|
                    #[trigger] reachable(resolve_edges(nodes@), ids_of(meta, selected).to_set()).contains(id)
                        && package_view_of(meta, id) == Some(rp),
        ),
    }
}

fn contains_resolved(v: &Vec<ResolvedPackage>, name: &String, version: &String) -> (found: bool)
    ensures
        found == pair_views(v@).contains((name@, version@)),
{
    let mut i: usize = 0;
    while i < v.len()
        invariant
            i <= v.len(),
            forall|j: int| 0 <= j < i ==> pair_views(v@)[j] != (name@, version@),
        decreases v.len() - i,
    {
        if v[i].name == *name && v[i].version == *version {
            assert(pair_views(v@)[i as int] == (name@, version@));
            return true;
        }
        i += 1;
    }
    false
}

fn ids_at(meta: &Metadata, selected: &Vec<usize>) -> (ids: Vec<u64>)
    requires
        forall|k: int| 0 <= k < selected.len() ==> #[trigger] selected@[k] < meta.packages.len(),
    ensures
        ids@ == ids_of(*meta, as_ints(selected@)),
{
    let mut ids: Vec<u64> = Vec::new();
    let mut k: usize = 0;
    while k < selected.len()
        invariant
            k <= selected.len(),
            forall|j: int| 0 <= j < selected.len() ==> #[trigger] selected@[j] < meta.packages.len(),
            ids@ == ids_of(*meta, as_ints(selected@.take(k as int))),
        decreases selected.len() - k,
    {
        ids.push(meta.packages[selected[k]].id);
        assert(ids@ =~= ids_of(*meta, as_ints(selected@.take(k + 1))));
        k += 1;
    }
    assert(selected@.take(selected.len() as int) =~= selected@);
    ids
}

/// The distinct packages, by name and version, that the packages at
/// positions `start` pull in through the resolved graph, themselves included.
pub fn collect_resolved_packages(meta: &Metadata, start: &Vec<usize>) -> (resolved: Vec<ResolvedPackage>)
    requires
        forall|k: int| 0 <= k < start.len() ==> #[trigger] start@[k] < meta.packages.len(),
    ensures
        pair_views(resolved@).no_duplicates(),
        pair_views(resolved@).to_set() == resolved_set(*meta, as_ints(start@)),
{
    match &meta.resolve {
        None => {
            let resolved: Vec<ResolvedPackage> = Vec::new();
            assert(pair_views(resolved@).to_set() =~= Set::empty());
            resolved
        },
        Some(nodes) => {
            let ids = ids_at(meta, start);
            let reached = reachable_ids(nodes, ids);
            let ghost target = resolved_set(*meta, as_ints(start@));
            let mut resolved: Vec<ResolvedPackage> = Vec::new();
            let mut k: usize = 0;
            while k < reached.len()
                invariant
                    k <= reached.len(),
                    pair_views(resolved@).no_duplicates(),
                    forall|rp: (Seq<char>, Seq<char>)| #[trigger] pair_views(resolved@).contains(rp)
                        <==> exists|t: int| 0 <= t < k && package_view_of(*meta, #[trigger] reached@[t]) == Some(rp),
                decreases reached.len() - k,
            {
                let ghost before = pair_views(resolved@);
                match find_package(meta, reached[k]) {
                    Some(i) => {
                        proof {
                            lemma_first_index(meta.packages@, has_id(reached@[k as int]));
                        }
                        let p = &meta.packages[i];
                        if !contains_resolved(&resolved, &p.name, &p.version) {
                            resolved.push(ResolvedPackage { name: p.name.clone(), version: p.version.clone() });
                            assert(pair_views(resolved@) =~= before.push((p.name@, p.version@)));
                        }
                    },
                    None => {},
                }
                proof {
                    assert forall|rp: (Seq<char>, Seq<char>)| #[trigger] pair_views(resolved@).contains(rp)
                        <==> exists|t: int| 0 <= t < k + 1 && package_view_of(*meta, #[trigger] reached@[t]) == Some(rp) by {
                        if pair_views(resolved@).contains(rp) && !before.contains(rp) {
                            let t = choose|t: int| 0 <= t < pair_views(resolved@).len() && pair_views(resolved@)[t] == rp;
                            assert(package_view_of(*meta, reached@[k as int]) == Some(rp));
                        }
                        if before.contains(rp) {
                            let t = choose|t: int| 0 <= t < before.len() && before[t] == rp;
                            assert(pair_views(resolved@)[t] == rp);
                        }
                        if exists|t: int| 0 <= t < k + 1 && package_view_of(*meta, #[trigger] reached@[t]) == Some(rp) {
                            let t = choose|t: int| 0 <= t < k + 1 && package_view_of(*meta, #[trigger] reached@[t]) == Some(rp);
                            if t == k && !before.contains(rp) {
                                assert(pair_views(resolved@)[pair_views(resolved@).len() - 1] == rp);
                            }
                        }
                    }
                }
                k += 1;
            }
            proof {
                assert forall|rp: (Seq<char>, Seq<char>)| pair_views(resolved@).to_set().contains(rp)
                    <==> target.contains(rp) by {
                    let all = reachable(resolve_edges(nodes@), ids_of(*meta, as_ints(start@)).to_set());
                    if pair_views(resolved@).contains(rp) {
                        let t = choose|t: int| 0 <= t < reached.len() && package_view_of(*meta, #[trigger] reached@[t]) == Some(rp);
                        assert(reached@.to_set().contains(reached@[t]));
                        assert(all.contains(reached@[t]));
                    }
                    if target.contains(rp) {
                        let id = choose|id: u64| #[trigger] all.contains(id) && package_view_of(*meta, id) == Some(rp);
                        assert(reached@.to_set().contains(id));
                        let t = choose|t: int| 0 <= t < reached.len() && reached@[t] == id;
                        assert(package_view_of(*meta, reached@[t]) == Some(rp));
                    }
                }
                assert(pair_views(resolved@).to_set() =~= target);
            }
            resolved
        },
    }
}


// ---------------------------------------------------------------------------
// Selected members and what they use

/// Name of dependency `j` of the package at position `i`.
pub open spec fn dep_name(meta: Metadata, i: int, j: int) -> Seq<char> {
    meta.packages@[i].dependencies@[j]@
}

/// Names of the dependencies of the packages at positions `selected` that
/// are not workspace members.
pub open spec fn used_dependency_set(meta: Metadata, selected: Seq<int>) -> Set<Seq<char>> {
    Set::new(
        |d: Seq<char>|
            !member_names(meta).contains(d) && exists|k: int, j: int|
                0 <= k < selected.len() && 0 <= j < meta.packages@[selected[k]].dependencies.len()
                    && #[trigger] dep_name(meta, selected[k], j) == d,
    )
}

/// The distinct names of the outside dependencies of the packages at
/// positions `selected`; `member_names` lists the workspace member names.
fn collect_used_dependencies(meta: &Metadata, selected: &Vec<usize>, member_names_list: &Vec<String>) -> (used: Vec<String>)
    requires
        forall|k: int| 0 <= k < selected.len() ==> #[trigger] selected@[k] < meta.packages.len(),
        views(member_names_list@).to_set() == member_names(*meta),
    ensures
        distinct(views(used@)),
        views(used@).to_set() == used_dependency_set(*meta, as_ints(selected@)),
{
    let ghost sel = as_ints(selected@);
    let mut used: Vec<String> = Vec::new();
    let mut k: usize = 0;
    while k < selected.len()
        invariant
            k <= selected.len(),
            sel == as_ints(selected@),
            forall|q: int| 0 <= q < selected.len() ==> #[trigger] selected@[q] < meta.packages.len(),
            views(member_names_list@).to_set() == member_names(*meta),
            distinct(views(used@)),
            forall|d: Seq<char>| #[trigger] views(used@).contains(d) <==> !member_names(*meta).contains(d)
                && exists|a: int, b: int| 0 <= a < k && 0 <= b < meta.packages@[sel[a]].dependencies.len()
                    && #[trigger] dep_name(*meta, sel[a], b) == d,
        decreases selected.len() - k,
    {
        let deps = &meta.packages[selected[k]].dependencies;
        let mut j: usize = 0;
        while j < deps.len()
            invariant
                j <= deps.len(),
                k < selected.len(),
                sel == as_ints(selected@),
                selected@[k as int] < meta.packages.len(),
                deps == &meta.packages@[sel[k as int]].dependencies,
                views(member_names_list@).to_set() == member_names(*meta),
                distinct(views(used@)),
                forall|d: Seq<char>| #[trigger] views(used@).contains(d) <==> !member_names(*meta).contains(d)
                    && ((exists|a: int, b: int| 0 <= a < k && 0 <= b < meta.packages@[sel[a]].dependencies.len()
                        && #[trigger] dep_name(*meta, sel[a], b) == d) || (exists|b: int| 0 <= b < j
                        && #[trigger] dep_name(*meta, sel[k as int], b) == d)),
            decreases deps.len() - j,
        {
            let d = &deps[j];
            let ghost before = views(used@);
            assert(dep_name(*meta, sel[k as int], j as int) == d@);
            if !contains_string(member_names_list, d) && !contains_string(&used, d) {
                used.push(d.clone());
                assert(views(used@) =~= before.push(d@));
                assert forall|a: int, b: int| 0 <= a < b < views(used@).len()
                    implies #[trigger] views(used@)[a] != #[trigger] views(used@)[b] by {
                    if b < before.len() {
                        assert(before[a] != before[b]);
                    } else {
                        assert(before.contains(before[a]));
                    }
                }
            }
            proof {
                assert forall|x: Seq<char>| #[trigger] views(used@).contains(x) <==> !member_names(*meta).contains(x)
                    && ((exists|a: int, b: int| 0 <= a < k && 0 <= b < meta.packages@[sel[a]].dependencies.len()
                        && #[trigger] dep_name(*meta, sel[a], b) == x) || (exists|b: int| 0 <= b < j + 1
                        && #[trigger] dep_name(*meta, sel[k as int], b) == x)) by {
                    if views(used@).contains(x) && !before.contains(x) {
                        assert(x == d@);
                    }
                    if before.contains(x) {
                        let t = choose|t: int| 0 <= t < before.len() && before[t] == x;
                        assert(views(used@)[t] == x);
                    }
                    if x == d@ && !member_names(*meta).contains(x) && !before.contains(x) {
                        assert(views(used@)[views(used@).len() - 1] == x);
                    }
                }
            }
            j += 1;
        }
        proof {
            assert forall|x: Seq<char>| #[trigger] views(used@).contains(x) <==> !member_names(*meta).contains(x)
                && exists|a: int, b: int| 0 <= a < k + 1 && 0 <= b < meta.packages@[sel[a]].dependencies.len()
                    && #[trigger] dep_name(*meta, sel[a], b) == x by {
                if exists|a: int, b: int| 0 <= a < k + 1 && 0 <= b < meta.packages@[sel[a]].dependencies.len()
                    && #[trigger] dep_name(*meta, sel[a], b) == x {
                    let (a, b) = choose|a: int, b: int| 0 <= a < k + 1 && 0 <= b < meta.packages@[sel[a]].dependencies.len()
                        && #[trigger] dep_name(*meta, sel[a], b) == x;
                    if a == k {
                        assert(dep_name(*meta, sel[k as int], b) == x);
                    }
                }
            }
        }
        k += 1;
    }
    proof {
        let target = used_dependency_set(*meta, sel);
        assert forall|x: Seq<char>| views(used@).to_set().contains(x) <==> target.contains(x) by {}
        assert(views(used@).to_set() =~= target);
    }
    used
}

/// Keeps, of the positions `idx`, those of packages named in `filter`.
pub open spec fn keep_named(meta: Metadata, idx: Seq<int>, filter: Seq<Seq<char>>) -> Seq<int>
    decreases idx.len(),
{
    if idx.len() == 0 {
        seq![]
    } else {
        let rest = keep_named(meta, idx.drop_last(), filter);
        if filter.contains(meta.packages@[idx.last()].name@) {
            rest.push(idx.last())
        } else {
            rest
        }
    }
}

/// Positions of the members to process: all of them when `filter` is empty,
/// else those named in it, in member order.
pub open spec fn selected_members(meta: Metadata, filter: Seq<Seq<char>>) -> Seq<int> {
    if filter.len() == 0 {
        member_indices(meta)
    } else {
        keep_named(meta, member_indices(meta), filter)
    }
}

pub open spec fn member_views(s: Seq<WorkspaceMember>) -> Seq<MemberView> {
    s.map_values(|m: WorkspaceMember| m@)
}

/// The members that the packages at positions `selected` become.
pub open spec fn member_models(meta: Metadata, selected: Seq<int>) -> Seq<MemberView> {
    selected.map_values(|i: int| member_model(meta.packages@[i], meta.workspace_root@))
}

fn filter_by_name(meta: &Metadata, members: &Vec<usize>, filter: &Vec<String>) -> (kept: Vec<usize>)
    requires
        forall|k: int| 0 <= k < members.len() ==> #[trigger] members@[k] < meta.packages.len(),
    ensures
        as_ints(kept@) == keep_named(*meta, as_ints(members@), views(filter@)),
        forall|k: int| 0 <= k < kept.len() ==> #[trigger] kept@[k] < meta.packages.len(),
{
    let mut kept: Vec<usize> = Vec::new();
    let mut k: usize = 0;
    while k < members.len()
        invariant
            k <= members.len(),
            forall|q: int| 0 <= q < members.len() ==> #[trigger] members@[q] < meta.packages.len(),
            forall|q: int| 0 <= q < kept.len() ==> #[trigger] kept@[q] < meta.packages.len(),
            as_ints(kept@) == keep_named(*meta, as_ints(members@.take(k as int)), views(filter@)),
        decreases members.len() - k,
    {
        let ghost prefix = as_ints(members@.take(k as int));
        let ghost next = as_ints(members@.take(k + 1));
        assert(next.drop_last() =~= prefix);
        assert(next.last() == members@[k as int] as int);
        if contains_string(filter, &meta.packages[members[k]].name) {
            kept.push(members[k]);
        }
        assert(as_ints(kept@) =~= keep_named(*meta, next, views(filter@)));
        k += 1;
    }
    assert(members@.take(members.len() as int) =~= members@);
    kept
}

/// Gathers the members selected by `package_filter` (all members when it is
/// empty), the outside dependencies they declare, and the packages they pull
/// in through the resolved graph.
pub fn extract_workspace(meta: &Metadata, package_filter: &Vec<String>) -> (ws: ExtractedWorkspace)
    ensures
        member_views(ws.members@) == member_models(*meta, selected_members(*meta, views(package_filter@))),
        distinct(views(ws.used_dependencies@)),
        views(ws.used_dependencies@).to_set() == used_dependency_set(
            *meta,
            selected_members(*meta, views(package_filter@)),
        ),
        pair_views(ws.resolved_packages@).no_duplicates(),
        pair_views(ws.resolved_packages@).to_set() == resolved_set(
            *meta,
            selected_members(*meta, views(package_filter@)),
        ),
{
    let all_members = workspace_member_indices(meta);
    let member_name_list = names_at(meta, &all_members);
    let selected = if package_filter.len() == 0 {
        all_members
    } else {
        filter_by_name(meta, &all_members, package_filter)
    };
    let ghost sel = as_ints(selected@);
    assert(sel == selected_members(*meta, views(package_filter@)));
    let mut members: Vec<WorkspaceMember> = Vec::new();
    let mut k: usize = 0;
    while k < selected.len()
        invariant
            k <= selected.len(),
            forall|q: int| 0 <= q < selected.len() ==> #[trigger] selected@[q] < meta.packages.len(),
            member_views(members@) == member_models(*meta, as_ints(selected@.take(k as int))),
        decreases selected.len() - k,
    {
        let m = extract_member_info(&meta.packages[selected[k]], &meta.workspace_root);
        let ghost before = members@;
        members.push(m);
        proof {
            let target = member_models(*meta, as_ints(selected@.take(k + 1)));
            let prev = member_models(*meta, as_ints(selected@.take(k as int)));
            assert(member_views(before) == prev);
            assert(member_views(before).len() == before.len());
            assert(before.len() == k);
            assert forall|j: int| 0 <= j < k + 1 implies member_views(members@)[j] == target[j] by {
                if j < k {
                    assert(members@[j] == before[j]);
                    assert(member_views(before)[j] == prev[j]);
                    assert(selected@.take(k + 1)[j] == selected@.take(k as int)[j]);
                }
            }
            assert(member_views(members@) =~= target);
        }
        k += 1;
    }
    assert(selected@.take(selected.len() as int) =~= selected@);
    let used_dependencies = collect_used_dependencies(meta, &selected, &member_name_list);
    let resolved_packages = collect_resolved_packages(meta, &selected);
    ExtractedWorkspace { members, used_dependencies, resolved_packages }
}


// ---------------------------------------------------------------------------
// Binaries

/// The package has a binary target with the given name.
pub open spec fn provides_bin(bin: Seq<char>) -> spec_fn(Package) -> bool {
    |p: Package|
        exists|t: int|
            0 <= t < p.targets.len() && spec_is_bin_target(#[trigger] p.targets@[t]) && p.targets@[t].name@ == bin
}

/// Position among the members of the first member with a binary so named.
pub open spec fn bin_provider(meta: Metadata, bin: Seq<char>) -> Option<int> {
    first_index(member_packages(meta), provides_bin(bin))
}

/// Name of the member that provides `bin` (meaningful when one does).
pub open spec fn provider_name(meta: Metadata, bin: Seq<char>) -> Seq<char> {
    member_packages(meta)[bin_provider(meta, bin).unwrap()].name@
}

pub open spec fn entry_bins(s: Seq<BinPackage>) -> Seq<Seq<char>> {
    s.map_values(|e: BinPackage| e.bin@)
}

fn package_provides_bin(pkg: &Package, bin: &String) -> (provides: bool)
    ensures
        provides == provides_bin(bin@)(*pkg),
{
    let mut t: usize = 0;
    while t < pkg.targets.len()
        invariant
            t <= pkg.targets.len(),
            forall|q: int| 0 <= q < t ==> !(spec_is_bin_target(#[trigger] pkg.targets@[q]) && pkg.targets@[q].name@
                == bin@),
        decreases pkg.targets.len() - t,
    {
        if is_bin_target(&pkg.targets[t]) && pkg.targets[t].name == *bin {
            return true;
        }
        t += 1;
    }
    false
}

fn find_bin_provider(meta: &Metadata, members: &Vec<usize>, bin: &String) -> (found: Option<usize>)
    requires
        as_ints(members@) == member_indices(*meta),
        forall|k: int| 0 <= k < members.len() ==> #[trigger] members@[k] < meta.packages.len(),
    ensures
        match found {
            Some(i) => bin_provider(*meta, bin@) is Some && i < meta.packages.len()
                && meta.packages@[i as int] == member_packages(*meta)[bin_provider(*meta, bin@).unwrap()],
            None => bin_provider(*meta, bin@) is None,
        },
{
    let ghost mp = member_packages(*meta);
    let mut k: usize = 0;
    while k < members.len()
        invariant
            k <= members.len(),
            mp == member_packages(*meta),
            mp.len() == members.len(),
            as_ints(members@) == member_indices(*meta),
            forall|j: int| 0 <= j < members.len() ==> #[trigger] members@[j] < meta.packages.len(),
            forall|j: int| 0 <= j < k ==> !provides_bin(bin@)(#[trigger] mp[j]),
        decreases members.len() - k,
    {
        assert(mp[k as int] == meta.packages@[members@[k as int] as int]);
        if package_provides_bin(&meta.packages[members[k]], bin) {
            proof {
                lemma_first_index_at(mp, provides_bin(bin@), k as int);
            }
            return Some(members[k]);
        }
        k += 1;
    }
    proof {
        lemma_first_index(mp, provides_bin(bin@));
    }
    None
}

/// What looking up the binaries `bins` gives: each requested binary that some
/// workspace member provides, mapped to the name of the first such member.
pub open spec fn bin_package_map(meta: Metadata, bins: Seq<Seq<char>>) -> Map<Seq<char>, Seq<char>> {
    Map::new(
        |b: Seq<char>| bins.contains(b) && bin_provider(meta, b) is Some,
        |b: Seq<char>| provider_name(meta, b),
    )
}

/// The entries as a map from binary to package.
pub open spec fn entry_map(s: Seq<BinPackage>) -> Map<Seq<char>, Seq<char>> {
    Map::new(
        |b: Seq<char>| entry_bins(s).contains(b),
        |b: Seq<char>| s[choose|k: int| 0 <= k < s.len() && #[trigger] s[k].bin@ == b].package@,
    )
}

proof fn lemma_entry_map(meta: Metadata, bins: Seq<Seq<char>>, entries: Seq<BinPackage>)
    requires
        forall|k: int| 0 <= k < entries.len() ==> {
            &&& bins.contains(#[trigger] entries[k].bin@)
            &&& bin_provider(meta, entries[k].bin@) is Some
            &&& entries[k].package@ == provider_name(meta, entries[k].bin@)
        },
        forall|b: Seq<char>| #[trigger] bins.contains(b) && bin_provider(meta, b) is Some
            ==> entry_bins(entries).contains(b),
    ensures
        entry_map(entries) == bin_package_map(meta, bins),
{
    let m = entry_map(entries);
    let w = bin_package_map(meta, bins);
    assert forall|b: Seq<char>| m.dom().contains(b) <==> w.dom().contains(b) by {
        if entry_bins(entries).contains(b) {
            let q = choose|q: int| 0 <= q < entry_bins(entries).len() && entry_bins(entries)[q] == b;
            assert(entries[q].bin@ == b);
        }
        if w.dom().contains(b) {
            assert(bins.contains(b) && bin_provider(meta, b) is Some);
        }
    }
    assert forall|b: Seq<char>| m.dom().contains(b) implies m[b] == w[b] by {
        let q = choose|q: int| 0 <= q < entry_bins(entries).len() && entry_bins(entries)[q] == b;
        assert(entries[q].bin@ == b);
        let k = choose|k: int| 0 <= k < entries.len() && #[trigger] entries[k].bin@ == b;
        assert(entries[k].package@ == provider_name(meta, b));
    }
    assert(m =~= w);
}

/// Pairs each requested binary that some workspace member provides with the
/// first such member; each binary appears once.
pub fn resolve_bins_to_packages(meta: &Metadata, bins: &Vec<String>) -> (entries: Vec<BinPackage>)
    ensures
        distinct(entry_bins(entries@)),
        forall|k: int| 0 <= k < entries.len() ==> {
            &&& views(bins@).contains(#[trigger] entries@[k].bin@)
            &&& bin_provider(*meta, entries@[k].bin@) is Some
            &&& entries@[k].package@ == provider_name(*meta, entries@[k].bin@)
        },
        forall|b: Seq<char>| #[trigger] views(bins@).contains(b) && bin_provider(*meta, b) is Some
            ==> entry_bins(entries@).contains(b),
        entry_map(entries@) == bin_package_map(*meta, views(bins@)),
{
    let members = workspace_member_indices(meta);
    let mut entries: Vec<BinPackage> = Vec::new();
    let mut i: usize = 0;
    while i < bins.len()
        invariant
            i <= bins.len(),
            as_ints(members@) == member_indices(*meta),
            forall|k: int| 0 <= k < members.len() ==> #[trigger] members@[k] < meta.packages.len(),
            distinct(entry_bins(entries@)),
            forall|k: int| 0 <= k < entries.len() ==> {
                &&& views(bins@).contains(#[trigger] entries@[k].bin@)
                &&& bin_provider(*meta, entries@[k].bin@) is Some
                &&& entries@[k].package@ == provider_name(*meta, entries@[k].bin@)
            },
            forall|t: int| 0 <= t < i && bin_provider(*meta, #[trigger] views(bins@)[t]) is Some
                ==> entry_bins(entries@).contains(views(bins@)[t]),
        decreases bins.len() - i,
    {
        let bin = &bins[i];
        assert(views(bins@)[i as int] == bin@);
        let mut known = false;
        let mut e: usize = 0;
        while e < entries.len()
            invariant
                e <= entries.len(),
                known ==> entry_bins(entries@).contains(bin@),
                !known ==> forall|q: int| 0 <= q < e ==> entry_bins(entries@)[q] != bin@,
            decreases entries.len() - e,
        {
            if entries[e].bin == *bin {
                assert(entry_bins(entries@)[e as int] == bin@);
                known = true;
            }
            e += 1;
        }
        if !known {
            match find_bin_provider(meta, &members, bin) {
                Some(p) => {
                    let ghost before = entries@;
                    entries.push(BinPackage { bin: bin.clone(), package: meta.packages[p].name.clone() });
                    proof {
                        assert(entry_bins(entries@) =~= entry_bins(before).push(bin@));
                        assert forall|a: int, b: int| 0 <= a < b < entry_bins(entries@).len()
                            implies #[trigger] entry_bins(entries@)[a] != #[trigger] entry_bins(entries@)[b] by {
                            if b < before.len() {
                                assert(entry_bins(before)[a] != entry_bins(before)[b]);
                            }
                        }
                        assert forall|k: int| 0 <= k < entries.len() implies {
                            &&& views(bins@).contains(#[trigger] entries@[k].bin@)
                            &&& bin_provider(*meta, entries@[k].bin@) is Some
                            &&& entries@[k].package@ == provider_name(*meta, entries@[k].bin@)
                        } by {
                            if k < before.len() {
                                assert(entries@[k] == before[k]);
                            }
                        }
                        assert forall|t: int| 0 <= t < i + 1 && bin_provider(*meta, #[trigger] views(bins@)[t]) is Some
                            implies entry_bins(entries@).contains(views(bins@)[t]) by {
                            if t < i {
                                let q = choose|q: int| 0 <= q < entry_bins(before).len() && entry_bins(before)[q] == views(bins@)[t];
                                assert(entry_bins(entries@)[q] == views(bins@)[t]);
                            } else {
                                assert(entry_bins(entries@)[before.len() as int] == bin@);
                            }
                        }
                    }
                },
                None => {},
            }
        }
        i += 1;
    }
    proof {
        lemma_entry_map(*meta, views(bins@), entries@);
    }
    entries
}

/// Names of the binary targets of the packages `ps`, package by package.
pub open spec fn bins_of_packages(ps: Seq<Package>) -> Seq<Seq<char>>
    decreases ps.len(),
{
    if ps.len() == 0 {
        seq![]
    } else {
        bins_of_packages(ps.drop_last()) + bin_names(ps.last().targets@)
    }
}

/// Names of all binary targets of the workspace members, member by member.
pub fn get_all_bins(meta: &Metadata) -> (bins: Vec<String>)
    ensures
        views(bins@) == bins_of_packages(member_packages(*meta)),
{
    let members = workspace_member_indices(meta);
    let ghost mp = member_packages(*meta);
    let mut bins: Vec<String> = Vec::new();
    let mut k: usize = 0;
    while k < members.len()
        invariant
            k <= members.len(),
            mp == member_packages(*meta),
            mp.len() == members.len(),
            as_ints(members@) == member_indices(*meta),
            forall|q: int| 0 <= q < members.len() ==> #[trigger] members@[q] < meta.packages.len(),
            views(bins@) == bins_of_packages(mp.take(k as int)),
        decreases members.len() - k,
    {
        let pkg = &meta.packages[members[k]];
        assert(mp[k as int] == *pkg);
        let ghost base = views(bins@);
        let mut t: usize = 0;
        while t < pkg.targets.len()
            invariant
                t <= pkg.targets.len(),
                views(bins@) == base + bin_names(pkg.targets@.take(t as int)),
            decreases pkg.targets.len() - t,
        {
            let ghost before = views(bins@);
            assert(pkg.targets@.take(t + 1).drop_last() =~= pkg.targets@.take(t as int));
            if is_bin_target(&pkg.targets[t]) {
                bins.push(pkg.targets[t].name.clone());
                assert(views(bins@) =~= before.push(pkg.targets@[t as int].name@));
            }
            assert(views(bins@) =~= base + bin_names(pkg.targets@.take(t + 1)));
            t += 1;
        }
        assert(pkg.targets@.take(pkg.targets.len() as int) =~= pkg.targets@);
        assert(mp.take(k + 1).drop_last() =~= mp.take(k as int));
        assert(views(bins@) =~= bins_of_packages(mp.take(k + 1)));
        k += 1;
    }
    assert(mp.take(members.len() as int) =~= mp);
    bins
}

/// Index of the first requested binary that no member provides.
pub open spec fn first_missing_bin(meta: Metadata, bins: Seq<Seq<char>>) -> Option<int> {
    first_index(bins, |b: Seq<char>| bin_provider(meta, b) is None)
}

/// Names of the members that provide the requested binaries.
pub open spec fn provider_names(meta: Metadata, bins: Seq<Seq<char>>) -> Set<Seq<char>> {
    Set::new(|n: Seq<char>| exists|b: Seq<char>| #[trigger] bins.contains(b) && provider_name(meta, b) == n)
}

/// The workspace members the requested binaries need, in sorted order, or
/// the first requested binary that no member provides.
pub fn packages_for_bins(meta: &Metadata, bins: &Vec<String>) -> (res: Result<Vec<String>, WorkspaceError>)
    ensures
        match res {
            Ok(pkgs) => {
                &&& first_missing_bin(*meta, views(bins@)) is None
                &&& strictly_sorted(views(pkgs@))
                &&& views(pkgs@).to_set() == reachable(
                    member_edges(*meta),
                    provider_names(*meta, views(bins@)).intersect(member_names(*meta)),
                )
            },
            Err(WorkspaceError::BinaryNotFound { bin, available }) => {
                &&& first_missing_bin(*meta, views(bins@)) matches Some(i)
                &&& bin@ == views(bins@)[i]
                &&& views(available@) == bins_of_packages(member_packages(*meta))
            },
        },
{
    let ghost missing = |b: Seq<char>| bin_provider(*meta, b) is None;
    if bins.len() == 0 {
        let pkgs: Vec<String> = Vec::new();
        proof {
            lemma_first_index(views(bins@), missing);
            assert(provider_names(*meta, views(bins@)) =~= Set::empty());
            assert(reachable(member_edges(*meta), Set::<Seq<char>>::empty()) =~= Set::empty());
            assert(views(pkgs@).to_set() =~= Set::empty());
        }
        return Ok(pkgs);
    }
    let entries = resolve_bins_to_packages(meta, bins);
    let mut i: usize = 0;
    while i < bins.len()
        invariant
            i <= bins.len(),
            forall|t: int| 0 <= t < i ==> !missing(#[trigger] views(bins@)[t]),
            missing == |b: Seq<char>| bin_provider(*meta, b) is None,
            distinct(entry_bins(entries@)),
            forall|k: int| 0 <= k < entries.len() ==> {
                &&& views(bins@).contains(#[trigger] entries@[k].bin@)
                &&& bin_provider(*meta, entries@[k].bin@) is Some
                &&& entries@[k].package@ == provider_name(*meta, entries@[k].bin@)
            },
            forall|b: Seq<char>| #[trigger] views(bins@).contains(b) && bin_provider(*meta, b) is Some
                ==> entry_bins(entries@).contains(b),
        decreases bins.len() - i,
    {
        let mut found = false;
        let mut e: usize = 0;
        while e < entries.len()
            invariant
                e <= entries.len(),
                i < bins.len(),
                found ==> entry_bins(entries@).contains(bins@[i as int]@),
                !found ==> forall|q: int| 0 <= q < e ==> entry_bins(entries@)[q] != bins@[i as int]@,
            decreases entries.len() - e,
        {
            if entries[e].bin == bins[i] {
                assert(entry_bins(entries@)[e as int] == bins@[i as int]@);
                found = true;
            }
            e += 1;
        }
        assert(views(bins@)[i as int] == bins@[i as int]@);
        if !found {
            proof {
                assert(views(bins@).contains(bins@[i as int]@));
                if bin_provider(*meta, bins@[i as int]@) is Some {
                    assert(entry_bins(entries@).contains(bins@[i as int]@));
                }
                lemma_first_index_at(views(bins@), missing, i as int);
            }
            let available = get_all_bins(meta);
            return Err(WorkspaceError::BinaryNotFound { bin: bins[i].clone(), available });
        }
        proof {
            let q = choose|q: int| 0 <= q < entry_bins(entries@).len() && entry_bins(entries@)[q] == bins@[i as int]@;
            assert(entries@[q].bin@ == bins@[i as int]@);
        }
        i += 1;
    }
    proof {
        lemma_first_index(views(bins@), missing);
    }
    let mut pkgs: Vec<String> = Vec::new();
    let mut e: usize = 0;
    while e < entries.len()
        invariant
            e <= entries.len(),
            forall|k: int| 0 <= k < entries.len() ==> {
                &&& views(bins@).contains(#[trigger] entries@[k].bin@)
                &&& bin_provider(*meta, entries@[k].bin@) is Some
                &&& entries@[k].package@ == provider_name(*meta, entries@[k].bin@)
            },
            forall|x: Seq<char>| #[trigger] views(pkgs@).contains(x) <==> exists|k: int| 0 <= k < e
                && #[trigger] entries@[k].package@ == x,
        decreases entries.len() - e,
    {
        let ghost before = views(pkgs@);
        pkgs.push(entries[e].package.clone());
        proof {
            assert(views(pkgs@) =~= before.push(entries@[e as int].package@));
            assert forall|x: Seq<char>| #[trigger] views(pkgs@).contains(x) <==> exists|k: int| 0 <= k < e + 1
                && #[trigger] entries@[k].package@ == x by {
                if views(pkgs@).contains(x) {
                    let t = choose|t: int| 0 <= t < views(pkgs@).len() && views(pkgs@)[t] == x;
                    if t < before.len() {
                        assert(before[t] == x);
                        assert(before.contains(x));
                    } else {
                        assert(entries@[e as int].package@ == x);
                    }
                }
                if exists|k: int| 0 <= k < e + 1 && #[trigger] entries@[k].package@ == x {
                    let k = choose|k: int| 0 <= k < e + 1 && #[trigger] entries@[k].package@ == x;
                    if k < e {
                        assert(before.contains(x));
                        let t = choose|t: int| 0 <= t < before.len() && before[t] == x;
                        assert(views(pkgs@)[t] == x);
                    } else {
                        assert(views(pkgs@)[before.len() as int] == x);
                    }
                }
            }
        }
        e += 1;
    }
    proof {
        let wanted = provider_names(*meta, views(bins@));
        assert forall|x: Seq<char>| views(pkgs@).to_set().contains(x) <==> wanted.contains(x) by {
            if views(pkgs@).contains(x) {
                let k = choose|k: int| 0 <= k < entries.len() && #[trigger] entries@[k].package@ == x;
                assert(views(bins@).contains(entries@[k].bin@));
            }
            if wanted.contains(x) {
                let b = choose|b: Seq<char>| #[trigger] views(bins@).contains(b) && provider_name(*meta, b) == x;
                let t = choose|t: int| 0 <= t < views(bins@).len() && views(bins@)[t] == b;
                assert(!missing(views(bins@)[t]));
                assert(entry_bins(entries@).contains(b));
                let k = choose|k: int| 0 <= k < entry_bins(entries@).len() && entry_bins(entries@)[k] == b;
                assert(entries@[k].bin@ == b);
            }
        }
        assert(views(pkgs@).to_set() =~= wanted);
    }
    let resolved = resolve_workspace_deps(meta, &pkgs);
    Ok(resolved)
}

} // verus!
