use vstd::prelude::*;

use crate::generator::{
    bin_stub_files, kept_dependencies, member_paths, planned_lockfile, planned_members, stub_dirs, stub_files, LIB_STUB,
    MAIN_STUB,
};
use crate::lockfile::{filtered_lockfile, resolved_keys};
use crate::graph::{
    lemma_closed_holds_reachable, lemma_first_index, lemma_start_reachable, lemma_step_reachable, reachable,
};
use crate::strings::views;
use crate::metadata::{
    bin_names, bin_package_map, bin_provider, bins_of_packages, dep_name, keep_named, member_closure, member_edges, member_indices,
    is_lib_kind, member_model, spec_is_lib_target, member_names, member_packages, member_views, ExtractedWorkspace, names_of, package_index, provides_bin, resolved_set, selected_members,
    spec_is_bin_target, used_dependency_set, ids_of, package_view_of, resolve_edges, Metadata, MemberView,
    Package, Target,
};

verus! {

/// Resolving the members a set of packages needs, and then resolving again
/// from the result, gives the same members: the result is already closed.
pub proof fn law_member_closure_idempotent(meta: Metadata, packages: Seq<Seq<char>>, again: Seq<Seq<char>>)
    requires
        again.to_set() == member_closure(meta, packages),
    ensures
        member_closure(meta, again) == member_closure(meta, packages),
{
    let edges = member_edges(meta);
    let names = member_names(meta);
    let first = member_closure(meta, packages);
    let roots = packages.to_set().intersect(names);
    let roots2 = again.to_set().intersect(names);
    law_member_closure_shape(meta, packages);
    assert forall|x: Seq<char>| #[trigger] first.contains(x) implies edges(x).subset_of(first) by {
        assert forall|y: Seq<char>| edges(x).contains(y) implies first.contains(y) by {
            lemma_step_reachable(edges, roots, x, y);
        }
    }
    assert(roots2.subset_of(first));
    lemma_closed_holds_reachable(edges, roots2, first);
    assert forall|x: Seq<char>| first.contains(x) implies member_closure(meta, again).contains(x) by {
        assert(roots2.contains(x));
        lemma_start_reachable(edges, roots2, x);
    }
    assert(member_closure(meta, again) =~= first);
}

/// The members a set of packages needs are workspace members; they include
/// every requested package that is a member, and with each member they
/// include the members it depends on.
pub proof fn law_member_closure_shape(meta: Metadata, packages: Seq<Seq<char>>)
    ensures
        member_closure(meta, packages).subset_of(member_names(meta)),
        packages.to_set().intersect(member_names(meta)).subset_of(member_closure(meta, packages)),
        forall|x: Seq<char>, y: Seq<char>|
            member_closure(meta, packages).contains(x) && #[trigger] member_edges(meta)(x).contains(y)
                ==> member_closure(meta, packages).contains(y),
{
    let edges = member_edges(meta);
    let names = member_names(meta);
    let roots = packages.to_set().intersect(names);
    assert forall|x: Seq<char>| #[trigger] names.contains(x) implies edges(x).subset_of(names) by {}
    lemma_closed_holds_reachable(edges, roots, names);
    assert forall|x: Seq<char>| roots.contains(x) implies member_closure(meta, packages).contains(x) by {
        lemma_start_reachable(edges, roots, x);
    }
    assert forall|x: Seq<char>, y: Seq<char>|
        member_closure(meta, packages).contains(x) && #[trigger] edges(x).contains(y)
            implies member_closure(meta, packages).contains(y) by {
        lemma_step_reachable(edges, roots, x, y);
    }
}

/// Asking for more packages never yields fewer members.
pub proof fn law_member_closure_monotone(meta: Metadata, packages: Seq<Seq<char>>, more: Seq<Seq<char>>)
    requires
        packages.to_set().subset_of(more.to_set()),
    ensures
        member_closure(meta, packages).subset_of(member_closure(meta, more)),
{
    let edges = member_edges(meta);
    let names = member_names(meta);
    let big = member_closure(meta, more);
    law_member_closure_shape(meta, more);
    assert forall|x: Seq<char>| #[trigger] big.contains(x) implies edges(x).subset_of(big) by {}
    assert(packages.to_set().intersect(names).subset_of(big)) by {
        assert forall|x: Seq<char>| packages.to_set().intersect(names).contains(x) implies big.contains(x) by {
            assert(more.to_set().contains(x));
            assert(more.to_set().intersect(names).contains(x));
        }
    }
    lemma_closed_holds_reachable(edges, packages.to_set().intersect(names), big);
}

proof fn lemma_bin_names_contains(targets: Seq<Target>, b: Seq<char>)
    ensures
        bin_names(targets).contains(b) <==> exists|t: int|
            0 <= t < targets.len() && spec_is_bin_target(#[trigger] targets[t]) && targets[t].name@ == b,
    decreases targets.len(),
{
    if targets.len() > 0 {
        let rest = targets.drop_last();
        lemma_bin_names_contains(rest, b);
        let names = bin_names(targets);
        let rest_names = bin_names(rest);
        if rest_names.contains(b) {
            let k = choose|k: int| 0 <= k < rest_names.len() && rest_names[k] == b;
            assert(names[k] == b);
            let t = choose|t: int| 0 <= t < rest.len() && spec_is_bin_target(#[trigger] rest[t]) && rest[t].name@ == b;
            assert(targets[t] == rest[t]);
        }
        if names.contains(b) && !rest_names.contains(b) {
            let k = choose|k: int| 0 <= k < names.len() && names[k] == b;
            assert(targets[targets.len() - 1].name@ == b);
        }
        if exists|t: int| 0 <= t < targets.len() && spec_is_bin_target(#[trigger] targets[t]) && targets[t].name@ == b {
            let t = choose|t: int| 0 <= t < targets.len() && spec_is_bin_target(#[trigger] targets[t]) && targets[t].name@ == b;
            if t < targets.len() - 1 {
                assert(rest[t] == targets[t]);
                let k = choose|k: int| 0 <= k < rest_names.len() && rest_names[k] == b;
                assert(names[k] == b);
            } else {
                assert(names[names.len() - 1] == b);
            }
        }
    }
}

proof fn lemma_bins_of_packages_contains(ps: Seq<Package>, b: Seq<char>)
    ensures
        bins_of_packages(ps).contains(b) <==> exists|k: int| 0 <= k < ps.len() && #[trigger] provides_bin(b)(ps[k]),
    decreases ps.len(),
{
    if ps.len() > 0 {
        let rest = ps.drop_last();
        lemma_bins_of_packages_contains(rest, b);
        lemma_bin_names_contains(ps.last().targets@, b);
        let all = bins_of_packages(ps);
        let front = bins_of_packages(rest);
        let back = bin_names(ps.last().targets@);
        assert(all == front + back);
        if all.contains(b) {
            let i = choose|i: int| 0 <= i < all.len() && all[i] == b;
            if i < front.len() {
                assert(front[i] == b);
                let k = choose|k: int| 0 <= k < rest.len() && #[trigger] provides_bin(b)(rest[k]);
                assert(ps[k] == rest[k]);
            } else {
                assert(back[i - front.len()] == b);
                assert(provides_bin(b)(ps[ps.len() - 1]));
            }
        }
        if exists|k: int| 0 <= k < ps.len() && #[trigger] provides_bin(b)(ps[k]) {
            let k = choose|k: int| 0 <= k < ps.len() && #[trigger] provides_bin(b)(ps[k]);
            if k < ps.len() - 1 {
                assert(rest[k] == ps[k]);
                let i = choose|i: int| 0 <= i < front.len() && front[i] == b;
                assert(all[i] == b);
            } else {
                let i = choose|i: int| 0 <= i < back.len() && back[i] == b;
                assert(all[front.len() + i] == b);
            }
        }
    }
}

/// A package becomes a member under its own name; it is a binary member
/// exactly when it lists a binary, its binaries are the names of its targets
/// of kind `bin`, in order; and it is a library member exactly when one of
/// its targets has kind `lib`, `rlib`, `dylib`, `staticlib`, `cdylib` or
/// `proc-macro`.
pub proof fn law_member_model(pkg: Package, root: Seq<char>)
    ensures
        member_model(pkg, root).name == pkg.name@,
        member_model(pkg, root).is_bin <==> member_model(pkg, root).bins.len() > 0,
        forall|b: Seq<char>|
            #[trigger] member_model(pkg, root).bins.contains(b) <==> exists|t: int, k: int|
                0 <= t < pkg.targets.len() && 0 <= k < pkg.targets@[t].kind.len() && #[trigger] pkg.targets@[t].kind@[k]@
                    == "bin"@ && pkg.targets@[t].name@ == b,
        member_model(pkg, root).is_lib <==> exists|t: int, k: int|
            0 <= t < pkg.targets.len() && 0 <= k < pkg.targets@[t].kind.len() && {
                let kind = #[trigger] pkg.targets@[t].kind@[k]@;
                kind == "lib"@ || kind == "rlib"@ || kind == "dylib"@ || kind == "staticlib"@ || kind == "cdylib"@
                    || kind == "proc-macro"@
            },
{
    let ts = pkg.targets@;
    let m = member_model(pkg, root);
    assert forall|b: Seq<char>|
        #[trigger] m.bins.contains(b) <==> exists|t: int, k: int|
            0 <= t < pkg.targets.len() && 0 <= k < pkg.targets@[t].kind.len() && #[trigger] pkg.targets@[t].kind@[k]@ == "bin"@
                && pkg.targets@[t].name@ == b by {
        lemma_bin_names_contains(ts, b);
        if m.bins.contains(b) {
            let t = choose|t: int| 0 <= t < ts.len() && spec_is_bin_target(#[trigger] ts[t]) && ts[t].name@ == b;
            let k = choose|k: int| 0 <= k < ts[t].kind.len() && #[trigger] ts[t].kind@[k]@ == "bin"@;
            assert(pkg.targets@[t].name@ == b);
        }
        if exists|t: int, k: int|
            0 <= t < pkg.targets.len() && 0 <= k < pkg.targets@[t].kind.len() && #[trigger] pkg.targets@[t].kind@[k]@ == "bin"@
                && pkg.targets@[t].name@ == b {
            let (t, k) = choose|t: int, k: int|
                0 <= t < pkg.targets.len() && 0 <= k < pkg.targets@[t].kind.len() && #[trigger] pkg.targets@[t].kind@[k]@
                    == "bin"@ && pkg.targets@[t].name@ == b;
            assert(spec_is_bin_target(ts[t]));
        }
    }
    if m.is_bin {
        let t = choose|t: int| 0 <= t < ts.len() && spec_is_bin_target(#[trigger] ts[t]);
        lemma_bin_names_contains(ts, ts[t].name@);
    }
    if m.bins.len() > 0 {
        lemma_bin_names_contains(ts, m.bins[0]);
        assert(m.bins.contains(m.bins[0]));
        let t = choose|t: int| 0 <= t < ts.len() && spec_is_bin_target(#[trigger] ts[t]) && ts[t].name@ == m.bins[0];
    }
    if m.is_lib {
        let t = choose|t: int| 0 <= t < ts.len() && spec_is_lib_target(#[trigger] ts[t]);
        let k = choose|k: int| 0 <= k < ts[t].kind.len() && is_lib_kind(#[trigger] ts[t].kind@[k]@);
        assert(pkg.targets@[t].kind@[k]@ == ts[t].kind@[k]@);
    }
    if exists|t: int, k: int|
        0 <= t < pkg.targets.len() && 0 <= k < pkg.targets@[t].kind.len() && {
            let kind = #[trigger] pkg.targets@[t].kind@[k]@;
            kind == "lib"@ || kind == "rlib"@ || kind == "dylib"@ || kind == "staticlib"@ || kind == "cdylib"@
                || kind == "proc-macro"@
        } {
        let (t, k) = choose|t: int, k: int|
            0 <= t < pkg.targets.len() && 0 <= k < pkg.targets@[t].kind.len() && {
                let kind = #[trigger] pkg.targets@[t].kind@[k]@;
                kind == "lib"@ || kind == "rlib"@ || kind == "dylib"@ || kind == "staticlib"@ || kind == "cdylib"@
                    || kind == "proc-macro"@
            };
        assert(is_lib_kind(ts[t].kind@[k]@));
        assert(spec_is_lib_target(ts[t]));
    }
}

/// A binary is found in the workspace exactly when it is among the binaries
/// the workspace lists as available.
pub proof fn law_bin_found_iff_available(meta: Metadata, bin: Seq<char>)
    ensures
        bin_provider(meta, bin) is Some <==> bins_of_packages(member_packages(meta)).contains(bin),
{
    lemma_first_index(member_packages(meta), provides_bin(bin));
    lemma_bins_of_packages_contains(member_packages(meta), bin);
}

/// Looking up two lists of binaries together gives what looking each list
/// up gives, put together; by induction, looking up a list is the union of
/// looking up each of its binaries alone.
pub proof fn law_bin_lookup_is_union(meta: Metadata, bins1: Seq<Seq<char>>, bins2: Seq<Seq<char>>)
    ensures
        bin_package_map(meta, bins1 + bins2) == bin_package_map(meta, bins1).union_prefer_right(
            bin_package_map(meta, bins2),
        ),
{
    let all = bins1 + bins2;
    assert forall|b: Seq<char>| all.contains(b) <==> bins1.contains(b) || bins2.contains(b) by {
        if all.contains(b) {
            let i = choose|i: int| 0 <= i < all.len() && all[i] == b;
            if i >= bins1.len() {
                assert(bins2[i - bins1.len()] == b);
            }
        }
        if bins1.contains(b) {
            let i = choose|i: int| 0 <= i < bins1.len() && bins1[i] == b;
            assert(all[i] == b);
        }
        if bins2.contains(b) {
            let i = choose|i: int| 0 <= i < bins2.len() && bins2[i] == b;
            assert(all[bins1.len() + i] == b);
        }
    }
    assert(bin_package_map(meta, all) =~= bin_package_map(meta, bins1).union_prefer_right(
        bin_package_map(meta, bins2),
    ));
}

/// Looking up a single binary finds it exactly when it is among the
/// binaries the workspace lists, and finds nothing else.
pub proof fn law_single_bin_lookup(meta: Metadata, bin: Seq<char>)
    ensures
        bin_package_map(meta, seq![bin]).dom().contains(bin) <==> bins_of_packages(member_packages(meta)).contains(bin),
        bin_package_map(meta, seq![bin]).dom().subset_of(set![bin]),
{
    law_bin_found_iff_available(meta, bin);
    assert(seq![bin].contains(bin)) by {
        assert(seq![bin][0] == bin);
    }
}

proof fn lemma_keep_named_names(meta: Metadata, idx: Seq<int>, filter: Seq<Seq<char>>)
    ensures
        names_of(meta, keep_named(meta, idx, filter)).to_set() == names_of(meta, idx).to_set().intersect(filter.to_set()),
    decreases idx.len(),
{
    let kept = keep_named(meta, idx, filter);
    if idx.len() == 0 {
        assert(names_of(meta, kept).to_set() =~= Set::empty());
        assert(names_of(meta, idx).to_set() =~= Set::empty());
    } else {
        let rest = idx.drop_last();
        lemma_keep_named_names(meta, rest, filter);
        let rest_kept = keep_named(meta, rest, filter);
        let last = meta.packages@[idx.last()].name@;
        assert(names_of(meta, idx) =~= names_of(meta, rest).push(last));
        if filter.contains(last) {
            assert(names_of(meta, kept) =~= names_of(meta, rest_kept).push(last));
        }
        assert(names_of(meta, kept).to_set() =~= names_of(meta, idx).to_set().intersect(filter.to_set())) by {
            names_of(meta, rest).lemma_push_to_set_commute(last);
            if filter.contains(last) {
                names_of(meta, rest_kept).lemma_push_to_set_commute(last);
            }
        }
    }
}

/// Extracting with a non-empty list of package names selects exactly the
/// workspace members so named.
pub proof fn law_selected_members_are_requested(meta: Metadata, filter: Seq<Seq<char>>)
    requires
        filter.len() > 0,
    ensures
        names_of(meta, selected_members(meta, filter)).to_set() == member_names(meta).intersect(filter.to_set()),
{
    lemma_keep_named_names(meta, member_indices(meta), filter);
}

proof fn lemma_keep_named_twice(meta: Metadata, idx: Seq<int>, f1: Seq<Seq<char>>, f2: Seq<Seq<char>>)
    requires
        f1.to_set().subset_of(f2.to_set()),
    ensures
        keep_named(meta, idx, f1) == keep_named(meta, keep_named(meta, idx, f2), f1),
    decreases idx.len(),
{
    if idx.len() > 0 {
        let rest = idx.drop_last();
        lemma_keep_named_twice(meta, rest, f1, f2);
        let last = idx.last();
        let name = meta.packages@[last].name@;
        let kept2 = keep_named(meta, rest, f2);
        if f2.contains(name) {
            assert(kept2.push(last).drop_last() =~= kept2);
        } else {
            if f1.contains(name) {
                assert(f1.to_set().contains(name));
            }
        }
    }
}

proof fn lemma_keep_named_within(meta: Metadata, idx: Seq<int>, f: Seq<Seq<char>>)
    ensures
        forall|k: int| 0 <= k < keep_named(meta, idx, f).len() ==> idx.contains(#[trigger] keep_named(meta, idx, f)[k]),
    decreases idx.len(),
{
    if idx.len() > 0 {
        let rest = idx.drop_last();
        lemma_keep_named_within(meta, rest, f);
        let kept = keep_named(meta, idx, f);
        let kept_rest = keep_named(meta, rest, f);
        assert forall|k: int| 0 <= k < kept.len() implies idx.contains(#[trigger] kept[k]) by {
            if k < kept_rest.len() {
                assert(kept[k] == kept_rest[k]);
                let j = choose|j: int| 0 <= j < rest.len() && rest[j] == kept_rest[k];
                assert(idx[j] == rest[j]);
            } else {
                assert(kept[k] == idx[idx.len() - 1]);
            }
        }
    }
}

/// Extracting with a list of package names that holds every name of a
/// shorter, non-empty list: the shorter list's members are the longer list's
/// members that the shorter list names, in the same order, and its used
/// dependencies and resolved packages are among the longer list's.
pub proof fn law_extraction_monotone(meta: Metadata, f1: Seq<Seq<char>>, f2: Seq<Seq<char>>)
    requires
        f1.len() > 0,
        f1.to_set().subset_of(f2.to_set()),
    ensures
        selected_members(meta, f1) == keep_named(meta, selected_members(meta, f2), f1),
        used_dependency_set(meta, selected_members(meta, f1)).subset_of(
            used_dependency_set(meta, selected_members(meta, f2)),
        ),
        resolved_set(meta, selected_members(meta, f1)).subset_of(resolved_set(meta, selected_members(meta, f2))),
{
    assert(f1.to_set().contains(f1[0]));
    assert(f2.len() > 0);
    let sel1 = selected_members(meta, f1);
    let sel2 = selected_members(meta, f2);
    lemma_keep_named_twice(meta, member_indices(meta), f1, f2);
    lemma_keep_named_within(meta, sel2, f1);
    assert forall|d: Seq<char>| used_dependency_set(meta, sel1).contains(d) implies used_dependency_set(
        meta,
        sel2,
    ).contains(d) by {
        let (k, j) = choose|k: int, j: int|
            0 <= k < sel1.len() && 0 <= j < meta.packages@[sel1[k]].dependencies.len()
                && #[trigger] dep_name(meta, sel1[k], j) == d;
        assert(sel2.contains(sel1[k]));
        let k2 = choose|k2: int| 0 <= k2 < sel2.len() && sel2[k2] == sel1[k];
        assert(dep_name(meta, sel2[k2], j) == d);
    }
    if let Some(nodes) = meta.resolve {
        let edges = resolve_edges(nodes@);
        let roots1 = ids_of(meta, sel1).to_set();
        let roots2 = ids_of(meta, sel2).to_set();
        let big = reachable(edges, roots2);
        assert forall|id: u64| roots1.contains(id) implies big.contains(id) by {
            let k = choose|k: int| 0 <= k < ids_of(meta, sel1).len() && ids_of(meta, sel1)[k] == id;
            assert(sel2.contains(sel1[k]));
            let k2 = choose|k2: int| 0 <= k2 < sel2.len() && sel2[k2] == sel1[k];
            assert(ids_of(meta, sel2)[k2] == id);
            lemma_start_reachable(edges, roots2, id);
        }
        assert forall|x: u64| #[trigger] big.contains(x) implies edges(x).subset_of(big) by {
            assert forall|y: u64| edges(x).contains(y) implies big.contains(y) by {
                lemma_step_reachable(edges, roots2, x, y);
            }
        }
        lemma_closed_holds_reachable(edges, roots1, big);
        assert forall|rp: (Seq<char>, Seq<char>)| resolved_set(meta, sel1).contains(rp) implies resolved_set(
            meta,
            sel2,
        ).contains(rp) by {
            let id = choose|id: u64| #[trigger] reachable(edges, roots1).contains(id) && package_view_of(meta, id) == Some(rp);
            assert(big.contains(id));
        }
    }
}

/// The outside dependencies the planner keeps are never workspace members.
pub proof fn law_used_dependencies_are_outside(meta: Metadata, selected: Seq<int>)
    ensures
        used_dependency_set(meta, selected).disjoint(member_names(meta)),
{
}

/// Each selected package with a resolved graph is among the resolved
/// packages, by its own name and version, when it is the first package
/// with its id.
pub proof fn law_selected_packages_are_resolved(meta: Metadata, selected: Seq<int>, k: int)
    requires
        meta.resolve is Some,
        0 <= k < selected.len(),
        package_index(meta, meta.packages@[selected[k]].id) == Some(selected[k]),
    ensures
        resolved_set(meta, selected).contains(
            (meta.packages@[selected[k]].name@, meta.packages@[selected[k]].version@),
        ),
{
    let nodes = meta.resolve.unwrap();
    let id = meta.packages@[selected[k]].id;
    let roots = ids_of(meta, selected).to_set();
    assert(ids_of(meta, selected)[k] == id);
    assert(roots.contains(id));
    lemma_start_reachable(resolve_edges(nodes@), roots, id);
    assert(package_view_of(meta, id) == Some((meta.packages@[selected[k]].name@, meta.packages@[selected[k]].version@)));
}

proof fn lemma_bin_stub_entries(bins: Seq<Seq<char>>)
    ensures
        bin_stub_files(bins).len() == bins.len(),
        forall|i: int| 0 <= i < bins.len() ==> #[trigger] bin_stub_files(bins)[i] == ("src/bin/"@ + bins[i] + ".rs"@, MAIN_STUB@),
    decreases bins.len(),
{
    if bins.len() > 0 {
        lemma_bin_stub_entries(bins.drop_last());
        assert forall|i: int| 0 <= i < bins.len() implies #[trigger] bin_stub_files(bins)[i] == ("src/bin/"@ + bins[i] + ".rs"@, MAIN_STUB@) by {
            if i < bins.len() - 1 {
                assert(bin_stub_files(bins)[i] == bin_stub_files(bins.drop_last())[i]);
            }
        }
    }
}

/// The stub sources of a member: a library target always gets
/// `src/lib.rs`, whatever binaries the member has; a member with one binary
/// gets `src/main.rs`; a member with several gets one `src/bin/<name>.rs`
/// per binary, in order; a member with neither gets `src/lib.rs` alone. The
/// library stub holds a comment, every binary stub an empty `main`.
pub proof fn law_stub_sources(m: MemberView)
    ensures
        m.is_lib ==> stub_files(m)[0] == ("src/lib.rs"@, LIB_STUB@),
        m.is_lib ==> stub_files(m).contains(("src/lib.rs"@, LIB_STUB@)),
        m.is_bin && m.bins.len() <= 1 ==> stub_files(m).contains(("src/main.rs"@, MAIN_STUB@)),
        m.is_bin && m.bins.len() > 1 ==> forall|i: int|
            0 <= i < m.bins.len() ==> stub_files(m)[(if m.is_lib {
                1int
            } else {
                0int
            }) + i] == ("src/bin/"@ + #[trigger] m.bins[i] + ".rs"@, MAIN_STUB@),
        !m.is_bin && !m.is_lib ==> stub_files(m) == seq![("src/lib.rs"@, LIB_STUB@)],
        stub_files(m).len() == (if m.is_lib {
            1int
        } else {
            0int
        }) + (if m.is_bin {
            if m.bins.len() <= 1 {
                1int
            } else {
                m.bins.len() as int
            }
        } else {
            0int
        }) + (if !m.is_bin && !m.is_lib {
            1int
        } else {
            0int
        }),
{
    lemma_bin_stub_entries(m.bins);
    let f = stub_files(m);
    if m.is_lib {
        assert(f[0] == ("src/lib.rs"@, LIB_STUB@));
    }
    if m.is_bin && m.bins.len() <= 1 {
        let k: int = if m.is_lib { 1 } else { 0 };
        assert(f[k] == ("src/main.rs"@, MAIN_STUB@));
    }
    if m.is_bin && m.bins.len() > 1 {
        let k: int = if m.is_lib { 1 } else { 0 };
        assert forall|i: int| 0 <= i < m.bins.len() implies f[k + i] == ("src/bin/"@ + #[trigger] m.bins[i] + ".rs"@, MAIN_STUB@) by {
            assert(f[k + i] == bin_stub_files(m.bins)[i]);
        }
    }
    if !m.is_bin && !m.is_lib {
        assert(f =~= seq![("src/lib.rs"@, LIB_STUB@)]);
    }
}

/// The workspace dependencies the minimal workspace keeps are exactly the
/// outside dependencies the members use and the names of the members
/// themselves, so that members which refer to each other through the
/// workspace table still build.
pub proof fn law_kept_dependencies(ws: ExtractedWorkspace)
    ensures
        forall|i: int| 0 <= i < ws.members.len() ==> kept_dependencies(ws).contains(#[trigger] ws.members@[i].name@),
        forall|j: int|
            0 <= j < ws.used_dependencies.len() ==> kept_dependencies(ws).contains(#[trigger] ws.used_dependencies@[j]@),
        forall|x: Seq<char>| #[trigger] kept_dependencies(ws).contains(x) ==> (exists|i: int|
            0 <= i < ws.members.len() && ws.members@[i].name@ == x) || (exists|j: int|
            0 <= j < ws.used_dependencies.len() && ws.used_dependencies@[j]@ == x),
{
    let names = member_views(ws.members@).map_values(|m: MemberView| m.name);
    let used = views(ws.used_dependencies@);
    assert forall|i: int| 0 <= i < ws.members.len() implies kept_dependencies(ws).contains(#[trigger] ws.members@[i].name@) by {
        assert(names[i] == ws.members@[i].name@);
        assert(names.to_set().contains(names[i]));
    }
    assert forall|j: int| 0 <= j < ws.used_dependencies.len() implies kept_dependencies(ws).contains(
        #[trigger] ws.used_dependencies@[j]@,
    ) by {
        assert(used[j] == ws.used_dependencies@[j]@);
        assert(used.to_set().contains(used[j]));
    }
    assert forall|x: Seq<char>| #[trigger] kept_dependencies(ws).contains(x) implies (exists|i: int|
        0 <= i < ws.members.len() && ws.members@[i].name@ == x) || (exists|j: int|
        0 <= j < ws.used_dependencies.len() && ws.used_dependencies@[j]@ == x) by {
        if used.to_set().contains(x) {
            let j = choose|j: int| 0 <= j < used.len() && used[j] == x;
            assert(ws.used_dependencies@[j]@ == x);
        } else {
            assert(names.to_set().contains(x));
            let i = choose|i: int| 0 <= i < names.len() && names[i] == x;
            assert(ws.members@[i].name@ == x);
        }
    }
}

/// The minimal workspace lists the members in order, each under its own
/// directory with its own stub sources; each gets `src`, and `src/bin` too
/// exactly when it has several binaries.
pub proof fn law_plan_follows_members(ms: Seq<MemberView>)
    ensures
        member_paths(ms).len() == ms.len(),
        planned_members(ms).len() == ms.len(),
        forall|i: int|
            0 <= i < ms.len() ==> {
                &&& #[trigger] member_paths(ms)[i] == ms[i].path
                &&& planned_members(ms)[i].0 == ms[i].path
                &&& planned_members(ms)[i].2 == stub_files(ms[i])
                &&& planned_members(ms)[i].1.contains("src"@)
                &&& (planned_members(ms)[i].1.contains("src/bin"@) <==> ms[i].is_bin && ms[i].bins.len() > 1)
            },
{
    reveal_strlit("src");
    reveal_strlit("src/bin");
    assert forall|i: int| 0 <= i < ms.len() implies {
        &&& #[trigger] member_paths(ms)[i] == ms[i].path
        &&& planned_members(ms)[i].0 == ms[i].path
        &&& planned_members(ms)[i].2 == stub_files(ms[i])
        &&& planned_members(ms)[i].1.contains("src"@)
        &&& (planned_members(ms)[i].1.contains("src/bin"@) <==> ms[i].is_bin && ms[i].bins.len() > 1)
    } by {
        let d = stub_dirs(ms[i]);
        assert(planned_members(ms)[i].1 == d);
        assert(d[0] == "src"@);
        assert("src"@.len() == 3 && "src/bin"@.len() == 7);
        if ms[i].is_bin && ms[i].bins.len() > 1 {
            assert(d[1] == "src/bin"@);
        }
    }
}

/// Without a lock file the minimal workspace has none; without a resolved
/// graph the lock file is copied as it is; with one it is filtered down to
/// the resolved packages.
pub proof fn law_planned_lockfile(lock: Seq<u8>, ws: ExtractedWorkspace, resolved: bool)
    ensures
        planned_lockfile(None, ws, resolved) is None,
        planned_lockfile(Some(lock), ws, false) == Some(lock),
        planned_lockfile(Some(lock), ws, true) == Some(filtered_lockfile(lock, resolved_keys(ws.resolved_packages@))),
{
}

/// Every member of the minimal workspace gets at least one stub source, so
/// each has a target cargo can build.
pub proof fn law_every_stub_has_a_source(m: MemberView)
    ensures
        stub_files(m).len() >= 1,
{
    if m.is_bin && m.bins.len() > 1 {
        lemma_bin_stub_len(m.bins);
    }
}

proof fn lemma_bin_stub_len(bins: Seq<Seq<char>>)
    ensures
        crate::generator::bin_stub_files(bins).len() == bins.len(),
    decreases bins.len(),
{
    if bins.len() > 0 {
        lemma_bin_stub_len(bins.drop_last());
    }
}

} // verus!
