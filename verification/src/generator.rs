use vstd::prelude::*;

use crate::lockfile::{filter_lockfile, filtered_lockfile, resolved_keys};
use crate::manifest::{rewrite_workspace_manifest, rewritten_manifest, ManifestError};
use crate::metadata::{member_views, ExtractedWorkspace, MemberView, Metadata, WorkspaceMember};
use crate::strings::{clone_strings, views};

verus! {

/// Directory the minimal workspace is written to unless another is given.
pub const DEFAULT_CACHE_DIR: &'static str = ".workspace-cache";

/// Source of a stub library target.
pub const LIB_STUB: &'static str = "// stub\n";

/// Source of a stub binary target.
pub const MAIN_STUB: &'static str = "fn main() {}\n";

/// A file of a member's stub sources, its path relative to the member
/// directory.
pub struct StubFile {
    pub path: String,
    pub contents: String,
}

/// What to create in a member's directory of the minimal workspace:
/// directories, then files, all relative to the member directory.
pub struct MemberStub {
    pub dirs: Vec<String>,
    pub files: Vec<StubFile>,
}

pub open spec fn file_views(s: Seq<StubFile>) -> Seq<(Seq<char>, Seq<char>)> {
    s.map_values(|f: StubFile| (f.path@, f.contents@))
}

/// Stub sources for one binary of a member with several.
pub open spec fn bin_stub_files(bins: Seq<Seq<char>>) -> Seq<(Seq<char>, Seq<char>)>
    decreases bins.len(),
{
    if bins.len() == 0 {
        seq![]
    } else {
        bin_stub_files(bins.drop_last()).push(("src/bin/"@ + bins.last() + ".rs"@, MAIN_STUB@))
    }
}

/// The stub sources of a member: a library stub for a library, a single
/// `main.rs` for a binary with at most one binary target, one file per binary
/// under `src/bin` otherwise, and a library stub when the member has neither.
pub open spec fn stub_files(m: MemberView) -> Seq<(Seq<char>, Seq<char>)> {
    (if m.is_lib {
        seq![("src/lib.rs"@, LIB_STUB@)]
    } else {
        seq![]
    }) + (if m.is_bin {
        if m.bins.len() <= 1 {
            seq![("src/main.rs"@, MAIN_STUB@)]
        } else {
            bin_stub_files(m.bins)
        }
    } else {
        seq![]
    }) + (if !m.is_bin && !m.is_lib {
        seq![("src/lib.rs"@, LIB_STUB@)]
    } else {
        seq![]
    })
}

/// Directories a member's stub needs: `src`, and `src/bin` for a member
/// with several binaries.
pub open spec fn stub_dirs(m: MemberView) -> Seq<Seq<char>> {
    if m.is_bin && m.bins.len() > 1 {
        seq!["src"@, "src/bin"@]
    } else {
        seq!["src"@]
    }
}

fn stub_file(path: String, contents: &str) -> (f: StubFile)
    ensures
        f.path@ == path@,
        f.contents@ == contents@,
{
    StubFile { path, contents: contents.to_owned() }
}

/// Plans the stub sources of a member of the minimal workspace.
pub fn generate_member_stub(member: &WorkspaceMember) -> (stub: MemberStub)
    ensures
        views(stub.dirs@) == stub_dirs(member@),
        file_views(stub.files@) == stub_files(member@),
{
    let mut dirs: Vec<String> = Vec::new();
    dirs.push("src".to_owned());
    let mut files: Vec<StubFile> = Vec::new();
    let ghost m = member@;
    if member.is_lib {
        files.push(stub_file("src/lib.rs".to_owned(), LIB_STUB));
    }
    let ghost after_lib = file_views(files@);
    assert(after_lib =~= if m.is_lib { seq![("src/lib.rs"@, LIB_STUB@)] } else { seq![] });
    if member.is_bin {
        if member.bins.len() <= 1 {
            files.push(stub_file("src/main.rs".to_owned(), MAIN_STUB));
            assert(file_views(files@) =~= after_lib + seq![("src/main.rs"@, MAIN_STUB@)]);
        } else {
            dirs.push("src/bin".to_owned());
            let mut i: usize = 0;
            while i < member.bins.len()
                invariant
                    i <= member.bins.len(),
                    m == member@,
                    file_views(files@) == after_lib + bin_stub_files(m.bins.take(i as int)),
                decreases member.bins.len() - i,
            {
                let ghost before = file_views(files@);
                let mut path = "src/bin/".to_owned();
                path.append(member.bins[i].as_str());
                path.append(".rs");
                files.push(stub_file(path, MAIN_STUB));
                proof {
                    let prev = m.bins.take(i as int);
                    let next = m.bins.take(i + 1);
                    assert(next.drop_last() =~= prev);
                    assert(next.last() == member.bins@[i as int]@);
                    assert(file_views(files@) =~= before.push(("src/bin/"@ + next.last() + ".rs"@, MAIN_STUB@)));
                    assert(file_views(files@) =~= after_lib + bin_stub_files(next));
                }
                i += 1;
            }
            assert(m.bins.take(member.bins.len() as int) =~= m.bins);
        }
    } else {
        assert(file_views(files@) =~= after_lib + seq![]);
    }
    let ghost after_bin = file_views(files@);
    if !member.is_bin && !member.is_lib {
        files.push(stub_file("src/lib.rs".to_owned(), LIB_STUB));
        assert(file_views(files@) =~= after_bin + seq![("src/lib.rs"@, LIB_STUB@)]);
    } else {
        assert(file_views(files@) =~= after_bin + seq![]);
    }
    assert(views(dirs@) =~= stub_dirs(m));
    MemberStub { dirs, files }
}

/// The directory the minimal workspace is written to.
pub fn cache_dir(output: &Option<String>) -> (dir: String)
    ensures
        dir@ == match output {
            Some(o) => o@,
            None => DEFAULT_CACHE_DIR@,
        },
{
    match output {
        Some(o) => o.clone(),
        None => DEFAULT_CACHE_DIR.to_owned(),
    }
}


/// A member of the minimal workspace: its directory and its stub sources.
pub struct MemberPlan {
    pub path: String,
    pub stub: MemberStub,
}

/// Everything the minimal workspace is made of, apart from the member
/// manifests, which are copied as they are.
pub struct WorkspacePlan {
    pub manifest: String,
    pub lockfile: Option<Vec<u8>>,
    pub members: Vec<MemberPlan>,
}

/// Directories of the members, in order.
pub open spec fn member_paths(ms: Seq<MemberView>) -> Seq<Seq<char>> {
    ms.map_values(|m: MemberView| m.path)
}

/// Workspace dependencies the minimal workspace keeps: those the members use
/// and those that name a member.
pub open spec fn kept_dependencies(ws: ExtractedWorkspace) -> Set<Seq<char>> {
    views(ws.used_dependencies@).to_set() + member_views(ws.members@).map_values(|m: MemberView| m.name).to_set()
}

/// The lock file of the minimal workspace: the original one, with only the
/// resolved packages when the dependency graph was resolved.
pub open spec fn planned_lockfile(lock: Option<Seq<u8>>, ws: ExtractedWorkspace, resolved: bool) -> Option<Seq<u8>> {
    match lock {
        None => None,
        Some(t) => if resolved {
            Some(filtered_lockfile(t, resolved_keys(ws.resolved_packages@)))
        } else {
            Some(t)
        },
    }
}

pub open spec fn plan_member_views(ps: Seq<MemberPlan>) -> Seq<(Seq<char>, Seq<Seq<char>>, Seq<(Seq<char>, Seq<char>)>)> {
    ps.map_values(|p: MemberPlan| (p.path@, views(p.stub.dirs@), file_views(p.stub.files@)))
}

pub open spec fn planned_members(ms: Seq<MemberView>) -> Seq<(Seq<char>, Seq<Seq<char>>, Seq<(Seq<char>, Seq<char>)>)> {
    ms.map_values(|m: MemberView| (m.path, stub_dirs(m), stub_files(m)))
}

/// Plans the minimal workspace for the extracted members from the workspace
/// manifest and, when there is one, the lock file.
pub fn generate_minimal_workspace(
    meta: &Metadata,
    ws: &ExtractedWorkspace,
    manifest: &String,
    lockfile: Option<Vec<u8>>,
) -> (res: Result<WorkspacePlan, ManifestError>)
    ensures
        match res {
            Ok(plan) => {
                &&& rewritten_manifest(
                    manifest@,
                    member_paths(member_views(ws.members@)),
                    kept_dependencies(*ws),
                ) == Some(plan.manifest@)
                &&& match plan.lockfile {
                    Some(l) => planned_lockfile(match lockfile {
                        Some(t) => Some(t@),
                        None => None,
                    }, *ws, meta.resolve is Some) == Some(l@),
                    None => lockfile is None,
                }
                &&& plan_member_views(plan.members@) == planned_members(member_views(ws.members@))
            },
            Err(_) => rewritten_manifest(
                manifest@,
                member_paths(member_views(ws.members@)),
                kept_dependencies(*ws),
            ) is None,
        },
{
    let ghost mv = member_views(ws.members@);
    let mut paths: Vec<String> = Vec::new();
    let mut names: Vec<String> = Vec::new();
    let mut members: Vec<MemberPlan> = Vec::new();
    let mut i: usize = 0;
    while i < ws.members.len()
        invariant
            i <= ws.members.len(),
            mv == member_views(ws.members@),
            views(paths@) == member_paths(mv.take(i as int)),
            views(names@) == mv.take(i as int).map_values(|m: MemberView| m.name),
            plan_member_views(members@) == planned_members(mv.take(i as int)),
        decreases ws.members.len() - i,
    {
        let m = &ws.members[i];
        assert(mv[i as int] == m@);
        let ghost p0 = views(paths@);
        let ghost n0 = views(names@);
        let ghost m0 = plan_member_views(members@);
        paths.push(m.path.clone());
        names.push(m.name.clone());
        let stub = generate_member_stub(m);
        members.push(MemberPlan { path: m.path.clone(), stub });
        proof {
            let next = mv.take(i + 1);
            let prev = mv.take(i as int);
            assert(next =~= prev.push(m@));
            assert(views(paths@) =~= p0.push(m@.path));
            assert(member_paths(next) =~= member_paths(prev).push(m@.path));
            assert(views(names@) =~= n0.push(m@.name));
            assert(next.map_values(|v: MemberView| v.name) =~= prev.map_values(|v: MemberView| v.name).push(m@.name));
            assert(plan_member_views(members@) =~= m0.push((m@.path, stub_dirs(m@), stub_files(m@))));
            assert(planned_members(next) =~= planned_members(prev).push((m@.path, stub_dirs(m@), stub_files(m@))));
        }
        i += 1;
    }
    assert(mv.take(ws.members.len() as int) =~= mv);
    let mut keep = clone_strings(&ws.used_dependencies);
    let ghost used = views(keep@);
    let mut k: usize = 0;
    while k < names.len()
        invariant
            k <= names.len(),
            views(keep@) == used + views(names@).take(k as int),
        decreases names.len() - k,
    {
        let ghost before = keep@;
        let name = names[k].clone();
        keep.push(name);
        proof {
            assert(keep@ == before.push(name));
            assert(views(keep@) =~= views(before).push(name@));
            assert(views(names@)[k as int] == name@);
            assert(views(names@).take(k + 1) =~= views(names@).take(k as int).push(name@));
            assert(views(keep@) =~= used + views(names@).take(k + 1));
        }
        k += 1;
    }
    proof {
        assert(views(names@).take(names.len() as int) =~= views(names@));
        let target = kept_dependencies(*ws);
        assert forall|x: Seq<char>| views(keep@).to_set().contains(x) <==> target.contains(x) by {
            let all = used + views(names@);
            if all.contains(x) {
                let t = choose|t: int| 0 <= t < all.len() && all[t] == x;
                if t < used.len() {
                    assert(used[t] == x);
                    assert(used.to_set().contains(x));
                } else {
                    assert(views(names@)[t - used.len()] == x);
                }
            }
            if used.contains(x) {
                let t = choose|t: int| 0 <= t < used.len() && used[t] == x;
                assert(all[t] == x);
            }
            if views(names@).contains(x) {
                let t = choose|t: int| 0 <= t < views(names@).len() && views(names@)[t] == x;
                assert(all[used.len() + t] == x);
            }
        }
        assert(views(keep@).to_set() =~= target);
    }
    let manifest_text = match rewrite_workspace_manifest(manifest, &paths, &keep) {
        Ok(t) => t,
        Err(e) => {
            return Err(e);
        },
    };
    let lock = match lockfile {
        None => None,
        Some(t) => if meta.resolve.is_some() {
            Some(filter_lockfile(&t, &ws.resolved_packages))
        } else {
            Some(t)
        },
    };
    Ok(WorkspacePlan { manifest: manifest_text, lockfile: lock, members })
}

} // verus!
