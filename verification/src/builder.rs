use vstd::prelude::*;

use crate::strings::views;

verus! {

/// `--bin <name>` for each requested binary, in order.
pub open spec fn bin_flags(bins: Seq<Seq<char>>) -> Seq<Seq<char>>
    decreases bins.len(),
{
    if bins.len() == 0 {
        seq![]
    } else {
        bin_flags(bins.drop_last()) + seq!["--bin"@, bins.last()]
    }
}

/// Arguments of the `cargo` invocation that builds the workspace: the whole
/// workspace when no binary is requested, else each requested binary, and
/// release mode when asked for.
pub open spec fn build_args_spec(release: bool, bins: Seq<Seq<char>>) -> Seq<Seq<char>> {
    seq!["build"@] + (if bins.len() == 0 {
        seq!["--workspace"@]
    } else {
        bin_flags(bins)
    }) + (if release {
        seq!["--release"@]
    } else {
        seq![]
    })
}

/// The arguments to hand to `cargo` to build the workspace.
pub fn cargo_build_args(release: bool, bins: &Vec<String>) -> (args: Vec<String>)
    ensures
        views(args@) == build_args_spec(release, views(bins@)),
{
    let mut args: Vec<String> = Vec::new();
    args.push("build".to_owned());
    if bins.len() == 0 {
        args.push("--workspace".to_owned());
    } else {
        let mut i: usize = 0;
        while i < bins.len()
            invariant
                i <= bins.len(),
                views(args@) == seq!["build"@] + bin_flags(views(bins@).take(i as int)),
            decreases bins.len() - i,
        {
            let ghost before = views(args@);
            args.push("--bin".to_owned());
            args.push(bins[i].clone());
            proof {
                let prev = views(bins@).take(i as int);
                let next = views(bins@).take(i + 1);
                assert(next.drop_last() =~= prev);
                assert(next.last() == bins@[i as int]@);
                assert(views(args@) =~= before + seq!["--bin"@, bins@[i as int]@]);
                assert(views(args@) =~= seq!["build"@] + bin_flags(next));
            }
            i += 1;
        }
        assert(views(bins@).take(bins.len() as int) =~= views(bins@));
    }
    let ghost before = views(args@);
    if release {
        args.push("--release".to_owned());
        assert(views(args@) =~= before + seq!["--release"@]);
    } else {
        assert(before + seq![] =~= before);
    }
    args
}

/// `bin_flags` puts `--bin` before each binary, in order.
pub proof fn lemma_bin_flags_index(bins: Seq<Seq<char>>)
    ensures
        bin_flags(bins).len() == 2 * bins.len(),
        forall|j: int| 0 <= j < bins.len() ==> #[trigger] bin_flags(bins)[2 * j] == "--bin"@ && bin_flags(bins)[2 * j
            + 1] == bins[j],
    decreases bins.len(),
{
    if bins.len() > 0 {
        let rest = bins.drop_last();
        lemma_bin_flags_index(rest);
        let f = bin_flags(bins);
        assert forall|j: int| 0 <= j < bins.len() implies #[trigger] f[2 * j] == "--bin"@ && f[2 * j + 1] == bins[j] by {
            if j < rest.len() {
                assert(f[2 * j] == bin_flags(rest)[2 * j]);
                assert(f[2 * j + 1] == bin_flags(rest)[2 * j + 1]);
            }
        }
    }
}

/// The build arguments start with `build`; with no binary requested they
/// build the whole workspace, and otherwise they hold `--bin b` for each
/// requested binary `b`, in order and nothing else; `--release` comes last
/// exactly in release mode, and release mode changes nothing else.
pub proof fn law_build_args(release: bool, bins: Seq<Seq<char>>)
    ensures
        build_args_spec(release, bins)[0] == "build"@,
        bins.len() == 0 ==> build_args_spec(release, bins)[1] == "--workspace"@,
        build_args_spec(release, bins).len() == 1 + (if bins.len() == 0 {
            1
        } else {
            2 * bins.len()
        }) + (if release {
            1int
        } else {
            0int
        }),
        forall|j: int|
            0 <= j < bins.len() ==> #[trigger] build_args_spec(release, bins)[1 + 2 * j] == "--bin"@
                && build_args_spec(release, bins)[2 + 2 * j] == bins[j],
        release ==> build_args_spec(release, bins).last() == "--release"@,
        build_args_spec(true, bins) == build_args_spec(false, bins).push("--release"@),
{
    lemma_bin_flags_index(bins);
    let a = build_args_spec(release, bins);
    let mid = if bins.len() == 0 {
        seq!["--workspace"@]
    } else {
        bin_flags(bins)
    };
    assert forall|j: int| 0 <= j < bins.len() implies #[trigger] a[1 + 2 * j] == "--bin"@ && a[2 + 2 * j] == bins[j] by {
        assert(a[1 + 2 * j] == mid[2 * j]);
        assert(a[2 + 2 * j] == mid[2 * j + 1]);
    }
    assert(build_args_spec(true, bins) =~= build_args_spec(false, bins).push("--release"@));
}

} // verus!
