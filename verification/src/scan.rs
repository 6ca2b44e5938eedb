//! Turning a list of discovered file paths into artifact coordinates.
//!
//! The directory walk itself is I/O and lives with the caller; this
//! module holds the decisions: which file names are candidates, and
//! which candidates parse to a coordinate.

use vstd::prelude::*;

verus! {

use crate::dependency::Dependency;
use crate::dependency::DepModel;
use crate::dependency::parse_spec;
use crate::strutil::ends_with_exec;
use crate::strutil::is_suffix_of;

/// True when a file name names an artifact or a descriptor.
pub open spec fn is_candidate(name: Seq<char>) -> bool {
    is_suffix_of(".pom"@, name) || is_suffix_of(".jar"@, name)
}

/// The coordinates of the candidate paths that parse, in input order.
pub open spec fn scan_spec(
    paths: Seq<Seq<char>>,
    root: Seq<char>,
    ignored: Seq<Seq<char>>,
) -> Seq<DepModel>
    decreases paths.len(),
{
    if paths.len() == 0 {
        Seq::empty()
    } else {
        let rest = scan_spec(paths.drop_last(), root, ignored);
        if is_candidate(paths.last()) {
            match parse_spec(paths.last(), root, ignored) {
                Some(d) => rest.push(d),
                None => rest,
            }
        } else {
            rest
        }
    }
}

/// True when the file name ends in one of the two recognized suffixes.
pub fn is_dependency_file(name: &str) -> (b: bool)
    ensures
        b == is_candidate(name@),
{
    ends_with_exec(name, ".pom") || ends_with_exec(name, ".jar")
}

/// Derives the coordinates of every candidate file below `root`,
/// silently dropping snapshot versions, excluded groups and malformed
/// paths.
pub fn scan_paths(paths: &Vec<String>, root: &str, ignored_groups: &Vec<&str>) -> (deps: Vec<
    Dependency,
>)
    ensures
        deps.deep_view() == scan_spec(paths.deep_view(), root@, ignored_groups.deep_view()),
{
    let ghost all = paths.deep_view();
    let ghost ig = ignored_groups.deep_view();
    let n = paths.len();
    let mut deps: Vec<Dependency> = Vec::new();
    let mut i: usize = 0;
    proof {
        assert(all.subrange(0, 0) =~= Seq::<Seq<char>>::empty());
        assert(deps.deep_view() =~= scan_spec(all.subrange(0, 0), root@, ig));
    }
    while i < n
        invariant
            n == paths@.len(),
            all == paths.deep_view(),
            ig == ignored_groups.deep_view(),
            i <= n,
            deps.deep_view() == scan_spec(all.subrange(0, i as int), root@, ig),
        decreases n - i,
    {
        proof {
            assert(all.subrange(0, i + 1).drop_last() =~= all.subrange(0, i as int));
            assert(all.subrange(0, i + 1).last() == all[i as int]);
        }
        let p: &String = &paths[i];
        if is_dependency_file(p.as_str()) {
            let ghost before = deps.deep_view();
            match Dependency::parse(p.as_str(), root, ignored_groups) {
                Some(d) => {
                    deps.push(d);
                    proof {
                        assert(deps.deep_view() =~= before.push(d@));
                    }
                },
                None => {},
            }
        }
        i = i + 1;
    }
    proof {
        assert(all.subrange(0, n as int) =~= all);
    }
    deps
}

} // verus!
