//! File paths that chibipop owns.
//!
//! A path is the list of its components.
use crate::chars::{copy_list, same_str, strs};
use vstd::prelude::*;

verus! {

/// A path below another.
pub open spec fn below(dir: Seq<Seq<char>>, relative: Seq<Seq<char>>) -> Seq<Seq<char>> {
    dir + relative
}

/// The repository root above `target/`, where a path has that layout.
///
/// Only `<root>/target/debug` and `<root>/target/release` do.
pub open spec fn root_of(exe_dir: Seq<Seq<char>>) -> Option<Seq<Seq<char>>> {
    let n = exe_dir.len();
    if n >= 2 && (exe_dir[n - 1] == "debug"@ || exe_dir[n - 1] == "release"@) && exe_dir[n - 2]
        == "target"@ {
        Some(exe_dir.take(n - 2))
    } else {
        None
    }
}

fn joined_path(dir: &Vec<String>, relative: &Vec<String>) -> (r: Vec<String>)
    ensures
        strs(r@) == below(strs(dir@), strs(relative@)),
{
    let mut out = copy_list(dir);
    let ghost base = strs(dir@);
    let ghost rel = strs(relative@);
    assert(base + rel.take(0) =~= base);
    let mut i: usize = 0;
    while i < relative.len()
        invariant
            i <= relative@.len(),
            rel == strs(relative@),
            strs(out@) == base + rel.take(i as int),
        decreases relative@.len() - i,
    {
        let ghost before = strs(out@);
        out.push(relative[i].clone());
        assert(strs(out@) =~= before.push(rel[i as int]));
        assert(base + rel.take(i + 1) =~= (base + rel.take(i as int)).push(rel[i as int]));
        i += 1;
    }
    assert(rel.take(i as int) =~= rel);
    out
}

/// Return a path beside the executable, or the path as it is where the
/// executable's folder is not known.
pub fn beside_exe(exe_dir: Option<&Vec<String>>, relative: &Vec<String>) -> (r: Vec<String>)
    ensures
        strs(r@) == (match exe_dir {
            Some(dir) => below(strs(dir@), strs(relative@)),
            None => strs(relative@),
        }),
{
    match exe_dir {
        Some(dir) => joined_path(dir, relative),
        None => copy_list(relative),
    }
}

/// Return the repository root above `target/`.
///
/// A shipped chibipop has no such layout, so it never climbs to an unrelated
/// `data` folder.
pub fn cargo_root(exe_dir: &Vec<String>) -> (r: Option<Vec<String>>)
    ensures
        root_of(strs(exe_dir@)) == (match r {
            Some(v) => Some(strs(v@)),
            None => None,
        }),
{
    let n = exe_dir.len();
    let ghost parts = strs(exe_dir@);
    if n < 2 {
        return None;
    }
    let profile = exe_dir[n - 1].as_str();
    assert(parts[n - 1] == profile@);
    if !same_str(profile, "debug") && !same_str(profile, "release") {
        return None;
    }
    assert(parts[n - 2] == exe_dir@[n - 2]@);
    if !same_str(exe_dir[n - 2].as_str(), "target") {
        return None;
    }
    let mut out: Vec<String> = Vec::new();
    let mut i: usize = 0;
    assert(strs(out@) =~= parts.take(0));
    while i < n - 2
        invariant
            i <= n - 2,
            n == exe_dir@.len(),
            n >= 2,
            parts == strs(exe_dir@),
            strs(out@) == parts.take(i as int),
        decreases n - i,
    {
        let ghost before = strs(out@);
        out.push(exe_dir[i].clone());
        assert(strs(out@) =~= before.push(parts[i as int]));
        assert(parts.take(i + 1) =~= parts.take(i as int).push(parts[i as int]));
        i += 1;
    }
    Some(out)
}

/// Return the path beside the executable where it exists, or else at the
/// Cargo root.
///
/// The working directory plays no part.
pub fn data_file(
    exe_dir: Option<&Vec<String>>,
    relative: &Vec<String>,
    beside_exists: bool,
) -> (r: Vec<String>)
    ensures
        strs(r@) == (match exe_dir {
            None => strs(relative@),
            Some(dir) => match root_of(strs(dir@)) {
                Some(root) => if beside_exists {
                    below(strs(dir@), strs(relative@))
                } else {
                    below(root, strs(relative@))
                },
                None => below(strs(dir@), strs(relative@)),
            },
        }),
{
    let beside = beside_exe(exe_dir, relative);
    if beside_exists {
        return beside;
    }
    match exe_dir {
        Some(dir) => match cargo_root(dir) {
            Some(root) => joined_path(&root, relative),
            None => beside,
        },
        None => beside,
    }
}

/// A build tree's root is what stands above `target/debug` or
/// `target/release`, and no other folder has one.
pub proof fn a_root_stands_above_target(root: Seq<Seq<char>>, exe_dir: Seq<Seq<char>>)
    ensures
        root_of(root + seq!["target"@, "debug"@]) == Some(root),
        root_of(root + seq!["target"@, "release"@]) == Some(root),
        root_of(exe_dir) matches Some(r) ==> exe_dir == r + seq!["target"@, "debug"@] || exe_dir == r
            + seq!["target"@, "release"@],
{
    let d = root + seq!["target"@, "debug"@];
    let e = root + seq!["target"@, "release"@];
    assert(d.take(d.len() - 2) =~= root);
    assert(e.take(e.len() - 2) =~= root);
    if let Some(r) = root_of(exe_dir) {
        let n = exe_dir.len() as int;
        if exe_dir[n - 1] == "debug"@ {
            assert(exe_dir =~= r + seq!["target"@, "debug"@]);
        } else {
            assert(exe_dir =~= r + seq!["target"@, "release"@]);
        }
    }
}

} // verus!
