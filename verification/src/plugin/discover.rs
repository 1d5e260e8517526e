//! Finds plugins under a root.
use crate::chars::strs;
use crate::library::{a_name_put_in_keeps_the_order, in_order, name_in, sort_in};
use vstd::prelude::*;

verus! {

/// A folder under the plugin root.
#[derive(Debug, PartialEq, Eq)]
pub struct Folder {
    pub name: String,
    /// Does it hold a `plugin.toml`?
    pub has_manifest: bool,
}

/// The names of the first `n` folders that are plugins, sorted.
pub open spec fn plugins_upto(folders: Seq<Folder>, n: int) -> Seq<Seq<char>>
    decreases n,
{
    if n <= 0 {
        seq![]
    } else if folders[n - 1].has_manifest {
        name_in(plugins_upto(folders, n - 1), folders[n - 1].name@)
    } else {
        plugins_upto(folders, n - 1)
    }
}

/// The folders that are plugins, sorted, because a directory has no order. One
/// without a manifest is none.
pub fn discover(folders: &Vec<Folder>) -> (r: Vec<String>)
    ensures
        strs(r@) == plugins_upto(folders@, folders@.len() as int),
{
    let mut out: Vec<String> = Vec::new();
    assert(strs(out@) =~= seq![]);
    let mut i: usize = 0;
    while i < folders.len()
        invariant
            i <= folders@.len(),
            strs(out@) == plugins_upto(folders@, i as int),
        decreases folders@.len() - i,
    {
        if folders[i].has_manifest {
            sort_in(&mut out, &folders[i].name);
        }
        i += 1;
    }
    out
}

/// Plugins are found in an order of their own.
pub proof fn plugins_are_in_order(folders: Seq<Folder>, n: int)
    requires
        0 <= n <= folders.len(),
    ensures
        in_order(plugins_upto(folders, n)),
    decreases n,
{
    if n > 0 {
        plugins_are_in_order(folders, n - 1);
        a_name_put_in_keeps_the_order(plugins_upto(folders, n - 1), folders[n - 1].name@);
    }
}

/// A folder is a plugin exactly where it holds a manifest.
pub proof fn a_folder_with_a_manifest_is_a_plugin(folders: Seq<Folder>, n: int, name: Seq<char>)
    requires
        0 <= n <= folders.len(),
    ensures
        plugins_upto(folders, n).contains(name) <==> exists|i: int|
            0 <= i < n && (#[trigger] folders[i]).has_manifest && folders[i].name@ == name,
    decreases n,
{
    if n > 0 {
        a_folder_with_a_manifest_is_a_plugin(folders, n - 1, name);
        crate::library::a_name_put_in_is_there(
            plugins_upto(folders, n - 1),
            folders[n - 1].name@,
            name,
        );
    }
}

} // verus!
