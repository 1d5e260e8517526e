//! Where chibipop's files are.
use chibipop::paths::{beside_exe, cargo_root, data_file};

fn parts(path: &str) -> Vec<String> {
    path.split('/').map(str::to_string).collect()
}

#[test]
fn a_relative_name_lands_beside_the_executable() {
    let exe_dir = parts("C:/x/bin");
    let got = beside_exe(Some(&exe_dir), &parts("data/chibipop.sqlite"));
    assert_eq!(parts("C:/x/bin/data/chibipop.sqlite"), got);
}

#[test]
fn a_bare_name_lands_directly_beside_it() {
    let exe_dir = parts("C:/x/bin");
    assert_eq!(parts("C:/x/bin/chibipop.toml"), beside_exe(Some(&exe_dir), &parts("chibipop.toml")));
    assert_eq!(parts("chibipop.toml"), beside_exe(None, &parts("chibipop.toml")));
}

/// The current working directory must not determine this path.
#[test]
fn a_data_file_that_exists_nowhere_is_still_an_absolute_path() {
    let name = parts("definitely-not-a-real-chibipop-file.sqlite");
    let got = data_file(Some(&parts("C:/x/bin")), &name, false);
    assert_eq!(parts("C:/x/bin/definitely-not-a-real-chibipop-file.sqlite"), got);
    assert_ne!(name, got);
    let dev = data_file(Some(&parts("C:/x/chibipop/target/debug")), &name, false);
    assert_eq!(parts("C:/x/chibipop/definitely-not-a-real-chibipop-file.sqlite"), dev);
}

#[test]
fn a_cargo_target_layout_resolves_to_the_repo_root() {
    assert_eq!(
        Some(parts("C:/x/chibipop")),
        cargo_root(&parts("C:/x/chibipop/target/release"))
    );
    assert_eq!(
        Some(parts("C:/x/chibipop")),
        cargo_root(&parts("C:/x/chibipop/target/debug"))
    );
}

/// A shipped layout must not traverse a parent directory.
#[test]
fn anything_but_a_cargo_target_layout_declines() {
    // The shipped case puts the executable and data in one folder without
    // `target/` above it.
    assert_eq!(None, cargo_root(&parts("C:/Users/You/Downloads/chibipop")));
    // The profile name is correct, but the parent directory is not.
    assert_eq!(None, cargo_root(&parts("C:/x/notarget/release")));
    // The parent directory is correct, but the profile name is not.
    assert_eq!(None, cargo_root(&parts("C:/x/target/staging")));
}

#[test]
fn a_data_file_beside_the_exe_wins_over_the_cwd() {
    let name = parts("chibipop-paths-marker.tmp");
    let exe_dir = parts("C:/x/chibipop/target/debug");
    assert_eq!(beside_exe(Some(&exe_dir), &name), data_file(Some(&exe_dir), &name, true));
}
