//! The name of a library folder's lock.
use chibipop::lock::{fnv1a, name_for, refusal};

#[test]
fn the_hash_is_the_published_fnv1a_vector() {
    assert_eq!(0xcbf2_9ce4_8422_2325, fnv1a(""));
    assert_eq!(0xaf63_dc4c_8601_ec8c, fnv1a("a"));
    assert_eq!(0x85944171f73967e8, fnv1a("foobar"));
}

#[test]
fn two_library_folders_do_not_share_a_lock() {
    assert_ne!(name_for(r"C:\a\library"), name_for(r"C:\b\library"));
}

/// Paths are case-insensitive.
#[test]
fn the_same_folder_named_two_ways_is_one_lock() {
    assert_eq!(name_for(r"C:\A\Library"), name_for(r"c:\a\library"));
}

#[test]
fn a_name_is_short_enough_and_free_of_backslashes() {
    let name = name_for(r"C:\Users\Someone\a\very\long\install\path\library");
    assert!(name.len() < 260, "{name}");
    assert!(!name.contains('\\'), "{name}");
}

#[test]
fn a_lock_name_is_the_hash_of_the_folder_in_lower_case() {
    assert_eq!(name_for("C:\\Lib"), "chibipop-library-360d3fd5244378ab");
    assert_eq!(name_for("\u{ff23}:\\É"), "chibipop-library-709b6606e4dd2a70");
}

#[test]
fn a_second_apply_is_told_to_wait() {
    assert_eq!(
        refusal(),
        "another chibipop is changing your dictionaries - close it and try again"
    );
}
