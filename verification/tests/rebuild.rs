//! What a person hears of a rebuild.
use chibipop::rebuild::{
    archive_count, failure, finished, format_thousands, friendly, last_line, refusal, staging_path,
    tmp_path, Progress,
};

#[test]
fn the_temp_name_sits_beside_the_output() {
    let tmp = tmp_path(r"C:\a\data\chibipop.sqlite");
    assert_eq!(r"C:\a\data\chibipop.sqlite.tmp", tmp);
}

#[test]
fn the_staging_file_sits_beside_the_output() {
    let staged = staging_path(r"C:\a\data\chibipop.sqlite");
    assert_eq!(r"C:\a\data\chibipop.sqlite.new", staged);
}

#[test]
fn a_staged_build_does_not_share_the_live_temp_name() {
    let out = r"C:\a\data\chibipop.sqlite";
    assert_ne!(tmp_path(out), tmp_path(&staging_path(out)));
}

#[test]
fn an_archive_line_is_rendered_without_its_index() {
    assert_eq!(
        Some("Reading 01 [JA-EN] jitendex.zip…".to_string()),
        friendly("term dict  [0] 01 [JA-EN] jitendex.zip")
    );
    assert_eq!(
        Some("Reading [JA Freq] jiten_freq.zip…".to_string()),
        friendly("freq dict      [JA Freq] jiten_freq.zip")
    );
    assert_eq!(
        Some("Reading b.zip…".to_string()),
        friendly("term dict  [10] b.zip")
    );
}

#[test]
fn a_progress_line_is_formatted_with_commas() {
    assert_eq!(
        Some("12,500 of 768,636 entries…".to_string()),
        friendly("progress  12500 / 768636")
    );
}

#[test]
fn a_small_progress_has_no_commas() {
    assert_eq!(
        Some("500 of 3,000 entries…".to_string()),
        friendly("progress  500 / 3000")
    );
}

#[test]
fn a_building_line_is_passed_through() {
    assert_eq!(
        Some("Creating search index…".to_string()),
        friendly("building  creating index")
    );
}

/// Not for the user.
#[test]
fn the_builders_final_line_is_swallowed() {
    assert_eq!(
        None,
        friendly(r"wrote C:\Users\x\data\chibipop.sqlite.tmp: 3 entries, 5 term rows")
    );
    assert_eq!(None, friendly("term dict  [0] "));
    assert_eq!(None, friendly(""));
}

#[test]
fn the_innermost_cause_is_what_gets_reported() {
    let stderr = "Error: opening x\n\nCaused by:\n    invalid Zip archive\n";
    assert_eq!(": invalid Zip archive", last_line(stderr));
    assert_eq!("", last_line("   \n\n"));
}

fn names(list: &[&str]) -> Vec<String> {
    list.iter().map(|n| n.to_string()).collect()
}

#[test]
fn a_folder_without_archives_is_refused() {
    let listing = names(&["library.json", "a.ZIP", "zip", "b.zip", "c.zip.tmp"]);
    assert_eq!(archive_count(&listing), 2);
    assert_eq!(refusal("C:\\lib", &listing), None);
    assert_eq!(
        refusal("C:\\lib", &names(&["notes.txt"])),
        Some("C:\\lib holds no dictionary archives".to_string())
    );
}

#[test]
fn a_failed_build_reports_how_it_ended_and_why() {
    assert_eq!(
        failure("exit code: 1", "Error: a\n  Caused by: b  \n\n"),
        "the builder failed (exit code: 1): Caused by: b"
    );
    assert_eq!(failure("exit code: 1", " \n"), "the builder failed (exit code: 1)");
    assert_eq!(finished(Ok("out".to_string())), Progress::Done("out".to_string()));
    assert_eq!(finished(Err("no".to_string())), Progress::Failed("no".to_string()));
}

#[test]
fn thousands_are_parted_by_commas() {
    for (n, text) in [
        (0, "0"),
        (7, "7"),
        (999, "999"),
        (1_000, "1,000"),
        (1_002_003, "1,002,003"),
        (u64::MAX, "18,446,744,073,709,551,615"),
    ] {
        assert_eq!(format_thousands(n).into_iter().collect::<String>(), text);
    }
}

#[test]
fn a_progress_line_without_two_numbers_is_swallowed() {
    assert_eq!(friendly("progress  12"), None);
    assert_eq!(friendly("progress  a / 3"), None);
    assert_eq!(friendly("progress  -1 / 3"), None);
    assert_eq!(friendly("term dict  [x] b.zip"), Some("Reading [x] b.zip…".to_string()));
}
