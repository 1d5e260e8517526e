//! The archive library.
use chibipop::library::{
    is_contested, roles_of, title_of, DiskFile, Entry, Library, Pending, Role, Roles,
};
use std::collections::BTreeMap;

/// What each fixture archive holds, is titled and supplies.
fn fixture(name: &str) -> (&'static str, &'static str, Roles) {
    match name {
        "terms.zip" => ("terms", "FixtureTerms", roles_of(true, true, false, false)),
        "freq.zip" => ("freq", "FixtureFreq", roles_of(true, false, true, false)),
        "both.zip" => ("terms and pitch", "FixtureBoth", roles_of(true, true, false, true)),
        "pitch.zip" => ("pitch", "FixturePitch", roles_of(true, false, false, true)),
        other => panic!("no fixture {other}"),
    }
}

fn read(bytes: &str) -> (Option<&'static str>, Roles) {
    for name in ["terms.zip", "freq.zip", "both.zip", "pitch.zip"] {
        let (held, title, roles) = fixture(name);
        if held == bytes {
            return (Some(title), roles);
        }
    }
    // As long as a real one, and just as readable.
    if bytes == "smret" {
        return (Some("FixtureTerms"), roles_of(true, true, false, false));
    }
    (None, roles_of(false, false, false, false))
}

/// A library folder: what is in it, what is set aside, and its manifest.
#[derive(Default)]
struct Folder {
    present: BTreeMap<String, &'static str>,
    held: BTreeMap<String, &'static str>,
    manifest: Option<Library>,
}

impl Folder {
    fn names(&self) -> Vec<String> {
        let mut out: Vec<String> = self.present.keys().cloned().collect();
        if self.manifest.is_some() {
            out.push("library.json".to_string());
        }
        out.sort();
        out
    }

    fn load(&mut self) -> Library {
        let orphans = std::mem::take(&mut self.held);
        for (name, bytes) in orphans {
            self.present.entry(name).or_insert(bytes);
        }
        let mut lib = self.manifest.clone().unwrap_or_default();
        let disk = self
            .present
            .iter()
            .map(|(name, bytes)| {
                let (title, roles) = read(bytes);
                DiskFile { name: name.clone(), title: title.map(str::to_string), roles }
            })
            .collect();
        lib.reconcile(&disk);
        let sizes: Vec<u64> =
            lib.entries.iter().map(|e| self.present[&e.file].len() as u64).collect();
        let hashes = lib
            .entries
            .iter()
            .enumerate()
            .map(|(i, e)| {
                let contested = is_contested(&sizes, i);
                contested.then_some(self.present[&e.file].to_string())
            })
            .collect();
        lib.collapse_duplicates(&sizes, &hashes);
        lib
    }

    fn save(&mut self, lib: &Library) {
        self.manifest = Some(lib.clone());
    }

    fn import(&mut self, lib: &mut Library, name: &str) -> Entry {
        let (bytes, title, roles) = fixture(name);
        let file = lib.free_name(Some(name), |n: &str| self.present.contains_key(n)).unwrap();
        self.present.insert(file.clone(), bytes);
        lib.adopt(file, Some(title), roles)
    }

    fn quarantine(&mut self, lib: &mut Library, file: &str) {
        lib.quarantine(file);
        if let Some(bytes) = self.present.remove(file) {
            self.held.insert(file.to_string(), bytes);
        }
    }

    fn commit(&mut self, pending: &Pending) {
        for file in pending.commit() {
            self.held.remove(file);
        }
    }

    fn rollback(&mut self, pending: &Pending) {
        let undo = pending.rollback();
        for file in undo.delete {
            self.present.remove(file);
        }
        for file in undo.restore {
            if let Some(bytes) = self.held.remove(file) {
                self.present.insert(file.clone(), bytes);
            }
        }
        self.manifest = Some(undo.manifest.clone());
    }
}

fn entry(file: &str, roles: &[Role]) -> Entry {
    Entry { file: file.to_string(), name: file.to_string(), roles: Roles::only(roles) }
}

#[test]
fn a_missing_directory_loads_as_an_empty_library() {
    let mut lib = Library::default();
    lib.reconcile(&Vec::new());
    assert!(lib.entries.is_empty());
    assert!(lib.is_empty());
}

#[test]
fn a_directory_without_a_manifest_loads_as_an_empty_library() {
    let lib = Folder::default().load();
    assert!(lib.entries.is_empty());
    assert!(lib.is_empty());
}

/// The archive's banks decide, never a file name.
#[test]
fn an_import_reads_its_roles_from_the_archives_banks() {
    let mut dir = Folder::default();
    let mut lib = Library::default();
    let made = dir.import(&mut lib, "freq.zip");
    assert_eq!(Roles::only(&[Role::Frequency]), made.roles);
    assert_eq!("freq.zip", made.file);
    assert!(!lib.is_empty());
}

#[test]
fn import_classifies_a_term_archive() {
    let mut dir = Folder::default();
    let mut lib = Library::default();
    let made = dir.import(&mut lib, "terms.zip");
    assert_eq!(Roles::only(&[Role::Terms]), made.roles);
    assert!(dir.present.contains_key("terms.zip"));
}

/// One archive, two roles, one entry.
#[test]
fn an_archive_supplying_two_roles_is_one_entry_holding_both() {
    let mut dir = Folder::default();
    let mut lib = Library::default();
    let made = dir.import(&mut lib, "both.zip");
    assert_eq!(Roles::only(&[Role::Terms, Role::Pitch]), made.roles);
    assert_eq!(1, lib.entries.len());
}

#[test]
fn a_pitch_only_archive_supplies_pitch_and_neither_other_role() {
    let mut dir = Folder::default();
    let mut lib = Library::default();
    let made = dir.import(&mut lib, "pitch.zip");
    assert_eq!(Roles::only(&[Role::Pitch]), made.roles);
}

#[test]
fn import_reads_the_title_from_index_json() {
    let mut dir = Folder::default();
    let mut lib = Library::default();
    let made = dir.import(&mut lib, "terms.zip");
    assert_eq!("FixtureTerms", made.name);
}

#[test]
fn importing_the_same_filename_twice_keeps_both() {
    let mut dir = Folder::default();
    let mut lib = Library::default();
    dir.import(&mut lib, "terms.zip");
    let second = dir.import(&mut lib, "terms.zip");
    assert_eq!("terms (2).zip", second.file);
    assert_eq!(2, lib.entries.len());
    assert_eq!(dir.names(), ["terms (2).zip", "terms.zip"]);
    assert_eq!("terms (3).zip", dir.import(&mut lib, "terms.zip").file);
}

/// The archive is the user's.
#[test]
fn quarantine_drops_the_entry_without_deleting_the_file() {
    let mut dir = Folder::default();
    let mut lib = Library::default();
    dir.import(&mut lib, "terms.zip");
    dir.quarantine(&mut lib, "terms.zip");
    assert!(lib.is_empty());
    assert!(!dir.present.contains_key("terms.zip"));
    assert!(dir.held.contains_key("terms.zip"));
}

#[test]
fn quarantine_of_an_entry_whose_file_is_gone_still_removes_it() {
    let mut dir = Folder::default();
    let mut lib = Library::default();
    dir.import(&mut lib, "terms.zip");
    dir.present.remove("terms.zip");
    dir.quarantine(&mut lib, "terms.zip");
    assert!(lib.is_empty());
}

#[test]
fn commit_deletes_the_quarantine_and_rollback_restores_it() {
    let mut dir = Folder::default();
    let mut lib = Library::default();
    dir.import(&mut lib, "terms.zip");
    let mut pending = Pending::new(&lib);
    dir.quarantine(&mut lib, "terms.zip");
    pending.held("terms.zip".to_string());

    dir.rollback(&pending);
    assert!(dir.present.contains_key("terms.zip"), "a failed rebuild loses nothing");
    assert!(dir.held.is_empty());
    assert_eq!(1, dir.load().entries.len());

    let mut again = Pending::new(&lib);
    dir.quarantine(&mut lib, "terms.zip");
    again.held("terms.zip".to_string());
    dir.commit(&again);
    assert!(!dir.present.contains_key("terms.zip"));
    assert!(dir.held.is_empty());
}

/// No second copy on retry.
#[test]
fn rollback_undoes_an_import() {
    let mut dir = Folder::default();
    let mut lib = Library::default();
    dir.import(&mut lib, "freq.zip");
    let before = lib.clone();
    let mut pending = Pending::new(&before);
    let added = dir.import(&mut lib, "terms.zip");
    pending.added(added.file);

    dir.rollback(&pending);

    assert_eq!(dir.names(), ["freq.zip", "library.json"]);
    assert_eq!(before.entries, dir.load().entries);
}

/// A killed Apply hides none.
#[test]
fn a_quarantine_left_by_a_dead_process_is_restored_on_load() {
    let mut dir = Folder::default();
    dir.held.insert("terms.zip".to_string(), fixture("terms.zip").0);

    let lib = dir.load();

    assert_eq!(1, lib.entries.len(), "the archive is back in the library");
    assert!(dir.present.contains_key("terms.zip"));
    assert!(dir.held.is_empty());
}

#[test]
fn an_unreadable_archive_is_listed_but_is_not_a_dictionary() {
    let mut dir = Folder::default();
    dir.present.insert("broken.zip".to_string(), "not a zip at all");
    dir.present.insert("terms.zip".to_string(), fixture("terms.zip").0);

    let lib = dir.load();

    assert_eq!(2, lib.entries.len(), "it stays visible");
    assert!(lib.entries[0].roles.is_empty(), "got {:?}", lib.entries);
    assert_eq!("broken", lib.entries[0].name);
    assert_eq!(vec!["terms.zip"], lib.dict_paths());
}

/// The file outranks the JSON.
#[test]
fn an_entry_that_became_unreadable_is_reclassified_on_load() {
    let mut dir = Folder::default();
    let mut lib = Library::default();
    dir.import(&mut lib, "terms.zip");
    dir.save(&lib);
    dir.present.insert("terms.zip".to_string(), "corrupted since");

    let loaded = dir.load();

    assert!(loaded.entries[0].roles.is_empty());
}

#[test]
fn the_builders_own_question_is_the_one_roles_of_asks() {
    assert_eq!(Roles::only(&[Role::Terms]), roles_of(true, true, false, false));
    assert_eq!(Roles::only(&[Role::Frequency]), roles_of(true, false, true, false));
    assert!(roles_of(false, false, false, false).is_empty());
    assert!(roles_of(false, true, true, true).is_empty(), "no index, no roles");
}

#[test]
fn save_then_load_round_trips_order_and_roles() {
    let mut dir = Folder::default();
    let mut lib = Library::default();
    dir.import(&mut lib, "freq.zip");
    dir.import(&mut lib, "terms.zip");
    dir.save(&lib);
    let loaded = dir.load();
    assert_eq!(lib.entries, loaded.entries);
    assert_eq!(Roles::only(&[Role::Frequency]), loaded.entries[0].roles);
    assert_eq!("FixtureFreq", loaded.entries[0].name);
    assert_eq!("terms.zip", loaded.entries[1].file);
}

/// The build list is every readable archive, whatever it holds.
#[test]
fn the_build_list_holds_every_readable_archive_and_freq_paths_the_frequency_ones() {
    let lib = Library {
        entries: vec![
            entry("b.zip", &[Role::Terms]),
            entry("f.zip", &[Role::Frequency]),
            entry("a.zip", &[Role::Terms, Role::Frequency]),
            entry("broken.zip", &[]),
        ],
    };
    assert_eq!(
        vec!["b.zip", "f.zip", "a.zip"],
        lib.dict_paths(),
        "manifest order, and the unreadable one has nothing to build",
    );
    assert_eq!(vec!["f.zip", "a.zip"], lib.freq_paths());
}

#[test]
fn a_zip_the_manifest_never_listed_is_adopted_on_load() {
    let mut dir = Folder::default();
    dir.present.insert("zz_dropped_in.zip".to_string(), fixture("terms.zip").0);
    dir.present.insert("aa_dropped_in.zip".to_string(), fixture("freq.zip").0);
    dir.save(&Library::default());

    let lib = dir.load();

    assert_eq!(2, lib.entries.len(), "both strays adopted");
    assert_eq!("aa_dropped_in.zip", lib.entries[0].file, "sorted, not read_dir order");
    assert_eq!(Roles::only(&[Role::Frequency]), lib.entries[0].roles, "read on adoption");
    assert_eq!("FixtureTerms", lib.entries[1].name, "title read, not the stem");
}

#[test]
fn an_entry_whose_file_vanished_is_dropped_on_load() {
    let mut dir = Folder::default();
    let mut lib = Library::default();
    dir.import(&mut lib, "terms.zip");
    dir.save(&lib);
    dir.present.remove("terms.zip");

    let loaded = dir.load();

    assert!(loaded.is_empty(), "a listed file that is gone is not offered");
}

#[test]
fn a_non_zip_in_the_folder_is_not_adopted() {
    let mut dir = Folder::default();
    dir.present.insert("notes.txt".to_string(), "not an archive");
    dir.save(&Library::default());
    assert!(dir.load().is_empty());
    dir.present.insert("LOUD.ZIP".to_string(), fixture("terms.zip").0);
    assert_eq!(1, dir.load().entries.len(), "the case of the extension does not matter");
}

/// A byte-identical copy is not a second Dictionary.
#[test]
fn two_byte_identical_archives_under_different_names_are_one_dictionary() {
    let mut dir = Folder::default();
    let mut lib = Library::default();
    dir.import(&mut lib, "terms.zip");
    dir.save(&lib);
    dir.present.insert("[JA-EN] terms (2026-08-11).zip".to_string(), fixture("terms.zip").0);

    let loaded = dir.load();

    assert_eq!(1, loaded.entries.len(), "got {:?}", loaded.entries);
    assert_eq!(
        "terms.zip", loaded.entries[0].file,
        "the manifest's own entry wins over an unlisted copy of it",
    );
    assert_eq!(vec!["terms.zip"], loaded.dict_paths());
}

#[test]
fn collapsing_a_duplicate_leaves_the_file_where_the_user_put_it() {
    let mut dir = Folder::default();
    let mut lib = Library::default();
    dir.import(&mut lib, "terms.zip");
    dir.save(&lib);
    dir.present.insert("copy.zip".to_string(), fixture("terms.zip").0);

    let loaded = dir.load();
    dir.save(&loaded);

    assert!(dir.present.contains_key("copy.zip"), "the archive itself is untouched");
    assert_eq!(1, dir.load().entries.len(), "and stays collapsed");
}

/// The hash decides, not the length.
#[test]
fn two_equally_long_archives_with_different_contents_stay_two_dictionaries() {
    let mut dir = Folder::default();
    dir.present.insert("a.zip".to_string(), fixture("terms.zip").0);
    dir.present.insert("b.zip".to_string(), "smret");
    assert_eq!(dir.present["a.zip"].len(), dir.present["b.zip"].len());
    dir.save(&Library::default());

    let loaded = dir.load();

    assert_eq!(2, loaded.entries.len(), "got {:?}", loaded.entries);
}

#[test]
fn an_archive_that_cannot_be_hashed_stays_listed() {
    let mut lib = Library { entries: vec![entry("a.zip", &[]), entry("b.zip", &[])] };
    lib.collapse_duplicates(&vec![7, 7], &vec![None, None]);
    assert_eq!(2, lib.entries.len());
    assert!(is_contested(&vec![7, 7], 0));
    assert!(!is_contested(&vec![0, 0], 0), "no length is no collision");
}

#[test]
fn a_title_that_is_missing_or_empty_falls_back_to_the_stem() {
    assert_eq!("Title", title_of(Some("Title"), "file.zip"));
    assert_eq!("file", title_of(None, "file.zip"));
}

#[test]
fn a_source_without_a_name_is_called_dictionary() {
    let lib = Library::default();
    assert_eq!(Some("dictionary.zip".to_string()), lib.free_name(None, |_: &str| false));
}

#[test]
fn roles_are_a_set_that_lists_in_order() {
    let mut roles = Roles::default();
    assert!(roles.is_empty());
    roles.insert(Role::Pitch);
    roles.insert(Role::Terms);
    roles.insert(Role::Pitch);
    assert_eq!(vec![Role::Terms, Role::Pitch], roles.iter());
    assert!(roles.has(Role::Terms) && !roles.has(Role::Frequency));
}
