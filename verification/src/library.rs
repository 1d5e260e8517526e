//! The archive library.
use crate::chars::{
    chars_of, compare_text, decimal, decimal_of, extension, is_text, lex, lex_turns, lower, lower_of,
    opt_str, push_chars, same_opt, same_str, split_extension, stem, string_of, strs,
};
use vstd::prelude::*;

verus! {

/// One thing an archive supplies: a fact about the archive's banks, never a
/// preference and never a file name.
#[derive(Debug, Clone, Copy, PartialEq, Eq, PartialOrd, Ord, Structural)]
pub enum Role {
    Terms,
    Frequency,
    Pitch,
}

impl Role {
    /// Every role, in the order the settings window stacks its sections.
    pub const EVERY: [Role; 3] = [Role::Terms, Role::Frequency, Role::Pitch];
}

/// What an archive supplies: a set, in any combination.
///
/// The empty set is what an unreadable archive supplies. It stays listed, so
/// the user can remove it.
#[derive(Debug, Clone, Copy, PartialEq, Eq, Structural)]
pub struct Roles {
    pub terms: bool,
    pub frequency: bool,
    pub pitch: bool,
}

impl Roles {
    /// Does the set hold a role?
    pub open spec fn holds(self, role: Role) -> bool {
        match role {
            Role::Terms => self.terms,
            Role::Frequency => self.frequency,
            Role::Pitch => self.pitch,
        }
    }

    pub open spec fn none(self) -> bool {
        !self.terms && !self.frequency && !self.pitch
    }

    /// The set of a list of roles.
    pub open spec fn of(roles: Seq<Role>) -> Roles {
        Roles {
            terms: roles.contains(Role::Terms),
            frequency: roles.contains(Role::Frequency),
            pitch: roles.contains(Role::Pitch),
        }
    }

    /// The set with one more role.
    pub open spec fn with(self, role: Role) -> Roles {
        Roles {
            terms: self.terms || role == Role::Terms,
            frequency: self.frequency || role == Role::Frequency,
            pitch: self.pitch || role == Role::Pitch,
        }
    }

    /// The roles of the set, in order.
    pub open spec fn listed(self) -> Seq<Role> {
        (if self.terms {
            seq![Role::Terms]
        } else {
            seq![]
        }) + (if self.frequency {
            seq![Role::Frequency]
        } else {
            seq![]
        }) + (if self.pitch {
            seq![Role::Pitch]
        } else {
            seq![]
        })
    }

    /// Exactly these, and nothing else.
    pub fn only(roles: &[Role]) -> (r: Roles)
        ensures
            r == Roles::of(roles@),
    {
        let mut set = Roles { terms: false, frequency: false, pitch: false };
        let mut i: usize = 0;
        assert(Roles::of(roles@.take(0)) == set);
        while i < roles.len()
            invariant
                i <= roles@.len(),
                set == Roles::of(roles@.take(i as int)),
            decreases roles@.len() - i,
        {
            let ghost before = roles@.take(i as int);
            set.insert(roles[i]);
            proof {
                let next = roles@.take(i + 1);
                assert(next =~= before.push(roles@[i as int]));
                assert forall|x: Role|
                    next.contains(x) == (before.contains(x) || x == roles@[i as int]) by {
                    if before.contains(x) {
                        let j = choose|j: int| 0 <= j < before.len() && before[j] == x;
                        assert(next[j] == x);
                    }
                    assert(next[i as int] == roles@[i as int]);
                    if next.contains(x) && x != roles@[i as int] {
                        let j = choose|j: int| 0 <= j < next.len() && next[j] == x;
                        assert(before[j] == x);
                    }
                }
            }
            i += 1;
        }
        assert(roles@.take(i as int) =~= roles@);
        set
    }

    /// Does the archive supply this one?
    pub fn has(self, role: Role) -> (r: bool)
        ensures
            r == self.holds(role),
    {
        match role {
            Role::Terms => self.terms,
            Role::Frequency => self.frequency,
            Role::Pitch => self.pitch,
        }
    }

    /// Records that it supplies this one.
    pub fn insert(&mut self, role: Role)
        ensures
            *final(self) == old(self).with(role),
    {
        match role {
            Role::Terms => {
                self.terms = true;
            },
            Role::Frequency => {
                self.frequency = true;
            },
            Role::Pitch => {
                self.pitch = true;
            },
        }
    }

    /// Nothing readable.
    pub fn is_empty(self) -> (r: bool)
        ensures
            r == self.none(),
    {
        !self.terms && !self.frequency && !self.pitch
    }

    /// The roles it does supply, in order.
    pub fn iter(self) -> (r: Vec<Role>)
        ensures
            r@ == self.listed(),
    {
        let mut out: Vec<Role> = Vec::new();
        if self.terms {
            out.push(Role::Terms);
        }
        if self.frequency {
            out.push(Role::Frequency);
        }
        if self.pitch {
            out.push(Role::Pitch);
        }
        assert(out@ =~= self.listed());
        out
    }
}

impl Default for Roles {
    fn default() -> (r: Self)
        ensures
            r.none(),
    {
        Roles { terms: false, frequency: false, pitch: false }
    }
}

/// A role inserted is held, and the others are held as before.
pub proof fn an_insert_adds_one_role(set: Roles, role: Role, other: Role)
    ensures
        set.with(role).holds(other) == (set.holds(other) || other == role),
        set.with(role).with(role) == set.with(role),
        !set.with(role).none(),
{
}

/// The roles of a set list back to the same set.
pub proof fn a_role_list_reads_back(set: Roles)
    ensures
        Roles::of(set.listed()) == set,
{
    let l = set.listed();
    if set.terms {
        assert(l[0] == Role::Terms);
    }
    if set.frequency && set.terms {
        assert(l[1] == Role::Frequency);
    } else if set.frequency {
        assert(l[0] == Role::Frequency);
    }
    if set.pitch {
        assert(l[l.len() - 1] == Role::Pitch);
    }
}

/// What the archive itself says it supplies, from the four answers its banks
/// give. An archive whose index cannot be read supplies nothing at all.
pub fn roles_of(readable: bool, terms: bool, frequency: bool, pitch: bool) -> (r: Roles)
    ensures
        r == (Roles {
            terms: readable && terms,
            frequency: readable && frequency,
            pitch: readable && pitch,
        }),
{
    if !readable {
        return Roles { terms: false, frequency: false, pitch: false };
    }
    Roles { terms, frequency, pitch }
}

/// One archive in the library.
#[derive(Debug, PartialEq, Eq)]
pub struct Entry {
    pub file: String,
    pub name: String,
    /// Derived state, recomputed from the file on every load.
    pub roles: Roles,
}

impl Clone for Entry {
    fn clone(&self) -> (r: Self)
        ensures
            r == *self,
    {
        Entry { file: self.file.clone(), name: self.name.clone(), roles: self.roles }
    }
}

/// What an archive's row holds.
#[verifier::ext_equal]
pub struct ArchiveV {
    pub file: Seq<char>,
    pub name: Seq<char>,
    pub roles: Roles,
}

impl Entry {
    pub open spec fn v(self) -> ArchiveV {
        ArchiveV { file: self.file@, name: self.name@, roles: self.roles }
    }
}

pub open spec fn archives_v(s: Seq<Entry>) -> Seq<ArchiveV> {
    s.map_values(|e: Entry| e.v())
}

/// The manifest and its files.
#[derive(Debug, PartialEq, Eq)]
pub struct Library {
    pub entries: Vec<Entry>,
}

impl View for Library {
    type V = Seq<ArchiveV>;

    open spec fn view(&self) -> Seq<ArchiveV> {
        archives_v(self.entries@)
    }
}

impl Clone for Library {
    fn clone(&self) -> (r: Self)
        ensures
            r@ == self@,
    {
        let mut entries: Vec<Entry> = Vec::new();
        let mut i: usize = 0;
        while i < self.entries.len()
            invariant
                i <= self.entries@.len(),
                entries@ == self.entries@.take(i as int),
            decreases self.entries@.len() - i,
        {
            entries.push(self.entries[i].clone());
            i += 1;
        }
        assert(self.entries@.take(i as int) =~= self.entries@);
        Library { entries }
    }
}

impl Default for Library {
    fn default() -> (r: Self)
        ensures
            r@ == Seq::<ArchiveV>::empty(),
    {
        let r = Library { entries: Vec::new() };
        assert(r@ =~= seq![]);
        r
    }
}

/// The title that an index gives, or the file's stem where it gives none.
pub open spec fn titled(title: Option<Seq<char>>, file: Seq<char>) -> Seq<char> {
    match title {
        Some(t) => if t.len() > 0 {
            t
        } else {
            stem(file)
        },
        None => stem(file),
    }
}

/// The index title, or the stem.
pub fn title_of(title: Option<&str>, file: &str) -> (r: String)
    ensures
        r@ == titled(
            match title {
                Some(t) => Some(t@),
                None => None,
            },
            file@,
        ),
{
    match title {
        Some(t) => {
            if !t.is_empty() {
                return t.to_owned();
            }
        },
        None => {},
    }
    let (s, _ext) = split_extension(chars_of(file).as_slice());
    string_of(s.as_slice())
}

/// Is a file name that of a zip archive?
pub open spec fn zip_named(file: Seq<char>) -> bool {
    lower(extension(file)) == ".zip"@
}

/// Is a file a zip archive, by its name?
pub fn is_zip(file: &str) -> (r: bool)
    ensures
        r == zip_named(file@),
{
    let (_stem, ext) = split_extension(chars_of(file).as_slice());
    let l = lower_of(ext.as_slice());
    is_text(l.as_slice(), ".zip")
}

fn find_on_disk<'a>(disk: &'a Vec<DiskFile>, name: &str) -> (r: Option<&'a DiskFile>)
    ensures
        on_disk(disk_v(disk@), name@) == (match r {
            Some(f) => Some(DiskV { name: f.name@, title: opt_str(f.title), roles: f.roles }),
            None => None,
        }),
{
    let ghost all = disk_v(disk@);
    assert(all.skip(0) =~= all);
    let mut i: usize = 0;
    while i < disk.len()
        invariant
            i <= disk@.len(),
            all == disk_v(disk@),
            on_disk(all, name@) == on_disk(all.skip(i as int), name@),
        decreases disk@.len() - i,
    {
        let f = &disk[i];
        assert(all.skip(i as int)[0] == all[i as int]);
        assert(all.skip(i as int).skip(1) =~= all.skip(i + 1));
        if same_str(f.name.as_str(), name) {
            return Some(f);
        }
        i += 1;
    }
    None
}

/// Is a file listed?
pub open spec fn lists(lib: Seq<ArchiveV>, file: Seq<char>) -> bool {
    exists|i: int| 0 <= i < lib.len() && (#[trigger] lib[i]).file == file
}

/// A name put among sorted names, behind those it does not come before.
pub open spec fn name_in(list: Seq<Seq<char>>, name: Seq<char>) -> Seq<Seq<char>>
    decreases list.len(),
{
    if list.len() > 0 && lex(name, list.last()) < 0 {
        name_in(list.drop_last(), name).push(list.last())
    } else {
        list.push(name)
    }
}

/// The archives of the first `n` listed files that the library does not
/// list, sorted.
pub open spec fn strays_upto(lib: Seq<ArchiveV>, listing: Seq<Seq<char>>, n: int) -> Seq<Seq<char>>
    decreases n,
{
    if n <= 0 {
        seq![]
    } else {
        let before = strays_upto(lib, listing, n - 1);
        let name = listing[n - 1];
        if zip_named(name) && !lists(lib, name) {
            name_in(before, name)
        } else {
            before
        }
    }
}

/// Are names in order?
pub open spec fn in_order(names: Seq<Seq<char>>) -> bool {
    forall|i: int| 0 <= i < names.len() - 1 ==> lex(#[trigger] names[i], names[i + 1]) <= 0
}

/// A name put in goes last, or before the last name.
proof fn name_in_last(list: Seq<Seq<char>>, name: Seq<char>)
    ensures
        name_in(list, name).len() == list.len() + 1,
        name_in(list, name).last() == name || (list.len() > 0 && name_in(list, name).last()
            == list.last() && lex(name, list.last()) < 0),
    decreases list.len(),
{
    if list.len() > 0 && lex(name, list.last()) < 0 {
        name_in_last(list.drop_last(), name);
    }
}

/// Putting a name in keeps names in order.
pub proof fn a_name_put_in_keeps_the_order(list: Seq<Seq<char>>, name: Seq<char>)
    requires
        in_order(list),
    ensures
        in_order(name_in(list, name)),
    decreases list.len(),
{
    let out = name_in(list, name);
    if list.len() > 0 && lex(name, list.last()) < 0 {
        let front = list.drop_last();
        assert forall|i: int| 0 <= i < front.len() - 1 implies lex(
            #[trigger] front[i],
            front[i + 1],
        ) <= 0 by {
            assert(lex(list[i], list[i + 1]) <= 0);
        }
        a_name_put_in_keeps_the_order(front, name);
        name_in_last(front, name);
        let inner = name_in(front, name);
        assert forall|i: int| 0 <= i < out.len() - 1 implies lex(#[trigger] out[i], out[i + 1]) <= 0 by {
            if i < inner.len() - 1 {
                assert(lex(inner[i], inner[i + 1]) <= 0);
            } else if inner.last() != name {
                assert(lex(list[list.len() - 2], list[list.len() - 2 + 1]) <= 0);
            }
        }
    } else if list.len() > 0 {
        lex_turns(name, list.last());
        assert forall|i: int| 0 <= i < out.len() - 1 implies lex(#[trigger] out[i], out[i + 1]) <= 0 by {
            if i < list.len() - 1 {
                assert(lex(list[i], list[i + 1]) <= 0);
            }
        }
    }
}

/// The archives that a manifest never listed are taken in an order that does
/// not depend on how a directory lists them.
pub proof fn strays_are_in_order(lib: Seq<ArchiveV>, listing: Seq<Seq<char>>, n: int)
    requires
        0 <= n <= listing.len(),
    ensures
        in_order(strays_upto(lib, listing, n)),
    decreases n,
{
    if n > 0 {
        strays_are_in_order(lib, listing, n - 1);
        a_name_put_in_keeps_the_order(strays_upto(lib, listing, n - 1), listing[n - 1]);
    }
}

/// Are the bytes of an archive to be compared: does another archive have its
/// length? Length 0 is a file that would not tell its length.
pub open spec fn contested(sizes: Seq<u64>, i: int) -> bool {
    sizes[i] > 0 && exists|j: int| 0 <= j < sizes.len() && j != i && sizes[j] == sizes[i]
}

/// Is archive `i` a copy of one kept before it?
pub open spec fn copied(
    sizes: Seq<u64>,
    hashes: Seq<Option<Seq<char>>>,
    i: int,
) -> bool {
    contested(sizes, i) && hashes[i] is Some && exists|j: int|
        0 <= j < i && contested(sizes, j) && #[trigger] hashes[j] == hashes[i]
}

/// The first `n` entries without the copies.
pub open spec fn collapsed(
    lib: Seq<ArchiveV>,
    sizes: Seq<u64>,
    hashes: Seq<Option<Seq<char>>>,
    n: int,
) -> Seq<ArchiveV>
    decreases n,
{
    if n <= 0 {
        seq![]
    } else if copied(sizes, hashes, n - 1) {
        collapsed(lib, sizes, hashes, n - 1)
    } else {
        collapsed(lib, sizes, hashes, n - 1).push(lib[n - 1])
    }
}

/// What stands in the library folder under a name.
#[derive(Debug, PartialEq, Eq)]
pub struct DiskFile {
    pub name: String,
    /// The title that its index gives, if it has an index with one.
    pub title: Option<String>,
    /// What its banks supply.
    pub roles: Roles,
}

/// What a file of the folder is.
#[verifier::ext_equal]
pub struct DiskV {
    pub name: Seq<char>,
    pub title: Option<Seq<char>>,
    pub roles: Roles,
}

pub open spec fn disk_v(s: Seq<DiskFile>) -> Seq<DiskV> {
    s.map_values(|f: DiskFile| DiskV { name: f.name@, title: opt_str(f.title), roles: f.roles })
}

/// The first file of a name.
pub open spec fn on_disk(disk: Seq<DiskV>, name: Seq<char>) -> Option<DiskV>
    decreases disk.len(),
{
    if disk.len() == 0 {
        None
    } else if disk[0].name == name {
        Some(disk[0])
    } else {
        on_disk(disk.skip(1), name)
    }
}

/// The first `n` entries whose file is there, with the roles that the file
/// has.
pub open spec fn still_there(lib: Seq<ArchiveV>, disk: Seq<DiskV>, n: int) -> Seq<ArchiveV>
    decreases n,
{
    if n <= 0 {
        seq![]
    } else {
        match on_disk(disk, lib[n - 1].file) {
            Some(f) => still_there(lib, disk, n - 1).push(
                ArchiveV { roles: f.roles, ..lib[n - 1] },
            ),
            None => still_there(lib, disk, n - 1),
        }
    }
}

/// The names of a folder.
pub open spec fn names_of(disk: Seq<DiskV>) -> Seq<Seq<char>> {
    disk.map_values(|f: DiskV| f.name)
}

/// The entry of a file that the manifest never listed.
pub open spec fn adopted(disk: Seq<DiskV>, file: Seq<char>) -> ArchiveV {
    match on_disk(disk, file) {
        Some(f) => ArchiveV { file, name: titled(f.title, file), roles: f.roles },
        None => ArchiveV { file, name: titled(None, file), roles: Roles::of(seq![]) },
    }
}

/// The manifest made to match the folder: what is gone is dropped, the files
/// decide the roles, and what was never listed is adopted, last and sorted.
pub open spec fn reconciled(lib: Seq<ArchiveV>, disk: Seq<DiskV>) -> Seq<ArchiveV> {
    let kept = still_there(lib, disk, lib.len() as int);
    let strays = strays_upto(kept, names_of(disk), disk.len() as int);
    kept + Seq::new(strays.len(), |i: int| adopted(disk, strays[i]))
}

/// The name that an archive is given at the `n`th try: its own, and then its
/// stem with a number.
pub open spec fn name_try(base: Seq<char>, n: int) -> Seq<char> {
    if n <= 1 {
        base
    } else {
        stem(base) + " ("@ + decimal(n as nat) + ")"@ + extension(base)
    }
}

/// The archive name where the source has none.
pub open spec fn base_name(source: Option<Seq<char>>) -> Seq<char> {
    match source {
        Some(s) => s,
        None => "dictionary.zip"@,
    }
}

/// The files of the entries that a test accepts.
pub open spec fn files_where(lib: Seq<ArchiveV>, keep: spec_fn(ArchiveV) -> bool) -> Seq<Seq<char>> {
    lib.filter(keep).map_values(|e: ArchiveV| e.file)
}

/// Whether the bytes of archive `i` have to be read.
pub fn is_contested(sizes: &Vec<u64>, i: usize) -> (r: bool)
    requires
        i < sizes@.len(),
    ensures
        r == contested(sizes@, i as int),
{
    if sizes[i] == 0 {
        return false;
    }
    let mut j: usize = 0;
    while j < sizes.len()
        invariant
            j <= sizes@.len(),
            i < sizes@.len(),
            sizes@[i as int] > 0,
            forall|k: int| 0 <= k < j && k != i ==> sizes@[k] != sizes@[i as int],
        decreases sizes@.len() - j,
    {
        if j != i && sizes[j] == sizes[i] {
            assert(sizes@[j as int] == sizes@[i as int]);
            return true;
        }
        j += 1;
    }
    false
}

pub open spec fn opts(h: Seq<Option<String>>) -> Seq<Option<Seq<char>>> {
    h.map_values(|s: Option<String>| opt_str(s))
}

fn is_copied(sizes: &Vec<u64>, hashes: &Vec<Option<String>>, i: usize) -> (r: bool)
    requires
        i < sizes@.len(),
        sizes@.len() == hashes@.len(),
    ensures
        r == copied(sizes@, opts(hashes@), i as int),
{
    if !is_contested(sizes, i) {
        return false;
    }
    if hashes[i].is_none() {
        return false;
    }
    let ghost hs = opts(hashes@);
    let mut j: usize = 0;
    while j < i
        invariant
            j <= i < sizes@.len(),
            sizes@.len() == hashes@.len(),
            hs == opts(hashes@),
            contested(sizes@, i as int),
            hs[i as int] is Some,
            forall|k: int| 0 <= k < j ==> !(contested(sizes@, k) && #[trigger] hs[k] == hs[i as int]),
        decreases i - j,
    {
        if is_contested(sizes, j) && same_opt(&hashes[j], &hashes[i]) {
            assert(hs[j as int] == hs[i as int]);
            return true;
        }
        j += 1;
    }
    false
}

impl Library {
    /// Is this file name listed?
    pub fn has_file(&self, file: &str) -> (r: bool)
        ensures
            r == lists(self@, file@),
    {
        let mut i: usize = 0;
        while i < self.entries.len()
            invariant
                i <= self.entries@.len(),
                forall|j: int| 0 <= j < i ==> (#[trigger] self@[j]).file != file@,
            decreases self.entries@.len() - i,
        {
            if same_str(self.entries[i].file.as_str(), file) {
                assert(self@[i as int].file == file@);
                return true;
            }
            i += 1;
        }
        false
    }

    /// Makes the list match the folder.
    pub fn reconcile(&mut self, disk: &Vec<DiskFile>)
        ensures
            final(self)@ == reconciled(old(self)@, disk_v(disk@)),
    {
        let ghost all = self@;
        let ghost ds = disk_v(disk@);
        let mut kept: Vec<Entry> = Vec::new();
        assert(archives_v(kept@) =~= seq![]);
        let mut i: usize = 0;
        while i < self.entries.len()
            invariant
                i <= self.entries@.len(),
                all == self@,
                *self == *old(self),
                ds == disk_v(disk@),
                archives_v(kept@) == still_there(all, ds, i as int),
            decreases self.entries@.len() - i,
        {
            let e = &self.entries[i];
            assert(all[i as int] == e.v());
            if let Some(f) = find_on_disk(disk, e.file.as_str()) {
                let ghost before = archives_v(kept@);
                let next = Entry { file: e.file.clone(), name: e.name.clone(), roles: f.roles };
                kept.push(next);
                assert(archives_v(kept@) =~= before.push(next.v()));
            }
            i += 1;
        }
        self.entries = kept;
        let ghost base = self@;
        let mut listing: Vec<String> = Vec::new();
        let ghost names = names_of(ds);
        assert(strs(listing@) =~= names.take(0));
        let mut j: usize = 0;
        while j < disk.len()
            invariant
                j <= disk@.len(),
                ds == disk_v(disk@),
                names == names_of(ds),
                strs(listing@) == names.take(j as int),
            decreases disk@.len() - j,
        {
            let ghost before = strs(listing@);
            listing.push(disk[j].name.clone());
            assert(strs(listing@) =~= before.push(names[j as int]));
            assert(names.take(j + 1) =~= names.take(j as int).push(names[j as int]));
            j += 1;
        }
        assert(names.take(j as int) =~= names);
        let strays = self.strays(&listing);
        let ghost ss = strs(strays@);
        let ghost tail = Seq::new(ss.len(), |n: int| adopted(ds, ss[n]));
        assert(base + tail.take(0) =~= base);
        let mut k: usize = 0;
        while k < strays.len()
            invariant
                k <= strays@.len(),
                ds == disk_v(disk@),
                ss == strs(strays@),
                tail == Seq::new(ss.len(), |n: int| adopted(ds, ss[n])),
                self@ == base + tail.take(k as int),
            decreases strays@.len() - k,
        {
            let file = strays[k].clone();
            assert(ss[k as int] == file@);
            let ghost before = self@;
            let entry = match find_on_disk(disk, file.as_str()) {
                Some(f) => {
                    let title: Option<&str> = match &f.title {
                        Some(t) => Some(t.as_str()),
                        None => None,
                    };
                    self.adopt(file, title, f.roles)
                },
                None => self.adopt(file, None, Roles::default()),
            };
            assert(entry.v() =~= tail[k as int]);
            assert(self@ =~= before.push(tail[k as int]));
            assert(base + tail.take(k + 1) =~= (base + tail.take(k as int)).push(tail[k as int]));
            k += 1;
        }
        assert(tail.take(k as int) =~= tail);
    }

    /// The archives of a directory that the manifest never listed, sorted,
    /// because a directory has no order.
    pub fn strays(&self, listing: &Vec<String>) -> (r: Vec<String>)
        ensures
            strs(r@) == strays_upto(self@, strs(listing@), listing@.len() as int),
    {
        let mut out: Vec<String> = Vec::new();
        assert(strs(out@) =~= seq![]);
        let ghost names = strs(listing@);
        let mut i: usize = 0;
        while i < listing.len()
            invariant
                i <= listing@.len(),
                names == strs(listing@),
                strs(out@) == strays_upto(self@, names, i as int),
            decreases listing@.len() - i,
        {
            let name = &listing[i];
            assert(names[i as int] == name@);
            if is_zip(name.as_str()) && !self.has_file(name.as_str()) {
                sort_in(&mut out, name);
            }
            i += 1;
        }
        out
    }

    /// Lists an archive, last, under the title that its index gives.
    pub fn adopt(&mut self, file: String, title: Option<&str>, roles: Roles) -> (r: Entry)
        ensures
            r.v() == (ArchiveV {
                file: file@,
                name: titled(
                    match title {
                        Some(t) => Some(t@),
                        None => None,
                    },
                    file@,
                ),
                roles,
            }),
            final(self)@ == old(self)@.push(r.v()),
    {
        let name = title_of(title, file.as_str());
        let entry = Entry { file, name, roles };
        self.entries.push(entry.clone());
        assert(self@ =~= old(self)@.push(entry.v()));
        entry
    }

    /// Collapses byte-identical archives to one entry. The first entry wins.
    ///
    /// `sizes` gives each archive's length, and `hashes` the digest of each
    /// contested one, or nothing where its bytes cannot be read. Unreadable
    /// is not the same thing as duplicate: it stays listed.
    pub fn collapse_duplicates(&mut self, sizes: &Vec<u64>, hashes: &Vec<Option<String>>)
        requires
            old(self)@.len() == sizes@.len(),
            old(self)@.len() == hashes@.len(),
        ensures
            final(self)@ == collapsed(
                old(self)@,
                sizes@,
                opts(hashes@),
                old(self)@.len() as int,
            ),
    {
        let mut kept: Vec<Entry> = Vec::new();
        assert(archives_v(kept@) =~= seq![]);
        let ghost all = self@;
        let ghost hs = opts(hashes@);
        let mut i: usize = 0;
        while i < self.entries.len()
            invariant
                i <= self.entries@.len(),
                all == self@,
                hs == opts(hashes@),
                *self == *old(self),
                self.entries@.len() == sizes@.len(),
                self.entries@.len() == hashes@.len(),
                archives_v(kept@) == collapsed(all, sizes@, hs, i as int),
            decreases self.entries@.len() - i,
        {
            if !is_copied(sizes, hashes, i) {
                let ghost before = archives_v(kept@);
                kept.push(self.entries[i].clone());
                assert(archives_v(kept@) =~= before.push(all[i as int]));
            }
            i += 1;
        }
        self.entries = kept;
    }

    /// Drops an entry. Its file is moved aside, and deleted only on commit.
    pub fn quarantine(&mut self, file: &str)
        ensures
            final(self)@ == old(self)@.filter(|e: ArchiveV| e.file != file@),
    {
        let mut kept: Vec<Entry> = Vec::new();
        let ghost want = |e: ArchiveV| e.file != file@;
        let ghost all = self@;
        assert(archives_v(kept@) =~= all.take(0).filter(want)) by {
            reveal(Seq::filter);
        }
        let mut i: usize = 0;
        while i < self.entries.len()
            invariant
                i <= self.entries@.len(),
                all == self@,
                *self == *old(self),
                want == (|e: ArchiveV| e.file != file@),
                archives_v(kept@) == all.take(i as int).filter(want),
            decreases self.entries@.len() - i,
        {
            proof {
                reveal(Seq::filter);
                assert(all.take(i + 1).drop_last() =~= all.take(i as int));
                assert(all.take(i + 1).last() == all[i as int]);
            }
            if !same_str(self.entries[i].file.as_str(), file) {
                let ghost before = archives_v(kept@);
                kept.push(self.entries[i].clone());
                assert(archives_v(kept@) =~= before.push(all[i as int]));
            }
            i += 1;
        }
        assert(all.take(i as int) =~= all);
        self.entries = kept;
    }

    /// The file of every archive a build installs as a Dictionary, in order:
    /// every readable archive, whatever its roles.
    pub fn dict_paths(&self) -> (r: Vec<String>)
        ensures
            strs(r@) == files_where(self@, |e: ArchiveV| !e.roles.none()),
    {
        let mut out: Vec<String> = Vec::new();
        let ghost want = |e: ArchiveV| !e.roles.none();
        let ghost pick = |e: ArchiveV| e.file;
        let ghost all = self@;
        assert(strs(out@) =~= all.take(0).filter(want).map_values(pick)) by {
            reveal(Seq::filter);
        }
        let mut i: usize = 0;
        while i < self.entries.len()
            invariant
                i <= self.entries@.len(),
                all == self@,
                want == (|e: ArchiveV| !e.roles.none()),
                pick == (|e: ArchiveV| e.file),
                strs(out@) == all.take(i as int).filter(want).map_values(pick),
            decreases self.entries@.len() - i,
        {
            proof {
                reveal(Seq::filter);
                assert(all.take(i + 1).drop_last() =~= all.take(i as int));
                assert(all.take(i + 1).last() == all[i as int]);
            }
            if !self.entries[i].roles.is_empty() {
                let ghost before = strs(out@);
                let ghost prior = all.take(i as int).filter(want);
                out.push(self.entries[i].file.clone());
                assert(strs(out@) =~= before.push(all[i as int].file));
                assert(prior.push(all[i as int]).map_values(pick) =~= prior.map_values(pick).push(
                    all[i as int].file,
                ));
            }
            i += 1;
        }
        assert(all.take(i as int) =~= all);
        out
    }

    /// The files of the frequency archives, in order.
    pub fn freq_paths(&self) -> (r: Vec<String>)
        ensures
            strs(r@) == files_where(self@, |e: ArchiveV| e.roles.holds(Role::Frequency)),
    {
        self.paths(Role::Frequency)
    }

    /// No archives recorded.
    pub fn is_empty(&self) -> (r: bool)
        ensures
            r == (self@.len() == 0),
    {
        self.entries.len() == 0
    }

    /// The files of the archives holding one role.
    fn paths(&self, role: Role) -> (r: Vec<String>)
        ensures
            strs(r@) == files_where(self@, |e: ArchiveV| e.roles.holds(role)),
    {
        let mut out: Vec<String> = Vec::new();
        let ghost want = |e: ArchiveV| e.roles.holds(role);
        let ghost pick = |e: ArchiveV| e.file;
        let ghost all = self@;
        assert(strs(out@) =~= all.take(0).filter(want).map_values(pick)) by {
            reveal(Seq::filter);
        }
        let mut i: usize = 0;
        while i < self.entries.len()
            invariant
                i <= self.entries@.len(),
                all == self@,
                want == (|e: ArchiveV| e.roles.holds(role)),
                pick == (|e: ArchiveV| e.file),
                strs(out@) == all.take(i as int).filter(want).map_values(pick),
            decreases self.entries@.len() - i,
        {
            proof {
                reveal(Seq::filter);
                assert(all.take(i + 1).drop_last() =~= all.take(i as int));
                assert(all.take(i + 1).last() == all[i as int]);
            }
            if self.entries[i].roles.has(role) {
                let ghost before = strs(out@);
                let ghost prior = all.take(i as int).filter(want);
                out.push(self.entries[i].file.clone());
                assert(strs(out@) =~= before.push(all[i as int].file));
                assert(prior.push(all[i as int]).map_values(pick) =~= prior.map_values(pick).push(
                    all[i as int].file,
                ));
            }
            i += 1;
        }
        assert(all.take(i as int) =~= all);
        out
    }

    /// A name that overwrites nothing: the first try that neither the disk
    /// nor the library has, or nothing where there is no number left.
    ///
    /// `on_disk` tells whether the library's directory has a file.
    pub fn free_name<F: Fn(&str) -> bool>(&self, source: Option<&str>, on_disk: F) -> (r: Option<
        String,
    >)
        requires
            forall|s: &str| call_requires(on_disk, (s,)),
        ensures
            r matches Some(name) ==> first_free(
                on_disk,
                self@,
                base_name(
                    match source {
                        Some(s) => Some(s@),
                        None => None,
                    },
                ),
                name@,
            ),
            r is None ==> all_taken(
                on_disk,
                self@,
                base_name(
                    match source {
                        Some(s) => Some(s@),
                        None => None,
                    },
                ),
            ),
    {
        let base = match source {
            Some(s) => s.to_owned(),
            None => "dictionary.zip".to_owned(),
        };
        let chars = chars_of(base.as_str());
        if !self.taken(base.as_str(), &on_disk) {
            assert(free_at(on_disk, self@, base@, 1, base@));
            assert(first_free(on_disk, self@, base@, base@));
            return Some(base);
        }
        let (s, ext) = split_extension(chars.as_slice());
        let mut n: u64 = 2;
        while n < u64::MAX
            invariant
                2 <= n,
                base@ == base_name(
                    match source {
                        Some(x) => Some(x@),
                        None => None,
                    },
                ),
                s@ == stem(base@),
                ext@ == extension(base@),
                forall|x: &str| call_requires(on_disk, (x,)),
                forall|k: int|
                    1 <= k < n ==> is_taken(on_disk, self@, #[trigger] name_try(base@, k)),
            decreases u64::MAX - n,
        {
            let mut c: Vec<char> = Vec::new();
            push_chars(&mut c, s.as_slice());
            push_chars(&mut c, chars_of(" (").as_slice());
            push_chars(&mut c, decimal_of(n).as_slice());
            push_chars(&mut c, chars_of(")").as_slice());
            push_chars(&mut c, ext.as_slice());
            assert(c@ =~= name_try(base@, n as int));
            let candidate = string_of(c.as_slice());
            if !self.taken(candidate.as_str(), &on_disk) {
                assert(free_at(on_disk, self@, base@, n as int, candidate@));
                assert(first_free(on_disk, self@, base@, candidate@));
                return Some(candidate);
            }
            n += 1;
        }
        None
    }

    /// Is this file name in use?
    fn taken<F: Fn(&str) -> bool>(&self, file: &str, on_disk: &F) -> (r: bool)
        requires
            forall|s: &str| call_requires(on_disk, (s,)),
        ensures
            r ==> is_taken(*on_disk, self@, file@),
            !r ==> is_free(*on_disk, self@, file@),
    {
        let there = on_disk(file);
        there || self.has_file(file)
    }
}

/// Did the disk answer that it has a file, or does the library list it?
pub open spec fn is_taken<F: Fn(&str) -> bool>(on_disk: F, lib: Seq<ArchiveV>, file: Seq<char>) -> bool {
    lists(lib, file) || exists|s: &str| s@ == file && #[trigger] call_ensures(on_disk, (s,), true)
}

/// Did the disk answer that it lacks a file, and does the library not list
/// it?
pub open spec fn is_free<F: Fn(&str) -> bool>(on_disk: F, lib: Seq<ArchiveV>, file: Seq<char>) -> bool {
    !lists(lib, file) && exists|s: &str| s@ == file && #[trigger] call_ensures(on_disk, (s,), false)
}

/// Is a name the `n`th try, free, with every earlier try taken?
pub open spec fn free_at<F: Fn(&str) -> bool>(
    on_disk: F,
    lib: Seq<ArchiveV>,
    base: Seq<char>,
    n: int,
    name: Seq<char>,
) -> bool {
    &&& n >= 1
    &&& name == name_try(base, n)
    &&& is_free(on_disk, lib, name)
    &&& forall|k: int| 1 <= k < n ==> is_taken(on_disk, lib, #[trigger] name_try(base, k))
}

/// Is a name the first try that is free?
pub open spec fn first_free<F: Fn(&str) -> bool>(
    on_disk: F,
    lib: Seq<ArchiveV>,
    base: Seq<char>,
    name: Seq<char>,
) -> bool {
    exists|n: int| #[trigger] free_at(on_disk, lib, base, n, name)
}

/// Is every try taken that a number can be put in?
pub open spec fn all_taken<F: Fn(&str) -> bool>(on_disk: F, lib: Seq<ArchiveV>, base: Seq<char>) -> bool {
    forall|k: int| 1 <= k < u64::MAX ==> is_taken(on_disk, lib, #[trigger] name_try(base, k))
}

/// Puts a name among sorted names.
pub fn sort_in(out: &mut Vec<String>, name: &String)
    ensures
        strs(final(out)@) == name_in(strs(old(out)@), name@),
{
    let ghost all = strs(out@);
    let mut k: usize = out.len();
    assert(all.take(k as int) =~= all);
    assert(name_in(all, name@) =~= name_in(all.take(k as int), name@) + all.skip(k as int));
    let c = chars_of(name.as_str());
    while k > 0
        invariant
            k <= out@.len(),
            *out == *old(out),
            all == strs(out@),
            c@ == name@,
            name_in(all, name@) == name_in(all.take(k as int), name@) + all.skip(k as int),
        decreases k,
    {
        let o = chars_of(out[k - 1].as_str());
        assert(all.take(k as int).last() == o@);
        if compare_text(c.as_slice(), o.as_slice()) >= 0 {
            out.insert(k, name.clone());
            assert(strs(out@) =~= all.take(k as int).push(name@) + all.skip(k as int));
            return;
        }
        assert(all.take(k as int).drop_last() =~= all.take(k - 1));
        assert(name_in(all.take(k - 1), name@).push(all[k - 1]) + all.skip(k as int) =~= name_in(
            all.take(k - 1),
            name@,
        ) + all.skip(k - 1));
        k -= 1;
    }
    out.insert(0, name.clone());
    assert(strs(out@) =~= all.take(0).push(name@) + all.skip(0));
}

/// Of two archives with one digest the first stays, and an archive whose
/// length is its own, or whose bytes cannot be read, stays.
pub proof fn only_copies_go(
    lib: Seq<ArchiveV>,
    sizes: Seq<u64>,
    hashes: Seq<Option<Seq<char>>>,
    i: int,
    n: int,
)
    requires
        lib.len() == sizes.len(),
        lib.len() == hashes.len(),
        0 <= i < n <= lib.len(),
        !contested(sizes, i) || hashes[i] is None || forall|j: int|
            0 <= j < i ==> #[trigger] hashes[j] != hashes[i],
    ensures
        collapsed(lib, sizes, hashes, n).contains(lib[i]),
    decreases n,
{
    assert(!copied(sizes, hashes, i));
    let before = collapsed(lib, sizes, hashes, n - 1);
    if i == n - 1 {
        assert(collapsed(lib, sizes, hashes, n)[before.len() as int] == lib[i]);
    } else {
        only_copies_go(lib, sizes, hashes, i, n - 1);
        let k = choose|k: int| 0 <= k < before.len() && before[k] == lib[i];
        assert(collapsed(lib, sizes, hashes, n)[k] == lib[i]);
    }
}

/// A change awaiting its build.
#[derive(Debug)]
pub struct Pending {
    before: Library,
    added: Vec<String>,
    held: Vec<String>,
}

/// What a waiting change holds.
#[verifier::ext_equal]
pub struct PendingV {
    pub before: Seq<ArchiveV>,
    pub added: Seq<Seq<char>>,
    pub held: Seq<Seq<char>>,
}

impl View for Pending {
    type V = PendingV;

    closed spec fn view(&self) -> PendingV {
        PendingV { before: self.before@, added: strs(self.added@), held: strs(self.held@) }
    }
}

/// What undoing a change takes: the archives to move back, those to delete,
/// and the manifest to write.
pub struct Undo<'a> {
    pub restore: &'a Vec<String>,
    pub delete: &'a Vec<String>,
    pub manifest: &'a Library,
}

impl Pending {
    /// Nothing has moved yet.
    pub fn new(before: &Library) -> (r: Pending)
        ensures
            r@ == (PendingV { before: before@, added: seq![], held: seq![] }),
    {
        let r = Pending { before: before.clone(), added: Vec::new(), held: Vec::new() };
        assert(r@ =~= PendingV { before: before@, added: seq![], held: seq![] });
        r
    }

    /// Record a copied-in archive.
    pub fn added(&mut self, file: String)
        ensures
            final(self)@ == (PendingV { added: old(self)@.added.push(file@), ..old(self)@ }),
    {
        self.added.push(file);
        assert(strs(self.added@) =~= strs(old(self).added@).push(file@));
    }

    /// Record a moved-aside archive.
    pub fn held(&mut self, file: String)
        ensures
            final(self)@ == (PendingV { held: old(self)@.held.push(file@), ..old(self)@ }),
    {
        self.held.push(file);
        assert(strs(self.held@) =~= strs(old(self).held@).push(file@));
    }

    /// Keep it. The moved-aside archives to delete.
    pub fn commit(&self) -> (r: &Vec<String>)
        ensures
            strs(r@) == self@.held,
    {
        &self.held
    }

    /// Undo it. Archives return, imports go, and the manifest is as before.
    pub fn rollback(&self) -> (r: Undo<'_>)
        ensures
            strs(r.restore@) == self@.held,
            strs(r.delete@) == self@.added,
            r.manifest@ == self@.before,
    {
        Undo { restore: &self.held, delete: &self.added, manifest: &self.before }
    }
}

proof fn name_in_holds(list: Seq<Seq<char>>, name: Seq<char>, x: Seq<char>)
    ensures
        name_in(list, name).contains(x) <==> list.contains(x) || x == name,
    decreases list.len(),
{
    let out = name_in(list, name);
    if list.len() > 0 && lex(name, list.last()) < 0 {
        let front = list.drop_last();
        let inner = name_in(front, name);
        name_in_holds(front, name, x);
        if out.contains(x) {
            let k = choose|k: int| 0 <= k < out.len() && out[k] == x;
            if k < inner.len() {
                assert(inner[k] == x);
                if front.contains(x) {
                    let m = choose|m: int| 0 <= m < front.len() && front[m] == x;
                    assert(list[m] == x);
                }
            } else {
                assert(list[list.len() - 1] == x);
            }
        }
        if list.contains(x) {
            let m = choose|m: int| 0 <= m < list.len() && list[m] == x;
            if m < front.len() {
                assert(front[m] == x);
            } else {
                assert(out[out.len() - 1] == x);
            }
        }
        if inner.contains(x) {
            let k = choose|k: int| 0 <= k < inner.len() && inner[k] == x;
            assert(out[k] == x);
        }
    } else {
        assert(out[list.len() as int] == name);
        if list.contains(x) {
            let m = choose|m: int| 0 <= m < list.len() && list[m] == x;
            assert(out[m] == x);
        }
    }
}

proof fn strays_hold(lib: Seq<ArchiveV>, listing: Seq<Seq<char>>, n: int, x: Seq<char>)
    requires
        0 <= n <= listing.len(),
    ensures
        strays_upto(lib, listing, n).contains(x) <==> zip_named(x) && !lists(lib, x)
            && listing.take(n).contains(x),
    decreases n,
{
    if n > 0 {
        let name = listing[n - 1];
        strays_hold(lib, listing, n - 1, x);
        name_in_holds(strays_upto(lib, listing, n - 1), name, x);
        let all = listing.take(n);
        let front = listing.take(n - 1);
        assert(all[n - 1] == name);
        if front.contains(x) {
            let m = choose|m: int| 0 <= m < front.len() && front[m] == x;
            assert(all[m] == x);
        }
        if all.contains(x) && x != name {
            let m = choose|m: int| 0 <= m < all.len() && all[m] == x;
            assert(front[m] == x);
        }
    }
}

proof fn found_on_disk(disk: Seq<DiskV>, i: int)
    requires
        0 <= i < disk.len(),
    ensures
        on_disk(disk, disk[i].name) is Some,
    decreases i,
{
    if disk[0].name != disk[i].name {
        assert(disk.skip(1)[i - 1] == disk[i]);
        found_on_disk(disk.skip(1), i - 1);
    }
}

/// Every archive in the folder is listed, whether or not the manifest named
/// it.
pub proof fn every_archive_of_the_folder_is_listed(lib: Seq<ArchiveV>, disk: Seq<DiskV>, i: int)
    requires
        0 <= i < disk.len(),
        zip_named(disk[i].name),
    ensures
        lists(reconciled(lib, disk), disk[i].name),
{
    let name = disk[i].name;
    let kept = still_there(lib, disk, lib.len() as int);
    let names = names_of(disk);
    let strays = strays_upto(kept, names, disk.len() as int);
    let out = reconciled(lib, disk);
    if lists(kept, name) {
        let k = choose|k: int| 0 <= k < kept.len() && (#[trigger] kept[k]).file == name;
        assert(out[k].file == name);
    } else {
        assert(names.take(disk.len() as int)[i] == name);
        strays_hold(kept, names, disk.len() as int, name);
        let k = choose|k: int| 0 <= k < strays.len() && strays[k] == name;
        assert(out[kept.len() + k].file == name);
    }
}

proof fn kept_are_there(lib: Seq<ArchiveV>, disk: Seq<DiskV>, n: int, k: int)
    requires
        0 <= n <= lib.len(),
        0 <= k < still_there(lib, disk, n).len(),
    ensures
        on_disk(disk, still_there(lib, disk, n)[k].file) is Some,
    decreases n,
{
    if n > 0 && k < still_there(lib, disk, n - 1).len() {
        kept_are_there(lib, disk, n - 1, k);
    }
}

/// Nothing that is gone from the folder is offered.
pub proof fn a_listed_archive_is_in_the_folder(lib: Seq<ArchiveV>, disk: Seq<DiskV>, k: int)
    requires
        0 <= k < reconciled(lib, disk).len(),
    ensures
        on_disk(disk, reconciled(lib, disk)[k].file) is Some,
{
    let kept = still_there(lib, disk, lib.len() as int);
    let names = names_of(disk);
    let strays = strays_upto(kept, names, disk.len() as int);
    if k < kept.len() {
        kept_are_there(lib, disk, lib.len() as int, k);
    } else {
        let x = strays[k - kept.len()];
        assert(strays.contains(x));
        strays_hold(kept, names, disk.len() as int, x);
        let all = names.take(disk.len() as int);
        let m = choose|m: int| 0 <= m < all.len() && all[m] == x;
        assert(disk[m].name == x);
        found_on_disk(disk, m);
    }
}

/// The files of a folder once a change has moved them.
pub open spec fn moved_files(files: Set<Seq<char>>, p: PendingV) -> Set<Seq<char>> {
    files.union(p.added.to_set()).difference(p.held.to_set())
}

/// The files of a folder once a change is undone.
pub open spec fn restored_files(files: Set<Seq<char>>, p: PendingV) -> Set<Seq<char>> {
    files.difference(p.added.to_set()).union(p.held.to_set())
}

/// A change that is undone leaves the folder as it was: the archives that were
/// moved aside were there, and those that were copied in were not.
pub proof fn an_undone_change_leaves_the_files(files: Set<Seq<char>>, p: PendingV)
    requires
        forall|f: Seq<char>| #[trigger] p.held.contains(f) ==> files.contains(f),
        forall|f: Seq<char>| #[trigger] p.added.contains(f) ==> !files.contains(f),
    ensures
        restored_files(moved_files(files, p), p) == files,
{
    assert forall|f: Seq<char>| restored_files(moved_files(files, p), p).contains(f)
        == files.contains(f) by {
        assert(p.held.to_set().contains(f) == p.held.contains(f));
        assert(p.added.to_set().contains(f) == p.added.contains(f));
    }
    assert(restored_files(moved_files(files, p), p) =~= files);
}

/// Of archives with the same bytes the first one stays and the others go: of
/// archives with readable bytes and a known length, one is left out exactly
/// where an earlier one has the same hash.
pub proof fn of_copies_the_first_stays(
    lib: Seq<ArchiveV>,
    sizes: Seq<u64>,
    hashes: Seq<Option<Seq<char>>>,
    i: int,
    n: int,
)
    requires
        lib.len() == sizes.len(),
        lib.len() == hashes.len(),
        0 <= i < n <= lib.len(),
        forall|a: int, b: int|
            0 <= a < b < lib.len() ==> (#[trigger] lib[a]).file != (#[trigger] lib[b]).file,
        forall|a: int, b: int|
            0 <= a < b < lib.len() && (#[trigger] hashes[a]) is Some && hashes[a]
                == #[trigger] hashes[b] ==> sizes[a] == sizes[b],
        sizes[i] > 0,
        hashes[i] is Some,
    ensures
        collapsed(lib, sizes, hashes, n).contains(lib[i]) <==> forall|j: int|
            0 <= j < i ==> #[trigger] hashes[j] != hashes[i],
    decreases n,
{
    collapsed_is_of(lib, sizes, hashes, n);
    if i < n - 1 {
        of_copies_the_first_stays(lib, sizes, hashes, i, n - 1);
        let before = collapsed(lib, sizes, hashes, n - 1);
        let all = collapsed(lib, sizes, hashes, n);
        if before.contains(lib[i]) {
            let k = choose|k: int| 0 <= k < before.len() && before[k] == lib[i];
            assert(all[k] == lib[i]);
        }
        if all.contains(lib[i]) {
            let k = choose|k: int| 0 <= k < all.len() && all[k] == lib[i];
            if k < before.len() {
                assert(before[k] == lib[i]);
            } else {
                assert(lib[i].file != lib[n - 1].file);
            }
        }
    } else {
        let before = collapsed(lib, sizes, hashes, n - 1);
        let all = collapsed(lib, sizes, hashes, n);
        collapsed_is_of(lib, sizes, hashes, n - 1);
        if before.contains(lib[i]) {
            let k = choose|k: int| 0 <= k < before.len() && before[k] == lib[i];
            let m = choose|m: int| 0 <= m < n - 1 && lib[m] == before[k];
            assert(lib[m].file != lib[i].file);
        }
        if exists|j: int| 0 <= j < i && #[trigger] hashes[j] == hashes[i] {
            let j = choose|j: int| 0 <= j < i && #[trigger] hashes[j] == hashes[i];
            assert(sizes[j] == sizes[i]);
            assert(contested(sizes, i));
            assert(contested(sizes, j));
            assert(copied(sizes, hashes, i));
        } else {
            assert(!copied(sizes, hashes, i));
            assert(all[before.len() as int] == lib[i]);
        }
    }
}

proof fn collapsed_is_of(
    lib: Seq<ArchiveV>,
    sizes: Seq<u64>,
    hashes: Seq<Option<Seq<char>>>,
    n: int,
)
    requires
        0 <= n <= lib.len(),
    ensures
        forall|k: int|
            0 <= k < collapsed(lib, sizes, hashes, n).len() ==> exists|m: int|
                0 <= m < n && lib[m] == #[trigger] collapsed(lib, sizes, hashes, n)[k],
    decreases n,
{
    if n > 0 {
        collapsed_is_of(lib, sizes, hashes, n - 1);
        let before = collapsed(lib, sizes, hashes, n - 1);
        let all = collapsed(lib, sizes, hashes, n);
        assert forall|k: int| 0 <= k < all.len() implies exists|m: int|
            0 <= m < n && lib[m] == #[trigger] all[k] by {
            if k < before.len() {
                assert(all[k] == before[k]);
                let m = choose|m: int| 0 <= m < n - 1 && lib[m] == before[k];
                assert(lib[m] == all[k]);
            } else {
                assert(lib[n - 1] == all[k]);
            }
        }
    }
}

proof fn on_disk_is_first(disk: Seq<DiskV>, name: Seq<char>)
    ensures
        match on_disk(disk, name) {
            Some(f) => exists|k: int|
                {
                    &&& 0 <= k < disk.len()
                    &&& #[trigger] disk[k] == f
                    &&& f.name == name
                    &&& forall|j: int| 0 <= j < k ==> (#[trigger] disk[j]).name != name
                },
            None => forall|j: int| 0 <= j < disk.len() ==> (#[trigger] disk[j]).name != name,
        },
    decreases disk.len(),
{
    if disk.len() > 0 && disk[0].name != name {
        let rest = disk.skip(1);
        on_disk_is_first(rest, name);
        match on_disk(rest, name) {
            Some(f) => {
                let k = choose|k: int|
                    {
                        &&& 0 <= k < rest.len()
                        &&& #[trigger] rest[k] == f
                        &&& forall|j: int| 0 <= j < k ==> (#[trigger] rest[j]).name != name
                    };
                assert(disk[k + 1] == f);
                assert forall|j: int| 0 <= j < k + 1 implies (#[trigger] disk[j]).name != name by {
                    if j > 0 {
                        assert(rest[j - 1] == disk[j]);
                    }
                }
            },
            None => {
                assert forall|j: int| 0 <= j < disk.len() implies (#[trigger] disk[j]).name != name by {
                    if j > 0 {
                        assert(rest[j - 1] == disk[j]);
                    }
                }
            },
        }
    } else if disk.len() > 0 {
        assert(disk[0] == disk[0]);
    }
}

proof fn stays_listed(lib: Seq<ArchiveV>, disk: Seq<DiskV>, n: int, i: int)
    requires
        0 <= i < n <= lib.len(),
        on_disk(disk, lib[i].file) is Some,
    ensures
        still_there(lib, disk, n).contains(
            (ArchiveV { roles: on_disk(disk, lib[i].file)->0.roles, ..lib[i] }),
        ),
    decreases n,
{
    let want = ArchiveV { roles: on_disk(disk, lib[i].file)->0.roles, ..lib[i] };
    let before = still_there(lib, disk, n - 1);
    let all = still_there(lib, disk, n);
    if i < n - 1 {
        stays_listed(lib, disk, n - 1, i);
        let k = choose|k: int| 0 <= k < before.len() && before[k] == want;
        assert(all[k] == want);
    } else {
        assert(all[before.len() as int] == want);
    }
}

/// An archive that is listed and still there stays listed under its name, with
/// the roles that its file has now.
pub proof fn a_file_decides_its_roles(lib: Seq<ArchiveV>, disk: Seq<DiskV>, i: int, d: int)
    requires
        0 <= i < lib.len(),
        0 <= d < disk.len(),
        disk[d].name == lib[i].file,
        forall|j: int| 0 <= j < d ==> (#[trigger] disk[j]).name != lib[i].file,
    ensures
        reconciled(lib, disk).contains(
            (ArchiveV { file: lib[i].file, name: lib[i].name, roles: disk[d].roles }),
        ),
{
    on_disk_is_first(disk, lib[i].file);
    let f = lib[i].file;
    assert(disk[d].name == f);
    assert(on_disk(disk, f) == Some(disk[d])) by {
        let found = on_disk(disk, f)->0;
        let k = choose|k: int|
            {
                &&& 0 <= k < disk.len()
                &&& #[trigger] disk[k] == found
                &&& found.name == f
                &&& forall|j: int| 0 <= j < k ==> (#[trigger] disk[j]).name != f
            };
        if k < d {
            assert(disk[k].name != f);
        }
        if d < k {
            assert(disk[d].name != f);
        }
    }
    stays_listed(lib, disk, lib.len() as int, i);
    let kept = still_there(lib, disk, lib.len() as int);
    let want = ArchiveV { roles: disk[d].roles, ..lib[i] };
    let k = choose|k: int| 0 <= k < kept.len() && kept[k] == want;
    assert(reconciled(lib, disk)[k] == want);
}

/// No two tries of a name are the same, and each has the extension of the name.
pub proof fn no_two_tries_share_a_name(base: Seq<char>, m: int, n: int)
    requires
        1 < m,
        1 < n,
        m != n,
    ensures
        name_try(base, m) != name_try(base, n),
        name_try(base, 1) == base,
        name_try(base, n).len() >= extension(base).len(),
        name_try(base, n).skip(name_try(base, n).len() - extension(base).len()) == extension(base),
        name_try(base, n).take(stem(base).len() as int) == stem(base),
{
    let a = name_try(base, m);
    let b = name_try(base, n);
    let head = stem(base) + " ("@;
    let tail = ")"@ + extension(base);
    crate::chars::a_decimal_reads_back(m as nat);
    crate::chars::a_decimal_reads_back(n as nat);
    let x = decimal(m as nat);
    let y = decimal(n as nat);
    assert(a =~= head + x + tail);
    assert(b =~= head + y + tail);
    assert(b.skip(b.len() - extension(base).len()) =~= extension(base));
    assert(b.take(stem(base).len() as int) =~= stem(base));
    if a == b {
        assert(x.len() == y.len());
        assert(x =~= y) by {
            assert forall|i: int| 0 <= i < x.len() implies x[i] == y[i] by {
                assert(a[head.len() + i] == x[i]);
                assert(b[head.len() + i] == y[i]);
            }
        }
    }
}

/// An archive goes by the title that its index gives, and by its file's stem
/// where it gives none.
pub proof fn an_archive_goes_by_its_title(title: Seq<char>, file: Seq<char>)
    ensures
        title.len() > 0 ==> titled(Some(title), file) == title,
        title.len() == 0 ==> titled(Some(title), file) + extension(file) == file,
        titled(None, file) + extension(file) == file,
        zip_named(file) ==> file.len() > 4 && lower(file.skip(file.len() - 4)) == ".zip"@,
{
    crate::chars::stem_and_extension_are_the_name(file);
    reveal_strlit(".zip");
    if zip_named(file) {
        assert(lower(extension(file)).len() == 4);
        assert(file.skip(file.len() - 4) =~= extension(file));
    }
}

/// A name put among others is there, and so are the others; nothing else is.
pub proof fn a_name_put_in_is_there(list: Seq<Seq<char>>, name: Seq<char>, x: Seq<char>)
    ensures
        name_in(list, name).contains(x) <==> x == name || list.contains(x),
        name_in(list, name).len() == list.len() + 1,
    decreases list.len(),
{
    let r = name_in(list, name);
    if list.len() > 0 && lex(name, list.last()) < 0 {
        let front = list.drop_last();
        let p = name_in(front, name);
        let n = list.len() - 1;
        a_name_put_in_is_there(front, name, x);
        if r.contains(x) {
            let j = choose|j: int| 0 <= j < r.len() && r[j] == x;
            if j < p.len() {
                assert(p[j] == x);
                if front.contains(x) {
                    let i = choose|i: int| 0 <= i < front.len() && front[i] == x;
                    assert(list[i] == x);
                }
            } else {
                assert(list[n] == x);
            }
        }
        if list.contains(x) {
            let i = choose|i: int| 0 <= i < list.len() && list[i] == x;
            if i < n {
                assert(front[i] == x);
            } else {
                assert(r[p.len() as int] == x);
            }
        }
        if p.contains(x) {
            let j = choose|j: int| 0 <= j < p.len() && p[j] == x;
            assert(r[j] == x);
        }
    } else {
        if r.contains(x) {
            let j = choose|j: int| 0 <= j < r.len() && r[j] == x;
            if j < list.len() {
                assert(list[j] == x);
            }
        }
        if x == name {
            assert(r[list.len() as int] == x);
        }
        if list.contains(x) {
            let i = choose|i: int| 0 <= i < list.len() && list[i] == x;
            assert(r[i] == x);
        }
    }
}

/// A stray is a zip archive of the folder that the library does not list, and
/// every such archive is one.
pub proof fn a_stray_is_an_unlisted_archive(
    lib: Seq<ArchiveV>,
    listing: Seq<Seq<char>>,
    n: int,
    x: Seq<char>,
)
    requires
        0 <= n <= listing.len(),
    ensures
        strays_upto(lib, listing, n).contains(x) <==> (exists|i: int|
            0 <= i < n && #[trigger] listing[i] == x) && zip_named(x) && forall|k: int|
            0 <= k < lib.len() ==> (#[trigger] lib[k]).file != x,
    decreases n,
{
    if n > 0 {
        a_stray_is_an_unlisted_archive(lib, listing, n - 1, x);
        a_name_put_in_is_there(strays_upto(lib, listing, n - 1), listing[n - 1], x);
    }
}

/// A name that an archive is given is no listed file's, and it is the archive's
/// own unless a file or an entry has that already.
pub proof fn a_free_name_is_its_own_where_it_can_be<F: Fn(&str) -> bool>(
    on_disk: F,
    lib: Seq<ArchiveV>,
    base: Seq<char>,
    name: Seq<char>,
)
    requires
        first_free(on_disk, lib, base, name),
    ensures
        forall|k: int| 0 <= k < lib.len() ==> (#[trigger] lib[k]).file != name,
        !is_taken(on_disk, lib, base) ==> name == base,
        name != base ==> name.take(stem(base).len() as int) == stem(base),
{
    let n = choose|n: int| #[trigger] free_at(on_disk, lib, base, n, name);
    assert(name_try(base, 1) == base);
    if n > 1 {
        assert(name_try(base, n).take(stem(base).len() as int) =~= stem(base));
    }
    assert(!lists(lib, name));
}

} // verus!
