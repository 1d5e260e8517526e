//! The SettingsForm model and the configuration update rules.
//!
//! The settings process edits a shared Config through this form.
//! The core keeps Dictionary roles, language lists, and staged changes here.
use crate::chars::{
    chars_of, copy_list, join, joined, list_has, push_chars, same_list, same_str, signed, signed_of,
    split_extension, stem, string_of, strs, trim, trim_of,
};
use crate::config::{
    a_list_keeps_its_other_names, copy_map, drop_name, flagged, lists_without, named, rows_v, same_copy, with_installed, without,
    ActionsConfig, AnkiConfig,
    Config, DebugConfig, DictionariesConfig, DictionariesV, FieldMapping, LayoutMode, OcrClipboardConfig,
    OcrConfig, PerLanguage, PluginsConfig, PopupConfig, RankingStrategy, ScreenshotConfig,
    SelectionButtons, SelectionSeparator, SentenceMode, TriggerConfig, TriggerMode, TripleClick,
};
use crate::json::{find_string, json_fields, json_list, read_fields, read_list, string_field};
use crate::library::{files_where, ArchiveV, Library, Role, Roles};
use crate::present::{infos_v, DictInfo, InfoV};
use vstd::prelude::*;

pub use crate::config::{
    CAPTURE_H_RANGE, CAPTURE_W_RANGE, MAX_HEIGHT_RANGE, MAX_WIDTH_RANGE, PASSES_RANGE, SUMMARY_RANGE,
};

verus! {

/// One Dictionary row in one role list.
///
/// The name identifies the Dictionary. The flag enables that role. Enabled
/// state belongs to each role, not to the Dictionary.
#[derive(Debug, PartialEq, Eq)]
pub struct DictRow {
    pub name: String,
    pub enabled: bool,
}

impl Clone for DictRow {
    fn clone(&self) -> (r: Self)
        ensures
            r == *self,
    {
        DictRow { name: self.name.clone(), enabled: self.enabled }
    }
}

/// An import staged until Apply.
#[derive(Debug, Clone, PartialEq, Eq)]
pub struct StagedAdd {
    /// The components of the source path.
    pub source: Vec<String>,
    /// The title that the Dictionary provides.
    pub name: String,
}

/// What the rows of a list hold.
pub open spec fn drows(s: Seq<DictRow>) -> Seq<(Seq<char>, bool)> {
    s.map_values(|r: DictRow| (r.name@, r.enabled))
}

/// What the staged imports hold: each source and name.
pub open spec fn adds_v(s: Seq<StagedAdd>) -> Seq<(Seq<Seq<char>>, Seq<char>)> {
    s.map_values(|a: StagedAdd| (strs(a.source@), a.name@))
}

/// The fields that the settings window edits.
#[derive(Debug, Clone, PartialEq, Eq)]
pub struct SettingsForm {
    pub mode: TriggerMode,
    pub trigger_key: String,
    pub theme: String,
    pub font: String,
    pub max_width_percent: u8,
    pub max_height_percent: u8,
    pub summary_chars: usize,
    pub highlight_match: bool,
    pub scroll_popup: bool,
    pub edge_autoscroll: bool,
    pub side_panel: bool,
    pub layout_mode: LayoutMode,
    pub dictionary_styling: bool,
    pub show_examples: bool,
    pub show_attributions: bool,
    pub show_images: bool,
    pub show_part_of_speech: bool,
    pub exclude_from_capture: bool,
    /// The terms Dictionary list: every Dictionary that the config names or
    /// that the Library holds with that role, in priority order. List order
    /// and enabled state are separate.
    pub terms: Vec<DictRow>,
    /// The frequency Dictionary list. Position is the order that
    /// `RankingStrategy::Priority` reads.
    pub frequency: Vec<DictRow>,
    /// The pitch Dictionary list. This checkbox is the only pitch switch.
    pub pitch: Vec<DictRow>,
    /// The rule that reduces Reported frequencies to one Frequency rank.
    pub ranking_strategy: RankingStrategy,
    pub dict_list_language: String,
    pub per_language: PerLanguage,
    pub max_ocr_passes: u8,
    pub prefer_vertical: bool,
    pub capture_width: i32,
    pub capture_height: i32,
    pub scan_alphanumeric: bool,
    pub per_character_lookup: bool,
    pub ocr_language: String,
    /// "builtin" or the name of a plugin.
    pub engine: String,
    pub show_scan_region: bool,
    pub show_engine_log: bool,
    pub show_adapter_log: bool,
    pub freq_changed: bool,
    pub staged_adds: Vec<StagedAdd>,
    pub staged_removes: Vec<String>,
    pub library_empty: bool,
    /// Files that no archive reader can read. The window lists these files
    /// but does not order them.
    pub unreadable: Vec<String>,
    pub anki_enabled: bool,
    pub anki_url: String,
    pub anki_deck: String,
    pub anki_model: String,
    pub anki_add_key: String,
    /// `None` means that this window has no answer about the field map, so
    /// Apply leaves the saved map unchanged. `Some` of an empty map means
    /// that a user mapped no fields: the form saves it.
    pub field_map: Option<Vec<FieldMapping>>,
    pub notify_on_add: bool,
    pub sentence_mode: SentenceMode,
    pub static_region_key: String,
    pub show_static_overlay: bool,
    /// The action is off when this value is `None`.
    pub ocr_clipboard_key: Option<String>,
    pub include_screenshot: bool,
    /// Whether the note uses only the top Dictionary's Entry.
    pub first_dict_only: bool,
    /// Which physical button applies a glossary selection.
    pub selection_buttons: SelectionButtons,
    /// Which separator joins selected glossary fragments.
    pub selection_separator: SelectionSeparator,
    /// What a triple-click selects.
    pub triple_click: TripleClick,
    pub enabled_plugins: Vec<String>,
}

/// The rows of a list without those of a name.
pub open spec fn rows_without(rows: Seq<(Seq<char>, bool)>, name: Seq<char>) -> Seq<(Seq<char>, bool)> {
    rows.filter(|r: (Seq<char>, bool)| r.0 != name)
}

/// The staged imports without those of a name.
pub open spec fn adds_without(
    adds: Seq<(Seq<Seq<char>>, Seq<char>)>,
    name: Seq<char>,
) -> Seq<(Seq<Seq<char>>, Seq<char>)> {
    adds.filter(|a: (Seq<Seq<char>>, Seq<char>)| a.1 != name)
}

/// Is a source staged?
pub open spec fn staged_from(adds: Seq<(Seq<Seq<char>>, Seq<char>)>, source: Seq<Seq<char>>) -> bool {
    exists|i: int| 0 <= i < adds.len() && (#[trigger] adds[i]).0 == source
}

/// Is a name staged?
pub open spec fn staged_as(adds: Seq<(Seq<Seq<char>>, Seq<char>)>, name: Seq<char>) -> bool {
    exists|i: int| 0 <= i < adds.len() && (#[trigger] adds[i]).1 == name
}

fn has_row(rows: &Vec<DictRow>, name: &str) -> (r: bool)
    ensures
        r == named(drows(rows@), name@),
{
    let mut i: usize = 0;
    while i < rows.len()
        invariant
            i <= rows@.len(),
            forall|j: int| 0 <= j < i ==> (#[trigger] drows(rows@)[j]).0 != name@,
        decreases rows@.len() - i,
    {
        if same_str(rows[i].name.as_str(), name) {
            assert(drows(rows@)[i as int].0 == name@);
            return true;
        }
        i += 1;
    }
    false
}

fn drop_rows(rows: &Vec<DictRow>, name: &str) -> (r: Vec<DictRow>)
    ensures
        drows(r@) == rows_without(drows(rows@), name@),
{
    let ghost want = |r: (Seq<char>, bool)| r.0 != name@;
    let ghost all = drows(rows@);
    let mut out: Vec<DictRow> = Vec::new();
    assert(drows(out@) =~= all.take(0).filter(want)) by {
        reveal(Seq::filter);
    }
    let mut i: usize = 0;
    while i < rows.len()
        invariant
            i <= rows@.len(),
            all == drows(rows@),
            want == (|r: (Seq<char>, bool)| r.0 != name@),
            drows(out@) == all.take(i as int).filter(want),
        decreases rows@.len() - i,
    {
        proof {
            reveal(Seq::filter);
            assert(all.take(i + 1).drop_last() =~= all.take(i as int));
            assert(all.take(i + 1).last() == all[i as int]);
        }
        if !same_str(rows[i].name.as_str(), name) {
            let ghost before = drows(out@);
            out.push(rows[i].clone());
            assert(drows(out@) =~= before.push(all[i as int]));
        }
        i += 1;
    }
    assert(all.take(i as int) =~= all);
    out
}

fn push_row(rows: &mut Vec<DictRow>, name: &str, enabled: bool)
    ensures
        drows(final(rows)@) == drows(old(rows)@).push((name@, enabled)),
{
    rows.push(DictRow { name: name.to_owned(), enabled });
    assert(drows(rows@) =~= drows(old(rows)@).push((name@, enabled)));
}

fn row_if(rows: &Vec<DictRow>, name: &str, wanted: bool) -> (r: Vec<DictRow>)
    ensures
        drows(r@) == if wanted {
            drows(rows@).push((name@, true))
        } else {
            drows(rows@)
        },
{
    let mut out: Vec<DictRow> = Vec::new();
    let mut i: usize = 0;
    while i < rows.len()
        invariant
            i <= rows@.len(),
            out@ == rows@.take(i as int),
        decreases rows@.len() - i,
    {
        out.push(rows[i].clone());
        i += 1;
    }
    assert(rows@.take(i as int) =~= rows@);
    if wanted {
        push_row(&mut out, name, true);
    }
    out
}

fn with_name(names: &Vec<String>, name: &str) -> (r: Vec<String>)
    ensures
        strs(r@) == strs(names@).push(name@),
{
    let mut out = copy_list(names);
    out.push(name.to_owned());
    assert(strs(out@) =~= strs(names@).push(name@));
    out
}

fn with_add(adds: &Vec<StagedAdd>, source: &Vec<String>, name: String) -> (r: Vec<StagedAdd>)
    ensures
        adds_v(r@) == adds_v(adds@).push((strs(source@), name@)),
{
    let mut out: Vec<StagedAdd> = Vec::new();
    let mut i: usize = 0;
    while i < adds.len()
        invariant
            i <= adds@.len(),
            adds_v(out@) == adds_v(adds@).take(i as int),
        decreases adds@.len() - i,
    {
        let ghost before = adds_v(out@);
        let a = &adds[i];
        out.push(StagedAdd { source: copy_list(&a.source), name: a.name.clone() });
        assert(adds_v(out@) =~= before.push(adds_v(adds@)[i as int]));
        assert(adds_v(adds@).take(i + 1) =~= adds_v(adds@).take(i as int).push(
            adds_v(adds@)[i as int],
        ));
        i += 1;
    }
    assert(adds_v(adds@).take(i as int) =~= adds_v(adds@));
    out.push(StagedAdd { source: copy_list(source), name });
    assert(adds_v(out@) =~= adds_v(adds@).push((strs(source@), name@)));
    out
}

fn drop_adds(adds: &Vec<StagedAdd>, name: &str) -> (r: Vec<StagedAdd>)
    ensures
        adds_v(r@) == adds_without(adds_v(adds@), name@),
{
    let mut kept: Vec<StagedAdd> = Vec::new();
    let ghost want = |a: (Seq<Seq<char>>, Seq<char>)| a.1 != name@;
    let ghost all = adds_v(adds@);
    assert(adds_v(kept@) =~= all.take(0).filter(want)) by {
        reveal(Seq::filter);
    }
    let mut i: usize = 0;
    while i < adds.len()
        invariant
            i <= adds@.len(),
            all == adds_v(adds@),
            want == (|a: (Seq<Seq<char>>, Seq<char>)| a.1 != name@),
            adds_v(kept@) == all.take(i as int).filter(want),
        decreases adds@.len() - i,
    {
        proof {
            reveal(Seq::filter);
            assert(all.take(i + 1).drop_last() =~= all.take(i as int));
            assert(all.take(i + 1).last() == all[i as int]);
        }
        if !same_str(adds[i].name.as_str(), name) {
            let ghost before = adds_v(kept@);
            let a = &adds[i];
            kept.push(StagedAdd { source: copy_list(&a.source), name: a.name.clone() });
            assert(adds_v(kept@) =~= before.push(all[i as int]));
        }
        i += 1;
    }
    assert(all.take(i as int) =~= all);
    kept
}

impl SettingsForm {
    /// What the list of a role holds.
    pub open spec fn rows(self, role: Role) -> Seq<(Seq<char>, bool)> {
        match role {
            Role::Terms => drows(self.terms@),
            Role::Frequency => drows(self.frequency@),
            Role::Pitch => drows(self.pitch@),
        }
    }

    /// Do two forms agree in every setting, the Dictionary lists and the
    /// staged changes aside?
    pub open spec fn settings_as(self, other: SettingsForm) -> bool {
        &&& self.mode == other.mode
        &&& self.trigger_key == other.trigger_key
        &&& self.theme == other.theme
        &&& self.font == other.font
        &&& self.max_width_percent == other.max_width_percent
        &&& self.max_height_percent == other.max_height_percent
        &&& self.summary_chars == other.summary_chars
        &&& self.highlight_match == other.highlight_match
        &&& self.scroll_popup == other.scroll_popup
        &&& self.edge_autoscroll == other.edge_autoscroll
        &&& self.side_panel == other.side_panel
        &&& self.layout_mode == other.layout_mode
        &&& self.dictionary_styling == other.dictionary_styling
        &&& self.show_examples == other.show_examples
        &&& self.show_attributions == other.show_attributions
        &&& self.show_images == other.show_images
        &&& self.show_part_of_speech == other.show_part_of_speech
        &&& self.exclude_from_capture == other.exclude_from_capture
        &&& self.ranking_strategy == other.ranking_strategy
        &&& self.dict_list_language == other.dict_list_language
        &&& self.max_ocr_passes == other.max_ocr_passes
        &&& self.prefer_vertical == other.prefer_vertical
        &&& self.capture_width == other.capture_width
        &&& self.capture_height == other.capture_height
        &&& self.scan_alphanumeric == other.scan_alphanumeric
        &&& self.per_character_lookup == other.per_character_lookup
        &&& self.ocr_language == other.ocr_language
        &&& self.engine == other.engine
        &&& self.show_scan_region == other.show_scan_region
        &&& self.show_engine_log == other.show_engine_log
        &&& self.show_adapter_log == other.show_adapter_log
        &&& self.anki_enabled == other.anki_enabled
        &&& self.anki_url == other.anki_url
        &&& self.anki_deck == other.anki_deck
        &&& self.anki_model == other.anki_model
        &&& self.anki_add_key == other.anki_add_key
        &&& self.field_map == other.field_map
        &&& self.notify_on_add == other.notify_on_add
        &&& self.sentence_mode == other.sentence_mode
        &&& self.static_region_key == other.static_region_key
        &&& self.show_static_overlay == other.show_static_overlay
        &&& self.ocr_clipboard_key == other.ocr_clipboard_key
        &&& self.include_screenshot == other.include_screenshot
        &&& self.first_dict_only == other.first_dict_only
        &&& self.selection_buttons == other.selection_buttons
        &&& self.selection_separator == other.selection_separator
        &&& self.triple_click == other.triple_click
        &&& self.enabled_plugins == other.enabled_plugins
    }

    /// Does the form differ from another in its staged changes and role lists
    /// alone?
    pub open spec fn restaged(self, other: SettingsForm) -> bool {
        &&& self.settings_as(other)
        &&& self.per_language == other.per_language
        &&& self.unreadable == other.unreadable
        &&& self.library_empty == other.library_empty
    }

    /// The names staged for removal with one more, unless it is there or
    /// names a staged import.
    pub open spec fn removing(self, name: Seq<char>) -> Seq<Seq<char>> {
        if staged_as(adds_v(self.staged_adds@), name) || strs(self.staged_removes@).contains(name) {
            strs(self.staged_removes@)
        } else {
            strs(self.staged_removes@).push(name)
        }
    }

    fn removes_with(&self, name: &str) -> (r: Vec<String>)
        ensures
            strs(r@) == self.removing(name@),
    {
        if !self.is_staged_add(name) && !list_has(self.staged_removes.as_slice(), name) {
            with_name(&self.staged_removes, name)
        } else {
            copy_list(&self.staged_removes)
        }
    }

    /// The list of this role.
    pub fn list(&self, role: Role) -> (r: &Vec<DictRow>)
        ensures
            drows(r@) == self.rows(role),
    {
        match role {
            Role::Terms => &self.terms,
            Role::Frequency => &self.frequency,
            Role::Pitch => &self.pitch,
        }
    }

    /// The list of this role, to reorder or to check.
    pub fn list_mut(&mut self, role: Role) -> (r: &mut Vec<DictRow>)
        ensures
            *r == (match role {
                Role::Terms => old(self).terms,
                Role::Frequency => old(self).frequency,
                Role::Pitch => old(self).pitch,
            }),
            final(self).restaged(*old(self)),
            final(self).terms == if role == Role::Terms {
                *final(r)
            } else {
                old(self).terms
            },
            final(self).frequency == if role == Role::Frequency {
                *final(r)
            } else {
                old(self).frequency
            },
            final(self).pitch == if role == Role::Pitch {
                *final(r)
            } else {
                old(self).pitch
            },
            final(self).staged_adds == old(self).staged_adds,
            final(self).staged_removes == old(self).staged_removes,
            final(self).freq_changed == old(self).freq_changed,
    {
        match role {
            Role::Terms => &mut self.terms,
            Role::Frequency => &mut self.frequency,
            Role::Pitch => &mut self.pitch,
        }
    }

    /// Stages an archive for import, from what it supplies and the title it
    /// has.
    ///
    /// The archive goes to the bottom of every list for its roles, enabled.
    /// It does not move a prior row.
    ///
    /// The function returns `None` when the archive is unreadable, has no
    /// title, or is already staged.
    pub fn stage_add(&mut self, source: &Vec<String>, roles: Roles, title: Option<String>) -> (r: Option<
        Roles,
    >)
        ensures
            r == (if roles.none() || title is None || staged_from(
                adds_v(old(self).staged_adds@),
                strs(source@),
            ) {
                None
            } else {
                Some(roles)
            }),
            r is None ==> final(self).restaged(*old(self)) && final(self).terms == old(self).terms
                && final(self).frequency == old(self).frequency && final(self).pitch == old(self).pitch
                && final(self).staged_adds == old(self).staged_adds && final(self).staged_removes
                == old(self).staged_removes && final(self).freq_changed == old(self).freq_changed,
            r is Some ==> {
                let name = title->0@;
                &&& final(self).restaged(*old(self))
                &&& forall|role: Role|
                    #[trigger] final(self).rows(role) == if roles.holds(role) {
                        old(self).rows(role).push((name, true))
                    } else {
                        old(self).rows(role)
                    }
                &&& final(self).freq_changed == (old(self).freq_changed || roles.frequency)
                &&& adds_v(final(self).staged_adds@) == adds_v(old(self).staged_adds@).push(
                    (strs(source@), name),
                )
                &&& strs(final(self).staged_removes@) == strs(old(self).staged_removes@)
            },
    {
        if roles.is_empty() {
            return None;
        }
        let name = match title {
            Some(t) => t,
            None => {
                return None;
            },
        };
        // Titles can repeat because split editions use one title.
        if self.is_staged_source(source) {
            return None;
        }
        let terms = row_if(&self.terms, name.as_str(), roles.has(Role::Terms));
        let frequency = row_if(&self.frequency, name.as_str(), roles.has(Role::Frequency));
        let pitch = row_if(&self.pitch, name.as_str(), roles.has(Role::Pitch));
        let adds = with_add(&self.staged_adds, source, name);
        let changed = self.freq_changed || roles.has(Role::Frequency);
        self.set_lists(terms, frequency, pitch);
        let removes = copy_list(&self.staged_removes);
        self.set_staged(adds, removes, changed);
        Some(roles)
    }

    fn is_staged_source(&self, source: &Vec<String>) -> (r: bool)
        ensures
            r == staged_from(adds_v(self.staged_adds@), strs(source@)),
    {
        let mut i: usize = 0;
        while i < self.staged_adds.len()
            invariant
                i <= self.staged_adds@.len(),
                forall|j: int|
                    0 <= j < i ==> (#[trigger] adds_v(self.staged_adds@)[j]).0 != strs(source@),
            decreases self.staged_adds@.len() - i,
        {
            if same_list(&self.staged_adds[i].source, source) {
                assert(adds_v(self.staged_adds@)[i as int].0 == strs(source@));
                return true;
            }
            i += 1;
        }
        false
    }

    /// Stages a row for removal.
    ///
    /// The row leaves all role lists. One archive is one Dictionary, so
    /// removal removes it from all three roles. A staged import of the name
    /// is dropped and never reached the Library.
    pub fn stage_remove(&mut self, name: &str)
        ensures
            final(self).restaged(*old(self)),
            final(self).rows(Role::Terms) == rows_without(old(self).rows(Role::Terms), name@),
            final(self).rows(Role::Frequency) == rows_without(
                old(self).rows(Role::Frequency),
                name@,
            ),
            final(self).rows(Role::Pitch) == rows_without(old(self).rows(Role::Pitch), name@),
            adds_v(final(self).staged_adds@) == adds_without(
                adds_v(old(self).staged_adds@),
                name@,
            ),
            strs(final(self).staged_removes@) == old(self).removing(name@),
            final(self).freq_changed == (old(self).freq_changed || named(
                old(self).rows(Role::Frequency),
                name@,
            )),
    {
        let was_freq = has_row(&self.frequency, name);
        let terms = drop_rows(&self.terms, name);
        let frequency = drop_rows(&self.frequency, name);
        let pitch = drop_rows(&self.pitch, name);
        let adds = drop_adds(&self.staged_adds, name);
        let removes = self.removes_with(name);
        let changed = self.freq_changed || was_freq;
        self.set_lists(terms, frequency, pitch);
        self.set_staged(adds, removes, changed);
    }

    fn set_lists(&mut self, terms: Vec<DictRow>, frequency: Vec<DictRow>, pitch: Vec<DictRow>)
        ensures
            final(self).restaged(*old(self)),
            final(self).terms == terms,
            final(self).frequency == frequency,
            final(self).pitch == pitch,
            final(self).staged_adds == old(self).staged_adds,
            final(self).staged_removes == old(self).staged_removes,
            final(self).freq_changed == old(self).freq_changed,
    {
        self.terms = terms;
        self.frequency = frequency;
        self.pitch = pitch;
    }

    fn set_staged(&mut self, adds: Vec<StagedAdd>, removes: Vec<String>, changed: bool)
        ensures
            final(self).restaged(*old(self)),
            final(self).terms == old(self).terms,
            final(self).frequency == old(self).frequency,
            final(self).pitch == old(self).pitch,
            final(self).staged_adds == adds,
            final(self).staged_removes == removes,
            final(self).freq_changed == changed,
    {
        self.staged_adds = adds;
        self.staged_removes = removes;
        self.freq_changed = changed;
    }

    /// Returns true when the form has staged changes.
    pub fn has_staged(&self) -> (r: bool)
        ensures
            r == (self.staged_adds@.len() > 0 || self.staged_removes@.len() > 0),
    {
        self.staged_adds.len() > 0 || self.staged_removes.len() > 0
    }

    /// Clears staged changes after Apply.
    pub fn clear_staged(&mut self)
        ensures
            final(self).restaged(*old(self)),
            final(self).terms == old(self).terms,
            final(self).frequency == old(self).frequency,
            final(self).pitch == old(self).pitch,
            final(self).staged_adds@.len() == 0,
            final(self).staged_removes@.len() == 0,
            !final(self).freq_changed,
    {
        self.staged_adds.clear();
        self.staged_removes.clear();
        self.freq_changed = false;
    }

    /// Copies the per-language lists that Apply wrote.
    pub fn reseed_per_language(&mut self, written: &PerLanguage)
        ensures
            final(self).settings_as(*old(self)),
            final(self).terms == old(self).terms,
            final(self).frequency == old(self).frequency,
            final(self).pitch == old(self).pitch,
            final(self).staged_adds == old(self).staged_adds,
            final(self).staged_removes == old(self).staged_removes,
            final(self).freq_changed == old(self).freq_changed,
            final(self).unreadable == old(self).unreadable,
            final(self).library_empty == old(self).library_empty,
            final(self).per_language@ == written@,
    {
        self.per_language = written.clone();
    }

    /// Returns true when this row names a staged import.
    pub fn is_staged_add(&self, name: &str) -> (r: bool)
        ensures
            r == staged_as(adds_v(self.staged_adds@), name@),
    {
        let mut i: usize = 0;
        while i < self.staged_adds.len()
            invariant
                i <= self.staged_adds@.len(),
                forall|j: int| 0 <= j < i ==> (#[trigger] adds_v(self.staged_adds@)[j]).1 != name@,
            decreases self.staged_adds@.len() - i,
        {
            if same_str(self.staged_adds[i].name.as_str(), name) {
                assert(adds_v(self.staged_adds@)[i as int].1 == name@);
                return true;
            }
            i += 1;
        }
        false
    }
}

/// Returns the title that the Dictionary provides, or the stem of its file.
///
/// `index` is what the archive's index says: nothing where it cannot be read,
/// and `Some(None)` where it has no title text.
pub fn archive_title(index: Option<Option<&str>>, file: Option<&str>) -> (r: Option<String>)
    ensures
        (match r {
            Some(t) => Some(t@),
            None => None,
        }) == (match index {
            None => None,
            Some(title) => if title is Some && title->0@.len() > 0 {
                Some(title->0@)
            } else {
                match file {
                    Some(f) => Some(stem(f@)),
                    None => None,
                }
            },
        }),
{
    match index {
        None => {
            return None;
        },
        Some(Some(t)) => {
            if !t.is_empty() {
                return Some(t.to_owned());
            }
        },
        Some(None) => {},
    }
    match file {
        Some(f) => {
            let (s, _ext) = split_extension(chars_of(f).as_slice());
            Some(string_of(s.as_slice()))
        },
        None => None,
    }
}

/// The file name that a path's components end in: no file where the path is
/// empty, a root, or a step up.
pub open spec fn file_name(source: Seq<Seq<char>>) -> Option<Seq<char>> {
    if source.len() == 0 || source.last() == ".."@ || source.last() == "/"@ {
        None
    } else {
        Some(source.last())
    }
}

/// The file name that the list displays for an archive.
pub fn shown_name(source: &Vec<String>) -> (r: Option<String>)
    ensures
        file_name(strs(source@)) == (match r {
            Some(n) => Some(n@),
            None => None,
        }),
{
    assert(strs(source@).len() == source@.len());
    if source.len() == 0 {
        return None;
    }
    let last = &source[source.len() - 1];
    assert(strs(source@).last() == last@);
    if same_str(last.as_str(), "..") || same_str(last.as_str(), "/") {
        return None;
    }
    Some(last.clone())
}

/// Does a form's terms list belong to its OCR language, and has that language
/// a list?
pub open spec fn scoped(form: SettingsForm) -> bool {
    form.dict_list_language@ == form.ocr_language@ && form.per_language@.dom().contains(
        form.ocr_language@,
    )
}

/// Returns whether this window's terms list belongs to its OCR language.
///
/// The code rewrites a per-language list only when the visible rows belong to
/// that language and the language already has a list.
pub fn is_scoped(form: &SettingsForm) -> (r: bool)
    ensures
        r == scoped(*form),
{
    same_str(form.dict_list_language.as_str(), form.ocr_language.as_str())
        && form.per_language.contains_key(form.ocr_language.as_str())
}

/// What the Library says of a name: the roles of the first entry with it.
pub open spec fn roles_for(lib: Seq<ArchiveV>, name: Seq<char>) -> Option<Roles>
    decreases lib.len(),
{
    if lib.len() == 0 {
        None
    } else if lib[0].name == name {
        Some(lib[0].roles)
    } else {
        roles_for(lib.skip(1), name)
    }
}

/// Does the Library leave a row in a role's list? A name that it does not
/// know stays.
pub open spec fn row_stays(lib: Seq<ArchiveV>, role: Role, name: Seq<char>) -> bool {
    match roles_for(lib, name) {
        None => true,
        Some(roles) => roles.holds(role),
    }
}

/// A list with the archives of the first `n` entries that hold a role, each
/// enabled and last, unless the list has it.
pub open spec fn with_archives(
    rows: Seq<(Seq<char>, bool)>,
    lib: Seq<ArchiveV>,
    role: Role,
    n: int,
) -> Seq<(Seq<char>, bool)>
    decreases n,
{
    if n <= 0 {
        rows
    } else {
        let before = with_archives(rows, lib, role, n - 1);
        if lib[n - 1].roles.holds(role) && !named(before, lib[n - 1].name) {
            before.push((lib[n - 1].name, true))
        } else {
            before
        }
    }
}

/// One role's list, corrected by the Library.
pub open spec fn merged(rows: Seq<(Seq<char>, bool)>, lib: Seq<ArchiveV>, role: Role) -> Seq<
    (Seq<char>, bool),
> {
    with_archives(
        rows.filter(|r: (Seq<char>, bool)| row_stays(lib, role, r.0)),
        lib,
        role,
        lib.len() as int,
    )
}

/// A list with the first `n` unreadable files, each unchecked and last,
/// unless the list has it.
pub open spec fn with_unreadable(rows: Seq<(Seq<char>, bool)>, files: Seq<Seq<char>>, n: int) -> Seq<
    (Seq<char>, bool),
>
    decreases n,
{
    if n <= 0 {
        rows
    } else {
        let before = with_unreadable(rows, files, n - 1);
        if named(before, files[n - 1]) {
            before
        } else {
            before.push((files[n - 1], false))
        }
    }
}

fn roles_named(lib: &Library, name: &str) -> (r: Option<Roles>)
    ensures
        r == roles_for(lib@, name@),
{
    let ghost all = lib@;
    assert(all.skip(0) =~= all);
    let mut i: usize = 0;
    while i < lib.entries.len()
        invariant
            i <= lib.entries@.len(),
            all == lib@,
            roles_for(all, name@) == roles_for(all.skip(i as int), name@),
        decreases lib.entries@.len() - i,
    {
        assert(all.skip(i as int)[0] == all[i as int]);
        assert(all.skip(i as int).skip(1) =~= all.skip(i + 1));
        if same_str(lib.entries[i].name.as_str(), name) {
            return Some(lib.entries[i].roles);
        }
        i += 1;
    }
    None
}

fn merge(rows: &Vec<DictRow>, lib: &Library, role: Role) -> (r: Vec<DictRow>)
    ensures
        drows(r@) == merged(drows(rows@), lib@, role),
{
    let ghost l = lib@;
    let ghost want = |r: (Seq<char>, bool)| row_stays(l, role, r.0);
    let ghost all = drows(rows@);
    let mut out: Vec<DictRow> = Vec::new();
    assert(drows(out@) =~= all.take(0).filter(want)) by {
        reveal(Seq::filter);
    }
    let mut i: usize = 0;
    while i < rows.len()
        invariant
            i <= rows@.len(),
            l == lib@,
            all == drows(rows@),
            want == (|r: (Seq<char>, bool)| row_stays(l, role, r.0)),
            drows(out@) == all.take(i as int).filter(want),
        decreases rows@.len() - i,
    {
        proof {
            reveal(Seq::filter);
            assert(all.take(i + 1).drop_last() =~= all.take(i as int));
            assert(all.take(i + 1).last() == all[i as int]);
        }
        let stays = match roles_named(lib, rows[i].name.as_str()) {
            None => true,
            Some(roles) => roles.has(role),
        };
        if stays {
            let ghost before = drows(out@);
            out.push(rows[i].clone());
            assert(drows(out@) =~= before.push(all[i as int]));
        }
        i += 1;
    }
    assert(all.take(i as int) =~= all);
    let ghost base = drows(out@);
    let mut k: usize = 0;
    while k < lib.entries.len()
        invariant
            k <= lib.entries@.len(),
            l == lib@,
            drows(out@) == with_archives(base, l, role, k as int),
        decreases lib.entries@.len() - k,
    {
        let e = &lib.entries[k];
        assert(l[k as int] == e.v());
        if e.roles.has(role) && !has_row(&out, e.name.as_str()) {
            push_row(&mut out, e.name.as_str(), true);
        }
        k += 1;
    }
    out
}

fn unreadable_files(lib: &Library) -> (r: Vec<String>)
    ensures
        strs(r@) == files_where(lib@, |e: ArchiveV| e.roles.none()),
{
    let mut out: Vec<String> = Vec::new();
    let ghost want = |e: ArchiveV| e.roles.none();
    let ghost pick = |e: ArchiveV| e.file;
    let ghost all = lib@;
    assert(strs(out@) =~= all.take(0).filter(want).map_values(pick)) by {
        reveal(Seq::filter);
    }
    let mut i: usize = 0;
    while i < lib.entries.len()
        invariant
            i <= lib.entries@.len(),
            all == lib@,
            want == (|e: ArchiveV| e.roles.none()),
            pick == (|e: ArchiveV| e.file),
            strs(out@) == all.take(i as int).filter(want).map_values(pick),
        decreases lib.entries@.len() - i,
    {
        proof {
            reveal(Seq::filter);
            assert(all.take(i + 1).drop_last() =~= all.take(i as int));
            assert(all.take(i + 1).last() == all[i as int]);
        }
        if lib.entries[i].roles.is_empty() {
            let ghost before = strs(out@);
            let ghost prior = all.take(i as int).filter(want);
            out.push(lib.entries[i].file.clone());
            assert(strs(out@) =~= before.push(all[i as int].file));
            assert(prior.push(all[i as int]).map_values(pick) =~= prior.map_values(pick).push(
                all[i as int].file,
            ));
        }
        i += 1;
    }
    assert(all.take(i as int) =~= all);
    out
}

/// Merges the form's Dictionary rows with the Library.
///
/// The Library is the authority on roles because roles come from archive
/// banks. A Library name with no role leaves that role's list. An archive
/// with a role absent from a list goes to that list's bottom, enabled. An
/// unknown name stays in the config's position.
///
/// The terms list also holds unreadable files so the user can remove them.
pub fn with_library(form: SettingsForm, lib: &Library) -> (r: SettingsForm)
    ensures
        r == (SettingsForm {
            terms: r.terms,
            frequency: r.frequency,
            pitch: r.pitch,
            unreadable: r.unreadable,
            library_empty: lib@.len() == 0,
            ..form
        }),
        strs(r.unreadable@) == files_where(lib@, |e: ArchiveV| e.roles.none()),
        r.rows(Role::Terms) == with_unreadable(
            merged(form.rows(Role::Terms), lib@, Role::Terms),
            strs(r.unreadable@),
            r.unreadable@.len() as int,
        ),
        r.rows(Role::Frequency) == merged(form.rows(Role::Frequency), lib@, Role::Frequency),
        r.rows(Role::Pitch) == merged(form.rows(Role::Pitch), lib@, Role::Pitch),
{
    let mut r = form;
    let mut terms = merge(&r.terms, lib, Role::Terms);
    let ghost base = drows(terms@);
    let files = unreadable_files(lib);
    let ghost fs = strs(files@);
    let mut i: usize = 0;
    while i < files.len()
        invariant
            i <= files@.len(),
            fs == strs(files@),
            drows(terms@) == with_unreadable(base, fs, i as int),
        decreases files@.len() - i,
    {
        assert(fs[i as int] == files@[i as int]@);
        if !has_row(&terms, files[i].as_str()) {
            push_row(&mut terms, files[i].as_str(), false);
        }
        i += 1;
    }
    r.frequency = merge(&r.frequency, lib, Role::Frequency);
    r.pitch = merge(&r.pitch, lib, Role::Pitch);
    r.terms = terms;
    r.unreadable = files;
    r.library_empty = lib.is_empty();
    r
}

/// The file of the first entry that a name names, by its name or its file.
pub open spec fn file_for(lib: Seq<ArchiveV>, name: Seq<char>) -> Option<Seq<char>>
    decreases lib.len(),
{
    if lib.len() == 0 {
        None
    } else if lib[0].name == name || lib[0].file == name {
        Some(lib[0].file)
    } else {
        file_for(lib.skip(1), name)
    }
}

/// The files of the first `n` removed names.
pub open spec fn gone_upto(names: Seq<Seq<char>>, lib: Seq<ArchiveV>, n: int) -> Seq<Seq<char>>
    decreases n,
{
    if n <= 0 {
        seq![]
    } else {
        match file_for(lib, names[n - 1]) {
            Some(f) => gone_upto(names, lib, n - 1).push(f),
            None => gone_upto(names, lib, n - 1),
        }
    }
}

/// The files of the staged removals.
pub open spec fn gone(form: SettingsForm, lib: Seq<ArchiveV>) -> Seq<Seq<char>> {
    gone_upto(strs(form.staged_removes@), lib, form.staged_removes@.len() as int)
}

fn file_named(lib: &Library, name: &str) -> (r: Option<String>)
    ensures
        file_for(lib@, name@) == (match r {
            Some(f) => Some(f@),
            None => None,
        }),
{
    let ghost all = lib@;
    assert(all.skip(0) =~= all);
    let mut i: usize = 0;
    while i < lib.entries.len()
        invariant
            i <= lib.entries@.len(),
            all == lib@,
            file_for(all, name@) == file_for(all.skip(i as int), name@),
        decreases lib.entries@.len() - i,
    {
        assert(all.skip(i as int)[0] == all[i as int]);
        assert(all.skip(i as int).skip(1) =~= all.skip(i + 1));
        let e = &lib.entries[i];
        if same_str(e.name.as_str(), name) || same_str(e.file.as_str(), name) {
            return Some(e.file.clone());
        }
        i += 1;
    }
    None
}

/// Returns files for staged removals.
pub fn removed_files(form: &SettingsForm, lib: &Library) -> (r: Vec<String>)
    ensures
        strs(r@) == gone(*form, lib@),
{
    let ghost names = strs(form.staged_removes@);
    let mut out: Vec<String> = Vec::new();
    assert(strs(out@) =~= seq![]);
    let mut i: usize = 0;
    while i < form.staged_removes.len()
        invariant
            i <= form.staged_removes@.len(),
            names == strs(form.staged_removes@),
            strs(out@) == gone_upto(names, lib@, i as int),
        decreases form.staged_removes@.len() - i,
    {
        assert(names[i as int] == form.staged_removes@[i as int]@);
        match file_named(lib, form.staged_removes[i].as_str()) {
            Some(f) => {
                let ghost before = strs(out@);
                out.push(f);
                assert(strs(out@) =~= before.push(f@));
            },
            None => {},
        }
        i += 1;
    }
    out
}

/// How many of the first `n` entries supply terms and stay.
pub open spec fn terms_kept(lib: Seq<ArchiveV>, gone: Seq<Seq<char>>, n: int) -> nat
    decreases n,
{
    if n <= 0 {
        0
    } else {
        terms_kept(lib, gone, n - 1) + (if lib[n - 1].roles.terms && !gone.contains(
            lib[n - 1].file,
        ) {
            1nat
        } else {
            0nat
        })
    }
}

/// How many of the first `n` role sets hold terms.
pub open spec fn terms_added(roles: Seq<Roles>, n: int) -> nat
    decreases n,
{
    if n <= 0 {
        0
    } else {
        terms_added(roles, n - 1) + (if roles[n - 1].terms {
            1nat
        } else {
            0nat
        })
    }
}

/// How many term archives Apply would leave.
pub open spec fn terms_left(form: SettingsForm, lib: Seq<ArchiveV>, staged: Seq<Roles>) -> nat {
    terms_kept(lib, gone(form, lib), lib.len() as int) + terms_added(staged, staged.len() as int)
}

proof fn terms_kept_bounds(lib: Seq<ArchiveV>, gone: Seq<Seq<char>>, n: int, m: int)
    requires
        0 <= n <= m,
    ensures
        terms_kept(lib, gone, n) <= terms_kept(lib, gone, m),
        terms_kept(lib, gone, m) <= m,
    decreases m,
{
    if m > 0 {
        if n < m {
            terms_kept_bounds(lib, gone, n, m - 1);
        } else {
            terms_kept_bounds(lib, gone, n - 1, m - 1);
        }
    }
}

proof fn terms_added_bounds(roles: Seq<Roles>, n: int, m: int)
    requires
        0 <= n <= m,
    ensures
        terms_added(roles, n) <= terms_added(roles, m),
        terms_added(roles, m) <= m,
    decreases m,
{
    if m > 0 {
        if n < m {
            terms_added_bounds(roles, n, m - 1);
        } else {
            terms_added_bounds(roles, n - 1, m - 1);
        }
    }
}

proof fn terms_kept_counts(lib: Seq<ArchiveV>, gone: Seq<Seq<char>>, n: int)
    requires
        0 <= n <= lib.len(),
    ensures
        terms_kept(lib, gone, n) == lib.take(n).filter(
            |e: ArchiveV| e.roles.terms && !gone.contains(e.file),
        ).len(),
    decreases n,
{
    reveal(Seq::filter);
    if n > 0 {
        terms_kept_counts(lib, gone, n - 1);
        assert(lib.take(n).drop_last() =~= lib.take(n - 1));
    }
}

proof fn terms_added_counts(roles: Seq<Roles>, n: int)
    requires
        0 <= n <= roles.len(),
    ensures
        terms_added(roles, n) == roles.take(n).filter(|r: Roles| r.terms).len(),
    decreases n,
{
    reveal(Seq::filter);
    if n > 0 {
        terms_added_counts(roles, n - 1);
        assert(roles.take(n).drop_last() =~= roles.take(n - 1));
    }
}

/// The count of term archives is read off the Library and the staged changes,
/// and off no list of the form: two forms with the same staged changes have the
/// same count. It is that of the archives with terms that stay, and of the
/// staged imports with terms.
pub proof fn only_staged_changes_count(
    a: SettingsForm,
    b: SettingsForm,
    lib: Seq<ArchiveV>,
    staged: Seq<Roles>,
)
    requires
        strs(a.staged_removes@) == strs(b.staged_removes@),
    ensures
        terms_left(a, lib, staged) == terms_left(b, lib, staged),
        terms_left(a, lib, staged) == lib.filter(
            |e: ArchiveV| e.roles.terms && !gone(a, lib).contains(e.file),
        ).len() + staged.filter(|r: Roles| r.terms).len(),
{
    assert(strs(a.staged_removes@).len() == a.staged_removes@.len());
    assert(strs(b.staged_removes@).len() == b.staged_removes@.len());
    terms_kept_counts(lib, gone(a, lib), lib.len() as int);
    terms_added_counts(staged, staged.len() as int);
    assert(lib.take(lib.len() as int) =~= lib);
    assert(staged.take(staged.len() as int) =~= staged);
}

/// There are no more term archives left than archives and staged imports.
pub proof fn no_more_terms_than_archives(form: SettingsForm, lib: Seq<ArchiveV>, staged: Seq<Roles>)
    ensures
        terms_left(form, lib, staged) <= lib.len() + staged.len(),
{
    terms_kept_bounds(lib, gone(form, lib), 0, lib.len() as int);
    terms_added_bounds(staged, 0, staged.len() as int);
}

/// Counts the term archives that Apply would leave. `staged` gives what each
/// staged import supplies.
///
/// The code reads this count. It does not use a form list for the count.
pub fn terms_after_apply(form: &SettingsForm, lib: &Library, staged: &Vec<Roles>) -> (r: usize)
    requires
        terms_left(*form, lib@, staged@) <= usize::MAX,
    ensures
        r == terms_left(*form, lib@, staged@),
{
    let files = removed_files(form, lib);
    let ghost g = strs(files@);
    let mut n: usize = 0;
    let mut i: usize = 0;
    while i < lib.entries.len()
        invariant
            i <= lib.entries@.len(),
            g == strs(files@),
            n <= i,
            n == terms_kept(lib@, g, i as int),
        decreases lib.entries@.len() - i,
    {
        let e = &lib.entries[i];
        assert(lib@[i as int] == e.v());
        if e.roles.has(Role::Terms) && !list_has(files.as_slice(), e.file.as_str()) {
            n += 1;
        }
        i += 1;
    }
    let ghost kept = n as nat;
    let mut k: usize = 0;
    while k < staged.len()
        invariant
            k <= staged@.len(),
            kept + terms_added(staged@, staged@.len() as int) <= usize::MAX,
            n == kept + terms_added(staged@, k as int),
        decreases staged@.len() - k,
    {
        proof {
            terms_added_bounds(staged@, k + 1, staged@.len() as int);
        }
        if staged[k].has(Role::Terms) {
            n += 1;
        }
        k += 1;
    }
    n
}

/// Would Apply leave a term archive?
fn leaves_terms(form: &SettingsForm, lib: &Library, staged: &Vec<Roles>) -> (r: bool)
    ensures
        r == (terms_left(*form, lib@, staged@) > 0),
{
    let files = removed_files(form, lib);
    let ghost g = strs(files@);
    let mut i: usize = 0;
    while i < lib.entries.len()
        invariant
            i <= lib.entries@.len(),
            g == strs(files@),
            g == gone(*form, lib@),
            terms_kept(lib@, g, i as int) == 0,
        decreases lib.entries@.len() - i,
    {
        let e = &lib.entries[i];
        assert(lib@[i as int] == e.v());
        if e.roles.has(Role::Terms) && !list_has(files.as_slice(), e.file.as_str()) {
            proof {
                terms_kept_bounds(lib@, g, i + 1, lib@.len() as int);
            }
            return true;
        }
        i += 1;
    }
    let mut k: usize = 0;
    while k < staged.len()
        invariant
            k <= staged@.len(),
            terms_added(staged@, k as int) == 0,
        decreases staged@.len() - k,
    {
        if staged[k].has(Role::Terms) {
            proof {
                terms_added_bounds(staged@, k + 1, staged@.len() as int);
            }
            return true;
        }
        k += 1;
    }
    false
}

/// Checks the staged changes against the Library before any file moves: the
/// files to set aside, or why not.
pub fn stage_into_library(form: &SettingsForm, lib: &Library, staged: &Vec<Roles>) -> (r: Result<
    Vec<String>,
    String,
>)
    ensures
        match r {
            Ok(files) => terms_left(*form, lib@, staged@) > 0 && strs(files@) == gone(*form, lib@),
            Err(m) => terms_left(*form, lib@, staged@) == 0 && m@
                == "that would leave chibipop with no dictionary"@,
        },
{
    if !leaves_terms(form, lib, staged) {
        return Err("that would leave chibipop with no dictionary".to_owned());
    }
    Ok(removed_files(form, lib))
}

/// A language's rows, checked, and then the first `n` other rows, unchecked.
pub open spec fn scoped_rows(
    scope: Seq<Seq<char>>,
    terms: Seq<(Seq<char>, bool)>,
    n: int,
) -> Seq<(Seq<char>, bool)>
    decreases n,
{
    if n <= 0 {
        flagged(scope, true)
    } else {
        let before = scoped_rows(scope, terms, n - 1);
        if named(before, terms[n - 1].0) {
            before
        } else {
            before.push((terms[n - 1].0, false))
        }
    }
}

/// The terms rows that a window opens with.
pub open spec fn opening_terms(d: DictionariesV, language: Seq<char>, dicts: Seq<InfoV>) -> Seq<
    (Seq<char>, bool),
> {
    let terms = with_installed(
        d.rows(Role::Terms, dicts),
        d.rows(Role::Frequency, dicts),
        d.rows(Role::Pitch, dicts),
        dicts,
        dicts.len() as int,
    );
    match d.scope(language, dicts) {
        Some(scope) => scoped_rows(scope, terms, terms.len() as int),
        None => terms,
    }
}

/// Is a form what a window opens with?
pub open spec fn opened(cfg: Config, dicts: Seq<InfoV>, form: SettingsForm) -> bool {
    let d = cfg.dictionaries.v();
    &&& form.mode == cfg.trigger.mode
    &&& form.trigger_key == cfg.trigger.trigger_key
    &&& form.per_character_lookup == cfg.trigger.per_character_lookup
    &&& form.theme == cfg.popup.theme
    &&& form.font == cfg.popup.font
    &&& form.max_width_percent == cfg.popup.max_width_percent
    &&& form.max_height_percent == cfg.popup.max_height_percent
    &&& form.summary_chars == cfg.popup.summary_chars
    &&& form.highlight_match == cfg.popup.highlight_match
    &&& form.scroll_popup == cfg.popup.scroll_popup
    &&& form.edge_autoscroll == cfg.popup.edge_autoscroll
    &&& form.side_panel == cfg.popup.side_panel
    &&& form.layout_mode == cfg.popup.layout_mode
    &&& form.dictionary_styling == cfg.popup.dictionary_styling
    &&& form.show_examples == cfg.popup.show_examples
    &&& form.show_attributions == cfg.popup.show_attributions
    &&& form.show_images == cfg.popup.show_images
    &&& form.show_part_of_speech == cfg.popup.show_part_of_speech
    &&& form.exclude_from_capture == cfg.popup.exclude_from_capture
    &&& form.rows(Role::Terms) == opening_terms(d, cfg.ocr.language@, dicts)
    &&& form.rows(Role::Frequency) == d.rows(Role::Frequency, dicts)
    &&& form.rows(Role::Pitch) == d.rows(Role::Pitch, dicts)
    &&& form.ranking_strategy == d.ranking_strategy
    &&& form.dict_list_language == cfg.ocr.language
    &&& form.per_language@ == d.per_language
    &&& form.max_ocr_passes == cfg.ocr.max_ocr_passes
    &&& form.prefer_vertical == cfg.ocr.prefer_vertical
    &&& form.capture_width == cfg.ocr.capture_width
    &&& form.capture_height == cfg.ocr.capture_height
    &&& form.scan_alphanumeric == cfg.ocr.scan_alphanumeric
    &&& form.ocr_language == cfg.ocr.language
    &&& form.engine == cfg.ocr.engine
    &&& form.show_scan_region == cfg.debug.show_scan_region
    &&& form.show_engine_log == cfg.debug.show_engine_log
    &&& form.show_adapter_log == cfg.debug.show_adapter_log
    &&& !form.freq_changed
    &&& form.staged_adds@.len() == 0
    &&& form.staged_removes@.len() == 0
    &&& !form.library_empty
    &&& form.unreadable@.len() == 0
    &&& form.anki_enabled == cfg.anki.enabled
    &&& form.anki_url == cfg.anki.url
    &&& form.anki_deck == cfg.anki.deck
    &&& form.anki_model == cfg.anki.model
    &&& form.anki_add_key == cfg.anki.add_key
    &&& form.field_map is Some
    &&& form.field_map->0@ == cfg.anki.field_map@
    &&& form.notify_on_add == cfg.anki.notify_on_add
    &&& form.sentence_mode == cfg.anki.sentence_mode
    &&& form.static_region_key == cfg.anki.static_region_key
    &&& form.show_static_overlay == cfg.anki.show_static_overlay
    &&& form.ocr_clipboard_key == (match cfg.actions.ocr_clipboard {
        Some(a) => a.hotkey,
        None => None,
    })
    &&& form.include_screenshot == cfg.actions.screenshot.include_on_add
    &&& form.first_dict_only == cfg.anki.first_dict_only
    &&& form.selection_buttons == cfg.anki.selection_buttons
    &&& form.selection_separator == cfg.anki.selection_separator
    &&& form.triple_click == cfg.anki.triple_click
    &&& form.enabled_plugins@ == cfg.plugins.enabled@
}

/// Builds one role list from config names.
///
/// A name that matches no installed Dictionary remains a row, so a
/// disconnected drive cannot remove it from the list.
fn rows_for(cfg: &Config, role: Role, dicts: &[DictInfo]) -> (r: Vec<DictRow>)
    ensures
        drows(r@) == cfg.dictionaries.v().rows(role, infos_v(dicts@)),
{
    let listed = cfg.dictionaries.listed(role, dicts);
    let ghost all = rows_v(listed@);
    let mut out: Vec<DictRow> = Vec::new();
    let mut i: usize = 0;
    while i < listed.len()
        invariant
            i <= listed@.len(),
            all == rows_v(listed@),
            drows(out@) == all.take(i as int),
        decreases listed@.len() - i,
    {
        push_row(&mut out, listed[i].0.as_str(), listed[i].1);
        assert(all.take(i + 1) =~= all.take(i as int).push(all[i as int]));
        i += 1;
    }
    assert(all.take(i as int) =~= all);
    out
}

fn terms_rows(cfg: &Config, dicts: &[DictInfo], frequency: &Vec<DictRow>, pitch: &Vec<DictRow>) -> (r: Vec<
    DictRow,
>)
    requires
        drows(frequency@) == cfg.dictionaries.v().rows(Role::Frequency, infos_v(dicts@)),
        drows(pitch@) == cfg.dictionaries.v().rows(Role::Pitch, infos_v(dicts@)),
    ensures
        drows(r@) == opening_terms(cfg.dictionaries.v(), cfg.ocr.language@, infos_v(dicts@)),
{
    let ghost ds = infos_v(dicts@);
    let mut terms = rows_for(cfg, Role::Terms, dicts);
    let ghost base = drows(terms@);
    let mut i: usize = 0;
    // A database built outside the app can contain Dictionaries that no list
    // has named. The popup searches only the terms list, so they go there.
    while i < dicts.len()
        invariant
            i <= dicts@.len(),
            ds == infos_v(dicts@),
            drows(terms@) == with_installed(base, drows(frequency@), drows(pitch@), ds, i as int),
        decreases dicts@.len() - i,
    {
        let name = dicts[i].name.as_str();
        assert(ds[i as int].name == name@);
        if !has_row(&terms, name) && !has_row(frequency, name) && !has_row(pitch, name) {
            push_row(&mut terms, name, true);
        }
        i += 1;
    }
    // The active language's rows come first and stay checked. Other
    // Dictionaries follow and stay unchecked.
    match cfg.dictionaries.language_scope(cfg.ocr.language.as_str(), dicts) {
        None => terms,
        Some(scope) => {
            let ghost sc = strs(scope@);
            let ghost all = drows(terms@);
            let mut rows: Vec<DictRow> = Vec::new();
            let mut k: usize = 0;
            while k < scope.len()
                invariant
                    k <= scope@.len(),
                    sc == strs(scope@),
                    drows(rows@) == flagged(sc, true).take(k as int),
                decreases scope@.len() - k,
            {
                push_row(&mut rows, scope[k].as_str(), true);
                assert(flagged(sc, true).take(k + 1) =~= flagged(sc, true).take(k as int).push(
                    (sc[k as int], true),
                ));
                k += 1;
            }
            assert(flagged(sc, true).take(k as int) =~= flagged(sc, true));
            let mut j: usize = 0;
            while j < terms.len()
                invariant
                    j <= terms@.len(),
                    all == drows(terms@),
                    drows(rows@) == scoped_rows(sc, all, j as int),
                decreases terms@.len() - j,
            {
                assert(all[j as int].0 == terms@[j as int].name@);
                if !has_row(&rows, terms[j].name.as_str()) {
                    push_row(&mut rows, terms[j].name.as_str(), false);
                }
                j += 1;
            }
            rows
        },
    }
}

/// Builds the config's lists and the active language's terms scope.
pub fn from_config(cfg: &Config, dicts: &[DictInfo]) -> (r: SettingsForm)
    ensures
        opened(*cfg, infos_v(dicts@), r),
{
    let frequency = rows_for(cfg, Role::Frequency, dicts);
    let pitch = rows_for(cfg, Role::Pitch, dicts);
    let terms = terms_rows(cfg, dicts, &frequency, &pitch);
    SettingsForm {
        mode: cfg.trigger.mode,
        trigger_key: cfg.trigger.trigger_key.clone(),
        theme: cfg.popup.theme.clone(),
        font: cfg.popup.font.clone(),
        max_width_percent: cfg.popup.max_width_percent,
        max_height_percent: cfg.popup.max_height_percent,
        summary_chars: cfg.popup.summary_chars,
        highlight_match: cfg.popup.highlight_match,
        scroll_popup: cfg.popup.scroll_popup,
        edge_autoscroll: cfg.popup.edge_autoscroll,
        side_panel: cfg.popup.side_panel,
        layout_mode: cfg.popup.layout_mode,
        dictionary_styling: cfg.popup.dictionary_styling,
        show_examples: cfg.popup.show_examples,
        show_attributions: cfg.popup.show_attributions,
        show_images: cfg.popup.show_images,
        show_part_of_speech: cfg.popup.show_part_of_speech,
        exclude_from_capture: cfg.popup.exclude_from_capture,
        terms,
        frequency,
        pitch,
        ranking_strategy: cfg.dictionaries.ranking_strategy,
        dict_list_language: cfg.ocr.language.clone(),
        per_language: cfg.dictionaries.per_language.clone(),
        max_ocr_passes: cfg.ocr.max_ocr_passes,
        prefer_vertical: cfg.ocr.prefer_vertical,
        capture_width: cfg.ocr.capture_width,
        capture_height: cfg.ocr.capture_height,
        scan_alphanumeric: cfg.ocr.scan_alphanumeric,
        per_character_lookup: cfg.trigger.per_character_lookup,
        ocr_language: cfg.ocr.language.clone(),
        engine: cfg.ocr.engine.clone(),
        show_scan_region: cfg.debug.show_scan_region,
        show_engine_log: cfg.debug.show_engine_log,
        show_adapter_log: cfg.debug.show_adapter_log,
        freq_changed: false,
        staged_adds: Vec::new(),
        staged_removes: Vec::new(),
        library_empty: false,
        unreadable: Vec::new(),
        anki_enabled: cfg.anki.enabled,
        anki_url: cfg.anki.url.clone(),
        anki_deck: cfg.anki.deck.clone(),
        anki_model: cfg.anki.model.clone(),
        anki_add_key: cfg.anki.add_key.clone(),
        field_map: Some(copy_map(&cfg.anki.field_map)),
        notify_on_add: cfg.anki.notify_on_add,
        sentence_mode: cfg.anki.sentence_mode,
        static_region_key: cfg.anki.static_region_key.clone(),
        show_static_overlay: cfg.anki.show_static_overlay,
        ocr_clipboard_key: match &cfg.actions.ocr_clipboard {
            Some(action) => same_copy(&action.hotkey),
            None => None,
        },
        include_screenshot: cfg.actions.screenshot.include_on_add,
        first_dict_only: cfg.anki.first_dict_only,
        selection_buttons: cfg.anki.selection_buttons,
        selection_separator: cfg.anki.selection_separator,
        triple_click: cfg.anki.triple_click,
        enabled_plugins: copy_list(&cfg.plugins.enabled),
    }
}

/// The names of the rows with a flag, in screen order. An unreadable file
/// remains a row for removal, but it is not a Dictionary.
pub open spec fn names_of(rows: Seq<(Seq<char>, bool)>, flag: bool, unreadable: Seq<Seq<char>>) -> Seq<
    Seq<char>,
>
    decreases rows.len(),
{
    if rows.len() == 0 {
        seq![]
    } else {
        let before = names_of(rows.drop_last(), flag, unreadable);
        if rows.last().1 == flag && !unreadable.contains(rows.last().0) {
            before.push(rows.last().0)
        } else {
            before
        }
    }
}

fn names_in(rows: &[DictRow], flag: bool, unreadable: &[String]) -> (r: Vec<String>)
    ensures
        strs(r@) == names_of(drows(rows@), flag, strs(unreadable@)),
{
    let ghost all = drows(rows@);
    let ghost un = strs(unreadable@);
    let mut out: Vec<String> = Vec::new();
    assert(strs(out@) =~= names_of(all.take(0), flag, un));
    let mut i: usize = 0;
    while i < rows.len()
        invariant
            i <= rows@.len(),
            all == drows(rows@),
            un == strs(unreadable@),
            strs(out@) == names_of(all.take(i as int), flag, un),
        decreases rows@.len() - i,
    {
        assert(all.take(i + 1).drop_last() =~= all.take(i as int));
        assert(all.take(i + 1).last() == all[i as int]);
        if rows[i].enabled == flag && !list_has(unreadable, rows[i].name.as_str()) {
            let ghost before = strs(out@);
            out.push(rows[i].name.clone());
            assert(strs(out@) =~= before.push(all[i as int].0));
        }
        i += 1;
    }
    assert(all.take(i as int) =~= all);
    out
}

/// Returns the Dictionaries that one language searches from the visible rows.
///
/// The result contains enabled rows by exact name and screen order, without
/// unreadable files. The function returns `None` when no searchable name
/// remains, because an entry with no Dictionary equals no entry.
pub fn scoped_entry(rows: &[DictRow], unreadable: &[String]) -> (r: Option<Vec<String>>)
    ensures
        (match r {
            Some(l) => Some(strs(l@)),
            None => None,
        }) == (if names_of(drows(rows@), true, strs(unreadable@)).len() > 0 {
            Some(names_of(drows(rows@), true, strs(unreadable@)))
        } else {
            None
        }),
{
    let found = names_in(rows, true, unreadable);
    assert(strs(found@).len() == found@.len());
    if found.len() == 0 {
        None
    } else {
        Some(found)
    }
}

/// A number moved into its range.
pub open spec fn clamped(x: int, lo: int, hi: int) -> int {
    if x < lo {
        lo
    } else if x > hi {
        hi
    } else {
        x
    }
}

fn clamp_u8(x: u8, range: (u8, u8)) -> (r: u8)
    ensures
        r == clamped(x as int, range.0 as int, range.1 as int),
{
    if x < range.0 {
        range.0
    } else if x > range.1 {
        range.1
    } else {
        x
    }
}

fn clamp_usize(x: usize, range: (usize, usize)) -> (r: usize)
    ensures
        r == clamped(x as int, range.0 as int, range.1 as int),
{
    if x < range.0 {
        range.0
    } else if x > range.1 {
        range.1
    } else {
        x
    }
}

fn clamp_i32(x: i32, range: (i32, i32)) -> (r: i32)
    ensures
        r == clamped(x as int, range.0 as int, range.1 as int),
{
    if x < range.0 {
        range.0
    } else if x > range.1 {
        range.1
    } else {
        x
    }
}

/// The clipboard action that a form leaves. The form renders only one chord,
/// so the other one stays, and the section stays while either has a value.
pub open spec fn clipboard_after(key: Option<String>, was: Option<OcrClipboardConfig>) -> Option<
    OcrClipboardConfig,
> {
    let linux = match was {
        Some(a) => a.hotkey_linux,
        None => None,
    };
    if key is None && linux is None {
        None
    } else {
        Some(OcrClipboardConfig { hotkey: key, hotkey_linux: linux })
    }
}

/// The language lists that a form leaves: where the rows belong to the OCR
/// language and name a Dictionary, that language's list is theirs.
pub open spec fn languages_after(form: SettingsForm) -> Map<Seq<char>, Seq<Seq<char>>> {
    let found = names_of(form.rows(Role::Terms), true, strs(form.unreadable@));
    if scoped(form) && found.len() > 0 {
        form.per_language@.insert(form.ocr_language@, found)
    } else {
        form.per_language@
    }
}

/// The Dictionary lists that a form leaves. Each role list becomes an
/// enabled and a disabled list, each in screen order.
pub open spec fn dictionaries_after(form: SettingsForm) -> DictionariesV {
    let un = strs(form.unreadable@);
    DictionariesV {
        terms: names_of(form.rows(Role::Terms), true, un),
        terms_disabled: names_of(form.rows(Role::Terms), false, un),
        frequency: names_of(form.rows(Role::Frequency), true, un),
        frequency_disabled: names_of(form.rows(Role::Frequency), false, un),
        pitch: names_of(form.rows(Role::Pitch), true, un),
        pitch_disabled: names_of(form.rows(Role::Pitch), false, un),
        ranking_strategy: form.ranking_strategy,
        display_order: seq![],
        per_language: languages_after(form),
    }
}

/// Is a configuration what a form makes of another?
pub open spec fn applied(form: SettingsForm, cfg: Config, out: Config) -> bool {
    &&& out.trigger == TriggerConfig {
        mode: form.mode,
        trigger_key: form.trigger_key,
        per_character_lookup: form.per_character_lookup,
        ..cfg.trigger
    }
    &&& out.popup == PopupConfig {
        theme: form.theme,
        font: form.font,
        max_width_percent: clamped(
            form.max_width_percent as int,
            MAX_WIDTH_RANGE.0 as int,
            MAX_WIDTH_RANGE.1 as int,
        ) as u8,
        max_height_percent: clamped(
            form.max_height_percent as int,
            MAX_HEIGHT_RANGE.0 as int,
            MAX_HEIGHT_RANGE.1 as int,
        ) as u8,
        summary_chars: clamped(
            form.summary_chars as int,
            SUMMARY_RANGE.0 as int,
            SUMMARY_RANGE.1 as int,
        ) as usize,
        highlight_match: form.highlight_match,
        scroll_popup: form.scroll_popup,
        edge_autoscroll: form.edge_autoscroll,
        side_panel: form.side_panel,
        layout_mode: form.layout_mode,
        dictionary_styling: form.dictionary_styling,
        show_examples: form.show_examples,
        show_attributions: form.show_attributions,
        show_images: form.show_images,
        show_part_of_speech: form.show_part_of_speech,
        exclude_from_capture: form.exclude_from_capture,
        ..cfg.popup
    }
    &&& out.ocr == OcrConfig {
        max_ocr_passes: clamped(
            form.max_ocr_passes as int,
            PASSES_RANGE.0 as int,
            PASSES_RANGE.1 as int,
        ) as u8,
        prefer_vertical: form.prefer_vertical,
        capture_width: clamped(
            form.capture_width as int,
            CAPTURE_W_RANGE.0 as int,
            CAPTURE_W_RANGE.1 as int,
        ) as i32,
        capture_height: clamped(
            form.capture_height as int,
            CAPTURE_H_RANGE.0 as int,
            CAPTURE_H_RANGE.1 as int,
        ) as i32,
        scan_alphanumeric: form.scan_alphanumeric,
        language: form.ocr_language,
        engine: form.engine,
    }
    &&& out.debug == DebugConfig {
        show_scan_region: form.show_scan_region,
        show_engine_log: form.show_engine_log,
        show_adapter_log: form.show_adapter_log,
    }
    &&& out.anki.same(
        AnkiConfig {
            enabled: form.anki_enabled,
            url: form.anki_url,
            deck: form.anki_deck,
            model: form.anki_model,
            add_key: form.anki_add_key,
            field_map: match form.field_map {
                Some(m) => m,
                None => cfg.anki.field_map,
            },
            notify_on_add: form.notify_on_add,
            sentence_mode: form.sentence_mode,
            static_region_key: form.static_region_key,
            show_static_overlay: form.show_static_overlay,
            first_dict_only: form.first_dict_only,
            selection_buttons: form.selection_buttons,
            selection_separator: form.selection_separator,
            triple_click: form.triple_click,
            ..cfg.anki
        },
    )
    &&& out.actions.screenshot == ScreenshotConfig {
        include_on_add: form.include_screenshot,
        ..cfg.actions.screenshot
    }
    &&& out.actions.ocr_clipboard == clipboard_after(
        form.ocr_clipboard_key,
        cfg.actions.ocr_clipboard,
    )
    &&& out.plugins.enabled@ == form.enabled_plugins@
    &&& out.dictionaries.v() == dictionaries_after(form)
}

fn clipboard_of(key: &Option<String>, was: &Option<OcrClipboardConfig>) -> (r: Option<
    OcrClipboardConfig,
>)
    ensures
        r == clipboard_after(*key, *was),
{
    let hotkey_linux = match was {
        Some(a) => same_copy(&a.hotkey_linux),
        None => None,
    };
    if key.is_none() && hotkey_linux.is_none() {
        None
    } else {
        Some(OcrClipboardConfig { hotkey: same_copy(key), hotkey_linux })
    }
}

fn dictionaries_of(form: &SettingsForm) -> (r: DictionariesConfig)
    ensures
        r.v() == dictionaries_after(*form),
{
    let un = form.unreadable.as_slice();
    let terms = form.terms.as_slice();
    let frequency = form.frequency.as_slice();
    let pitch = form.pitch.as_slice();
    let mut per_language = form.per_language.clone();
    if is_scoped(form) {
        if let Some(found) = scoped_entry(terms, un) {
            per_language.insert(form.ocr_language.clone(), found);
        }
    }
    let order: Vec<String> = Vec::new();
    assert(strs(order@) =~= seq![]);
    DictionariesConfig {
        terms: names_in(terms, true, un),
        terms_disabled: names_in(terms, false, un),
        frequency: names_in(frequency, true, un),
        frequency_disabled: names_in(frequency, false, un),
        pitch: names_in(pitch, true, un),
        pitch_disabled: names_in(pitch, false, un),
        ranking_strategy: form.ranking_strategy,
        display_order: order,
        per_language,
    }
}

/// Converts the form back into its source Config.
pub fn apply_to(form: &SettingsForm, cfg: &Config) -> (r: Config)
    ensures
        applied(*form, *cfg, r),
{
    let trigger = TriggerConfig {
        mode: form.mode,
        trigger_key: form.trigger_key.clone(),
        trigger_key_linux: cfg.trigger.trigger_key_linux.clone(),
        per_character_lookup: form.per_character_lookup,
    };
    let popup = PopupConfig {
        theme: form.theme.clone(),
        font: form.font.clone(),
        max_width_percent: clamp_u8(form.max_width_percent, MAX_WIDTH_RANGE),
        max_height_percent: clamp_u8(form.max_height_percent, MAX_HEIGHT_RANGE),
        summary_chars: clamp_usize(form.summary_chars, SUMMARY_RANGE),
        highlight_match: form.highlight_match,
        scroll_popup: form.scroll_popup,
        edge_autoscroll: form.edge_autoscroll,
        side_panel: form.side_panel,
        layout_mode: form.layout_mode,
        dictionary_styling: form.dictionary_styling,
        show_examples: form.show_examples,
        show_attributions: form.show_attributions,
        show_images: form.show_images,
        show_part_of_speech: form.show_part_of_speech,
        exclude_from_capture: form.exclude_from_capture,
        layer: cfg.popup.layer,
    };
    let ocr = OcrConfig {
        max_ocr_passes: clamp_u8(form.max_ocr_passes, PASSES_RANGE),
        prefer_vertical: form.prefer_vertical,
        capture_width: clamp_i32(form.capture_width, CAPTURE_W_RANGE),
        capture_height: clamp_i32(form.capture_height, CAPTURE_H_RANGE),
        scan_alphanumeric: form.scan_alphanumeric,
        language: form.ocr_language.clone(),
        engine: form.engine.clone(),
    };
    let debug = DebugConfig {
        show_scan_region: form.show_scan_region,
        show_engine_log: form.show_engine_log,
        show_adapter_log: form.show_adapter_log,
    };
    let anki = AnkiConfig {
        enabled: form.anki_enabled,
        url: form.anki_url.clone(),
        deck: form.anki_deck.clone(),
        model: form.anki_model.clone(),
        add_key: form.anki_add_key.clone(),
        add_key_linux: cfg.anki.add_key_linux.clone(),
        field_map: match &form.field_map {
            Some(m) => copy_map(m),
            None => copy_map(&cfg.anki.field_map),
        },
        notify_on_add: form.notify_on_add,
        sentence_mode: form.sentence_mode,
        static_region_key: form.static_region_key.clone(),
        static_region_key_linux: cfg.anki.static_region_key_linux.clone(),
        show_static_overlay: form.show_static_overlay,
        first_dict_only: form.first_dict_only,
        selection_buttons: form.selection_buttons,
        selection_separator: form.selection_separator,
        triple_click: form.triple_click,
    };
    let screenshot = ScreenshotConfig {
        hotkey: cfg.actions.screenshot.hotkey.clone(),
        hotkey_linux: same_copy(&cfg.actions.screenshot.hotkey_linux),
        include_on_add: form.include_screenshot,
    };
    let ocr_clipboard = clipboard_of(&form.ocr_clipboard_key, &cfg.actions.ocr_clipboard);
    Config {
        trigger,
        popup,
        ocr,
        debug,
        anki,
        actions: ActionsConfig { screenshot, ocr_clipboard },
        dictionaries: dictionaries_of(form),
        plugins: PluginsConfig { enabled: copy_list(&form.enabled_plugins) },
    }
}

/// The sentence on one capture side that Apply changed.
pub open spec fn side_notice(axis: Seq<char>, asked: int, got: int) -> Seq<char> {
    "Capture "@ + axis + (if got > asked {
        " raised to the "@
    } else {
        " lowered to the "@
    }) + signed(got) + (if got > asked {
        "px minimum."@
    } else {
        "px maximum."@
    })
}

/// What the window says of capture sizes that Apply changed.
pub open spec fn size_notice(asked_w: int, got_w: int, asked_h: int, got_h: int) -> Option<Seq<char>> {
    if asked_w != got_w && asked_h != got_h {
        Some(side_notice("width"@, asked_w, got_w) + " "@ + side_notice("height"@, asked_h, got_h))
    } else if asked_w != got_w {
        Some(side_notice("width"@, asked_w, got_w))
    } else if asked_h != got_h {
        Some(side_notice("height"@, asked_h, got_h))
    } else {
        None
    }
}

/// Reports capture-size values that `apply_to` changed.
pub fn clamp_notice(form: &SettingsForm, applied: &Config) -> (r: Option<String>)
    ensures
        size_notice(
            form.capture_width as int,
            applied.ocr.capture_width as int,
            form.capture_height as int,
            applied.ocr.capture_height as int,
        ) == (match r {
            Some(m) => Some(m@),
            None => None,
        }),
{
    let mut m: Vec<char> = Vec::new();
    let wide = form.capture_width != applied.ocr.capture_width;
    let high = form.capture_height != applied.ocr.capture_height;
    if wide {
        push_chars(
            &mut m,
            axis_notice("width", form.capture_width, applied.ocr.capture_width).as_slice(),
        );
    }
    if wide && high {
        push_chars(&mut m, chars_of(" ").as_slice());
    }
    if high {
        push_chars(
            &mut m,
            axis_notice("height", form.capture_height, applied.ocr.capture_height).as_slice(),
        );
    }
    if !wide && !high {
        return None;
    }
    let ghost w = side_notice(
        "width"@,
        form.capture_width as int,
        applied.ocr.capture_width as int,
    );
    let ghost h = side_notice(
        "height"@,
        form.capture_height as int,
        applied.ocr.capture_height as int,
    );
    proof {
        if wide && high {
            assert(m@ =~= w + " "@ + h);
        } else if wide {
            assert(m@ =~= w);
        } else {
            assert(m@ =~= h);
        }
    }
    Some(string_of(m.as_slice()))
}

/// Builds the exact clamp notice sentence.
fn axis_notice(axis: &str, asked: i32, got: i32) -> (r: Vec<char>)
    ensures
        r@ == side_notice(axis@, asked as int, got as int),
{
    let mut m = chars_of("Capture ");
    push_chars(&mut m, chars_of(axis).as_slice());
    if got > asked {
        push_chars(&mut m, chars_of(" raised to the ").as_slice());
    } else {
        push_chars(&mut m, chars_of(" lowered to the ").as_slice());
    }
    push_chars(&mut m, signed_of(got as i64).as_slice());
    if got > asked {
        push_chars(&mut m, chars_of("px minimum.").as_slice());
    } else {
        push_chars(&mut m, chars_of("px maximum.").as_slice());
    }
    assert(m@ =~= side_notice(axis@, asked as int, got as int));
    m
}

/// Is a Dictionary with a name installed?
pub open spec fn installed(dicts: Seq<InfoV>, name: Seq<char>) -> bool {
    exists|i: int| 0 <= i < dicts.len() && (#[trigger] dicts[i]).name == name
}

/// Stale names with those of one list, each once.
pub open spec fn stale_with(found: Seq<Seq<char>>, list: Seq<Seq<char>>, dicts: Seq<InfoV>) -> Seq<Seq<char>>
    decreases list.len(),
{
    if list.len() == 0 {
        found
    } else {
        let before = stale_with(found, list.drop_last(), dicts);
        let name = list.last();
        if installed(dicts, name) || before.contains(name) {
            before
        } else {
            before.push(name)
        }
    }
}

/// The names of the lists that match no installed Dictionary: the terms
/// lists first, the enabled list of a role before its disabled one.
pub open spec fn stale(d: DictionariesV, dicts: Seq<InfoV>) -> Seq<Seq<char>> {
    let a = stale_with(stale_with(seq![], d.terms, dicts), d.terms_disabled, dicts);
    let b = stale_with(stale_with(a, d.frequency, dicts), d.frequency_disabled, dicts);
    stale_with(stale_with(b, d.pitch, dicts), d.pitch_disabled, dicts)
}

fn is_installed(dicts: &[DictInfo], name: &str) -> (r: bool)
    ensures
        r == installed(infos_v(dicts@), name@),
{
    let mut i: usize = 0;
    while i < dicts.len()
        invariant
            i <= dicts@.len(),
            forall|j: int| 0 <= j < i ==> (#[trigger] infos_v(dicts@)[j]).name != name@,
        decreases dicts@.len() - i,
    {
        if same_str(dicts[i].name.as_str(), name) {
            assert(infos_v(dicts@)[i as int].name == name@);
            return true;
        }
        i += 1;
    }
    false
}

fn push_stale(found: &mut Vec<String>, list: &Vec<String>, dicts: &[DictInfo])
    ensures
        strs(final(found)@) == stale_with(strs(old(found)@), strs(list@), infos_v(dicts@)),
{
    let ghost base = strs(found@);
    let ghost all = strs(list@);
    let ghost ds = infos_v(dicts@);
    assert(base =~= stale_with(base, all.take(0), ds));
    let mut i: usize = 0;
    while i < list.len()
        invariant
            i <= list@.len(),
            base == strs(old(found)@),
            all == strs(list@),
            ds == infos_v(dicts@),
            strs(found@) == stale_with(base, all.take(i as int), ds),
        decreases list@.len() - i,
    {
        assert(all.take(i + 1).drop_last() =~= all.take(i as int));
        assert(all.take(i + 1).last() == list@[i as int]@);
        if !is_installed(dicts, list[i].as_str()) && !list_has(found.as_slice(), list[i].as_str()) {
            let ghost before = strs(found@);
            found.push(list[i].clone());
            assert(strs(found@) =~= before.push(list@[i as int]@));
        }
        i += 1;
    }
    assert(all.take(i as int) =~= all);
}

/// Returns names that match no installed Dictionary.
///
/// A list can preserve a name for an unplugged drive. The settings window
/// cannot distinguish that name from a renamed archive, so it reports the
/// name and keeps the entry.
pub fn stale_order_entries(cfg: &Config, dicts: &[DictInfo]) -> (r: Vec<String>)
    ensures
        strs(r@) == stale(cfg.dictionaries.v(), infos_v(dicts@)),
{
    let mut found: Vec<String> = Vec::new();
    assert(strs(found@) =~= seq![]);
    push_stale(&mut found, &cfg.dictionaries.terms, dicts);
    push_stale(&mut found, &cfg.dictionaries.terms_disabled, dicts);
    push_stale(&mut found, &cfg.dictionaries.frequency, dicts);
    push_stale(&mut found, &cfg.dictionaries.frequency_disabled, dicts);
    push_stale(&mut found, &cfg.dictionaries.pitch, dicts);
    push_stale(&mut found, &cfg.dictionaries.pitch_disabled, dicts);
    found
}

/// The Dictionary lists without a name: none of the six lists has it, and no
/// language list, and a language list that is then empty is gone.
pub open spec fn removed_from(d: DictionariesV, name: Seq<char>) -> DictionariesV {
    DictionariesV {
        terms: without(d.terms, name),
        terms_disabled: without(d.terms_disabled, name),
        frequency: without(d.frequency, name),
        frequency_disabled: without(d.frequency_disabled, name),
        pitch: without(d.pitch, name),
        pitch_disabled: without(d.pitch_disabled, name),
        per_language: lists_without(d.per_language, name),
        ..d
    }
}

/// Do two configurations agree in everything but the Dictionary lists?
pub open spec fn same_but_lists(a: Config, b: Config) -> bool {
    &&& a.trigger == b.trigger
    &&& a.popup == b.popup
    &&& a.ocr == b.ocr
    &&& a.debug == b.debug
    &&& a.anki == b.anki
    &&& a.actions == b.actions
    &&& a.plugins == b.plugins
}

/// Removes a Dictionary from every configuration list.
///
/// One archive is one Dictionary, so removal affects every role it held. The
/// function also removes an empty language list because an entry with no name
/// has the same state as no entry.
pub fn dictionary_removed(cfg: &mut Config, name: &str)
    ensures
        same_but_lists(*final(cfg), *old(cfg)),
        final(cfg).dictionaries.v() == removed_from(old(cfg).dictionaries.v(), name@),
{
    let d = &cfg.dictionaries;
    let mut per_language = d.per_language.clone();
    per_language.remove_name(name);
    let next = DictionariesConfig {
        terms: drop_name(&d.terms, name),
        terms_disabled: drop_name(&d.terms_disabled, name),
        frequency: drop_name(&d.frequency, name),
        frequency_disabled: drop_name(&d.frequency_disabled, name),
        pitch: drop_name(&d.pitch, name),
        pitch_disabled: drop_name(&d.pitch_disabled, name),
        ranking_strategy: d.ranking_strategy,
        display_order: copy_list(&d.display_order),
        per_language,
    };
    cfg.dictionaries = next;
}

/// An enabled list with a name last, unless either list of the role has it.
pub open spec fn list_with(on: Seq<Seq<char>>, off: Seq<Seq<char>>, name: Seq<char>, wanted: bool) -> Seq<
    Seq<char>,
> {
    if wanted && !on.contains(name) && !off.contains(name) {
        on.push(name)
    } else {
        on
    }
}

/// The Dictionary lists with a name added for some roles, and to the active
/// language's list where that list names any.
pub open spec fn added_to(d: DictionariesV, language: Seq<char>, name: Seq<char>, roles: Roles) -> DictionariesV {
    if trim(name).len() == 0 {
        d
    } else {
        DictionariesV {
            terms: list_with(d.terms, d.terms_disabled, name, roles.terms),
            frequency: list_with(d.frequency, d.frequency_disabled, name, roles.frequency),
            pitch: list_with(d.pitch, d.pitch_disabled, name, roles.pitch),
            per_language: if roles.terms && d.per_language.dom().contains(language)
                && d.per_language[language].len() > 0 && !d.per_language[language].contains(name) {
                d.per_language.insert(language, d.per_language[language].push(name))
            } else {
                d.per_language
            },
            ..d
        }
    }
}

fn list_adding(on: &Vec<String>, off: &Vec<String>, name: &str, wanted: bool) -> (r: Vec<String>)
    ensures
        strs(r@) == list_with(strs(on@), strs(off@), name@, wanted),
{
    if wanted && !list_has(on.as_slice(), name) && !list_has(off.as_slice(), name) {
        with_name(on, name)
    } else {
        copy_list(on)
    }
}

/// Adds a Dictionary to its role lists and the active language list.
///
/// The function adds it to the bottom of each enabled role list. It does not
/// reorder prior names. It also adds the name to the active language's list
/// when that list is present and non-empty. Otherwise, a term Dictionary that
/// the scope does not name starts disabled.
pub fn dictionary_added(cfg: &mut Config, name: &str, roles: Roles)
    ensures
        same_but_lists(*final(cfg), *old(cfg)),
        final(cfg).dictionaries.v() == added_to(
            old(cfg).dictionaries.v(),
            old(cfg).ocr.language@,
            name@,
            roles,
        ),
{
    if trim_of(chars_of(name).as_slice()).len() == 0 {
        return;
    }
    let d = &cfg.dictionaries;
    let language = cfg.ocr.language.as_str();
    let mut per_language = d.per_language.clone();
    if roles.has(Role::Terms) {
        if let Some(list) = d.per_language.get(language) {
            assert(strs(list@).len() == list@.len());
            if list.len() > 0 && !list_has(list.as_slice(), name) {
                per_language.insert(language.to_owned(), with_name(list, name));
            }
        }
    }
    let next = DictionariesConfig {
        terms: list_adding(&d.terms, &d.terms_disabled, name, roles.has(Role::Terms)),
        terms_disabled: copy_list(&d.terms_disabled),
        frequency: list_adding(&d.frequency, &d.frequency_disabled, name, roles.has(Role::Frequency)),
        frequency_disabled: copy_list(&d.frequency_disabled),
        pitch: list_adding(&d.pitch, &d.pitch_disabled, name, roles.has(Role::Pitch)),
        pitch_disabled: copy_list(&d.pitch_disabled),
        ranking_strategy: d.ranking_strategy,
        display_order: copy_list(&d.display_order),
        per_language,
    };
    cfg.dictionaries = next;
}

/// The work that a Dictionary change needs beyond the file save.
#[derive(Debug, Clone, Copy, PartialEq, Eq, Structural)]
pub enum DictionaryWork {
    /// Save the file and send `reload` only.
    Reload,
    /// Recompute every Frequency rank in place first.
    Reindex,
}

/// Chooses whether a Dictionary change needs a Reindex.
///
/// Exactly three inputs determine a rank: enabled frequency Dictionaries,
/// their order, and the Ranking strategy. Terms and pitch lists need no
/// Reindex.
pub fn dictionary_work(before: &Config, after: &Config) -> (r: DictionaryWork)
    ensures
        r == (if before.dictionaries.v().frequency != after.dictionaries.v().frequency
            || before.dictionaries.v().frequency_disabled
            != after.dictionaries.v().frequency_disabled
            || before.dictionaries.v().ranking_strategy != after.dictionaries.v().ranking_strategy {
            DictionaryWork::Reindex
        } else {
            DictionaryWork::Reload
        }),
{
    let a = &before.dictionaries;
    let b = &after.dictionaries;
    if !same_list(&a.frequency, &b.frequency) || !same_list(
        &a.frequency_disabled,
        &b.frequency_disabled,
    ) || a.ranking_strategy != b.ranking_strategy {
        DictionaryWork::Reindex
    } else {
        DictionaryWork::Reload
    }
}

/// The differences between the Library and the source list.
#[derive(Debug, PartialEq, Eq)]
pub struct Drift {
    /// Archives in the Library that the source list does not name.
    pub unbuilt: Vec<String>,
    /// Archives in the source list that the Library no longer has.
    pub orphaned: Vec<String>,
}

/// The names of one list that are not in another.
pub open spec fn missing_from(these: Seq<Seq<char>>, those: Seq<Seq<char>>) -> Seq<Seq<char>> {
    these.filter(|n: Seq<char>| !those.contains(n))
}

/// Returns names that occur in one list but not the other.
fn only_in(these: &Vec<String>, those: &Vec<String>) -> (r: Vec<String>)
    ensures
        strs(r@) == missing_from(strs(these@), strs(those@)),
{
    let ghost others = strs(those@);
    let ghost want = |n: Seq<char>| !others.contains(n);
    let ghost all = strs(these@);
    let mut out: Vec<String> = Vec::new();
    assert(strs(out@) =~= all.take(0).filter(want)) by {
        reveal(Seq::filter);
    }
    let mut i: usize = 0;
    while i < these.len()
        invariant
            i <= these@.len(),
            others == strs(those@),
            all == strs(these@),
            want == (|n: Seq<char>| !others.contains(n)),
            strs(out@) == all.take(i as int).filter(want),
        decreases these@.len() - i,
    {
        proof {
            reveal(Seq::filter);
            assert(all.take(i + 1).drop_last() =~= all.take(i as int));
            assert(all.take(i + 1).last() == all[i as int]);
        }
        if !list_has(those.as_slice(), these[i].as_str()) {
            let ghost before = strs(out@);
            out.push(these[i].clone());
            assert(strs(out@) =~= before.push(all[i as int]));
        }
        i += 1;
    }
    assert(all.take(i as int) =~= all);
    out
}

/// The archives that the first `n` source records name.
pub open spec fn record_names(records: Seq<Seq<char>>, n: int) -> Seq<Seq<char>>
    decreases n,
{
    if n <= 0 {
        seq![]
    } else {
        let before = record_names(records, n - 1);
        match json_fields(records[n - 1]) {
            None => before,
            Some(f) => match string_field(f, "name"@) {
                Some(name) => before.push(name),
                None => before,
            },
        }
    }
}

/// The archives that a source list names, or nothing where there is no list
/// that can be read.
pub open spec fn recorded(sources: Option<Seq<char>>) -> Option<Seq<Seq<char>>> {
    match sources {
        None => None,
        Some(raw) => match json_list(raw) {
            None => None,
            Some(records) => Some(record_names(records, records.len() as int)),
        },
    }
}

/// Reads the archive names of a source list.
fn read_sources(sources: Option<&str>) -> (r: Option<Vec<String>>)
    ensures
        recorded(
            match sources {
                Some(s) => Some(s@),
                None => None,
            },
        ) == (match r {
            Some(v) => Some(strs(v@)),
            None => None,
        }),
{
    let raw = match sources {
        Some(s) => s,
        None => {
            return None;
        },
    };
    let records = match read_list(raw) {
        Some(v) => v,
        None => {
            return None;
        },
    };
    let ghost rs = strs(records@);
    let mut out: Vec<String> = Vec::new();
    assert(strs(out@) =~= seq![]);
    let mut i: usize = 0;
    while i < records.len()
        invariant
            i <= records@.len(),
            rs == strs(records@),
            strs(out@) == record_names(rs, i as int),
        decreases records@.len() - i,
    {
        assert(rs[i as int] == records@[i as int]@);
        match read_fields(records[i].as_str()) {
            None => {},
            Some(f) => {
                match find_string(&f, "name") {
                    Some(name) => {
                        let ghost before = strs(out@);
                        out.push(name);
                        assert(strs(out@) =~= before.push(name@));
                    },
                    None => {},
                }
            },
        }
        i += 1;
    }
    Some(out)
}

/// Compares the Library with the archives that a source list names. Where
/// there is no list, nothing differs.
pub fn drift_from(listed: Option<Vec<String>>, lib: &Library) -> (r: Drift)
    ensures
        match listed {
            None => r.unbuilt@.len() == 0 && r.orphaned@.len() == 0,
            Some(v) => {
                let built = files_where(lib@, |e: ArchiveV| !e.roles.none());
                &&& strs(r.unbuilt@) == missing_from(built, strs(v@))
                &&& strs(r.orphaned@) == missing_from(strs(v@), built)
            },
        },
{
    match listed {
        None => Drift { unbuilt: Vec::new(), orphaned: Vec::new() },
        Some(v) => {
            let built = lib.dict_paths();
            Drift { unbuilt: only_in(&built, &v), orphaned: only_in(&v, &built) }
        },
    }
}

/// The archives of the Library that a source list does not name.
pub open spec fn unbuilt(sources: Option<Seq<char>>, lib: Seq<ArchiveV>) -> Seq<Seq<char>> {
    match recorded(sources) {
        None => seq![],
        Some(v) => missing_from(files_where(lib, |e: ArchiveV| !e.roles.none()), v),
    }
}

/// The archives that a source list names and the Library lacks.
pub open spec fn orphaned(sources: Option<Seq<char>>, lib: Seq<ArchiveV>) -> Seq<Seq<char>> {
    match recorded(sources) {
        None => seq![],
        Some(v) => missing_from(v, files_where(lib, |e: ArchiveV| !e.roles.none())),
    }
}

/// Compares the Library with a source list.
///
/// The function parses the source list and compares archive names. It does
/// not compare record byte values.
pub fn drift(sources: Option<&str>, lib: &Library) -> (r: Drift)
    ensures
        strs(r.unbuilt@) == unbuilt(
            match sources {
                Some(s) => Some(s@),
                None => None,
            },
            lib@,
        ),
        strs(r.orphaned@) == orphaned(
            match sources {
                Some(s) => Some(s@),
                None => None,
            },
            lib@,
        ),
{
    let listed = read_sources(sources);
    let none = listed.is_none();
    let r = drift_from(listed, lib);
    proof {
        if none {
            assert(strs(r.unbuilt@) =~= seq![]);
            assert(strs(r.orphaned@) =~= seq![]);
        }
    }
    r
}

/// The part of the notice on what differs.
pub open spec fn differences(unbuilt: Seq<Seq<char>>, orphaned: Seq<Seq<char>>) -> Seq<char> {
    let a = "In your library but not in the database: "@ + joined(unbuilt, ", "@) + "."@;
    let b = "In the database but no longer in your library: "@ + joined(orphaned, ", "@) + "."@;
    if unbuilt.len() > 0 && orphaned.len() > 0 {
        a + " "@ + b
    } else if unbuilt.len() > 0 {
        a
    } else {
        b
    }
}

/// The rebuild notice for some differences.
pub open spec fn rebuild_notice(
    unbuilt: Seq<Seq<char>>,
    orphaned: Seq<Seq<char>>,
    dir: Seq<char>,
    db: Seq<char>,
) -> Seq<char> {
    "Your library and your dictionary database no longer match. "@ + differences(unbuilt, orphaned)
        + " Nothing is broken and lookups still work, but a dictionary the database does not have cannot answer. To make them match, quit chibipop, then run this in a terminal, and start chibipop again when it finishes:\r\nchibipop build-dict --library \""@
        + dir + "\" --out \""@ + db + "\""@
}

/// Does the Library hold a term archive?
pub open spec fn has_terms(lib: Seq<ArchiveV>) -> bool {
    exists|i: int| 0 <= i < lib.len() && (#[trigger] lib[i]).roles.terms
}

fn holds_terms(lib: &Library) -> (r: bool)
    ensures
        r == has_terms(lib@),
{
    let mut i: usize = 0;
    while i < lib.entries.len()
        invariant
            i <= lib.entries@.len(),
            forall|j: int| 0 <= j < i ==> !(#[trigger] lib@[j]).roles.terms,
        decreases lib.entries@.len() - i,
    {
        if lib.entries[i].roles.has(Role::Terms) {
            assert(lib@[i as int].roles.terms);
            return true;
        }
        i += 1;
    }
    false
}

/// Words the rebuild notice for what differs, or nothing where nothing does.
pub fn notice_of(found: &Drift, dir: &str, db: &str) -> (r: Option<String>)
    ensures
        match r {
            None => found.unbuilt@.len() == 0 && found.orphaned@.len() == 0,
            Some(m) => (found.unbuilt@.len() > 0 || found.orphaned@.len() > 0) && m@
                == rebuild_notice(strs(found.unbuilt@), strs(found.orphaned@), dir@, db@),
        },
{
    let a = found.unbuilt.len() > 0;
    let b = found.orphaned.len() > 0;
    if !a && !b {
        return None;
    }
    let mut p: Vec<char> = Vec::new();
    if a {
        push_chars(&mut p, chars_of("In your library but not in the database: ").as_slice());
        push_chars(&mut p, chars_of(join(found.unbuilt.as_slice(), ", ").as_str()).as_slice());
        push_chars(&mut p, chars_of(".").as_slice());
    }
    if a && b {
        push_chars(&mut p, chars_of(" ").as_slice());
    }
    if b {
        push_chars(&mut p, chars_of("In the database but no longer in your library: ").as_slice());
        push_chars(&mut p, chars_of(join(found.orphaned.as_slice(), ", ").as_str()).as_slice());
        push_chars(&mut p, chars_of(".").as_slice());
    }
    assert(strs(found.unbuilt@).len() == found.unbuilt@.len());
    assert(strs(found.orphaned@).len() == found.orphaned@.len());
    assert(p@ =~= differences(strs(found.unbuilt@), strs(found.orphaned@)));
    let mut m = chars_of("Your library and your dictionary database no longer match. ");
    push_chars(&mut m, p.as_slice());
    push_chars(
        &mut m,
        chars_of(
            " Nothing is broken and lookups still work, but a dictionary the database does not have cannot answer. To make them match, quit chibipop, then run this in a terminal, and start chibipop again when it finishes:\r\nchibipop build-dict --library \"",
        ).as_slice(),
    );
    push_chars(&mut m, chars_of(dir).as_slice());
    push_chars(&mut m, chars_of("\" --out \"").as_slice());
    push_chars(&mut m, chars_of(db).as_slice());
    push_chars(&mut m, chars_of("\"").as_slice());
    Some(string_of(m.as_slice()))
}

/// Builds a rebuild notice when the Library and database differ.
///
/// The function returns no notice when the Library has no term archive,
/// because a build needs one.
pub fn drift_notice(sources: Option<&str>, lib: &Library, dir: &str, db: &str) -> (r: Option<String>)
    ensures
        ({
            let raw = match sources {
                Some(s) => Some(s@),
                None => None,
            };
            let a = unbuilt(raw, lib@);
            let b = orphaned(raw, lib@);
            match r {
                None => !has_terms(lib@) || (a.len() == 0 && b.len() == 0),
                Some(m) => has_terms(lib@) && (a.len() > 0 || b.len() > 0) && m@ == rebuild_notice(
                    a,
                    b,
                    dir@,
                    db@,
                ),
            }
        }),
{
    if !holds_terms(lib) {
        return None;
    }
    let found = drift(sources, lib);
    assert(strs(found.unbuilt@).len() == found.unbuilt@.len());
    assert(strs(found.orphaned@).len() == found.orphaned@.len());
    notice_of(&found, dir, db)
}

/// Whatever a form asks for, the applied numbers stand in their ranges.
pub proof fn applied_numbers_are_in_range(form: SettingsForm, cfg: Config, out: Config)
    requires
        applied(form, cfg, out),
    ensures
        out.in_range(),
{
}

proof fn flagged_names(names: Seq<Seq<char>>, flag: bool, want: bool)
    ensures
        names_of(flagged(names, flag), want, seq![]) == if flag == want {
            names
        } else {
            seq![]
        },
    decreases names.len(),
{
    let rows = flagged(names, flag);
    if names.len() > 0 {
        assert(rows.drop_last() =~= flagged(names.drop_last(), flag));
        flagged_names(names.drop_last(), flag, want);
        assert(rows.last() == (names.last(), flag));
        if flag == want {
            assert(names.drop_last().push(names.last()) =~= names);
        }
    } else {
        assert(names =~= seq![]);
    }
}

proof fn names_of_both(a: Seq<(Seq<char>, bool)>, b: Seq<(Seq<char>, bool)>, flag: bool)
    ensures
        names_of(a + b, flag, seq![]) == names_of(a, flag, seq![]) + names_of(b, flag, seq![]),
    decreases b.len(),
{
    if b.len() == 0 {
        assert(a + b =~= a);
        assert(names_of(a, flag, seq![]) + seq![] =~= names_of(a, flag, seq![]));
    } else {
        assert((a + b).drop_last() =~= a + b.drop_last());
        assert((a + b).last() == b.last());
        names_of_both(a, b.drop_last(), flag);
        let x = names_of(a, flag, seq![]);
        let y = names_of(b.drop_last(), flag, seq![]);
        assert(x + y.push(b.last().0) =~= (x + y).push(b.last().0));
    }
}

proof fn rows_split_back(on: Seq<Seq<char>>, off: Seq<Seq<char>>)
    ensures
        names_of(flagged(on, true) + flagged(off, false), true, seq![]) == on,
        names_of(flagged(on, true) + flagged(off, false), false, seq![]) == off,
{
    names_of_both(flagged(on, true), flagged(off, false), true);
    names_of_both(flagged(on, true), flagged(off, false), false);
    flagged_names(on, true, true);
    flagged_names(off, false, true);
    flagged_names(on, true, false);
    flagged_names(off, false, false);
    assert(on + seq![] =~= on);
    assert(seq![] + off =~= off);
}

/// Is every installed Dictionary a name of some list?
pub open spec fn all_listed(d: DictionariesV, dicts: Seq<InfoV>) -> bool {
    forall|i: int| 0 <= i < dicts.len() ==> listed_somewhere(d, dicts, #[trigger] dicts[i].name)
}

/// Is a name a row of some list?
pub open spec fn listed_somewhere(d: DictionariesV, dicts: Seq<InfoV>, name: Seq<char>) -> bool {
    named(d.rows(Role::Terms, dicts), name) || named(d.rows(Role::Frequency, dicts), name) || named(
        d.rows(Role::Pitch, dicts),
        name,
    )
}

proof fn nothing_installed_is_new(d: DictionariesV, dicts: Seq<InfoV>, n: int)
    requires
        0 <= n <= dicts.len(),
        all_listed(d, dicts),
    ensures
        with_installed(
            d.rows(Role::Terms, dicts),
            d.rows(Role::Frequency, dicts),
            d.rows(Role::Pitch, dicts),
            dicts,
            n,
        ) == d.rows(Role::Terms, dicts),
    decreases n,
{
    if n > 0 {
        nothing_installed_is_new(d, dicts, n - 1);
        assert(listed_somewhere(d, dicts, dicts[n - 1].name));
    }
}

/// Is a configuration written in the role lists, with every installed
/// Dictionary listed, and has the active language no list of its own?
pub open spec fn settled(cfg: Config, dicts: Seq<InfoV>) -> bool {
    let d = cfg.dictionaries.v();
    &&& d.display_order.len() == 0
    &&& all_listed(d, dicts)
    &&& !d.per_language.dom().contains(cfg.ocr.language@)
}

/// An unchanged form gives the configuration back that it was opened from,
/// where that one is settled, its numbers are in range, and a clipboard
/// section has a chord.
pub proof fn an_untouched_form_round_trips(
    cfg: Config,
    dicts: Seq<InfoV>,
    form: SettingsForm,
    out: Config,
)
    requires
        opened(cfg, dicts, form),
        applied(form, cfg, out),
        settled(cfg, dicts),
        cfg.in_range(),
        cfg.actions.ocr_clipboard matches Some(a) ==> a.hotkey is Some || a.hotkey_linux is Some,
    ensures
        out.same(cfg),
{
    let d = cfg.dictionaries.v();
    nothing_installed_is_new(d, dicts, dicts.len() as int);
    rows_split_back(d.terms, d.terms_disabled);
    rows_split_back(d.frequency, d.frequency_disabled);
    rows_split_back(d.pitch, d.pitch_disabled);
    assert(strs(form.unreadable@) =~= seq![]);
    assert(d.display_order =~= seq![]);
    assert(out.dictionaries.v() =~= d);
    assert(out.trigger == cfg.trigger);
    assert(out.popup == cfg.popup);
    assert(out.ocr == cfg.ocr);
    assert(out.debug == cfg.debug);
    assert(out.actions.screenshot == cfg.actions.screenshot);
    assert(out.actions.ocr_clipboard == cfg.actions.ocr_clipboard);
}

proof fn names_without(rows: Seq<(Seq<char>, bool)>, name: Seq<char>, flag: bool)
    ensures
        names_of(rows_without(rows, name), flag, seq![]) == without(
            names_of(rows, flag, seq![]),
            name,
        ),
    decreases rows.len(),
{
    reveal(Seq::filter);
    if rows.len() > 0 {
        names_without(rows.drop_last(), name, flag);
        let kept = rows_without(rows.drop_last(), name);
        let before = names_of(rows.drop_last(), flag, seq![]);
        if rows.last().0 != name {
            assert(kept.push(rows.last()).drop_last() =~= kept);
        }
        if rows.last().1 == flag {
            assert(before.push(rows.last().0).drop_last() =~= before);
        }
    }
}

/// Removing a Dictionary at once leaves the same lists as staging its removal
/// in a form and applying that, where the configuration is settled and has no
/// language lists.
pub proof fn removing_at_once_agrees_with_apply(
    cfg: Config,
    dicts: Seq<InfoV>,
    name: Seq<char>,
    form: SettingsForm,
    out: Config,
)
    requires
        settled(cfg, dicts),
        cfg.dictionaries.v().per_language == Map::<Seq<char>, Seq<Seq<char>>>::empty(),
        applied(form, cfg, out),
        form.unreadable@.len() == 0,
        form.per_language@ == cfg.dictionaries.v().per_language,
        form.ranking_strategy == cfg.dictionaries.v().ranking_strategy,
        form.rows(Role::Terms) == rows_without(
            opening_terms(cfg.dictionaries.v(), cfg.ocr.language@, dicts),
            name,
        ),
        form.rows(Role::Frequency) == rows_without(
            cfg.dictionaries.v().rows(Role::Frequency, dicts),
            name,
        ),
        form.rows(Role::Pitch) == rows_without(cfg.dictionaries.v().rows(Role::Pitch, dicts), name),
    ensures
        out.dictionaries.v() == removed_from(cfg.dictionaries.v(), name),
{
    let d = cfg.dictionaries.v();
    nothing_installed_is_new(d, dicts, dicts.len() as int);
    rows_split_back(d.terms, d.terms_disabled);
    rows_split_back(d.frequency, d.frequency_disabled);
    rows_split_back(d.pitch, d.pitch_disabled);
    assert(strs(form.unreadable@) =~= seq![]);
    names_without(d.rows(Role::Terms, dicts), name, true);
    names_without(d.rows(Role::Terms, dicts), name, false);
    names_without(d.rows(Role::Frequency, dicts), name, true);
    names_without(d.rows(Role::Frequency, dicts), name, false);
    names_without(d.rows(Role::Pitch, dicts), name, true);
    names_without(d.rows(Role::Pitch, dicts), name, false);
    assert(d.display_order =~= seq![]);
    assert(lists_without(d.per_language, name) =~= d.per_language);
    assert(out.dictionaries.v() =~= removed_from(d, name));
}

proof fn one_installed_is_new(d: DictionariesV, dicts: Seq<InfoV>, name: Seq<char>, n: int)
    requires
        0 <= n <= dicts.len(),
        !listed_somewhere(d, dicts, name),
        forall|i: int|
            0 <= i < dicts.len() ==> (#[trigger] dicts[i]).name == name || listed_somewhere(
                d,
                dicts,
                dicts[i].name,
            ),
    ensures
        with_installed(
            d.rows(Role::Terms, dicts),
            d.rows(Role::Frequency, dicts),
            d.rows(Role::Pitch, dicts),
            dicts,
            n,
        ) == if exists|i: int| 0 <= i < n && (#[trigger] dicts[i]).name == name {
            d.rows(Role::Terms, dicts).push((name, true))
        } else {
            d.rows(Role::Terms, dicts)
        },
    decreases n,
{
    if n > 0 {
        one_installed_is_new(d, dicts, name, n - 1);
        let rows = d.rows(Role::Terms, dicts);
        let more = rows.push((name, true));
        let last = dicts[n - 1].name;
        let seen = exists|i: int| 0 <= i < n - 1 && (#[trigger] dicts[i]).name == name;
        if last == name {
            assert(dicts[n - 1].name == name);
            if seen {
                assert(more[rows.len() as int].0 == name);
                assert(named(more, name));
            }
        } else if seen {
            let k = choose|i: int| 0 <= i < n - 1 && (#[trigger] dicts[i]).name == name;
            assert(dicts[k].name == name);
            if named(rows, last) {
                let j = choose|j: int| 0 <= j < rows.len() && (#[trigger] rows[j]).0 == last;
                assert(more[j].0 == last);
                assert(named(more, last));
            }
        }
    }
}

proof fn a_listed_name_is_a_row(on: Seq<Seq<char>>, off: Seq<Seq<char>>, name: Seq<char>)
    ensures
        named(flagged(on, true) + flagged(off, false), name) == (on.contains(name) || off.contains(
            name,
        )),
{
    let rows = flagged(on, true) + flagged(off, false);
    if on.contains(name) {
        let k = choose|k: int| 0 <= k < on.len() && on[k] == name;
        assert(rows[k].0 == name);
    }
    if off.contains(name) {
        let k = choose|k: int| 0 <= k < off.len() && off[k] == name;
        assert(rows[on.len() + k].0 == name);
    }
    if named(rows, name) {
        let k = choose|k: int| 0 <= k < rows.len() && (#[trigger] rows[k]).0 == name;
        if k < on.len() {
            assert(on[k] == name);
        } else {
            assert(off[k - on.len()] == name);
        }
    }
}

/// Adding a term Dictionary at once leaves the same lists as opening a form
/// where it is installed and listed nowhere, and applying that, where the
/// active language has no list and no name is blank.
pub proof fn adding_at_once_agrees_with_apply(
    cfg: Config,
    dicts: Seq<InfoV>,
    name: Seq<char>,
    form: SettingsForm,
    out: Config,
)
    requires
        opened(cfg, dicts, form),
        applied(form, cfg, out),
        cfg.dictionaries.v().display_order.len() == 0,
        !cfg.dictionaries.v().per_language.dom().contains(cfg.ocr.language@),
        trim(name).len() > 0,
        installed(dicts, name),
        !listed_somewhere(cfg.dictionaries.v(), dicts, name),
        forall|i: int|
            0 <= i < dicts.len() ==> (#[trigger] dicts[i]).name == name || listed_somewhere(
                cfg.dictionaries.v(),
                dicts,
                dicts[i].name,
            ),
    ensures
        out.dictionaries.v() == added_to(
            cfg.dictionaries.v(),
            cfg.ocr.language@,
            name,
            Roles { terms: true, frequency: false, pitch: false },
        ),
{
    let d = cfg.dictionaries.v();
    one_installed_is_new(d, dicts, name, dicts.len() as int);
    let rows = d.rows(Role::Terms, dicts);
    a_listed_name_is_a_row(d.terms, d.terms_disabled, name);
    rows_split_back(d.terms, d.terms_disabled);
    rows_split_back(d.frequency, d.frequency_disabled);
    rows_split_back(d.pitch, d.pitch_disabled);
    assert(strs(form.unreadable@) =~= seq![]);
    assert(rows.push((name, true)).drop_last() =~= rows);
    assert(d.display_order =~= seq![]);
    assert(out.dictionaries.v() =~= added_to(
        d,
        cfg.ocr.language@,
        name,
        Roles { terms: true, frequency: false, pitch: false },
    ));
}

/// A name removed is in no list afterwards.
pub proof fn a_removed_name_is_nowhere(d: DictionariesV, name: Seq<char>, role: Role, language: Seq<char>)
    ensures
        !removed_from(d, name).on(role).contains(name),
        !removed_from(d, name).off(role).contains(name),
        removed_from(d, name).per_language.dom().contains(language) ==> {
            &&& !removed_from(d, name).per_language[language].contains(name)
            &&& removed_from(d, name).per_language[language].len() > 0
        },
{
    without_drops(d.on(role), name);
    without_drops(d.off(role), name);
    if d.per_language.dom().contains(language) {
        without_drops(d.per_language[language], name);
    }
}

proof fn without_drops(list: Seq<Seq<char>>, name: Seq<char>)
    ensures
        !without(list, name).contains(name),
{
    broadcast use vstd::seq_lib::group_filter_ensures;

}

/// Removing a name that no list has changes no role list.
pub proof fn removing_an_unknown_name_changes_no_role_list(list: Seq<Seq<char>>, name: Seq<char>)
    requires
        !list.contains(name),
    ensures
        without(list, name) == list,
    decreases list.len(),
{
    reveal(Seq::filter);
    if list.len() > 0 {
        assert(list[list.len() - 1] == list.last());
        assert forall|x: Seq<char>| list.drop_last().contains(x) implies list.contains(x) by {
            let k = choose|k: int| 0 <= k < list.drop_last().len() && list.drop_last()[k] == x;
            assert(list[k] == x);
        }
        removing_an_unknown_name_changes_no_role_list(list.drop_last(), name);
        assert(list.drop_last().push(list.last()) =~= list);
    }
}

/// An import staged and then removed leaves no trace in a list or among the
/// staged imports, where its name was not there before.
pub proof fn an_add_then_a_removal_is_no_change(
    rows: Seq<(Seq<char>, bool)>,
    adds: Seq<(Seq<Seq<char>>, Seq<char>)>,
    source: Seq<Seq<char>>,
    name: Seq<char>,
)
    requires
        !named(rows, name),
        !staged_as(adds, name),
    ensures
        rows_without(rows.push((name, true)), name) == rows,
        rows_without(rows, name) == rows,
        adds_without(adds.push((source, name)), name) == adds,
        staged_as(adds.push((source, name)), name),
{
    reveal(Seq::filter);
    rows_all_stay(rows, name);
    adds_all_stay(adds, name);
    assert(rows.push((name, true)).drop_last() =~= rows);
    assert(adds.push((source, name)).drop_last() =~= adds);
    assert(adds.push((source, name))[adds.len() as int].1 == name);
}

proof fn rows_all_stay(rows: Seq<(Seq<char>, bool)>, name: Seq<char>)
    requires
        !named(rows, name),
    ensures
        rows_without(rows, name) == rows,
    decreases rows.len(),
{
    reveal(Seq::filter);
    if rows.len() > 0 {
        assert(rows[rows.len() - 1].0 != name);
        assert(!named(rows.drop_last(), name)) by {
            if named(rows.drop_last(), name) {
                let k = choose|k: int|
                    0 <= k < rows.drop_last().len() && (#[trigger] rows.drop_last()[k]).0 == name;
                assert(rows[k].0 == name);
            }
        }
        rows_all_stay(rows.drop_last(), name);
        assert(rows.drop_last().push(rows.last()) =~= rows);
    }
}

proof fn adds_all_stay(adds: Seq<(Seq<Seq<char>>, Seq<char>)>, name: Seq<char>)
    requires
        !staged_as(adds, name),
    ensures
        adds_without(adds, name) == adds,
    decreases adds.len(),
{
    reveal(Seq::filter);
    if adds.len() > 0 {
        assert(adds[adds.len() - 1].1 != name);
        assert(!staged_as(adds.drop_last(), name)) by {
            if staged_as(adds.drop_last(), name) {
                let k = choose|k: int|
                    0 <= k < adds.drop_last().len() && (#[trigger] adds.drop_last()[k]).1 == name;
                assert(adds[k].1 == name);
            }
        }
        adds_all_stay(adds.drop_last(), name);
        assert(adds.drop_last().push(adds.last()) =~= adds);
    }
}

/// Every archive that supplies a role is a row of that role's list after the
/// merge with the Library.
pub proof fn every_archive_is_listed(
    rows: Seq<(Seq<char>, bool)>,
    lib: Seq<ArchiveV>,
    role: Role,
    i: int,
)
    requires
        0 <= i < lib.len(),
        lib[i].roles.holds(role),
    ensures
        named(merged(rows, lib, role), lib[i].name),
{
    archive_is_listed(
        rows.filter(|r: (Seq<char>, bool)| row_stays(lib, role, r.0)),
        lib,
        role,
        i,
        lib.len() as int,
    );
}

proof fn archive_is_listed(
    rows: Seq<(Seq<char>, bool)>,
    lib: Seq<ArchiveV>,
    role: Role,
    i: int,
    n: int,
)
    requires
        0 <= i < n <= lib.len(),
        lib[i].roles.holds(role),
    ensures
        named(with_archives(rows, lib, role, n), lib[i].name),
    decreases n,
{
    let before = with_archives(rows, lib, role, n - 1);
    let after = with_archives(rows, lib, role, n);
    if i == n - 1 {
        if !named(before, lib[i].name) {
            assert(after[before.len() as int].0 == lib[i].name);
        }
    } else {
        archive_is_listed(rows, lib, role, i, n - 1);
        let k = choose|k: int| 0 <= k < before.len() && (#[trigger] before[k]).0 == lib[i].name;
        assert(after[k].0 == lib[i].name);
    }
}

/// A row that the Library leaves in its list keeps its place before every
/// archive that the merge adds.
pub proof fn a_merge_moves_no_row(rows: Seq<(Seq<char>, bool)>, lib: Seq<ArchiveV>, role: Role)
    ensures
        ({
            let kept = rows.filter(|r: (Seq<char>, bool)| row_stays(lib, role, r.0));
            kept.is_prefix_of(merged(rows, lib, role))
        }),
{
    archives_come_last(
        rows.filter(|r: (Seq<char>, bool)| row_stays(lib, role, r.0)),
        lib,
        role,
        lib.len() as int,
    );
}

proof fn archives_come_last(rows: Seq<(Seq<char>, bool)>, lib: Seq<ArchiveV>, role: Role, n: int)
    ensures
        rows.is_prefix_of(with_archives(rows, lib, role, n)),
    decreases n,
{
    if n > 0 {
        archives_come_last(rows, lib, role, n - 1);
        let before = with_archives(rows, lib, role, n - 1);
        let after = with_archives(rows, lib, role, n);
        assert(after.take(rows.len() as int) =~= before.take(rows.len() as int));
        assert(rows =~= after.take(rows.len() as int));
    } else {
        assert(rows =~= rows.take(rows.len() as int));
    }
}

proof fn named_rows(
    rows: Seq<(Seq<char>, bool)>,
    flag: bool,
    unreadable: Seq<Seq<char>>,
    name: Seq<char>,
)
    ensures
        names_of(rows, flag, unreadable).contains(name) <==> !unreadable.contains(name) && exists|
            i: int,
        | 0 <= i < rows.len() && #[trigger] rows[i] == (name, flag),
    decreases rows.len(),
{
    if rows.len() > 0 {
        let front = rows.drop_last();
        let n = rows.len() - 1;
        named_rows(front, flag, unreadable, name);
        let before = names_of(front, flag, unreadable);
        let all = names_of(rows, flag, unreadable);
        if all.contains(name) {
            let j = choose|j: int| 0 <= j < all.len() && all[j] == name;
            if j < before.len() {
                assert(before[j] == name);
                let i = choose|i: int| 0 <= i < front.len() && #[trigger] front[i] == (name, flag);
                assert(rows[i] == (name, flag));
            } else {
                assert(rows[n] == (name, flag));
            }
        }
        if !unreadable.contains(name) && exists|i: int|
            0 <= i < rows.len() && #[trigger] rows[i] == (name, flag) {
            let i = choose|i: int| 0 <= i < rows.len() && #[trigger] rows[i] == (name, flag);
            if i < n {
                assert(front[i] == (name, flag));
                let j = choose|j: int| 0 <= j < before.len() && before[j] == name;
                assert(all[j] == name);
            } else {
                assert(all[before.len() as int] == name);
            }
        }
    }
}

/// Apply enables the names whose rows are checked and disables those whose rows
/// are not, each for the role whose list they stand in; a file that cannot be
/// read is neither.
pub proof fn a_checked_row_is_enabled(form: SettingsForm, name: Seq<char>)
    ensures
        ({
            let d = dictionaries_after(form);
            let un = strs(form.unreadable@);
            &&& d.terms.contains(name) <==> !un.contains(name) && exists|i: int|
                0 <= i < form.terms@.len() && #[trigger] drows(form.terms@)[i] == (name, true)
            &&& d.terms_disabled.contains(name) <==> !un.contains(name) && exists|i: int|
                0 <= i < form.terms@.len() && #[trigger] drows(form.terms@)[i] == (name, false)
            &&& d.frequency.contains(name) <==> !un.contains(name) && exists|i: int|
                0 <= i < form.frequency@.len() && #[trigger] drows(form.frequency@)[i] == (name, true)
            &&& d.frequency_disabled.contains(name) <==> !un.contains(name) && exists|i: int|
                0 <= i < form.frequency@.len() && #[trigger] drows(form.frequency@)[i] == (name, false)
            &&& d.pitch.contains(name) <==> !un.contains(name) && exists|i: int|
                0 <= i < form.pitch@.len() && #[trigger] drows(form.pitch@)[i] == (name, true)
            &&& d.pitch_disabled.contains(name) <==> !un.contains(name) && exists|i: int|
                0 <= i < form.pitch@.len() && #[trigger] drows(form.pitch@)[i] == (name, false)
            &&& d.ranking_strategy == form.ranking_strategy
        }),
{
    let un = strs(form.unreadable@);
    named_rows(drows(form.terms@), true, un, name);
    named_rows(drows(form.terms@), false, un, name);
    named_rows(drows(form.frequency@), true, un, name);
    named_rows(drows(form.frequency@), false, un, name);
    named_rows(drows(form.pitch@), true, un, name);
    named_rows(drows(form.pitch@), false, un, name);
}

/// Rows keep their screen order: what is read of two parts of a list is what
/// is read of each, one behind the other.
pub proof fn rows_keep_their_screen_order(
    a: Seq<(Seq<char>, bool)>,
    b: Seq<(Seq<char>, bool)>,
    flag: bool,
    unreadable: Seq<Seq<char>>,
)
    ensures
        names_of(a + b, flag, unreadable) == names_of(a, flag, unreadable) + names_of(
            b,
            flag,
            unreadable,
        ),
    decreases b.len(),
{
    if b.len() == 0 {
        assert(a + b =~= a);
        assert(names_of(a, flag, unreadable) + seq![] =~= names_of(a, flag, unreadable));
    } else {
        assert((a + b).drop_last() =~= a + b.drop_last());
        rows_keep_their_screen_order(a, b.drop_last(), flag, unreadable);
        assert(names_of(a + b, flag, unreadable) =~= names_of(a, flag, unreadable) + names_of(
            b,
            flag,
            unreadable,
        ));
    }
}

/// Each control of the window shows the setting of its own name.
pub proof fn each_control_shows_its_own_setting(cfg: Config, dicts: Seq<InfoV>, form: SettingsForm)
    requires
        opened(cfg, dicts, form),
    ensures
        form.mode == cfg.trigger.mode,
        form.highlight_match == cfg.popup.highlight_match,
        form.scroll_popup == cfg.popup.scroll_popup,
        form.edge_autoscroll == cfg.popup.edge_autoscroll,
        form.side_panel == cfg.popup.side_panel,
        form.dictionary_styling == cfg.popup.dictionary_styling,
        form.show_examples == cfg.popup.show_examples,
        form.show_attributions == cfg.popup.show_attributions,
        form.show_images == cfg.popup.show_images,
        form.show_part_of_speech == cfg.popup.show_part_of_speech,
        form.exclude_from_capture == cfg.popup.exclude_from_capture,
        form.max_width_percent == cfg.popup.max_width_percent,
        form.max_height_percent == cfg.popup.max_height_percent,
        form.capture_width == cfg.ocr.capture_width,
        form.capture_height == cfg.ocr.capture_height,
        form.prefer_vertical == cfg.ocr.prefer_vertical,
        form.scan_alphanumeric == cfg.ocr.scan_alphanumeric,
        form.show_scan_region == cfg.debug.show_scan_region,
        form.show_engine_log == cfg.debug.show_engine_log,
        form.show_adapter_log == cfg.debug.show_adapter_log,
        form.anki_deck == cfg.anki.deck,
        form.anki_model == cfg.anki.model,
        form.anki_url == cfg.anki.url,
        form.notify_on_add == cfg.anki.notify_on_add,
        form.show_static_overlay == cfg.anki.show_static_overlay,
        form.first_dict_only == cfg.anki.first_dict_only,
        form.include_screenshot == cfg.actions.screenshot.include_on_add,
{
}

/// Each control writes the setting of its own name, and a setting that no
/// control shows stays as it was.
pub proof fn each_control_writes_its_own_setting(form: SettingsForm, cfg: Config, out: Config)
    requires
        applied(form, cfg, out),
    ensures
        out.trigger.mode == form.mode,
        out.popup.highlight_match == form.highlight_match,
        out.popup.scroll_popup == form.scroll_popup,
        out.popup.edge_autoscroll == form.edge_autoscroll,
        out.popup.side_panel == form.side_panel,
        out.popup.dictionary_styling == form.dictionary_styling,
        out.popup.show_examples == form.show_examples,
        out.popup.show_attributions == form.show_attributions,
        out.popup.show_images == form.show_images,
        out.popup.show_part_of_speech == form.show_part_of_speech,
        out.popup.exclude_from_capture == form.exclude_from_capture,
        out.ocr.prefer_vertical == form.prefer_vertical,
        out.ocr.scan_alphanumeric == form.scan_alphanumeric,
        out.debug.show_scan_region == form.show_scan_region,
        out.debug.show_engine_log == form.show_engine_log,
        out.debug.show_adapter_log == form.show_adapter_log,
        out.anki.deck == form.anki_deck,
        out.anki.model == form.anki_model,
        out.anki.url == form.anki_url,
        out.anki.notify_on_add == form.notify_on_add,
        out.anki.show_static_overlay == form.show_static_overlay,
        out.anki.first_dict_only == form.first_dict_only,
        out.actions.screenshot.include_on_add == form.include_screenshot,
        out.trigger.trigger_key_linux == cfg.trigger.trigger_key_linux,
        out.popup.layer == cfg.popup.layer,
        out.anki.add_key_linux == cfg.anki.add_key_linux,
        out.anki.static_region_key_linux == cfg.anki.static_region_key_linux,
        out.actions.screenshot.hotkey == cfg.actions.screenshot.hotkey,
        form.field_map is None ==> out.anki.field_map@ == cfg.anki.field_map@,
        form.field_map is Some ==> out.anki.field_map@ == form.field_map->0@,
        10 <= form.max_width_percent <= 100 ==> out.popup.max_width_percent
            == form.max_width_percent,
        10 <= form.max_height_percent <= 100 ==> out.popup.max_height_percent
            == form.max_height_percent,
        10 <= form.summary_chars <= 200 ==> out.popup.summary_chars == form.summary_chars,
        1 <= form.max_ocr_passes <= 5 ==> out.ocr.max_ocr_passes == form.max_ocr_passes,
        100 <= form.capture_width <= 1600 ==> out.ocr.capture_width == form.capture_width,
        80 <= form.capture_height <= 600 ==> out.ocr.capture_height == form.capture_height,
{
}

/// A number out of its range is moved to the nearer end, and one within stays.
pub proof fn a_number_goes_to_the_nearer_end(x: int, lo: int, hi: int)
    requires
        lo <= hi,
    ensures
        lo <= clamped(x, lo, hi) <= hi,
        lo <= x <= hi ==> clamped(x, lo, hi) == x,
        forall|y: int|
            #![trigger clamped(y, lo, hi)]
            lo <= y <= hi ==> {
                &&& x < lo ==> clamped(x, lo, hi) - x <= y - x
                &&& x > hi ==> x - clamped(x, lo, hi) <= x - y
            },
{
}

/// Apply writes the active language's list only where that language has one
/// and the rows are that language's, and no other language's ever.
pub proof fn only_the_shown_language_changes(form: SettingsForm, tag: Seq<char>)
    ensures
        ({
            let was = form.per_language@;
            let now = dictionaries_after(form).per_language;
            let shown = form.dict_list_language@ == form.ocr_language@ && was.dom().contains(
                form.ocr_language@,
            );
            &&& tag != form.ocr_language@ || !shown ==> (now.dom().contains(tag) <==> was.dom().contains(
                tag,
            )) && (was.dom().contains(tag) ==> now[tag] == was[tag])
            &&& shown && dictionaries_after(form).terms.len() > 0 ==> now.dom().contains(
                form.ocr_language@,
            ) && now[form.ocr_language@] == dictionaries_after(form).terms
            &&& now.dom() =~= was.dom()
        }),
{
}

/// A chord that the form does not show stays, and the action goes only with
/// its last chord.
pub proof fn the_other_chord_stays(key: Option<String>, was: Option<OcrClipboardConfig>)
    ensures
        ({
            let now = clipboard_after(key, was);
            let linux = match was {
                Some(a) => a.hotkey_linux,
                None => None,
            };
            &&& now is None <==> key is None && linux is None
            &&& now matches Some(a) ==> a.hotkey == key && a.hotkey_linux == linux
        }),
{
}

proof fn stale_in_list(
    found: Seq<Seq<char>>,
    list: Seq<Seq<char>>,
    dicts: Seq<InfoV>,
    name: Seq<char>,
)
    requires
        found.no_duplicates(),
    ensures
        stale_with(found, list, dicts).no_duplicates(),
        stale_with(found, list, dicts).contains(name) <==> found.contains(name) || (list.contains(
            name,
        ) && !installed(dicts, name)),
    decreases list.len(),
{
    if list.len() > 0 {
        let front = list.drop_last();
        let n = list.len() - 1;
        stale_in_list(found, front, dicts, name);
        let before = stale_with(found, front, dicts);
        let all = stale_with(found, list, dicts);
        assert(list[n] == list.last());
        if all.contains(name) {
            let j = choose|j: int| 0 <= j < all.len() && all[j] == name;
            if j < before.len() {
                assert(before[j] == name);
            }
        }
        if before.contains(name) {
            let j = choose|j: int| 0 <= j < before.len() && before[j] == name;
            assert(all[j] == name);
        }
        if front.contains(name) {
            let j = choose|j: int| 0 <= j < front.len() && front[j] == name;
            assert(list[j] == name);
        }
        if list.contains(name) {
            let j = choose|j: int| 0 <= j < list.len() && list[j] == name;
            if j < n {
                assert(front[j] == name);
            } else if !installed(dicts, name) && !before.contains(name) {
                assert(all[before.len() as int] == name);
            }
        }
    }
}

/// A name is stale where a list has it and no installed Dictionary does; each
/// is told once.
pub proof fn a_name_without_a_dictionary_is_stale(
    d: DictionariesV,
    dicts: Seq<InfoV>,
    name: Seq<char>,
)
    ensures
        stale(d, dicts).no_duplicates(),
        stale(d, dicts).contains(name) <==> (d.terms.contains(name) || d.terms_disabled.contains(name)
            || d.frequency.contains(name) || d.frequency_disabled.contains(name) || d.pitch.contains(
            name,
        ) || d.pitch_disabled.contains(name)) && forall|i: int|
            0 <= i < dicts.len() ==> (#[trigger] dicts[i]).name != name,
{
    let none: Seq<Seq<char>> = seq![];
    let a1 = stale_with(none, d.terms, dicts);
    let a2 = stale_with(a1, d.terms_disabled, dicts);
    let b1 = stale_with(a2, d.frequency, dicts);
    let b2 = stale_with(b1, d.frequency_disabled, dicts);
    let c1 = stale_with(b2, d.pitch, dicts);
    stale_in_list(none, d.terms, dicts, name);
    stale_in_list(a1, d.terms_disabled, dicts, name);
    stale_in_list(a2, d.frequency, dicts, name);
    stale_in_list(b1, d.frequency_disabled, dicts, name);
    stale_in_list(b2, d.pitch, dicts, name);
    stale_in_list(c1, d.pitch_disabled, dicts, name);
}

/// A new Dictionary is enabled, last, for each role that it has, unless the
/// role names it already, and for no other; no name leaves a list.
pub proof fn a_new_dictionary_is_enabled_for_its_roles(
    d: DictionariesV,
    language: Seq<char>,
    name: Seq<char>,
    roles: Roles,
    other: Seq<char>,
)
    requires
        trim(name).len() > 0,
    ensures
        ({
            let now = added_to(d, language, name, roles);
            &&& roles.terms && !d.terms.contains(name) && !d.terms_disabled.contains(name)
                ==> now.terms.len() > 0 && now.terms.last() == name
            &&& roles.frequency && !d.frequency.contains(name) && !d.frequency_disabled.contains(name)
                ==> now.frequency.len() > 0 && now.frequency.last() == name
            &&& roles.pitch && !d.pitch.contains(name) && !d.pitch_disabled.contains(name)
                ==> now.pitch.len() > 0 && now.pitch.last() == name
            &&& !roles.terms ==> now.terms == d.terms && now.per_language == d.per_language
            &&& !roles.frequency ==> now.frequency == d.frequency
            &&& !roles.pitch ==> now.pitch == d.pitch
            &&& d.terms_disabled.contains(name) ==> now.terms == d.terms
            &&& d.frequency_disabled.contains(name) ==> now.frequency == d.frequency
            &&& d.pitch_disabled.contains(name) ==> now.pitch == d.pitch
            &&& now.terms_disabled == d.terms_disabled
            &&& now.frequency_disabled == d.frequency_disabled
            &&& now.pitch_disabled == d.pitch_disabled
            &&& other != name ==> (now.terms.contains(other) <==> d.terms.contains(other))
        }),
{
    let now = added_to(d, language, name, roles);
    if d.terms.contains(other) {
        let i = choose|i: int| 0 <= i < d.terms.len() && d.terms[i] == other;
        assert(now.terms[i] == other);
    }
    if now.terms.contains(other) {
        let i = choose|i: int| 0 <= i < now.terms.len() && now.terms[i] == other;
        if i < d.terms.len() {
            assert(d.terms[i] == other);
        }
    }
}

/// Removing a Dictionary takes its own name out of every list and no other.
pub proof fn a_removal_takes_one_name(d: DictionariesV, name: Seq<char>, other: Seq<char>)
    requires
        other != name,
    ensures
        removed_from(d, name).terms.contains(other) <==> d.terms.contains(other),
        removed_from(d, name).terms_disabled.contains(other) <==> d.terms_disabled.contains(other),
        removed_from(d, name).frequency.contains(other) <==> d.frequency.contains(other),
        removed_from(d, name).frequency_disabled.contains(other) <==> d.frequency_disabled.contains(
            other,
        ),
        removed_from(d, name).pitch.contains(other) <==> d.pitch.contains(other),
        removed_from(d, name).pitch_disabled.contains(other) <==> d.pitch_disabled.contains(other),
{
    a_list_keeps_its_other_names(d.terms, name, other);
    a_list_keeps_its_other_names(d.terms_disabled, name, other);
    a_list_keeps_its_other_names(d.frequency, name, other);
    a_list_keeps_its_other_names(d.frequency_disabled, name, other);
    a_list_keeps_its_other_names(d.pitch, name, other);
    a_list_keeps_its_other_names(d.pitch_disabled, name, other);
}

proof fn file_for_is_first(lib: Seq<ArchiveV>, name: Seq<char>)
    ensures
        match file_for(lib, name) {
            Some(f) => exists|k: int|
                {
                    &&& 0 <= k < lib.len()
                    &&& (#[trigger] lib[k]).file == f
                    &&& lib[k].name == name || lib[k].file == name
                    &&& forall|j: int|
                        0 <= j < k ==> (#[trigger] lib[j]).name != name && lib[j].file != name
                },
            None => forall|j: int|
                0 <= j < lib.len() ==> (#[trigger] lib[j]).name != name && lib[j].file != name,
        },
    decreases lib.len(),
{
    if lib.len() > 0 && lib[0].name != name && lib[0].file != name {
        let rest = lib.skip(1);
        file_for_is_first(rest, name);
        match file_for(rest, name) {
            Some(f) => {
                let k = choose|k: int|
                    {
                        &&& 0 <= k < rest.len()
                        &&& (#[trigger] rest[k]).file == f
                        &&& rest[k].name == name || rest[k].file == name
                        &&& forall|j: int|
                            0 <= j < k ==> (#[trigger] rest[j]).name != name && rest[j].file != name
                    };
                assert(lib[k + 1] == rest[k]);
                assert forall|j: int| 0 <= j < k + 1 implies (#[trigger] lib[j]).name != name
                    && lib[j].file != name by {
                    if j > 0 {
                        assert(rest[j - 1] == lib[j]);
                    }
                }
            },
            None => {
                assert forall|j: int| 0 <= j < lib.len() implies (#[trigger] lib[j]).name != name
                    && lib[j].file != name by {
                    if j > 0 {
                        assert(rest[j - 1] == lib[j]);
                    }
                }
            },
        }
    } else if lib.len() > 0 {
        assert(lib[0].file == lib[0].file);
    }
}

/// A staged removal takes the file of the first archive that it names, by title
/// or by file, and an archive that no removal names is not taken.
pub proof fn a_removal_takes_the_archive_it_names(
    names: Seq<Seq<char>>,
    lib: Seq<ArchiveV>,
    n: int,
    i: int,
    f: Seq<char>,
)
    requires
        0 <= n <= names.len(),
    ensures
        0 <= i < n && file_for(lib, names[i]) == Some(f) ==> gone_upto(names, lib, n).contains(f),
        gone_upto(names, lib, n).contains(f) ==> exists|k: int, m: int|
            0 <= k < n && 0 <= m < lib.len() && (#[trigger] lib[m]).file == f && (lib[m].name
                == #[trigger] names[k] || lib[m].file == names[k]),
        0 <= i < n && (exists|m: int|
            0 <= m < lib.len() && ((#[trigger] lib[m]).name == names[i] || lib[m].file == names[i]))
            ==> file_for(lib, names[i]) is Some,
    decreases n,
{
    if 0 <= i < n {
        file_for_is_first(lib, names[i]);
    }
    if n > 0 {
        a_removal_takes_the_archive_it_names(names, lib, n - 1, i, f);
        file_for_is_first(lib, names[n - 1]);
        let before = gone_upto(names, lib, n - 1);
        let all = gone_upto(names, lib, n);
        if before.contains(f) {
            let j = choose|j: int| 0 <= j < before.len() && before[j] == f;
            assert(all[j] == f);
        }
        if file_for(lib, names[n - 1]) == Some(f) {
            assert(all[before.len() as int] == f);
        }
        if all.contains(f) {
            let j = choose|j: int| 0 <= j < all.len() && all[j] == f;
            if j < before.len() {
                assert(before[j] == f);
            } else {
                let m = choose|m: int|
                    {
                        &&& 0 <= m < lib.len()
                        &&& (#[trigger] lib[m]).file == f
                        &&& lib[m].name == names[n - 1] || lib[m].file == names[n - 1]
                    };
                assert(lib[m].file == f && (lib[m].name == names[n - 1] || lib[m].file == names[n
                    - 1]));
            }
        }
    }
}

/// The window says something exactly where Apply changed a size.
pub proof fn a_changed_size_is_told(asked_w: int, got_w: int, asked_h: int, got_h: int)
    ensures
        size_notice(asked_w, got_w, asked_h, got_h) is None <==> asked_w == got_w && asked_h == got_h,
        asked_w != got_w && asked_h == got_h ==> size_notice(asked_w, got_w, asked_h, got_h) == Some(
            side_notice("width"@, asked_w, got_w),
        ),
        asked_w == got_w && asked_h != got_h ==> size_notice(asked_w, got_w, asked_h, got_h) == Some(
            side_notice("height"@, asked_h, got_h),
        ),
{
}

/// A language's window shows its own names, checked, and every other name
/// unchecked, below them.
pub proof fn a_scoped_window_checks_its_own_names(
    scope: Seq<Seq<char>>,
    terms: Seq<(Seq<char>, bool)>,
    n: int,
    i: int,
)
    requires
        0 <= n <= terms.len(),
    ensures
        ({
            let rows = scoped_rows(scope, terms, n);
            &&& scope.len() <= rows.len()
            &&& forall|k: int| 0 <= k < scope.len() ==> #[trigger] rows[k] == (scope[k], true)
            &&& forall|k: int| scope.len() <= k < rows.len() ==> !(#[trigger] rows[k]).1
            &&& 0 <= i < n ==> named(rows, terms[i].0)
        }),
    decreases n,
{
    if n > 0 {
        a_scoped_window_checks_its_own_names(scope, terms, n - 1, i);
        let before = scoped_rows(scope, terms, n - 1);
        let rows = scoped_rows(scope, terms, n);
        if 0 <= i < n {
            if named(before, terms[i].0) {
                let k = choose|k: int| 0 <= k < before.len() && (#[trigger] before[k]).0 == terms[i].0;
                assert(rows[k].0 == terms[i].0);
            } else {
                assert(rows[before.len() as int].0 == terms[i].0);
            }
        }
    }
}

/// A name is staged for removal once, and never where it only names a staged
/// import: that import just leaves the stage.
pub proof fn a_removal_is_staged_once(form: SettingsForm, name: Seq<char>)
    ensures
        strs(form.staged_removes@).contains(name) ==> form.removing(name) == strs(
            form.staged_removes@,
        ),
        (exists|i: int|
            0 <= i < form.staged_adds@.len() && (#[trigger] form.staged_adds@[i]).name@ == name)
            ==> form.removing(name) == strs(form.staged_removes@),
        !strs(form.staged_removes@).contains(name) && (forall|i: int|
            0 <= i < form.staged_adds@.len() ==> (#[trigger] form.staged_adds@[i]).name@ != name)
            ==> form.removing(name) == strs(form.staged_removes@).push(name),
{
    let adds = adds_v(form.staged_adds@);
    if exists|i: int| 0 <= i < form.staged_adds@.len() && (#[trigger] form.staged_adds@[i]).name@ == name {
        let i = choose|i: int|
            0 <= i < form.staged_adds@.len() && (#[trigger] form.staged_adds@[i]).name@ == name;
        assert(adds[i].1 == name);
    }
    if staged_as(adds, name) {
        let i = choose|i: int| 0 <= i < adds.len() && (#[trigger] adds[i]).1 == name;
        assert(form.staged_adds@[i].name@ == name);
    }
}

/// A side that Apply raised is told as raised to its minimum, and one that it
/// lowered as lowered to its maximum.
pub proof fn a_notice_says_which_way_a_side_went(axis: Seq<char>, asked: int, got: int)
    ensures
        asked < got ==> side_notice(axis, asked, got) == "Capture "@ + axis + " raised to the "@
            + signed(got) + "px minimum."@,
        got < asked ==> side_notice(axis, asked, got) == "Capture "@ + axis + " lowered to the "@
            + signed(got) + "px maximum."@,
{
}

} // verus!
