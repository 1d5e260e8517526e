//! The configuration.
use crate::chars::{chars_of, copy_list, has_part, list_has, same_list, same_str, strs, within};
use crate::library::Role;
use crate::present::{infos_v, DictInfo, InfoV, PresentConfig, PresentV};
use vstd::prelude::*;

verus! {

pub const MAX_WIDTH_RANGE: (u8, u8) = (10, 100);

pub const MAX_HEIGHT_RANGE: (u8, u8) = (10, 100);

pub const SUMMARY_RANGE: (usize, usize) = (10, 200);

pub const PASSES_RANGE: (u8, u8) = (1, 5);

pub const CAPTURE_W_RANGE: (i32, i32) = (100, 1600);

pub const CAPTURE_H_RANGE: (i32, i32) = (80, 600);

/// When a lookup runs.
#[derive(Debug, Clone, Copy, PartialEq, Eq, Structural)]
pub enum TriggerMode {
    Live,
    HoldKey,
    HoldShift,
}

/// How a card lays its text out.
#[derive(Debug, Clone, Copy, PartialEq, Eq, Structural)]
pub enum LayoutMode {
    Full,
    Compact,
}

/// The desktop layer of the popup.
#[derive(Debug, Clone, Copy, PartialEq, Eq, Structural)]
pub enum PopupLayer {
    Overlay,
    Top,
}

/// What the `sentence` field holds.
#[derive(Debug, Clone, Copy, PartialEq, Eq, Structural)]
pub enum SentenceMode {
    Line,
    All,
    Static,
}

/// What the primary button does to a glossary selection.
#[derive(Debug, Clone, Copy, PartialEq, Eq, Structural)]
pub enum SelectionButtons {
    PrimaryAdding,
    PrimaryReplacing,
}

/// What joins selected glossary fragments.
#[derive(Debug, Clone, Copy, PartialEq, Eq, Structural)]
pub enum SelectionSeparator {
    Ellipsis,
    ListItems,
}

/// What a triple-click selects.
#[derive(Debug, Clone, Copy, PartialEq, Eq, Structural)]
pub enum TripleClick {
    Meaning,
    MeaningWithExamples,
    Line,
}

/// How Reported frequencies become one Frequency rank.
#[derive(Debug, Clone, Copy, PartialEq, Eq, Structural)]
pub enum RankingStrategy {
    Priority,
    Median,
}

#[derive(Debug, PartialEq, Eq)]
pub struct TriggerConfig {
    pub mode: TriggerMode,
    pub trigger_key: String,
    pub trigger_key_linux: String,
    pub per_character_lookup: bool,
}

impl Clone for TriggerConfig {
    fn clone(&self) -> (r: Self)
        ensures
            r == *self,
    {
        TriggerConfig {
            mode: self.mode,
            trigger_key: self.trigger_key.clone(),
            trigger_key_linux: self.trigger_key_linux.clone(),
            per_character_lookup: self.per_character_lookup,
        }
    }
}

#[derive(Debug, PartialEq, Eq)]
pub struct PopupConfig {
    pub theme: String,
    pub font: String,
    pub max_width_percent: u8,
    pub max_height_percent: u8,
    pub summary_chars: usize,
    pub highlight_match: bool,
    pub scroll_popup: bool,
    pub edge_autoscroll: bool,
    pub side_panel: bool,
    pub layout_mode: LayoutMode,
    pub dictionary_styling: bool,
    pub show_examples: bool,
    pub show_attributions: bool,
    pub show_images: bool,
    pub show_part_of_speech: bool,
    pub exclude_from_capture: bool,
    pub layer: PopupLayer,
}

impl Clone for PopupConfig {
    fn clone(&self) -> (r: Self)
        ensures
            r == *self,
    {
        PopupConfig {
            theme: self.theme.clone(),
            font: self.font.clone(),
            max_width_percent: self.max_width_percent,
            max_height_percent: self.max_height_percent,
            summary_chars: self.summary_chars,
            highlight_match: self.highlight_match,
            scroll_popup: self.scroll_popup,
            edge_autoscroll: self.edge_autoscroll,
            side_panel: self.side_panel,
            layout_mode: self.layout_mode,
            dictionary_styling: self.dictionary_styling,
            show_examples: self.show_examples,
            show_attributions: self.show_attributions,
            show_images: self.show_images,
            show_part_of_speech: self.show_part_of_speech,
            exclude_from_capture: self.exclude_from_capture,
            layer: self.layer,
        }
    }
}

#[derive(Debug, PartialEq, Eq)]
pub struct OcrConfig {
    pub max_ocr_passes: u8,
    pub prefer_vertical: bool,
    pub capture_width: i32,
    pub capture_height: i32,
    pub scan_alphanumeric: bool,
    pub language: String,
    pub engine: String,
}

impl Clone for OcrConfig {
    fn clone(&self) -> (r: Self)
        ensures
            r == *self,
    {
        OcrConfig {
            max_ocr_passes: self.max_ocr_passes,
            prefer_vertical: self.prefer_vertical,
            capture_width: self.capture_width,
            capture_height: self.capture_height,
            scan_alphanumeric: self.scan_alphanumeric,
            language: self.language.clone(),
            engine: self.engine.clone(),
        }
    }
}

#[derive(Debug, Clone, Copy, PartialEq, Eq, Structural)]
pub struct DebugConfig {
    pub show_scan_region: bool,
    pub show_engine_log: bool,
    pub show_adapter_log: bool,
}

/// One row of the Anki field map.
#[derive(Debug, PartialEq, Eq)]
pub struct FieldMapping {
    pub anki_field: String,
    pub source: String,
}

impl Clone for FieldMapping {
    fn clone(&self) -> (r: Self)
        ensures
            r == *self,
    {
        FieldMapping { anki_field: self.anki_field.clone(), source: self.source.clone() }
    }
}

/// A copy of a field map.
pub fn copy_map(m: &Vec<FieldMapping>) -> (r: Vec<FieldMapping>)
    ensures
        r@ == m@,
{
    let mut r: Vec<FieldMapping> = Vec::new();
    let mut i: usize = 0;
    while i < m.len()
        invariant
            i <= m@.len(),
            r@ == m@.take(i as int),
        decreases m@.len() - i,
    {
        r.push(m[i].clone());
        i += 1;
    }
    assert(m@.take(i as int) =~= m@);
    r
}

#[derive(Debug, PartialEq, Eq)]
pub struct AnkiConfig {
    pub enabled: bool,
    pub url: String,
    pub deck: String,
    pub model: String,
    pub add_key: String,
    pub add_key_linux: String,
    pub field_map: Vec<FieldMapping>,
    pub notify_on_add: bool,
    pub sentence_mode: SentenceMode,
    pub static_region_key: String,
    pub static_region_key_linux: String,
    pub show_static_overlay: bool,
    pub first_dict_only: bool,
    pub selection_buttons: SelectionButtons,
    pub selection_separator: SelectionSeparator,
    pub triple_click: TripleClick,
}

impl AnkiConfig {
    /// Do two sections say the same?
    pub open spec fn same(self, other: AnkiConfig) -> bool {
        &&& self == AnkiConfig { field_map: self.field_map, ..other }
        &&& self.field_map@ == other.field_map@
    }
}

impl Clone for AnkiConfig {
    fn clone(&self) -> (r: Self)
        ensures
            r.same(*self),
    {
        AnkiConfig {
            enabled: self.enabled,
            url: self.url.clone(),
            deck: self.deck.clone(),
            model: self.model.clone(),
            add_key: self.add_key.clone(),
            add_key_linux: self.add_key_linux.clone(),
            field_map: copy_map(&self.field_map),
            notify_on_add: self.notify_on_add,
            sentence_mode: self.sentence_mode,
            static_region_key: self.static_region_key.clone(),
            static_region_key_linux: self.static_region_key_linux.clone(),
            show_static_overlay: self.show_static_overlay,
            first_dict_only: self.first_dict_only,
            selection_buttons: self.selection_buttons,
            selection_separator: self.selection_separator,
            triple_click: self.triple_click,
        }
    }
}

#[derive(Debug, PartialEq, Eq)]
pub struct ScreenshotConfig {
    pub hotkey: String,
    pub hotkey_linux: Option<String>,
    pub include_on_add: bool,
}

#[derive(Debug, PartialEq, Eq)]
pub struct OcrClipboardConfig {
    pub hotkey: Option<String>,
    pub hotkey_linux: Option<String>,
}

#[derive(Debug, PartialEq, Eq)]
pub struct ActionsConfig {
    pub screenshot: ScreenshotConfig,
    /// The action is off when this value is `None`.
    pub ocr_clipboard: Option<OcrClipboardConfig>,
}

/// A copy of an optional string, the very same one.
pub fn same_copy(s: &Option<String>) -> (r: Option<String>)
    ensures
        r == *s,
{
    match s {
        Some(t) => Some(t.clone()),
        None => None,
    }
}

impl Clone for ScreenshotConfig {
    fn clone(&self) -> (r: Self)
        ensures
            r == *self,
    {
        ScreenshotConfig {
            hotkey: self.hotkey.clone(),
            hotkey_linux: same_copy(&self.hotkey_linux),
            include_on_add: self.include_on_add,
        }
    }
}

impl Clone for OcrClipboardConfig {
    fn clone(&self) -> (r: Self)
        ensures
            r == *self,
    {
        OcrClipboardConfig {
            hotkey: same_copy(&self.hotkey),
            hotkey_linux: same_copy(&self.hotkey_linux),
        }
    }
}

impl Clone for ActionsConfig {
    fn clone(&self) -> (r: Self)
        ensures
            r == *self,
    {
        ActionsConfig {
            screenshot: self.screenshot.clone(),
            ocr_clipboard: match &self.ocr_clipboard {
                Some(c) => Some(c.clone()),
                None => None,
            },
        }
    }
}

#[derive(Debug, PartialEq, Eq)]
pub struct PluginsConfig {
    pub enabled: Vec<String>,
}

/// Lists of Dictionary names by language tag. No tag occurs twice.
#[derive(Debug)]
pub struct PerLanguage {
    lists: Vec<(String, Vec<String>)>,
}

spec fn tags_differ(s: Seq<(String, Vec<String>)>) -> bool {
    forall|i: int, j: int| 0 <= i < j < s.len() ==> (#[trigger] s[i]).0@ != (#[trigger] s[j]).0@
}

spec fn tagged(s: Seq<(String, Vec<String>)>, tag: Seq<char>) -> bool {
    exists|i: int| 0 <= i < s.len() && (#[trigger] s[i]).0@ == tag
}

spec fn tag_at(s: Seq<(String, Vec<String>)>, tag: Seq<char>) -> int {
    choose|i: int| 0 <= i < s.len() && (#[trigger] s[i]).0@ == tag
}

spec fn lists_v(s: Seq<(String, Vec<String>)>) -> Map<Seq<char>, Seq<Seq<char>>> {
    Map::new(|tag: Seq<char>| tagged(s, tag), |tag: Seq<char>| strs(s[tag_at(s, tag)].1@))
}

proof fn lists_at(s: Seq<(String, Vec<String>)>, i: int)
    requires
        tags_differ(s),
        0 <= i < s.len(),
    ensures
        lists_v(s).dom().contains(s[i].0@),
        lists_v(s)[s[i].0@] == strs(s[i].1@),
{
    let k = tag_at(s, s[i].0@);
    assert(tagged(s, s[i].0@));
    assert(0 <= k < s.len() && s[k].0@ == s[i].0@);
    if k < i {
        assert(s[k].0@ != s[i].0@);
    }
    if i < k {
        assert(s[i].0@ != s[k].0@);
    }
}

proof fn lists_pushed(s: Seq<(String, Vec<String>)>, e: (String, Vec<String>))
    requires
        tags_differ(s),
        !tagged(s, e.0@),
    ensures
        tags_differ(s.push(e)),
        lists_v(s.push(e)) == lists_v(s).insert(e.0@, strs(e.1@)),
{
    let r = s.push(e);
    assert forall|i: int, j: int| 0 <= i < j < r.len() implies (#[trigger] r[i]).0@ != (
    #[trigger] r[j]).0@ by {
        if j == s.len() {
            assert(s[i].0@ != e.0@);
        } else {
            assert(s[i].0@ != s[j].0@);
        }
    }
    let m = lists_v(s).insert(e.0@, strs(e.1@));
    assert forall|t: Seq<char>| lists_v(r).dom().contains(t) == m.dom().contains(t) by {
        if tagged(s, t) {
            let k = tag_at(s, t);
            assert(r[k].0@ == t);
        }
        if t == e.0@ {
            assert(r[s.len() as int].0@ == t);
        }
        if tagged(r, t) {
            let k = tag_at(r, t);
            if k < s.len() {
                assert(s[k].0@ == t);
            }
        }
    }
    assert forall|t: Seq<char>| lists_v(r).dom().contains(t) implies #[trigger] lists_v(r)[t] == m[t] by {
        let k = tag_at(r, t);
        assert(0 <= k < r.len() && r[k].0@ == t);
        if k < s.len() {
            assert(s[k].0@ == t);
            lists_at(s, k);
            lists_at(r, k);
        } else {
            lists_at(r, k);
        }
    }
    assert(lists_v(r) =~= m);
}

proof fn lists_set(s: Seq<(String, Vec<String>)>, i: int, e: (String, Vec<String>))
    requires
        tags_differ(s),
        0 <= i < s.len(),
        s[i].0@ == e.0@,
    ensures
        tags_differ(s.update(i, e)),
        lists_v(s.update(i, e)) == lists_v(s).insert(e.0@, strs(e.1@)),
{
    let r = s.update(i, e);
    assert forall|a: int, b: int| 0 <= a < b < r.len() implies (#[trigger] r[a]).0@ != (
    #[trigger] r[b]).0@ by {
        assert(s[a].0@ != s[b].0@);
    }
    let m = lists_v(s).insert(e.0@, strs(e.1@));
    assert forall|t: Seq<char>| lists_v(r).dom().contains(t) == m.dom().contains(t) by {
        if tagged(s, t) {
            let k = tag_at(s, t);
            assert(r[k].0@ == t);
        }
        if t == e.0@ {
            assert(r[i].0@ == t);
        }
        if tagged(r, t) {
            let k = tag_at(r, t);
            assert(s[k].0@ == t);
        }
    }
    assert forall|t: Seq<char>| lists_v(r).dom().contains(t) implies #[trigger] lists_v(r)[t] == m[t] by {
        let k = tag_at(r, t);
        assert(0 <= k < r.len() && r[k].0@ == t);
        lists_at(r, k);
        if k != i {
            lists_at(s, k);
            if t == e.0@ {
                lists_at(s, i);
                if k < i {
                    assert(s[k].0@ != s[i].0@);
                } else {
                    assert(s[i].0@ != s[k].0@);
                }
            }
        }
    }
    assert(lists_v(r) =~= m);
}

impl View for PerLanguage {
    type V = Map<Seq<char>, Seq<Seq<char>>>;

    closed spec fn view(&self) -> Map<Seq<char>, Seq<Seq<char>>> {
        lists_v(self.lists@)
    }
}

/// Two are equal that hold the same lists, in whatever order they were put in.
impl PartialEq for PerLanguage {
    fn eq(&self, other: &Self) -> (r: bool) {
        let r = self.held_by(other) && other.held_by(self);
        proof {
            if r {
                assert(self@ =~= other@);
            }
        }
        r
    }
}

impl Eq for PerLanguage {}

impl vstd::std_specs::cmp::PartialEqSpecImpl for PerLanguage {
    open spec fn obeys_eq_spec() -> bool {
        true
    }

    open spec fn eq_spec(&self, other: &Self) -> bool {
        self@ == other@
    }
}

/// The language lists without a name. A list that is then empty is left out.
pub open spec fn lists_without(
    m: Map<Seq<char>, Seq<Seq<char>>>,
    name: Seq<char>,
) -> Map<Seq<char>, Seq<Seq<char>>> {
    Map::new(
        |tag: Seq<char>| m.dom().contains(tag) && without(m[tag], name).len() > 0,
        |tag: Seq<char>| without(m[tag], name),
    )
}

/// A list without a name.
pub open spec fn without(list: Seq<Seq<char>>, name: Seq<char>) -> Seq<Seq<char>> {
    list.filter(|n: Seq<char>| n != name)
}

/// A list without a name.
pub fn drop_name(list: &Vec<String>, name: &str) -> (r: Vec<String>)
    ensures
        strs(r@) == without(strs(list@), name@),
{
    let ghost want = |n: Seq<char>| n != name@;
    let ghost all = strs(list@);
    let mut out: Vec<String> = Vec::new();
    assert(strs(out@) =~= all.take(0).filter(want)) by {
        reveal(Seq::filter);
    }
    let mut i: usize = 0;
    while i < list.len()
        invariant
            i <= list@.len(),
            all == strs(list@),
            want == (|n: Seq<char>| n != name@),
            strs(out@) == all.take(i as int).filter(want),
        decreases list@.len() - i,
    {
        proof {
            reveal(Seq::filter);
            assert(all.take(i + 1).drop_last() =~= all.take(i as int));
            assert(all.take(i + 1).last() == all[i as int]);
        }
        if !same_str(list[i].as_str(), name) {
            let ghost before = strs(out@);
            out.push(list[i].clone());
            assert(strs(out@) =~= before.push(all[i as int]));
        }
        i += 1;
    }
    assert(all.take(i as int) =~= all);
    out
}

impl PerLanguage {
    #[verifier::type_invariant]
    spec fn wf(self) -> bool {
        tags_differ(self.lists@)
    }

    pub fn new() -> (r: Self)
        ensures
            r@ == Map::<Seq<char>, Seq<Seq<char>>>::empty(),
    {
        let r = PerLanguage { lists: Vec::new() };
        assert(r@ =~= Map::empty());
        r
    }

    fn find(&self, tag: &str) -> (r: Option<usize>)
        ensures
            match r {
                Some(k) => k < self.lists@.len() && self.lists@[k as int].0@ == tag@ && tagged(
                    self.lists@,
                    tag@,
                ),
                None => !tagged(self.lists@, tag@),
            },
    {
        let mut i: usize = 0;
        while i < self.lists.len()
            invariant
                i <= self.lists@.len(),
                forall|j: int| 0 <= j < i ==> (#[trigger] self.lists@[j]).0@ != tag@,
            decreases self.lists@.len() - i,
        {
            if same_str(self.lists[i].0.as_str(), tag) {
                return Some(i);
            }
            i += 1;
        }
        None
    }

    pub fn contains_key(&self, tag: &str) -> (r: bool)
        ensures
            r == self@.dom().contains(tag@),
    {
        self.find(tag).is_some()
    }

    pub fn get(&self, tag: &str) -> (r: Option<&Vec<String>>)
        ensures
            match r {
                Some(l) => self@.dom().contains(tag@) && strs(l@) == self@[tag@],
                None => !self@.dom().contains(tag@),
            },
    {
        proof {
            use_type_invariant(self);
        }
        match self.find(tag) {
            Some(k) => {
                proof {
                    lists_at(self.lists@, k as int);
                }
                Some(&self.lists[k].1)
            },
            None => None,
        }
    }

    pub fn insert(&mut self, tag: String, list: Vec<String>)
        ensures
            final(self)@ == old(self)@.insert(tag@, strs(list@)),
    {
        proof {
            use_type_invariant(&*self);
        }
        let at = self.find(tag.as_str());
        let mut lists: Vec<(String, Vec<String>)> = Vec::new();
        std::mem::swap(&mut lists, &mut self.lists);
        let ghost before = lists@;
        let ghost e = (tag, list);
        match at {
            Some(k) => {
                let _old = lists.remove(k);
                lists.insert(k, (tag, list));
                assert(lists@ =~= before.update(k as int, e));
                proof {
                    lists_set(before, k as int, e);
                }
            },
            None => {
                lists.push((tag, list));
                proof {
                    lists_pushed(before, e);
                }
            },
        }
        self.lists = lists;
    }

    pub fn is_empty(&self) -> (r: bool)
        ensures
            r == (self@ == Map::<Seq<char>, Seq<Seq<char>>>::empty()),
    {
        proof {
            use_type_invariant(self);
            if self.lists@.len() > 0 {
                lists_at(self.lists@, 0);
            } else {
                assert(self@ =~= Map::empty());
            }
        }
        self.lists.len() == 0
    }

    /// Does another hold each of these lists?
    fn held_by(&self, other: &Self) -> (r: bool)
        ensures
            r == self@.submap_of(other@),
    {
        proof {
            use_type_invariant(self);
        }
        let ghost s = self.lists@;
        let mut i: usize = 0;
        while i < self.lists.len()
            invariant
                i <= s.len(),
                s == self.lists@,
                tags_differ(s),
                forall|j: int|
                    0 <= j < i ==> other@.dom().contains((#[trigger] s[j]).0@) && other@[s[j].0@]
                        == strs(s[j].1@),
            decreases s.len() - i,
        {
            proof {
                lists_at(s, i as int);
            }
            match other.get(self.lists[i].0.as_str()) {
                Some(l) => {
                    if !same_list(l, &self.lists[i].1) {
                        return false;
                    }
                },
                None => {
                    return false;
                },
            }
            i += 1;
        }
        proof {
            assert forall|t: Seq<char>| self@.dom().contains(t) implies other@.dom().contains(t)
                && #[trigger] self@[t] == other@[t] by {
                let k = tag_at(s, t);
                assert(s[k].0@ == t);
                lists_at(s, k);
            }
        }
        true
    }

    /// Takes a name out of every list, and then the empty lists.
    pub fn remove_name(&mut self, name: &str)
        ensures
            final(self)@ == lists_without(old(self)@, name@),
    {
        proof {
            use_type_invariant(&*self);
        }
        let mut kept: Vec<(String, Vec<String>)> = Vec::new();
        let ghost s = self.lists@;
        let mut i: usize = 0;
        while i < self.lists.len()
            invariant
                i <= self.lists@.len(),
                *self == *old(self),
                s == self.lists@,
                tags_differ(s),
                tags_differ(kept@),
                forall|k: int| 0 <= k < kept@.len() ==> came_from(s, #[trigger] kept@[k], name@, i as int),
                forall|j: int|
                    0 <= j < i && without(strs((#[trigger] s[j]).1@), name@).len() > 0 ==> tagged(
                        kept@,
                        s[j].0@,
                    ),
            decreases self.lists@.len() - i,
        {
            let list = drop_name(&self.lists[i].1, name);
            assert(strs(list@).len() == list@.len());
            if list.len() > 0 {
                let tag = self.lists[i].0.clone();
                let ghost before = kept@;
                let ghost e = (tag, list);
                proof {
                    if tagged(before, tag@) {
                        let k = tag_at(before, tag@);
                        assert(came_from(s, before[k], name@, i as int));
                        let j = choose|j: int|
                            0 <= j < i && (#[trigger] s[j]).0@ == before[k].0@ && strs(before[k].1@)
                                == without(strs(s[j].1@), name@);
                        assert(s[j].0@ != s[i as int].0@);
                    }
                    lists_pushed(before, e);
                }
                kept.push((tag, list));
                proof {
                    assert forall|k: int| 0 <= k < kept@.len() implies came_from(
                        s,
                        #[trigger] kept@[k],
                        name@,
                        i + 1,
                    ) by {
                        if k < before.len() {
                            assert(came_from(s, before[k], name@, i as int));
                        } else {
                            assert(s[i as int].0@ == kept@[k].0@);
                        }
                    }
                    assert forall|j: int|
                        0 <= j < i + 1 && without(strs((#[trigger] s[j]).1@), name@).len()
                            > 0 implies tagged(kept@, s[j].0@) by {
                        if j < i {
                            let k = tag_at(before, s[j].0@);
                            assert(kept@[k].0@ == s[j].0@);
                        } else {
                            assert(kept@[before.len() as int].0@ == s[j].0@);
                        }
                    }
                }
            }
            i += 1;
        }
        self.lists = kept;
        proof {
            let m = lists_without(lists_v(s), name@);
            let r = lists_v(self.lists@);
            assert forall|t: Seq<char>| r.dom().contains(t) == m.dom().contains(t) by {
                if tagged(self.lists@, t) {
                    let k = tag_at(self.lists@, t);
                    assert(came_from(s, self.lists@[k], name@, s.len() as int));
                    let j = choose|j: int|
                        0 <= j < s.len() && (#[trigger] s[j]).0@ == self.lists@[k].0@ && strs(
                            self.lists@[k].1@,
                        ) == without(strs(s[j].1@), name@);
                    lists_at(s, j);
                }
                if m.dom().contains(t) {
                    let j = tag_at(s, t);
                    lists_at(s, j);
                }
            }
            assert forall|t: Seq<char>| r.dom().contains(t) implies #[trigger] r[t] == m[t] by {
                let k = tag_at(self.lists@, t);
                assert(came_from(s, self.lists@[k], name@, s.len() as int));
                let j = choose|j: int|
                    0 <= j < s.len() && (#[trigger] s[j]).0@ == self.lists@[k].0@ && strs(
                        self.lists@[k].1@,
                    ) == without(strs(s[j].1@), name@);
                lists_at(s, j);
                lists_at(self.lists@, k);
            }
            assert(r =~= m);
        }
    }
}

/// Does a kept list come from one of the first `n` lists?
spec fn came_from(
    s: Seq<(String, Vec<String>)>,
    kept: (String, Vec<String>),
    name: Seq<char>,
    n: int,
) -> bool {
    strs(kept.1@).len() > 0 && exists|j: int|
        0 <= j < n && (#[trigger] s[j]).0@ == kept.0@ && strs(kept.1@) == without(strs(s[j].1@), name)
}

impl Clone for PerLanguage {
    fn clone(&self) -> (r: Self)
        ensures
            r@ == self@,
    {
        proof {
            use_type_invariant(self);
        }
        let mut lists: Vec<(String, Vec<String>)> = Vec::new();
        let mut i: usize = 0;
        while i < self.lists.len()
            invariant
                i <= self.lists@.len(),
                lists@.len() == i,
                forall|j: int|
                    0 <= j < i ==> (#[trigger] lists@[j]).0 == self.lists@[j].0 && strs(lists@[j].1@)
                        == strs(self.lists@[j].1@),
            decreases self.lists@.len() - i,
        {
            lists.push((self.lists[i].0.clone(), copy_list(&self.lists[i].1)));
            i += 1;
        }
        let ghost s = self.lists@;
        proof {
            assert forall|a: int, b: int| 0 <= a < b < lists@.len() implies (#[trigger] lists@[a]).0@
                != (#[trigger] lists@[b]).0@ by {
                assert(s[a].0@ != s[b].0@);
            }
            assert forall|t: Seq<char>| tagged(lists@, t) == tagged(s, t) by {
                if tagged(s, t) {
                    assert(lists@[tag_at(s, t)].0@ == t);
                }
                if tagged(lists@, t) {
                    assert(s[tag_at(lists@, t)].0@ == t);
                }
            }
            assert forall|t: Seq<char>| tagged(s, t) implies #[trigger] lists_v(lists@)[t]
                == lists_v(s)[t] by {
                let k = tag_at(s, t);
                lists_at(s, k);
                lists_at(lists@, k);
            }
            assert(lists_v(lists@) =~= lists_v(s));
        }
        PerLanguage { lists }
    }
}

#[derive(Debug, PartialEq, Eq)]
pub struct DictionariesConfig {
    pub terms: Vec<String>,
    pub terms_disabled: Vec<String>,
    pub frequency: Vec<String>,
    pub frequency_disabled: Vec<String>,
    pub pitch: Vec<String>,
    pub pitch_disabled: Vec<String>,
    pub ranking_strategy: RankingStrategy,
    /// Parts of Dictionary names, in priority order. A configuration written
    /// before the role lists has this and no role list.
    pub display_order: Vec<String>,
    pub per_language: PerLanguage,
}

/// What the section holds.
#[verifier::ext_equal]
pub struct DictionariesV {
    pub terms: Seq<Seq<char>>,
    pub terms_disabled: Seq<Seq<char>>,
    pub frequency: Seq<Seq<char>>,
    pub frequency_disabled: Seq<Seq<char>>,
    pub pitch: Seq<Seq<char>>,
    pub pitch_disabled: Seq<Seq<char>>,
    pub ranking_strategy: RankingStrategy,
    pub display_order: Seq<Seq<char>>,
    pub per_language: Map<Seq<char>, Seq<Seq<char>>>,
}

impl DictionariesV {
    /// The enabled names of a role.
    pub open spec fn on(self, role: Role) -> Seq<Seq<char>> {
        match role {
            Role::Terms => self.terms,
            Role::Frequency => self.frequency,
            Role::Pitch => self.pitch,
        }
    }

    /// The disabled names of a role.
    pub open spec fn off(self, role: Role) -> Seq<Seq<char>> {
        match role {
            Role::Terms => self.terms_disabled,
            Role::Frequency => self.frequency_disabled,
            Role::Pitch => self.pitch_disabled,
        }
    }

    /// The section with the two lists of a role replaced.
    pub open spec fn with_lists(self, role: Role, on: Seq<Seq<char>>, off: Seq<Seq<char>>) -> DictionariesV {
        match role {
            Role::Terms => DictionariesV { terms: on, terms_disabled: off, ..self },
            Role::Frequency => DictionariesV { frequency: on, frequency_disabled: off, ..self },
            Role::Pitch => DictionariesV { pitch: on, pitch_disabled: off, ..self },
        }
    }

    /// Was the section written before the role lists?
    pub open spec fn pre_roles(self) -> bool {
        &&& self.terms.len() == 0
        &&& self.terms_disabled.len() == 0
        &&& self.frequency.len() == 0
        &&& self.frequency_disabled.len() == 0
        &&& self.pitch.len() == 0
        &&& self.pitch_disabled.len() == 0
        &&& self.display_order.len() > 0
    }

    /// The names of a role, each with whether it is enabled: the enabled
    /// ones first. Parts of names become the installed names.
    pub open spec fn rows(self, role: Role, dicts: Seq<InfoV>) -> Seq<(Seq<char>, bool)> {
        if self.pre_roles() {
            if role == Role::Terms {
                flagged(resolved(self.display_order, dicts), true)
            } else {
                seq![]
            }
        } else {
            flagged(self.on(role), true) + flagged(self.off(role), false)
        }
    }

    /// The names that a language searches, where it has a list that names
    /// any.
    pub open spec fn scope(self, language: Seq<char>, dicts: Seq<InfoV>) -> Option<Seq<Seq<char>>> {
        if !self.per_language.dom().contains(language) {
            None
        } else {
            let list = self.per_language[language];
            let names = if self.pre_roles() {
                resolved(list, dicts)
            } else {
                list
            };
            if names.len() == 0 {
                None
            } else {
                Some(names)
            }
        }
    }
}

/// Each name of a list with one flag.
pub open spec fn flagged(names: Seq<Seq<char>>, flag: bool) -> Seq<(Seq<char>, bool)> {
    names.map_values(|n: Seq<char>| (n, flag))
}

/// The names that the first `n` installed Dictionaries add to a list for one
/// part of a name.
pub open spec fn matching(part: Seq<char>, dicts: Seq<InfoV>, n: int, found: Seq<Seq<char>>) -> Seq<Seq<char>>
    decreases n,
{
    if n <= 0 {
        found
    } else {
        let before = matching(part, dicts, n - 1, found);
        let name = dicts[n - 1].name;
        if within(name, part) && !before.contains(name) {
            before.push(name)
        } else {
            before
        }
    }
}

/// The installed names that hold one of the parts, each once, in the order
/// of the parts.
pub open spec fn resolved(parts: Seq<Seq<char>>, dicts: Seq<InfoV>) -> Seq<Seq<char>>
    decreases parts.len(),
{
    if parts.len() == 0 {
        seq![]
    } else {
        matching(
            parts.last(),
            dicts,
            dicts.len() as int,
            resolved(parts.drop_last(), dicts),
        )
    }
}

fn resolve(parts: &Vec<String>, dicts: &[DictInfo]) -> (r: Vec<String>)
    ensures
        strs(r@) == resolved(strs(parts@), infos_v(dicts@)),
{
    let ghost ps = strs(parts@);
    let ghost ds = infos_v(dicts@);
    let mut out: Vec<String> = Vec::new();
    assert(strs(out@) =~= resolved(ps.take(0), ds));
    let mut i: usize = 0;
    while i < parts.len()
        invariant
            i <= parts@.len(),
            ps == strs(parts@),
            ds == infos_v(dicts@),
            strs(out@) == resolved(ps.take(i as int), ds),
        decreases parts@.len() - i,
    {
        let part = chars_of(parts[i].as_str());
        let ghost found = strs(out@);
        let mut k: usize = 0;
        while k < dicts.len()
            invariant
                k <= dicts@.len(),
                ds == infos_v(dicts@),
                strs(out@) == matching(part@, ds, k as int, found),
            decreases dicts@.len() - k,
        {
            let name = chars_of(dicts[k].name.as_str());
            assert(ds[k as int].name == name@);
            if has_part(name.as_slice(), part.as_slice()) && !list_has(
                out.as_slice(),
                dicts[k].name.as_str(),
            ) {
                let ghost before = strs(out@);
                out.push(dicts[k].name.clone());
                assert(strs(out@) =~= before.push(name@));
            }
            k += 1;
        }
        assert(ps.take(i + 1).drop_last() =~= ps.take(i as int));
        assert(ps.take(i + 1).last() == part@);
        i += 1;
    }
    assert(ps.take(i as int) =~= ps);
    out
}

pub open spec fn rows_v(s: Seq<(String, bool)>) -> Seq<(Seq<char>, bool)> {
    s.map_values(|p: (String, bool)| (p.0@, p.1))
}

fn push_rows(out: &mut Vec<(String, bool)>, names: &Vec<String>, flag: bool)
    ensures
        rows_v(final(out)@) == rows_v(old(out)@) + flagged(strs(names@), flag),
{
    let ghost base = rows_v(out@);
    let ghost add = flagged(strs(names@), flag);
    let mut i: usize = 0;
    assert(base + add.take(0) =~= base);
    while i < names.len()
        invariant
            i <= names@.len(),
            base == rows_v(old(out)@),
            add == flagged(strs(names@), flag),
            rows_v(out@) == base + add.take(i as int),
        decreases names@.len() - i,
    {
        let ghost before = rows_v(out@);
        out.push((names[i].clone(), flag));
        assert(rows_v(out@) =~= before.push(add[i as int]));
        assert(base + add.take(i + 1) =~= (base + add.take(i as int)).push(add[i as int]));
        i += 1;
    }
    assert(add.take(i as int) =~= add);
}

impl DictionariesConfig {
    pub open spec fn v(self) -> DictionariesV {
        DictionariesV {
            terms: strs(self.terms@),
            terms_disabled: strs(self.terms_disabled@),
            frequency: strs(self.frequency@),
            frequency_disabled: strs(self.frequency_disabled@),
            pitch: strs(self.pitch@),
            pitch_disabled: strs(self.pitch_disabled@),
            ranking_strategy: self.ranking_strategy,
            display_order: strs(self.display_order@),
            per_language: self.per_language@,
        }
    }

    /// The enabled and the disabled names of a role.
    pub fn lists(&self, role: Role) -> (r: (&Vec<String>, &Vec<String>))
        ensures
            strs(r.0@) == self.v().on(role),
            strs(r.1@) == self.v().off(role),
    {
        match role {
            Role::Terms => (&self.terms, &self.terms_disabled),
            Role::Frequency => (&self.frequency, &self.frequency_disabled),
            Role::Pitch => (&self.pitch, &self.pitch_disabled),
        }
    }

    /// Replaces the two lists of a role.
    pub fn set_lists(&mut self, role: Role, on: Vec<String>, off: Vec<String>)
        ensures
            final(self).v() == old(self).v().with_lists(role, strs(on@), strs(off@)),
    {
        match role {
            Role::Terms => {
                self.terms = on;
                self.terms_disabled = off;
            },
            Role::Frequency => {
                self.frequency = on;
                self.frequency_disabled = off;
            },
            Role::Pitch => {
                self.pitch = on;
                self.pitch_disabled = off;
            },
        }
    }

    fn is_pre_roles(&self) -> (r: bool)
        ensures
            r == self.v().pre_roles(),
    {
        self.terms.len() == 0 && self.terms_disabled.len() == 0 && self.frequency.len() == 0
            && self.frequency_disabled.len() == 0 && self.pitch.len() == 0
            && self.pitch_disabled.len() == 0 && self.display_order.len() > 0
    }

    /// The names of a role, each with whether it is enabled.
    pub fn listed(&self, role: Role, dicts: &[DictInfo]) -> (r: Vec<(String, bool)>)
        ensures
            rows_v(r@) == self.v().rows(role, infos_v(dicts@)),
    {
        let mut out: Vec<(String, bool)> = Vec::new();
        assert(rows_v(out@) =~= seq![]);
        if self.is_pre_roles() {
            if role == Role::Terms {
                let names = resolve(&self.display_order, dicts);
                push_rows(&mut out, &names, true);
                assert(rows_v(out@) =~= flagged(strs(names@), true));
            }
        } else {
            let (on, off) = self.lists(role);
            push_rows(&mut out, on, true);
            push_rows(&mut out, off, false);
            assert(rows_v(out@) =~= flagged(strs(on@), true) + flagged(strs(off@), false));
        }
        out
    }

    /// The names that a language searches, in priority order. A list that
    /// names nothing is no list.
    pub fn language_scope(&self, language: &str, dicts: &[DictInfo]) -> (r: Option<Vec<String>>)
        ensures
            self.v().scope(language@, infos_v(dicts@)) == (match r {
                Some(l) => Some(strs(l@)),
                None => None,
            }),
    {
        match self.per_language.get(language) {
            None => None,
            Some(list) => {
                let names = if self.is_pre_roles() {
                    resolve(list, dicts)
                } else {
                    copy_list(list)
                };
                assert(strs(names@).len() == names@.len());
                if names.len() == 0 {
                    None
                } else {
                    Some(names)
                }
            },
        }
    }
}

impl Clone for DictionariesConfig {
    fn clone(&self) -> (r: Self)
        ensures
            r.v() == self.v(),
    {
        DictionariesConfig {
            terms: copy_list(&self.terms),
            terms_disabled: copy_list(&self.terms_disabled),
            frequency: copy_list(&self.frequency),
            frequency_disabled: copy_list(&self.frequency_disabled),
            pitch: copy_list(&self.pitch),
            pitch_disabled: copy_list(&self.pitch_disabled),
            ranking_strategy: self.ranking_strategy,
            display_order: copy_list(&self.display_order),
            per_language: self.per_language.clone(),
        }
    }
}

#[derive(Debug, PartialEq, Eq)]
pub struct Config {
    pub trigger: TriggerConfig,
    pub popup: PopupConfig,
    pub ocr: OcrConfig,
    pub debug: DebugConfig,
    pub anki: AnkiConfig,
    pub actions: ActionsConfig,
    pub dictionaries: DictionariesConfig,
    pub plugins: PluginsConfig,
}

impl Config {
    /// Do two configurations say the same?
    pub open spec fn same(self, other: Config) -> bool {
        &&& self.trigger == other.trigger
        &&& self.popup == other.popup
        &&& self.ocr == other.ocr
        &&& self.debug == other.debug
        &&& self.anki.same(other.anki)
        &&& self.actions == other.actions
        &&& self.dictionaries.v() == other.dictionaries.v()
        &&& self.plugins.enabled@ == other.plugins.enabled@
    }

    /// What the popup reads of the configuration: the enabled names of the
    /// terms list and the installed names that no list has, or those of the
    /// active language's list where it has one, and the enabled names of the
    /// pitch list.
    pub open spec fn presents(self, dicts: Seq<InfoV>) -> PresentV {
        PresentV {
            terms: match self.dictionaries.v().scope(self.ocr.language@, dicts) {
                Some(names) => names,
                None => enabled(
                    with_installed(
                        self.dictionaries.v().rows(Role::Terms, dicts),
                        self.dictionaries.v().rows(Role::Frequency, dicts),
                        self.dictionaries.v().rows(Role::Pitch, dicts),
                        dicts,
                        dicts.len() as int,
                    ),
                ),
            },
            pitch: enabled(self.dictionaries.v().rows(Role::Pitch, dicts)),
            summary_chars: self.popup.summary_chars,
        }
    }

    pub fn present_config(&self, dicts: &[DictInfo]) -> (r: PresentConfig)
        ensures
            r.v() == self.presents(infos_v(dicts@)),
    {
        let terms = match self.dictionaries.language_scope(self.ocr.language.as_str(), dicts) {
            Some(names) => names,
            None => {
                let frequency = self.dictionaries.listed(Role::Frequency, dicts);
                let pitch = self.dictionaries.listed(Role::Pitch, dicts);
                let mut rows = self.dictionaries.listed(Role::Terms, dicts);
                add_installed(&mut rows, &frequency, &pitch, dicts);
                enabled_of(&rows)
            },
        };
        let pitch = enabled_of(&self.dictionaries.listed(Role::Pitch, dicts));
        PresentConfig { terms, pitch, summary_chars: self.popup.summary_chars }
    }
}

/// Does a list have a row with a name?
pub open spec fn named(rows: Seq<(Seq<char>, bool)>, name: Seq<char>) -> bool {
    exists|i: int| 0 <= i < rows.len() && (#[trigger] rows[i]).0 == name
}

/// The terms rows with the first `n` installed Dictionaries that no list
/// names, each enabled and last.
pub open spec fn with_installed(
    terms: Seq<(Seq<char>, bool)>,
    frequency: Seq<(Seq<char>, bool)>,
    pitch: Seq<(Seq<char>, bool)>,
    dicts: Seq<InfoV>,
    n: int,
) -> Seq<(Seq<char>, bool)>
    decreases n,
{
    if n <= 0 {
        terms
    } else {
        let before = with_installed(terms, frequency, pitch, dicts, n - 1);
        let name = dicts[n - 1].name;
        if named(before, name) || named(frequency, name) || named(pitch, name) {
            before
        } else {
            before.push((name, true))
        }
    }
}

/// The names whose flag is set.
pub open spec fn enabled(rows: Seq<(Seq<char>, bool)>) -> Seq<Seq<char>>
    decreases rows.len(),
{
    if rows.len() == 0 {
        seq![]
    } else if rows.last().1 {
        enabled(rows.drop_last()).push(rows.last().0)
    } else {
        enabled(rows.drop_last())
    }
}

fn has_name(rows: &Vec<(String, bool)>, name: &str) -> (r: bool)
    ensures
        r == named(rows_v(rows@), name@),
{
    let mut i: usize = 0;
    while i < rows.len()
        invariant
            i <= rows@.len(),
            forall|j: int| 0 <= j < i ==> (#[trigger] rows_v(rows@)[j]).0 != name@,
        decreases rows@.len() - i,
    {
        if same_str(rows[i].0.as_str(), name) {
            assert(rows_v(rows@)[i as int].0 == name@);
            return true;
        }
        i += 1;
    }
    false
}

fn add_installed(
    rows: &mut Vec<(String, bool)>,
    frequency: &Vec<(String, bool)>,
    pitch: &Vec<(String, bool)>,
    dicts: &[DictInfo],
)
    ensures
        rows_v(final(rows)@) == with_installed(
            rows_v(old(rows)@),
            rows_v(frequency@),
            rows_v(pitch@),
            infos_v(dicts@),
            dicts@.len() as int,
        ),
{
    let ghost base = rows_v(rows@);
    let ghost ds = infos_v(dicts@);
    let mut i: usize = 0;
    while i < dicts.len()
        invariant
            i <= dicts@.len(),
            ds == infos_v(dicts@),
            base == rows_v(old(rows)@),
            rows_v(rows@) == with_installed(
                base,
                rows_v(frequency@),
                rows_v(pitch@),
                ds,
                i as int,
            ),
        decreases dicts@.len() - i,
    {
        let name = dicts[i].name.as_str();
        assert(ds[i as int].name == name@);
        if !has_name(rows, name) && !has_name(frequency, name) && !has_name(pitch, name) {
            let ghost before = rows_v(rows@);
            rows.push((dicts[i].name.clone(), true));
            assert(rows_v(rows@) =~= before.push((name@, true)));
        }
        i += 1;
    }
}

fn enabled_of(rows: &Vec<(String, bool)>) -> (r: Vec<String>)
    ensures
        strs(r@) == enabled(rows_v(rows@)),
{
    let ghost all = rows_v(rows@);
    let mut out: Vec<String> = Vec::new();
    assert(strs(out@) =~= enabled(all.take(0)));
    let mut i: usize = 0;
    while i < rows.len()
        invariant
            i <= rows@.len(),
            all == rows_v(rows@),
            strs(out@) == enabled(all.take(i as int)),
        decreases rows@.len() - i,
    {
        assert(all.take(i + 1).drop_last() =~= all.take(i as int));
        assert(all.take(i + 1).last() == all[i as int]);
        if rows[i].1 {
            let ghost before = strs(out@);
            out.push(rows[i].0.clone());
            assert(strs(out@) =~= before.push(all[i as int].0));
        }
        i += 1;
    }
    assert(all.take(i as int) =~= all);
    out
}

impl Clone for Config {
    fn clone(&self) -> (r: Self)
        ensures
            r.same(*self),
    {
        Config {
            trigger: self.trigger.clone(),
            popup: self.popup.clone(),
            ocr: self.ocr.clone(),
            debug: self.debug,
            anki: self.anki.clone(),
            actions: self.actions.clone(),
            dictionaries: self.dictionaries.clone(),
            plugins: PluginsConfig { enabled: copy_list(&self.plugins.enabled) },
        }
    }
}

impl Default for Config {
    fn default() -> (r: Self)
        ensures
            r.trigger.mode == TriggerMode::Live,
            !r.trigger.per_character_lookup,
            r.ocr.language@ == "ja"@,
            r.ocr.engine@ == "builtin"@,
            r.anki.sentence_mode == SentenceMode::Line,
            !r.anki.first_dict_only,
            !r.actions.screenshot.include_on_add,
            r.actions.ocr_clipboard is None,
            r.dictionaries.v() == (DictionariesV {
                terms: seq![],
                terms_disabled: seq![],
                frequency: seq![],
                frequency_disabled: seq![],
                pitch: seq![],
                pitch_disabled: seq![],
                ranking_strategy: RankingStrategy::Priority,
                display_order: seq![],
                per_language: Map::empty(),
            }),
            r.plugins.enabled@.len() == 0,
            r.in_range(),
    {
        let none: Vec<String> = Vec::new();
        assert(strs(none@) =~= seq![]);
        Config {
            trigger: TriggerConfig {
                mode: TriggerMode::Live,
                trigger_key: "shift".to_owned(),
                trigger_key_linux: "".to_owned(),
                per_character_lookup: false,
            },
            popup: PopupConfig {
                theme: "dark".to_owned(),
                font: "".to_owned(),
                max_width_percent: 30,
                max_height_percent: 50,
                summary_chars: 40,
                highlight_match: true,
                scroll_popup: true,
                edge_autoscroll: true,
                side_panel: false,
                layout_mode: LayoutMode::Full,
                dictionary_styling: true,
                show_examples: true,
                show_attributions: true,
                show_images: true,
                show_part_of_speech: false,
                exclude_from_capture: false,
                layer: PopupLayer::Overlay,
            },
            ocr: OcrConfig {
                max_ocr_passes: 2,
                prefer_vertical: false,
                capture_width: 500,
                capture_height: 220,
                scan_alphanumeric: true,
                language: "ja".to_owned(),
                engine: "builtin".to_owned(),
            },
            debug: DebugConfig {
                show_scan_region: false,
                show_engine_log: false,
                show_adapter_log: false,
            },
            anki: AnkiConfig {
                enabled: false,
                url: "http://localhost:8765".to_owned(),
                deck: "".to_owned(),
                model: "".to_owned(),
                add_key: "".to_owned(),
                add_key_linux: "".to_owned(),
                field_map: Vec::new(),
                notify_on_add: true,
                sentence_mode: SentenceMode::Line,
                static_region_key: "".to_owned(),
                static_region_key_linux: "".to_owned(),
                show_static_overlay: false,
                first_dict_only: false,
                selection_buttons: SelectionButtons::PrimaryAdding,
                selection_separator: SelectionSeparator::Ellipsis,
                triple_click: TripleClick::Meaning,
            },
            actions: ActionsConfig {
                screenshot: ScreenshotConfig {
                    hotkey: "".to_owned(),
                    hotkey_linux: None,
                    include_on_add: false,
                },
                ocr_clipboard: None,
            },
            dictionaries: DictionariesConfig {
                terms: none,
                terms_disabled: Vec::new(),
                frequency: Vec::new(),
                frequency_disabled: Vec::new(),
                pitch: Vec::new(),
                pitch_disabled: Vec::new(),
                ranking_strategy: RankingStrategy::Priority,
                display_order: Vec::new(),
                per_language: PerLanguage::new(),
            },
            plugins: PluginsConfig { enabled: Vec::new() },
        }
    }
}

impl Config {
    /// Does every number stand in its range?
    pub open spec fn in_range(self) -> bool {
        &&& MAX_WIDTH_RANGE.0 <= self.popup.max_width_percent <= MAX_WIDTH_RANGE.1
        &&& MAX_HEIGHT_RANGE.0 <= self.popup.max_height_percent <= MAX_HEIGHT_RANGE.1
        &&& SUMMARY_RANGE.0 <= self.popup.summary_chars <= SUMMARY_RANGE.1
        &&& PASSES_RANGE.0 <= self.ocr.max_ocr_passes <= PASSES_RANGE.1
        &&& CAPTURE_W_RANGE.0 <= self.ocr.capture_width <= CAPTURE_W_RANGE.1
        &&& CAPTURE_H_RANGE.0 <= self.ocr.capture_height <= CAPTURE_H_RANGE.1
    }
}

/// A role's list is its enabled names, each checked, and then its disabled
/// ones, each unchecked, each list in its order and each role from its own.
pub proof fn a_role_lists_its_own_names(d: DictionariesV, dicts: Seq<InfoV>, i: int)
    requires
        !d.pre_roles(),
        0 <= i,
    ensures
        d.rows(Role::Terms, dicts).len() == d.terms.len() + d.terms_disabled.len(),
        d.rows(Role::Frequency, dicts).len() == d.frequency.len() + d.frequency_disabled.len(),
        d.rows(Role::Pitch, dicts).len() == d.pitch.len() + d.pitch_disabled.len(),
        i < d.terms.len() ==> d.rows(Role::Terms, dicts)[i] == (d.terms[i], true),
        i < d.terms_disabled.len() ==> d.rows(Role::Terms, dicts)[d.terms.len() + i] == (
            d.terms_disabled[i],
            false,
        ),
        i < d.frequency.len() ==> d.rows(Role::Frequency, dicts)[i] == (d.frequency[i], true),
        i < d.frequency_disabled.len() ==> d.rows(Role::Frequency, dicts)[d.frequency.len() + i] == (
            d.frequency_disabled[i],
            false,
        ),
        i < d.pitch.len() ==> d.rows(Role::Pitch, dicts)[i] == (d.pitch[i], true),
        i < d.pitch_disabled.len() ==> d.rows(Role::Pitch, dicts)[d.pitch.len() + i] == (
            d.pitch_disabled[i],
            false,
        ),
{
}

/// The names that are searched are those whose row is checked.
pub proof fn a_checked_name_is_enabled(rows: Seq<(Seq<char>, bool)>, name: Seq<char>)
    ensures
        enabled(rows).contains(name) <==> exists|i: int|
            0 <= i < rows.len() && #[trigger] rows[i] == (name, true),
        enabled(rows).len() <= rows.len(),
    decreases rows.len(),
{
    if rows.len() > 0 {
        let front = rows.drop_last();
        let n = rows.len() - 1;
        a_checked_name_is_enabled(front, name);
        let before = enabled(front);
        let all = enabled(rows);
        if all.contains(name) {
            let j = choose|j: int| 0 <= j < all.len() && all[j] == name;
            if j < before.len() {
                assert(before[j] == name);
                let i = choose|i: int| 0 <= i < front.len() && #[trigger] front[i] == (name, true);
                assert(rows[i] == (name, true));
            } else {
                assert(rows[n] == (name, true));
            }
        }
        if exists|i: int| 0 <= i < rows.len() && #[trigger] rows[i] == (name, true) {
            let i = choose|i: int| 0 <= i < rows.len() && #[trigger] rows[i] == (name, true);
            if i < n {
                assert(front[i] == (name, true));
                let j = choose|j: int| 0 <= j < before.len() && before[j] == name;
                assert(all[j] == name);
            } else {
                assert(all[before.len() as int] == name);
            }
        }
    }
}

/// Checked rows stand in the order of the list.
pub proof fn enabled_names_keep_their_order(a: Seq<(Seq<char>, bool)>, b: Seq<(Seq<char>, bool)>)
    ensures
        enabled(a + b) == enabled(a) + enabled(b),
    decreases b.len(),
{
    if b.len() == 0 {
        assert(a + b =~= a);
        assert(enabled(a) + seq![] =~= enabled(a));
    } else {
        assert((a + b).drop_last() =~= a + b.drop_last());
        enabled_names_keep_their_order(a, b.drop_last());
        assert(enabled(a + b) =~= enabled(a) + enabled(b));
    }
}

proof fn matching_finds(
    part: Seq<char>,
    dicts: Seq<InfoV>,
    n: int,
    found: Seq<Seq<char>>,
    name: Seq<char>,
)
    requires
        0 <= n <= dicts.len(),
        found.no_duplicates(),
    ensures
        matching(part, dicts, n, found).no_duplicates(),
        matching(part, dicts, n, found).contains(name) <==> found.contains(name) || exists|i: int|
            0 <= i < n && (#[trigger] dicts[i]).name == name && within(name, part),
    decreases n,
{
    if n > 0 {
        matching_finds(part, dicts, n - 1, found, name);
        let before = matching(part, dicts, n - 1, found);
        let all = matching(part, dicts, n, found);
        if all.contains(name) {
            let j = choose|j: int| 0 <= j < all.len() && all[j] == name;
            if j < before.len() {
                assert(before[j] == name);
            } else {
                assert(dicts[n - 1].name == name);
            }
        }
        if before.contains(name) {
            let j = choose|j: int| 0 <= j < before.len() && before[j] == name;
            assert(all[j] == name);
        }
        if dicts[n - 1].name == name && within(name, part) && !before.contains(name) {
            assert(all[before.len() as int] == name);
        }
    }
}

/// Parts of names stand for the installed Dictionaries whose name holds one of
/// them, each once.
pub proof fn parts_stand_for_installed_names(
    parts: Seq<Seq<char>>,
    dicts: Seq<InfoV>,
    name: Seq<char>,
)
    ensures
        resolved(parts, dicts).no_duplicates(),
        resolved(parts, dicts).contains(name) <==> exists|p: int, i: int|
            0 <= p < parts.len() && 0 <= i < dicts.len() && (#[trigger] dicts[i]).name == name
                && within(name, #[trigger] parts[p]),
    decreases parts.len(),
{
    if parts.len() > 0 {
        let front = parts.drop_last();
        let n = parts.len() - 1;
        parts_stand_for_installed_names(front, dicts, name);
        matching_finds(parts.last(), dicts, dicts.len() as int, resolved(front, dicts), name);
        assert(parts[n] == parts.last());
        if resolved(front, dicts).contains(name) {
            let (p, i) = choose|p: int, i: int|
                0 <= p < front.len() && 0 <= i < dicts.len() && (#[trigger] dicts[i]).name == name
                    && within(name, #[trigger] front[p]);
            assert(parts[p] == front[p]);
        }
        if exists|p: int, i: int|
            0 <= p < parts.len() && 0 <= i < dicts.len() && (#[trigger] dicts[i]).name == name && within(
                name,
                #[trigger] parts[p],
            ) {
            let (p, i) = choose|p: int, i: int|
                0 <= p < parts.len() && 0 <= i < dicts.len() && (#[trigger] dicts[i]).name == name
                    && within(name, #[trigger] parts[p]);
            if p < n {
                assert(front[p] == parts[p]);
            }
        }
    }
}

/// A Dictionary that is installed and that no list names is searched, last; one
/// that a list names is not added, and no row changes.
pub proof fn an_unlisted_dictionary_is_searched(
    terms: Seq<(Seq<char>, bool)>,
    frequency: Seq<(Seq<char>, bool)>,
    pitch: Seq<(Seq<char>, bool)>,
    dicts: Seq<InfoV>,
    n: int,
    name: Seq<char>,
)
    requires
        0 <= n <= dicts.len(),
    ensures
        ({
            let all = with_installed(terms, frequency, pitch, dicts, n);
            &&& terms.len() <= all.len()
            &&& forall|i: int| 0 <= i < terms.len() ==> #[trigger] all[i] == terms[i]
            &&& forall|i: int| terms.len() <= i < all.len() ==> (#[trigger] all[i]).1
            &&& !named(terms, name) && !named(frequency, name) && !named(pitch, name) ==> (named(
                all,
                name,
            ) <==> exists|k: int| 0 <= k < n && (#[trigger] dicts[k]).name == name)
            &&& named(terms, name) || named(frequency, name) || named(pitch, name) ==> (named(
                all,
                name,
            ) <==> named(terms, name))
        }),
    decreases n,
{
    if n > 0 {
        an_unlisted_dictionary_is_searched(terms, frequency, pitch, dicts, n - 1, name);
        let before = with_installed(terms, frequency, pitch, dicts, n - 1);
        let all = with_installed(terms, frequency, pitch, dicts, n);
        assert forall|i: int| 0 <= i < terms.len() implies #[trigger] all[i] == terms[i] by {
            assert(before[i] == terms[i]);
        }
        assert forall|i: int| terms.len() <= i < all.len() implies (#[trigger] all[i]).1 by {
            if i < before.len() {
                assert(before[i].1);
            }
        }
        if named(all, name) {
            let i = choose|i: int| 0 <= i < all.len() && (#[trigger] all[i]).0 == name;
            if i < before.len() {
                assert(before[i].0 == name);
            } else {
                assert(dicts[n - 1].name == name);
            }
        }
        if named(before, name) {
            let i = choose|i: int| 0 <= i < before.len() && (#[trigger] before[i]).0 == name;
            assert(all[i].0 == name);
        }
        if dicts[n - 1].name == name && !named(before, name) && !named(frequency, name) && !named(
            pitch,
            name,
        ) {
            assert(all[before.len() as int].0 == name);
        }
    } else {
        if named(terms, name) {
            let i = choose|i: int| 0 <= i < terms.len() && (#[trigger] terms[i]).0 == name;
            assert(terms[i].0 == name);
        }
    }
}

/// The active language's list decides what is searched where it names any
/// Dictionary, and only there; the pitch list is every language's.
pub proof fn a_language_searches_its_own_list(cfg: Config, dicts: Seq<InfoV>, name: Seq<char>)
    requires
        !cfg.dictionaries.v().pre_roles(),
    ensures
        ({
            let d = cfg.dictionaries.v();
            let lang = cfg.ocr.language@;
            &&& d.per_language.dom().contains(lang) && d.per_language[lang].len() > 0 ==> cfg.presents(
                dicts,
            ).terms == d.per_language[lang]
            &&& !d.per_language.dom().contains(lang) || d.per_language[lang].len() == 0 ==> (
            cfg.presents(dicts).terms.contains(name) <== d.terms.contains(name))
            &&& cfg.presents(dicts).pitch.contains(name) <==> d.pitch.contains(name)
            &&& cfg.presents(dicts).summary_chars == cfg.popup.summary_chars
        }),
{
    let d = cfg.dictionaries.v();
    let pitch = d.rows(Role::Pitch, dicts);
    let freq = d.rows(Role::Frequency, dicts);
    let terms = d.rows(Role::Terms, dicts);
    a_checked_name_is_enabled(pitch, name);
    if d.pitch.contains(name) {
        let i = choose|i: int| 0 <= i < d.pitch.len() && d.pitch[i] == name;
        assert(pitch[i] == (name, true));
    }
    if exists|i: int| 0 <= i < pitch.len() && #[trigger] pitch[i] == (name, true) {
        let i = choose|i: int| 0 <= i < pitch.len() && #[trigger] pitch[i] == (name, true);
        assert(d.pitch[i] == name);
    }
    let all = with_installed(terms, freq, pitch, dicts, dicts.len() as int);
    an_unlisted_dictionary_is_searched(terms, freq, pitch, dicts, dicts.len() as int, name);
    a_checked_name_is_enabled(all, name);
    if d.terms.contains(name) {
        let i = choose|i: int| 0 <= i < d.terms.len() && d.terms[i] == name;
        assert(terms[i] == (name, true));
        assert(all[i] == (name, true));
    }
}

/// A list without a name is the list's other names.
pub proof fn a_list_keeps_its_other_names(list: Seq<Seq<char>>, name: Seq<char>, other: Seq<char>)
    ensures
        without(list, name).contains(other) <==> list.contains(other) && other != name,
    decreases list.len(),
{
    reveal(Seq::filter);
    let out = without(list, name);
    if list.len() > 0 {
        let front = list.drop_last();
        let n = list.len() - 1;
        a_list_keeps_its_other_names(front, name, other);
        let before = without(front, name);
        assert(list[n] == list.last());
        if out.contains(other) {
            let j = choose|j: int| 0 <= j < out.len() && out[j] == other;
            if j < before.len() {
                assert(before[j] == other);
                let k = choose|k: int| 0 <= k < front.len() && front[k] == other;
                assert(list[k] == other);
            }
        }
        if list.contains(other) && other != name {
            let k = choose|k: int| 0 <= k < list.len() && list[k] == other;
            if k < n {
                assert(front[k] == other);
                let j = choose|j: int| 0 <= j < before.len() && before[j] == other;
                assert(out[j] == other);
            } else {
                assert(out[before.len() as int] == other);
            }
        }
    }
}

/// Taking a name out of the language lists takes nothing else out: a list
/// without the name that names anything stays as it was.
pub proof fn a_removal_leaves_the_other_names(
    m: Map<Seq<char>, Seq<Seq<char>>>,
    name: Seq<char>,
    tag: Seq<char>,
    other: Seq<char>,
)
    requires
        m.dom().contains(tag),
        other != name,
    ensures
        m[tag].contains(other) ==> lists_without(m, name).dom().contains(tag) && lists_without(
            m,
            name,
        )[tag].contains(other),
        lists_without(m, name).dom().contains(tag) ==> (lists_without(m, name)[tag].contains(other)
            <==> m[tag].contains(other)),
{
    a_list_keeps_its_other_names(m[tag], name, other);
}

} // verus!
