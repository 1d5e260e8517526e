//! The presentation module builds the popup view model from Dictionary hits.
//!
//! It groups hits, orders Dictionaries, and builds summaries and pitch rows
//! before the layout pass.
use crate::chars::{
    chars_of, copy_chars, copy_list, copy_opt, list_has, numeric, opt_str, push_chars, replace_char,
    replaced, same_list, same_opt, same_str, signed, signed_of, string_of, strs, trim, trim_of,
    trim_start,
};
use crate::dict::gloss::{parsed, plain, plain_items, DocV, GlossDoc};
use crate::dict::media::{copy_media, media_v, Intrinsic};
use crate::dict::pitch::{claims_v, same_position, Accent, AccentV, ClaimV, PitchClaim};
use crate::geom::PhysRect;
use crate::lookup::model::{hits_v, share, Dictionary, Hit, HitV};
use crate::text::{
    at_byte, char_index, chars_holdable, chars_join, padded, touched_hull, union_chars, TextSpan,
};
use std::sync::Arc;
use vstd::prelude::*;
use vstd::slice::slice_subrange;

verus! {

/// The identity of a Dictionary.
#[derive(Debug, PartialEq, Eq)]
pub struct DictInfo {
    pub dict_id: i64,
    /// The exact name that all Dictionary lists use.
    pub name: String,
}

/// What an identity holds.
#[verifier::ext_equal]
pub struct InfoV {
    pub dict_id: i64,
    pub name: Seq<char>,
}

impl DictInfo {
    pub open spec fn v(self) -> InfoV {
        InfoV { dict_id: self.dict_id, name: self.name@ }
    }
}

impl Clone for DictInfo {
    fn clone(&self) -> (r: Self)
        ensures
            r.v() == self.v(),
    {
        DictInfo { dict_id: self.dict_id, name: self.name.clone() }
    }
}

pub open spec fn infos_v(s: Seq<DictInfo>) -> Seq<InfoV> {
    s.map_values(|d: DictInfo| d.v())
}

/// What the presentation reads of the configuration.
#[derive(Debug, PartialEq, Eq)]
pub struct PresentConfig {
    /// The enabled Dictionaries in the terms list, in exact-name and priority
    /// order. This list controls selection and order. Each name identifies an
    /// installed Dictionary or identifies nothing.
    pub terms: Vec<String>,
    /// The enabled pitch Dictionaries, in exact-name and priority order.
    pub pitch: Vec<String>,
    /// The maximum character count of a collapsed summary.
    pub summary_chars: usize,
}

/// What that holds.
#[verifier::ext_equal]
pub struct PresentV {
    pub terms: Seq<Seq<char>>,
    pub pitch: Seq<Seq<char>>,
    pub summary_chars: usize,
}

impl PresentConfig {
    pub open spec fn v(self) -> PresentV {
        PresentV {
            terms: strs(self.terms@),
            pitch: strs(self.pitch@),
            summary_chars: self.summary_chars,
        }
    }
}

/// The ID for content that has no database row. Row numbers start at one.
pub const NO_ROW: i64 = 0;

/// The physical-pixel space between the text and its outline.
pub const HIGHLIGHT_PAD: i32 = 3;

/// One matched term-bank row.
#[derive(Debug, PartialEq, Eq)]
pub struct GlossEntry {
    /// The database ID of the Entry in this row. [`NO_ROW`] identifies
    /// content with no stored row.
    pub entry_id: i64,
    /// The plain-text form, with one string for each Gloss.
    pub glosses: Vec<String>,
    /// The part-of-speech set that the panel can show. It has no numeric
    /// tags, and it is empty when the prior row showed the same set.
    pub tags: Vec<String>,
    /// The GlossDoc tree shared with the parsed-tree cache.
    pub doc: Arc<GlossDoc>,
    /// The intrinsic size of each image asset that this row names.
    pub media: Vec<(String, Intrinsic)>,
}

/// What a matched row holds.
#[verifier::ext_equal]
pub struct GlossEntryV {
    pub entry_id: i64,
    pub glosses: Seq<Seq<char>>,
    pub tags: Seq<Seq<char>>,
    pub doc: DocV,
    pub media: Seq<(Seq<char>, Intrinsic)>,
}

impl GlossEntry {
    pub open spec fn v(self) -> GlossEntryV {
        GlossEntryV {
            entry_id: self.entry_id,
            glosses: strs(self.glosses@),
            tags: strs(self.tags@),
            doc: self.doc@,
            media: media_v(self.media@),
        }
    }
}

impl Clone for GlossEntry {
    fn clone(&self) -> (r: Self)
        ensures
            r.v() == self.v(),
    {
        GlossEntry {
            entry_id: self.entry_id,
            glosses: copy_list(&self.glosses),
            tags: copy_list(&self.tags),
            doc: share(&self.doc),
            media: copy_media(&self.media),
        }
    }
}

pub open spec fn gloss_entries_v(s: Seq<GlossEntry>) -> Seq<GlossEntryV> {
    s.map_values(|e: GlossEntry| e.v())
}

fn copy_entries(v: &Vec<GlossEntry>) -> (r: Vec<GlossEntry>)
    ensures
        gloss_entries_v(r@) == gloss_entries_v(v@),
{
    let mut r: Vec<GlossEntry> = Vec::new();
    let ghost all = gloss_entries_v(v@);
    let mut i: usize = 0;
    while i < v.len()
        invariant
            i <= v@.len(),
            all == gloss_entries_v(v@),
            gloss_entries_v(r@) == all.take(i as int),
        decreases v@.len() - i,
    {
        let ghost before = gloss_entries_v(r@);
        r.push(v[i].clone());
        assert(gloss_entries_v(r@) =~= before.push(all[i as int]));
        assert(all.take(i + 1) =~= all.take(i as int).push(all[i as int]));
        i += 1;
    }
    assert(all.take(i as int) =~= all);
    r
}

/// One Dictionary contribution to a Card, with its GlossDoc trees.
///
/// Each Dictionary supplies one block. A matched term-bank row does not
/// create a separate block.
#[derive(Debug, PartialEq, Eq)]
pub struct GlossBlock {
    pub dict_name: String,
    /// The database row ID that identifies the Dictionary.
    pub dict_id: i64,
    /// One Entry for each matched term-bank row, in rank order.
    pub entries: Vec<GlossEntry>,
}

/// What a block holds.
#[verifier::ext_equal]
pub struct BlockV {
    pub dict_name: Seq<char>,
    pub dict_id: i64,
    pub entries: Seq<GlossEntryV>,
}

/// Every gloss of the first `n` rows.
pub open spec fn glosses_upto(entries: Seq<GlossEntryV>, n: int) -> Seq<Seq<char>>
    decreases n,
{
    if n <= 0 {
        seq![]
    } else {
        glosses_upto(entries, n - 1) + entries[n - 1].glosses
    }
}

impl BlockV {
    /// Every gloss of the Dictionary, without row groups.
    pub open spec fn glosses(self) -> Seq<Seq<char>> {
        glosses_upto(self.entries, self.entries.len() as int)
    }
}

impl GlossBlock {
    pub open spec fn v(self) -> BlockV {
        BlockV {
            dict_name: self.dict_name@,
            dict_id: self.dict_id,
            entries: gloss_entries_v(self.entries@),
        }
    }

    /// Builds one GlossBlock from one stored glossary payload. The result
    /// uses [`NO_ROW`].
    pub fn parse(dict_name: &str, glossary: &str) -> (r: GlossBlock)
        ensures
            r.v() == (BlockV {
                dict_name: dict_name@,
                dict_id: NO_ROW,
                entries: seq![
                    GlossEntryV {
                        entry_id: NO_ROW,
                        glosses: plain(parsed(glossary@)),
                        tags: seq![],
                        doc: parsed(glossary@),
                        media: seq![],
                    },
                ],
            }),
    {
        let doc = GlossDoc::parse(glossary);
        let glosses = plain_items(&doc);
        let tags: Vec<String> = Vec::new();
        let media: Vec<(String, Intrinsic)> = Vec::new();
        assert(strs(tags@) =~= seq![]);
        assert(media_v(media@) =~= seq![]);
        let entry = GlossEntry { entry_id: NO_ROW, glosses, tags, doc: Arc::new(doc), media };
        let mut entries: Vec<GlossEntry> = Vec::new();
        entries.push(entry);
        assert(gloss_entries_v(entries@) =~= seq![entry.v()]);
        GlossBlock { dict_name: dict_name.to_owned(), dict_id: NO_ROW, entries }
    }

    /// Returns all Gloss values for this Dictionary, without Entry groups.
    pub fn glosses(&self) -> (r: Vec<String>)
        ensures
            strs(r@) == self.v().glosses(),
    {
        let ghost es = gloss_entries_v(self.entries@);
        let mut out: Vec<String> = Vec::new();
        assert(strs(out@) =~= seq![]);
        let mut i: usize = 0;
        while i < self.entries.len()
            invariant
                i <= self.entries@.len(),
                es == gloss_entries_v(self.entries@),
                strs(out@) == glosses_upto(es, i as int),
            decreases self.entries@.len() - i,
        {
            let e = &self.entries[i];
            assert(es[i as int] == e.v());
            let ghost base = strs(out@);
            let ghost add = strs(e.glosses@);
            assert(base + add.take(0) =~= base);
            let mut k: usize = 0;
            while k < e.glosses.len()
                invariant
                    k <= e.glosses@.len(),
                    add == strs(e.glosses@),
                    strs(out@) == base + add.take(k as int),
                decreases e.glosses@.len() - k,
            {
                let ghost before = strs(out@);
                out.push(e.glosses[k].clone());
                assert(strs(out@) =~= before.push(add[k as int]));
                assert(base + add.take(k + 1) =~= (base + add.take(k as int)).push(add[k as int]));
                k += 1;
            }
            assert(add.take(k as int) =~= add);
            i += 1;
        }
        out
    }
}

impl Clone for GlossBlock {
    fn clone(&self) -> (r: Self)
        ensures
            r.v() == self.v(),
    {
        GlossBlock {
            dict_name: self.dict_name.clone(),
            dict_id: self.dict_id,
            entries: copy_entries(&self.entries),
        }
    }
}

pub open spec fn blocks_v(s: Seq<GlossBlock>) -> Seq<BlockV> {
    s.map_values(|b: GlossBlock| b.v())
}

/// One Accent that a Card shows, with the Dictionaries that report it.
///
/// Accents are compared by position only, because the Card shows only this
/// value. The `accent` field holds the Accent from the highest-priority
/// Dictionary for each position.
#[derive(Debug, PartialEq, Eq)]
pub struct PitchRow {
    pub accent: Accent,
    /// Names of the Dictionaries that report this Accent, in Pitch list
    /// order. Each name appears once.
    pub dicts: Vec<String>,
}

/// What a pitch row holds.
#[verifier::ext_equal]
pub struct PitchRowV {
    pub accent: AccentV,
    pub dicts: Seq<Seq<char>>,
}

impl PitchRow {
    pub open spec fn v(self) -> PitchRowV {
        PitchRowV { accent: self.accent.v(), dicts: strs(self.dicts@) }
    }
}

impl Clone for PitchRow {
    fn clone(&self) -> (r: Self)
        ensures
            r.v() == self.v(),
    {
        PitchRow { accent: self.accent.clone(), dicts: copy_list(&self.dicts) }
    }
}

pub open spec fn pitch_v(s: Seq<PitchRow>) -> Seq<PitchRowV> {
    s.map_values(|p: PitchRow| p.v())
}

/// The complete top Card.
#[derive(Debug, PartialEq, Eq)]
pub struct Card {
    pub written: Option<String>,
    pub reading: Option<String>,
    pub pos: Vec<String>,
    /// The Reported frequency for this Card's headword, not the Frequency
    /// rank that orders the results.
    pub freq: Option<i64>,
    /// The GlossBlock values in display order.
    pub blocks: Vec<GlossBlock>,
    /// The match length uses input characters, not bytes.
    pub match_len: usize,
    /// The Pitch patterns from enabled pitch Dictionaries for this Card's
    /// reading, without duplicate positions, in Pitch list order.
    pub pitch: Vec<PitchRow>,
}

/// What a card holds.
#[verifier::ext_equal]
pub struct CardV {
    pub written: Option<Seq<char>>,
    pub reading: Option<Seq<char>>,
    pub pos: Seq<Seq<char>>,
    pub freq: Option<i64>,
    pub blocks: Seq<BlockV>,
    pub match_len: usize,
    pub pitch: Seq<PitchRowV>,
}

impl Card {
    pub open spec fn v(self) -> CardV {
        CardV {
            written: opt_str(self.written),
            reading: opt_str(self.reading),
            pos: strs(self.pos@),
            freq: self.freq,
            blocks: blocks_v(self.blocks@),
            match_len: self.match_len,
            pitch: pitch_v(self.pitch@),
        }
    }
}

impl Clone for Card {
    fn clone(&self) -> (r: Self)
        ensures
            r.v() == self.v(),
    {
        let mut blocks: Vec<GlossBlock> = Vec::new();
        let ghost bs = blocks_v(self.blocks@);
        let mut i: usize = 0;
        while i < self.blocks.len()
            invariant
                i <= self.blocks@.len(),
                bs == blocks_v(self.blocks@),
                blocks_v(blocks@) == bs.take(i as int),
            decreases self.blocks@.len() - i,
        {
            let ghost before = blocks_v(blocks@);
            blocks.push(self.blocks[i].clone());
            assert(blocks_v(blocks@) =~= before.push(bs[i as int]));
            assert(bs.take(i + 1) =~= bs.take(i as int).push(bs[i as int]));
            i += 1;
        }
        assert(bs.take(i as int) =~= bs);
        let mut pitch: Vec<PitchRow> = Vec::new();
        let ghost ps = pitch_v(self.pitch@);
        let mut k: usize = 0;
        while k < self.pitch.len()
            invariant
                k <= self.pitch@.len(),
                ps == pitch_v(self.pitch@),
                pitch_v(pitch@) == ps.take(k as int),
            decreases self.pitch@.len() - k,
        {
            let ghost before = pitch_v(pitch@);
            pitch.push(self.pitch[k].clone());
            assert(pitch_v(pitch@) =~= before.push(ps[k as int]));
            assert(ps.take(k + 1) =~= ps.take(k as int).push(ps[k as int]));
            k += 1;
        }
        assert(ps.take(k as int) =~= ps);
        Card {
            written: copy_opt(&self.written),
            reading: copy_opt(&self.reading),
            pos: copy_list(&self.pos),
            freq: self.freq,
            blocks,
            match_len: self.match_len,
            pitch,
        }
    }
}

pub open spec fn cards_v(s: Seq<Card>) -> Seq<CardV> {
    s.map_values(|c: Card| c.v())
}

/// One non-top group in one line.
#[derive(Debug, PartialEq, Eq)]
pub struct CollapsedRow {
    pub written: Option<String>,
    pub reading: Option<String>,
    /// The first Gloss, limited to the configured length.
    pub summary: String,
}

/// What a collapsed row holds.
#[verifier::ext_equal]
pub struct CollapsedV {
    pub written: Option<Seq<char>>,
    pub reading: Option<Seq<char>>,
    pub summary: Seq<char>,
}

impl CollapsedRow {
    pub open spec fn v(self) -> CollapsedV {
        CollapsedV {
            written: opt_str(self.written),
            reading: opt_str(self.reading),
            summary: self.summary@,
        }
    }
}

pub open spec fn collapsed_v(s: Seq<CollapsedRow>) -> Seq<CollapsedV> {
    s.map_values(|c: CollapsedRow| c.v())
}

/// The popup view model for one hover.
#[derive(Debug, PartialEq, Eq)]
pub struct Presentation {
    pub top: Option<Card>,
    pub collapsed: Vec<CollapsedRow>,
    /// A complete Card for each group.
    pub all_cards: Vec<Card>,
    /// The sentence line for note payloads.
    pub sentence: Option<String>,
    /// The on-screen text that the top Card matched: the surface form, not
    /// the headword.
    pub surface: Option<String>,
}

/// What a view model holds.
#[verifier::ext_equal]
pub struct PresentationV {
    pub top: Option<CardV>,
    pub collapsed: Seq<CollapsedV>,
    pub all_cards: Seq<CardV>,
    pub sentence: Option<Seq<char>>,
    pub surface: Option<Seq<char>>,
}

impl Presentation {
    pub open spec fn v(self) -> PresentationV {
        PresentationV {
            top: match self.top {
                Some(c) => Some(c.v()),
                None => None,
            },
            collapsed: collapsed_v(self.collapsed@),
            all_cards: cards_v(self.all_cards@),
            sentence: opt_str(self.sentence),
            surface: opt_str(self.surface),
        }
    }
}

/// Is no name in a list twice?
pub open spec fn each_once(names: Seq<String>) -> bool {
    strs(names).no_duplicates()
}

/// The Anki state for this popup.
#[derive(Debug, PartialEq, Eq)]
pub struct AnkiPopupState {
    /// The headwords that Anki has already, each once.
    pub dupes: Vec<String>,
    /// The headwords that this popup added, each once.
    pub added: Vec<String>,
    pub enabled: bool,
    pub adding: bool,
    /// True while the popup checks for duplicates.
    pub checking: bool,
    /// True until AnkiConnect gives an answer.
    pub connected: bool,
    /// True if the last add-note call failed.
    pub failed: bool,
}

impl AnkiPopupState {
    /// Does each list name a headword once?
    pub open spec fn wf(self) -> bool {
        each_once(self.dupes@) && each_once(self.added@)
    }

    /// Returns a disabled state with no operation in progress.
    pub fn disabled() -> (r: Self)
        ensures
            r.wf(),
            r.dupes@.len() == 0,
            r.added@.len() == 0,
            !r.enabled,
            !r.adding,
            !r.checking,
            !r.connected,
            !r.failed,
    {
        AnkiPopupState {
            dupes: Vec::new(),
            added: Vec::new(),
            enabled: false,
            adding: false,
            checking: false,
            connected: false,
            failed: false,
        }
    }

    /// Returns the initial state of a new popup. The popup checks for
    /// duplicates when Anki is enabled.
    pub fn fresh(enabled: bool) -> (r: Self)
        ensures
            r.wf(),
            r.dupes@.len() == 0,
            r.added@.len() == 0,
            r.enabled == enabled,
            !r.adding,
            r.checking == enabled,
            r.connected == enabled,
            !r.failed,
    {
        AnkiPopupState {
            dupes: Vec::new(),
            added: Vec::new(),
            enabled,
            adding: false,
            checking: enabled,
            connected: enabled,
            failed: false,
        }
    }
}

/// A CJK ideograph.
pub open spec fn kanji(c: char) -> bool {
    let u = c as u32;
    ||| 0x4e00 <= u <= 0x9fff
    ||| 0x3400 <= u <= 0x4dbf
    ||| 0xf900 <= u <= 0xfaff
}

/// Returns whether a character is a CJK ideograph.
pub fn is_kanji(c: char) -> (r: bool)
    ensures
        r == kanji(c),
{
    let u = c as u32;
    (0x4e00 <= u && u <= 0x9fff) || (0x3400 <= u && u <= 0x4dbf) || (0xf900 <= u && u <= 0xfaff)
}

/// Does a text hold an ideograph?
pub open spec fn has_kanji(s: Seq<char>) -> bool {
    exists|i: int| 0 <= i < s.len() && kanji(#[trigger] s[i])
}

fn holds_kanji(s: &str) -> (r: bool)
    ensures
        r == has_kanji(s@),
{
    let v = chars_of(s);
    let mut i: usize = 0;
    while i < v.len()
        invariant
            i <= v@.len(),
            v@ == s@,
            forall|j: int| 0 <= j < i ==> !kanji(#[trigger] s@[j]),
        decreases v@.len() - i,
    {
        if is_kanji(v[i]) {
            assert(kanji(s@[i as int]));
            return true;
        }
        i += 1;
    }
    false
}

/// The written form and the reading that a hit claims. A reading is kana, so
/// a lone reading with a kanji in it is the term echoed back: a written form
/// with no reading.
pub open spec fn claimed(hit: HitV) -> (Option<Seq<char>>, Option<Seq<char>>) {
    match (hit.written, hit.reading) {
        (None, Some(reading)) => if has_kanji(reading) {
            (Some(reading), None)
        } else {
            (None, Some(reading))
        },
        (written, reading) => (written, reading),
    }
}

/// Returns the written form and the reading that one hit claims.
fn claim(hit: &Hit) -> (r: (Option<String>, Option<String>))
    ensures
        (opt_str(r.0), opt_str(r.1)) == claimed(hit.v()),
{
    if hit.written.is_none() {
        if let Some(reading) = &hit.reading {
            if holds_kanji(reading.as_str()) {
                return (Some(reading.clone()), None);
            }
        }
    }
    (copy_opt(&hit.written), copy_opt(&hit.reading))
}

/// The name of the first Dictionary with an id.
pub open spec fn known(dicts: Seq<InfoV>, id: i64) -> Option<Seq<char>>
    decreases dicts.len(),
{
    if dicts.len() == 0 {
        None
    } else if dicts[0].dict_id == id {
        Some(dicts[0].name)
    } else {
        known(dicts.skip(1), id)
    }
}

/// The name that a Dictionary is shown under.
pub open spec fn shown_name(dicts: Seq<InfoV>, id: i64) -> Seq<char> {
    match known(dicts, id) {
        Some(name) => name,
        None => "dict "@ + signed(id as int),
    }
}

/// Is a Dictionary enabled by a list of names? One without an identity is,
/// so a new Dictionary stays visible.
pub open spec fn enabled_by(dicts: Seq<InfoV>, list: Seq<Seq<char>>, id: i64) -> bool {
    match known(dicts, id) {
        Some(name) => list.contains(name),
        None => true,
    }
}

/// Where a name stands in a list.
pub open spec fn rank_in(list: Seq<Seq<char>>, name: Seq<char>) -> Option<int>
    decreases list.len(),
{
    if list.len() == 0 {
        None
    } else if list[0] == name {
        Some(0)
    } else {
        match rank_in(list.skip(1), name) {
            Some(k) => Some(k + 1),
            None => None,
        }
    }
}

/// The rank of a name: its place in a list, or behind every place.
pub open spec fn rank_of(list: Seq<Seq<char>>, name: Seq<char>) -> usize {
    match rank_in(list, name) {
        Some(k) => k as usize,
        None => usize::MAX,
    }
}

fn find_known(dicts: &[DictInfo], id: i64) -> (r: Option<usize>)
    ensures
        match r {
            Some(k) => k < dicts@.len() && known(infos_v(dicts@), id) == Some(
                dicts@[k as int].name@,
            ),
            None => known(infos_v(dicts@), id) is None,
        },
{
    let ghost all = infos_v(dicts@);
    assert(all.skip(0) =~= all);
    let mut i: usize = 0;
    while i < dicts.len()
        invariant
            i <= dicts@.len(),
            all == infos_v(dicts@),
            known(all, id) == known(all.skip(i as int), id),
        decreases dicts@.len() - i,
    {
        assert(all.skip(i as int)[0] == all[i as int]);
        assert(all.skip(i as int).skip(1) =~= all.skip(i + 1));
        if dicts[i].dict_id == id {
            return Some(i);
        }
        i += 1;
    }
    None
}

/// Gets a Dictionary name from its ID.
fn dict_name_for(dict_id: i64, dicts: &[DictInfo]) -> (r: String)
    ensures
        r@ == shown_name(infos_v(dicts@), dict_id),
{
    match find_known(dicts, dict_id) {
        Some(k) => dicts[k].name.clone(),
        None => {
            let mut m = chars_of("dict ");
            push_chars(&mut m, signed_of(dict_id).as_slice());
            string_of(m.as_slice())
        },
    }
}

/// Tests whether an enabled Dictionary name list contains a Dictionary.
fn enabled_for(dict_id: i64, dicts: &[DictInfo], list: &[String]) -> (r: bool)
    ensures
        r == enabled_by(infos_v(dicts@), strs(list@), dict_id),
{
    match find_known(dicts, dict_id) {
        Some(k) => keeps_dict(dicts[k].name.as_str(), list),
        None => true,
    }
}

/// Returns the priority index of a Dictionary name in a Config list.
///
/// A match requires complete-name equality.
pub fn list_rank(dict_name: &str, list: &[String]) -> (r: Option<usize>)
    ensures
        rank_in(strs(list@), dict_name@) == (match r {
            Some(k) => Some(k as int),
            None => None,
        }),
        r matches Some(k) ==> k < list@.len() && list@[k as int]@ == dict_name@,
        r is None ==> !strs(list@).contains(dict_name@),
{
    let ghost all = strs(list@);
    assert(all.skip(0) =~= all);
    let mut i: usize = 0;
    while i < list.len()
        invariant
            i <= list@.len(),
            all == strs(list@),
            forall|j: int| 0 <= j < i ==> #[trigger] all[j] != dict_name@,
            rank_in(all, dict_name@) == (match rank_in(all.skip(i as int), dict_name@) {
                Some(k) => Some(k + i),
                None => None,
            }),
        decreases list@.len() - i,
    {
        assert(all.skip(i as int)[0] == all[i as int]);
        assert(all.skip(i as int).skip(1) =~= all.skip(i + 1));
        if same_str(list[i].as_str(), dict_name) {
            return Some(i);
        }
        i += 1;
    }
    None
}

/// Tests whether a Config list contains a Dictionary name.
///
/// Exact string equality decides a match. An empty list enables no
/// Dictionaries.
pub fn keeps_dict(dict_name: &str, list: &[String]) -> (r: bool)
    ensures
        r == strs(list@).contains(dict_name@),
{
    list_has(list, dict_name)
}

fn rank_for(list: &[String], name: &str) -> (r: usize)
    ensures
        r == rank_of(strs(list@), name@),
{
    match list_rank(name, list) {
        Some(k) => k,
        None => usize::MAX,
    }
}

/// Does item `a` go before item `b`: by its rank, and then by its id?
pub open spec fn keyed_first<T>(a: (usize, i64, T), b: (usize, i64, T)) -> bool {
    a.0 < b.0 || (a.0 == b.0 && a.1 < b.1)
}

/// An item put among sorted ones, behind those it does not go before.
pub open spec fn keyed_in<T>(list: Seq<(usize, i64, T)>, x: (usize, i64, T)) -> Seq<(usize, i64, T)>
    decreases list.len(),
{
    if list.len() > 0 && keyed_first(x, list.last()) {
        keyed_in(list.drop_last(), x).push(list.last())
    } else {
        list.push(x)
    }
}

/// A list sorted by rank and id. Equal items keep their order.
pub open spec fn keyed_sort<T>(list: Seq<(usize, i64, T)>) -> Seq<(usize, i64, T)>
    decreases list.len(),
{
    if list.len() == 0 {
        list
    } else {
        keyed_in(keyed_sort(list.drop_last()), list.last())
    }
}

/// The list with every item's content replaced.
pub open spec fn keyed_map<T, U>(list: Seq<(usize, i64, T)>, f: spec_fn(T) -> U) -> Seq<(usize, i64, U)> {
    list.map_values(|x: (usize, i64, T)| (x.0, x.1, f(x.2)))
}

proof fn keyed_in_maps<T, U>(list: Seq<(usize, i64, T)>, x: (usize, i64, T), f: spec_fn(T) -> U)
    ensures
        keyed_map(keyed_in(list, x), f) == keyed_in(keyed_map(list, f), (x.0, x.1, f(x.2))),
    decreases list.len(),
{
    let m = keyed_map(list, f);
    if list.len() > 0 && keyed_first(x, list.last()) {
        keyed_in_maps(list.drop_last(), x, f);
        assert(keyed_map(list.drop_last(), f) =~= m.drop_last());
        assert(keyed_map(keyed_in(list, x), f) =~= keyed_map(keyed_in(list.drop_last(), x), f).push(
            m.last(),
        ));
    } else {
        assert(keyed_map(list.push(x), f) =~= m.push((x.0, x.1, f(x.2))));
    }
}

proof fn keyed_sort_maps<T, U>(list: Seq<(usize, i64, T)>, f: spec_fn(T) -> U)
    ensures
        keyed_map(keyed_sort(list), f) == keyed_sort(keyed_map(list, f)),
    decreases list.len(),
{
    if list.len() == 0 {
        assert(keyed_map(list, f) =~= keyed_sort(keyed_map(list, f)));
    } else {
        keyed_sort_maps(list.drop_last(), f);
        keyed_in_maps(keyed_sort(list.drop_last()), list.last(), f);
        assert(keyed_map(list, f).drop_last() =~= keyed_map(list.drop_last(), f));
    }
}

fn sort_keyed<T>(list: Vec<(usize, i64, T)>) -> (r: Vec<(usize, i64, T)>)
    ensures
        r@ == keyed_sort(list@),
{
    let mut rest = list;
    let mut out: Vec<(usize, i64, T)> = Vec::new();
    let ghost mut n: int = 0;
    assert(rest@ =~= list@.skip(0));
    assert(out@ =~= keyed_sort(list@.take(0)));
    while rest.len() > 0
        invariant
            0 <= n <= list@.len(),
            rest@ == list@.skip(n),
            out@ == keyed_sort(list@.take(n)),
        decreases rest@.len(),
    {
        let x = rest.remove(0);
        assert(x == list@[n]);
        assert(rest@ =~= list@.skip(n + 1));
        let ghost all = out@;
        let mut k: usize = out.len();
        assert(all.take(k as int) =~= all);
        assert(keyed_in(all, x) =~= keyed_in(all.take(k as int), x) + all.skip(k as int));
        while k > 0 && (x.0 < out[k - 1].0 || (x.0 == out[k - 1].0 && x.1 < out[k - 1].1))
            invariant
                k <= out@.len(),
                all == out@,
                keyed_in(all, x) == keyed_in(all.take(k as int), x) + all.skip(k as int),
            decreases k,
        {
            assert(all.take(k as int).drop_last() =~= all.take(k - 1));
            assert(all.take(k as int).last() == out@[k - 1]);
            assert(keyed_in(all.take(k - 1), x).push(all[k - 1]) + all.skip(k as int) =~= keyed_in(
                all.take(k - 1),
                x,
            ) + all.skip(k - 1));
            k -= 1;
        }
        proof {
            if k > 0 {
                assert(all.take(k as int).last() == out@[k - 1]);
            }
        }
        out.insert(k, x);
        assert(out@ =~= all.take(k as int).push(x) + all.skip(k as int));
        assert(list@.take(n + 1).drop_last() =~= list@.take(n));
        assert(list@.take(n + 1).last() == x);
        proof {
            n = n + 1;
        }
    }
    assert(list@.take(n) =~= list@);
    out
}

/// Is a tag a number: digits alone, once it is trimmed?
pub open spec fn number_tag(tag: Seq<char>) -> bool {
    let t = trim(tag);
    t.len() > 0 && forall|i: int| 0 <= i < t.len() ==> numeric(#[trigger] t[i])
}

/// Returns true if the trimmed tag contains only numeric digits.
fn is_number(tag: &str) -> (r: bool)
    ensures
        r == number_tag(tag@),
{
    let c = chars_of(tag);
    let t = trim_of(c.as_slice());
    if t.len() == 0 {
        return false;
    }
    let mut i: usize = 0;
    while i < t.len()
        invariant
            i <= t@.len(),
            t@ == trim(tag@),
            forall|j: int| 0 <= j < i ==> numeric(#[trigger] t@[j]),
        decreases t@.len() - i,
    {
        if !t[i].is_numeric() {
            assert(!numeric(t@[i as int]));
            return false;
        }
        i += 1;
    }
    true
}

/// The part-of-speech tags for display. Numbers identify senses, not parts of
/// speech.
pub open spec fn display_tags(pos: Seq<Seq<char>>) -> Seq<Seq<char>> {
    pos.filter(|t: Seq<char>| !number_tag(t))
}

/// Selects part-of-speech tags for display.
fn definition_tags(pos: &Vec<String>) -> (r: Vec<String>)
    ensures
        strs(r@) == display_tags(strs(pos@)),
{
    let ghost want = |t: Seq<char>| !number_tag(t);
    let ghost all = strs(pos@);
    let mut out: Vec<String> = Vec::new();
    assert(strs(out@) =~= all.take(0).filter(want)) by {
        reveal(Seq::filter);
    }
    let mut i: usize = 0;
    while i < pos.len()
        invariant
            i <= pos@.len(),
            all == strs(pos@),
            want == (|t: Seq<char>| !number_tag(t)),
            strs(out@) == all.take(i as int).filter(want),
        decreases pos@.len() - i,
    {
        proof {
            reveal(Seq::filter);
            assert(all.take(i + 1).drop_last() =~= all.take(i as int));
            assert(all.take(i + 1).last() == all[i as int]);
        }
        if !is_number(pos[i].as_str()) {
            let ghost before = strs(out@);
            out.push(pos[i].clone());
            assert(strs(out@) =~= before.push(all[i as int]));
        }
        i += 1;
    }
    assert(all.take(i as int) =~= all);
    out
}

/// The row of a hit.
pub open spec fn row_of(hit: HitV) -> GlossEntryV {
    GlossEntryV {
        entry_id: hit.entry.entry_id,
        glosses: plain(hit.entry.gloss),
        tags: display_tags(hit.entry.pos),
        doc: hit.entry.gloss,
        media: hit.entry.media,
    }
}

/// Ranked blocks with one more row, looked for from block `k` on: in its
/// Dictionary's block, or in a block of its own, last.
pub open spec fn row_in(
    ranked: Seq<(usize, i64, BlockV)>,
    hit: HitV,
    dicts: Seq<InfoV>,
    terms: Seq<Seq<char>>,
    k: int,
) -> Seq<(usize, i64, BlockV)>
    decreases ranked.len() - k,
{
    let id = hit.entry.dict_id;
    if k >= ranked.len() {
        let name = shown_name(dicts, id);
        ranked.push(
            (
                rank_of(terms, name),
                id,
                BlockV { dict_name: name, dict_id: id, entries: seq![row_of(hit)] },
            ),
        )
    } else if ranked[k].1 == id {
        let b = ranked[k].2;
        ranked.update(
            k,
            (ranked[k].0, id, BlockV { entries: b.entries.push(row_of(hit)), ..b }),
        )
    } else {
        row_in(ranked, hit, dicts, terms, k + 1)
    }
}

/// The ranked blocks of the first `n` hits.
pub open spec fn ranked_blocks(hits: Seq<HitV>, dicts: Seq<InfoV>, terms: Seq<Seq<char>>, n: int) -> Seq<
    (usize, i64, BlockV),
>
    decreases n,
{
    if n <= 0 {
        seq![]
    } else {
        row_in(ranked_blocks(hits, dicts, terms, n - 1), hits[n - 1], dicts, terms, 0)
    }
}

/// One block per Dictionary, in the order of the terms list.
pub open spec fn blocks_of(hits: Seq<HitV>, dicts: Seq<InfoV>, terms: Seq<Seq<char>>) -> Seq<BlockV> {
    keyed_sort(ranked_blocks(hits, dicts, terms, hits.len() as int)).map_values(
        |x: (usize, i64, BlockV)| x.2,
    )
}

/// What the hits of a group hold.
pub open spec fn refs_v(s: Seq<&Hit>) -> Seq<HitV> {
    s.map_values(|h: &Hit| h.v())
}

spec fn block_view() -> spec_fn(GlossBlock) -> BlockV {
    |b: GlossBlock| b.v()
}

fn put_row(ranked: &mut Vec<(usize, i64, GlossBlock)>, hit: &Hit, dicts: &[DictInfo], terms: &[String])
    ensures
        keyed_map(final(ranked)@, block_view()) == row_in(
            keyed_map(old(ranked)@, block_view()),
            hit.v(),
            infos_v(dicts@),
            strs(terms@),
            0,
        ),
{
    let ghost f = block_view();
    let ghost all = keyed_map(ranked@, f);
    let ghost hv = hit.v();
    let ghost ds = infos_v(dicts@);
    let ghost ts = strs(terms@);
    let id = hit.entry.dict_id;
    let entry = GlossEntry {
        entry_id: hit.entry.entry_id,
        glosses: hit.entry.glosses(),
        tags: definition_tags(&hit.entry.pos),
        doc: share(&hit.entry.gloss),
        media: copy_media(&hit.entry.media),
    };
    assert(entry.v() == row_of(hv));
    let mut k: usize = 0;
    while k < ranked.len() && ranked[k].1 != id
        invariant
            k <= ranked@.len(),
            ranked@ == old(ranked)@,
            f == block_view(),
            all == keyed_map(ranked@, f),
            id == hv.entry.dict_id,
            row_in(all, hv, ds, ts, 0) == row_in(all, hv, ds, ts, k as int),
        decreases ranked@.len() - k,
    {
        assert(all[k as int].1 == ranked@[k as int].1);
        k += 1;
    }
    if k < ranked.len() {
        let (rank, dict_id, block) = ranked.remove(k);
        let ghost bv = block.v();
        let mut entries = block.entries;
        let ghost was = gloss_entries_v(entries@);
        entries.push(entry);
        assert(gloss_entries_v(entries@) =~= was.push(entry.v()));
        let next = GlossBlock { dict_name: block.dict_name, dict_id: block.dict_id, entries };
        ranked.insert(k, (rank, dict_id, next));
        assert(all[k as int] == (rank, dict_id, bv));
        assert(keyed_map(ranked@, f) =~= all.update(k as int, (rank, dict_id, next.v())));
    } else {
        let dict_name = dict_name_for(id, dicts);
        let rank = rank_for(terms, dict_name.as_str());
        let mut entries: Vec<GlossEntry> = Vec::new();
        entries.push(entry);
        assert(gloss_entries_v(entries@) =~= seq![entry.v()]);
        let block = GlossBlock { dict_name, dict_id: id, entries };
        ranked.push((rank, id, block));
        assert(keyed_map(ranked@, f) =~= all.push((rank, id, block.v())));
    }
}

/// Builds one GlossBlock per Dictionary rather than per Hit.
///
/// The enabled terms list gives each group its rank. `dict_id` resolves equal
/// ranks.
fn ordered_blocks(hits: &Vec<&Hit>, dicts: &[DictInfo], terms: &[String]) -> (r: Vec<GlossBlock>)
    ensures
        blocks_v(r@) == blocks_of(refs_v(hits@), infos_v(dicts@), strs(terms@)),
{
    let ghost f = block_view();
    let ghost hs = refs_v(hits@);
    let ghost ds = infos_v(dicts@);
    let ghost ts = strs(terms@);
    let mut ranked: Vec<(usize, i64, GlossBlock)> = Vec::new();
    assert(keyed_map(ranked@, f) =~= seq![]);
    let mut i: usize = 0;
    while i < hits.len()
        invariant
            i <= hits@.len(),
            f == block_view(),
            hs == refs_v(hits@),
            ds == infos_v(dicts@),
            ts == strs(terms@),
            keyed_map(ranked@, f) == ranked_blocks(hs, ds, ts, i as int),
        decreases hits@.len() - i,
    {
        assert(hs[i as int] == hits@[i as int].v());
        put_row(&mut ranked, hits[i], dicts, terms);
        i += 1;
    }
    proof {
        keyed_sort_maps(ranked@, f);
    }
    let sorted = sort_keyed(ranked);
    let ghost sv = keyed_map(sorted@, f);
    let ghost pick = |x: (usize, i64, BlockV)| x.2;
    let mut rest = sorted;
    let mut out: Vec<GlossBlock> = Vec::new();
    let ghost mut n: int = 0;
    assert(rest@ =~= sorted@.skip(0));
    while rest.len() > 0
        invariant
            0 <= n <= sorted@.len(),
            f == block_view(),
            rest@ == sorted@.skip(n),
            sv == keyed_map(sorted@, f),
            pick == (|x: (usize, i64, BlockV)| x.2),
            blocks_v(out@) == sv.map_values(pick).take(n),
        decreases rest@.len(),
    {
        let (_rank, _id, block) = rest.remove(0);
        assert(block == sorted@[n].2);
        assert(rest@ =~= sorted@.skip(n + 1));
        let ghost before = blocks_v(out@);
        out.push(block);
        assert(blocks_v(out@) =~= before.push(sv.map_values(pick)[n]));
        assert(sv.map_values(pick).take(n + 1) =~= sv.map_values(pick).take(n).push(
            sv.map_values(pick)[n],
        ));
        proof {
            n = n + 1;
        }
    }
    assert(sv.map_values(pick).take(n) =~= sv.map_values(pick));
    out
}

/// The tags that were shown last before row `i`.
pub open spec fn tags_before(entries: Seq<GlossEntryV>, start: Seq<Seq<char>>, i: int) -> Seq<Seq<char>> {
    if i <= 0 {
        start
    } else {
        entries[i - 1].tags
    }
}

/// Rows whose tags are left out where the row before has the same.
pub open spec fn deduped_rows(entries: Seq<GlossEntryV>, start: Seq<Seq<char>>) -> Seq<GlossEntryV> {
    Seq::new(
        entries.len(),
        |i: int|
            GlossEntryV {
                tags: if entries[i].tags == tags_before(entries, start, i) {
                    seq![]
                } else {
                    entries[i].tags
                },
                ..entries[i]
            },
    )
}

/// The tags that were shown last before block `n`.
pub open spec fn tags_before_block(blocks: Seq<BlockV>, start: Seq<Seq<char>>, n: int) -> Seq<Seq<char>>
    decreases n,
{
    if n <= 0 {
        start
    } else {
        tags_before(
            blocks[n - 1].entries,
            tags_before_block(blocks, start, n - 1),
            blocks[n - 1].entries.len() as int,
        )
    }
}

/// Blocks whose rows show their tags only where these change.
pub open spec fn deduped(blocks: Seq<BlockV>, start: Seq<Seq<char>>) -> Seq<BlockV> {
    Seq::new(
        blocks.len(),
        |i: int|
            BlockV {
                entries: deduped_rows(blocks[i].entries, tags_before_block(blocks, start, i)),
                ..blocks[i]
            },
    )
}

/// Removes duplicate part-of-speech tags from consecutive Entries.
///
/// When an Entry has the same tags as the prior Entry, the function clears
/// the second Entry's tags.
fn dedupe_tags(blocks: Vec<GlossBlock>, start: Vec<String>) -> (r: Vec<GlossBlock>)
    ensures
        blocks_v(r@) == deduped(blocks_v(blocks@), strs(start@)),
{
    let ghost all = blocks_v(blocks@);
    let ghost st = strs(start@);
    let ghost want = deduped(all, st);
    let mut printed = start;
    let mut rest = blocks;
    let mut out: Vec<GlossBlock> = Vec::new();
    let ghost mut n: int = 0;
    assert(rest@ =~= blocks@.skip(0));
    while rest.len() > 0
        invariant
            0 <= n <= blocks@.len(),
            rest@ == blocks@.skip(n),
            all == blocks_v(blocks@),
            want == deduped(all, st),
            strs(printed@) == tags_before_block(all, st, n),
            blocks_v(out@) == want.take(n),
        decreases rest@.len(),
    {
        let block = rest.remove(0);
        assert(block == blocks@[n]);
        assert(rest@ =~= blocks@.skip(n + 1));
        assert(all[n] == block.v());
        let ghost es = gloss_entries_v(block.entries@);
        let ghost first = strs(printed@);
        let ghost rows = deduped_rows(es, first);
        let mut entries: Vec<GlossEntry> = Vec::new();
        let mut i: usize = 0;
        while i < block.entries.len()
            invariant
                i <= block.entries@.len(),
                es == gloss_entries_v(block.entries@),
                rows == deduped_rows(es, first),
                strs(printed@) == tags_before(es, first, i as int),
                gloss_entries_v(entries@) == rows.take(i as int),
            decreases block.entries@.len() - i,
        {
            let mut e = block.entries[i].clone();
            assert(es[i as int] == e.v());
            let ghost before = gloss_entries_v(entries@);
            if same_list(&e.tags, &printed) {
                let none: Vec<String> = Vec::new();
                assert(strs(none@) =~= seq![]);
                e = GlossEntry {
                    entry_id: e.entry_id,
                    glosses: e.glosses,
                    tags: none,
                    doc: e.doc,
                    media: e.media,
                };
            } else {
                printed = copy_list(&e.tags);
            }
            assert(e.v() == rows[i as int]);
            entries.push(e);
            assert(gloss_entries_v(entries@) =~= before.push(rows[i as int]));
            assert(rows.take(i + 1) =~= rows.take(i as int).push(rows[i as int]));
            i += 1;
        }
        assert(rows.take(i as int) =~= rows);
        let next = GlossBlock { dict_name: block.dict_name, dict_id: block.dict_id, entries };
        let ghost before = blocks_v(out@);
        out.push(next);
        assert(next.v() == want[n]);
        assert(blocks_v(out@) =~= before.push(want[n]));
        assert(want.take(n + 1) =~= want.take(n).push(want[n]));
        proof {
            n = n + 1;
        }
    }
    assert(want.take(n) =~= want);
    out
}

/// The enabled claims of the first `n`, each with its list rank, its
/// Dictionary and the name that it is shown under.
pub open spec fn ranked_claims(
    claims: Seq<ClaimV>,
    dicts: Seq<InfoV>,
    pitch: Seq<Seq<char>>,
    n: int,
) -> Seq<(usize, i64, (Seq<char>, AccentV))>
    decreases n,
{
    if n <= 0 {
        seq![]
    } else {
        let before = ranked_claims(claims, dicts, pitch, n - 1);
        let c = claims[n - 1];
        if enabled_by(dicts, pitch, c.dict_id) {
            let name = shown_name(dicts, c.dict_id);
            before.push((rank_of(pitch, name), c.dict_id, (name, c.accent)))
        } else {
            before
        }
    }
}

/// Pitch rows with one more claim, looked for from row `k` on: its name joins
/// the row with its position, or it makes a row of its own, last.
pub open spec fn accent_in(rows: Seq<PitchRowV>, name: Seq<char>, accent: AccentV, k: int) -> Seq<PitchRowV>
    decreases rows.len() - k,
{
    if k >= rows.len() {
        rows.push(PitchRowV { accent, dicts: seq![name] })
    } else if rows[k].accent.position == accent.position {
        if rows[k].dicts.contains(name) {
            rows
        } else {
            rows.update(k, PitchRowV { dicts: rows[k].dicts.push(name), ..rows[k] })
        }
    } else {
        accent_in(rows, name, accent, k + 1)
    }
}

/// The pitch rows of the first `n` sorted claims.
pub open spec fn accent_rows(sorted: Seq<(usize, i64, (Seq<char>, AccentV))>, n: int) -> Seq<PitchRowV>
    decreases n,
{
    if n <= 0 {
        seq![]
    } else {
        accent_in(accent_rows(sorted, n - 1), sorted[n - 1].2.0, sorted[n - 1].2.1, 0)
    }
}

/// The pitch rows of some claims: in Pitch list order, one for each position.
pub open spec fn rows_of_claims(claims: Seq<ClaimV>, dicts: Seq<InfoV>, pitch: Seq<Seq<char>>) -> Seq<
    PitchRowV,
> {
    let sorted = keyed_sort(ranked_claims(claims, dicts, pitch, claims.len() as int));
    accent_rows(sorted, sorted.len() as int)
}

/// The pitch rows of a headword group. One without a reading has none.
pub open spec fn pitch_of<D: Dictionary>(
    written: Option<Seq<char>>,
    reading: Option<Seq<char>>,
    dicts: Seq<InfoV>,
    pitch: Seq<Seq<char>>,
    dict: &D,
) -> Seq<PitchRowV> {
    match reading {
        None => seq![],
        Some(r) => if r.len() == 0 {
            seq![]
        } else {
            rows_of_claims(
                dict.claims(
                    match written {
                        Some(w) => w,
                        None => r,
                    },
                    r,
                ),
                dicts,
                pitch,
            )
        },
    }
}

spec fn accent_view() -> spec_fn((String, Accent)) -> (Seq<char>, AccentV) {
    |p: (String, Accent)| (p.0@, p.1.v())
}

fn put_accent(rows: &mut Vec<PitchRow>, name: String, accent: Accent)
    ensures
        pitch_v(final(rows)@) == accent_in(pitch_v(old(rows)@), name@, accent.v(), 0),
{
    let ghost all = pitch_v(rows@);
    let ghost av = accent.v();
    let mut k: usize = 0;
    while k < rows.len() && !same_position(&rows[k].accent.position, &accent.position)
        invariant
            k <= rows@.len(),
            rows@ == old(rows)@,
            all == pitch_v(rows@),
            av == accent.v(),
            accent_in(all, name@, av, 0) == accent_in(all, name@, av, k as int),
        decreases rows@.len() - k,
    {
        assert(all[k as int] == rows@[k as int].v());
        k += 1;
    }
    if k < rows.len() {
        assert(all[k as int] == rows@[k as int].v());
        if !list_has(rows[k].dicts.as_slice(), name.as_str()) {
            let row = rows.remove(k);
            let ghost was = strs(row.dicts@);
            let mut dicts = row.dicts;
            dicts.push(name);
            assert(strs(dicts@) =~= was.push(name@));
            let next = PitchRow { accent: row.accent, dicts };
            rows.insert(k, next);
            assert(pitch_v(rows@) =~= all.update(k as int, next.v()));
        }
    } else {
        let mut dicts: Vec<String> = Vec::new();
        dicts.push(name);
        assert(strs(dicts@) =~= seq![name@]);
        let row = PitchRow { accent, dicts };
        rows.push(row);
        assert(pitch_v(rows@) =~= all.push(row.v()));
    }
}

/// Orders some claims by the pitch list and joins equal positions.
pub fn rows_from_claims(claims: Vec<PitchClaim>, dicts: &[DictInfo], pitch: &[String]) -> (r: Vec<PitchRow>)
    ensures
        pitch_v(r@) == rows_of_claims(claims_v(claims@), infos_v(dicts@), strs(pitch@)),
{
    let ghost f = accent_view();
    let ghost cs = claims_v(claims@);
    let ghost ds = infos_v(dicts@);
    let ghost ps = strs(pitch@);
    let mut ranked: Vec<(usize, i64, (String, Accent))> = Vec::new();
    assert(keyed_map(ranked@, f) =~= seq![]);
    let mut i: usize = 0;
    while i < claims.len()
        invariant
            i <= claims@.len(),
            f == accent_view(),
            cs == claims_v(claims@),
            ds == infos_v(dicts@),
            ps == strs(pitch@),
            keyed_map(ranked@, f) == ranked_claims(cs, ds, ps, i as int),
        decreases claims@.len() - i,
    {
        let c = &claims[i];
        assert(cs[i as int] == c.v());
        if enabled_for(c.dict_id, dicts, pitch) {
            let name = dict_name_for(c.dict_id, dicts);
            let rank = rank_for(pitch, name.as_str());
            let accent = c.accent.clone();
            let ghost before = keyed_map(ranked@, f);
            let ghost add = (rank, c.dict_id, (name@, accent.v()));
            ranked.push((rank, c.dict_id, (name, accent)));
            assert(keyed_map(ranked@, f) =~= before.push(add));
        }
        i += 1;
    }
    proof {
        keyed_sort_maps(ranked@, f);
    }
    let sorted = sort_keyed(ranked);
    let ghost sv = keyed_map(sorted@, f);
    let mut rest = sorted;
    let mut out: Vec<PitchRow> = Vec::new();
    let ghost mut n: int = 0;
    assert(rest@ =~= sorted@.skip(0));
    assert(pitch_v(out@) =~= seq![]);
    while rest.len() > 0
        invariant
            0 <= n <= sorted@.len(),
            f == accent_view(),
            rest@ == sorted@.skip(n),
            sv == keyed_map(sorted@, f),
            pitch_v(out@) == accent_rows(sv, n),
        decreases rest@.len(),
    {
        let (_rank, _id, (name, accent)) = rest.remove(0);
        assert((name, accent) == sorted@[n].2);
        assert(sv[n].2 == (name@, accent.v()));
        assert(rest@ =~= sorted@.skip(n + 1));
        put_accent(&mut out, name, accent);
        proof {
            n = n + 1;
        }
    }
    out
}

/// One headword group.
struct Group<'a> {
    written: Option<String>,
    reading: Option<String>,
    hits: Vec<&'a Hit>,
}

/// What a group holds.
#[verifier::ext_equal]
pub struct GroupV {
    pub written: Option<Seq<char>>,
    pub reading: Option<Seq<char>>,
    pub hits: Seq<HitV>,
}

impl<'a> Group<'a> {
    spec fn v(self) -> GroupV {
        GroupV {
            written: opt_str(self.written),
            reading: opt_str(self.reading),
            hits: refs_v(self.hits@),
        }
    }
}

spec fn groups_v(s: Seq<Group<'_>>) -> Seq<GroupV> {
    s.map_values(|g: Group| g.v())
}

/// Does a claimed headword join a group: the same written form, and the same
/// reading or none on either side?
pub open spec fn joins(g: GroupV, written: Option<Seq<char>>, reading: Option<Seq<char>>) -> bool {
    g.written == written && (g.reading == reading || g.reading is None || reading is None)
}

/// Groups with one more hit, looked for from group `k` on. A group with no
/// reading takes the reading of the hit.
pub open spec fn hit_in(groups: Seq<GroupV>, hit: HitV, k: int) -> Seq<GroupV>
    decreases groups.len() - k,
{
    let (written, reading) = claimed(hit);
    if k >= groups.len() {
        groups.push(GroupV { written, reading, hits: seq![hit] })
    } else if joins(groups[k], written, reading) {
        groups.update(
            k,
            GroupV {
                written: groups[k].written,
                reading: if groups[k].reading is None {
                    reading
                } else {
                    groups[k].reading
                },
                hits: groups[k].hits.push(hit),
            },
        )
    } else {
        hit_in(groups, hit, k + 1)
    }
}

/// The groups of the first `n` hits. A disabled Dictionary's hit is no hit.
pub open spec fn groups_of(hits: Seq<HitV>, dicts: Seq<InfoV>, terms: Seq<Seq<char>>, n: int) -> Seq<GroupV>
    decreases n,
{
    if n <= 0 {
        seq![]
    } else {
        let before = groups_of(hits, dicts, terms, n - 1);
        if enabled_by(dicts, terms, hits[n - 1].entry.dict_id) {
            hit_in(before, hits[n - 1], 0)
        } else {
            before
        }
    }
}

/// The card of a group. The hits are in rank order, so the first one has the
/// highest rank.
pub open spec fn card_of<D: Dictionary>(g: GroupV, dicts: Seq<InfoV>, cfg: PresentV, dict: &D) -> CardV {
    let best = g.hits[0];
    let pos = display_tags(best.entry.pos);
    CardV {
        written: g.written,
        reading: g.reading,
        pos,
        freq: best.entry.reported_freq,
        blocks: deduped(blocks_of(g.hits, dicts, cfg.terms), pos),
        match_len: best.match_len,
        pitch: pitch_of(g.written, g.reading, dicts, cfg.pitch, dict),
    }
}

/// A text on one line: each break becomes the panel separator.
pub open spec fn on_one_line(s: Seq<char>) -> Seq<char> {
    replaced(s, '\n', "; "@)
}

/// A text of at most so many characters, marked where it was cut.
pub open spec fn shortened(s: Seq<char>, n: int) -> Seq<char> {
    if s.len() <= n {
        s
    } else {
        s.take(n).push('…')
    }
}

/// The first gloss of a card, or nothing.
pub open spec fn first_gloss(card: CardV) -> Seq<char> {
    if card.blocks.len() == 0 || card.blocks[0].glosses().len() == 0 {
        seq![]
    } else {
        card.blocks[0].glosses()[0]
    }
}

/// A card in one line.
pub open spec fn row_of_card(card: CardV, n: usize) -> CollapsedV {
    CollapsedV {
        written: card.written,
        reading: card.reading,
        summary: shortened(on_one_line(first_gloss(card)), n as int),
    }
}

/// Every card but the first, each in one line.
pub open spec fn rows_below(cards: Seq<CardV>, n: usize) -> Seq<CollapsedV> {
    Seq::new(
        if cards.len() == 0 {
            0
        } else {
            (cards.len() - 1) as nat
        },
        |i: int| row_of_card(cards[i + 1], n),
    )
}

/// The view model of some cards.
pub open spec fn model_of(cards: Seq<CardV>, n: usize) -> PresentationV {
    PresentationV {
        top: if cards.len() == 0 {
            None
        } else {
            Some(cards[0])
        },
        collapsed: rows_below(cards, n),
        all_cards: cards,
        sentence: None,
        surface: None,
    }
}

/// The cards of some hits.
pub open spec fn cards_of<D: Dictionary>(hits: Seq<HitV>, dicts: Seq<InfoV>, cfg: PresentV, dict: &D) -> Seq<
    CardV,
> {
    groups_of(hits, dicts, cfg.terms, hits.len() as int).map_values(
        |g: GroupV| card_of(g, dicts, cfg, dict),
    )
}

fn put_hit<'a>(groups: &mut Vec<Group<'a>>, hit: &'a Hit)
    ensures
        groups_v(final(groups)@) == hit_in(groups_v(old(groups)@), hit.v(), 0),
        (forall|k: int| 0 <= k < old(groups)@.len() ==> (#[trigger] old(groups)@[k]).hits@.len() > 0)
            ==> (forall|k: int|
            0 <= k < final(groups)@.len() ==> (#[trigger] final(groups)@[k]).hits@.len() > 0),
{
    let ghost all = groups_v(groups@);
    let ghost hv = hit.v();
    let (written, reading) = claim(hit);
    let mut k: usize = 0;
    while k < groups.len() && !(same_opt(&groups[k].written, &written) && (same_opt(
        &groups[k].reading,
        &reading,
    ) || groups[k].reading.is_none() || reading.is_none()))
        invariant
            k <= groups@.len(),
            groups@ == old(groups)@,
            all == groups_v(groups@),
            (opt_str(written), opt_str(reading)) == claimed(hv),
            hit_in(all, hv, 0) == hit_in(all, hv, k as int),
        decreases groups@.len() - k,
    {
        assert(all[k as int] == groups@[k as int].v());
        k += 1;
    }
    if k < groups.len() {
        assert(all[k as int] == groups@[k as int].v());
        let g = groups.remove(k);
        let mut hits = g.hits;
        let ghost was = refs_v(hits@);
        hits.push(hit);
        assert(refs_v(hits@) =~= was.push(hv));
        let next = Group {
            written: g.written,
            reading: if g.reading.is_none() {
                reading
            } else {
                g.reading
            },
            hits,
        };
        groups.insert(k, next);
        assert(groups_v(groups@) =~= all.update(k as int, next.v()));
        assert forall|j: int|
            (forall|i: int| 0 <= i < old(groups)@.len() ==> (#[trigger] old(groups)@[i]).hits@.len()
                > 0) && 0 <= j < groups@.len() implies (#[trigger] groups@[j]).hits@.len() > 0 by {
            if j != k {
                assert(groups@[j] == old(groups)@[j]);
            }
        }
    } else {
        let mut hits: Vec<&'a Hit> = Vec::new();
        hits.push(hit);
        assert(refs_v(hits@) =~= seq![hv]);
        let g = Group { written, reading, hits };
        groups.push(g);
        assert(groups_v(groups@) =~= all.push(g.v()));
    }
}

fn card_from_group<D: Dictionary>(g: Group<'_>, dicts: &[DictInfo], cfg: &PresentConfig, dict: &D) -> (r: Card)
    requires
        g.hits@.len() > 0,
    ensures
        r.v() == card_of(g.v(), infos_v(dicts@), cfg.v(), dict),
{
    let best = g.hits[0];
    assert(refs_v(g.hits@)[0] == best.v());
    let pos = definition_tags(&best.entry.pos);
    let blocks = ordered_blocks(&g.hits, dicts, cfg.terms.as_slice());
    // Start with the Card tag line above the first Dictionary heading.
    let blocks = dedupe_tags(blocks, copy_list(&pos));
    let pitch = pitch_rows(&g, dicts, cfg, dict);
    Card {
        written: g.written,
        reading: g.reading,
        pos,
        freq: best.entry.reported_freq,
        blocks,
        match_len: best.match_len,
        pitch,
    }
}

/// Collects PitchRow values for one Card.
///
/// The function makes one read for one `(headword, reading)` pair. The term
/// is the kanji headword. If no kanji headword exists, it is the reading.
fn pitch_rows<D: Dictionary>(g: &Group<'_>, dicts: &[DictInfo], cfg: &PresentConfig, dict: &D) -> (r: Vec<
    PitchRow,
>)
    ensures
        pitch_v(r@) == pitch_of(
            g.v().written,
            g.v().reading,
            infos_v(dicts@),
            strs(cfg.pitch@),
            dict,
        ),
{
    let none: Vec<PitchRow> = Vec::new();
    assert(pitch_v(none@) =~= seq![]);
    match &g.reading {
        None => none,
        Some(reading) => {
            if reading.as_str().is_empty() {
                return none;
            }
            let claims = match &g.written {
                Some(w) => dict.pitch_for(w.as_str(), reading.as_str()),
                None => dict.pitch_for(reading.as_str(), reading.as_str()),
            };
            rows_from_claims(claims, dicts, cfg.pitch.as_slice())
        },
    }
}

/// Builds the Presentation from Dictionary hits that already have rank order.
///
/// A hit joins the group with its written form and reading. A hit with no
/// reading joins the first group with its written form, and a group with no
/// reading takes the reading of the first hit that supplies one.
pub fn build<D: Dictionary>(hits: &[Hit], dicts: &[DictInfo], cfg: &PresentConfig, dict: &D) -> (r: Presentation)
    ensures
        r.v() == model_of(
            cards_of(hits_v(hits@), infos_v(dicts@), cfg.v(), dict),
            cfg.summary_chars,
        ),
{
    let ghost hs = hits_v(hits@);
    let ghost ds = infos_v(dicts@);
    let ghost cv = cfg.v();
    let mut groups: Vec<Group> = Vec::new();
    assert(groups_v(groups@) =~= seq![]);
    let mut i: usize = 0;
    while i < hits.len()
        invariant
            i <= hits@.len(),
            hs == hits_v(hits@),
            ds == infos_v(dicts@),
            cv == cfg.v(),
            groups_v(groups@) == groups_of(hs, ds, cv.terms, i as int),
            forall|k: int| 0 <= k < groups@.len() ==> (#[trigger] groups@[k]).hits@.len() > 0,
        decreases hits@.len() - i,
    {
        assert(hs[i as int] == hits@[i as int].v());
        if enabled_for(hits[i].entry.dict_id, dicts, cfg.terms.as_slice()) {
            put_hit(&mut groups, &hits[i]);
        }
        i += 1;
    }
    let ghost gs = groups_v(groups@);
    let ghost mk = |g: GroupV| card_of(g, ds, cv, dict);
    let ghost cards = gs.map_values(mk);
    let ghost left = groups@;
    let mut all_cards: Vec<Card> = Vec::new();
    let ghost mut n: int = 0;
    let mut rest = groups;
    assert(rest@ =~= left.skip(0));
    while rest.len() > 0
        invariant
            0 <= n <= left.len(),
            rest@ == left.skip(n),
            gs == groups_v(left),
            ds == infos_v(dicts@),
            cv == cfg.v(),
            mk == (|g: GroupV| card_of(g, ds, cv, dict)),
            cards == gs.map_values(mk),
            forall|k: int| 0 <= k < left.len() ==> (#[trigger] left[k]).hits@.len() > 0,
            cards_v(all_cards@) == cards.take(n),
        decreases rest@.len(),
    {
        let g = rest.remove(0);
        assert(g == left[n]);
        assert(gs[n] == g.v());
        assert(rest@ =~= left.skip(n + 1));
        let card = card_from_group(g, dicts, cfg, dict);
        let ghost before = cards_v(all_cards@);
        all_cards.push(card);
        assert(cards_v(all_cards@) =~= before.push(cards[n]));
        assert(cards.take(n + 1) =~= cards.take(n).push(cards[n]));
        proof {
            n = n + 1;
        }
    }
    assert(cards.take(n) =~= cards);
    let collapsed = rows_from_cards(&all_cards, cfg.summary_chars);
    let top = if all_cards.len() > 0 {
        Some(all_cards[0].clone())
    } else {
        None
    };
    Presentation { top, collapsed, all_cards, sentence: None, surface: None }
}

fn rows_from_cards(cards: &Vec<Card>, summary_chars: usize) -> (r: Vec<CollapsedRow>)
    ensures
        collapsed_v(r@) == rows_below(cards_v(cards@), summary_chars),
{
    let ghost want = rows_below(cards_v(cards@), summary_chars);
    let mut out: Vec<CollapsedRow> = Vec::new();
    assert(collapsed_v(out@) =~= want.take(0));
    let mut i: usize = 1;
    while i < cards.len()
        invariant
            1 <= i,
            if cards@.len() > 0 {
                i <= cards@.len()
            } else {
                i == 1
            },
            want == rows_below(cards_v(cards@), summary_chars),
            collapsed_v(out@) == want.take(i - 1),
        decreases cards@.len() - i,
    {
        let row = collapsed_from_card(&cards[i], summary_chars);
        assert(cards_v(cards@)[i as int] == cards@[i as int].v());
        let ghost before = collapsed_v(out@);
        out.push(row);
        assert(collapsed_v(out@) =~= before.push(want[i - 1]));
        assert(want.take(i as int) =~= want.take(i - 1).push(want[i - 1]));
        i += 1;
    }
    assert(cards_v(cards@).len() == cards@.len());
    assert(want.take(i - 1) =~= want);
    out
}

/// The character that a highlight starts at: the first one behind the
/// pointer's white space. A pointer that stands on no character start has none.
pub open spec fn highlight_from(span: &TextSpan) -> Option<int> {
    match at_byte(span.text@, 0, span.cursor_byte_offset as int) {
        None => None,
        Some(k) => Some(span.text@.len() - trim_start(span.text@.skip(k)).len()),
    }
}

/// The highlight of a match of some length, with a margin.
pub open spec fn highlight_of(span: &TextSpan, match_len: usize) -> Option<PhysRect> {
    match highlight_from(span) {
        None => None,
        Some(from) => match touched_hull(
            span.geom@,
            span.geom@.len() as int,
            from,
            match_len as int,
        ) {
            Some(e) => Some(padded(e, HIGHLIGHT_PAD as int)),
            None => None,
        },
    }
}

/// Can the highlight of a match be held?
pub open spec fn highlightable(span: &TextSpan, top: Option<&Card>) -> bool {
    match (top, highlight_from(span)) {
        (Some(card), Some(from)) => chars_holdable(
            span.geom@,
            from,
            card.match_len as int,
            HIGHLIGHT_PAD as int,
        ),
        _ => true,
    }
}

fn highlight_start(span: &TextSpan) -> (r: Option<usize>)
    ensures
        highlight_from(span) == (match r {
            Some(k) => Some(k as int),
            None => None,
        }),
{
    let chars = chars_of(span.text.as_str());
    match char_index(chars.as_slice(), span.cursor_byte_offset) {
        None => None,
        Some(k) => {
            let mut from = k;
            let ghost rest = chars@.skip(k as int);
            assert(rest.skip(0) =~= rest);
            while from < chars.len() && chars[from].is_whitespace()
                invariant
                    k <= from <= chars@.len(),
                    rest == chars@.skip(k as int),
                    trim_start(rest) == trim_start(rest.skip(from - k)),
                decreases chars@.len() - from,
            {
                assert(rest.skip(from - k).skip(1) =~= rest.skip(from + 1 - k));
                from += 1;
            }
            assert(trim_start(rest.skip(from - k)) == rest.skip(from - k));
            assert(chars@.len() - trim_start(rest).len() == from);
            Some(from)
        },
    }
}

/// Can the highlight of a match be held?
pub fn can_highlight(span: &TextSpan, top: Option<&Card>) -> (r: bool)
    ensures
        r == highlightable(span, top),
{
    match (top, highlight_start(span)) {
        (Some(card), Some(from)) => chars_join(&span.geom, from, card.match_len, HIGHLIGHT_PAD),
        _ => true,
    }
}

/// Computes the highlight rect for matched text from the cursor position.
pub fn match_highlight(span: &TextSpan, top: Option<&Card>) -> (r: Option<PhysRect>)
    requires
        highlightable(span, top),
    ensures
        r == (match top {
            None => None,
            Some(card) => highlight_of(span, card.match_len),
        }),
{
    match top {
        None => None,
        Some(card) => match highlight_start(span) {
            None => None,
            Some(from) => union_chars(&span.geom, from, card.match_len, HIGHLIGHT_PAD),
        },
    }
}

/// Converts a Card to a one-line CollapsedRow.
///
/// A Gloss can contain Dictionary line breaks, but a CollapsedRow has one
/// line. The limit counts visible characters.
pub fn collapsed_from_card(card: &Card, summary_chars: usize) -> (r: CollapsedRow)
    ensures
        r.v() == row_of_card(card.v(), summary_chars),
{
    let first = if card.blocks.len() == 0 {
        Vec::new()
    } else {
        assert(blocks_v(card.blocks@)[0] == card.blocks@[0].v());
        let glosses = card.blocks[0].glosses();
        assert(strs(glosses@).len() == glosses@.len());
        if glosses.len() == 0 {
            Vec::new()
        } else {
            assert(strs(glosses@)[0] == glosses@[0]@);
            chars_of(glosses[0].as_str())
        }
    };
    assert(first@ =~= first_gloss(card.v()));
    let line = replace_char(first.as_slice(), '\n', chars_of("; ").as_slice());
    CollapsedRow {
        written: copy_opt(&card.written),
        reading: copy_opt(&card.reading),
        summary: truncate_chars(line.as_slice(), summary_chars),
    }
}

/// Limits a text to a maximum number of characters.
fn truncate_chars(s: &[char], max_chars: usize) -> (r: String)
    ensures
        r@ == shortened(s@, max_chars as int),
{
    if s.len() <= max_chars {
        return string_of(s);
    }
    let mut head = copy_chars(slice_subrange(s, 0, max_chars));
    assert(head@ =~= s@.take(max_chars as int));
    head.push('…');
    string_of(head.as_slice())
}

/// Cards with a card moved to the top, in exchange for the top one.
pub open spec fn swapped(cards: Seq<CardV>, k: int) -> Seq<CardV> {
    cards.update(0, cards[k]).update(k, cards[0])
}

/// A view model with a collapsed row moved to the top.
pub open spec fn with_top(p: PresentationV, index: int, n: usize) -> PresentationV {
    if index + 1 >= p.all_cards.len() {
        p
    } else {
        let cards = swapped(p.all_cards, index + 1);
        PresentationV {
            top: Some(cards[0]),
            collapsed: rows_below(cards, n),
            all_cards: cards,
            ..p
        }
    }
}

/// Moves a selected CollapsedRow to the top.
pub fn swap_top(p: &mut Presentation, collapsed_index: usize, summary_chars: usize)
    requires
        collapsed_index < usize::MAX,
    ensures
        final(p).v() == with_top(old(p).v(), collapsed_index as int, summary_chars),
{
    let card_index = collapsed_index + 1;
    if card_index >= p.all_cards.len() {
        return;
    }
    let ghost all = cards_v(p.all_cards@);
    let mut cards: Vec<Card> = Vec::new();
    std::mem::swap(&mut cards, &mut p.all_cards);
    let picked = cards.remove(card_index);
    let first = cards.remove(0);
    cards.insert(0, picked);
    cards.insert(card_index, first);
    assert(cards_v(cards@) =~= swapped(all, card_index as int));
    p.top = Some(cards[0].clone());
    p.collapsed = rows_from_cards(&cards, summary_chars);
    p.all_cards = cards;
}

/// Swapping a row to the top and back restores the cards, and the top is the
/// first card again.
pub proof fn swapping_twice_restores_the_cards(p: PresentationV, index: int, n: usize)
    requires
        0 <= index,
        index + 1 < p.all_cards.len(),
    ensures
        ({
            let q = with_top(with_top(p, index, n), index, n);
            &&& q.all_cards == p.all_cards
            &&& q.top == Some(p.all_cards[0])
            &&& q.collapsed == rows_below(p.all_cards, n)
            &&& q.sentence == p.sentence
            &&& q.surface == p.surface
        }),
{
    assert(swapped(swapped(p.all_cards, index + 1), index + 1) =~= p.all_cards);
}

/// Every collapsed row is the one-line form of a card, the top is the first
/// card, and this stays so when a row is moved to the top.
pub proof fn a_swap_keeps_the_model_whole(p: PresentationV, index: int, n: usize)
    requires
        0 <= index,
        p.collapsed == rows_below(p.all_cards, n),
        p.top == model_of(p.all_cards, n).top,
    ensures
        ({
            let q = with_top(p, index, n);
            &&& q.collapsed == rows_below(q.all_cards, n)
            &&& q.top == model_of(q.all_cards, n).top
            &&& q.all_cards.len() == p.all_cards.len()
        }),
{
}

proof fn rows_keep_ids_apart(ranked: Seq<(usize, i64, BlockV)>, hit: HitV, dicts: Seq<InfoV>, terms: Seq<Seq<char>>, k: int)
    requires
        0 <= k <= ranked.len(),
        ids_apart(ranked),
        forall|j: int| 0 <= j < k ==> (#[trigger] ranked[j]).1 != hit.entry.dict_id,
    ensures
        ids_apart(row_in(ranked, hit, dicts, terms, k)),
    decreases ranked.len() - k,
{
    if k < ranked.len() && ranked[k].1 != hit.entry.dict_id {
        rows_keep_ids_apart(ranked, hit, dicts, terms, k + 1);
    } else if k < ranked.len() {
        let r = row_in(ranked, hit, dicts, terms, k);
        assert forall|i: int, j: int| 0 <= i < j < r.len() implies (#[trigger] r[i]).1 != (
        #[trigger] r[j]).1 by {
            assert(ranked[i].1 != ranked[j].1);
        }
        assert forall|i: int| 0 <= i < r.len() implies (#[trigger] r[i]).2.dict_id == r[i].1 by {
            assert(ranked[i].2.dict_id == ranked[i].1);
        }
    }
}

/// Is no Dictionary there twice?
spec fn ids_apart(ranked: Seq<(usize, i64, BlockV)>) -> bool {
    &&& forall|i: int, j: int|
        0 <= i < j < ranked.len() ==> (#[trigger] ranked[i]).1 != (#[trigger] ranked[j]).1
    &&& forall|i: int| 0 <= i < ranked.len() ==> (#[trigger] ranked[i]).2.dict_id == ranked[i].1
}

proof fn ranked_ids_apart(hits: Seq<HitV>, dicts: Seq<InfoV>, terms: Seq<Seq<char>>, n: int)
    ensures
        ids_apart(ranked_blocks(hits, dicts, terms, n)),
    decreases n,
{
    if n > 0 {
        ranked_ids_apart(hits, dicts, terms, n - 1);
        rows_keep_ids_apart(
            ranked_blocks(hits, dicts, terms, n - 1),
            hits[n - 1],
            dicts,
            terms,
            0,
        );
    }
}

proof fn keyed_in_holds<T>(list: Seq<(usize, i64, T)>, x: (usize, i64, T))
    ensures
        keyed_in(list, x).len() == list.len() + 1,
        forall|i: int|
            0 <= i < keyed_in(list, x).len() ==> list.contains(#[trigger] keyed_in(list, x)[i])
                || keyed_in(list, x)[i] == x,
    decreases list.len(),
{
    let r = keyed_in(list, x);
    if list.len() > 0 && keyed_first(x, list.last()) {
        keyed_in_holds(list.drop_last(), x);
        let p = keyed_in(list.drop_last(), x);
        assert forall|i: int| 0 <= i < r.len() implies list.contains(#[trigger] r[i]) || r[i] == x by {
            if i < p.len() {
                assert(r[i] == p[i]);
                if list.drop_last().contains(p[i]) {
                    let j = choose|j: int| 0 <= j < list.len() - 1 && list.drop_last()[j] == p[i];
                    assert(list[j] == p[i]);
                }
            } else {
                assert(list[list.len() - 1] == r[i]);
            }
        }
    } else {
        assert forall|i: int| 0 <= i < r.len() implies list.contains(#[trigger] r[i]) || r[i] == x by {
            if i < list.len() {
                assert(list[i] == r[i]);
            }
        }
    }
}

/// Does no item go before one that stands before it?
pub open spec fn keyed_ordered<T>(list: Seq<(usize, i64, T)>) -> bool {
    forall|i: int, j: int|
        0 <= i < j < list.len() ==> !keyed_first(#[trigger] list[j], #[trigger] list[i])
}

proof fn keyed_in_ordered<T>(list: Seq<(usize, i64, T)>, x: (usize, i64, T))
    requires
        keyed_ordered(list),
    ensures
        keyed_ordered(keyed_in(list, x)),
    decreases list.len(),
{
    let r = keyed_in(list, x);
    if list.len() > 0 && keyed_first(x, list.last()) {
        let front = list.drop_last();
        keyed_in_ordered(front, x);
        keyed_in_holds(front, x);
        let p = keyed_in(front, x);
        assert forall|i: int, j: int| 0 <= i < j < r.len() implies !keyed_first(
            #[trigger] r[j],
            #[trigger] r[i],
        ) by {
            if j == p.len() {
                assert(r[i] == p[i]);
                if front.contains(p[i]) {
                    let k = choose|k: int| 0 <= k < front.len() && front[k] == p[i];
                    assert(!keyed_first(list[list.len() - 1], list[k]));
                }
            } else {
                assert(r[j] == p[j] && r[i] == p[i]);
            }
        }
    } else {
        assert forall|i: int, j: int| 0 <= i < j < r.len() implies !keyed_first(
            #[trigger] r[j],
            #[trigger] r[i],
        ) by {
            if j == list.len() && i < list.len() - 1 {
                assert(!keyed_first(list[list.len() - 1], list[i]));
            }
        }
    }
}

/// A list sorted by rank and id is in order.
pub proof fn a_sorted_list_is_ordered<T>(list: Seq<(usize, i64, T)>)
    ensures
        keyed_ordered(keyed_sort(list)),
        keyed_sort(list).len() == list.len(),
    decreases list.len(),
{
    if list.len() > 0 {
        a_sorted_list_is_ordered(list.drop_last());
        keyed_in_ordered(keyed_sort(list.drop_last()), list.last());
        keyed_in_holds(keyed_sort(list.drop_last()), list.last());
    }
}

proof fn accent_in_apart(rows: Seq<PitchRowV>, name: Seq<char>, accent: AccentV, k: int)
    requires
        0 <= k <= rows.len(),
        positions_apart(rows),
        forall|j: int| 0 <= j < k ==> (#[trigger] rows[j]).accent.position != accent.position,
    ensures
        positions_apart(accent_in(rows, name, accent, k)),
    decreases rows.len() - k,
{
    if k < rows.len() && rows[k].accent.position != accent.position {
        accent_in_apart(rows, name, accent, k + 1);
    } else if k < rows.len() {
        let r = accent_in(rows, name, accent, k);
        assert forall|i: int, j: int| 0 <= i < j < r.len() implies (#[trigger] r[i]).accent.position != (
        #[trigger] r[j]).accent.position by {
            assert(rows[i].accent.position != rows[j].accent.position);
        }
    }
}

/// Do no two pitch rows show the same position?
pub open spec fn positions_apart(rows: Seq<PitchRowV>) -> bool {
    forall|i: int, j: int|
        0 <= i < j < rows.len() ==> (#[trigger] rows[i]).accent.position != (
        #[trigger] rows[j]).accent.position
}

/// A card shows each pitch position once, however many Dictionaries report
/// it.
pub proof fn a_position_is_shown_once(claims: Seq<ClaimV>, dicts: Seq<InfoV>, pitch: Seq<Seq<char>>)
    ensures
        positions_apart(rows_of_claims(claims, dicts, pitch)),
{
    let sorted = keyed_sort(ranked_claims(claims, dicts, pitch, claims.len() as int));
    accent_rows_apart(sorted, sorted.len() as int);
}

proof fn accent_rows_apart(sorted: Seq<(usize, i64, (Seq<char>, AccentV))>, n: int)
    ensures
        positions_apart(accent_rows(sorted, n)),
    decreases n,
{
    if n > 0 {
        accent_rows_apart(sorted, n - 1);
        accent_in_apart(accent_rows(sorted, n - 1), sorted[n - 1].2.0, sorted[n - 1].2.1, 0);
    }
}

proof fn keyed_in_apart<T>(list: Seq<(usize, i64, T)>, x: (usize, i64, T))
    requires
        forall|i: int, j: int|
            0 <= i < j < list.len() ==> (#[trigger] list[i]).1 != (#[trigger] list[j]).1,
        forall|i: int| 0 <= i < list.len() ==> (#[trigger] list[i]).1 != x.1,
    ensures
        forall|i: int, j: int|
            0 <= i < j < keyed_in(list, x).len() ==> (#[trigger] keyed_in(list, x)[i]).1 != (
            #[trigger] keyed_in(list, x)[j]).1,
    decreases list.len(),
{
    let r = keyed_in(list, x);
    if list.len() > 0 && keyed_first(x, list.last()) {
        let front = list.drop_last();
        keyed_in_apart(front, x);
        keyed_in_holds(front, x);
        let p = keyed_in(front, x);
        assert forall|i: int, j: int| 0 <= i < j < r.len() implies (#[trigger] r[i]).1 != (
        #[trigger] r[j]).1 by {
            assert(r[i] == p[i]);
            if j == p.len() {
                if front.contains(p[i]) {
                    let k = choose|k: int| 0 <= k < front.len() && front[k] == p[i];
                    assert(list[k].1 != list[list.len() - 1].1);
                } else {
                    assert(list[list.len() - 1].1 != x.1);
                }
            } else {
                assert(r[j] == p[j]);
            }
        }
    }
}

proof fn keyed_sort_apart<T>(list: Seq<(usize, i64, T)>)
    requires
        forall|i: int, j: int|
            0 <= i < j < list.len() ==> (#[trigger] list[i]).1 != (#[trigger] list[j]).1,
    ensures
        forall|i: int, j: int|
            0 <= i < j < keyed_sort(list).len() ==> (#[trigger] keyed_sort(list)[i]).1 != (
            #[trigger] keyed_sort(list)[j]).1,
        forall|i: int|
            0 <= i < keyed_sort(list).len() ==> list.contains(#[trigger] keyed_sort(list)[i]),
    decreases list.len(),
{
    if list.len() > 0 {
        let front = list.drop_last();
        let s = keyed_sort(front);
        keyed_sort_apart(front);
        assert forall|i: int| 0 <= i < s.len() implies (#[trigger] s[i]).1 != list.last().1 by {
            let k = choose|k: int| 0 <= k < front.len() && front[k] == s[i];
            assert(list[k].1 != list[list.len() - 1].1);
        }
        keyed_in_apart(s, list.last());
        keyed_in_holds(s, list.last());
        let r = keyed_sort(list);
        assert forall|i: int| 0 <= i < r.len() implies list.contains(#[trigger] r[i]) by {
            if s.contains(r[i]) {
                let j = choose|j: int| 0 <= j < s.len() && s[j] == r[i];
                let k = choose|k: int| 0 <= k < front.len() && front[k] == s[j];
                assert(list[k] == r[i]);
            } else {
                assert(list[list.len() - 1] == r[i]);
            }
        }
    }
}

/// A card has one block for each Dictionary, however many of its rows match.
pub proof fn a_dictionary_has_one_block(
    hits: Seq<HitV>,
    dicts: Seq<InfoV>,
    terms: Seq<Seq<char>>,
    i: int,
    j: int,
)
    requires
        0 <= i < j < blocks_of(hits, dicts, terms).len(),
    ensures
        blocks_of(hits, dicts, terms)[i].dict_id != blocks_of(hits, dicts, terms)[j].dict_id,
{
    let n = hits.len() as int;
    let ranked = ranked_blocks(hits, dicts, terms, n);
    ranked_ids_apart(hits, dicts, terms, n);
    keyed_sort_apart(ranked);
    let s = keyed_sort(ranked);
    let a = choose|k: int| 0 <= k < ranked.len() && ranked[k] == s[i];
    let b = choose|k: int| 0 <= k < ranked.len() && ranked[k] == s[j];
    assert(ranked.contains(s[i]));
    assert(ranked.contains(s[j]));
    assert(ranked[a].2.dict_id == ranked[a].1);
    assert(ranked[b].2.dict_id == ranked[b].1);
    assert(s[i].1 != s[j].1);
}

/// Is each ranked block under its own name's rank, and of a Dictionary that
/// one of the first `n` hits is of?
spec fn blocks_told(
    ranked: Seq<(usize, i64, BlockV)>,
    hits: Seq<HitV>,
    dicts: Seq<InfoV>,
    terms: Seq<Seq<char>>,
    n: int,
) -> bool {
    forall|k: int|
        0 <= k < ranked.len() ==> {
            let x = #[trigger] ranked[k];
            &&& x.2.dict_id == x.1
            &&& x.2.dict_name == shown_name(dicts, x.1)
            &&& x.0 == rank_of(terms, x.2.dict_name)
            &&& exists|h: int| 0 <= h < n && (#[trigger] hits[h]).entry.dict_id == x.1
        }
}

proof fn row_in_told(
    ranked: Seq<(usize, i64, BlockV)>,
    hits: Seq<HitV>,
    dicts: Seq<InfoV>,
    terms: Seq<Seq<char>>,
    n: int,
    k: int,
)
    requires
        0 < n <= hits.len(),
        0 <= k <= ranked.len(),
        blocks_told(ranked, hits, dicts, terms, n - 1),
    ensures
        blocks_told(row_in(ranked, hits[n - 1], dicts, terms, k), hits, dicts, terms, n),
    decreases ranked.len() - k,
{
    let id = hits[n - 1].entry.dict_id;
    if k < ranked.len() && ranked[k].1 != id {
        row_in_told(ranked, hits, dicts, terms, n, k + 1);
    } else {
        let r = row_in(ranked, hits[n - 1], dicts, terms, k);
        assert forall|j: int| 0 <= j < r.len() implies {
            let x = #[trigger] r[j];
            &&& x.2.dict_id == x.1
            &&& x.2.dict_name == shown_name(dicts, x.1)
            &&& x.0 == rank_of(terms, x.2.dict_name)
            &&& exists|h: int| 0 <= h < n && (#[trigger] hits[h]).entry.dict_id == x.1
        } by {
            if j == k {
                assert(hits[n - 1].entry.dict_id == r[j].1);
                if k < ranked.len() {
                    assert(ranked[k].2.dict_id == ranked[k].1);
                }
            } else {
                assert(r[j] == ranked[j]);
                let h = choose|h: int| 0 <= h < n - 1 && (#[trigger] hits[h]).entry.dict_id == ranked[j].1;
                assert(hits[h].entry.dict_id == r[j].1);
            }
        }
    }
}

proof fn ranked_told(hits: Seq<HitV>, dicts: Seq<InfoV>, terms: Seq<Seq<char>>, n: int)
    requires
        n <= hits.len(),
    ensures
        blocks_told(ranked_blocks(hits, dicts, terms, n), hits, dicts, terms, n),
    decreases n,
{
    if n > 0 {
        ranked_told(hits, dicts, terms, n - 1);
        row_in_told(ranked_blocks(hits, dicts, terms, n - 1), hits, dicts, terms, n, 0);
    }
}

/// The blocks of a card stand in the order of the terms list.
pub proof fn blocks_follow_the_list(
    hits: Seq<HitV>,
    dicts: Seq<InfoV>,
    terms: Seq<Seq<char>>,
    i: int,
    j: int,
)
    requires
        0 <= i < j < blocks_of(hits, dicts, terms).len(),
    ensures
        rank_of(terms, blocks_of(hits, dicts, terms)[i].dict_name) <= rank_of(
            terms,
            blocks_of(hits, dicts, terms)[j].dict_name,
        ),
{
    let n = hits.len() as int;
    let ranked = ranked_blocks(hits, dicts, terms, n);
    ranked_told(hits, dicts, terms, n);
    ranked_ids_apart(hits, dicts, terms, n);
    keyed_sort_apart(ranked);
    a_sorted_list_is_ordered(ranked);
    let s = keyed_sort(ranked);
    assert(ranked.contains(s[i]));
    assert(ranked.contains(s[j]));
    assert(!keyed_first(s[j], s[i]));
}

/// A block is of a Dictionary that one of its card's hits is of.
proof fn block_has_a_hit(hits: Seq<HitV>, dicts: Seq<InfoV>, terms: Seq<Seq<char>>, i: int)
    requires
        0 <= i < blocks_of(hits, dicts, terms).len(),
    ensures
        exists|h: int|
            0 <= h < hits.len() && (#[trigger] hits[h]).entry.dict_id == blocks_of(
                hits,
                dicts,
                terms,
            )[i].dict_id,
{
    let n = hits.len() as int;
    let ranked = ranked_blocks(hits, dicts, terms, n);
    ranked_told(hits, dicts, terms, n);
    ranked_ids_apart(hits, dicts, terms, n);
    keyed_sort_apart(ranked);
    let s = keyed_sort(ranked);
    assert(ranked.contains(s[i]));
}

/// Is every hit of every group one that a list of names enables?
spec fn groups_enabled(groups: Seq<GroupV>, dicts: Seq<InfoV>, terms: Seq<Seq<char>>) -> bool {
    forall|k: int, h: int|
        0 <= k < groups.len() && 0 <= h < groups[k].hits.len() ==> enabled_by(
            dicts,
            terms,
            (#[trigger] groups[k].hits[h]).entry.dict_id,
        )
}

proof fn hit_in_enabled(
    groups: Seq<GroupV>,
    hit: HitV,
    dicts: Seq<InfoV>,
    terms: Seq<Seq<char>>,
    k: int,
)
    requires
        0 <= k <= groups.len(),
        groups_enabled(groups, dicts, terms),
        enabled_by(dicts, terms, hit.entry.dict_id),
    ensures
        groups_enabled(hit_in(groups, hit, k), dicts, terms),
    decreases groups.len() - k,
{
    let (written, reading) = claimed(hit);
    if k < groups.len() && !joins(groups[k], written, reading) {
        hit_in_enabled(groups, hit, dicts, terms, k + 1);
    } else {
        let r = hit_in(groups, hit, k);
        assert forall|g: int, h: int| 0 <= g < r.len() && 0 <= h < r[g].hits.len() implies enabled_by(
            dicts,
            terms,
            (#[trigger] r[g].hits[h]).entry.dict_id,
        ) by {
            if g != k {
                assert(r[g] == groups[g]);
                assert(enabled_by(dicts, terms, groups[g].hits[h].entry.dict_id));
            } else if k < groups.len() && h < groups[k].hits.len() {
                assert(r[g].hits[h] == groups[k].hits[h]);
                assert(enabled_by(dicts, terms, groups[k].hits[h].entry.dict_id));
            } else {
                assert(r[g].hits[h] == hit);
            }
        }
    }
}

proof fn groups_are_enabled(hits: Seq<HitV>, dicts: Seq<InfoV>, terms: Seq<Seq<char>>, n: int)
    ensures
        groups_enabled(groups_of(hits, dicts, terms, n), dicts, terms),
    decreases n,
{
    if n > 0 {
        groups_are_enabled(hits, dicts, terms, n - 1);
        if enabled_by(dicts, terms, hits[n - 1].entry.dict_id) {
            hit_in_enabled(groups_of(hits, dicts, terms, n - 1), hits[n - 1], dicts, terms, 0);
        }
    }
}

/// No card has a block of a Dictionary that the terms list does not enable.
pub proof fn a_disabled_dictionary_is_not_shown<D: Dictionary>(
    hits: Seq<HitV>,
    dicts: Seq<InfoV>,
    cfg: PresentV,
    dict: &D,
    card: int,
    block: int,
)
    requires
        0 <= card < cards_of(hits, dicts, cfg, dict).len(),
        0 <= block < cards_of(hits, dicts, cfg, dict)[card].blocks.len(),
    ensures
        enabled_by(dicts, cfg.terms, cards_of(hits, dicts, cfg, dict)[card].blocks[block].dict_id),
{
    let n = hits.len() as int;
    let groups = groups_of(hits, dicts, cfg.terms, n);
    groups_are_enabled(hits, dicts, cfg.terms, n);
    let g = groups[card];
    block_has_a_hit(g.hits, dicts, cfg.terms, block);
    let id = blocks_of(g.hits, dicts, cfg.terms)[block].dict_id;
    let h = choose|h: int| 0 <= h < g.hits.len() && (#[trigger] g.hits[h]).entry.dict_id == id;
    assert(enabled_by(dicts, cfg.terms, groups[card].hits[h].entry.dict_id));
}

/// Is a hit in one of some groups?
pub open spec fn grouped(groups: Seq<GroupV>, hit: HitV) -> bool {
    exists|k: int| 0 <= k < groups.len() && (#[trigger] groups[k]).hits.contains(hit)
}

proof fn hit_in_holds(groups: Seq<GroupV>, hit: HitV, k: int)
    requires
        0 <= k <= groups.len(),
    ensures
        grouped(hit_in(groups, hit, k), hit),
        forall|x: HitV| #[trigger] grouped(groups, x) ==> grouped(hit_in(groups, hit, k), x),
    decreases groups.len() - k,
{
    let (written, reading) = claimed(hit);
    if k < groups.len() && !joins(groups[k], written, reading) {
        hit_in_holds(groups, hit, k + 1);
    } else {
        let r = hit_in(groups, hit, k);
        assert(r[k].hits.last() == hit);
        assert(r[k].hits.contains(hit));
        assert forall|x: HitV| #[trigger] grouped(groups, x) implies grouped(r, x) by {
            let g = choose|g: int| 0 <= g < groups.len() && (#[trigger] groups[g]).hits.contains(x);
            let h = choose|h: int| 0 <= h < groups[g].hits.len() && groups[g].hits[h] == x;
            assert(r[g].hits[h] == x);
            assert(r[g].hits.contains(x));
        }
    }
}

/// Every hit of an enabled Dictionary is on a card.
pub proof fn an_enabled_hit_is_shown(
    hits: Seq<HitV>,
    dicts: Seq<InfoV>,
    terms: Seq<Seq<char>>,
    n: int,
    i: int,
)
    requires
        0 <= i < n <= hits.len(),
        enabled_by(dicts, terms, hits[i].entry.dict_id),
    ensures
        grouped(groups_of(hits, dicts, terms, n), hits[i]),
    decreases n,
{
    let before = groups_of(hits, dicts, terms, n - 1);
    if i < n - 1 {
        an_enabled_hit_is_shown(hits, dicts, terms, n - 1, i);
    }
    if enabled_by(dicts, terms, hits[n - 1].entry.dict_id) {
        hit_in_holds(before, hits[n - 1], 0);
    }
}

/// No group's headword joins another group.
spec fn groups_apart(groups: Seq<GroupV>) -> bool {
    forall|i: int, j: int|
        #![trigger groups[i], groups[j]]
        0 <= i < groups.len() && 0 <= j < groups.len() && i != j ==> !joins(
            groups[i],
            groups[j].written,
            groups[j].reading,
        )
}

proof fn hit_in_apart(groups: Seq<GroupV>, hit: HitV, k: int)
    requires
        0 <= k <= groups.len(),
        groups_apart(groups),
        forall|j: int|
            0 <= j < k ==> !joins(#[trigger] groups[j], claimed(hit).0, claimed(hit).1),
    ensures
        groups_apart(hit_in(groups, hit, k)),
    decreases groups.len() - k,
{
    let (written, reading) = claimed(hit);
    if k < groups.len() && !joins(groups[k], written, reading) {
        hit_in_apart(groups, hit, k + 1);
    } else {
        let now = hit_in(groups, hit, k);
        assert forall|i: int, j: int|
            #![trigger now[i], now[j]]
            0 <= i < now.len() && 0 <= j < now.len() && i != j implies !joins(
            now[i],
            now[j].written,
            now[j].reading,
        ) by {
            if i != k && j != k {
                assert(now[i] == groups[i] && now[j] == groups[j]);
            } else if k < groups.len() {
                assert(!joins(groups[i], groups[j].written, groups[j].reading));
            }
        }
    }
}

proof fn groups_stay_apart(hits: Seq<HitV>, dicts: Seq<InfoV>, terms: Seq<Seq<char>>, n: int)
    ensures
        groups_apart(groups_of(hits, dicts, terms, n)),
    decreases n,
{
    if n > 0 {
        groups_stay_apart(hits, dicts, terms, n - 1);
        hit_in_apart(groups_of(hits, dicts, terms, n - 1), hits[n - 1], 0);
    }
}

/// No two cards have the same heading: two with the same written form have
/// two different readings.
pub proof fn headings_are_distinct<D: Dictionary>(
    hits: Seq<HitV>,
    dicts: Seq<InfoV>,
    cfg: PresentV,
    dict: &D,
    i: int,
    j: int,
)
    requires
        0 <= i < j < cards_of(hits, dicts, cfg, dict).len(),
    ensures
        ({
            let a = cards_of(hits, dicts, cfg, dict)[i];
            let b = cards_of(hits, dicts, cfg, dict)[j];
            &&& (a.written, a.reading) != (b.written, b.reading)
            &&& a.written == b.written ==> a.reading is Some && b.reading is Some
        }),
{
    groups_stay_apart(hits, dicts, cfg.terms, hits.len() as int);
    let groups = groups_of(hits, dicts, cfg.terms, hits.len() as int);
    assert(!joins(groups[i], groups[j].written, groups[j].reading));
}

/// A name's rank is its first place in a list, and a name that is not there
/// has none.
pub proof fn a_rank_is_the_first_place(list: Seq<Seq<char>>, name: Seq<char>)
    ensures
        match rank_in(list, name) {
            Some(k) => {
                &&& 0 <= k < list.len()
                &&& list[k] == name
                &&& forall|j: int| 0 <= j < k ==> #[trigger] list[j] != name
            },
            None => !list.contains(name),
        },
    decreases list.len(),
{
    if list.len() > 0 && list[0] != name {
        let rest = list.skip(1);
        a_rank_is_the_first_place(rest, name);
        match rank_in(rest, name) {
            Some(k) => {
                assert(list[k + 1] == rest[k]);
                assert forall|j: int| 0 <= j < k + 1 implies #[trigger] list[j] != name by {
                    if j > 0 {
                        assert(rest[j - 1] == list[j]);
                    }
                }
            },
            None => {
                if list.contains(name) {
                    let j = choose|j: int| 0 <= j < list.len() && list[j] == name;
                    assert(rest[j - 1] == name);
                }
            },
        }
    }
}

/// A Dictionary is shown under the name that stands first beside its id, and
/// is enabled exactly where the list has that name; one that nobody knows is
/// enabled.
pub proof fn a_dictionary_goes_by_its_name(dicts: Seq<InfoV>, list: Seq<Seq<char>>, id: i64, k: int)
    requires
        0 <= k < dicts.len(),
        dicts[k].dict_id == id,
        forall|j: int| 0 <= j < k ==> (#[trigger] dicts[j]).dict_id != id,
    ensures
        shown_name(dicts, id) == dicts[k].name,
        enabled_by(dicts, list, id) <==> list.contains(dicts[k].name),
    decreases k,
{
    if k > 0 {
        assert(dicts[0].dict_id != id);
        let rest = dicts.skip(1);
        assert forall|j: int| 0 <= j < k - 1 implies (#[trigger] rest[j]).dict_id != id by {
            assert(dicts[j + 1].dict_id != id);
        }
        a_dictionary_goes_by_its_name(rest, list, id, k - 1);
    }
}

/// A Dictionary whose id nobody knows is enabled by every list.
pub proof fn an_unknown_dictionary_is_enabled(dicts: Seq<InfoV>, list: Seq<Seq<char>>, id: i64)
    requires
        forall|j: int| 0 <= j < dicts.len() ==> (#[trigger] dicts[j]).dict_id != id,
    ensures
        enabled_by(dicts, list, id),
        shown_name(dicts, id) == "dict "@ + signed(id as int),
    decreases dicts.len(),
{
    if dicts.len() > 0 {
        assert(dicts[0].dict_id != id);
        let rest = dicts.skip(1);
        assert forall|j: int| 0 <= j < rest.len() implies (#[trigger] rest[j]).dict_id != id by {
            assert(dicts[j + 1].dict_id != id);
        }
        an_unknown_dictionary_is_enabled(rest, list, id);
    }
}

// ---- what the cards hold ----

/// Has every hit of a group the group's written form, and its reading where it
/// claims one?
pub open spec fn one_headword(g: GroupV) -> bool {
    &&& g.hits.len() > 0
    &&& forall|h: int|
        0 <= h < g.hits.len() ==> claimed(#[trigger] g.hits[h]).0 == g.written && (claimed(
            g.hits[h],
        ).1 is None || claimed(g.hits[h]).1 == g.reading)
    &&& g.reading is Some ==> exists|h: int|
        0 <= h < g.hits.len() && claimed(#[trigger] g.hits[h]).1 == g.reading
}

/// Has every group one headword?
pub open spec fn each_one_headword(groups: Seq<GroupV>) -> bool {
    forall|g: int| 0 <= g < groups.len() ==> one_headword(#[trigger] groups[g])
}

proof fn hit_in_one_headword(groups: Seq<GroupV>, hit: HitV, k: int)
    requires
        0 <= k <= groups.len(),
        each_one_headword(groups),
    ensures
        each_one_headword(hit_in(groups, hit, k)),
    decreases groups.len() - k,
{
    let (written, reading) = claimed(hit);
    if k < groups.len() && !joins(groups[k], written, reading) {
        hit_in_one_headword(groups, hit, k + 1);
        assert(hit_in(groups, hit, k) == hit_in(groups, hit, k + 1));
    } else {
        let r = hit_in(groups, hit, k);
        assert forall|g: int| 0 <= g < r.len() implies one_headword(#[trigger] r[g]) by {
            if g != k {
                assert(r[g] == groups[g]);
            } else if k < groups.len() {
                let old_g = groups[k];
                let new_g = r[k];
                let n = old_g.hits.len() as int;
                assert(one_headword(old_g));
                assert(new_g.hits[n] == hit);
                assert forall|h: int| 0 <= h < new_g.hits.len() implies claimed(
                    #[trigger] new_g.hits[h],
                ).0 == new_g.written && (claimed(new_g.hits[h]).1 is None || claimed(
                    new_g.hits[h],
                ).1 == new_g.reading) by {
                    if h < n {
                        assert(new_g.hits[h] == old_g.hits[h]);
                    }
                }
                if old_g.reading is Some {
                    let h = choose|h: int|
                        0 <= h < n && claimed(#[trigger] old_g.hits[h]).1 == old_g.reading;
                    assert(new_g.hits[h] == old_g.hits[h]);
                }
            } else {
                assert(r[k].hits[0] == hit);
            }
        }
    }
}

/// A card has one headword: every hit on it is written as the card is, and
/// reads as the card does where it says how it reads.
pub proof fn a_card_has_one_headword(
    hits: Seq<HitV>,
    dicts: Seq<InfoV>,
    terms: Seq<Seq<char>>,
    n: int,
)
    ensures
        each_one_headword(groups_of(hits, dicts, terms, n)),
    decreases n,
{
    if n > 0 {
        a_card_has_one_headword(hits, dicts, terms, n - 1);
        if enabled_by(dicts, terms, hits[n - 1].entry.dict_id) {
            hit_in_one_headword(groups_of(hits, dicts, terms, n - 1), hits[n - 1], 0);
        }
    }
}

/// Do the hits of each group, and the first hits of the groups, stand longest
/// first, and none below a length?
spec fn groups_ranked(groups: Seq<GroupV>, least: int) -> bool {
    &&& forall|g: int| 0 <= g < groups.len() ==> (#[trigger] groups[g]).hits.len() > 0
    &&& forall|g: int, h: int|
        0 <= g < groups.len() && 0 <= h < groups[g].hits.len() ==> least <= (
        #[trigger] groups[g].hits[h]).match_len <= groups[g].hits[0].match_len
    &&& forall|a: int, b: int|
        0 <= a < b < groups.len() ==> (#[trigger] groups[a]).hits[0].match_len >= (
        #[trigger] groups[b]).hits[0].match_len
}

proof fn hit_in_ranked(groups: Seq<GroupV>, hit: HitV, k: int)
    requires
        0 <= k <= groups.len(),
        groups_ranked(groups, hit.match_len as int),
    ensures
        groups_ranked(hit_in(groups, hit, k), hit.match_len as int),
    decreases groups.len() - k,
{
    let (written, reading) = claimed(hit);
    if k < groups.len() && !joins(groups[k], written, reading) {
        hit_in_ranked(groups, hit, k + 1);
    } else {
        let r = hit_in(groups, hit, k);
        let least = hit.match_len as int;
        assert forall|g: int| 0 <= g < groups.len() implies (#[trigger] r[g]).hits[0]
            == groups[g].hits[0] && r[g].hits.len() > 0 by {
            assert(groups[g].hits.len() > 0);
        }
        assert forall|g: int, h: int| 0 <= g < r.len() && 0 <= h < r[g].hits.len() implies least <= (
        #[trigger] r[g].hits[h]).match_len <= r[g].hits[0].match_len by {
            if g < groups.len() {
                assert(r[g].hits[0] == groups[g].hits[0]);
                assert(least <= groups[g].hits[0].match_len);
                if h < groups[g].hits.len() {
                    assert(r[g].hits[h] == groups[g].hits[h]);
                }
            }
        }
        assert forall|a: int, b: int| 0 <= a < b < r.len() implies (
        #[trigger] r[a]).hits[0].match_len >= (#[trigger] r[b]).hits[0].match_len by {
            assert(r[a].hits[0] == groups[a].hits[0]);
            assert(least <= groups[a].hits[0].match_len);
            if b < groups.len() {
                assert(r[b].hits[0] == groups[b].hits[0]);
            }
        }
    }
}

proof fn groups_stay_ranked(hits: Seq<HitV>, dicts: Seq<InfoV>, terms: Seq<Seq<char>>, n: int)
    requires
        0 <= n <= hits.len(),
        forall|i: int, j: int|
            0 <= i < j < hits.len() ==> (#[trigger] hits[i]).match_len >= (
            #[trigger] hits[j]).match_len,
    ensures
        groups_ranked(
            groups_of(hits, dicts, terms, n),
            if n > 0 {
                hits[n - 1].match_len as int
            } else {
                0
            },
        ),
    decreases n,
{
    if n > 0 {
        groups_stay_ranked(hits, dicts, terms, n - 1);
        let before = groups_of(hits, dicts, terms, n - 1);
        if n > 1 {
            assert(hits[n - 2].match_len >= hits[n - 1].match_len);
        }
        assert(groups_ranked(before, hits[n - 1].match_len as int));
        if enabled_by(dicts, terms, hits[n - 1].entry.dict_id) {
            hit_in_ranked(before, hits[n - 1], 0);
        }
    }
}

/// Cards stand longest match first, and a card tells the longest match of its
/// hits.
pub proof fn a_card_tells_its_longest_match<D: Dictionary>(
    hits: Seq<HitV>,
    dicts: Seq<InfoV>,
    cfg: PresentV,
    dict: &D,
    card: int,
)
    requires
        forall|i: int, j: int|
            0 <= i < j < hits.len() ==> (#[trigger] hits[i]).match_len >= (
            #[trigger] hits[j]).match_len,
        0 <= card < cards_of(hits, dicts, cfg, dict).len(),
    ensures
        ({
            let cards = cards_of(hits, dicts, cfg, dict);
            let g = groups_of(hits, dicts, cfg.terms, hits.len() as int)[card];
            &&& cards[card].written == g.written
            &&& cards[card].reading == g.reading
            &&& forall|h: int|
                0 <= h < g.hits.len() ==> (#[trigger] g.hits[h]).match_len <= cards[card].match_len
            &&& exists|h: int|
                0 <= h < g.hits.len() && (#[trigger] g.hits[h]).match_len == cards[card].match_len
                    && g.hits[h].entry.reported_freq == cards[card].freq
            &&& forall|later: int|
                card < later < cards.len() ==> (#[trigger] cards[later]).match_len
                    <= cards[card].match_len
        }),
{
    let n = hits.len() as int;
    groups_stay_ranked(hits, dicts, cfg.terms, n);
    let groups = groups_of(hits, dicts, cfg.terms, n);
    let cards = cards_of(hits, dicts, cfg, dict);
    let g = groups[card];
    assert(g.hits.len() > 0);
    assert(g.hits[0].match_len == cards[card].match_len);
    assert forall|later: int| card < later < cards.len() implies (#[trigger] cards[later]).match_len
        <= cards[card].match_len by {
        assert(groups[card].hits[0].match_len >= groups[later].hits[0].match_len);
    }
}

// ---- what the blocks hold ----

/// Is a row among the rows of the block of a Dictionary?
pub open spec fn row_shown(blocks: Seq<BlockV>, id: i64, entry_id: i64, doc: DocV) -> bool {
    exists|b: int, e: int|
        0 <= b < blocks.len() && 0 <= e < blocks[b].entries.len() && blocks[b].dict_id == id && (
        #[trigger] blocks[b].entries[e]).entry_id == entry_id && blocks[b].entries[e].doc == doc
}

spec fn row_ranked(ranked: Seq<(usize, i64, BlockV)>, hit: HitV) -> bool {
    exists|b: int, e: int|
        0 <= b < ranked.len() && 0 <= e < ranked[b].2.entries.len() && ranked[b].1
            == hit.entry.dict_id && (#[trigger] ranked[b].2.entries[e]) == row_of(hit)
}

proof fn row_in_holds(
    ranked: Seq<(usize, i64, BlockV)>,
    hit: HitV,
    dicts: Seq<InfoV>,
    terms: Seq<Seq<char>>,
    k: int,
)
    requires
        0 <= k <= ranked.len(),
    ensures
        row_ranked(row_in(ranked, hit, dicts, terms, k), hit),
        forall|x: HitV|
            #[trigger] row_ranked(ranked, x) ==> row_ranked(row_in(ranked, hit, dicts, terms, k), x),
    decreases ranked.len() - k,
{
    let id = hit.entry.dict_id;
    if k < ranked.len() && ranked[k].1 != id {
        row_in_holds(ranked, hit, dicts, terms, k + 1);
    } else {
        let r = row_in(ranked, hit, dicts, terms, k);
        let last = r[k].2.entries.len() - 1;
        assert(r[k].2.entries[last] == row_of(hit));
        assert forall|x: HitV| #[trigger] row_ranked(ranked, x) implies row_ranked(r, x) by {
            let (b, e) = choose|b: int, e: int|
                0 <= b < ranked.len() && 0 <= e < ranked[b].2.entries.len() && ranked[b].1
                    == x.entry.dict_id && (#[trigger] ranked[b].2.entries[e]) == row_of(x);
            assert(r[b].2.entries[e] == row_of(x));
        }
    }
}

proof fn every_row_is_ranked(
    hits: Seq<HitV>,
    dicts: Seq<InfoV>,
    terms: Seq<Seq<char>>,
    n: int,
    i: int,
)
    requires
        0 <= i < n <= hits.len(),
    ensures
        row_ranked(ranked_blocks(hits, dicts, terms, n), hits[i]),
    decreases n,
{
    if i < n - 1 {
        every_row_is_ranked(hits, dicts, terms, n - 1, i);
    }
    row_in_holds(ranked_blocks(hits, dicts, terms, n - 1), hits[n - 1], dicts, terms, 0);
}

proof fn keyed_in_keeps<T>(list: Seq<(usize, i64, T)>, x: (usize, i64, T), y: (usize, i64, T))
    requires
        list.contains(y) || y == x,
    ensures
        keyed_in(list, x).contains(y),
    decreases list.len(),
{
    let r = keyed_in(list, x);
    if list.len() > 0 && keyed_first(x, list.last()) {
        let front = list.drop_last();
        let p = keyed_in(front, x);
        if y == list.last() {
            assert(r[p.len() as int] == y);
        } else {
            if y != x {
                let j = choose|j: int| 0 <= j < list.len() && list[j] == y;
                assert(front[j] == y);
            }
            keyed_in_keeps(front, x, y);
            let j = choose|j: int| 0 <= j < p.len() && p[j] == y;
            assert(r[j] == y);
        }
    } else if y == x {
        assert(r[list.len() as int] == y);
    } else {
        let j = choose|j: int| 0 <= j < list.len() && list[j] == y;
        assert(r[j] == y);
    }
}

/// Sorting loses nothing.
pub proof fn a_sorted_list_keeps_its_items<T>(list: Seq<(usize, i64, T)>, y: (usize, i64, T))
    requires
        list.contains(y),
    ensures
        keyed_sort(list).contains(y),
    decreases list.len(),
{
    let front = list.drop_last();
    let j = choose|j: int| 0 <= j < list.len() && list[j] == y;
    if j < front.len() {
        assert(front[j] == y);
        a_sorted_list_keeps_its_items(front, y);
    } else {
        assert(y == list.last());
    }
    keyed_in_keeps(keyed_sort(front), list.last(), y);
}

/// Every hit of a card is a row of the block of its Dictionary, with its
/// Entry's id and its gloss.
pub proof fn every_hit_is_a_row(hits: Seq<HitV>, dicts: Seq<InfoV>, terms: Seq<Seq<char>>, i: int)
    requires
        0 <= i < hits.len(),
    ensures
        row_shown(
            blocks_of(hits, dicts, terms),
            hits[i].entry.dict_id,
            hits[i].entry.entry_id,
            hits[i].entry.gloss,
        ),
{
    let n = hits.len() as int;
    let ranked = ranked_blocks(hits, dicts, terms, n);
    every_row_is_ranked(hits, dicts, terms, n, i);
    ranked_told(hits, dicts, terms, n);
    let (b, e) = choose|b: int, e: int|
        0 <= b < ranked.len() && 0 <= e < ranked[b].2.entries.len() && ranked[b].1
            == hits[i].entry.dict_id && (#[trigger] ranked[b].2.entries[e]) == row_of(hits[i]);
    assert(ranked.contains(ranked[b]));
    a_sorted_list_keeps_its_items(ranked, ranked[b]);
    let s = keyed_sort(ranked);
    let k = choose|k: int| 0 <= k < s.len() && s[k] == ranked[b];
    let blocks = blocks_of(hits, dicts, terms);
    assert(blocks[k] == s[k].2);
    assert(blocks[k].entries[e] == row_of(hits[i]));
    assert(ranked[b].2.dict_id == ranked[b].1);
}

/// A number is no part of speech: of a row's tags those that are digits alone
/// are left out, and no other.
pub proof fn no_number_is_a_part_of_speech(pos: Seq<Seq<char>>, t: Seq<char>)
    ensures
        display_tags(pos).contains(t) <==> pos.contains(t) && (trim(t).len() == 0 || exists|i: int|
            0 <= i < trim(t).len() && !numeric(#[trigger] trim(t)[i])),
{
    crate::chars::a_filter_leaves_what_it_wants(pos, |x: Seq<char>| !number_tag(x), t);
}

/// A row says its tags unless the row before said the same: nothing else of it
/// changes, and no block does.
pub proof fn tags_are_said_where_they_change(
    blocks: Seq<BlockV>,
    start: Seq<Seq<char>>,
    b: int,
    e: int,
)
    requires
        0 <= b < blocks.len(),
        0 <= e < blocks[b].entries.len(),
    ensures
        ({
            let row = blocks[b].entries[e];
            let said = deduped(blocks, start)[b].entries[e];
            &&& deduped(blocks, start).len() == blocks.len()
            &&& deduped(blocks, start)[b].entries.len() == blocks[b].entries.len()
            &&& deduped(blocks, start)[b].dict_id == blocks[b].dict_id
            &&& deduped(blocks, start)[b].dict_name == blocks[b].dict_name
            &&& said.entry_id == row.entry_id
            &&& said.glosses == row.glosses
            &&& said.doc == row.doc
            &&& said.media == row.media
            &&& said.tags == row.tags || said.tags.len() == 0
            &&& e > 0 ==> (said.tags == row.tags <==> row.tags.len() == 0 || row.tags
                != blocks[b].entries[e - 1].tags)
            &&& e == 0 && b == 0 ==> (said.tags == row.tags <==> row.tags.len() == 0 || row.tags
                != start)
            &&& e == 0 && b > 0 && blocks[b - 1].entries.len() > 0 ==> (said.tags == row.tags
                <==> row.tags.len() == 0 || row.tags != blocks[b - 1].entries.last().tags)
        }),
{
    let row = blocks[b].entries[e];
    if row.tags.len() == 0 {
        assert(row.tags =~= seq![]);
    }
}

// ---- what the pitch rows hold ----

/// Is an Accent at a position shown, with a Dictionary's name?
pub open spec fn accent_shown(rows: Seq<PitchRowV>, name: Seq<char>, accent: AccentV) -> bool {
    exists|r: int|
        0 <= r < rows.len() && (#[trigger] rows[r]).accent.position == accent.position
            && rows[r].dicts.contains(name)
}

/// Do rows and the names on each of them stand by their rank, up to a rank?
spec fn rows_ranked(rows: Seq<PitchRowV>, pitch: Seq<Seq<char>>, most: usize) -> bool {
    &&& forall|r: int| 0 <= r < rows.len() ==> (#[trigger] rows[r]).dicts.len() > 0
    &&& forall|r: int, d: int|
        0 <= r < rows.len() && 0 <= d < rows[r].dicts.len() ==> rank_of(
            pitch,
            #[trigger] rows[r].dicts[d],
        ) <= most
    &&& forall|r: int, d: int, e: int|
        0 <= r < rows.len() && 0 <= d < e < rows[r].dicts.len() ==> rank_of(
            pitch,
            #[trigger] rows[r].dicts[d],
        ) <= rank_of(pitch, #[trigger] rows[r].dicts[e])
    &&& forall|q: int, r: int|
        0 <= q < r < rows.len() ==> rank_of(pitch, (#[trigger] rows[q]).dicts[0]) <= rank_of(
            pitch,
            (#[trigger] rows[r]).dicts[0],
        )
}

proof fn accent_in_ranked(
    rows: Seq<PitchRowV>,
    pitch: Seq<Seq<char>>,
    name: Seq<char>,
    accent: AccentV,
    k: int,
)
    requires
        0 <= k <= rows.len(),
        rows_ranked(rows, pitch, rank_of(pitch, name)),
    ensures
        rows_ranked(accent_in(rows, name, accent, k), pitch, rank_of(pitch, name)),
        accent_shown(accent_in(rows, name, accent, k), name, accent),
        forall|n: Seq<char>, a: AccentV|
            #[trigger] accent_shown(rows, n, a) ==> accent_shown(
                accent_in(rows, name, accent, k),
                n,
                a,
            ),
    decreases rows.len() - k,
{
    let most = rank_of(pitch, name);
    if k < rows.len() && rows[k].accent.position != accent.position {
        accent_in_ranked(rows, pitch, name, accent, k + 1);
    } else {
        let out = accent_in(rows, name, accent, k);
        assert forall|r: int| 0 <= r < rows.len() implies (#[trigger] out[r]).dicts.len() > 0
            && out[r].dicts[0] == rows[r].dicts[0] by {
            assert(rows[r].dicts.len() > 0);
        }
        assert forall|r: int, d: int| 0 <= r < out.len() && 0 <= d < out[r].dicts.len() implies rank_of(
            pitch,
            #[trigger] out[r].dicts[d],
        ) <= most by {
            if r < rows.len() && d < rows[r].dicts.len() {
                assert(out[r].dicts[d] == rows[r].dicts[d]);
            }
        }
        assert forall|r: int, d: int, e: int|
            0 <= r < out.len() && 0 <= d < e < out[r].dicts.len() implies rank_of(
            pitch,
            #[trigger] out[r].dicts[d],
        ) <= rank_of(pitch, #[trigger] out[r].dicts[e]) by {
            if r < rows.len() {
                assert(out[r].dicts[d] == rows[r].dicts[d]);
                if e < rows[r].dicts.len() {
                    assert(out[r].dicts[e] == rows[r].dicts[e]);
                }
            }
        }
        assert forall|q: int, r: int| 0 <= q < r < out.len() implies rank_of(
            pitch,
            (#[trigger] out[q]).dicts[0],
        ) <= rank_of(pitch, (#[trigger] out[r]).dicts[0]) by {
            assert(out[q].dicts[0] == rows[q].dicts[0]);
            if r < rows.len() {
                assert(out[r].dicts[0] == rows[r].dicts[0]);
            }
        }
        if k < rows.len() && rows[k].dicts.contains(name) {
            assert(out[k].dicts.contains(name));
        } else {
            let last = out[k].dicts.len() - 1;
            assert(out[k].dicts[last] == name);
            assert(out[k].accent.position == accent.position);
        }
        assert forall|n: Seq<char>, a: AccentV| #[trigger] accent_shown(rows, n, a) implies accent_shown(
            out,
            n,
            a,
        ) by {
            let r = choose|r: int|
                0 <= r < rows.len() && (#[trigger] rows[r]).accent.position == a.position
                    && rows[r].dicts.contains(n);
            let d = choose|d: int| 0 <= d < rows[r].dicts.len() && rows[r].dicts[d] == n;
            assert(out[r].dicts[d] == n);
            assert(out[r].accent.position == a.position);
        }
    }
}

spec fn claims_ranked(
    sorted: Seq<(usize, i64, (Seq<char>, AccentV))>,
    pitch: Seq<Seq<char>>,
) -> bool {
    forall|m: int|
        0 <= m < sorted.len() ==> (#[trigger] sorted[m]).0 == rank_of(pitch, sorted[m].2.0)
}

proof fn accent_rows_ranked(
    sorted: Seq<(usize, i64, (Seq<char>, AccentV))>,
    pitch: Seq<Seq<char>>,
    n: int,
    i: int,
)
    requires
        0 <= n <= sorted.len(),
        keyed_ordered(sorted),
        claims_ranked(sorted, pitch),
    ensures
        rows_ranked(
            accent_rows(sorted, n),
            pitch,
            if n > 0 {
                sorted[n - 1].0
            } else {
                0
            },
        ),
        0 <= i < n ==> accent_shown(accent_rows(sorted, n), sorted[i].2.0, sorted[i].2.1),
    decreases n,
{
    if n > 0 {
        accent_rows_ranked(sorted, pitch, n - 1, i);
        let before = accent_rows(sorted, n - 1);
        let most = sorted[n - 1].0;
        if n > 1 {
            assert(!keyed_first(sorted[n - 1], sorted[n - 2]));
        }
        assert(rows_ranked(before, pitch, most));
        accent_in_ranked(before, pitch, sorted[n - 1].2.0, sorted[n - 1].2.1, 0);
    }
}

proof fn ranked_claims_told(
    claims: Seq<ClaimV>,
    dicts: Seq<InfoV>,
    pitch: Seq<Seq<char>>,
    n: int,
    i: int,
)
    requires
        0 <= n <= claims.len(),
    ensures
        claims_ranked(ranked_claims(claims, dicts, pitch, n), pitch),
        0 <= i < n && enabled_by(dicts, pitch, claims[i].dict_id) ==> ranked_claims(
            claims,
            dicts,
            pitch,
            n,
        ).contains(
            (
                rank_of(pitch, shown_name(dicts, claims[i].dict_id)),
                claims[i].dict_id,
                (shown_name(dicts, claims[i].dict_id), claims[i].accent),
            ),
        ),
    decreases n,
{
    if n > 0 {
        ranked_claims_told(claims, dicts, pitch, n - 1, i);
        let before = ranked_claims(claims, dicts, pitch, n - 1);
        let all = ranked_claims(claims, dicts, pitch, n);
        if 0 <= i < n && enabled_by(dicts, pitch, claims[i].dict_id) {
            let x = (
                rank_of(pitch, shown_name(dicts, claims[i].dict_id)),
                claims[i].dict_id,
                (shown_name(dicts, claims[i].dict_id), claims[i].accent),
            );
            if i < n - 1 {
                let k = choose|k: int| 0 <= k < before.len() && before[k] == x;
                assert(all[k] == x);
            } else {
                assert(all[before.len() as int] == x);
            }
        }
    }
}

/// A pitch that an enabled Dictionary reports is shown at its position under
/// the Dictionary's name, and the rows and the names on each stand in the order
/// of the pitch list.
pub proof fn every_enabled_report_is_shown(
    claims: Seq<ClaimV>,
    dicts: Seq<InfoV>,
    pitch: Seq<Seq<char>>,
    i: int,
)
    requires
        0 <= i < claims.len(),
        enabled_by(dicts, pitch, claims[i].dict_id),
    ensures
        accent_shown(
            rows_of_claims(claims, dicts, pitch),
            shown_name(dicts, claims[i].dict_id),
            claims[i].accent,
        ),
        forall|r: int, d: int, e: int|
            0 <= r < rows_of_claims(claims, dicts, pitch).len() && 0 <= d < e < rows_of_claims(
                claims,
                dicts,
                pitch,
            )[r].dicts.len() ==> rank_of(
                pitch,
                #[trigger] rows_of_claims(claims, dicts, pitch)[r].dicts[d],
            ) <= rank_of(pitch, #[trigger] rows_of_claims(claims, dicts, pitch)[r].dicts[e]),
        forall|q: int, r: int|
            0 <= q < r < rows_of_claims(claims, dicts, pitch).len() ==> rank_of(
                pitch,
                (#[trigger] rows_of_claims(claims, dicts, pitch)[q]).dicts[0],
            ) <= rank_of(pitch, (#[trigger] rows_of_claims(claims, dicts, pitch)[r]).dicts[0]),
{
    let n = claims.len() as int;
    let all = ranked_claims(claims, dicts, pitch, n);
    ranked_claims_told(claims, dicts, pitch, n, i);
    let x = (
        rank_of(pitch, shown_name(dicts, claims[i].dict_id)),
        claims[i].dict_id,
        (shown_name(dicts, claims[i].dict_id), claims[i].accent),
    );
    let sorted = keyed_sort(all);
    a_sorted_list_is_ordered(all);
    a_sorted_list_keeps_its_items(all, x);
    sorted_is_of_the_list(all);
    assert(claims_ranked(sorted, pitch)) by {
        assert forall|m: int| 0 <= m < sorted.len() implies (#[trigger] sorted[m]).0 == rank_of(
            pitch,
            sorted[m].2.0,
        ) by {
            assert(all.contains(sorted[m]));
            let k = choose|k: int| 0 <= k < all.len() && all[k] == sorted[m];
            assert(all[k].0 == rank_of(pitch, all[k].2.0));
        }
    }
    let m = choose|m: int| 0 <= m < sorted.len() && sorted[m] == x;
    accent_rows_ranked(sorted, pitch, sorted.len() as int, m);
}

/// Sorting makes nothing up.
proof fn sorted_is_of_the_list<T>(list: Seq<(usize, i64, T)>)
    ensures
        forall|i: int|
            0 <= i < keyed_sort(list).len() ==> list.contains(#[trigger] keyed_sort(list)[i]),
    decreases list.len(),
{
    if list.len() > 0 {
        let front = list.drop_last();
        let s = keyed_sort(front);
        sorted_is_of_the_list(front);
        keyed_in_holds(s, list.last());
        let r = keyed_sort(list);
        assert forall|i: int| 0 <= i < r.len() implies list.contains(#[trigger] r[i]) by {
            if s.contains(r[i]) {
                let j = choose|j: int| 0 <= j < s.len() && s[j] == r[i];
                let k = choose|k: int| 0 <= k < front.len() && front[k] == s[j];
                assert(list[k] == r[i]);
            } else {
                assert(list[list.len() - 1] == r[i]);
            }
        }
    }
}

// ---- what stands below the top ----

/// The top of a view model is its first card. Every other card has a row below
/// it, in the same order, with the card's headword and its first gloss on one
/// line: whole where it fits, and else cut to the limit and marked.
pub proof fn a_row_below_sums_up_its_card(cards: Seq<CardV>, n: usize, i: int)
    requires
        0 <= i < cards.len() - 1,
    ensures
        ({
            let p = model_of(cards, n);
            let row = p.collapsed[i];
            let line = on_one_line(first_gloss(cards[i + 1]));
            &&& p.top == Some(cards[0])
            &&& p.all_cards == cards
            &&& p.collapsed.len() == cards.len() - 1
            &&& row.written == cards[i + 1].written
            &&& row.reading == cards[i + 1].reading
            &&& !row.summary.contains('\n')
            &&& row.summary.len() <= n + 1
            &&& line.len() <= n ==> row.summary == line
            &&& line.len() > n ==> row.summary.len() == n + 1 && row.summary.take(n as int)
                == line.take(n as int) && row.summary.last() == '…'
            &&& !first_gloss(cards[i + 1]).contains('\n') ==> line == first_gloss(cards[i + 1])
        }),
{
    reveal_strlit("; ");
    let g = first_gloss(cards[i + 1]);
    let line = on_one_line(g);
    crate::chars::replacing_leaves_none(g, '\n', "; "@);
    let s = shortened(line, n as int);
    if line.len() > n {
        assert(s.take(n as int) =~= line.take(n as int));
    }
    if s.contains('\n') {
        let j = choose|j: int| 0 <= j < s.len() && s[j] == '\n';
        assert(line[j] == '\n');
    }
}

/// The row that is chosen comes to the top with its whole card, the card that
/// was on top takes its place, and no other card moves.
pub proof fn the_chosen_row_comes_to_the_top(p: PresentationV, index: int, n: usize)
    requires
        0 <= index,
        index + 1 < p.all_cards.len(),
    ensures
        ({
            let q = with_top(p, index, n);
            &&& q.top == Some(p.all_cards[index + 1])
            &&& q.all_cards.len() == p.all_cards.len()
            &&& q.all_cards[0] == p.all_cards[index + 1]
            &&& q.all_cards[index + 1] == p.all_cards[0]
            &&& forall|k: int|
                1 <= k < p.all_cards.len() && k != index + 1 ==> #[trigger] q.all_cards[k]
                    == p.all_cards[k]
            &&& q.collapsed[index].written == p.all_cards[0].written
            &&& q.collapsed[index].reading == p.all_cards[0].reading
        }),
{
}

/// A highlight starts at the first character from the pointer on that is no
/// white space.
pub proof fn a_highlight_starts_behind_white_space(span: &TextSpan, k: int)
    requires
        at_byte(span.text@, 0, span.cursor_byte_offset as int) == Some(k),
        0 <= k <= span.text@.len(),
    ensures
        ({
            let from = highlight_from(span);
            &&& from matches Some(f) && k <= f <= span.text@.len() && (f < span.text@.len()
                ==> !crate::chars::white(span.text@[f])) && forall|j: int|
                k <= j < f ==> crate::chars::white(#[trigger] span.text@[j])
        }),
{
    let rest = span.text@.skip(k);
    crate::chars::trim_start_shape(rest);
    let cut = start_is_white(rest);
    let f = k + cut;
    assert(highlight_from(span) == Some(f));
    assert forall|j: int| k <= j < f implies crate::chars::white(#[trigger] span.text@[j]) by {
        assert(rest[j - k] == span.text@[j]);
    }
    if f < span.text@.len() {
        assert(trim_start(rest)[0] == span.text@[f]);
    }
}

proof fn start_is_white(s: Seq<char>) -> (k: int)
    ensures
        0 <= k <= s.len(),
        trim_start(s) == s.skip(k),
        forall|i: int| 0 <= i < k ==> crate::chars::white(#[trigger] s[i]),
    decreases s.len(),
{
    if s.len() > 0 && crate::chars::white(s[0]) {
        let k = start_is_white(s.skip(1));
        assert(s.skip(1).skip(k) =~= s.skip(k + 1));
        assert forall|i: int| 0 <= i < k + 1 implies crate::chars::white(#[trigger] s[i]) by {
            if i > 0 {
                assert(s.skip(1)[i - 1] == s[i]);
            }
        }
        k + 1
    } else {
        assert(s.skip(0) =~= s);
        0
    }
}

/// A lone reading with an ideograph in it is a written form; what a hit says
/// otherwise is kept.
pub proof fn a_reading_has_no_ideograph(hit: HitV)
    ensures
        hit.written is Some ==> claimed(hit) == (hit.written, hit.reading),
        hit.written is None ==> (claimed(hit).1 matches Some(r) ==> !has_kanji(r)),
        hit.written is None && (hit.reading matches Some(r) && has_kanji(r)) ==> claimed(hit).0
            == hit.reading && claimed(hit).1 is None,
        hit.written is None && (hit.reading matches Some(r) && !has_kanji(r)) ==> claimed(hit).0
            is None && claimed(hit).1 == hit.reading,
{
}

proof fn glosses_run_on(entries: Seq<GlossEntryV>, e: int, g: int, n: int)
    requires
        0 <= e < n <= entries.len(),
        0 <= g < entries[e].glosses.len(),
    ensures
        glosses_upto(entries, e).len() + g < glosses_upto(entries, n).len(),
        glosses_upto(entries, n)[glosses_upto(entries, e).len() + g] == entries[e].glosses[g],
    decreases n - e,
{
    if e < n - 1 {
        glosses_run_on(entries, e, g, n - 1);
    }
}

/// The glosses of a block are those of its rows, one row behind the other: each
/// stands behind all those of the rows before it.
pub proof fn a_block_tells_its_rows_glosses_in_order(block: BlockV, e: int, g: int)
    requires
        0 <= e < block.entries.len(),
        0 <= g < block.entries[e].glosses.len(),
    ensures
        block.glosses()[glosses_upto(block.entries, e).len() + g] == block.entries[e].glosses[g],
        e == 0 ==> block.glosses()[g] == block.entries[0].glosses[g],
{
    glosses_run_on(block.entries, e, g, block.entries.len() as int);
}

/// The first gloss of a card is the first of its first block's first row.
pub proof fn the_first_gloss_is_the_first_rows(card: CardV)
    requires
        card.blocks.len() > 0,
        card.blocks[0].entries.len() > 0,
        card.blocks[0].entries[0].glosses.len() > 0,
    ensures
        first_gloss(card) == card.blocks[0].entries[0].glosses[0],
{
    a_block_tells_its_rows_glosses_in_order(card.blocks[0], 0, 0);
    glosses_run_on(card.blocks[0].entries, 0, 0, card.blocks[0].entries.len() as int);
}

/// A card's pitch is what the store claims for its own headword and reading:
/// the headword is the written form, or the reading where there is none, and a
/// card without a reading has no pitch.
pub proof fn a_cards_pitch_is_its_own<D: Dictionary>(
    written: Seq<char>,
    reading: Seq<char>,
    dicts: Seq<InfoV>,
    pitch: Seq<Seq<char>>,
    dict: &D,
)
    requires
        reading.len() > 0,
    ensures
        pitch_of(Some(written), Some(reading), dicts, pitch, dict) == rows_of_claims(
            dict.claims(written, reading),
            dicts,
            pitch,
        ),
        pitch_of(None, Some(reading), dicts, pitch, dict) == rows_of_claims(
            dict.claims(reading, reading),
            dicts,
            pitch,
        ),
        pitch_of(Some(written), None, dicts, pitch, dict).len() == 0,
{
}

} // verus!
