//! Core data types and the `Dictionary` interface.
use crate::chars::{copy_list, copy_opt, opt_str, same_str, strs};
use crate::dict::gloss::{labels_of, parsed, plain, plain_items, pos_labels, DocV, GlossDoc};
use crate::dict::media::{copy_media, media_v, Intrinsic};
use crate::dict::pitch::{claims_v, Accent, ClaimV, PitchClaim};
use crate::present::{infos_v, DictInfo, InfoV};
use std::collections::HashMap;
use std::sync::Arc;
use vstd::prelude::*;

verus! {

#[derive(Debug, PartialEq, Eq)]
pub struct TermRow {
    pub surface: String,
    pub written: Option<String>,
    pub reading: Option<String>,
    /// Yomitan `rules` field, with values separated by spaces. The empty
    /// string stands for an unknown part of speech.
    pub pos: String,
    /// Frequency rank. A lower value means that the term is more common.
    /// `None` means no rank.
    pub freq: Option<i64>,
    pub entry_id: i64,
    pub dict_id: i64,
}

/// What a term row holds.
#[verifier::ext_equal]
pub struct RowV {
    pub surface: Seq<char>,
    pub written: Option<Seq<char>>,
    pub reading: Option<Seq<char>>,
    pub pos: Seq<char>,
    pub freq: Option<i64>,
    pub entry_id: i64,
    pub dict_id: i64,
}

impl TermRow {
    pub open spec fn v(self) -> RowV {
        RowV {
            surface: self.surface@,
            written: opt_str(self.written),
            reading: opt_str(self.reading),
            pos: self.pos@,
            freq: self.freq,
            entry_id: self.entry_id,
            dict_id: self.dict_id,
        }
    }
}

impl Clone for TermRow {
    fn clone(&self) -> (r: Self)
        ensures
            r.v() == self.v(),
    {
        TermRow {
            surface: self.surface.clone(),
            written: copy_opt(&self.written),
            reading: copy_opt(&self.reading),
            pos: self.pos.clone(),
            freq: self.freq,
            entry_id: self.entry_id,
            dict_id: self.dict_id,
        }
    }
}

pub open spec fn rows_v(s: Seq<TermRow>) -> Seq<RowV> {
    s.map_values(|r: TermRow| r.v())
}

/// One Dictionary record for one headword. A lookup returns this unit.
#[derive(Debug, PartialEq, Eq)]
pub struct Entry {
    pub entry_id: i64,
    pub dict_id: i64,
    /// The Entry's gloss content, shared with the parsed-tree cache.
    pub gloss: Arc<GlossDoc>,
    /// Part-of-speech labels from the tree.
    pub pos: Vec<String>,
    /// Intrinsic size for each image asset that this row's tree names and the
    /// media store has bytes for, by the path that the node declares.
    pub media: Vec<(String, Intrinsic)>,
    /// Reported frequency for this record's headword.
    pub reported_freq: Option<i64>,
}

/// What an entry holds.
#[verifier::ext_equal]
pub struct EntryV {
    pub entry_id: i64,
    pub dict_id: i64,
    pub gloss: DocV,
    pub pos: Seq<Seq<char>>,
    pub media: Seq<(Seq<char>, Intrinsic)>,
    pub reported_freq: Option<i64>,
}

/// `Arc::clone` gives another pointer to the same document.
#[verifier::external_body]
pub(crate) fn share(doc: &Arc<GlossDoc>) -> (r: Arc<GlossDoc>)
    ensures
        r == *doc,
{
    Arc::clone(doc)
}

impl Entry {
    pub open spec fn v(self) -> EntryV {
        EntryV {
            entry_id: self.entry_id,
            dict_id: self.dict_id,
            gloss: self.gloss@,
            pos: strs(self.pos@),
            media: media_v(self.media@),
            reported_freq: self.reported_freq,
        }
    }

    /// Wrap an already parsed tree and copy its labels to the `Entry`.
    pub fn new(
        entry_id: i64,
        dict_id: i64,
        gloss: Arc<GlossDoc>,
        media: Vec<(String, Intrinsic)>,
        reported_freq: Option<i64>,
    ) -> (r: Entry)
        ensures
            r.v() == (EntryV {
                entry_id,
                dict_id,
                gloss: gloss@,
                pos: labels_of(gloss@),
                media: media_v(media@),
                reported_freq,
            }),
    {
        let pos = pos_labels(&gloss);
        Entry { entry_id, dict_id, gloss, pos, media, reported_freq }
    }

    /// Parse a raw glossary payload. A tree parsed from a string has no store,
    /// so this `Entry` has no media or Reported frequency.
    pub fn parse(entry_id: i64, dict_id: i64, glossary: &str) -> (r: Entry)
        ensures
            r.v() == entry_of(entry_id, dict_id, glossary@),
    {
        let media: Vec<(String, Intrinsic)> = Vec::new();
        assert(media_v(media@) =~= seq![]);
        Entry::new(entry_id, dict_id, Arc::new(GlossDoc::parse(glossary)), media, None)
    }

    /// Return one plain-text gloss for each glossary item.
    pub fn glosses(&self) -> (r: Vec<String>)
        ensures
            strs(r@) == plain(self.v().gloss),
    {
        plain_items(&self.gloss)
    }
}

/// The entry of a stored glossary.
pub open spec fn entry_of(entry_id: i64, dict_id: i64, glossary: Seq<char>) -> EntryV {
    EntryV {
        entry_id,
        dict_id,
        gloss: parsed(glossary),
        pos: labels_of(parsed(glossary)),
        media: seq![],
        reported_freq: None,
    }
}

impl Clone for Entry {
    fn clone(&self) -> (r: Self)
        ensures
            r.v() == self.v(),
    {
        Entry {
            entry_id: self.entry_id,
            dict_id: self.dict_id,
            gloss: share(&self.gloss),
            pos: copy_list(&self.pos),
            media: copy_media(&self.media),
            reported_freq: self.reported_freq,
        }
    }
}

pub open spec fn entries_v(s: Seq<Entry>) -> Seq<EntryV> {
    s.map_values(|e: Entry| e.v())
}

/// One search result.
#[derive(Debug, PartialEq, Eq)]
pub struct Hit {
    pub written: Option<String>,
    pub reading: Option<String>,
    /// Number of input characters that this match consumes.
    pub match_len: usize,
    pub freq: Option<i64>,
    /// The key by which equally long matches are ranked, the greater first.
    pub score: i64,
    /// Deconjugation steps, with the outermost step first.
    pub process: Vec<String>,
    pub entry: Entry,
}

/// What a hit holds.
#[verifier::ext_equal]
pub struct HitV {
    pub written: Option<Seq<char>>,
    pub reading: Option<Seq<char>>,
    pub match_len: usize,
    pub freq: Option<i64>,
    pub score: i64,
    pub process: Seq<Seq<char>>,
    pub entry: EntryV,
}

impl Hit {
    pub open spec fn v(self) -> HitV {
        HitV {
            written: opt_str(self.written),
            reading: opt_str(self.reading),
            match_len: self.match_len,
            freq: self.freq,
            score: self.score,
            process: strs(self.process@),
            entry: self.entry.v(),
        }
    }
}

impl Clone for Hit {
    fn clone(&self) -> (r: Self)
        ensures
            r.v() == self.v(),
    {
        Hit {
            written: copy_opt(&self.written),
            reading: copy_opt(&self.reading),
            match_len: self.match_len,
            freq: self.freq,
            score: self.score,
            process: copy_list(&self.process),
            entry: self.entry.clone(),
        }
    }
}

pub open spec fn hits_v(s: Seq<Hit>) -> Seq<HitV> {
    s.map_values(|h: Hit| h.v())
}

/// A store that could not be read.
#[derive(Debug, PartialEq, Eq)]
pub struct StoreError {
    pub message: String,
}

/// What a lookup reads.
///
/// Each method answers what the store holds, or that it could not be read. A
/// store outside this library need not say what it holds, and leaves the four
/// functions that do at a value nobody knows: its answers say it. What it must
/// keep is that they stay the same: as long as the store is borrowed, the same
/// question has the same answer, a fault included. The contracts below rest on
/// that, and nothing here proves it of such a store.
pub trait Dictionary {
    /// The rows stored under a surface, or why the store fails.
    closed spec fn rows(&self, surface: Seq<char>) -> Result<Seq<RowV>, Seq<char>> {
        arbitrary()
    }

    /// The entries stored under some ids, or why the store fails.
    closed spec fn stored(&self, ids: Seq<i64>) -> Result<Seq<EntryV>, Seq<char>> {
        arbitrary()
    }

    /// The Dictionary identities, or why the store fails.
    closed spec fn identities(&self) -> Result<Seq<InfoV>, Seq<char>> {
        arbitrary()
    }

    /// Every stored Pitch pattern for one headword and reading.
    closed spec fn claims(&self, term: Seq<char>, reading: Seq<char>) -> Seq<ClaimV> {
        arbitrary()
    }

    fn terms_for(&self, surface: &str) -> (r: Result<Vec<TermRow>, StoreError>)
        ensures
            self.rows(surface@) == (match r {
                Ok(v) => Ok::<_, Seq<char>>(rows_v(v@)),
                Err(e) => Err(e.message@),
            }),
    ;

    fn entries(&self, ids: &Vec<i64>) -> (r: Result<Vec<Entry>, StoreError>)
        ensures
            self.stored(ids@) == (match r {
                Ok(v) => Ok::<_, Seq<char>>(entries_v(v@)),
                Err(e) => Err(e.message@),
            }),
    ;

    fn dicts(&self) -> (r: Result<Vec<DictInfo>, StoreError>)
        ensures
            self.identities() == (match r {
                Ok(v) => Ok::<_, Seq<char>>(infos_v(v@)),
                Err(e) => Err(e.message@),
            }),
    ;

    /// Total: a store fault gives no Pitch pattern.
    fn pitch_for(&self, term: &str, reading: &str) -> (r: Vec<PitchClaim>)
        ensures
            claims_v(r@) == self.claims(term@, reading@),
    ;
}

/// One seeded Pitch pattern: a headword, a reading, a claim.
struct PitchSeed {
    term: String,
    reading: String,
    claim: PitchClaim,
}

/// In-memory `Dictionary`.
pub struct FakeDictionary {
    terms: Vec<TermRow>,
    entries: HashMap<i64, Entry>,
    dicts: Vec<DictInfo>,
    pitch: Vec<PitchSeed>,
}

/// What an in-memory dictionary holds: each list in seed order, each entry
/// under its id.
#[verifier::ext_equal]
pub struct FakeV {
    pub terms: Seq<RowV>,
    pub entries: Map<i64, EntryV>,
    pub dicts: Seq<InfoV>,
    pub pitch: Seq<(Seq<char>, Seq<char>, ClaimV)>,
}

impl FakeV {
    /// The rows seeded under a surface.
    pub open spec fn rows_for(self, surface: Seq<char>) -> Seq<RowV> {
        self.terms.filter(|r: RowV| r.surface == surface)
    }

    /// The claims seeded for a headword and a reading.
    pub open spec fn claims_for(self, term: Seq<char>, reading: Seq<char>) -> Seq<ClaimV> {
        self.pitch.filter(|p: (Seq<char>, Seq<char>, ClaimV)| p.0 == term && p.1 == reading).map_values(
            |p: (Seq<char>, Seq<char>, ClaimV)| p.2,
        )
    }

    /// The entries seeded under the first `n` ids, those without one left out.
    pub open spec fn entries_for(self, ids: Seq<i64>, n: int) -> Seq<EntryV>
        decreases n,
    {
        if n <= 0 {
            seq![]
        } else {
            let before = self.entries_for(ids, n - 1);
            if self.entries.contains_key(ids[n - 1]) {
                before.push(self.entries[ids[n - 1]])
            } else {
                before
            }
        }
    }
}

impl View for FakeDictionary {
    type V = FakeV;

    closed spec fn view(&self) -> FakeV {
        FakeV {
            terms: rows_v(self.terms@),
            entries: seeded_v(self.entries@),
            dicts: infos_v(self.dicts@),
            pitch: seeds_v(self.pitch@),
        }
    }
}

spec fn seeds_v(s: Seq<PitchSeed>) -> Seq<(Seq<char>, Seq<char>, ClaimV)> {
    s.map_values(|p: PitchSeed| (p.term@, p.reading@, p.claim.v()))
}

spec fn seeded_v(m: Map<i64, Entry>) -> Map<i64, EntryV> {
    m.map_values(|e: Entry| e.v())
}

impl FakeDictionary {
    pub fn new() -> (r: Self)
        ensures
            r@ == (FakeV { terms: seq![], entries: Map::empty(), dicts: seq![], pitch: seq![] }),
    {
        let r = FakeDictionary {
            terms: Vec::new(),
            entries: HashMap::new(),
            dicts: Vec::new(),
            pitch: Vec::new(),
        };
        assert(r@ =~= FakeV { terms: seq![], entries: Map::empty(), dicts: seq![], pitch: seq![] });
        r
    }

    /// Add one `term` row directly. The arguments are the row's columns.
    pub fn add_term(
        &mut self,
        surface: &str,
        written: Option<&str>,
        reading: Option<&str>,
        pos: &str,
        freq: Option<i64>,
        entry_id: i64,
        dict_id: i64,
    )
        ensures
            final(self)@ == (FakeV {
                terms: old(self)@.terms.push(
                    RowV {
                        surface: surface@,
                        written: match written {
                            Some(s) => Some(s@),
                            None => None,
                        },
                        reading: match reading {
                            Some(s) => Some(s@),
                            None => None,
                        },
                        pos: pos@,
                        freq,
                        entry_id,
                        dict_id,
                    },
                ),
                ..old(self)@
            }),
    {
        let row = TermRow {
            surface: surface.to_owned(),
            written: match written {
                Some(s) => Some(s.to_owned()),
                None => None,
            },
            reading: match reading {
                Some(s) => Some(s.to_owned()),
                None => None,
            },
            pos: pos.to_owned(),
            freq,
            entry_id,
            dict_id,
        };
        self.terms.push(row);
        assert(rows_v(self.terms@) =~= rows_v(old(self).terms@).push(row.v()));
    }

    /// Seed one Entry from a raw glossary payload exactly as the record stores
    /// it.
    pub fn add_entry(&mut self, entry_id: i64, dict_id: i64, glossary: &str)
        ensures
            final(self)@ == (FakeV {
                entries: old(self)@.entries.insert(
                    entry_id,
                    entry_of(entry_id, dict_id, glossary@),
                ),
                ..old(self)@
            }),
    {
        let e = Entry::parse(entry_id, dict_id, glossary);
        let _old = self.entries.insert(entry_id, e);
        assert(seeded_v(self.entries@) =~= seeded_v(old(self).entries@).insert(entry_id, e.v()));
    }

    pub fn add_dict(&mut self, dict_id: i64, name: &str)
        ensures
            final(self)@ == (FakeV {
                dicts: old(self)@.dicts.push(InfoV { dict_id, name: name@ }),
                ..old(self)@
            }),
    {
        let d = DictInfo { dict_id, name: name.to_owned() };
        self.dicts.push(d);
        assert(infos_v(self.dicts@) =~= infos_v(old(self).dicts@).push(d.v()));
    }

    /// Add one Dictionary's claim for one headword and reading.
    pub fn add_pitch(&mut self, term: &str, reading: &str, dict_id: i64, accent: Accent)
        ensures
            final(self)@ == (FakeV {
                pitch: old(self)@.pitch.push(
                    (term@, reading@, ClaimV { dict_id, accent: accent.v() }),
                ),
                ..old(self)@
            }),
    {
        let p = PitchSeed {
            term: term.to_owned(),
            reading: reading.to_owned(),
            claim: PitchClaim { dict_id, accent },
        };
        self.pitch.push(p);
        assert(seeds_v(self.pitch@) =~= seeds_v(old(self).pitch@).push(
            (p.term@, p.reading@, p.claim.v()),
        ));
    }
}

impl Dictionary for FakeDictionary {
    open spec fn rows(&self, surface: Seq<char>) -> Result<Seq<RowV>, Seq<char>> {
        Ok(self@.rows_for(surface))
    }

    open spec fn stored(&self, ids: Seq<i64>) -> Result<Seq<EntryV>, Seq<char>> {
        Ok(self@.entries_for(ids, ids.len() as int))
    }

    open spec fn identities(&self) -> Result<Seq<InfoV>, Seq<char>> {
        Ok(self@.dicts)
    }

    open spec fn claims(&self, term: Seq<char>, reading: Seq<char>) -> Seq<ClaimV> {
        self@.claims_for(term, reading)
    }

    fn terms_for(&self, surface: &str) -> (r: Result<Vec<TermRow>, StoreError>) {
        let mut out: Vec<TermRow> = Vec::new();
        let ghost want = |r: RowV| r.surface == surface@;
        let ghost all = self@.terms;
        assert(rows_v(out@) =~= all.take(0).filter(want)) by {
            reveal(Seq::filter);
        }
        let mut i: usize = 0;
        while i < self.terms.len()
            invariant
                i <= self.terms@.len(),
                all == rows_v(self.terms@),
                want == (|r: RowV| r.surface == surface@),
                rows_v(out@) == all.take(i as int).filter(want),
            decreases self.terms@.len() - i,
        {
            proof {
                reveal(Seq::filter);
                assert(all.take(i + 1).drop_last() =~= all.take(i as int));
                assert(all.take(i + 1).last() == self.terms@[i as int].v());
            }
            if same_str(self.terms[i].surface.as_str(), surface) {
                let ghost before = rows_v(out@);
                out.push(self.terms[i].clone());
                assert(rows_v(out@) =~= before.push(all[i as int]));
            }
            i += 1;
        }
        assert(all.take(i as int) =~= all);
        Ok(out)
    }

    fn entries(&self, ids: &Vec<i64>) -> (r: Result<Vec<Entry>, StoreError>) {
        let mut out: Vec<Entry> = Vec::new();
        let ghost v = self@;
        assert(entries_v(out@) =~= seq![]);
        let mut i: usize = 0;
        while i < ids.len()
            invariant
                i <= ids@.len(),
                v == self@,
                v.entries == seeded_v(self.entries@),
                entries_v(out@) == v.entries_for(ids@, i as int),
            decreases ids@.len() - i,
        {
            match self.entries.get(&ids[i]) {
                Some(e) => {
                    let ghost before = entries_v(out@);
                    out.push(e.clone());
                    assert(entries_v(out@) =~= before.push(e.v()));
                },
                None => {},
            }
            i += 1;
        }
        Ok(out)
    }

    fn dicts(&self) -> (r: Result<Vec<DictInfo>, StoreError>) {
        let mut out: Vec<DictInfo> = Vec::new();
        let mut i: usize = 0;
        while i < self.dicts.len()
            invariant
                i <= self.dicts@.len(),
                infos_v(out@) == infos_v(self.dicts@).take(i as int),
            decreases self.dicts@.len() - i,
        {
            let ghost before = infos_v(out@);
            out.push(self.dicts[i].clone());
            assert(infos_v(out@) =~= before.push(self.dicts@[i as int].v()));
            assert(infos_v(self.dicts@).take(i + 1) =~= infos_v(self.dicts@).take(i as int).push(
                self.dicts@[i as int].v(),
            ));
            i += 1;
        }
        assert(infos_v(self.dicts@).take(i as int) =~= infos_v(self.dicts@));
        Ok(out)
    }

    fn pitch_for(&self, term: &str, reading: &str) -> (r: Vec<PitchClaim>) {
        let mut out: Vec<PitchClaim> = Vec::new();
        let ghost want = |p: (Seq<char>, Seq<char>, ClaimV)| p.0 == term@ && p.1 == reading@;
        let ghost pick = |p: (Seq<char>, Seq<char>, ClaimV)| p.2;
        let ghost all = self@.pitch;
        assert(claims_v(out@) =~= all.take(0).filter(want).map_values(pick)) by {
            reveal(Seq::filter);
        }
        let mut i: usize = 0;
        while i < self.pitch.len()
            invariant
                i <= self.pitch@.len(),
                all == seeds_v(self.pitch@),
                want == (|p: (Seq<char>, Seq<char>, ClaimV)| p.0 == term@ && p.1 == reading@),
                pick == (|p: (Seq<char>, Seq<char>, ClaimV)| p.2),
                claims_v(out@) == all.take(i as int).filter(want).map_values(pick),
            decreases self.pitch@.len() - i,
        {
            proof {
                reveal(Seq::filter);
                assert(all.take(i + 1).drop_last() =~= all.take(i as int));
                assert(all.take(i + 1).last() == (
                    self.pitch@[i as int].term@,
                    self.pitch@[i as int].reading@,
                    self.pitch@[i as int].claim.v(),
                ));
            }
            let p = &self.pitch[i];
            if same_str(p.term.as_str(), term) && same_str(p.reading.as_str(), reading) {
                let ghost before = claims_v(out@);
                let ghost prior = all.take(i as int).filter(want);
                out.push(p.claim.clone());
                assert(claims_v(out@) =~= before.push(p.claim.v()));
                assert(prior.push(all[i as int]).map_values(pick) =~= prior.map_values(pick).push(
                    all[i as int].2,
                ));
            }
            i += 1;
        }
        assert(all.take(i as int) =~= all);
        out
    }
}

} // verus!
