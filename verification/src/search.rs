//! Direct search shares lookup ranking and presentation so typed inflections
//! and dictionary ordering behave like popup lookups without an OCR source.
use crate::chars::{
    alphanumeric, chars_of, copy_opt, decimal, decimal_of, join, joined, list_has, opt_str,
    push_chars, same_opt, signed, signed_of, string_of, strs, trim, trim_of,
};
use crate::dict::pitch::{ClaimV, PitchClaim, Position, PositionV};
use crate::lookup::engine::{ran, LookupEngine};
use crate::lookup::model::{
    hits_v, rows_v, Dictionary, Entry, EntryV, Hit, RowV, StoreError, TermRow,
};
use crate::present::{
    blocks_v, build, cards_of, cards_v, gloss_entries_v, glosses_upto, infos_v, model_of, pitch_v,
    BlockV, Card, CardV, DictInfo, GlossEntryV, InfoV, PitchRowV, PresentConfig, PresentV, Presentation,
    PresentationV,
};
use crate::select::{rows_of, rows_upto};
use crate::text::{
    at_byte, at_byte_counts, byte_len, byte_len_of_part, byte_length, char_index,
};
use vstd::prelude::*;
use vstd::slice::slice_subrange;

verus! {

#[derive(Debug, Clone, Copy, PartialEq, Eq, Structural)]
pub enum SearchMode {
    Dictionary,
    Sentence,
}

impl Default for SearchMode {
    fn default() -> (r: Self)
        ensures
            r == SearchMode::Dictionary,
    {
        SearchMode::Dictionary
    }
}

#[derive(Debug, PartialEq, Eq)]
pub struct Candidate {
    pub index: usize,
    pub headword: String,
    pub reading: String,
    pub summary: String,
}

/// What a candidate holds.
#[verifier::ext_equal]
pub struct CandidateV {
    pub index: int,
    pub headword: Seq<char>,
    pub reading: Seq<char>,
    pub summary: Seq<char>,
}

impl Candidate {
    pub open spec fn v(self) -> CandidateV {
        CandidateV {
            index: self.index as int,
            headword: self.headword@,
            reading: self.reading@,
            summary: self.summary@,
        }
    }
}

pub open spec fn candidates_v(s: Seq<Candidate>) -> Seq<CandidateV> {
    s.map_values(|c: Candidate| c.v())
}

/// Bytes of a text, from `start` up to `end`.
#[derive(Debug, Clone, Copy, PartialEq, Eq, Structural)]
pub struct ByteRange {
    pub start: usize,
    pub end: usize,
}

#[derive(Debug, PartialEq, Eq)]
pub struct SentenceToken {
    pub range: ByteRange,
    pub text: String,
    pub selectable: bool,
}

/// What a token holds.
#[verifier::ext_equal]
pub struct TokenV {
    pub range: ByteRange,
    pub text: Seq<char>,
    pub selectable: bool,
}

impl SentenceToken {
    pub open spec fn v(self) -> TokenV {
        TokenV { range: self.range, text: self.text@, selectable: self.selectable }
    }
}

pub open spec fn tokens_v(s: Seq<SentenceToken>) -> Seq<TokenV> {
    s.map_values(|t: SentenceToken| t.v())
}

/// Does a token answer for a byte?
pub open spec fn answers(t: TokenV, byte: int) -> bool {
    t.selectable && t.range.start <= byte < t.range.end
}

/// The first selectable token at a byte.
pub open spec fn token_at(tokens: Seq<TokenV>, byte: int) -> Option<TokenV>
    decreases tokens.len(),
{
    if tokens.len() == 0 {
        None
    } else if answers(tokens[0], byte) {
        Some(tokens[0])
    } else {
        token_at(tokens.skip(1), byte)
    }
}

pub fn sentence_token_at(tokens: &[SentenceToken], byte: usize) -> (r: Option<&SentenceToken>)
    ensures
        token_at(tokens_v(tokens@), byte as int) == (match r {
            Some(t) => Some(t.v()),
            None => None,
        }),
{
    let ghost all = tokens_v(tokens@);
    assert(all.skip(0) =~= all);
    let mut i: usize = 0;
    while i < tokens.len()
        invariant
            i <= tokens@.len(),
            all == tokens_v(tokens@),
            token_at(all, byte as int) == token_at(all.skip(i as int), byte as int),
        decreases tokens@.len() - i,
    {
        assert(all.skip(i as int)[0] == tokens@[i as int].v());
        assert(all.skip(i as int).skip(1) =~= all.skip(i + 1));
        let t = &tokens[i];
        if t.selectable && t.range.start <= byte && byte < t.range.end {
            return Some(t);
        }
        i += 1;
    }
    None
}

/// Whether the analysis model was asked for, and whether it is there.
pub struct SentenceAnalyzer {
    pub attempted: bool,
    pub loaded: bool,
}

impl SentenceAnalyzer {
    pub fn new() -> (r: Self)
        ensures
            !r.attempted,
            !r.loaded,
    {
        SentenceAnalyzer { attempted: false, loaded: false }
    }

    /// Is the model to be loaded now? It is asked for once, at the first text
    /// that is not blank.
    pub fn wants_model(&mut self, text: &str) -> (r: bool)
        ensures
            r == (!old(self).attempted && trim(text@).len() > 0),
            final(self).attempted == (old(self).attempted || r),
            final(self).loaded == old(self).loaded,
    {
        if !self.attempted && trim_of(chars_of(text).as_slice()).len() > 0 {
            self.attempted = true;
            return true;
        }
        false
    }

    /// Notes whether the model could be loaded.
    pub fn model_loaded(&mut self, ok: bool)
        ensures
            final(self).attempted == old(self).attempted,
            final(self).loaded == ok,
    {
        self.loaded = ok;
    }

    /// Parts a text into the words that were found in it.
    pub fn tokenize(&self, text: &str, words: &Vec<ByteRange>) -> (r: Vec<SentenceToken>)
        ensures
            tokens_v(r@) == tokens_of(text@, words@),
    {
        sentence_tokens(text, words)
    }

    pub fn fallback_active(&self) -> (r: bool)
        ensures
            r == (self.attempted && !self.loaded),
    {
        self.attempted && !self.loaded
    }
}

/// Does a byte stand between two characters of a text?
pub open spec fn boundary(text: Seq<char>, byte: int) -> bool {
    at_byte(text, 0, byte) is Some
}

/// The part of a text between two bytes.
pub open spec fn part(text: Seq<char>, start: int, end: int) -> Seq<char> {
    text.subrange(at_byte(text, 0, start)->0, at_byte(text, 0, end)->0)
}

/// Can a word be taken, when the text is parted up to a byte?
pub open spec fn takes(text: Seq<char>, end: int, word: ByteRange) -> bool {
    end <= word.start < word.end && boundary(text, word.start as int) && boundary(
        text,
        word.end as int,
    )
}

/// Does a text hold a letter or a digit?
pub open spec fn wordy(s: Seq<char>) -> bool {
    exists|i: int| 0 <= i < s.len() && alphanumeric(#[trigger] s[i])
}

/// A token of a text.
pub open spec fn token(text: Seq<char>, start: usize, end: usize, selectable: bool) -> TokenV {
    TokenV {
        range: ByteRange { start, end },
        text: part(text, start as int, end as int),
        selectable,
    }
}

/// How far the first `n` words part a text.
pub open spec fn parted_to(text: Seq<char>, words: Seq<ByteRange>, n: int) -> usize
    decreases n,
{
    if n <= 0 {
        0
    } else {
        let end = parted_to(text, words, n - 1);
        if takes(text, end as int, words[n - 1]) {
            words[n - 1].end
        } else {
            end
        }
    }
}

/// The tokens of the first `n` words. What stands between two words is a
/// token that cannot be selected, and so is a word with no letter or digit.
pub open spec fn tokens_upto(text: Seq<char>, words: Seq<ByteRange>, n: int) -> Seq<TokenV>
    decreases n,
{
    if n <= 0 {
        seq![]
    } else {
        let before = tokens_upto(text, words, n - 1);
        let end = parted_to(text, words, n - 1);
        let w = words[n - 1];
        if takes(text, end as int, w) {
            let gap = if w.start > end {
                before.push(token(text, end, w.start, false))
            } else {
                before
            };
            gap.push(
                token(text, w.start, w.end, wordy(part(text, w.start as int, w.end as int))),
            )
        } else {
            before
        }
    }
}

/// The tokens of a text.
pub open spec fn tokens_of(text: Seq<char>, words: Seq<ByteRange>) -> Seq<TokenV> {
    let n = words.len() as int;
    let end = parted_to(text, words, n);
    if end < byte_len(text) {
        tokens_upto(text, words, n).push(token(text, end, byte_len(text) as usize, false))
    } else {
        tokens_upto(text, words, n)
    }
}

/// The texts of some tokens, one behind another.
pub open spec fn told(tokens: Seq<TokenV>) -> Seq<char>
    decreases tokens.len(),
{
    if tokens.len() == 0 {
        seq![]
    } else {
        told(tokens.drop_last()) + tokens.last().text
    }
}

proof fn told_push(tokens: Seq<TokenV>, t: TokenV)
    ensures
        told(tokens.push(t)) == told(tokens) + t.text,
{
    assert(tokens.push(t).drop_last() =~= tokens);
}

proof fn at_byte_later(text: Seq<char>, k: int, a: int, b: int)
    requires
        0 <= k <= text.len(),
        0 <= a <= b,
        at_byte(text, k, a) is Some,
        at_byte(text, k, b) is Some,
    ensures
        at_byte(text, k, a)->0 <= at_byte(text, k, b)->0,
    decreases text.len() - k,
{
    if a > 0 {
        at_byte_later(text, k + 1, a - crate::text::width(text[k]), b - crate::text::width(text[k]));
    } else {
        at_byte_counts(text, k, b);
    }
}

proof fn parts_join(text: Seq<char>, a: int, b: int, c: int)
    requires
        0 <= a <= b <= c,
        boundary(text, a),
        boundary(text, b),
        boundary(text, c),
    ensures
        part(text, a, b) + part(text, b, c) == part(text, a, c),
{
    at_byte_later(text, 0, a, b);
    at_byte_later(text, 0, b, c);
    at_byte_counts(text, 0, a);
    at_byte_counts(text, 0, c);
    assert(part(text, a, b) + part(text, b, c) =~= part(text, a, c));
}

proof fn parted_boundary(text: Seq<char>, words: Seq<ByteRange>, n: int)
    requires
        0 <= n <= words.len(),
    ensures
        boundary(text, parted_to(text, words, n) as int),
        parted_to(text, words, n) <= byte_len(text),
    decreases n,
{
    if n > 0 {
        parted_boundary(text, words, n - 1);
        let end = parted_to(text, words, n);
        at_byte_counts(text, 0, end as int);
        let k = at_byte(text, 0, end as int)->0;
        assert(text.take(0) =~= seq![]);
        if boundary(text, end as int) {
            byte_len_of_part(text, k);
        }
    }
}

proof fn tokens_tell(text: Seq<char>, words: Seq<ByteRange>, n: int)
    requires
        0 <= n <= words.len(),
    ensures
        told(tokens_upto(text, words, n)) == part(text, 0, parted_to(text, words, n) as int),
    decreases n,
{
    if n > 0 {
        tokens_tell(text, words, n - 1);
        parted_boundary(text, words, n - 1);
        let before = tokens_upto(text, words, n - 1);
        let end = parted_to(text, words, n - 1);
        let w = words[n - 1];
        if takes(text, end as int, w) {
            parts_join(text, 0, end as int, w.start as int);
            parts_join(text, 0, w.start as int, w.end as int);
            let gap = if w.start > end {
                before.push(token(text, end, w.start, false))
            } else {
                before
            };
            if w.start > end {
                told_push(before, token(text, end, w.start, false));
            }
            let t = token(text, w.start, w.end, wordy(part(text, w.start as int, w.end as int)));
            told_push(gap, t);
        }
    } else {
        assert(part(text, 0, 0) =~= seq![]);
    }
}

proof fn at_end(text: Seq<char>, k: int)
    requires
        0 <= k <= text.len(),
    ensures
        at_byte(text, k, byte_len(text.skip(k)) as int) == Some(text.len() as int),
    decreases text.len() - k,
{
    if k < text.len() {
        crate::text::byte_len_front(text.skip(k));
        assert(text.skip(k).drop_first() =~= text.skip(k + 1));
        at_end(text, k + 1);
    } else {
        assert(text.skip(k) =~= seq![]);
    }
}

/// The tokens of a text tell the text again, whatever words were found in it.
pub proof fn tokens_preserve_the_text(text: Seq<char>, words: Seq<ByteRange>)
    requires
        byte_len(text) <= usize::MAX,
    ensures
        told(tokens_of(text, words)) == text,
{
    let n = words.len() as int;
    tokens_tell(text, words, n);
    parted_boundary(text, words, n);
    let end = parted_to(text, words, n);
    let len = byte_len(text) as usize;
    assert(text.skip(0) =~= text);
    at_end(text, 0);
    at_byte_later(text, 0, end as int, len as int);
    assert(part(text, 0, len as int) =~= text);
    if end < len {
        told_push(tokens_upto(text, words, n), token(text, end, len, false));
        parts_join(text, 0, end as int, len as int);
    }
}

fn cut(chars: &[char], start: usize, end: usize, selectable: bool) -> (r: SentenceToken)
    requires
        start <= end,
        boundary(chars@, start as int),
        boundary(chars@, end as int),
    ensures
        r.v() == token(chars@, start, end, selectable),
{
    proof {
        at_byte_later(chars@, 0, start as int, end as int);
        at_byte_counts(chars@, 0, end as int);
    }
    let text = match (char_index(chars, start), char_index(chars, end)) {
        (Some(a), Some(b)) => string_of(slice_subrange(chars, a, b)),
        _ => String::new(),
    };
    SentenceToken { range: ByteRange { start, end }, text, selectable }
}

fn is_wordy(s: &str) -> (r: bool)
    ensures
        r == wordy(s@),
{
    let v = chars_of(s);
    let mut i: usize = 0;
    while i < v.len()
        invariant
            i <= v@.len(),
            v@ == s@,
            forall|j: int| 0 <= j < i ==> !alphanumeric(#[trigger] s@[j]),
        decreases v@.len() - i,
    {
        if v[i].is_alphanumeric() {
            assert(alphanumeric(s@[i as int]));
            return true;
        }
        i += 1;
    }
    false
}

/// Parts a text into words and what stands between them. A word that overlaps
/// the one before it, or that starts or ends within a character, is passed
/// over.
pub fn sentence_tokens(text: &str, ranges: &Vec<ByteRange>) -> (r: Vec<SentenceToken>)
    ensures
        tokens_v(r@) == tokens_of(text@, ranges@),
{
    let chars = chars_of(text);
    let len = byte_length(text);
    let mut out: Vec<SentenceToken> = Vec::new();
    assert(tokens_v(out@) =~= seq![]);
    let mut end: usize = 0;
    let mut i: usize = 0;
    while i < ranges.len()
        invariant
            i <= ranges@.len(),
            chars@ == text@,
            end == parted_to(text@, ranges@, i as int),
            tokens_v(out@) == tokens_upto(text@, ranges@, i as int),
        decreases ranges@.len() - i,
    {
        let w = ranges[i];
        proof {
            parted_boundary(text@, ranges@, i as int);
        }
        if end <= w.start && w.start < w.end && char_index(chars.as_slice(), w.start).is_some()
            && char_index(chars.as_slice(), w.end).is_some() {
            if w.start > end {
                let gap = cut(chars.as_slice(), end, w.start, false);
                let ghost before = tokens_v(out@);
                out.push(gap);
                assert(tokens_v(out@) =~= before.push(gap.v()));
            }
            let whole = cut(chars.as_slice(), w.start, w.end, false);
            let selectable = is_wordy(whole.text.as_str());
            let word = SentenceToken { range: whole.range, text: whole.text, selectable };
            let ghost before = tokens_v(out@);
            out.push(word);
            assert(tokens_v(out@) =~= before.push(word.v()));
            end = w.end;
        }
        i += 1;
    }
    if end < len {
        proof {
            parted_boundary(text@, ranges@, i as int);
            assert(text@.skip(0) =~= text@);
            at_end(text@, 0);
        }
        let rest = cut(chars.as_slice(), end, len, false);
        let ghost before = tokens_v(out@);
        out.push(rest);
        assert(tokens_v(out@) =~= before.push(rest.v()));
    }
    out
}

#[derive(Debug, PartialEq, Eq)]
pub enum SearchResult {
    Empty,
    Miss,
    Found(Box<Presentation>),
}

/// What a result holds.
#[verifier::ext_equal]
pub enum ResultV {
    Empty,
    Miss,
    Found(PresentationV),
}

impl SearchResult {
    pub open spec fn v(self) -> ResultV {
        match self {
            SearchResult::Empty => ResultV::Empty,
            SearchResult::Miss => ResultV::Miss,
            SearchResult::Found(p) => ResultV::Found(p.v()),
        }
    }
}

/// Every gloss of a card.
pub open spec fn card_glosses(card: CardV) -> Seq<Seq<char>> {
    glosses_upto(rows_of(card.blocks), rows_of(card.blocks).len() as int)
}

/// A text cut to so many characters.
pub open spec fn at_most(s: Seq<char>, n: int) -> Seq<char> {
    if s.len() <= n {
        s
    } else {
        s.take(n)
    }
}

/// The candidate that a card is.
pub open spec fn candidate_of(card: CardV, index: int) -> CandidateV {
    CandidateV {
        index,
        headword: match card.written {
            Some(w) => w,
            None => match card.reading {
                Some(r) => r,
                None => seq![],
            },
        },
        reading: match card.reading {
            Some(r) => r,
            None => seq![],
        },
        summary: if card_glosses(card).len() == 0 {
            seq![]
        } else {
            at_most(card_glosses(card)[0], 80)
        },
    }
}

/// The candidates of a result.
pub open spec fn candidates_of(result: ResultV) -> Seq<CandidateV> {
    match result {
        ResultV::Found(p) => Seq::new(p.all_cards.len(), |i: int| candidate_of(p.all_cards[i], i)),
        _ => seq![],
    }
}

proof fn glosses_split(a: Seq<GlossEntryV>, b: Seq<GlossEntryV>, n: int)
    requires
        0 <= n <= b.len(),
    ensures
        glosses_upto(a + b, a.len() + n) == glosses_upto(a, a.len() as int) + glosses_upto(b, n),
    decreases n,
{
    if n == 0 {
        glosses_prefix(a, b, a.len() as int);
        assert(glosses_upto(a, a.len() as int) + seq![] =~= glosses_upto(a, a.len() as int));
    } else {
        glosses_split(a, b, n - 1);
        assert((a + b)[a.len() + n - 1] == b[n - 1]);
        assert(glosses_upto(a, a.len() as int) + glosses_upto(b, n - 1) + b[n - 1].glosses
            =~= glosses_upto(a, a.len() as int) + (glosses_upto(b, n - 1) + b[n - 1].glosses));
    }
}

proof fn glosses_prefix(a: Seq<GlossEntryV>, b: Seq<GlossEntryV>, n: int)
    requires
        0 <= n <= a.len(),
    ensures
        glosses_upto(a + b, n) == glosses_upto(a, n),
    decreases n,
{
    if n > 0 {
        glosses_prefix(a, b, n - 1);
    }
}

proof fn rows_from(blocks: Seq<BlockV>, m: int, n: int)
    requires
        0 <= m <= n <= blocks.len(),
        glosses_upto(rows_upto(blocks, m), rows_upto(blocks, m).len() as int).len() > 0,
    ensures
        glosses_upto(rows_upto(blocks, n), rows_upto(blocks, n).len() as int).len() > 0,
        glosses_upto(rows_upto(blocks, n), rows_upto(blocks, n).len() as int)[0] == glosses_upto(
            rows_upto(blocks, m),
            rows_upto(blocks, m).len() as int,
        )[0],
    decreases n - m,
{
    if m < n {
        rows_from(blocks, m, n - 1);
        glosses_split(
            rows_upto(blocks, n - 1),
            blocks[n - 1].entries,
            blocks[n - 1].entries.len() as int,
        );
    }
}

fn first_gloss(card: &Card) -> (r: Vec<char>)
    ensures
        r@ == (if card_glosses(card.v()).len() == 0 {
            seq![]
        } else {
            card_glosses(card.v())[0]
        }),
{
    let ghost bs = blocks_v(card.blocks@);
    let mut b: usize = 0;
    while b < card.blocks.len()
        invariant
            b <= card.blocks@.len(),
            bs == blocks_v(card.blocks@),
            glosses_upto(rows_upto(bs, b as int), rows_upto(bs, b as int).len() as int).len() == 0,
        decreases card.blocks@.len() - b,
    {
        let glosses = card.blocks[b].glosses();
        proof {
            assert(bs[b as int] == card.blocks@[b as int].v());
            glosses_split(
                rows_upto(bs, b as int),
                bs[b as int].entries,
                bs[b as int].entries.len() as int,
            );
            assert(strs(glosses@).len() == glosses@.len());
        }
        if glosses.len() > 0 {
            proof {
                rows_from(bs, b + 1, bs.len() as int);
                assert(strs(glosses@)[0] == glosses@[0]@);
            }
            return chars_of(glosses[0].as_str());
        }
        b += 1;
    }
    let none: Vec<char> = Vec::new();
    assert(none@ =~= seq![]);
    none
}

fn text_or_none(s: &Option<String>) -> (r: String)
    ensures
        r@ == (match opt_str(*s) {
            Some(t) => t,
            None => seq![],
        }),
{
    match s {
        Some(t) => t.clone(),
        None => {
            let r = String::new();
            assert(r@ =~= seq![]);
            r
        },
    }
}

fn headword_of(card: &Card) -> (r: String)
    ensures
        r@ == candidate_of(card.v(), 0).headword,
{
    match &card.written {
        Some(w) => w.clone(),
        None => text_or_none(&card.reading),
    }
}

pub fn candidates(result: &SearchResult) -> (r: Vec<Candidate>)
    ensures
        candidates_v(r@) == candidates_of(result.v()),
{
    let mut out: Vec<Candidate> = Vec::new();
    match result {
        SearchResult::Found(p) => {
            let ghost want = candidates_of(result.v());
            let ghost cs = cards_v(p.all_cards@);
            assert(candidates_v(out@) =~= want.take(0));
            let mut i: usize = 0;
            while i < p.all_cards.len()
                invariant
                    i <= p.all_cards@.len(),
                    cs == cards_v(p.all_cards@),
                    want == Seq::new(cs.len(), |k: int| candidate_of(cs[k], k)),
                    candidates_v(out@) == want.take(i as int),
                decreases p.all_cards@.len() - i,
            {
                let card = &p.all_cards[i];
                assert(cs[i as int] == card.v());
                let gloss = first_gloss(card);
                let summary = if gloss.len() <= 80 {
                    string_of(gloss.as_slice())
                } else {
                    assert(gloss@.subrange(0, 80) =~= gloss@.take(80));
                    string_of(slice_subrange(gloss.as_slice(), 0, 80))
                };
                let c = Candidate {
                    index: i,
                    headword: headword_of(card),
                    reading: text_or_none(&card.reading),
                    summary,
                };
                let ghost before = candidates_v(out@);
                assert(c.v() =~= want[i as int]) by {
                    assert(at_most(seq![], 80) =~= seq![]);
                }
                out.push(c);
                assert(candidates_v(out@) =~= before.push(want[i as int]));
                assert(want.take(i + 1) =~= want.take(i as int).push(want[i as int]));
                i += 1;
            }
            assert(want.take(i as int) =~= want);
        },
        _ => {
            assert(candidates_v(out@) =~= seq![]);
        },
    }
    out
}

/// The presentation of one card of a result alone.
pub open spec fn selection_of(result: ResultV, index: int) -> Option<PresentationV> {
    match result {
        ResultV::Found(p) => if 0 <= index < p.all_cards.len() {
            Some(
                PresentationV {
                    top: Some(p.all_cards[index]),
                    collapsed: seq![],
                    all_cards: seq![p.all_cards[index]],
                    sentence: p.sentence,
                    surface: p.surface,
                },
            )
        } else {
            None
        },
        _ => None,
    }
}

pub fn selected_presentation(result: &SearchResult, index: usize) -> (r: Option<Presentation>)
    ensures
        selection_of(result.v(), index as int) == (match r {
            Some(q) => Some(q.v()),
            None => None,
        }),
        match result.v() {
            ResultV::Found(p) => if index < p.all_cards.len() {
                r matches Some(q) && q.v() == (PresentationV {
                    top: Some(p.all_cards[index as int]),
                    collapsed: seq![],
                    all_cards: seq![p.all_cards[index as int]],
                    sentence: p.sentence,
                    surface: p.surface,
                })
            } else {
                r is None
            },
            _ => r is None,
        },
{
    match result {
        SearchResult::Found(p) => {
            if index >= p.all_cards.len() {
                return None;
            }
            let card = p.all_cards[index].clone();
            assert(cards_v(p.all_cards@)[index as int] == card.v());
            let top = card.clone();
            let ghost cv = card.v();
            let mut all_cards: Vec<Card> = Vec::new();
            all_cards.push(card);
            assert(cards_v(all_cards@) =~= seq![cv]);
            let q = Presentation {
                top: Some(top),
                collapsed: Vec::new(),
                all_cards,
                sentence: copy_opt(&p.sentence),
                surface: copy_opt(&p.surface),
            };
            assert(q.v().collapsed =~= seq![]);
            Some(q)
        },
        _ => None,
    }
}

/// A store of which only some Dictionaries are searched.
pub struct EnabledDictionary<'a, D: Dictionary> {
    pub dictionary: &'a D,
    pub ids: Vec<i64>,
}

impl<'a, D: Dictionary> Dictionary for EnabledDictionary<'a, D> {
    open spec fn rows(&self, surface: Seq<char>) -> Result<Seq<RowV>, Seq<char>> {
        match self.dictionary.rows(surface) {
            Ok(rows) => Ok(rows.filter(|r: RowV| self.ids@.contains(r.dict_id))),
            Err(why) => Err(why),
        }
    }

    open spec fn stored(&self, ids: Seq<i64>) -> Result<Seq<EntryV>, Seq<char>> {
        self.dictionary.stored(ids)
    }

    open spec fn identities(&self) -> Result<Seq<InfoV>, Seq<char>> {
        self.dictionary.identities()
    }

    open spec fn claims(&self, term: Seq<char>, reading: Seq<char>) -> Seq<ClaimV> {
        self.dictionary.claims(term, reading)
    }

    fn terms_for(&self, surface: &str) -> (r: Result<Vec<TermRow>, StoreError>) {
        let all = match self.dictionary.terms_for(surface) {
            Ok(v) => v,
            Err(e) => {
                return Err(e);
            },
        };
        let ghost rs = rows_v(all@);
        let ghost want = |r: RowV| self.ids@.contains(r.dict_id);
        let mut out: Vec<TermRow> = Vec::new();
        assert(rows_v(out@) =~= rs.take(0).filter(want)) by {
            reveal(Seq::filter);
        }
        let mut i: usize = 0;
        while i < all.len()
            invariant
                i <= all@.len(),
                rs == rows_v(all@),
                want == (|r: RowV| self.ids@.contains(r.dict_id)),
                rows_v(out@) == rs.take(i as int).filter(want),
            decreases all@.len() - i,
        {
            proof {
                reveal(Seq::filter);
                assert(rs.take(i + 1).drop_last() =~= rs.take(i as int));
                assert(rs.take(i + 1).last() == rs[i as int]);
            }
            if has_id(&self.ids, all[i].dict_id) {
                let ghost before = rows_v(out@);
                out.push(all[i].clone());
                assert(rows_v(out@) =~= before.push(rs[i as int]));
            }
            i += 1;
        }
        assert(rs.take(i as int) =~= rs);
        Ok(out)
    }

    fn entries(&self, ids: &Vec<i64>) -> (r: Result<Vec<Entry>, StoreError>) {
        self.dictionary.entries(ids)
    }

    fn dicts(&self) -> (r: Result<Vec<DictInfo>, StoreError>) {
        self.dictionary.dicts()
    }

    fn pitch_for(&self, term: &str, reading: &str) -> (r: Vec<PitchClaim>) {
        self.dictionary.pitch_for(term, reading)
    }
}

fn has_id(ids: &Vec<i64>, id: i64) -> (r: bool)
    ensures
        r == ids@.contains(id),
{
    let mut i: usize = 0;
    while i < ids.len()
        invariant
            i <= ids@.len(),
            forall|j: int| 0 <= j < i ==> #[trigger] ids@[j] != id,
        decreases ids@.len() - i,
    {
        if ids[i] == id {
            assert(ids@[i as int] == id);
            return true;
        }
        i += 1;
    }
    false
}

/// The ids of the Dictionaries that a list of names enables.
pub open spec fn enabled_ids(dicts: Seq<InfoV>, terms: Seq<Seq<char>>) -> Seq<i64> {
    dicts.filter(|d: InfoV| terms.contains(d.name)).map_values(|d: InfoV| d.dict_id)
}

fn ids_enabled(dicts: &[DictInfo], terms: &Vec<String>) -> (r: Vec<i64>)
    ensures
        r@ == enabled_ids(infos_v(dicts@), strs(terms@)),
{
    let ghost ts = strs(terms@);
    let ghost want = |d: InfoV| ts.contains(d.name);
    let ghost pick = |d: InfoV| d.dict_id;
    let ghost all = infos_v(dicts@);
    let mut out: Vec<i64> = Vec::new();
    assert(out@ =~= all.take(0).filter(want).map_values(pick)) by {
        reveal(Seq::filter);
    }
    let mut i: usize = 0;
    while i < dicts.len()
        invariant
            i <= dicts@.len(),
            ts == strs(terms@),
            all == infos_v(dicts@),
            want == (|d: InfoV| ts.contains(d.name)),
            pick == (|d: InfoV| d.dict_id),
            out@ == all.take(i as int).filter(want).map_values(pick),
        decreases dicts@.len() - i,
    {
        proof {
            reveal(Seq::filter);
            assert(all.take(i + 1).drop_last() =~= all.take(i as int));
            assert(all.take(i + 1).last() == all[i as int]);
        }
        if list_has(terms.as_slice(), dicts[i].name.as_str()) {
            let ghost prior = all.take(i as int).filter(want);
            out.push(dicts[i].dict_id);
            assert(prior.push(all[i as int]).map_values(pick) =~= prior.map_values(pick).push(
                all[i as int].dict_id,
            ));
        }
        i += 1;
    }
    assert(all.take(i as int) =~= all);
    out
}

/// The result of a search whose hits have a presentation.
pub open spec fn result_of(p: PresentationV) -> ResultV {
    if p.top is Some {
        ResultV::Found(p)
    } else {
        ResultV::Miss
    }
}

/// Is an outcome that of a search? It is the presentation of a lookup among
/// the enabled Dictionaries.
pub open spec fn searched<D: Dictionary, F: Fn(usize, Option<i64>, bool, usize) -> i64>(
    dictionary: &D,
    engine: LookupEngine,
    dicts: Seq<InfoV>,
    config: PresentV,
    query: Seq<char>,
    score: F,
    r: Result<SearchResult, StoreError>,
) -> bool {
    if trim(query).len() == 0 {
        r matches Ok(x) && x.v() == ResultV::Empty
    } else {
        exists|e: EnabledDictionary<'_, D>, h: Result<Vec<Hit>, StoreError>|
            #![trigger ran(&e, engine.rules(), query, score, h)]
            {
                &&& e.dictionary == dictionary
                &&& e.ids@ == enabled_ids(dicts, config.terms)
                &&& ran(&e, engine.rules(), query, score, h)
                &&& match h {
                    Err(e) => r == Err::<SearchResult, StoreError>(e),
                    Ok(hits) => r matches Ok(x) && x.v() == result_of(
                        model_of(
                            cards_of(hits_v(hits@), dicts, config, dictionary),
                            config.summary_chars,
                        ),
                    ),
                }
            }
    }
}

/// Searches the enabled Dictionaries for a query.
pub fn search<D: Dictionary, F: Fn(usize, Option<i64>, bool, usize) -> i64>(
    dictionary: &D,
    engine: &LookupEngine,
    dicts: &[DictInfo],
    config: &PresentConfig,
    query: &str,
    score: F,
) -> (r: Result<SearchResult, StoreError>)
    requires
        forall|len: usize, freq: Option<i64>, bonus: bool, steps: usize|
            call_requires(score, (len, freq, bonus, steps)),
    ensures
        searched(dictionary, *engine, infos_v(dicts@), config.v(), query@, score, r),
{
    if trim_of(chars_of(query).as_slice()).len() == 0 {
        return Ok(SearchResult::Empty);
    }
    let enabled = EnabledDictionary { dictionary, ids: ids_enabled(dicts, &config.terms) };
    let ran_to = engine.run(&enabled, query, score);
    let ghost h = ran_to;
    assert(ran(&enabled, engine.rules(), query@, score, h));
    match ran_to {
        Err(e) => Err(e),
        Ok(hits) => {
            let p = build(hits.as_slice(), dicts, config, dictionary);
            if p.top.is_some() {
                Ok(SearchResult::Found(Box::new(p)))
            } else {
                Ok(SearchResult::Miss)
            }
        },
    }
}

/// The heading of a card: its headword, and its reading where that differs.
pub open spec fn heading(card: CardV) -> Seq<char> {
    candidate_of(card, 0).headword + (match card.reading {
        Some(r) => if card.written == Some(r) {
            seq![]
        } else {
            "  "@ + r
        },
        None => seq![],
    })
}

/// A pitch position in words.
pub open spec fn position_text(p: PositionV) -> Seq<char> {
    match p {
        PositionV::Downstep(n) => if n == 0 {
            "0 (heiban)"@
        } else {
            decimal(n as nat)
        },
        PositionV::Pattern(s) => s,
    }
}

/// The line of a pitch row.
pub open spec fn pitch_line(row: PitchRowV) -> Seq<char> {
    "Pitch: "@ + position_text(row.accent.position) + " ("@ + joined(row.dicts, ", "@) + ")"@
}

/// The lines of the first `n` pitch rows.
pub open spec fn pitch_lines(rows: Seq<PitchRowV>, n: int) -> Seq<Seq<char>>
    decreases n,
{
    if n <= 0 {
        seq![]
    } else {
        pitch_lines(rows, n - 1).push(pitch_line(rows[n - 1]))
    }
}

/// The lines of the first `n` rows of a block: the tags, then each gloss.
pub open spec fn row_lines(entries: Seq<GlossEntryV>, n: int) -> Seq<Seq<char>>
    decreases n,
{
    if n <= 0 {
        seq![]
    } else {
        let e = entries[n - 1];
        row_lines(entries, n - 1) + (if e.tags.len() > 0 {
            seq![joined(e.tags, " · "@)]
        } else {
            seq![]
        }) + e.glosses
    }
}

/// The lines of the first `n` blocks: the Dictionary, then its rows.
pub open spec fn block_lines(blocks: Seq<BlockV>, n: int) -> Seq<Seq<char>>
    decreases n,
{
    if n <= 0 {
        seq![]
    } else {
        let b = blocks[n - 1];
        block_lines(blocks, n - 1).push("["@ + b.dict_name + "]"@) + row_lines(
            b.entries,
            b.entries.len() as int,
        )
    }
}

/// The lines of a card, with a blank one last.
pub open spec fn card_lines(card: CardV) -> Seq<Seq<char>> {
    let head = seq![heading(card)];
    let freq = match card.freq {
        Some(f) => seq!["Frequency: "@ + signed(f as int)],
        None => seq![],
    };
    let pos = if card.pos.len() > 0 {
        seq![joined(card.pos, " · "@)]
    } else {
        seq![]
    };
    (head + freq + pos + pitch_lines(card.pitch, card.pitch.len() as int) + block_lines(
        card.blocks,
        card.blocks.len() as int,
    )).push(seq![])
}

/// The lines of the first `n` cards.
pub open spec fn lines_upto(cards: Seq<CardV>, n: int) -> Seq<Seq<char>>
    decreases n,
{
    if n <= 0 {
        seq![]
    } else {
        lines_upto(cards, n - 1) + card_lines(cards[n - 1])
    }
}

/// What a result reads as.
pub open spec fn text_of(result: ResultV) -> Seq<char> {
    match result {
        ResultV::Empty => "Type a Japanese word or expression, then press Enter."@,
        ResultV::Miss => "No matching entries in the enabled dictionaries."@,
        ResultV::Found(p) => joined(
            lines_upto(p.all_cards, p.all_cards.len() as int),
            "\n"@,
        ),
    }
}

fn push_line(out: &mut Vec<String>, line: &[char])
    ensures
        strs(final(out)@) == strs(old(out)@).push(line@),
{
    out.push(string_of(line));
    assert(strs(out@) =~= strs(old(out)@).push(line@));
}

fn push_pitch(out: &mut Vec<String>, card: &Card)
    ensures
        strs(final(out)@) == strs(old(out)@) + pitch_lines(
            card.v().pitch,
            card.v().pitch.len() as int,
        ),
{
    let ghost base = strs(out@);
    let ghost ps = pitch_v(card.pitch@);
    assert(base + pitch_lines(ps, 0) =~= base);
    let mut i: usize = 0;
    while i < card.pitch.len()
        invariant
            i <= card.pitch@.len(),
            ps == pitch_v(card.pitch@),
            strs(out@) == base + pitch_lines(ps, i as int),
        decreases card.pitch@.len() - i,
    {
        let row = &card.pitch[i];
        assert(ps[i as int] == row.v());
        let mut line = chars_of("Pitch: ");
        match &row.accent.position {
            Position::Downstep(n) => {
                if *n == 0 {
                    push_chars(&mut line, chars_of("0 (heiban)").as_slice());
                } else {
                    push_chars(&mut line, decimal_of(*n as u64).as_slice());
                }
            },
            Position::Pattern(s) => {
                push_chars(&mut line, chars_of(s.as_str()).as_slice());
            },
        }
        push_chars(&mut line, chars_of(" (").as_slice());
        push_chars(&mut line, chars_of(join(row.dicts.as_slice(), ", ").as_str()).as_slice());
        push_chars(&mut line, chars_of(")").as_slice());
        assert(line@ =~= pitch_line(ps[i as int]));
        let ghost before = strs(out@);
        push_line(out, line.as_slice());
        assert(before.push(line@) =~= base + pitch_lines(ps, i + 1));
        i += 1;
    }
}

fn push_blocks(out: &mut Vec<String>, card: &Card)
    ensures
        strs(final(out)@) == strs(old(out)@) + block_lines(
            card.v().blocks,
            card.v().blocks.len() as int,
        ),
{
    let ghost base = strs(out@);
    let ghost bs = blocks_v(card.blocks@);
    assert(base + block_lines(bs, 0) =~= base);
    let mut b: usize = 0;
    while b < card.blocks.len()
        invariant
            b <= card.blocks@.len(),
            bs == blocks_v(card.blocks@),
            strs(out@) == base + block_lines(bs, b as int),
        decreases card.blocks@.len() - b,
    {
        let block = &card.blocks[b];
        assert(bs[b as int] == block.v());
        let ghost es = gloss_entries_v(block.entries@);
        let mut line = chars_of("[");
        push_chars(&mut line, chars_of(block.dict_name.as_str()).as_slice());
        push_chars(&mut line, chars_of("]").as_slice());
        let ghost head = "["@ + block.dict_name@ + "]"@;
        assert(line@ =~= head);
        push_line(out, line.as_slice());
        let ghost start = strs(out@);
        assert(start =~= base + block_lines(bs, b as int).push(head));
        assert(start + row_lines(es, 0) =~= start);
        let mut i: usize = 0;
        while i < block.entries.len()
            invariant
                i <= block.entries@.len(),
                es == gloss_entries_v(block.entries@),
                strs(out@) == start + row_lines(es, i as int),
            decreases block.entries@.len() - i,
        {
            let e = &block.entries[i];
            assert(es[i as int] == e.v());
            let ghost before = strs(out@);
            assert(strs(e.tags@).len() == e.tags@.len());
            if e.tags.len() > 0 {
                push_line(out, chars_of(join(e.tags.as_slice(), " · ").as_str()).as_slice());
            }
            let ghost tagged = if e.tags@.len() > 0 {
                seq![joined(strs(e.tags@), " · "@)]
            } else {
                seq![]
            };
            assert(strs(out@) =~= before + tagged);
            let ghost gs = strs(e.glosses@);
            let ghost mid = strs(out@);
            assert(mid + gs.take(0) =~= mid);
            let mut k: usize = 0;
            while k < e.glosses.len()
                invariant
                    k <= e.glosses@.len(),
                    gs == strs(e.glosses@),
                    strs(out@) == mid + gs.take(k as int),
                decreases e.glosses@.len() - k,
            {
                let ghost prior = strs(out@);
                out.push(e.glosses[k].clone());
                assert(strs(out@) =~= prior.push(gs[k as int]));
                assert(mid + gs.take(k + 1) =~= (mid + gs.take(k as int)).push(gs[k as int]));
                k += 1;
            }
            assert(gs.take(k as int) =~= gs);
            assert(start + row_lines(es, i as int) + tagged + gs =~= start + row_lines(es, i + 1));
            i += 1;
        }
        assert(start + row_lines(es, i as int) =~= base + block_lines(bs, b + 1));
        b += 1;
    }
}

fn push_card(out: &mut Vec<String>, card: &Card)
    ensures
        strs(final(out)@) == strs(old(out)@) + card_lines(card.v()),
{
    let ghost base = strs(out@);
    let ghost cv = card.v();
    let mut head = chars_of(headword_of(card).as_str());
    if let Some(reading) = &card.reading {
        if !same_opt(&card.reading, &card.written) {
            push_chars(&mut head, chars_of("  ").as_slice());
            push_chars(&mut head, chars_of(reading.as_str()).as_slice());
        }
    }
    assert(head@ =~= heading(cv));
    push_line(out, head.as_slice());
    let ghost l1 = seq![heading(cv)];
    assert(strs(out@) =~= base + l1);
    let ghost l2 = match cv.freq {
        Some(f) => seq!["Frequency: "@ + signed(f as int)],
        None => seq![],
    };
    if let Some(freq) = card.freq {
        let mut line = chars_of("Frequency: ");
        push_chars(&mut line, signed_of(freq).as_slice());
        push_line(out, line.as_slice());
    }
    assert(strs(out@) =~= base + l1 + l2);
    let ghost l3 = if cv.pos.len() > 0 {
        seq![joined(cv.pos, " · "@)]
    } else {
        seq![]
    };
    assert(strs(card.pos@).len() == card.pos@.len());
    if card.pos.len() > 0 {
        push_line(out, chars_of(join(card.pos.as_slice(), " · ").as_str()).as_slice());
    }
    assert(strs(out@) =~= base + l1 + l2 + l3);
    push_pitch(out, card);
    push_blocks(out, card);
    let ghost l4 = pitch_lines(cv.pitch, cv.pitch.len() as int);
    let ghost l5 = block_lines(cv.blocks, cv.blocks.len() as int);
    let blank: Vec<char> = Vec::new();
    assert(blank@ =~= seq![]);
    push_line(out, blank.as_slice());
    assert(strs(out@) =~= base + (l1 + l2 + l3 + l4 + l5).push(seq![]));
}

pub fn result_text(result: &SearchResult) -> (r: String)
    ensures
        r@ == text_of(result.v()),
{
    match result {
        SearchResult::Empty => "Type a Japanese word or expression, then press Enter.".to_owned(),
        SearchResult::Miss => "No matching entries in the enabled dictionaries.".to_owned(),
        SearchResult::Found(p) => {
            let ghost cs = cards_v(p.all_cards@);
            let mut out: Vec<String> = Vec::new();
            assert(strs(out@) =~= seq![]);
            let mut i: usize = 0;
            while i < p.all_cards.len()
                invariant
                    i <= p.all_cards@.len(),
                    cs == cards_v(p.all_cards@),
                    strs(out@) == lines_upto(cs, i as int),
                decreases p.all_cards@.len() - i,
            {
                assert(cs[i as int] == p.all_cards@[i as int].v());
                push_card(&mut out, &p.all_cards[i]);
                i += 1;
            }
            join(out.as_slice(), "\n")
        },
    }
}


// ---- laws ----

/// Candidate `i` of a result is card `i` of it: it has that index, and its
/// headword and reading are those of the card that picking it opens.
pub proof fn a_candidate_names_the_card_it_opens(result: ResultV, i: int)
    requires
        0 <= i < candidates_of(result).len(),
    ensures
        result is Found,
        candidates_of(result).len() == result->Found_0.all_cards.len(),
        candidates_of(result)[i].index == i,
        selection_of(result, i) is Some,
        selection_of(result, i)->0.top == Some(result->Found_0.all_cards[i]),
        selection_of(result, i)->0.all_cards == seq![result->Found_0.all_cards[i]],
        ({
            let c = candidates_of(result)[i];
            let card = selection_of(result, i)->0.top->0;
            &&& card.reading is Some ==> c.reading == card.reading->0
            &&& card.reading is None ==> c.reading.len() == 0
            &&& card.written is Some ==> c.headword == card.written->0
            &&& card.written is None ==> c.headword == c.reading
        }),
{
}

/// Every card of a result has a candidate, and picking beyond them opens
/// nothing.
pub proof fn every_card_is_offered(result: ResultV, i: int)
    ensures
        selection_of(result, i) is Some <==> 0 <= i < candidates_of(result).len(),
        result matches ResultV::Found(p) ==> candidates_of(result).len() == p.all_cards.len(),
        !(result is Found) ==> candidates_of(result).len() == 0,
{
}

/// A candidate's summary is the start of the card's first gloss, and all of it
/// where it is short.
pub proof fn a_summary_starts_the_first_gloss(result: ResultV, i: int, b: int, e: int)
    requires
        result is Found,
        0 <= i < result->Found_0.all_cards.len(),
        ({
            let blocks = result->Found_0.all_cards[i].blocks;
            &&& 0 <= b < blocks.len()
            &&& 0 <= e < blocks[b].entries.len()
            &&& blocks[b].entries[e].glosses.len() > 0
            &&& forall|x: int, y: int|
                0 <= x <= b && 0 <= y < blocks[x].entries.len() && (x < b || y < e)
                    ==> (#[trigger] blocks[x].entries[y]).glosses.len() == 0
        }),
    ensures
        ({
            let gloss = result->Found_0.all_cards[i].blocks[b].entries[e].glosses[0];
            let summary = candidates_of(result)[i].summary;
            &&& summary.len() <= 80
            &&& gloss.len() <= 80 ==> summary == gloss
            &&& gloss.len() > 80 ==> summary.len() == 80 && summary == gloss.take(80)
        }),
{
    let blocks = result->Found_0.all_cards[i].blocks;
    blank_blocks(blocks, b);
    let entries = blocks[b].entries;
    blank_rows(entries, e);
    let before = rows_upto(blocks, b);
    let gloss = entries[e].glosses[0];
    assert(glosses_upto(entries, e + 1) =~= entries[e].glosses);
    glosses_go_on(entries, e + 1, entries.len() as int);
    glosses_split(before, entries, entries.len() as int);
    let upto = rows_upto(blocks, b + 1);
    assert(glosses_upto(upto, upto.len() as int) =~= glosses_upto(entries, entries.len() as int));
    rows_from(blocks, b + 1, blocks.len() as int);
}

proof fn blank_rows(entries: Seq<GlossEntryV>, n: int)
    requires
        0 <= n <= entries.len(),
        forall|y: int| 0 <= y < n ==> (#[trigger] entries[y]).glosses.len() == 0,
    ensures
        glosses_upto(entries, n).len() == 0,
    decreases n,
{
    if n > 0 {
        blank_rows(entries, n - 1);
    }
}

proof fn blank_blocks(blocks: Seq<BlockV>, n: int)
    requires
        0 <= n <= blocks.len(),
        forall|x: int, y: int|
            0 <= x < n && 0 <= y < blocks[x].entries.len() ==> (
            #[trigger] blocks[x].entries[y]).glosses.len() == 0,
    ensures
        glosses_upto(rows_upto(blocks, n), rows_upto(blocks, n).len() as int).len() == 0,
    decreases n,
{
    if n > 0 {
        blank_blocks(blocks, n - 1);
        let entries = blocks[n - 1].entries;
        assert forall|y: int| 0 <= y < entries.len() implies (#[trigger] entries[y]).glosses.len()
            == 0 by {
            assert(blocks[n - 1].entries[y].glosses.len() == 0);
        }
        blank_rows(entries, entries.len() as int);
        glosses_split(rows_upto(blocks, n - 1), entries, entries.len() as int);
    }
}

proof fn glosses_go_on(entries: Seq<GlossEntryV>, m: int, n: int)
    requires
        0 <= m <= n <= entries.len(),
        glosses_upto(entries, m).len() > 0,
    ensures
        glosses_upto(entries, n).len() > 0,
        glosses_upto(entries, n)[0] == glosses_upto(entries, m)[0],
    decreases n,
{
    if m < n {
        glosses_go_on(entries, m, n - 1);
    }
}

/// The token at a byte is one that can be selected and has the byte in its
/// range, and there is none only where no such token is.
pub proof fn a_token_answers_for_its_range(tokens: Seq<TokenV>, byte: int)
    ensures
        match token_at(tokens, byte) {
            Some(t) => {
                &&& tokens.contains(t)
                &&& t.selectable
                &&& t.range.start <= byte
                &&& byte < t.range.end
            },
            None => forall|i: int|
                0 <= i < tokens.len() ==> !((#[trigger] tokens[i]).selectable && tokens[i].range.start
                    <= byte && byte < tokens[i].range.end),
        },
    decreases tokens.len(),
{
    if tokens.len() > 0 {
        if answers(tokens[0], byte) {
            assert(tokens[0] == token_at(tokens, byte)->0);
        } else {
            let rest = tokens.skip(1);
            a_token_answers_for_its_range(rest, byte);
            match token_at(rest, byte) {
                Some(t) => {
                    let k = choose|k: int| 0 <= k < rest.len() && rest[k] == t;
                    assert(tokens[k + 1] == t);
                },
                None => {
                    assert forall|i: int| 0 <= i < tokens.len() implies !((
                    #[trigger] tokens[i]).selectable && tokens[i].range.start <= byte && byte
                        < tokens[i].range.end) by {
                        if i > 0 {
                            assert(rest[i - 1] == tokens[i]);
                        }
                    }
                },
            }
        }
    }
}

/// Do tokens stand one behind another, from a byte on to another?
pub open spec fn unbroken(tokens: Seq<TokenV>, start: int, end: int) -> bool {
    &&& tokens.len() == 0 ==> start == end
    &&& tokens.len() > 0 ==> tokens[0].range.start == start && tokens.last().range.end == end
    &&& forall|i: int, j: int|
        0 <= i < tokens.len() && j == i + 1 && j < tokens.len() ==> (#[trigger] tokens[i]).range.end
            == (#[trigger] tokens[j]).range.start
    &&& forall|i: int|
        0 <= i < tokens.len() ==> (#[trigger] tokens[i]).range.start < tokens[i].range.end
}

proof fn one_more_token(tokens: Seq<TokenV>, end: int, t: TokenV)
    requires
        unbroken(tokens, 0, end),
        t.range.start == end,
        t.range.start < t.range.end,
    ensures
        unbroken(tokens.push(t), 0, t.range.end as int),
{
    let all = tokens.push(t);
    assert forall|i: int, j: int|
        0 <= i < all.len() && j == i + 1 && j < all.len() implies (#[trigger] all[i]).range.end == (
    #[trigger] all[j]).range.start by {
        if j < tokens.len() {
            assert(tokens[i].range.end == tokens[j].range.start);
        } else {
            assert(all[i] == tokens.last());
        }
    }
    if tokens.len() > 0 {
        assert(all[0] == tokens[0]);
    }
}

/// Is a token told rightly: the text of its range, and to be selected only
/// where it is a word that was found and holds a letter or a digit?
#[verifier::opaque]
pub open spec fn told_rightly(text: Seq<char>, words: Seq<ByteRange>, t: TokenV) -> bool {
    &&& exists|a: int, b: int|
        0 <= a <= b <= text.len() && byte_len(#[trigger] text.take(a)) == t.range.start && byte_len(
            #[trigger] text.take(b),
        ) == t.range.end && t.text == text.subrange(a, b)
    &&& t.selectable ==> words.contains(t.range) && exists|i: int|
        0 <= i < t.text.len() && alphanumeric(#[trigger] t.text[i])
}

proof fn a_token_is_told_rightly(
    text: Seq<char>,
    words: Seq<ByteRange>,
    start: usize,
    end: usize,
    selectable: bool,
)
    requires
        start <= end,
        boundary(text, start as int),
        boundary(text, end as int),
        selectable ==> words.contains(ByteRange { start, end }) && wordy(
            part(text, start as int, end as int),
        ),
    ensures
        told_rightly(text, words, token(text, start, end, selectable)),
{
    reveal(told_rightly);
    at_byte_counts(text, 0, start as int);
    at_byte_counts(text, 0, end as int);
    at_byte_later(text, 0, start as int, end as int);
    let a = at_byte(text, 0, start as int)->0;
    let b = at_byte(text, 0, end as int)->0;
    assert(text.take(0) =~= seq![]);
    assert(byte_len(text.take(a)) == start);
    assert(byte_len(text.take(b)) == end);
    let t = token(text, start, end, selectable);
    assert(t.text == text.subrange(a, b));
    if selectable {
        let i = choose|i: int| 0 <= i < t.text.len() && alphanumeric(#[trigger] t.text[i]);
        assert(alphanumeric(t.text[i]));
    }
}

proof fn tokens_stand(text: Seq<char>, words: Seq<ByteRange>, n: int)
    requires
        0 <= n <= words.len(),
    ensures
        unbroken(tokens_upto(text, words, n), 0, parted_to(text, words, n) as int),
        forall|i: int|
            0 <= i < tokens_upto(text, words, n).len() ==> told_rightly(
                text,
                words,
                #[trigger] tokens_upto(text, words, n)[i],
            ),
    decreases n,
{
    if n > 0 {
        tokens_stand(text, words, n - 1);
        parted_boundary(text, words, n - 1);
        let before = tokens_upto(text, words, n - 1);
        let end = parted_to(text, words, n - 1);
        let w = words[n - 1];
        if takes(text, end as int, w) {
            let sel = wordy(part(text, w.start as int, w.end as int));
            assert(words.contains(w));
            assert(w == (ByteRange { start: w.start, end: w.end }));
            a_token_is_told_rightly(text, words, w.start, w.end, sel);
            let last = token(text, w.start, w.end, sel);
            if w.start > end {
                a_token_is_told_rightly(text, words, end, w.start, false);
                let gap = token(text, end, w.start, false);
                one_more_token(before, end as int, gap);
                one_more_token(before.push(gap), w.start as int, last);
            } else {
                one_more_token(before, end as int, last);
            }
        }
    }
}

/// The tokens of a text cover it without a gap, from its first byte to its
/// last, and each tells its own range.
pub proof fn tokens_stand_one_behind_another(text: Seq<char>, words: Seq<ByteRange>)
    requires
        byte_len(text) <= usize::MAX,
    ensures
        unbroken(tokens_of(text, words), 0, byte_len(text) as int),
        forall|i: int|
            0 <= i < tokens_of(text, words).len() ==> told_rightly(
                text,
                words,
                #[trigger] tokens_of(text, words)[i],
            ),
{
    let n = words.len() as int;
    tokens_stand(text, words, n);
    parted_boundary(text, words, n);
    let end = parted_to(text, words, n);
    assert(text.skip(0) =~= text);
    at_end(text, 0);
    if end < byte_len(text) {
        a_token_is_told_rightly(text, words, end, byte_len(text) as usize, false);
        one_more_token(
            tokens_upto(text, words, n),
            end as int,
            token(text, end, byte_len(text) as usize, false),
        );
    }
}

proof fn words_become_tokens(text: Seq<char>, words: Seq<ByteRange>, n: int)
    requires
        0 <= n <= words.len(),
        forall|i: int| 0 <= i < words.len() ==> (#[trigger] words[i]).start < words[i].end,
        forall|i: int, j: int|
            0 <= i < j < words.len() ==> (#[trigger] words[i]).end <= (#[trigger] words[j]).start,
        forall|i: int|
            0 <= i < words.len() ==> boundary(text, (#[trigger] words[i]).start as int) && boundary(
                text,
                words[i].end as int,
            ),
    ensures
        n > 0 ==> parted_to(text, words, n) == words[n - 1].end,
        n == 0 ==> parted_to(text, words, n) == 0,
        forall|i: int|
            0 <= i < n ==> exists|k: int|
                0 <= k < tokens_upto(text, words, n).len() && (#[trigger] tokens_upto(
                    text,
                    words,
                    n,
                )[k]).range == #[trigger] words[i] && tokens_upto(text, words, n)[k].selectable == wordy(
                    tokens_upto(text, words, n)[k].text,
                ),
    decreases n,
{
    if n > 0 {
        words_become_tokens(text, words, n - 1);
        let before = tokens_upto(text, words, n - 1);
        let all = tokens_upto(text, words, n);
        let end = parted_to(text, words, n - 1);
        let w = words[n - 1];
        if n > 1 {
            assert(words[n - 2].end <= words[n - 1].start);
        }
        assert(takes(text, end as int, w));
        assert forall|i: int| 0 <= i < n implies exists|k: int|
            0 <= k < all.len() && (#[trigger] all[k]).range == #[trigger] words[i]
                && all[k].selectable == wordy(all[k].text) by {
            if i < n - 1 {
                let k = choose|k: int|
                    0 <= k < before.len() && (#[trigger] before[k]).range == words[i]
                        && before[k].selectable == wordy(before[k].text);
                assert(all[k] == before[k]);
            } else {
                let t = all[all.len() - 1];
                assert(t == token(text, w.start, w.end, wordy(part(text, w.start as int, w.end as int))));
                assert(t.range == w);
            }
        }
    }
}

/// Each word that was found is a token of its own, to be selected where it
/// holds a letter or a digit, if the words stand in order and apart, on
/// character boundaries.
pub proof fn every_word_found_is_a_token(text: Seq<char>, words: Seq<ByteRange>, i: int)
    requires
        0 <= i < words.len(),
        forall|i: int| 0 <= i < words.len() ==> (#[trigger] words[i]).start < words[i].end,
        forall|i: int, j: int|
            0 <= i < j < words.len() ==> (#[trigger] words[i]).end <= (#[trigger] words[j]).start,
        forall|i: int|
            0 <= i < words.len() ==> boundary(text, (#[trigger] words[i]).start as int) && boundary(
                text,
                words[i].end as int,
            ),
    ensures
        exists|k: int|
            0 <= k < tokens_of(text, words).len() && (#[trigger] tokens_of(text, words)[k]).range
                == words[i] && (tokens_of(text, words)[k].selectable <==> exists|c: int|
                0 <= c < tokens_of(text, words)[k].text.len() && alphanumeric(
                    #[trigger] tokens_of(text, words)[k].text[c],
                )),
{
    let n = words.len() as int;
    words_become_tokens(text, words, n);
    let upto = tokens_upto(text, words, n);
    let all = tokens_of(text, words);
    let k = choose|k: int|
        0 <= k < upto.len() && (#[trigger] upto[k]).range == words[i] && upto[k].selectable == wordy(
            upto[k].text,
        );
    assert(all[k] == upto[k]);
    assert(wordy(all[k].text) <==> exists|c: int|
        0 <= c < all[k].text.len() && alphanumeric(#[trigger] all[k].text[c]));
}

/// A Dictionary is searched exactly where the list names it.
pub proof fn a_listed_dictionary_is_searched(dicts: Seq<InfoV>, terms: Seq<Seq<char>>, id: i64)
    ensures
        enabled_ids(dicts, terms).contains(id) <==> exists|k: int|
            0 <= k < dicts.len() && (#[trigger] dicts[k]).dict_id == id && terms.contains(
                dicts[k].name,
            ),
    decreases dicts.len(),
{
    reveal(Seq::filter);
    let want = |d: InfoV| terms.contains(d.name);
    let pick = |d: InfoV| d.dict_id;
    if dicts.len() > 0 {
        let front = dicts.drop_last();
        let last = dicts[dicts.len() - 1];
        a_listed_dictionary_is_searched(front, terms, id);
        let before = enabled_ids(front, terms);
        let all = enabled_ids(dicts, terms);
        if want(last) {
            assert(all =~= before.push(last.dict_id));
        } else {
            assert(all =~= before);
        }
        if all.contains(id) {
            let x = choose|x: int| 0 <= x < all.len() && all[x] == id;
            if x < before.len() {
                assert(before[x] == id);
                let k = choose|k: int|
                    0 <= k < front.len() && (#[trigger] front[k]).dict_id == id && terms.contains(
                        front[k].name,
                    );
                assert(dicts[k] == front[k]);
            } else {
                assert(last.dict_id == id);
            }
        }
        if exists|k: int|
            0 <= k < dicts.len() && (#[trigger] dicts[k]).dict_id == id && terms.contains(
                dicts[k].name,
            ) {
            let k = choose|k: int|
                0 <= k < dicts.len() && (#[trigger] dicts[k]).dict_id == id && terms.contains(
                    dicts[k].name,
                );
            if k < front.len() {
                assert(front[k].dict_id == id);
                assert(before.contains(id));
                let x = choose|x: int| 0 <= x < before.len() && before[x] == id;
                assert(all[x] == id);
            } else {
                assert(all[all.len() - 1] == id);
            }
        }
    }
}

/// A search is found exactly where there is a card, and then shows them all.
pub proof fn a_search_with_a_card_is_found(cards: Seq<CardV>, n: usize)
    ensures
        cards.len() == 0 ==> result_of(model_of(cards, n)) == ResultV::Miss,
        cards.len() > 0 ==> result_of(model_of(cards, n)) is Found && result_of(
            model_of(cards, n),
        )->Found_0.all_cards == cards && result_of(model_of(cards, n))->Found_0.top == Some(cards[0]),
{
}

proof fn lines_keep(cards: Seq<CardV>, m: int, n: int, line: Seq<char>)
    requires
        0 <= m < n,
        card_lines(cards[m]).contains(line),
    ensures
        lines_upto(cards, n).contains(line),
    decreases n,
{
    let all = lines_upto(cards, n);
    let before = lines_upto(cards, n - 1);
    let own = card_lines(cards[n - 1]);
    if m == n - 1 {
        let k = choose|k: int| 0 <= k < own.len() && own[k] == line;
        assert(all[before.len() + k] == line);
    } else {
        lines_keep(cards, m, n - 1, line);
        let k = choose|k: int| 0 <= k < before.len() && before[k] == line;
        assert(all[k] == line);
    }
}

proof fn row_lines_keep(entries: Seq<GlossEntryV>, m: int, n: int, g: int)
    requires
        0 <= m < n <= entries.len(),
        0 <= g < entries[m].glosses.len(),
    ensures
        row_lines(entries, n).contains(entries[m].glosses[g]),
    decreases n,
{
    let all = row_lines(entries, n);
    let before = row_lines(entries, n - 1);
    if m == n - 1 {
        let k = all.len() - entries[m].glosses.len() + g;
        assert(all[k] == entries[m].glosses[g]);
    } else {
        row_lines_keep(entries, m, n - 1, g);
        let k = choose|k: int| 0 <= k < before.len() && before[k] == entries[m].glosses[g];
        assert(all[k] == before[k]);
    }
}

proof fn block_lines_keep(blocks: Seq<BlockV>, m: int, n: int)
    requires
        0 <= m < n <= blocks.len(),
    ensures
        block_lines(blocks, n).contains("["@ + blocks[m].dict_name + "]"@),
        forall|line: Seq<char>| #[trigger]
            row_lines(blocks[m].entries, blocks[m].entries.len() as int).contains(line)
                ==> block_lines(blocks, n).contains(line),
    decreases n,
{
    let all = block_lines(blocks, n);
    let before = block_lines(blocks, n - 1);
    let own = row_lines(blocks[n - 1].entries, blocks[n - 1].entries.len() as int);
    let name = "["@ + blocks[n - 1].dict_name + "]"@;
    assert(all == before.push(name) + own);
    if m == n - 1 {
        assert(all[before.len() as int] == name);
        assert forall|line: Seq<char>| #[trigger] own.contains(line) implies all.contains(line) by {
            let k = choose|k: int| 0 <= k < own.len() && own[k] == line;
            assert(all[before.len() + 1 + k] == line);
        }
    } else {
        block_lines_keep(blocks, m, n - 1);
        let head = "["@ + blocks[m].dict_name + "]"@;
        let k = choose|k: int| 0 <= k < before.len() && before[k] == head;
        assert(all[k] == head);
        let rows = row_lines(blocks[m].entries, blocks[m].entries.len() as int);
        assert forall|line: Seq<char>| #[trigger] rows.contains(line) implies all.contains(line) by {
            assert(before.contains(line));
            let k = choose|k: int| 0 <= k < before.len() && before[k] == line;
            assert(all[k] == line);
        }
    }
}

/// The text of a result has a line for each card that starts with its headword,
/// one for each Dictionary of it, and one for each gloss.
pub proof fn the_text_tells_every_gloss(cards: Seq<CardV>, i: int, b: int, e: int, g: int)
    requires
        0 <= i < cards.len(),
        0 <= b < cards[i].blocks.len(),
        0 <= e < cards[i].blocks[b].entries.len(),
        0 <= g < cards[i].blocks[b].entries[e].glosses.len(),
    ensures
        ({
            let lines = lines_upto(cards, cards.len() as int);
            let block = cards[i].blocks[b];
            &&& lines.contains(heading(cards[i]))
            &&& lines.contains("["@ + block.dict_name + "]"@)
            &&& lines.contains(block.entries[e].glosses[g])
        }),
{
    let card = cards[i];
    let own = card_lines(card);
    let blocks = block_lines(card.blocks, card.blocks.len() as int);
    block_lines_keep(card.blocks, b, card.blocks.len() as int);
    row_lines_keep(card.blocks[b].entries, e, card.blocks[b].entries.len() as int, g);
    let off = own.len() - 1 - blocks.len();
    assert forall|line: Seq<char>| #[trigger] blocks.contains(line) implies own.contains(line) by {
        let k = choose|k: int| 0 <= k < blocks.len() && blocks[k] == line;
        assert(own[off + k] == line);
    }
    assert(own[0] == heading(card));
    lines_keep(cards, i, cards.len() as int, heading(card));
    lines_keep(cards, i, cards.len() as int, "["@ + card.blocks[b].dict_name + "]"@);
    lines_keep(cards, i, cards.len() as int, card.blocks[b].entries[e].glosses[g]);
}

/// A heading is the headword, and the reading behind it where that is another
/// text.
pub proof fn a_heading_names_word_and_reading(card: CardV)
    ensures
        card.written is Some && card.reading is Some && card.written != card.reading ==> heading(
            card,
        ) == card.written->0 + "  "@ + card.reading->0,
        card.written is Some && (card.reading is None || card.reading == card.written) ==> heading(
            card,
        ) == card.written->0,
{
    if card.written is Some {
        let w = card.written->0;
        assert(w + seq![] =~= w);
        if card.reading is Some {
            assert(w + ("  "@ + card.reading->0) =~= w + "  "@ + card.reading->0);
        }
    }
}

/// A pitch is told as the mora that it falls behind, and a flat one as flat,
/// with the Dictionaries that report it.
pub proof fn a_pitch_line_tells_where_it_falls(row: PitchRowV, n: u32)
    ensures
        row.accent.position == PositionV::Downstep(n) && n > 0 ==> pitch_line(row) == "Pitch: "@
            + decimal(n as nat) + " ("@ + joined(row.dicts, ", "@) + ")"@,
        row.accent.position == PositionV::Downstep(0) ==> pitch_line(row) == "Pitch: "@
            + "0 (heiban)"@ + " ("@ + joined(row.dicts, ", "@) + ")"@,
        row.accent.position matches PositionV::Pattern(p) ==> pitch_line(row) == "Pitch: "@ + p
            + " ("@ + joined(row.dicts, ", "@) + ")"@,
{
}

/// A card is told under its heading, with its frequency next where it has one,
/// its pitch rows before its blocks, and a blank line last.
pub proof fn a_card_is_told_heading_first(card: CardV, i: int)
    requires
        0 <= i < card.pitch.len(),
    ensures
        ({
            let lines = card_lines(card);
            let f: int = if card.freq is Some {
                1
            } else {
                0
            };
            let p: int = if card.pos.len() > 0 {
                1
            } else {
                0
            };
            &&& lines[0] == heading(card)
            &&& card.freq matches Some(n) ==> lines[1] == "Frequency: "@ + signed(n as int)
            &&& card.pos.len() > 0 ==> lines[1 + f] == joined(card.pos, " · "@)
            &&& lines[1 + f + p + i] == pitch_line(card.pitch[i])
            &&& card.blocks.len() > 0 ==> lines[1 + f + p + card.pitch.len()] == "["@
                + card.blocks[0].dict_name + "]"@
            &&& lines.last().len() == 0
        }),
{
    pitch_lines_stand(card.pitch, card.pitch.len() as int, i);
    if card.blocks.len() > 0 {
        first_block_stands(card.blocks, card.blocks.len() as int);
    }
}

proof fn pitch_lines_stand(rows: Seq<PitchRowV>, n: int, i: int)
    requires
        0 <= n <= rows.len(),
    ensures
        pitch_lines(rows, n).len() == n,
        0 <= i < n ==> pitch_lines(rows, n)[i] == pitch_line(rows[i]),
    decreases n,
{
    if n > 0 {
        pitch_lines_stand(rows, n - 1, i);
    }
}

proof fn first_block_stands(blocks: Seq<BlockV>, n: int)
    requires
        0 < n <= blocks.len(),
    ensures
        block_lines(blocks, n).len() > 0,
        block_lines(blocks, n)[0] == "["@ + blocks[0].dict_name + "]"@,
    decreases n,
{
    if n > 1 {
        first_block_stands(blocks, n - 1);
    } else {
        assert(block_lines(blocks, n - 1).len() == 0);
    }
}

/// A row tells its tags, where it says any, right before its glosses.
pub proof fn a_row_tells_its_tags_first(entries: Seq<GlossEntryV>, n: int, g: int)
    requires
        0 < n <= entries.len(),
        0 <= g < entries[n - 1].glosses.len(),
    ensures
        ({
            let at = row_lines(entries, n - 1).len() as int;
            let e = entries[n - 1];
            let t: int = if e.tags.len() > 0 {
                1
            } else {
                0
            };
            &&& e.tags.len() > 0 ==> row_lines(entries, n)[at] == joined(e.tags, " · "@)
            &&& row_lines(entries, n)[at + t + g] == e.glosses[g]
            &&& row_lines(entries, n).len() == at + t + e.glosses.len()
        }),
{
}

/// A search that cannot look up fails, and one that can does not.
pub proof fn a_search_fails_where_its_lookup_does<
    D: Dictionary,
    F: Fn(usize, Option<i64>, bool, usize) -> i64,
>(
    dictionary: &D,
    engine: LookupEngine,
    dicts: Seq<InfoV>,
    config: PresentV,
    query: Seq<char>,
    score: F,
    r: Result<SearchResult, StoreError>,
)
    requires
        searched(dictionary, engine, dicts, config, query, score, r),
    ensures
        r matches Err(cause) ==> exists|e: EnabledDictionary<'_, D>| #[trigger]
            ran(&e, engine.rules(), query, score, Err::<Vec<Hit>, StoreError>(cause)),
        trim(query).len() > 0 && (forall|e: EnabledDictionary<'_, D>, h: Result<Vec<Hit>, StoreError>| #[trigger]
            ran(&e, engine.rules(), query, score, h) ==> h is Err) ==> r is Err,
{
    if r is Err {
        let (e, h) = choose|e: EnabledDictionary<'_, D>, h: Result<Vec<Hit>, StoreError>|
            #![trigger ran(&e, engine.rules(), query, score, h)]
            ran(&e, engine.rules(), query, score, h) && match h {
                Err(cause) => r == Err::<SearchResult, StoreError>(cause),
                Ok(hits) => r is Ok,
            };
        assert(ran(&e, engine.rules(), query, score, h));
        assert(h == Err::<Vec<Hit>, StoreError>(r->Err_0));
    }
}

} // verus!
