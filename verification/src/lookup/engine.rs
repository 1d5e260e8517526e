//! The lookup engine.
use super::deconj::{deconjugated, forms_v, Deconjugator, Form, FormV};
use super::model::{
    entries_v, hits_v, rows_v, Dictionary, Entry, EntryV, Hit, HitV, RowV, StoreError, TermRow,
};
use super::rules::RuleV;
use crate::chars::{
    chars_of, compare_list, copy_list, is_text, lex_list, lists_stand_in_one_order, same_opt, same_str, string_of, strs,
    texts, trim, trim_of, words, words_of,
};
use std::collections::HashMap;
use vstd::prelude::*;
use vstd::slice::slice_subrange;

verus! {

pub const MAX_LOOKUP_CHARS: usize = 25;

pub const MAX_RESULTS: usize = 10;

/// A character that ends a looked-up text.
pub open spec fn separator(c: char) -> bool {
    c == '、' || c == '。' || c == '「' || c == '」' || c == '！' || c == '？' || c == '…' || c == '\n'
}

/// Where the first separator stands, or the length where there is none.
pub open spec fn cut_at(s: Seq<char>) -> int
    decreases s.len(),
{
    if s.len() == 0 || separator(s[0]) {
        0
    } else {
        1 + cut_at(s.skip(1))
    }
}

/// A text trimmed, cut at its first separator, and cut to the lookup length.
pub open spec fn cleaned(text: Seq<char>) -> Seq<char> {
    let t = trim(text);
    let k = cut_at(t);
    t.take(
        if k < MAX_LOOKUP_CHARS {
            k
        } else {
            MAX_LOOKUP_CHARS as int
        },
    )
}

/// Trim, cut, truncate.
pub fn clean_input(text: &str) -> (r: String)
    ensures
        r@ == cleaned(text@),
{
    let all = chars_of(text);
    let t = trim_of(all.as_slice());
    let mut k: usize = 0;
    assert(t@.skip(0) =~= t@);
    while k < t.len() && !(t[k] == '、' || t[k] == '。' || t[k] == '「' || t[k] == '」' || t[k] == '！'
        || t[k] == '？' || t[k] == '…' || t[k] == '\n')
        invariant
            k <= t@.len(),
            cut_at(t@) == k + cut_at(t@.skip(k as int)),
        decreases t@.len() - k,
    {
        assert(t@.skip(k as int).skip(1) =~= t@.skip(k + 1));
        k += 1;
    }
    let n = if k < MAX_LOOKUP_CHARS {
        k
    } else {
        MAX_LOOKUP_CHARS
    };
    assert(t@.subrange(0, n as int) =~= t@.take(n as int));
    string_of(slice_subrange(t, 0, n))
}

/// Hiragana or katakana.
pub open spec fn kana(c: char) -> bool {
    0x3040 <= c as u32 <= 0x309f || 0x30a0 <= c as u32 <= 0x30ff
}

pub open spec fn all_kana(s: Seq<char>) -> bool {
    forall|i: int| 0 <= i < s.len() ==> kana(#[trigger] s[i])
}

fn is_all_kana(s: &str) -> (r: bool)
    ensures
        r == all_kana(s@),
{
    let v = chars_of(s);
    let mut i: usize = 0;
    while i < v.len()
        invariant
            i <= v@.len(),
            v@ == s@,
            forall|j: int| 0 <= j < i ==> kana(#[trigger] s@[j]),
        decreases v@.len() - i,
    {
        let u = v[i] as u32;
        if !((0x3040 <= u && u <= 0x309f) || (0x30a0 <= u && u <= 0x30ff)) {
            assert(!kana(s@[i as int]));
            return false;
        }
        i += 1;
    }
    true
}

/// A fine deconjugation tag as the coarse part of speech that rows carry:
/// `None` for a tag that is not known, `Some(None)` for one that says nothing
/// of the part of speech.
pub open spec fn pos_for(tag: Seq<char>) -> Option<Option<Seq<char>>> {
    if tag == "v5aru"@ || tag == "v5b"@ || tag == "v5g"@ || tag == "v5k"@ || tag == "v5k-s"@ || tag
        == "v5m"@ || tag == "v5n"@ || tag == "v5r"@ || tag == "v5r-i"@ || tag == "v5s"@ || tag == "v5t"@
        || tag == "v5u"@ || tag == "v5u-s"@ {
        Some(Some("v5"@))
    } else if tag == "vs-i"@ {
        Some(Some("vs"@))
    } else if tag == "adj-i"@ {
        Some(Some("adj-i"@))
    } else if tag == "v1"@ {
        Some(Some("v1"@))
    } else if tag == "vk"@ {
        Some(Some("vk"@))
    } else if tag == "exp"@ || tag == "topic-condition"@ || tag == "uninflectable"@ {
        Some(None)
    } else {
        None
    }
}

/// Fine deconjugation tag to coarse part of speech. An unrecognised tag fails
/// open.
pub fn dict_pos_for(dec_tag: &str) -> (r: Option<Option<&'static str>>)
    ensures
        pos_for(dec_tag@) == (match r {
            Some(Some(s)) => Some(Some(s@)),
            Some(None) => Some(None::<Seq<char>>),
            None => None,
        }),
{
    let t = dec_tag;
    if same_str(t, "v5aru") || same_str(t, "v5b") || same_str(t, "v5g") || same_str(t, "v5k") || same_str(
        t,
        "v5k-s",
    ) || same_str(t, "v5m") || same_str(t, "v5n") || same_str(t, "v5r") || same_str(t, "v5r-i")
        || same_str(t, "v5s") || same_str(t, "v5t") || same_str(t, "v5u") || same_str(t, "v5u-s") {
        Some(Some("v5"))
    } else if same_str(t, "vs-i") {
        Some(Some("vs"))
    } else if same_str(t, "adj-i") {
        Some(Some("adj-i"))
    } else if same_str(t, "v1") {
        Some(Some("v1"))
    } else if same_str(t, "vk") {
        Some(Some("vk"))
    } else if same_str(t, "exp") || same_str(t, "topic-condition") || same_str(t, "uninflectable") {
        Some(None)
    } else {
        None
    }
}

/// The part of speech that a form asks of a row.
pub open spec fn required_pos(form: FormV) -> Option<Seq<char>> {
    if form.tags.len() == 0 {
        None
    } else {
        match pos_for(form.tags.last()) {
            Some(p) => p,
            None => None,
        }
    }
}

/// Does a row have the part of speech that a form asks for? A row that names
/// none passes.
pub open spec fn fits(row: RowV, form: FormV) -> bool {
    match required_pos(form) {
        None => true,
        Some(need) => row.pos.len() == 0 || words(row.pos).contains(need),
    }
}

/// One way to read the input: a row, the input characters it consumes, and
/// the steps that lead to it.
pub struct Candidate {
    pub row: TermRow,
    pub match_len: usize,
    pub process: Vec<String>,
}

/// What a candidate holds.
#[verifier::ext_equal]
pub struct CandV {
    pub row: RowV,
    pub match_len: usize,
    pub process: Seq<Seq<char>>,
}

impl Candidate {
    pub open spec fn v(self) -> CandV {
        CandV { row: self.row.v(), match_len: self.match_len, process: strs(self.process@) }
    }
}

pub open spec fn cands_v(s: Seq<Candidate>) -> Seq<CandV> {
    s.map_values(|c: Candidate| c.v())
}

/// Do two candidates contend for one result: same headword, same Dictionary?
pub open spec fn same_slot(a: CandV, b: CandV) -> bool {
    a.row.written == b.row.written && a.row.reading == b.row.reading && a.row.dict_id
        == b.row.dict_id
}

/// Does a candidate take a slot from the one that holds it: a longer match,
/// fewer steps, the earlier steps, the lower entry?
pub open spec fn better(new: CandV, held: CandV) -> bool {
    if new.match_len != held.match_len {
        new.match_len > held.match_len
    } else if new.process.len() != held.process.len() {
        new.process.len() < held.process.len()
    } else if lex_list(new.process, held.process) != 0 {
        lex_list(new.process, held.process) < 0
    } else {
        new.row.entry_id < held.row.entry_id
    }
}

/// The slots with one more candidate offered, looked for from slot `k` on.
pub open spec fn offer_from(best: Seq<CandV>, c: CandV, k: int) -> Seq<CandV>
    decreases best.len() - k,
{
    if k >= best.len() {
        best.push(c)
    } else if same_slot(best[k], c) {
        if better(c, best[k]) {
            best.update(k, c)
        } else {
            best
        }
    } else {
        offer_from(best, c, k + 1)
    }
}

pub open spec fn offer(best: Seq<CandV>, c: CandV) -> Seq<CandV> {
    offer_from(best, c, 0)
}

/// The slots after the first `n` rows of a form.
pub open spec fn by_rows(rows: Seq<RowV>, n: int, form: FormV, len: usize, best: Seq<CandV>) -> Seq<CandV>
    decreases n,
{
    if n <= 0 {
        best
    } else {
        let before = by_rows(rows, n - 1, form, len, best);
        if fits(rows[n - 1], form) {
            offer(
                before,
                CandV { row: rows[n - 1], match_len: len, process: form.process },
            )
        } else {
            before
        }
    }
}

/// The slots after the first `n` forms of a prefix, or why the store fails.
pub open spec fn by_forms<D: Dictionary>(
    dict: &D,
    forms: Seq<FormV>,
    n: int,
    len: usize,
    best: Seq<CandV>,
) -> Result<Seq<CandV>, Seq<char>>
    decreases n,
{
    if n <= 0 {
        Ok(best)
    } else {
        match by_forms(dict, forms, n - 1, len, best) {
            Err(why) => Err(why),
            Ok(before) => match dict.rows(forms[n - 1].text) {
                Err(why) => Err(why),
                Ok(rows) => Ok(
                    by_rows(rows, rows.len() as int, forms[n - 1], len, before),
                ),
            },
        }
    }
}

/// The slots after every prefix longer than `k`, the longest first, or why
/// the store fails.
pub open spec fn by_prefixes<D: Dictionary>(dict: &D, rules: Seq<RuleV>, s: Seq<char>, k: int) -> Result<
    Seq<CandV>,
    Seq<char>,
>
    decreases s.len() - k,
{
    if k >= s.len() {
        Ok(seq![])
    } else {
        match by_prefixes(dict, rules, s, k + 1) {
            Err(why) => Err(why),
            Ok(best) => {
                let forms = deconjugated(rules, s.take(k + 1));
                by_forms(dict, forms, forms.len() as int, (k + 1) as usize, best)
            },
        }
    }
}

/// Every result slot of a cleaned text.
pub open spec fn slots<D: Dictionary>(dict: &D, rules: Seq<RuleV>, s: Seq<char>) -> Result<
    Seq<CandV>,
    Seq<char>,
> {
    by_prefixes(dict, rules, s, 0)
}

/// Unconjugated and all kana.
pub open spec fn kana_bonus(c: CandV) -> bool {
    c.process.len() == 0 && all_kana(c.row.surface)
}

/// Does candidate `a` with its key come before `b` with its: a longer match,
/// the greater key, the lower Dictionary, the lower entry?
pub open spec fn precedes(a: (CandV, i64), b: (CandV, i64)) -> bool {
    if a.0.match_len != b.0.match_len {
        a.0.match_len > b.0.match_len
    } else if a.1 != b.1 {
        a.1 > b.1
    } else if a.0.row.dict_id != b.0.row.dict_id {
        a.0.row.dict_id < b.0.row.dict_id
    } else {
        a.0.row.entry_id < b.0.row.entry_id
    }
}

/// A candidate put among ranked ones, behind those it does not precede.
pub open spec fn placed(list: Seq<(CandV, i64)>, c: (CandV, i64)) -> Seq<(CandV, i64)>
    decreases list.len(),
{
    if list.len() > 0 && precedes(c, list.last()) {
        placed(list.drop_last(), c).push(list.last())
    } else {
        list.push(c)
    }
}

/// The first `n` candidates with their keys, in rank order.
pub open spec fn ranked(cands: Seq<CandV>, keys: Seq<i64>, n: int) -> Seq<(CandV, i64)>
    decreases n,
{
    if n <= 0 {
        seq![]
    } else {
        placed(ranked(cands, keys, n - 1), (cands[n - 1], keys[n - 1]))
    }
}

/// The results that are kept.
pub open spec fn top(cands: Seq<CandV>, keys: Seq<i64>) -> Seq<(CandV, i64)> {
    let all = ranked(cands, keys, cands.len() as int);
    if all.len() > MAX_RESULTS {
        all.take(MAX_RESULTS as int)
    } else {
        all
    }
}

pub open spec fn ids_of(list: Seq<(CandV, i64)>) -> Seq<i64> {
    list.map_values(|c: (CandV, i64)| c.0.row.entry_id)
}

/// The last entry with an id.
pub open spec fn entry_for(entries: Seq<EntryV>, id: i64) -> Option<EntryV>
    decreases entries.len(),
{
    if entries.len() == 0 {
        None
    } else if entries.last().entry_id == id {
        Some(entries.last())
    } else {
        entry_for(entries.drop_last(), id)
    }
}

/// The hits of the first `n` results, those without an entry left out.
pub open spec fn hits_of(list: Seq<(CandV, i64)>, entries: Seq<EntryV>, n: int) -> Seq<HitV>
    decreases n,
{
    if n <= 0 {
        seq![]
    } else {
        let before = hits_of(list, entries, n - 1);
        let c = list[n - 1].0;
        match entry_for(entries, c.row.entry_id) {
            Some(entry) => before.push(
                HitV {
                    written: c.row.written,
                    reading: c.row.reading,
                    match_len: c.match_len,
                    freq: c.row.freq,
                    score: list[n - 1].1,
                    process: c.process,
                    entry,
                },
            ),
            None => before,
        }
    }
}

/// Is each key what the score answered for its candidate?
pub open spec fn keyed_by<F: Fn(usize, Option<i64>, bool, usize) -> i64>(
    score: F,
    cands: Seq<CandV>,
    keys: Seq<i64>,
) -> bool {
    keys.len() == cands.len() && forall|i: int|
        0 <= i < cands.len() ==> call_ensures(
            score,
            (
                cands[i].match_len,
                cands[i].row.freq,
                kana_bonus(cands[i]),
                cands[i].process.len() as usize,
            ),
            #[trigger] keys[i],
        )
}

/// What a search answers for a list of keys.
pub open spec fn answered<D: Dictionary>(
    dict: &D,
    cands: Seq<CandV>,
    keys: Seq<i64>,
    r: Result<Vec<Hit>, StoreError>,
) -> bool {
    let list = top(cands, keys);
    match dict.stored(ids_of(list)) {
        Err(why) => r matches Err(e) && e.message@ == why,
        Ok(entries) => r matches Ok(hits) && hits_v(hits@) == hits_of(
            list,
            entries,
            list.len() as int,
        ),
    }
}

/// Does a search answer for keys that the score gave?
pub open spec fn ranked_by<D: Dictionary, F: Fn(usize, Option<i64>, bool, usize) -> i64>(
    dict: &D,
    score: F,
    cands: Seq<CandV>,
    r: Result<Vec<Hit>, StoreError>,
) -> bool {
    exists|keys: Seq<i64>| #[trigger]
        keyed_by(score, cands, keys) && answered(dict, cands, keys, r)
}

/// Is an outcome that of looking a text up? A blank text finds nothing. A
/// store that fails makes the lookup fail, for the same reason.
pub open spec fn ran<D: Dictionary, F: Fn(usize, Option<i64>, bool, usize) -> i64>(
    dict: &D,
    rules: Seq<RuleV>,
    text: Seq<char>,
    score: F,
    r: Result<Vec<Hit>, StoreError>,
) -> bool {
    if cleaned(text).len() == 0 {
        r matches Ok(hits) && hits@.len() == 0
    } else {
        match slots(dict, rules, cleaned(text)) {
            Err(why) => r matches Err(e) && e.message@ == why,
            Ok(cands) => ranked_by(dict, score, cands, r),
        }
    }
}

fn is_better(new: &Candidate, held: &Candidate) -> (r: bool)
    ensures
        r == better(new.v(), held.v()),
{
    if new.match_len != held.match_len {
        return new.match_len > held.match_len;
    }
    assert(strs(new.process@).len() == new.process@.len());
    assert(strs(held.process@).len() == held.process@.len());
    if new.process.len() != held.process.len() {
        return new.process.len() < held.process.len();
    }
    let c = compare_list(&new.process, &held.process);
    if c != 0 {
        return c < 0;
    }
    new.row.entry_id < held.row.entry_id
}

fn offer_to(best: &mut Vec<Candidate>, c: Candidate)
    ensures
        cands_v(final(best)@) == offer(cands_v(old(best)@), c.v()),
{
    let ghost all = cands_v(best@);
    let ghost cv = c.v();
    let mut k: usize = 0;
    while k < best.len()
        invariant
            k <= best@.len(),
            best@ == old(best)@,
            all == cands_v(best@),
            cv == c.v(),
            offer(all, cv) == offer_from(all, cv, k as int),
        decreases best@.len() - k,
    {
        let held = &best[k];
        assert(all[k as int] == held.v());
        if same_opt(&held.row.written, &c.row.written) && same_opt(&held.row.reading, &c.row.reading)
            && held.row.dict_id == c.row.dict_id {
            if is_better(&c, held) {
                let _old = best.remove(k);
                best.insert(k, c);
                assert(cands_v(best@) =~= all.update(k as int, cv));
            }
            return;
        }
        k += 1;
    }
    best.push(c);
    assert(cands_v(best@) =~= all.push(cv));
}

fn has_word(parts: &Vec<Vec<char>>, need: &str) -> (r: bool)
    ensures
        r == texts(parts@).contains(need@),
{
    let mut i: usize = 0;
    while i < parts.len()
        invariant
            i <= parts@.len(),
            forall|j: int| 0 <= j < i ==> (#[trigger] texts(parts@)[j]) != need@,
        decreases parts@.len() - i,
    {
        if is_text(parts[i].as_slice(), need) {
            assert(texts(parts@)[i as int] == need@);
            return true;
        }
        i += 1;
    }
    false
}

fn row_fits(row: &TermRow, form: &Form) -> (r: bool)
    ensures
        r == fits(row.v(), form.v()),
{
    assert(form.v().tags.len() == form.tags@.len());
    if form.tags.len() == 0 {
        return true;
    }
    let last = &form.tags[form.tags.len() - 1];
    assert(form.v().tags.last() == last@);
    match dict_pos_for(last.as_str()) {
        Some(Some(need)) => {
            if row.pos.as_str().is_empty() {
                return true;
            }
            let pos = chars_of(row.pos.as_str());
            let parts = words_of(pos.as_slice());
            has_word(&parts, need)
        },
        _ => true,
    }
}

/// Is each entry indexed under its id, by the place of the last one with it?
spec fn indexed(by_id: Map<i64, usize>, entries: Seq<EntryV>) -> bool {
    forall|id: i64|
        #![trigger by_id.contains_key(id)]
        #![trigger entry_for(entries, id)]
        if by_id.contains_key(id) {
            by_id[id] < entries.len() && entry_for(entries, id) == Some(entries[by_id[id] as int])
        } else {
            entry_for(entries, id) is None
        }
}

/// The places of entries by their ids.
fn index(entries: &Vec<Entry>) -> (r: HashMap<i64, usize>)
    ensures
        indexed(r@, entries_v(entries@)),
{
    let ghost all = entries_v(entries@);
    let mut r: HashMap<i64, usize> = HashMap::new();
    let mut i: usize = 0;
    while i < entries.len()
        invariant
            i <= entries@.len(),
            all == entries_v(entries@),
            indexed(r@, all.take(i as int)),
        decreases entries@.len() - i,
    {
        let ghost before = r@;
        let id = entries[i].entry_id;
        let _old = r.insert(id, i);
        proof {
            let now = all.take(i + 1);
            assert(now.drop_last() =~= all.take(i as int));
            assert(now.last() == entries@[i as int].v());
            assert forall|k: i64|
                #![trigger r@.contains_key(k)]
                #![trigger entry_for(now, k)]
                if r@.contains_key(k) {
                    r@[k] < now.len() && entry_for(now, k) == Some(now[r@[k] as int])
                } else {
                    entry_for(now, k) is None
                } by {
                if k != id {
                    assert(before.contains_key(k) == r@.contains_key(k));
                    assert(entry_for(now, k) == entry_for(all.take(i as int), k));
                }
            }
        }
        i += 1;
    }
    assert(all.take(i as int) =~= all);
    r
}

pub open spec fn pairs_v(list: Seq<(Candidate, i64)>) -> Seq<(CandV, i64)> {
    list.map_values(|c: (Candidate, i64)| (c.0.v(), c.1))
}

fn comes_before(a: &(Candidate, i64), b: &(Candidate, i64)) -> (r: bool)
    ensures
        r == precedes((a.0.v(), a.1), (b.0.v(), b.1)),
{
    if a.0.match_len != b.0.match_len {
        return a.0.match_len > b.0.match_len;
    }
    if a.1 != b.1 {
        return a.1 > b.1;
    }
    if a.0.row.dict_id != b.0.row.dict_id {
        return a.0.row.dict_id < b.0.row.dict_id;
    }
    a.0.row.entry_id < b.0.row.entry_id
}

/// Ranks candidates by their keys and keeps the best.
pub fn rank(cands: Vec<Candidate>, keys: &Vec<i64>) -> (r: Vec<(Candidate, i64)>)
    requires
        cands@.len() == keys@.len(),
    ensures
        pairs_v(r@) == top(cands_v(cands@), keys@),
{
    let ghost cs = cands_v(cands@);
    let mut rest = cands;
    let mut out: Vec<(Candidate, i64)> = Vec::new();
    let mut n: usize = 0;
    assert(rest@ =~= cands@.skip(0));
    assert(pairs_v(out@) =~= seq![]);
    while rest.len() > 0
        invariant
            n <= cands@.len(),
            cands@.len() == keys@.len(),
            rest@ == cands@.skip(n as int),
            cs == cands_v(cands@),
            pairs_v(out@) == ranked(cs, keys@, n as int),
        decreases rest@.len(),
    {
        let c = rest.remove(0);
        assert(c == cands@[n as int]);
        assert(n < keys.len());
        assert(rest@ =~= cands@.skip(n + 1));
        let pair = (c, keys[n]);
        let ghost pv = (pair.0.v(), pair.1);
        let ghost all = pairs_v(out@);
        let mut k: usize = out.len();
        assert(all.take(k as int) =~= all);
        assert(placed(all, pv) =~= placed(all.take(k as int), pv) + all.skip(k as int));
        while k > 0 && comes_before(&pair, &out[k - 1])
            invariant
                k <= out@.len(),
                all == pairs_v(out@),
                pv == (pair.0.v(), pair.1),
                placed(all, pv) == placed(all.take(k as int), pv) + all.skip(k as int),
            decreases k,
        {
            assert(all.take(k as int).drop_last() =~= all.take(k - 1));
            assert(all.take(k as int).last() == (out@[k - 1].0.v(), out@[k - 1].1));
            assert(placed(all.take(k - 1), pv).push(all[k - 1]) + all.skip(k as int) =~= placed(
                all.take(k - 1),
                pv,
            ) + all.skip(k - 1));
            k -= 1;
        }
        proof {
            if k > 0 {
                assert(all.take(k as int).last() == (out@[k - 1].0.v(), out@[k - 1].1));
            }
        }
        out.insert(k, pair);
        assert(pairs_v(out@) =~= all.take(k as int).push(pv) + all.skip(k as int));
        n += 1;
    }
    let ghost all = pairs_v(out@);
    if out.len() > MAX_RESULTS {
        out.truncate(MAX_RESULTS);
        assert(pairs_v(out@) =~= all.take(MAX_RESULTS as int));
    }
    out
}

/// The hits of ranked candidates, each with its entry.
pub fn hits_for(list: Vec<(Candidate, i64)>, entries: &Vec<Entry>) -> (r: Vec<Hit>)
    ensures
        hits_v(r@) == hits_of(pairs_v(list@), entries_v(entries@), list@.len() as int),
{
    let ghost lv = pairs_v(list@);
    let ghost es = entries_v(entries@);
    let by_id = index(entries);
    let mut rest = list;
    let ghost mut n: int = 0;
    let mut out: Vec<Hit> = Vec::new();
    assert(rest@ =~= list@.skip(0));
    assert(hits_v(out@) =~= seq![]);
    while rest.len() > 0
        invariant
            0 <= n <= list@.len(),
            rest@ == list@.skip(n),
            lv == pairs_v(list@),
            es == entries_v(entries@),
            indexed(by_id@, es),
            hits_v(out@) == hits_of(lv, es, n),
        decreases rest@.len(),
    {
        let (c, key) = rest.remove(0);
        assert((c, key) == list@[n]);
        assert(lv[n] == (c.v(), key));
        assert(rest@ =~= list@.skip(n + 1));
        match by_id.get(&c.row.entry_id) {
            Some(k) => {
                let hit = Hit {
                    written: c.row.written,
                    reading: c.row.reading,
                    match_len: c.match_len,
                    freq: c.row.freq,
                    score: key,
                    process: c.process,
                    entry: entries[*k].clone(),
                };
                let ghost before = hits_v(out@);
                out.push(hit);
                assert(hits_v(out@) =~= before.push(hit.v()));
            },
            None => {},
        }
        proof {
            n = n + 1;
        }
    }
    out
}

pub struct LookupEngine {
    deconjugator: Deconjugator,
}

impl LookupEngine {
    pub closed spec fn rules(self) -> Seq<RuleV> {
        self.deconjugator.rules()
    }

    pub fn new(deconjugator: Deconjugator) -> (r: Self)
        ensures
            r.rules() == deconjugator.rules(),
    {
        LookupEngine { deconjugator }
    }

    /// Every result slot of a cleaned text.
    ///
    /// No early exit: a shorter prefix can reach another form.
    pub fn candidates<D: Dictionary>(&self, dict: &D, cleaned: &str) -> (r: Result<
        Vec<Candidate>,
        StoreError,
    >)
        ensures
            slots(dict, self.rules(), cleaned@) == (match r {
                Ok(v) => Ok::<_, Seq<char>>(cands_v(v@)),
                Err(e) => Err(e.message@),
            }),
    {
        let chars = chars_of(cleaned);
        let mut best: Vec<Candidate> = Vec::new();
        assert(cands_v(best@) =~= seq![]);
        let mut k: usize = chars.len();
        while k > 0
            invariant
                k <= chars@.len(),
                chars@ == cleaned@,
                by_prefixes(dict, self.rules(), cleaned@, k as int) == Ok::<_, Seq<char>>(cands_v(best@)),
            decreases k,
        {
            let prefix = string_of(slice_subrange(chars.as_slice(), 0, k));
            assert(prefix@ =~= cleaned@.take(k as int));
            let forms = self.deconjugator.deconjugate(prefix.as_str());
            let ghost fs = forms_v(forms@);
            let ghost base = cands_v(best@);
            let mut i: usize = 0;
            while i < forms.len()
                invariant
                    i <= forms@.len(),
                    0 < k <= chars@.len(),
                    chars@ == cleaned@,
                    fs == forms_v(forms@),
                    fs == deconjugated(self.rules(), cleaned@.take(k as int)),
                    by_prefixes(dict, self.rules(), cleaned@, k as int) == Ok::<_, Seq<char>>(base),
                    by_forms(dict, fs, i as int, k, base) == Ok::<_, Seq<char>>(cands_v(best@)),
                decreases forms@.len() - i,
            {
                let form = &forms[i];
                assert(fs[i as int] == form.v());
                match dict.terms_for(form.text.as_str()) {
                    Err(e) => {
                        proof {
                            forms_fail(dict, fs, i + 1, k, base);
                            prefixes_fail(dict, self.rules(), cleaned@, k - 1);
                        }
                        return Err(e);
                    },
                    Ok(rows) => {
                        let ghost rs = rows_v(rows@);
                        let ghost before = cands_v(best@);
                        let mut rest = rows;
                        let ghost mut n: int = 0;
                        assert(rest@ =~= rows@.skip(0));
                        while rest.len() > 0
                            invariant
                                0 <= n <= rows@.len(),
                                rest@ == rows@.skip(n),
                                rs == rows_v(rows@),
                                cands_v(best@) == by_rows(rs, n, form.v(), k, before),
                            decreases rest@.len(),
                        {
                            let row = rest.remove(0);
                            assert(row == rows@[n]);
                            assert(rs[n] == row.v());
                            assert(rest@ =~= rows@.skip(n + 1));
                            if row_fits(&row, form) {
                                let process = copy_list(&form.process);
                                let c = Candidate { row, match_len: k, process };
                                offer_to(&mut best, c);
                            }
                            proof {
                                n = n + 1;
                            }
                        }
                    },
                }
                i += 1;
            }
            k -= 1;
        }
        Ok(best)
    }

    /// Looks a text up.
    ///
    /// `score` gives the key by which equally long matches are ranked, from a
    /// match's length, its frequency rank, whether it is an unconjugated
    /// all-kana row, and its number of steps.
    pub fn run<D: Dictionary, F: Fn(usize, Option<i64>, bool, usize) -> i64>(
        &self,
        dict: &D,
        text: &str,
        score: F,
    ) -> (r: Result<Vec<Hit>, StoreError>)
        requires
            forall|len: usize, freq: Option<i64>, bonus: bool, steps: usize|
                call_requires(score, (len, freq, bonus, steps)),
        ensures
            ran(dict, self.rules(), text@, score, r),
    {
        let clean = clean_input(text);
        if clean.as_str().is_empty() {
            return Ok(Vec::new());
        }
        let cands = match self.candidates(dict, clean.as_str()) {
            Ok(c) => c,
            Err(e) => {
                return Err(e);
            },
        };
        let ghost cs = cands_v(cands@);
        let mut keys: Vec<i64> = Vec::new();
        let mut i: usize = 0;
        while i < cands.len()
            invariant
                i <= cands@.len(),
                keys@.len() == i,
                cs == cands_v(cands@),
                forall|len: usize, freq: Option<i64>, bonus: bool, steps: usize|
                    call_requires(score, (len, freq, bonus, steps)),
                forall|j: int|
                    0 <= j < i ==> call_ensures(
                        score,
                        (
                            cs[j].match_len,
                            cs[j].row.freq,
                            kana_bonus(cs[j]),
                            cs[j].process.len() as usize,
                        ),
                        #[trigger] keys@[j],
                    ),
            decreases cands@.len() - i,
        {
            let c = &cands[i];
            assert(cs[i as int] == c.v());
            assert(strs(c.process@).len() == c.process@.len());
            let steps = c.process.len();
            let bonus = steps == 0 && is_all_kana(c.row.surface.as_str());
            let key = score(c.match_len, c.row.freq, bonus, steps);
            keys.push(key);
            i += 1;
        }
        assert(keyed_by(score, cs, keys@));
        let list = rank(cands, &keys);
        let ghost lv = pairs_v(list@);
        let mut ids: Vec<i64> = Vec::new();
        let mut j: usize = 0;
        while j < list.len()
            invariant
                j <= list@.len(),
                lv == pairs_v(list@),
                ids@ == ids_of(lv).take(j as int),
            decreases list@.len() - j,
        {
            ids.push(list[j].0.row.entry_id);
            assert(ids_of(lv).take(j + 1) =~= ids_of(lv).take(j as int).push(
                lv[j as int].0.row.entry_id,
            ));
            j += 1;
        }
        assert(ids_of(lv).take(j as int) =~= ids_of(lv));
        let r = match dict.entries(&ids) {
            Err(e) => Err(e),
            Ok(entries) => Ok(hits_for(list, &entries)),
        };
        assert(keyed_by(score, cs, keys@) && answered(dict, cs, keys@, r));
        assert(ranked_by(dict, score, cs, r));
        r
    }
}

proof fn forms_fail<D: Dictionary>(dict: &D, forms: Seq<FormV>, n: int, len: usize, best: Seq<CandV>)
    requires
        0 <= n <= forms.len(),
        by_forms(dict, forms, n, len, best) is Err,
    ensures
        by_forms(dict, forms, forms.len() as int, len, best) == by_forms(dict, forms, n, len, best),
    decreases forms.len() - n,
{
    if n < forms.len() {
        forms_fail(dict, forms, n + 1, len, best);
    }
}

proof fn prefixes_fail<D: Dictionary>(dict: &D, rules: Seq<RuleV>, s: Seq<char>, k: int)
    requires
        0 <= k,
        k < s.len(),
        by_prefixes(dict, rules, s, k) is Err,
    ensures
        by_prefixes(dict, rules, s, 0) == by_prefixes(dict, rules, s, k),
    decreases k,
{
    if k > 0 {
        prefixes_fail(dict, rules, s, k - 1);
    }
}

proof fn placed_has(list: Seq<(CandV, i64)>, c: (CandV, i64))
    ensures
        placed(list, c).len() == list.len() + 1,
        forall|i: int| 0 <= i < placed(list, c).len() ==> list.contains(#[trigger] placed(list, c)[i])
            || placed(list, c)[i] == c,
    decreases list.len(),
{
    if list.len() > 0 && precedes(c, list.last()) {
        placed_has(list.drop_last(), c);
        let p = placed(list.drop_last(), c);
        assert forall|i: int| 0 <= i < p.push(list.last()).len() implies list.contains(
            #[trigger] p.push(list.last())[i],
        ) || p.push(list.last())[i] == c by {
            if i < p.len() {
                if list.drop_last().contains(p[i]) {
                    let j = choose|j: int| 0 <= j < list.len() - 1 && list.drop_last()[j] == p[i];
                    assert(list[j] == p[i]);
                }
            } else {
                assert(list[list.len() - 1] == list.last());
            }
        }
    } else {
        assert forall|i: int| 0 <= i < list.push(c).len() implies list.contains(
            #[trigger] list.push(c)[i],
        ) || list.push(c)[i] == c by {
            if i < list.len() {
                assert(list[i] == list.push(c)[i]);
            }
        }
    }
}

/// Does no candidate of a list precede one that stands before it?
pub open spec fn in_order(list: Seq<(CandV, i64)>) -> bool {
    forall|i: int, j: int|
        0 <= i < j < list.len() ==> !precedes(#[trigger] list[j], #[trigger] list[i])
}

proof fn placed_in_order(list: Seq<(CandV, i64)>, c: (CandV, i64))
    requires
        in_order(list),
    ensures
        in_order(placed(list, c)),
    decreases list.len(),
{
    if list.len() > 0 && precedes(c, list.last()) {
        let front = list.drop_last();
        assert(in_order(front));
        placed_in_order(front, c);
        placed_has(front, c);
        let p = placed(front, c);
        let r = p.push(list.last());
        assert forall|i: int, j: int| 0 <= i < j < r.len() implies !precedes(
            #[trigger] r[j],
            #[trigger] r[i],
        ) by {
            if j == p.len() {
                assert(r[j] == list.last());
                assert(r[i] == p[i]);
                if front.contains(p[i]) {
                    let k = choose|k: int| 0 <= k < front.len() && front[k] == p[i];
                    assert(list[k] == p[i]);
                    assert(!precedes(list[list.len() - 1], list[k]));
                }
            } else {
                assert(r[j] == p[j] && r[i] == p[i]);
            }
        }
    } else {
        let r = list.push(c);
        assert forall|i: int, j: int| 0 <= i < j < r.len() implies !precedes(
            #[trigger] r[j],
            #[trigger] r[i],
        ) by {
            if j == list.len() {
                let last = list[list.len() - 1];
                assert(!precedes(c, last));
                if i < list.len() - 1 {
                    assert(!precedes(last, list[i]));
                }
            }
        }
    }
}

/// The results stand in rank order, whatever the keys are.
pub proof fn results_are_ranked(cands: Seq<CandV>, keys: Seq<i64>)
    requires
        cands.len() == keys.len(),
    ensures
        in_order(top(cands, keys)),
        in_order(ranked(cands, keys, cands.len() as int)),
{
    ranked_in_order(cands, keys, cands.len() as int);
}

proof fn ranked_in_order(cands: Seq<CandV>, keys: Seq<i64>, n: int)
    requires
        n <= cands.len(),
        cands.len() == keys.len(),
    ensures
        in_order(ranked(cands, keys, n)),
        n >= 0 ==> ranked(cands, keys, n).len() == n,
    decreases n,
{
    if n > 0 {
        ranked_in_order(cands, keys, n - 1);
        placed_in_order(ranked(cands, keys, n - 1), (cands[n - 1], keys[n - 1]));
        placed_has(ranked(cands, keys, n - 1), (cands[n - 1], keys[n - 1]));
    }
}

/// At most ten results are kept, and none is dropped where there are fewer.
pub proof fn results_are_few(cands: Seq<CandV>, keys: Seq<i64>)
    requires
        cands.len() == keys.len(),
    ensures
        top(cands, keys).len() == if cands.len() > MAX_RESULTS {
            MAX_RESULTS as nat
        } else {
            cands.len()
        },
{
    ranked_in_order(cands, keys, cands.len() as int);
}

/// A longer match stands before a shorter one, whatever the keys are.
pub proof fn longer_matches_come_first(cands: Seq<CandV>, keys: Seq<i64>, i: int, j: int)
    requires
        cands.len() == keys.len(),
        0 <= i < j < top(cands, keys).len(),
    ensures
        top(cands, keys)[i].0.match_len >= top(cands, keys)[j].0.match_len,
{
    results_are_ranked(cands, keys);
    assert(!precedes(top(cands, keys)[j], top(cands, keys)[i]));
}

/// Do no two candidates contend for one result?
pub open spec fn one_per_slot(best: Seq<CandV>) -> bool {
    forall|i: int, j: int|
        0 <= i < j < best.len() ==> !same_slot(#[trigger] best[i], #[trigger] best[j])
}

proof fn offer_keeps_slots(best: Seq<CandV>, c: CandV, k: int)
    requires
        0 <= k <= best.len(),
        one_per_slot(best),
        forall|j: int| 0 <= j < k ==> !same_slot(#[trigger] best[j], c),
    ensures
        one_per_slot(offer_from(best, c, k)),
    decreases best.len() - k,
{
    if k < best.len() && !same_slot(best[k], c) {
        offer_keeps_slots(best, c, k + 1);
    } else if k < best.len() && better(c, best[k]) {
        let r = best.update(k, c);
        assert forall|i: int, j: int| 0 <= i < j < r.len() implies !same_slot(
            #[trigger] r[i],
            #[trigger] r[j],
        ) by {
            assert(!same_slot(best[i], best[j]));
        }
    }
}

proof fn rows_keep_slots(rows: Seq<RowV>, n: int, form: FormV, len: usize, best: Seq<CandV>)
    requires
        one_per_slot(best),
    ensures
        one_per_slot(by_rows(rows, n, form, len, best)),
    decreases n,
{
    if n > 0 {
        rows_keep_slots(rows, n - 1, form, len, best);
        if fits(rows[n - 1], form) {
            offer_keeps_slots(
                by_rows(rows, n - 1, form, len, best),
                CandV { row: rows[n - 1], match_len: len, process: form.process },
                0,
            );
        }
    }
}

proof fn forms_keep_slots<D: Dictionary>(
    dict: &D,
    forms: Seq<FormV>,
    n: int,
    len: usize,
    best: Seq<CandV>,
)
    requires
        one_per_slot(best),
    ensures
        by_forms(dict, forms, n, len, best) matches Ok(r) ==> one_per_slot(r),
    decreases n,
{
    if n > 0 {
        forms_keep_slots(dict, forms, n - 1, len, best);
        if let Ok(before) = by_forms(dict, forms, n - 1, len, best) {
            if let Ok(rows) = dict.rows(forms[n - 1].text) {
                rows_keep_slots(rows, rows.len() as int, forms[n - 1], len, before);
            }
        }
    }
}

proof fn prefixes_keep_slots<D: Dictionary>(dict: &D, rules: Seq<RuleV>, s: Seq<char>, k: int)
    ensures
        by_prefixes(dict, rules, s, k) matches Ok(r) ==> one_per_slot(r),
    decreases s.len() - k,
{
    if k < s.len() {
        prefixes_keep_slots(dict, rules, s, k + 1);
        if let Ok(best) = by_prefixes(dict, rules, s, k + 1) {
            let forms = deconjugated(rules, s.take(k + 1));
            forms_keep_slots(dict, forms, forms.len() as int, (k + 1) as usize, best);
        }
    }
}

/// No two results of one search are for the same headword of the same
/// Dictionary.
pub proof fn a_headword_is_found_once<D: Dictionary>(dict: &D, rules: Seq<RuleV>, s: Seq<char>)
    ensures
        slots(dict, rules, s) matches Ok(cands) ==> one_per_slot(cands),
{
    prefixes_keep_slots(dict, rules, s, 0);
}

// ---- what a lookup finds ----

/// Does a row have the part of speech that a form asks for: none is asked, the
/// row names none, or it names the one that is asked?
pub open spec fn speaks(row: RowV, form: FormV) -> bool {
    ||| form.tags.len() == 0
    ||| pos_for(form.tags.last()) is None
    ||| pos_for(form.tags.last()) == Some(None::<Seq<char>>)
    ||| row.pos.len() == 0
    ||| words(row.pos).contains(pos_for(form.tags.last())->0->0)
}

/// Is a candidate a reading of the first `k` characters of a text: a row that
/// the store holds under one of their forms, with its part of speech?
pub open spec fn reads<D: Dictionary>(
    dict: &D,
    rules: Seq<RuleV>,
    s: Seq<char>,
    k: int,
    c: CandV,
) -> bool {
    exists|i: int, j: int|
        #![trigger deconjugated(rules, s.take(k))[i], dict.rows(deconjugated(rules, s.take(k))[i].text)->Ok_0[j]]
        {
            let form = deconjugated(rules, s.take(k))[i];
            &&& 0 <= i < deconjugated(rules, s.take(k)).len()
            &&& dict.rows(form.text) is Ok
            &&& 0 <= j < dict.rows(form.text)->Ok_0.len()
            &&& speaks(dict.rows(form.text)->Ok_0[j], form)
            &&& c.row == dict.rows(form.text)->Ok_0[j]
            &&& c.process == form.process
            &&& c.match_len == k
        }
}

/// Is a candidate at least as good as another one of its headword: it consumes
/// more, or as much in fewer steps, or as many steps that come earlier, or the
/// same steps to an entry that is no higher?
pub open spec fn no_worse(x: CandV, c: CandV) -> bool {
    ||| x.match_len > c.match_len
    ||| x.match_len == c.match_len && x.process.len() < c.process.len()
    ||| x.match_len == c.match_len && x.process.len() == c.process.len() && lex_list(
        x.process,
        c.process,
    ) < 0
    ||| x.match_len == c.match_len && x.process == c.process && x.row.entry_id <= c.row.entry_id
}

proof fn no_worse_chains(a: CandV, b: CandV, c: CandV)
    requires
        no_worse(a, b),
        no_worse(b, c),
    ensures
        no_worse(a, c),
{
    lists_stand_in_one_order(a.process, b.process, c.process);
    lists_stand_in_one_order(b.process, c.process, a.process);
}

proof fn better_or_not(new: CandV, held: CandV)
    ensures
        better(new, held) ==> no_worse(new, held),
        !better(new, held) ==> no_worse(held, new),
{
    lists_stand_in_one_order(new.process, held.process, held.process);
    lists_stand_in_one_order(held.process, new.process, new.process);
}

/// Does a list hold a candidate of the same headword that is no worse?
#[verifier::opaque]
pub open spec fn covered(best: Seq<CandV>, c: CandV) -> bool {
    exists|x: int|
        0 <= x < best.len() && (#[trigger] best[x]).row.written == c.row.written
            && best[x].row.reading == c.row.reading && best[x].row.dict_id == c.row.dict_id
            && no_worse(best[x], c)
}

proof fn covers_on(a: Seq<CandV>, b: Seq<CandV>, c: CandV)
    requires
        covered(a, c),
        forall|x: int| 0 <= x < a.len() ==> covered(b, #[trigger] a[x]),
    ensures
        covered(b, c),
{
    reveal(covered);
    let x = choose|x: int|
        0 <= x < a.len() && (#[trigger] a[x]).row.written == c.row.written && a[x].row.reading
            == c.row.reading && a[x].row.dict_id == c.row.dict_id && no_worse(a[x], c);
    assert(covered(b, a[x]));
    let y = choose|y: int|
        0 <= y < b.len() && (#[trigger] b[y]).row.written == a[x].row.written && b[y].row.reading
            == a[x].row.reading && b[y].row.dict_id == a[x].row.dict_id && no_worse(b[y], a[x]);
    no_worse_chains(b[y], a[x], c);
    assert(b[y].row.written == c.row.written);
}

proof fn covers_its_own(best: Seq<CandV>)
    ensures
        forall|x: int| 0 <= x < best.len() ==> covered(best, #[trigger] best[x]),
        forall|x: int| 0 <= x < best.len() ==> best.contains(#[trigger] best[x]),
{
    reveal(covered);
    assert forall|x: int| 0 <= x < best.len() implies covered(best, #[trigger] best[x]) by {
        assert(no_worse(best[x], best[x]));
    }
}

/// Is a candidate a row of the first `n`, with the part of speech of a form?
spec fn from_rows(rows: Seq<RowV>, n: int, form: FormV, len: usize, c: CandV) -> bool {
    exists|j: int|
        0 <= j < n && speaks(#[trigger] rows[j], form) && c == (CandV {
            row: rows[j],
            match_len: len,
            process: form.process,
        })
}

proof fn offer_covers(best: Seq<CandV>, c: CandV, k: int)
    requires
        0 <= k <= best.len(),
    ensures
        covered(offer_from(best, c, k), c),
        forall|x: int| 0 <= x < best.len() ==> covered(offer_from(best, c, k), #[trigger] best[x]),
        forall|x: int|
            0 <= x < offer_from(best, c, k).len() ==> #[trigger] offer_from(best, c, k)[x] == c
                || best.contains(offer_from(best, c, k)[x]),
    decreases best.len() - k,
{
    reveal(covered);
    let out = offer_from(best, c, k);
    if k < best.len() && !same_slot(best[k], c) {
        offer_covers(best, c, k + 1);
    } else {
        assert forall|x: int| 0 <= x < best.len() implies covered(out, #[trigger] best[x]) by {
            if k < best.len() && x == k {
                better_or_not(c, best[k]);
                assert(no_worse(out[k], best[k]));
            } else {
                assert(out[x] == best[x] && no_worse(out[x], best[x]));
            }
        }
        if k < best.len() {
            better_or_not(c, best[k]);
            assert(no_worse(out[k], c));
        } else {
            assert(out[best.len() as int] == c && no_worse(c, c));
        }
        assert forall|x: int| 0 <= x < out.len() implies #[trigger] out[x] == c || best.contains(
            out[x],
        ) by {
            if x < best.len() && out[x] != c {
                assert(best[x] == out[x]);
            }
        }
    }
}

proof fn rows_cover(rows: Seq<RowV>, n: int, form: FormV, len: usize, best: Seq<CandV>)
    requires
        0 <= n <= rows.len(),
    ensures
        forall|x: int|
            0 <= x < best.len() ==> covered(by_rows(rows, n, form, len, best), #[trigger] best[x]),
        forall|c: CandV| #[trigger]
            from_rows(rows, n, form, len, c) ==> covered(by_rows(rows, n, form, len, best), c),
        forall|x: int|
            0 <= x < by_rows(rows, n, form, len, best).len() ==> best.contains(
                #[trigger] by_rows(rows, n, form, len, best)[x],
            ) || from_rows(rows, n, form, len, by_rows(rows, n, form, len, best)[x]),
    decreases n,
{
    let out = by_rows(rows, n, form, len, best);
    if n <= 0 {
        covers_its_own(best);
    } else {
        rows_cover(rows, n - 1, form, len, best);
        let before = by_rows(rows, n - 1, form, len, best);
        let c = CandV { row: rows[n - 1], match_len: len, process: form.process };
        assert(speaks(rows[n - 1], form) <==> fits(rows[n - 1], form));
        assert forall|d: CandV| #[trigger] from_rows(rows, n, form, len, d) implies from_rows(
            rows,
            n - 1,
            form,
            len,
            d,
        ) || (fits(rows[n - 1], form) && d == c) by {}
        assert forall|d: CandV| #[trigger] from_rows(rows, n - 1, form, len, d) implies from_rows(
            rows,
            n,
            form,
            len,
            d,
        ) by {}
        if fits(rows[n - 1], form) {
            assert(speaks(rows[n - 1], form));
            assert(from_rows(rows, n, form, len, c));
            offer_covers(before, c, 0);
            assert forall|x: int| 0 <= x < best.len() implies covered(out, #[trigger] best[x]) by {
                covers_on(before, out, best[x]);
            }
            assert forall|d: CandV| #[trigger] from_rows(rows, n, form, len, d) implies covered(
                out,
                d,
            ) by {
                if d != c {
                    assert(from_rows(rows, n - 1, form, len, d));
                    covers_on(before, out, d);
                }
            }
            assert forall|x: int| 0 <= x < out.len() implies best.contains(#[trigger] out[x])
                || from_rows(rows, n, form, len, out[x]) by {
                if out[x] != c {
                    let y = choose|y: int| 0 <= y < before.len() && before[y] == out[x];
                    assert(best.contains(before[y]) || from_rows(rows, n - 1, form, len, before[y]));
                }
            }
        }
    }
}

/// Is a candidate a row under one of the first `n` forms, with its part of
/// speech?
spec fn from_forms<D: Dictionary>(
    dict: &D,
    forms: Seq<FormV>,
    n: int,
    len: usize,
    c: CandV,
) -> bool {
    exists|i: int|
        0 <= i < n && dict.rows((#[trigger] forms[i]).text) is Ok && from_rows(
            dict.rows(forms[i].text)->Ok_0,
            dict.rows(forms[i].text)->Ok_0.len() as int,
            forms[i],
            len,
            c,
        )
}

proof fn forms_cover<D: Dictionary>(
    dict: &D,
    forms: Seq<FormV>,
    n: int,
    len: usize,
    best: Seq<CandV>,
    out: Seq<CandV>,
)
    requires
        0 <= n <= forms.len(),
        by_forms(dict, forms, n, len, best) == Ok::<Seq<CandV>, Seq<char>>(out),
    ensures
        forall|x: int| 0 <= x < best.len() ==> covered(out, #[trigger] best[x]),
        forall|c: CandV| #[trigger] from_forms(dict, forms, n, len, c) ==> covered(out, c),
        forall|x: int|
            0 <= x < out.len() ==> best.contains(#[trigger] out[x]) || from_forms(
                dict,
                forms,
                n,
                len,
                out[x],
            ),
    decreases n,
{
    if n <= 0 {
        covers_its_own(best);
    } else {
        let before = by_forms(dict, forms, n - 1, len, best)->Ok_0;
        forms_cover(dict, forms, n - 1, len, best, before);
        let form = forms[n - 1];
        let rows = dict.rows(form.text)->Ok_0;
        let all = rows.len() as int;
        rows_cover(rows, all, form, len, before);
        assert forall|x: int| 0 <= x < best.len() implies covered(out, #[trigger] best[x]) by {
            covers_on(before, out, best[x]);
        }
        assert forall|c: CandV| #[trigger] from_forms(dict, forms, n, len, c) implies covered(
            out,
            c,
        ) by {
            if !from_rows(rows, all, form, len, c) {
                assert(from_forms(dict, forms, n - 1, len, c));
                covers_on(before, out, c);
            }
        }
        assert forall|x: int| 0 <= x < out.len() implies best.contains(#[trigger] out[x])
            || from_forms(dict, forms, n, len, out[x]) by {
            if before.contains(out[x]) {
                let y = choose|y: int| 0 <= y < before.len() && before[y] == out[x];
                assert(best.contains(before[y]) || from_forms(dict, forms, n - 1, len, before[y]));
            } else {
                assert(from_rows(rows, all, forms[n - 1], len, out[x]));
            }
        }
    }
}

proof fn reads_from_forms<D: Dictionary>(
    dict: &D,
    rules: Seq<RuleV>,
    s: Seq<char>,
    k: int,
    c: CandV,
)
    requires
        0 <= k <= usize::MAX,
    ensures
        reads(dict, rules, s, k, c) <==> from_forms(
            dict,
            deconjugated(rules, s.take(k)),
            deconjugated(rules, s.take(k)).len() as int,
            k as usize,
            c,
        ),
{
    let forms = deconjugated(rules, s.take(k));
    if from_forms(dict, forms, forms.len() as int, k as usize, c) {
        let i = choose|i: int|
            0 <= i < forms.len() && dict.rows((#[trigger] forms[i]).text) is Ok && from_rows(
                dict.rows(forms[i].text)->Ok_0,
                dict.rows(forms[i].text)->Ok_0.len() as int,
                forms[i],
                k as usize,
                c,
            );
        let rows = dict.rows(forms[i].text)->Ok_0;
        let j = choose|j: int|
            0 <= j < rows.len() && speaks(#[trigger] rows[j], forms[i]) && c == (CandV {
                row: rows[j],
                match_len: k as usize,
                process: forms[i].process,
            });
        assert(dict.rows(deconjugated(rules, s.take(k))[i].text)->Ok_0[j] == rows[j]);
    }
    if reads(dict, rules, s, k, c) {
        let (i, j) = choose|i: int, j: int|
            #![trigger deconjugated(rules, s.take(k))[i], dict.rows(deconjugated(rules, s.take(k))[i].text)->Ok_0[j]]
            {
                let form = deconjugated(rules, s.take(k))[i];
                &&& 0 <= i < deconjugated(rules, s.take(k)).len()
                &&& dict.rows(form.text) is Ok
                &&& 0 <= j < dict.rows(form.text)->Ok_0.len()
                &&& speaks(dict.rows(form.text)->Ok_0[j], form)
                &&& c.row == dict.rows(form.text)->Ok_0[j]
                &&& c.process == form.process
                &&& c.match_len == k
            };
        let rows = dict.rows(forms[i].text)->Ok_0;
        assert(speaks(rows[j], forms[i]));
        assert(c == (CandV { row: rows[j], match_len: k as usize, process: forms[i].process }));
        assert(from_rows(rows, rows.len() as int, forms[i], k as usize, c));
    }
}

proof fn prefixes_cover<D: Dictionary>(
    dict: &D,
    rules: Seq<RuleV>,
    s: Seq<char>,
    k: int,
    out: Seq<CandV>,
)
    requires
        0 <= k <= s.len() <= usize::MAX,
        by_prefixes(dict, rules, s, k) == Ok::<Seq<CandV>, Seq<char>>(out),
    ensures
        forall|m: int, c: CandV| k < m <= s.len() && #[trigger] reads(dict, rules, s, m, c) ==> covered(
            out,
            c,
        ),
        forall|x: int|
            0 <= x < out.len() ==> k < (#[trigger] out[x]).match_len <= s.len() && reads(
                dict,
                rules,
                s,
                out[x].match_len as int,
                out[x],
            ),
    decreases s.len() - k,
{
    if k < s.len() {
        let best = by_prefixes(dict, rules, s, k + 1)->Ok_0;
        prefixes_cover(dict, rules, s, k + 1, best);
        let forms = deconjugated(rules, s.take(k + 1));
        forms_cover(dict, forms, forms.len() as int, (k + 1) as usize, best, out);
        assert forall|m: int, c: CandV| k < m <= s.len() && #[trigger] reads(
            dict,
            rules,
            s,
            m,
            c,
        ) implies covered(out, c) by {
            if m > k + 1 {
                covers_on(best, out, c);
            } else {
                reads_from_forms(dict, rules, s, m, c);
            }
        }
        assert forall|x: int| 0 <= x < out.len() implies k < (#[trigger] out[x]).match_len <= s.len()
            && reads(dict, rules, s, out[x].match_len as int, out[x]) by {
            if best.contains(out[x]) {
                let y = choose|y: int| 0 <= y < best.len() && best[y] == out[x];
                assert(best[y].match_len > k + 1);
            } else {
                reads_from_forms(dict, rules, s, k + 1, out[x]);
            }
        }
    }
}

/// Whatever prefix of a text, form of it and row under that form there is, the
/// results hold the row's headword with a match at least as long, and with no
/// more steps where it is as long.
pub proof fn the_longest_match_is_kept<D: Dictionary>(
    dict: &D,
    rules: Seq<RuleV>,
    s: Seq<char>,
    cands: Seq<CandV>,
    k: int,
    i: int,
    rows: Seq<RowV>,
    j: int,
)
    requires
        s.len() <= usize::MAX,
        slots(dict, rules, s) == Ok::<Seq<CandV>, Seq<char>>(cands),
        1 <= k <= s.len(),
        0 <= i < deconjugated(rules, s.take(k)).len(),
        dict.rows(deconjugated(rules, s.take(k))[i].text) == Ok::<Seq<RowV>, Seq<char>>(rows),
        0 <= j < rows.len(),
        speaks(rows[j], deconjugated(rules, s.take(k))[i]),
    ensures
        exists|x: int|
            {
                &&& 0 <= x < cands.len()
                &&& (#[trigger] cands[x]).row.written == rows[j].written
                &&& cands[x].row.reading == rows[j].reading
                &&& cands[x].row.dict_id == rows[j].dict_id
                &&& cands[x].match_len >= k
                &&& cands[x].match_len == k ==> cands[x].process.len() <= deconjugated(
                    rules,
                    s.take(k),
                )[i].process.len()
            },
{
    prefixes_cover(dict, rules, s, 0, cands);
    let form = deconjugated(rules, s.take(k))[i];
    let c = CandV { row: rows[j], match_len: k as usize, process: form.process };
    assert(dict.rows(form.text)->Ok_0[j] == rows[j]);
    assert(reads(dict, rules, s, k, c));
    reveal(covered);
    assert(covered(cands, c));
    let x = choose|x: int|
        0 <= x < cands.len() && (#[trigger] cands[x]).row.written == c.row.written
            && cands[x].row.reading == c.row.reading && cands[x].row.dict_id == c.row.dict_id
            && no_worse(cands[x], c);
    assert(cands[x].row.written == rows[j].written);
}

/// Every result is a reading of the text, and of the readings of one headword
/// of one Dictionary it is the best: no other one consumes more, or as much in
/// fewer steps, or by earlier steps, or leads to a lower entry.
pub proof fn a_result_is_the_best_reading<D: Dictionary>(
    dict: &D,
    rules: Seq<RuleV>,
    s: Seq<char>,
    cands: Seq<CandV>,
    x: int,
    m: int,
    other: CandV,
)
    requires
        s.len() <= usize::MAX,
        slots(dict, rules, s) == Ok::<Seq<CandV>, Seq<char>>(cands),
        0 <= x < cands.len(),
        1 <= m <= s.len(),
        reads(dict, rules, s, m, other),
        other.row.written == cands[x].row.written,
        other.row.reading == cands[x].row.reading,
        other.row.dict_id == cands[x].row.dict_id,
    ensures
        1 <= cands[x].match_len <= s.len(),
        reads(dict, rules, s, cands[x].match_len as int, cands[x]),
        other.match_len == m,
        no_worse(cands[x], other),
{
    prefixes_cover(dict, rules, s, 0, cands);
    prefixes_keep_slots(dict, rules, s, 0);
    reveal(covered);
    assert(covered(cands, other));
    let y = choose|y: int|
        0 <= y < cands.len() && (#[trigger] cands[y]).row.written == other.row.written
            && cands[y].row.reading == other.row.reading && cands[y].row.dict_id
            == other.row.dict_id && no_worse(cands[y], other);
    if y < x {
        assert(!same_slot(cands[y], cands[x]));
    } else if x < y {
        assert(!same_slot(cands[x], cands[y]));
    }
}

proof fn cut_is_first(s: Seq<char>)
    ensures
        0 <= cut_at(s) <= s.len(),
        forall|i: int| 0 <= i < cut_at(s) ==> !separator(#[trigger] s[i]),
        cut_at(s) < s.len() ==> separator(s[cut_at(s)]),
    decreases s.len(),
{
    if s.len() > 0 && !separator(s[0]) {
        cut_is_first(s.skip(1));
        assert forall|i: int| 0 <= i < cut_at(s) implies !separator(#[trigger] s[i]) by {
            if i > 0 {
                assert(s.skip(1)[i - 1] == s[i]);
            }
        }
        if cut_at(s) < s.len() {
            assert(s.skip(1)[cut_at(s) - 1] == s[cut_at(s)]);
        }
    }
}

/// A cleaned text is the start of the trimmed text, up to the first mark that
/// ends a phrase, and of twenty-five characters at most.
pub proof fn a_cleaned_text_ends_at_the_first_mark(text: Seq<char>)
    ensures
        ({
            let t = trim(text);
            let c = cleaned(text);
            &&& c.len() <= 25
            &&& c.len() <= t.len()
            &&& c == t.take(c.len() as int)
            &&& forall|i: int|
                0 <= i < c.len() ==> (#[trigger] c[i]) != '、' && c[i] != '。' && c[i] != '「' && c[i]
                    != '」' && c[i] != '！' && c[i] != '？' && c[i] != '…' && c[i] != '\n'
            &&& c.len() < 25 && c.len() < t.len() ==> {
                let m = t[c.len() as int];
                m == '、' || m == '。' || m == '「' || m == '」' || m == '！' || m == '？' || m == '…' || m
                    == '\n'
            }
        }),
{
    let t = trim(text);
    cut_is_first(t);
    let c = cleaned(text);
    assert forall|i: int| 0 <= i < c.len() implies !separator(#[trigger] c[i]) by {
        assert(c[i] == t[i]);
    }
}

/// A tag that says of which part of speech a form is says it by how it starts:
/// a row is asked for that start, and for none but the five that rows carry.
pub proof fn a_tag_starts_with_its_part_of_speech(tag: Seq<char>)
    ensures
        pos_for(tag) matches Some(Some(p)) ==> {
            &&& p.len() <= tag.len()
            &&& tag.take(p.len() as int) == p
            &&& p == "v5"@ || p == "vs"@ || p == "adj-i"@ || p == "v1"@ || p == "vk"@
        },
        tag == "v1"@ || tag == "vk"@ || tag == "adj-i"@ ==> pos_for(tag) == Some(Some(tag)),
        tag == "exp"@ ==> pos_for(tag) == Some(None::<Seq<char>>),
{
    reveal_strlit("v5");
    reveal_strlit("vs");
    reveal_strlit("v5aru");
    reveal_strlit("v5b");
    reveal_strlit("v5g");
    reveal_strlit("v5k");
    reveal_strlit("v5k-s");
    reveal_strlit("v5m");
    reveal_strlit("v5n");
    reveal_strlit("v5r");
    reveal_strlit("v5r-i");
    reveal_strlit("v5s");
    reveal_strlit("v5t");
    reveal_strlit("v5u");
    reveal_strlit("v5u-s");
    reveal_strlit("vs-i");
    reveal_strlit("adj-i");
    reveal_strlit("v1");
    reveal_strlit("vk");
    reveal_strlit("exp");
    reveal_strlit("topic-condition");
    reveal_strlit("uninflectable");
    assert("v5aru"@[0] == 'v');
    assert("v5b"@[0] == 'v');
    assert("v5g"@[0] == 'v');
    assert("v5k"@[0] == 'v');
    assert("v5k-s"@[0] == 'v');
    assert("v5m"@[0] == 'v');
    assert("v5n"@[0] == 'v');
    assert("v5r"@[0] == 'v');
    assert("v5r-i"@[0] == 'v');
    assert("v5s"@[0] == 'v');
    assert("v5t"@[0] == 'v');
    assert("v5u"@[0] == 'v');
    assert("v5u-s"@[0] == 'v');
    assert("vs-i"@[0] == 'v');
    assert("v1"@[1] == '1');
    assert("vk"@[1] == 'k');
    assert("adj-i"@[0] == 'a');
    assert("exp"@[0] == 'e');
    if let Some(Some(p)) = pos_for(tag) {
        assert(tag.take(p.len() as int) =~= p);
    }
}

proof fn placed_keeps(list: Seq<(CandV, i64)>, c: (CandV, i64))
    ensures
        placed(list, c).to_multiset() == list.to_multiset().insert(c),
    decreases list.len(),
{
    broadcast use vstd::seq_lib::group_to_multiset_ensures;

    if list.len() > 0 && precedes(c, list.last()) {
        let front = list.drop_last();
        placed_keeps(front, c);
        assert(front.push(list.last()) =~= list);
        assert(placed(list, c).to_multiset() =~= list.to_multiset().insert(c));
    }
}

/// Ranking loses no candidate and makes none up: the ranked list holds the
/// candidates with their keys, each as often as it was given.
pub proof fn ranking_keeps_every_candidate(cands: Seq<CandV>, keys: Seq<i64>, n: int)
    requires
        0 <= n <= cands.len(),
        cands.len() == keys.len(),
    ensures
        ranked(cands, keys, n).to_multiset() == Seq::new(
            n as nat,
            |i: int| (cands[i], keys[i]),
        ).to_multiset(),
    decreases n,
{
    broadcast use vstd::seq_lib::group_to_multiset_ensures;

    let all = Seq::new(n as nat, |i: int| (cands[i], keys[i]));
    if n > 0 {
        ranking_keeps_every_candidate(cands, keys, n - 1);
        placed_keeps(ranked(cands, keys, n - 1), (cands[n - 1], keys[n - 1]));
        let before = Seq::new((n - 1) as nat, |i: int| (cands[i], keys[i]));
        assert(all =~= before.push((cands[n - 1], keys[n - 1])));
    } else {
        assert(all =~= seq![]);
        assert(ranked(cands, keys, n) =~= all);
    }
}

/// Of two results the first consumes more, or as much with the greater key, or
/// is of the lower Dictionary, or of the entry that is no higher.
pub proof fn results_go_by_length_key_and_dictionary(
    cands: Seq<CandV>,
    keys: Seq<i64>,
    i: int,
    j: int,
)
    requires
        cands.len() == keys.len(),
        0 <= i < j < top(cands, keys).len(),
    ensures
        ({
            let a = top(cands, keys)[i];
            let b = top(cands, keys)[j];
            ||| a.0.match_len > b.0.match_len
            ||| a.0.match_len == b.0.match_len && a.1 > b.1
            ||| a.0.match_len == b.0.match_len && a.1 == b.1 && a.0.row.dict_id < b.0.row.dict_id
            ||| a.0.match_len == b.0.match_len && a.1 == b.1 && a.0.row.dict_id == b.0.row.dict_id
                && a.0.row.entry_id <= b.0.row.entry_id
        }),
        top(cands, keys).len() <= 10,
        top(cands, keys) == ranked(cands, keys, cands.len() as int).take(
            top(cands, keys).len() as int,
        ),
{
    results_are_ranked(cands, keys);
    ranked_in_order(cands, keys, cands.len() as int);
    assert(!precedes(top(cands, keys)[j], top(cands, keys)[i]));
    let all = ranked(cands, keys, cands.len() as int);
    assert(all.take(all.len() as int) =~= all);
}

/// Is a hit that of a candidate with its key?
pub open spec fn hit_of(h: HitV, c: CandV, key: i64) -> bool {
    &&& h.written == c.row.written
    &&& h.reading == c.row.reading
    &&& h.match_len == c.match_len
    &&& h.freq == c.row.freq
    &&& h.score == key
    &&& h.process == c.process
    &&& h.entry.entry_id == c.row.entry_id
}

proof fn entry_for_finds(entries: Seq<EntryV>, id: i64)
    ensures
        entry_for(entries, id) matches Some(e) ==> e.entry_id == id && entries.contains(e),
        entry_for(entries, id) is None ==> forall|k: int|
            0 <= k < entries.len() ==> (#[trigger] entries[k]).entry_id != id,
    decreases entries.len(),
{
    if entries.len() > 0 {
        if entries.last().entry_id == id {
            assert(entries[entries.len() - 1] == entries.last());
        } else {
            let front = entries.drop_last();
            entry_for_finds(front, id);
            match entry_for(front, id) {
                Some(e) => {
                    let k = choose|k: int| 0 <= k < front.len() && front[k] == e;
                    assert(entries[k] == e);
                },
                None => {
                    assert forall|k: int| 0 <= k < entries.len() implies (
                    #[trigger] entries[k]).entry_id != id by {
                        if k < front.len() {
                            assert(front[k] == entries[k]);
                        }
                    }
                },
            }
        }
    }
}

/// Each hit is one of the results, with the entry of its row, and each result
/// whose entry the store gave is a hit.
pub proof fn hits_are_the_results(list: Seq<(CandV, i64)>, entries: Seq<EntryV>, n: int)
    requires
        0 <= n <= list.len(),
    ensures
        forall|h: int|
            0 <= h < hits_of(list, entries, n).len() ==> entries.contains(
                (#[trigger] hits_of(list, entries, n)[h]).entry,
            ) && exists|c: int|
                0 <= c < n && hit_of(
                    hits_of(list, entries, n)[h],
                    (#[trigger] list[c]).0,
                    list[c].1,
                ),
        forall|c: int, e: int|
            0 <= c < n && 0 <= e < entries.len() && (#[trigger] entries[e]).entry_id == (
            #[trigger] list[c]).0.row.entry_id ==> exists|h: int|
                0 <= h < hits_of(list, entries, n).len() && hit_of(
                    #[trigger] hits_of(list, entries, n)[h],
                    list[c].0,
                    list[c].1,
                ),
    decreases n,
{
    if n > 0 {
        hits_are_the_results(list, entries, n - 1);
        let before = hits_of(list, entries, n - 1);
        let all = hits_of(list, entries, n);
        let last = list[n - 1];
        entry_for_finds(entries, last.0.row.entry_id);
        assert forall|h: int| 0 <= h < all.len() implies entries.contains(
            (#[trigger] all[h]).entry,
        ) && exists|c: int| 0 <= c < n && hit_of(all[h], (#[trigger] list[c]).0, list[c].1) by {
            if h < before.len() {
                assert(all[h] == before[h]);
                let c = choose|c: int|
                    0 <= c < n - 1 && hit_of(before[h], (#[trigger] list[c]).0, list[c].1);
                assert(hit_of(all[h], list[c].0, list[c].1));
            } else {
                assert(hit_of(all[h], list[n - 1].0, list[n - 1].1));
            }
        }
        assert forall|c: int, e: int|
            0 <= c < n && 0 <= e < entries.len() && (#[trigger] entries[e]).entry_id == (
            #[trigger] list[c]).0.row.entry_id implies exists|h: int|
            0 <= h < all.len() && hit_of(#[trigger] all[h], list[c].0, list[c].1) by {
            if c < n - 1 {
                let h = choose|h: int|
                    0 <= h < before.len() && hit_of(#[trigger] before[h], list[c].0, list[c].1);
                assert(all[h] == before[h]);
            } else {
                assert(hit_of(all[all.len() - 1], list[c].0, list[c].1));
            }
        }
    }
}

/// Hits stand in the order of the results.
pub proof fn hits_keep_the_order(list: Seq<(CandV, i64)>, entries: Seq<EntryV>, n: int)
    requires
        0 <= n <= list.len(),
        forall|i: int, j: int|
            0 <= i < j < list.len() ==> (#[trigger] list[i]).0.match_len >= (
            #[trigger] list[j]).0.match_len,
    ensures
        forall|i: int, j: int|
            0 <= i < j < hits_of(list, entries, n).len() ==> (#[trigger] hits_of(
                list,
                entries,
                n,
            )[i]).match_len >= (#[trigger] hits_of(list, entries, n)[j]).match_len,
    decreases n,
{
    if n > 0 {
        hits_keep_the_order(list, entries, n - 1);
        hits_are_the_results(list, entries, n - 1);
        let before = hits_of(list, entries, n - 1);
        let all = hits_of(list, entries, n);
        assert forall|i: int, j: int| 0 <= i < j < all.len() implies (#[trigger] all[i]).match_len
            >= (#[trigger] all[j]).match_len by {
            assert(all[i] == before[i]);
            if j < before.len() {
                assert(all[j] == before[j]);
            } else {
                let c = choose|c: int|
                    0 <= c < n - 1 && hit_of(before[i], (#[trigger] list[c]).0, list[c].1);
                assert(list[c].0.match_len >= list[n - 1].0.match_len);
            }
        }
    }
}

/// The kana bonus goes to a row that was looked up as it stands and is written
/// in hiragana and katakana alone.
pub proof fn the_bonus_is_for_plain_kana(c: CandV)
    ensures
        kana_bonus(c) <==> c.process.len() == 0 && forall|i: int|
            0 <= i < c.row.surface.len() ==> 0x3040 <= (#[trigger] c.row.surface[i]) as u32
                <= 0x30ff,
{
}

/// The fine tags of the godan verbs.
pub open spec fn godan_tag(k: int) -> Seq<char> {
    if k == 0 {
        "v5aru"@
    } else if k == 1 {
        "v5b"@
    } else if k == 2 {
        "v5g"@
    } else if k == 3 {
        "v5k"@
    } else if k == 4 {
        "v5k-s"@
    } else if k == 5 {
        "v5m"@
    } else if k == 6 {
        "v5n"@
    } else if k == 7 {
        "v5r"@
    } else if k == 8 {
        "v5r-i"@
    } else if k == 9 {
        "v5s"@
    } else if k == 10 {
        "v5t"@
    } else if k == 11 {
        "v5u"@
    } else {
        "v5u-s"@
    }
}

/// Every godan tag asks for the godan part of speech.
pub proof fn every_godan_tag_asks_for_godan(k: int)
    requires
        0 <= k < 13,
    ensures
        pos_for(godan_tag(k)) == Some(Some("v5"@)),
        pos_for("vs-i"@) == Some(Some("vs"@)),
{
    reveal_strlit("vs-i");
    reveal_strlit("v5aru");
    reveal_strlit("v5b");
    reveal_strlit("v5g");
    reveal_strlit("v5k");
    reveal_strlit("v5k-s");
    reveal_strlit("v5m");
    reveal_strlit("v5n");
    reveal_strlit("v5r");
    reveal_strlit("v5r-i");
    reveal_strlit("v5s");
    reveal_strlit("v5t");
    reveal_strlit("v5u");
    reveal_strlit("v5u-s");
    assert("v5aru"@[1] == '5');
    assert("v5b"@[1] == '5');
    assert("v5g"@[1] == '5');
    assert("v5k"@[1] == '5');
    assert("v5k-s"@[1] == '5');
    assert("v5m"@[1] == '5');
    assert("v5n"@[1] == '5');
    assert("v5r"@[1] == '5');
    assert("v5r-i"@[1] == '5');
    assert("v5s"@[1] == '5');
    assert("v5t"@[1] == '5');
    assert("v5u"@[1] == '5');
    assert("v5u-s"@[1] == '5');
    assert("vs-i"@[1] == 's');
}

} // verus!
