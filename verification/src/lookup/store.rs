//! What a stored Dictionary's rows mean, and what a reader keeps of them.
use super::model::share;
use crate::chars::{chars_of, copy_opt, opt_str, parse_i64, parsed_i64, push_chars, string_of, strs};
use crate::dict::gloss::{parsed, DocV, GlossDoc};
use crate::dict::media::{media_v, Intrinsic};
use crate::dict::pitch::{claims_v, Accent, AccentV, ClaimV, PitchClaim, Position, PositionV};
use crate::dict::sheet::{applied, apply, sheet_for, Sheet, SheetV};
use crate::json::{json_numbers, json_strings, read_numbers, read_strings};
use std::collections::{HashMap, VecDeque};
use std::sync::Arc;
use vstd::prelude::*;

verus! {

/// The store layout that this reader understands.
pub const EXPECTED_SCHEMA_VERSION: i64 = 4;

/// Parsed trees the cache keeps.
pub const GLOSS_CACHE_ENTRIES: usize = 256;

/// Does a stored version name the layout that this reader understands?
pub open spec fn current(found: Option<Seq<char>>) -> bool {
    match found {
        Some(v) => parsed_i64(v) == Some(EXPECTED_SCHEMA_VERSION as int),
        None => false,
    }
}

/// What a refused store is told.
pub open spec fn refusal(path: Seq<char>, found: Option<Seq<char>>) -> Seq<char> {
    path + ": schema_version is "@ + (match found {
        Some(v) => v,
        None => "<missing>"@,
    }) + ", but this build of chibipop expects 4 - rebuild the dictionary from the settings window"@
}

/// Refuses a store of another layout, and says what to do about it.
pub fn check_schema(path: &str, found: &Option<String>) -> (r: Result<(), String>)
    ensures
        match r {
            Ok(()) => current(opt_str(*found)),
            Err(m) => !current(opt_str(*found)) && m@ == refusal(path@, opt_str(*found)),
        },
{
    let mut m = chars_of(path);
    push_chars(&mut m, chars_of(": schema_version is ").as_slice());
    match found {
        Some(v) => {
            let c = chars_of(v.as_str());
            if let Some(n) = parse_i64(c.as_slice()) {
                if n == EXPECTED_SCHEMA_VERSION {
                    return Ok(());
                }
            }
            push_chars(&mut m, c.as_slice());
        },
        None => {
            push_chars(&mut m, chars_of("<missing>").as_slice());
        },
    }
    push_chars(
        &mut m,
        chars_of(
            ", but this build of chibipop expects 4 - rebuild the dictionary from the settings window",
        ).as_slice(),
    );
    Err(string_of(m.as_slice()))
}

/// One cached record: the Dictionary it belongs to, its headword's Reported
/// frequency, and the tree.
pub struct Cached {
    pub dict_id: i64,
    pub reported_freq: Option<i64>,
    pub doc: Arc<GlossDoc>,
}

/// What a cached record holds.
#[verifier::ext_equal]
pub struct CachedV {
    pub dict_id: i64,
    pub reported_freq: Option<i64>,
    pub doc: DocV,
}

impl Cached {
    pub open spec fn v(self) -> CachedV {
        CachedV { dict_id: self.dict_id, reported_freq: self.reported_freq, doc: self.doc@ }
    }
}

impl Clone for Cached {
    fn clone(&self) -> (r: Self)
        ensures
            r == *self,
    {
        Cached {
            dict_id: self.dict_id,
            reported_freq: self.reported_freq,
            doc: share(&self.doc),
        }
    }
}

/// Where an id stands, or how many records there are.
pub open spec fn record_at(records: Seq<(i64, Cached)>, id: i64) -> int
    decreases records.len(),
{
    if records.len() == 0 || records[0].0 == id {
        0
    } else {
        1 + record_at(records.skip(1), id)
    }
}

proof fn record_at_bounds(records: Seq<(i64, Cached)>, id: i64)
    ensures
        0 <= record_at(records, id) <= records.len(),
        record_at(records, id) < records.len() ==> records[record_at(records, id)].0 == id,
        forall|j: int| 0 <= j < record_at(records, id) ==> (#[trigger] records[j]).0 != id,
    decreases records.len(),
{
    if records.len() > 0 && records[0].0 != id {
        record_at_bounds(records.skip(1), id);
        let k = record_at(records.skip(1), id);
        assert forall|j: int| 0 <= j < k + 1 implies (#[trigger] records[j]).0 != id by {
            if j > 0 {
                assert(records.skip(1)[j - 1] == records[j]);
            }
        }
    }
}

/// The record under an id.
pub open spec fn record_for(records: Seq<(i64, Cached)>, id: i64) -> Option<Cached> {
    if record_at(records, id) < records.len() {
        Some(records[record_at(records, id)].1)
    } else {
        None
    }
}

/// The records with one put in: in the place of the one under its id, or
/// last, and then the first one leaves where there are too many.
pub open spec fn record_put(records: Seq<(i64, Cached)>, id: i64, c: Cached) -> Seq<(i64, Cached)> {
    let k = record_at(records, id);
    if k < records.len() {
        records.update(k, (id, c))
    } else if records.len() >= GLOSS_CACHE_ENTRIES {
        records.push((id, c)).skip(1)
    } else {
        records.push((id, c))
    }
}

/// Is no id recorded twice, and is the cache within its size?
pub open spec fn cache_ok(records: Seq<(i64, Cached)>) -> bool {
    &&& records.len() <= GLOSS_CACHE_ENTRIES
    &&& forall|i: int, j: int|
        0 <= i < j < records.len() ==> (#[trigger] records[i]).0 != (#[trigger] records[j]).0
}

/// The parsed-tree cache. Insertion order, not recency.
pub struct GlossCache {
    by_id: HashMap<i64, Cached>,
    order: VecDeque<i64>,
}

/// Records in the order of their ids.
spec fn in_turn(by_id: Map<i64, Cached>, order: Seq<i64>) -> Seq<(i64, Cached)> {
    order.map_values(|id: i64| (id, by_id[id]))
}

impl View for GlossCache {
    type V = Seq<(i64, Cached)>;

    closed spec fn view(&self) -> Seq<(i64, Cached)> {
        in_turn(self.by_id@, self.order@)
    }
}

impl GlossCache {
    /// Every id in the order has a record, and no other one has.
    #[verifier::type_invariant]
    spec fn wf(self) -> bool {
        &&& cache_ok(in_turn(self.by_id@, self.order@))
        &&& forall|id: i64| #[trigger] self.by_id@.contains_key(id) <==> self.order@.contains(id)
    }

    pub fn new() -> (r: Self)
        ensures
            r@ == Seq::<(i64, Cached)>::empty(),
    {
        let by_id: HashMap<i64, Cached> = HashMap::new();
        let order: VecDeque<i64> = VecDeque::new();
        assert(in_turn(by_id@, order@) =~= seq![]);
        GlossCache { by_id, order }
    }

    pub fn get(&self, entry_id: i64) -> (r: Option<Cached>)
        ensures
            r == record_for(self@, entry_id),
            cache_ok(self@),
    {
        proof {
            use_type_invariant(self);
            record_is_found(self.by_id@, self.order@, entry_id);
        }
        match self.by_id.get(&entry_id) {
            Some(c) => Some(c.clone()),
            None => None,
        }
    }

    pub fn put(&mut self, entry_id: i64, record: Cached)
        ensures
            final(self)@ == record_put(old(self)@, entry_id, record),
            cache_ok(final(self)@),
    {
        proof {
            use_type_invariant(&*self);
            a_put_is_read_back(self@, entry_id, record);
            record_is_found(self.by_id@, self.order@, entry_id);
            record_at_bounds(self@, entry_id);
        }
        let mut whole = GlossCache::new();
        std::mem::swap(self, &mut whole);
        let GlossCache { by_id: mut by_id, order: mut order } = whole;
        let ghost before = in_turn(by_id@, order@);
        let ghost ids = order@;
        let ghost next = record_put(before, entry_id, record);
        if by_id.insert(entry_id, record).is_none() {
            order.push_back(entry_id);
            assert(ids.push(entry_id).contains(entry_id)) by {
                assert(ids.push(entry_id)[ids.len() as int] == entry_id);
            }
            assert forall|id: i64| #[trigger] by_id@.contains_key(id) <==> order@.contains(id) by {
                if ids.contains(id) {
                    let k = choose|k: int| 0 <= k < ids.len() && ids[k] == id;
                    assert(order@[k] == id);
                }
                if order@.contains(id) && id != entry_id {
                    let k = choose|k: int| 0 <= k < order@.len() && order@[k] == id;
                    assert(ids[k] == id);
                }
            }
            assert(in_turn(by_id@, order@) =~= before.push((entry_id, record)));
            if order.len() > GLOSS_CACHE_ENTRIES {
                let ghost full = order@;
                let ghost kept = by_id@;
                match order.pop_front() {
                    Some(evicted) => {
                        let _old = by_id.remove(&evicted);
                        assert forall|k: int| 0 < k < full.len() implies #[trigger] full[k] != evicted by {
                            if k < ids.len() {
                                assert(before[0].0 != before[k].0);
                            }
                        }
                        assert forall|id: i64| #[trigger] by_id@.contains_key(id) <==> order@.contains(
                            id,
                        ) by {
                            assert(kept.contains_key(id) <==> full.contains(id));
                            if order@.contains(id) {
                                let k = choose|k: int| 0 <= k < order@.len() && order@[k] == id;
                                assert(full[k + 1] == id);
                            }
                            if full.contains(id) && id != evicted {
                                let k = choose|k: int| 0 <= k < full.len() && full[k] == id;
                                assert(order@[k - 1] == id);
                            }
                        }
                    },
                    None => {},
                }
            }
        } else {
            assert forall|id: i64| #[trigger] by_id@.contains_key(id) <==> order@.contains(id) by {}
        }
        assert(in_turn(by_id@, order@) =~= next);
        *self = GlossCache { by_id, order };
    }
}

proof fn record_is_found(by_id: Map<i64, Cached>, order: Seq<i64>, id: i64)
    requires
        forall|id: i64| #[trigger] by_id.contains_key(id) <==> order.contains(id),
    ensures
        record_for(in_turn(by_id, order), id) == (if by_id.contains_key(id) {
            Some(by_id[id])
        } else {
            None
        }),
{
    let records = in_turn(by_id, order);
    record_at_bounds(records, id);
    let k = record_at(records, id);
    if by_id.contains_key(id) {
        let j = choose|j: int| 0 <= j < order.len() && order[j] == id;
        assert(records[j].0 == id);
    } else if k < records.len() {
        assert(order[k] == id);
    }
}

/// What was put under an id is what the cache gives for it, and the cache
/// stays within its size.
pub proof fn a_put_is_read_back(records: Seq<(i64, Cached)>, id: i64, c: Cached)
    requires
        cache_ok(records),
    ensures
        record_for(record_put(records, id, c), id) == Some(c),
        cache_ok(record_put(records, id, c)),
{
    record_at_bounds(records, id);
    let r = record_put(records, id, c);
    record_at_bounds(r, id);
    let k = record_at(records, id);
    if k < records.len() {
        assert(r[k].0 == id);
        assert forall|i: int, j: int| 0 <= i < j < r.len() implies (#[trigger] r[i]).0 != (
        #[trigger] r[j]).0 by {
            assert(records[i].0 != records[j].0);
        }
        assert(record_at(r, id) == k);
    } else {
        assert(r[r.len() - 1] == (id, c));
        assert(records.len() == k);
        if records.len() >= GLOSS_CACHE_ENTRIES {
            assert forall|i: int| 0 <= i < r.len() - 1 implies #[trigger] r[i] == records[i + 1] by {}
        }
        assert(record_at(r, id) == r.len() - 1);
    }
}

/// A put under one id leaves what another id gives, unless that one was the
/// oldest of a full cache.
pub proof fn a_put_leaves_the_rest(records: Seq<(i64, Cached)>, id: i64, c: Cached, other: i64)
    requires
        cache_ok(records),
        other != id,
        records.len() < GLOSS_CACHE_ENTRIES || record_at(records, id) < records.len()
            || records[0].0 != other,
    ensures
        record_for(record_put(records, id, c), other) == record_for(records, other),
{
    record_at_bounds(records, id);
    let r = record_put(records, id, c);
    a_put_is_read_back(records, id, c);
    record_at_bounds(r, other);
    record_at_bounds(records, other);
    let p = record_at(records, other);
    let q = record_at(r, other);
    let k = record_at(records, id);
    if k < records.len() {
        if p < records.len() {
            assert(r[p] == records[p]);
        }
        if q < r.len() {
            assert(r[q] == records[q]);
        }
    } else if records.len() >= GLOSS_CACHE_ENTRIES {
        if p < records.len() {
            assert(r[p - 1] == records[p]);
            if q < p - 1 {
                assert(r[q] == records[q + 1]);
            }
        }
        if q < r.len() - 1 {
            assert(r[q] == records[q + 1]);
        }
    } else {
        if p < records.len() {
            assert(r[p] == records[p]);
        }
        if q < records.len() {
            assert(r[q] == records[q]);
        }
    }
}

/// One claim on a headword's frequency: the Dictionary, whether the claim is
/// for any reading, and the rank.
pub type FreqClaim = (i64, bool, i64);

/// Where an id stands in an order, or how long the order is.
pub open spec fn place(order: Seq<i64>, id: i64) -> int
    decreases order.len(),
{
    if order.len() == 0 || order[0] == id {
        0
    } else {
        1 + place(order.skip(1), id)
    }
}

/// Does claim `a` go before claim `b`: its Dictionary is listed earlier, or
/// it is the claim for the very reading?
pub open spec fn claim_first(order: Seq<i64>, a: FreqClaim, b: FreqClaim) -> bool {
    place(order, a.0) < place(order, b.0) || (place(order, a.0) == place(order, b.0) && !a.1 && b.1)
}

/// The claim that is reported of the first `n`. A Dictionary that the order
/// does not name is disabled, and a disabled Dictionary is no data point.
pub open spec fn reported(order: Seq<i64>, claims: Seq<FreqClaim>, n: int) -> Option<FreqClaim>
    decreases n,
{
    if n <= 0 {
        None
    } else {
        let before = reported(order, claims, n - 1);
        let c = claims[n - 1];
        if place(order, c.0) >= order.len() {
            before
        } else {
            match before {
                None => Some(c),
                Some(b) => if claim_first(order, c, b) {
                    Some(c)
                } else {
                    before
                },
            }
        }
    }
}

/// The rank that is reported of a headword.
pub open spec fn reported_rank(order: Seq<i64>, claims: Seq<FreqClaim>) -> Option<i64> {
    match reported(order, claims, claims.len() as int) {
        Some(c) => Some(c.2),
        None => None,
    }
}

fn place_of(order: &Vec<i64>, id: i64) -> (r: usize)
    ensures
        r == place(order@, id),
{
    let mut k: usize = 0;
    assert(order@.skip(0) =~= order@);
    while k < order.len() && order[k] != id
        invariant
            k <= order@.len(),
            place(order@, id) == k + place(order@.skip(k as int), id),
        decreases order@.len() - k,
    {
        assert(order@.skip(k as int).skip(1) =~= order@.skip(k + 1));
        k += 1;
    }
    k
}

/// Priority first: among the Dictionaries that have a headword, whichever
/// the order puts first, and within one its claim for the reading ahead of
/// its claim for any reading.
pub fn pick_reported(order: &Vec<i64>, claims: &Vec<FreqClaim>) -> (r: Option<i64>)
    ensures
        r == reported_rank(order@, claims@),
{
    let mut best: Option<FreqClaim> = None;
    let mut i: usize = 0;
    while i < claims.len()
        invariant
            i <= claims@.len(),
            best == reported(order@, claims@, i as int),
        decreases claims@.len() - i,
    {
        let c = claims[i];
        let p = place_of(order, c.0);
        if p < order.len() {
            match best {
                None => {
                    best = Some(c);
                },
                Some(b) => {
                    let q = place_of(order, b.0);
                    if p < q || (p == q && !c.1 && b.1) {
                        best = Some(c);
                    }
                },
            }
        }
        i += 1;
    }
    match best {
        Some(c) => Some(c.2),
        None => None,
    }
}

proof fn reported_is_first(order: Seq<i64>, claims: Seq<FreqClaim>, n: int)
    requires
        0 <= n <= claims.len(),
    ensures
        match reported(order, claims, n) {
            None => forall|i: int|
                0 <= i < n ==> place(order, (#[trigger] claims[i]).0) >= order.len(),
            Some(b) => {
                &&& place(order, b.0) < order.len()
                &&& exists|i: int| 0 <= i < n && claims[i] == b
                &&& forall|i: int|
                    0 <= i < n ==> !claim_first(order, #[trigger] claims[i], b)
            },
        },
    decreases n,
{
    if n > 0 {
        reported_is_first(order, claims, n - 1);
        let c = claims[n - 1];
        match reported(order, claims, n - 1) {
            None => {},
            Some(b) => {
                let k = choose|i: int| 0 <= i < n - 1 && claims[i] == b;
                assert(claims[k] == b);
            },
        }
    }
}

/// The reported rank is that of a listed Dictionary's claim that no other
/// claim goes before, and there is none only where no listed Dictionary
/// claims one.
pub proof fn the_first_listed_claim_is_reported(order: Seq<i64>, claims: Seq<FreqClaim>)
    ensures
        match reported_rank(order, claims) {
            None => forall|i: int|
                0 <= i < claims.len() ==> place(order, (#[trigger] claims[i]).0) >= order.len(),
            Some(rank) => exists|k: int|
                {
                    &&& 0 <= k < claims.len()
                    &&& (#[trigger] claims[k]).2 == rank
                    &&& place(order, claims[k].0) < order.len()
                    &&& forall|i: int|
                        0 <= i < claims.len() ==> !claim_first(order, #[trigger] claims[i], claims[k])
                },
        },
{
    reported_is_first(order, claims, claims.len() as int);
    if let Some(b) = reported(order, claims, claims.len() as int) {
        let k = choose|i: int| 0 <= i < claims.len() && claims[i] == b;
        assert(claims[k].2 == b.2);
    }
}

/// The position that a pitch row names: its downstep, or else its pattern.
pub open spec fn position_of(downstep: Option<i64>, pattern: Option<Seq<char>>) -> Option<PositionV> {
    match downstep {
        Some(fall) => Some(
            PositionV::Downstep(
                if 0 <= fall <= u32::MAX {
                    fall as u32
                } else {
                    0
                },
            ),
        ),
        None => match pattern {
            Some(levels) => Some(PositionV::Pattern(levels)),
            None => None,
        },
    }
}

/// The claim of a pitch row whose lists were read. An unreadable list is
/// empty, and a row without a position is no claim.
pub open spec fn claim_for(
    dict_id: i64,
    downstep: Option<i64>,
    pattern: Option<Seq<char>>,
    nasal: Option<Seq<u32>>,
    devoice: Option<Seq<u32>>,
    tags: Option<Seq<Seq<char>>>,
) -> Option<ClaimV> {
    match position_of(downstep, pattern) {
        None => None,
        Some(position) => Some(
            ClaimV {
                dict_id,
                accent: AccentV {
                    position,
                    nasal: nasal.unwrap_or(seq![]),
                    devoice: devoice.unwrap_or(seq![]),
                    tags: tags.unwrap_or(seq![]),
                },
            },
        ),
    }
}

fn moras_or_none(v: Option<Vec<u32>>) -> (r: Vec<u32>)
    ensures
        r@ == (match v {
            Some(m) => m@,
            None => seq![],
        }),
{
    match v {
        Some(m) => m,
        None => Vec::new(),
    }
}

/// The claim of one pitch row, from its lists as they were read.
pub fn claim_from(
    dict_id: i64,
    downstep: Option<i64>,
    pattern: Option<String>,
    nasal: Option<Vec<u32>>,
    devoice: Option<Vec<u32>>,
    tags: Option<Vec<String>>,
) -> (r: Option<PitchClaim>)
    ensures
        claim_for(
            dict_id,
            downstep,
            opt_str(pattern),
            match nasal {
                Some(v) => Some(v@),
                None => None,
            },
            match devoice {
                Some(v) => Some(v@),
                None => None,
            },
            match tags {
                Some(v) => Some(strs(v@)),
                None => None,
            },
        ) == (match r {
            Some(c) => Some(c.v()),
            None => None,
        }),
{
    let position = match downstep {
        Some(fall) => {
            if 0 <= fall && fall <= u32::MAX as i64 {
                Position::Downstep(fall as u32)
            } else {
                Position::Downstep(0)
            }
        },
        None => match pattern {
            Some(levels) => Position::Pattern(levels),
            None => {
                return None;
            },
        },
    };
    let nasal = moras_or_none(nasal);
    let devoice = moras_or_none(devoice);
    let tags = match tags {
        Some(t) => t,
        None => {
            let none: Vec<String> = Vec::new();
            assert(strs(none@) =~= seq![]);
            none
        },
    };
    Some(PitchClaim { dict_id, accent: Accent { position, nasal, devoice, tags } })
}

/// One stored pitch row, its lists as JSON.
pub struct PitchRecord {
    pub dict_id: i64,
    pub downstep: Option<i64>,
    pub pattern: Option<String>,
    pub nasal: String,
    pub devoice: String,
    pub tags: String,
}

/// What a stored pitch row claims.
pub open spec fn record_claim(p: PitchRecord) -> Option<ClaimV> {
    claim_for(
        p.dict_id,
        p.downstep,
        opt_str(p.pattern),
        json_numbers(p.nasal@),
        json_numbers(p.devoice@),
        json_strings(p.tags@),
    )
}

/// What the first `n` stored pitch rows claim, in row order.
pub open spec fn record_claims(rows: Seq<PitchRecord>, n: int) -> Seq<ClaimV>
    decreases n,
{
    if n <= 0 {
        seq![]
    } else {
        match record_claim(rows[n - 1]) {
            Some(c) => record_claims(rows, n - 1).push(c),
            None => record_claims(rows, n - 1),
        }
    }
}

/// Every stored Pitch pattern of some rows.
pub fn pitch_claims(rows: &Vec<PitchRecord>) -> (r: Vec<PitchClaim>)
    ensures
        claims_v(r@) == record_claims(rows@, rows@.len() as int),
{
    let mut out: Vec<PitchClaim> = Vec::new();
    assert(claims_v(out@) =~= seq![]);
    let mut i: usize = 0;
    while i < rows.len()
        invariant
            i <= rows@.len(),
            claims_v(out@) == record_claims(rows@, i as int),
        decreases rows@.len() - i,
    {
        let p = &rows[i];
        let claim = claim_from(
            p.dict_id,
            p.downstep,
            copy_opt(&p.pattern),
            read_numbers(p.nasal.as_str()),
            read_numbers(p.devoice.as_str()),
            read_strings(p.tags.as_str()),
        );
        match claim {
            Some(c) => {
                let ghost before = claims_v(out@);
                out.push(c);
                assert(claims_v(out@) =~= before.push(c.v()));
            },
            None => {},
        }
        i += 1;
    }
    out
}

/// The assets of the first `n` paths that have a recorded size.
pub open spec fn sized_upto(
    paths: Seq<Seq<char>>,
    sizes: Seq<Option<Intrinsic>>,
    n: int,
) -> Seq<(Seq<char>, Intrinsic)>
    decreases n,
{
    if n <= 0 {
        seq![]
    } else {
        match sizes[n - 1] {
            Some(s) => sized_upto(paths, sizes, n - 1).push((paths[n - 1], s)),
            None => sized_upto(paths, sizes, n - 1),
        }
    }
}

/// Pairs each path with its recorded size. An asset that the store has no
/// bytes for is left out.
pub fn sized(paths: &Vec<String>, sizes: &Vec<Option<Intrinsic>>) -> (r: Vec<(String, Intrinsic)>)
    requires
        paths@.len() == sizes@.len(),
    ensures
        media_v(r@) == sized_upto(strs(paths@), sizes@, paths@.len() as int),
{
    let mut out: Vec<(String, Intrinsic)> = Vec::new();
    assert(media_v(out@) =~= seq![]);
    let mut i: usize = 0;
    while i < paths.len()
        invariant
            i <= paths@.len(),
            paths@.len() == sizes@.len(),
            media_v(out@) == sized_upto(strs(paths@), sizes@, i as int),
        decreases paths@.len() - i,
    {
        match sizes[i] {
            Some(s) => {
                let ghost before = media_v(out@);
                out.push((paths[i].clone(), s));
                assert(media_v(out@) =~= before.push((strs(paths@)[i as int], s)));
            },
            None => {},
        }
        i += 1;
    }
    out
}

/// The stylesheet that is known for a Dictionary: nothing where none was
/// read yet, `Some(None)` where the Dictionary has none.
pub open spec fn sheet_known(sheets: Map<i64, Option<SheetV>>, dict_id: i64) -> Option<Option<SheetV>> {
    if sheets.contains_key(dict_id) {
        Some(sheets[dict_id])
    } else {
        None
    }
}

spec fn sheet_v(s: Option<Sheet>) -> Option<SheetV> {
    match s {
        Some(sheet) => Some(sheet@),
        None => None,
    }
}

spec fn sheets_v(m: Map<i64, Option<Sheet>>) -> Map<i64, Option<SheetV>> {
    m.map_values(|s: Option<Sheet>| sheet_v(s))
}

/// A parsed glossary with the Dictionary's stylesheet folded in.
pub open spec fn styled(glossary: Seq<char>, sheet: Option<Option<SheetV>>) -> DocV {
    match sheet {
        Some(Some(s)) => applied(parsed(glossary), s),
        _ => parsed(glossary),
    }
}

/// What a reader of a store keeps: parsed trees, compiled stylesheets, and
/// the enabled frequency Dictionaries, highest priority first.
pub struct EntryStore {
    gloss: GlossCache,
    sheets: HashMap<i64, Option<Sheet>>,
    freq_order: Vec<i64>,
}

/// What such a reader holds.
#[verifier::ext_equal]
pub struct StoreV {
    pub records: Seq<(i64, Cached)>,
    pub sheets: Map<i64, Option<SheetV>>,
    pub order: Seq<i64>,
}

impl View for EntryStore {
    type V = StoreV;

    closed spec fn view(&self) -> StoreV {
        StoreV { records: self.gloss@, sheets: sheets_v(self.sheets@), order: self.freq_order@ }
    }
}

impl EntryStore {
    pub fn new(freq_order: Vec<i64>) -> (r: Self)
        ensures
            r@ == (StoreV { records: seq![], sheets: Map::empty(), order: freq_order@ }),
    {
        let r = EntryStore { gloss: GlossCache::new(), sheets: HashMap::new(), freq_order };
        assert(r@ =~= StoreV { records: seq![], sheets: Map::empty(), order: freq_order@ });
        r
    }

    /// The record that is kept for an entry.
    pub fn cached(&self, entry_id: i64) -> (r: Option<Cached>)
        ensures
            r == record_for(self@.records, entry_id),
    {
        self.gloss.get(entry_id)
    }

    /// Is a Reported frequency to be looked up at all?
    pub fn ranks(&self) -> (r: bool)
        ensures
            r == (self@.order.len() > 0),
    {
        self.freq_order.len() > 0
    }

    fn find_sheet(&self, dict_id: i64) -> (r: Option<&Option<Sheet>>)
        ensures
            sheet_known(self@.sheets, dict_id) == (match r {
                Some(Some(s)) => Some(Some(s@)),
                Some(None) => Some(None::<SheetV>),
                None => None,
            }),
    {
        self.sheets.get(&dict_id)
    }

    /// Was a Dictionary's stylesheet read already?
    pub fn knows_sheet(&self, dict_id: i64) -> (r: bool)
        ensures
            r == (sheet_known(self@.sheets, dict_id) is Some),
    {
        self.find_sheet(dict_id).is_some()
    }

    /// Keeps a Dictionary's stylesheet, compiled. A Dictionary without one is
    /// noted too, so it is asked for once.
    pub fn learn_sheet(&mut self, dict_id: i64, css: Option<String>)
        ensures
            final(self)@ == (StoreV {
                sheets: old(self)@.sheets.insert(
                    dict_id,
                    match css {
                        Some(c) => Some(sheet_for(c@)),
                        None => None,
                    },
                ),
                ..old(self)@
            }),
    {
        let sheet = match css {
            Some(c) => Some(Sheet::compile(c.as_str())),
            None => None,
        };
        let ghost added = sheet_v(sheet);
        let _old = self.sheets.insert(dict_id, sheet);
        assert(sheets_v(self.sheets@) =~= sheets_v(old(self).sheets@).insert(dict_id, added));
    }

    /// Parses a stored record, folds the Dictionary's stylesheet in, picks
    /// its Reported frequency, and keeps the outcome.
    pub fn record(
        &mut self,
        entry_id: i64,
        dict_id: i64,
        glossary: &str,
        claims: &Vec<FreqClaim>,
    ) -> (r: Cached)
        ensures
            r.v() == (CachedV {
                dict_id,
                reported_freq: reported_rank(old(self)@.order, claims@),
                doc: styled(glossary@, sheet_known(old(self)@.sheets, dict_id)),
            }),
            final(self)@ == (StoreV {
                records: record_put(old(self)@.records, entry_id, r),
                ..old(self)@
            }),
    {
        let mut doc = GlossDoc::parse(glossary);
        match self.find_sheet(dict_id) {
            Some(Some(sheet)) => {
                apply(&mut doc, sheet);
            },
            _ => {},
        }
        let reported_freq = pick_reported(&self.freq_order, claims);
        let c = Cached { dict_id, reported_freq, doc: Arc::new(doc) };
        let kept = c.clone();
        self.gloss.put(entry_id, kept);
        c
    }
}

proof fn place_is_first(order: Seq<i64>, id: i64)
    ensures
        0 <= place(order, id) <= order.len(),
        place(order, id) < order.len() ==> order[place(order, id)] == id,
        forall|j: int| 0 <= j < place(order, id) ==> #[trigger] order[j] != id,
    decreases order.len(),
{
    if order.len() > 0 && order[0] != id {
        let rest = order.skip(1);
        place_is_first(rest, id);
        assert forall|j: int| 0 <= j < place(order, id) implies #[trigger] order[j] != id by {
            if j > 0 {
                assert(rest[j - 1] == order[j]);
            }
        }
        if place(order, id) < order.len() {
            assert(rest[place(rest, id)] == order[place(order, id)]);
        }
    }
}

/// The rank that is reported is one that the first listed Dictionary with a
/// claim makes: no claim is of a Dictionary that is listed before it, and where
/// it is for any reading that Dictionary has no claim for the very reading.
pub proof fn the_highest_dictionary_is_reported(order: Seq<i64>, claims: Seq<FreqClaim>)
    ensures
        match reported_rank(order, claims) {
            None => forall|i: int, q: int|
                0 <= i < claims.len() && 0 <= q < order.len() ==> (#[trigger] claims[i]).0
                    != #[trigger] order[q],
            Some(rank) => exists|k: int, p: int|
                {
                    &&& 0 <= k < claims.len()
                    &&& 0 <= p < order.len()
                    &&& (#[trigger] claims[k]).0 == #[trigger] order[p]
                    &&& claims[k].2 == rank
                    &&& forall|i: int, q: int|
                        0 <= i < claims.len() && 0 <= q < p ==> (#[trigger] claims[i]).0
                            != #[trigger] order[q]
                    &&& claims[k].1 ==> forall|i: int|
                        0 <= i < claims.len() && (#[trigger] claims[i]).0 == order[p] ==> claims[i].1
                },
        },
{
    let n = claims.len() as int;
    reported_is_first(order, claims, n);
    match reported(order, claims, n) {
        None => {
            assert forall|i: int, q: int| 0 <= i < claims.len() && 0 <= q < order.len() implies (
            #[trigger] claims[i]).0 != #[trigger] order[q] by {
                place_is_first(order, claims[i].0);
            }
        },
        Some(b) => {
            let k = choose|i: int| 0 <= i < n && claims[i] == b;
            place_is_first(order, b.0);
            let p = place(order, b.0);
            assert(claims[k].0 == order[p]);
            assert forall|i: int, q: int| 0 <= i < claims.len() && 0 <= q < p implies (
            #[trigger] claims[i]).0 != #[trigger] order[q] by {
                place_is_first(order, claims[i].0);
                assert(!claim_first(order, claims[i], b));
            }
            if b.1 {
                assert forall|i: int| 0 <= i < claims.len() && (#[trigger] claims[i]).0
                    == order[p] implies claims[i].1 by {
                    assert(!claim_first(order, claims[i], b));
                }
            }
        },
    }
}

/// A full cache lets its oldest record go for a new one, and no other: the new
/// one stands last and the others in their order.
pub proof fn the_oldest_record_leaves(records: Seq<(i64, Cached)>, id: i64, c: Cached)
    requires
        records.len() == GLOSS_CACHE_ENTRIES,
        forall|i: int| 0 <= i < records.len() ==> (#[trigger] records[i]).0 != id,
    ensures
        ({
            let r = record_put(records, id, c);
            &&& r.len() == records.len()
            &&& r.last() == (id, c)
            &&& forall|i: int| 0 <= i < records.len() - 1 ==> #[trigger] r[i] == records[i + 1]
        }),
{
    record_at_bounds(records, id);
    if record_at(records, id) < records.len() {
        assert(records[record_at(records, id)].0 != id);
    }
}

/// A row's downstep is its position where it has one, its pattern where it has
/// not, and a row with neither claims nothing. The claim is of the row's
/// Dictionary.
pub proof fn a_row_claims_its_position(p: PitchRecord, fall: u32, levels: Seq<char>)
    ensures
        p.downstep == Some(fall as i64) ==> (record_claim(p) matches Some(c) && c.dict_id == p.dict_id
            && c.accent.position == PositionV::Downstep(fall)),
        p.downstep is None && opt_str(p.pattern) == Some(levels) ==> (record_claim(p) matches Some(c)
            && c.dict_id == p.dict_id && c.accent.position == PositionV::Pattern(levels)),
        p.downstep is None && p.pattern is None ==> record_claim(p) is None,
        record_claim(p) matches Some(c) ==> {
            &&& json_numbers(p.nasal@) matches Some(n) ==> c.accent.nasal == n
            &&& json_numbers(p.nasal@) is None ==> c.accent.nasal.len() == 0
            &&& json_numbers(p.devoice@) matches Some(n) ==> c.accent.devoice == n
            &&& json_numbers(p.devoice@) is None ==> c.accent.devoice.len() == 0
            &&& json_strings(p.tags@) matches Some(t) ==> c.accent.tags == t
            &&& json_strings(p.tags@) is None ==> c.accent.tags.len() == 0
        },
{
}

/// Every row that claims something is heard, in row order, and nothing is made
/// up.
pub proof fn every_row_is_heard(rows: Seq<PitchRecord>, n: int, c: ClaimV)
    requires
        0 <= n <= rows.len(),
    ensures
        record_claims(rows, n).contains(c) <==> exists|i: int|
            0 <= i < n && record_claim(#[trigger] rows[i]) == Some(c),
    decreases n,
{
    if n > 0 {
        every_row_is_heard(rows, n - 1, c);
        let before = record_claims(rows, n - 1);
        let all = record_claims(rows, n);
        if all.contains(c) {
            let j = choose|j: int| 0 <= j < all.len() && all[j] == c;
            if j < before.len() {
                assert(before[j] == c);
            } else {
                assert(record_claim(rows[n - 1]) == Some(c));
            }
        }
        if exists|i: int| 0 <= i < n && record_claim(#[trigger] rows[i]) == Some(c) {
            let i = choose|i: int| 0 <= i < n && record_claim(#[trigger] rows[i]) == Some(c);
            if i < n - 1 {
                let j = choose|j: int| 0 <= j < before.len() && before[j] == c;
                assert(all[j] == c);
            } else {
                assert(all[before.len() as int] == c);
            }
        }
    }
}

/// An asset is listed with its size exactly where it has one.
pub proof fn every_sized_asset_is_listed(
    paths: Seq<Seq<char>>,
    sizes: Seq<Option<Intrinsic>>,
    n: int,
    path: Seq<char>,
    size: Intrinsic,
)
    requires
        0 <= n <= paths.len(),
        paths.len() == sizes.len(),
    ensures
        sized_upto(paths, sizes, n).contains((path, size)) <==> exists|i: int|
            0 <= i < n && #[trigger] paths[i] == path && sizes[i] == Some(size),
    decreases n,
{
    if n > 0 {
        every_sized_asset_is_listed(paths, sizes, n - 1, path, size);
        let before = sized_upto(paths, sizes, n - 1);
        let all = sized_upto(paths, sizes, n);
        let x = (path, size);
        if all.contains(x) {
            let j = choose|j: int| 0 <= j < all.len() && all[j] == x;
            if j < before.len() {
                assert(before[j] == x);
            } else {
                assert(paths[n - 1] == path);
            }
        }
        if exists|i: int| 0 <= i < n && #[trigger] paths[i] == path && sizes[i] == Some(size) {
            let i = choose|i: int| 0 <= i < n && #[trigger] paths[i] == path && sizes[i] == Some(size);
            if i < n - 1 {
                let j = choose|j: int| 0 <= j < before.len() && before[j] == x;
                assert(all[j] == x);
            } else {
                assert(all[before.len() as int] == x);
            }
        }
    }
}

} // verus!
