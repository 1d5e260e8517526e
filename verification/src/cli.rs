//! What the command line asks for, and what a terminal is told.
use crate::chars::{
    chars_of, decimal, decimal_of, find_char, first_at, join, joined, parse_i32, parsed_i32, push_chars,
    signed, signed_of, string_of, strs, trim, trim_of,
};
use crate::dict::gloss::{plain, plain_items};
use crate::geom::{div_i32, fits, trunc_div, PhysPoint, PhysRect, ScanKind, ScanRect};
use crate::lookup::model::{hits_v, Hit, HitV};
use vstd::prelude::*;
use vstd::slice::slice_subrange;

verus! {

/// What is wrong with a pair of numbers.
#[derive(Debug, Clone, Copy, PartialEq, Eq, Structural)]
pub enum PairError {
    /// There is no comma.
    NoComma,
    /// What stands before the comma is no number.
    First,
    /// What stands after it is no number.
    Second,
}

/// The two numbers that a text gives, parted by the first comma.
pub open spec fn pair_of(s: Seq<char>) -> Result<(int, int), PairError> {
    let k = first_at(s, ',');
    if k >= s.len() {
        Err(PairError::NoComma)
    } else {
        match (parsed_i32(trim(s.take(k))), parsed_i32(trim(s.skip(k + 1)))) {
            (Some(a), Some(b)) => Ok((a, b)),
            (None, _) => Err(PairError::First),
            (Some(_), None) => Err(PairError::Second),
        }
    }
}

/// Reads two numbers, parted by a comma.
pub fn parse_pair(text: &str) -> (r: Result<(i32, i32), PairError>)
    ensures
        pair_of(text@) == (match r {
            Ok((a, b)) => Ok::<(int, int), PairError>((a as int, b as int)),
            Err(e) => Err(e),
        }),
{
    let s = chars_of(text);
    let k = find_char(s.as_slice(), ',');
    if k >= s.len() {
        return Err(PairError::NoComma);
    }
    assert(s@.subrange(0, k as int) =~= s@.take(k as int));
    assert(s@.subrange(k + 1, s@.len() as int) =~= s@.skip(k + 1));
    let a = match parse_i32(trim_of(slice_subrange(s.as_slice(), 0, k))) {
        Some(a) => a,
        None => {
            return Err(PairError::First);
        },
    };
    match parse_i32(trim_of(slice_subrange(s.as_slice(), k + 1, s.len()))) {
        Some(b) => Ok((a, b)),
        None => Err(PairError::Second),
    }
}

/// What a wrong `--at` is answered.
pub open spec fn at_error(e: PairError) -> Seq<char> {
    match e {
        PairError::NoComma => "--at must be X,Y (e.g. --at 1200,400)"@,
        PairError::First => "X in --at is not an integer"@,
        PairError::Second => "Y in --at is not an integer"@,
    }
}

/// What a wrong `--region` is answered.
pub open spec fn region_error(e: PairError) -> Seq<char> {
    match e {
        PairError::NoComma => "--region must be W,H (e.g. --region 900,300)"@,
        PairError::First => "W in --region is not an integer"@,
        PairError::Second => "H in --region is not an integer"@,
    }
}

/// The screen point that `--at` gives.
pub fn parse_at(at: &str) -> (r: Result<PhysPoint, String>)
    ensures
        match pair_of(at@) {
            Ok((x, y)) => r matches Ok(p) && p.x == x && p.y == y,
            Err(e) => r matches Err(m) && m@ == at_error(e),
        },
{
    match parse_pair(at) {
        Ok((x, y)) => Ok(PhysPoint { x, y }),
        Err(PairError::NoComma) => Err("--at must be X,Y (e.g. --at 1200,400)".to_owned()),
        Err(PairError::First) => Err("X in --at is not an integer".to_owned()),
        Err(PairError::Second) => Err("Y in --at is not an integer".to_owned()),
    }
}

/// The size that `--region` gives.
pub fn parse_region(spec: &str) -> (r: Result<(i32, i32), String>)
    ensures
        match pair_of(spec@) {
            Ok((w, h)) => r matches Ok(size) && size.0 == w && size.1 == h,
            Err(e) => r matches Err(m) && m@ == region_error(e),
        },
{
    match parse_pair(spec) {
        Ok((w, h)) => Ok((w, h)),
        Err(PairError::NoComma) => Err("--region must be W,H (e.g. --region 900,300)".to_owned()),
        Err(PairError::First) => Err("W in --region is not an integer".to_owned()),
        Err(PairError::Second) => Err("H in --region is not an integer".to_owned()),
    }
}

/// Can a box of a size stand around a point?
pub open spec fn centrable(cursor: PhysPoint, w: i32, h: i32) -> bool {
    fits(cursor.x - trunc_div(w as int, 2)) && fits(cursor.y - trunc_div(h as int, 2))
}

/// A box of a size, centred on a point.
pub fn centred(cursor: PhysPoint, w: i32, h: i32) -> (r: PhysRect)
    requires
        centrable(cursor, w, h),
    ensures
        r.x == cursor.x - trunc_div(w as int, 2),
        r.y == cursor.y - trunc_div(h as int, 2),
        r.w == w,
        r.h == h,
{
    PhysRect { x: cursor.x - div_i32(w, 2), y: cursor.y - div_i32(h, 2), w, h }
}

/// A box of a size, centred on a point, or nothing where it would leave what
/// coordinates can hold.
pub fn region_about(cursor: PhysPoint, w: i32, h: i32) -> (r: Option<PhysRect>)
    ensures
        r is Some <==> centrable(cursor, w, h),
        r matches Some(b) ==> b.x == cursor.x - trunc_div(w as int, 2) && b.y == cursor.y
            - trunc_div(h as int, 2) && b.w == w && b.h == h,
{
    let x: i64 = cursor.x as i64 - div_i32(w, 2) as i64;
    let y: i64 = cursor.y as i64 - div_i32(h, 2) as i64;
    let low: i64 = i32::MIN as i64;
    let high: i64 = i32::MAX as i64;
    if low <= x && x <= high && low <= y && y <= high {
        Some(centred(cursor, w, h))
    } else {
        None
    }
}

/// Why a probe found no text: the recogniser saw nothing, or nothing close
/// enough to the pointer.
pub fn unresolved(no_lines: bool) -> (r: String)
    ensures
        r@ == (if no_lines {
            "no text resolved at that point: OCR recognised no lines in the region"@
        } else {
            "no text resolved at that point: OCR recognised text, but hit-scan found none of it close enough to the cursor"@
        }),
{
    if no_lines {
        "no text resolved at that point: OCR recognised no lines in the region".to_owned()
    } else {
        "no text resolved at that point: OCR recognised text, but hit-scan found none of it close enough to the cursor".to_owned()
    }
}

/// What a probe draws: the captures, or else the region and the anchor, and
/// last the match, over the captures.
pub open spec fn scan_of(
    tiled: Option<Seq<ScanRect>>,
    region: PhysRect,
    anchor: Option<PhysRect>,
    highlight: Option<PhysRect>,
) -> Seq<ScanRect> {
    let captures = match tiled {
        Some(t) => t,
        None => match anchor {
            Some(rect) => seq![
                ScanRect { rect: region, kind: ScanKind::Pass1 },
                ScanRect { rect, kind: ScanKind::Anchor },
            ],
            None => seq![ScanRect { rect: region, kind: ScanKind::Pass1 }],
        },
    };
    match highlight {
        Some(rect) => captures.push(ScanRect { rect, kind: ScanKind::Match }),
        None => captures,
    }
}

/// What a probe draws.
pub fn scan_rects(
    tiled: Option<Vec<ScanRect>>,
    region: PhysRect,
    anchor: Option<PhysRect>,
    highlight: Option<PhysRect>,
) -> (r: Vec<ScanRect>)
    ensures
        r@ == scan_of(
            match tiled {
                Some(t) => Some(t@),
                None => None,
            },
            region,
            anchor,
            highlight,
        ),
{
    let mut scan: Vec<ScanRect> = match tiled {
        Some(t) => t,
        None => {
            let mut v: Vec<ScanRect> = Vec::new();
            v.push(ScanRect { rect: region, kind: ScanKind::Pass1 });
            if let Some(rect) = anchor {
                v.push(ScanRect { rect, kind: ScanKind::Anchor });
            }
            v
        },
    };
    if let Some(rect) = highlight {
        scan.push(ScanRect { rect, kind: ScanKind::Match });
    }
    assert(scan@ =~= scan_of(
        match tiled {
            Some(t) => Some(t@),
            None => None,
        },
        region,
        anchor,
        highlight,
    ));
    scan
}

/// What a watch has seen.
#[derive(Debug, Clone, Copy, PartialEq, Eq)]
pub struct Watch {
    pub last_pos: Option<PhysPoint>,
    /// Where the last word stood, and the character under the pointer.
    pub last_key: Option<(i32, i32, Option<char>)>,
}

/// Did the pointer stay where it was?
pub open spec fn rests(last: Option<PhysPoint>, p: PhysPoint) -> bool {
    last matches Some(l) && -4 <= p.x - l.x <= 4 && -4 <= p.y - l.y <= 4
}

impl Watch {
    pub fn new() -> (r: Self)
        ensures
            r.last_pos is None,
            r.last_key is None,
    {
        Watch { last_pos: None, last_key: None }
    }

    /// Did the pointer move? The work is skipped unless it did.
    pub fn moved(&mut self, cursor: PhysPoint) -> (r: bool)
        ensures
            r == !rests(old(self).last_pos, cursor),
            *final(self) == (if r {
                Watch { last_pos: Some(cursor), ..*old(self) }
            } else {
                *old(self)
            }),
    {
        if let Some(prev) = self.last_pos {
            let dx: i64 = cursor.x as i64 - prev.x as i64;
            let dy: i64 = cursor.y as i64 - prev.y as i64;
            if -4 <= dx && dx <= 4 && -4 <= dy && dy <= 4 {
                return false;
            }
        }
        self.last_pos = Some(cursor);
        true
    }

    /// Is another word under the pointer? The line itself is not compared: it
    /// gains and loses characters as the region slides.
    pub fn changed(&mut self, anchor: PhysRect, under: Option<char>) -> (r: bool)
        ensures
            r == (old(self).last_key != Some((anchor.x, anchor.y, under))),
            *final(self) == (Watch {
                last_key: Some((anchor.x, anchor.y, under)),
                ..*old(self)
            }),
    {
        let same = match self.last_key {
            Some((x, y, c)) => x == anchor.x && y == anchor.y && c == under,
            None => false,
        };
        if same {
            return false;
        }
        self.last_key = Some((anchor.x, anchor.y, under));
        true
    }
}

/// The first line of a hit: its place, headword, reading, frequency, how much
/// it matches and its score.
pub open spec fn hit_head(place: nat, h: HitV, score: Seq<char>) -> Seq<char> {
    let head = match h.written {
        Some(w) => w,
        None => match h.reading {
            Some(r) => r,
            None => seq![],
        },
    };
    let reading = match h.reading {
        Some(r) => r,
        None => seq![],
    };
    let freq = match h.freq {
        Some(f) => signed(f as int),
        None => "-"@,
    };
    decimal(place) + ". "@ + head + " ["@ + reading + "]  freq="@ + freq + "  match="@ + decimal(
        h.match_len as nat,
    ) + "  score="@ + score
}

/// The lines of a hit.
pub open spec fn hit_lines(place: nat, h: HitV, score: Seq<char>) -> Seq<Seq<char>> {
    let head = seq![hit_head(place, h, score)];
    let via = if h.process.len() > 0 {
        seq!["     via: "@ + joined(h.process, " -> "@)]
    } else {
        seq![]
    };
    (head + via).push("     "@ + joined(plain(h.entry.gloss), "; "@))
}

/// The lines of the first `n` hits.
pub open spec fn printed(hits: Seq<HitV>, scores: Seq<Seq<char>>, n: int) -> Seq<Seq<char>>
    decreases n,
{
    if n <= 0 {
        seq![]
    } else {
        printed(hits, scores, n - 1) + hit_lines(n as nat, hits[n - 1], scores[n - 1])
    }
}

fn opt_chars(s: &Option<String>) -> (r: Vec<char>)
    ensures
        r@ == (match crate::chars::opt_str(*s) {
            Some(t) => t,
            None => seq![],
        }),
{
    match s {
        Some(t) => chars_of(t.as_str()),
        None => {
            let none: Vec<char> = Vec::new();
            assert(none@ =~= seq![]);
            none
        },
    }
}

fn head_of(place: u64, h: &Hit, score: &str) -> (r: Vec<char>)
    ensures
        r@ == hit_head(place as nat, h.v(), score@),
{
    let mut out = decimal_of(place);
    push_chars(&mut out, chars_of(". ").as_slice());
    match &h.written {
        Some(w) => {
            push_chars(&mut out, chars_of(w.as_str()).as_slice());
        },
        None => {
            push_chars(&mut out, opt_chars(&h.reading).as_slice());
        },
    }
    push_chars(&mut out, chars_of(" [").as_slice());
    push_chars(&mut out, opt_chars(&h.reading).as_slice());
    push_chars(&mut out, chars_of("]  freq=").as_slice());
    match h.freq {
        Some(f) => {
            push_chars(&mut out, signed_of(f).as_slice());
        },
        None => {
            push_chars(&mut out, chars_of("-").as_slice());
        },
    }
    push_chars(&mut out, chars_of("  match=").as_slice());
    push_chars(&mut out, decimal_of(h.match_len as u64).as_slice());
    push_chars(&mut out, chars_of("  score=").as_slice());
    push_chars(&mut out, chars_of(score).as_slice());
    out
}

fn push_text(out: &mut Vec<String>, line: &[char])
    ensures
        strs(final(out)@) == strs(old(out)@).push(line@),
{
    out.push(string_of(line));
    assert(strs(out@) =~= strs(old(out)@).push(line@));
}

/// What a terminal shows of some hits, whose scores are already written out.
pub fn print_hits(hits: &[Hit], scores: &Vec<String>) -> (r: Vec<String>)
    requires
        hits@.len() == scores@.len(),
    ensures
        strs(r@) == (if hits@.len() == 0 {
            seq!["no results"@]
        } else {
            printed(hits_v(hits@), strs(scores@), hits@.len() as int)
        }),
{
    let mut out: Vec<String> = Vec::new();
    assert(strs(out@) =~= seq![]);
    if hits.len() == 0 {
        push_text(&mut out, chars_of("no results").as_slice());
        assert(strs(out@) =~= seq!["no results"@]);
        return out;
    }
    let ghost hs = hits_v(hits@);
    let ghost ss = strs(scores@);
    let mut i: usize = 0;
    while i < hits.len()
        invariant
            i <= hits@.len(),
            hits@.len() == scores@.len(),
            hs == hits_v(hits@),
            ss == strs(scores@),
            strs(out@) == printed(hs, ss, i as int),
        decreases hits@.len() - i,
    {
        let h = &hits[i];
        let ghost base = strs(out@);
        assert(hs[i as int] == h.v());
        assert(ss[i as int] == scores@[i as int]@);
        let head = head_of(i as u64 + 1, h, scores[i].as_str());
        push_text(&mut out, head.as_slice());
        let ghost l1 = seq![hit_head((i + 1) as nat, h.v(), scores@[i as int]@)];
        assert(strs(out@) =~= base + l1);
        let ghost l2 = if h.v().process.len() > 0 {
            seq!["     via: "@ + joined(h.v().process, " -> "@)]
        } else {
            seq![]
        };
        assert(strs(h.process@).len() == h.process@.len());
        if h.process.len() > 0 {
            let mut via = chars_of("     via: ");
            push_chars(&mut via, chars_of(join(h.process.as_slice(), " -> ").as_str()).as_slice());
            push_text(&mut out, via.as_slice());
        }
        assert(strs(out@) =~= base + (l1 + l2));
        let glosses = plain_items(&h.entry.gloss);
        let mut line = chars_of("     ");
        push_chars(&mut line, chars_of(join(glosses.as_slice(), "; ").as_str()).as_slice());
        push_text(&mut out, line.as_slice());
        assert(strs(out@) =~= base + (l1 + l2).push("     "@ + joined(plain(h.v().entry.gloss), "; "@)));
        i += 1;
    }
    out
}

/// Two numbers with a comma between them are read as they were written,
/// whatever their signs, and a text without a comma is no pair.
pub proof fn a_pair_is_parted_by_a_comma(s: Seq<char>, a: int, b: int)
    requires
        i32::MIN <= a <= i32::MAX,
        i32::MIN <= b <= i32::MAX,
    ensures
        pair_of(signed(a) + seq![','] + signed(b)) == Ok::<(int, int), PairError>((a, b)),
        pair_of(s) == Err::<(int, int), PairError>(PairError::NoComma) <==> !s.contains(','),
{
    crate::chars::a_signed_number_reads_back(a);
    crate::chars::a_signed_number_reads_back(b);
    crate::chars::first_at_is_least(s, ',');
    let x = signed(a);
    let y = signed(b);
    let t = x + seq![','] + y;
    let n = x.len() as int;
    crate::chars::first_at_is_least(t, ',');
    assert(t[n] == ',');
    assert forall|j: int| 0 <= j < n implies t[j] != ',' by {
        assert(t[j] == x[j]);
        assert(crate::chars::ascii_digit(x[j]) || x[j] == '-');
    }
    assert(first_at(t, ',') == n);
    assert(t.take(n) =~= x);
    assert(t.skip(n + 1) =~= y);
    assert(crate::chars::ascii_digit(x[0]) || x[0] == '-');
    assert(crate::chars::ascii_digit(x[x.len() - 1]) || x[x.len() - 1] == '-');
    assert(crate::chars::ascii_digit(y[0]) || y[0] == '-');
    assert(crate::chars::ascii_digit(y[y.len() - 1]) || y[y.len() - 1] == '-');
    assert(trim(x) == x);
    assert(trim(y) == y);
}

/// A watch rests exactly where the hooks would not count a move.
pub proof fn a_watch_rests_where_no_move_counts(last: PhysPoint, p: PhysPoint)
    ensures
        rests(Some(last), p) <==> !crate::input::hooks::gate_opens(Some(last), p),
        !rests(None, p),
        rests(Some(p), p),
        rests(Some(last), p) == rests(Some(p), last),
{
}

/// What is drawn of the match stands last, over what was captured; without a
/// tiled capture the region comes first and the anchor behind it.
pub proof fn the_match_is_drawn_last(
    tiled: Seq<ScanRect>,
    region: PhysRect,
    anchor: PhysRect,
    rect: PhysRect,
)
    ensures
        scan_of(Some(tiled), region, Some(anchor), Some(rect)).last() == (ScanRect {
            rect,
            kind: ScanKind::Match,
        }),
        scan_of(Some(tiled), region, Some(anchor), Some(rect)).drop_last() == tiled,
        scan_of(Some(tiled), region, None, None) == tiled,
        scan_of(None, region, Some(anchor), Some(rect)).len() == 3,
        scan_of(None, region, Some(anchor), Some(rect))[0] == (ScanRect {
            rect: region,
            kind: ScanKind::Pass1,
        }),
        scan_of(None, region, Some(anchor), Some(rect))[1] == (ScanRect {
            rect: anchor,
            kind: ScanKind::Anchor,
        }),
        scan_of(None, region, Some(anchor), Some(rect))[2] == (ScanRect {
            rect,
            kind: ScanKind::Match,
        }),
        scan_of(None, region, None, None).len() == 1,
{
    assert(scan_of(Some(tiled), region, Some(anchor), Some(rect)).drop_last() =~= tiled);
}

/// Hits are printed in order and numbered from one, each under its headword and
/// its reading.
pub proof fn hits_are_numbered_from_one(
    hits: Seq<HitV>,
    scores: Seq<Seq<char>>,
    n: int,
    i: int,
    word: Seq<char>,
    reading: Seq<char>,
)
    requires
        0 <= i < n <= hits.len(),
        hits.len() == scores.len(),
        hits[i].written == Some(word),
        hits[i].reading == Some(reading),
    ensures
        ({
            let at = printed(hits, scores, i).len() as int;
            let start = decimal((i + 1) as nat) + ". "@ + word + " ["@ + reading + "]"@;
            &&& at < printed(hits, scores, n).len()
            &&& begins_as(printed(hits, scores, n)[at], start)
        }),
    decreases n,
{
    let before = printed(hits, scores, n - 1);
    if i < n - 1 {
        hits_are_numbered_from_one(hits, scores, n - 1, i, word, reading);
    } else {
        let line = hit_head(n as nat, hits[i], scores[i]);
        let start = decimal((i + 1) as nat) + ". "@ + word + " ["@ + reading + "]"@;
        let h = hits[i];
        let freq = match h.freq {
            Some(f) => signed(f as int),
            None => "-"@,
        };
        reveal_strlit("]  freq=");
        reveal_strlit("]");
        assert("]  freq="@ =~= "]"@ + "]  freq="@.skip(1));
        let rest = "]  freq="@.skip(1) + freq + "  match="@ + decimal(h.match_len as nat)
            + "  score="@ + scores[i];
        assert(line =~= start + rest);
        assert(line.take(start.len() as int) =~= start);
    }
}

/// Does a text start so?
pub open spec fn begins_as(s: Seq<char>, start: Seq<char>) -> bool {
    start.len() <= s.len() && s.take(start.len() as int) == start
}

/// A hit that was found by undoing inflections tells them in their order, on a
/// line of its own above its glosses; a plain one has no such line.
pub proof fn a_hit_tells_how_it_was_found(place: nat, h: HitV, score: Seq<char>)
    ensures
        hit_lines(place, h, score)[0] == hit_head(place, h, score),
        hit_lines(place, h, score).last() == "     "@ + joined(plain(h.entry.gloss), "; "@),
        h.process.len() == 0 ==> hit_lines(place, h, score).len() == 2,
        h.process.len() > 0 ==> hit_lines(place, h, score).len() == 3 && hit_lines(place, h, score)[1]
            == "     via: "@ + joined(h.process, " -> "@),
{
}

} // verus!
