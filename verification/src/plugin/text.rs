//! Plugin text becomes a span.
use crate::chars::chars_of;
use crate::geom::{div_i32, fits, max, trunc_div, PhysPoint, PhysRect};
use crate::text::{at_byte, byte_len, byte_len_adds, byte_len_front, byte_len_of_part, byte_length, width_of, TextGeom, TextSpan};
use vstd::prelude::*;

verus! {

/// A box in a captured image.
#[derive(Debug, Clone, Copy, PartialEq, Eq, Structural)]
pub struct Rect {
    pub x: i32,
    pub y: i32,
    pub w: i32,
    pub h: i32,
}

/// A word that a plugin read, and where it stands in the image.
#[derive(Debug, PartialEq, Eq)]
pub struct Word {
    pub text: String,
    pub rect: Rect,
}

/// A line that a plugin read. Not every plugin tells where the words stand.
#[derive(Debug, PartialEq, Eq)]
pub struct Line {
    pub text: String,
    pub words: Option<Vec<Word>>,
}

/// What a plugin read in an image.
#[derive(Debug, PartialEq, Eq)]
pub struct RecogniseResult {
    pub lines: Vec<Line>,
}

/// A number brought into a range.
pub open spec fn clamped(n: int, lo: int, hi: int) -> int {
    if n < lo {
        lo
    } else if n > hi {
        hi
    } else {
        n
    }
}

/// Which character of a line of `n` stands under a pointer, if all are equally
/// wide.
pub open spec fn estimated(n: int, cursor_x: int, region: PhysRect) -> int {
    clamped(cursor_x - region.x, 0, region.w - 1) * n / (region.w as int)
}

/// The byte of a line at which that character starts. A line without
/// characters or a region without width has only its start.
pub open spec fn estimated_byte(line: Seq<char>, cursor_x: int, region: PhysRect) -> nat {
    if line.len() == 0 || region.w <= 0 {
        0
    } else {
        byte_len(line.take(estimated(line.len() as int, cursor_x, region)))
    }
}

proof fn estimate_bounds(n: int, cursor_x: int, region: PhysRect)
    requires
        n > 0,
        region.w > 0,
    ensures
        0 <= estimated(n, cursor_x, region) < n,
{
    let dx = clamped(cursor_x - region.x, 0, region.w - 1);
    let w = region.w as int;
    assert(0 <= dx * n / w < n) by (nonlinear_arith)
        requires
            0 <= dx <= w - 1,
            w > 0,
            n > 0,
    ;
}

/// The byte of a line under a pointer, if all its characters are equally wide.
pub fn estimate_offset(line: &str, cursor_x: i32, region: PhysRect) -> (r: usize)
    ensures
        r == estimated_byte(line@, cursor_x as int, region),
{
    let chars = chars_of(line);
    if chars.len() == 0 || region.w <= 0 {
        return 0;
    }
    let d: i64 = cursor_x as i64 - region.x as i64;
    let dx: i64 = if d < 0 {
        0
    } else if d > region.w as i64 - 1 {
        region.w as i64 - 1
    } else {
        d
    };
    let n: usize = chars.len();
    assert(dx * n <= 0x7fff_ffff * 0xffff_ffff_ffff_ffff) by (nonlinear_arith)
        requires
            0 <= dx <= 0x7fff_ffff,
            0 <= n <= 0xffff_ffff_ffff_ffff,
    ;
    assert(dx * n >= 0) by (nonlinear_arith)
        requires
            0 <= dx,
            0 <= n,
    ;
    proof {
        estimate_bounds(line@.len() as int, cursor_x as int, region);
    }
    let idx: usize = ((dx as u128 * n as u128) / (region.w as u128)) as usize;
    assert(idx == estimated(line@.len() as int, cursor_x as int, region));
    let len = byte_length(line);
    let mut off: usize = 0;
    let mut i: usize = 0;
    assert(chars@.take(0) =~= seq![]);
    while i < idx
        invariant
            i <= idx < chars@.len(),
            chars@ == line@,
            len == byte_len(line@),
            off == byte_len(chars@.take(i as int)),
        decreases idx - i,
    {
        proof {
            byte_len_of_part(chars@, i + 1);
            assert(chars@.take(i + 1).drop_last() =~= chars@.take(i as int));
            assert(chars@.take(i + 1).last() == chars@[i as int]);
        }
        off += width_of(chars[i]);
        i += 1;
    }
    off
}

proof fn part_is_found(s: Seq<char>, j: int, k: int)
    requires
        0 <= j <= k <= s.len(),
    ensures
        at_byte(s, j, byte_len(s.subrange(j, k)) as int) == Some(k),
    decreases k - j,
{
    let part = s.subrange(j, k);
    if j < k {
        byte_len_front(part);
        assert(part.drop_first() =~= s.subrange(j + 1, k));
        part_is_found(s, j + 1, k);
    } else {
        assert(part =~= seq![]);
    }
}

/// The estimate always lands on a character of the line.
pub proof fn the_estimate_is_a_char_boundary(line: Seq<char>, cursor_x: int, region: PhysRect)
    requires
        line.len() > 0,
        region.w > 0,
    ensures
        ({
            let k = estimated(line.len() as int, cursor_x, region);
            0 <= k < line.len() && at_byte(line, 0, byte_len(line.take(k)) as int) == Some(k)
        }),
{
    let k = estimated(line.len() as int, cursor_x, region);
    estimate_bounds(line.len() as int, cursor_x, region);
    assert(line.take(k) =~= line.subrange(0, k));
    part_is_found(line, 0, k);
}

/// The estimate lies inside the line.
pub proof fn the_estimate_lies_in_the_line(line: Seq<char>, cursor_x: int, region: PhysRect)
    requires
        line.len() > 0,
    ensures
        estimated_byte(line, cursor_x, region) < byte_len(line),
{
    let k = if region.w > 0 {
        estimate_bounds(line.len() as int, cursor_x, region);
        estimated(line.len() as int, cursor_x, region)
    } else {
        0
    };
    byte_len_of_part(line, k);
    byte_len_front(line.skip(k));
    assert(line.take(0) =~= seq![]);
}

/// A pointer on the left edge or left of it is at the start of the line.
pub proof fn the_left_edge_is_the_start(line: Seq<char>, cursor_x: int, region: PhysRect)
    requires
        cursor_x <= region.x,
    ensures
        estimated_byte(line, cursor_x, region) == 0,
{
    if line.len() > 0 && region.w > 0 {
        let n = line.len() as int;
        let w = region.w as int;
        assert(0 * n / w == 0) by (nonlinear_arith)
            requires
                w > 0,
        ;
        assert(line.take(0) =~= seq![]);
    }
}

/// A pointer on the right edge or right of it is at the last character, as
/// long as no character is narrower than a pixel.
pub proof fn the_right_edge_is_the_last_character(line: Seq<char>, cursor_x: int, region: PhysRect)
    requires
        0 < line.len() <= region.w,
        cursor_x >= region.x + region.w - 1,
    ensures
        estimated(line.len() as int, cursor_x, region) == line.len() - 1,
        estimated_byte(line, cursor_x, region) == byte_len(line.drop_last()),
{
    let n = line.len() as int;
    let w = region.w as int;
    assert((w - 1) * n / w == n - 1) by (nonlinear_arith)
        requires
            0 < n <= w,
    {
        assert((w - 1) * n == w * (n - 1) + (w - n));
    }
    assert(line.take(n - 1) =~= line.drop_last());
}

/// A pointer further right never gives an earlier byte.
pub proof fn the_estimate_never_goes_back(line: Seq<char>, a: int, b: int, region: PhysRect)
    requires
        a <= b,
    ensures
        estimated_byte(line, a, region) <= estimated_byte(line, b, region),
{
    if line.len() > 0 && region.w > 0 {
        let n = line.len() as int;
        let w = region.w as int;
        let da = clamped(a - region.x, 0, w - 1);
        let db = clamped(b - region.x, 0, w - 1);
        assert(da * n / w <= db * n / w) by (nonlinear_arith)
            requires
                0 <= da <= db,
                w > 0,
                n > 0,
        {
            assert(da * n <= db * n);
        }
        estimate_bounds(n, a, region);
        estimate_bounds(n, b, region);
        let ka = estimated(n, a, region);
        let kb = estimated(n, b, region);
        byte_len_of_part(line.take(kb), ka);
        assert(line.take(kb).take(ka) =~= line.take(ka));
    }
}

/// A scale that divides.
pub open spec fn divisor(scale: i32) -> int {
    max(scale as int, 1)
}

/// Can a box be placed on the screen?
pub open spec fn mappable(r: Rect, region: PhysRect, scale: i32) -> bool {
    fits(region.x + trunc_div(r.x as int, divisor(scale))) && fits(
        region.y + trunc_div(r.y as int, divisor(scale)),
    )
}

/// Where a box of an image of a region stands on the screen. The image is
/// `scale` times as large as the region.
pub open spec fn mapped(r: Rect, region: PhysRect, scale: i32) -> PhysRect {
    PhysRect {
        x: (region.x + trunc_div(r.x as int, divisor(scale))) as i32,
        y: (region.y + trunc_div(r.y as int, divisor(scale))) as i32,
        w: max(trunc_div(r.w as int, divisor(scale)), 1) as i32,
        h: max(trunc_div(r.h as int, divisor(scale)), 1) as i32,
    }
}

fn to_screen(r: Rect, region: PhysRect, scale: i32) -> (out: PhysRect)
    requires
        mappable(r, region, scale),
    ensures
        out == mapped(r, region, scale),
{
    let s: i32 = if scale > 1 {
        scale
    } else {
        1
    };
    let w = div_i32(r.w, s);
    let h = div_i32(r.h, s);
    PhysRect {
        x: region.x + div_i32(r.x, s),
        y: region.y + div_i32(r.y, s),
        w: if w > 1 {
            w
        } else {
            1
        },
        h: if h > 1 {
            h
        } else {
            1
        },
    }
}

/// The boxes of some words on the screen.
pub open spec fn word_boxes(words: Seq<Word>, region: PhysRect, scale: i32) -> Seq<TextGeom> {
    words.map_values(
        |w: Word|
            TextGeom {
                char_count: w.text@.len() as usize,
                rect: mapped(w.rect, region, scale),
            },
    )
}

/// Does a box stand above or below a point, or around it?
pub open spec fn in_column(r: PhysRect, x: int) -> bool {
    r.x <= x < r.x + r.w
}

/// The first word from word `k` on whose box stands in a point's column, or
/// their number.
pub open spec fn word_under(boxes: Seq<TextGeom>, x: int, k: int) -> int
    decreases boxes.len() - k,
{
    if k >= boxes.len() || in_column(boxes[k].rect, x) {
        k
    } else {
        word_under(boxes, x, k + 1)
    }
}

/// How many bytes the first `n` words hold.
pub open spec fn word_bytes(words: Seq<Word>, n: int) -> nat
    decreases n,
{
    if n <= 0 {
        0
    } else {
        word_bytes(words, n - 1) + byte_len(words[n - 1].text@)
    }
}

/// Is a span that of a line?
pub open spec fn span_of_line(
    line: Line,
    cursor: PhysPoint,
    region: PhysRect,
    scale: i32,
    span: TextSpan,
) -> bool {
    &&& span.text@ == line.text@
    &&& match line.words {
        None => {
            &&& span.cursor_byte_offset == estimated_byte(line.text@, cursor.x as int, region)
            &&& span.anchor == region
            &&& span.geom@ == Seq::<TextGeom>::empty()
        },
        Some(words) => {
            let boxes = word_boxes(words@, region, scale);
            let k = word_under(boxes, cursor.x as int, 0);
            &&& span.geom@ == boxes
            &&& span.anchor == (if k < boxes.len() {
                boxes[k].rect
            } else {
                region
            })
            &&& span.cursor_byte_offset == crate::geom::min(
                word_bytes(words@, k) as int,
                byte_len(line.text@) as int,
            )
        },
    }
}

/// The texts of the first `n` words, one behind another.
pub open spec fn run_on(words: Seq<Word>, n: int) -> Seq<char>
    decreases n,
{
    if n <= 0 {
        seq![]
    } else {
        run_on(words, n - 1) + words[n - 1].text@
    }
}

proof fn word_bytes_run_on(words: Seq<Word>, n: int)
    ensures
        word_bytes(words, n) == byte_len(run_on(words, n)),
    decreases n,
{
    if n > 0 {
        word_bytes_run_on(words, n - 1);
        byte_len_adds(run_on(words, n - 1), words[n - 1].text@);
    }
}

proof fn run_on_starts(words: Seq<Word>, k: int, n: int)
    requires
        0 <= k <= n,
    ensures
        run_on(words, k).len() <= run_on(words, n).len(),
        run_on(words, n).take(run_on(words, k).len() as int) == run_on(words, k),
    decreases n - k,
{
    let a = run_on(words, k);
    if k == n {
        assert(a.take(a.len() as int) =~= a);
    } else {
        run_on_starts(words, k, n - 1);
        let b = run_on(words, n - 1);
        assert(run_on(words, n).take(a.len() as int) =~= b.take(a.len() as int));
    }
}

proof fn word_under_is_first(boxes: Seq<TextGeom>, x: int, k: int)
    requires
        0 <= k <= boxes.len(),
    ensures
        k <= word_under(boxes, x, k) <= boxes.len(),
        forall|j: int|
            k <= j < word_under(boxes, x, k) ==> !((#[trigger] boxes[j]).rect.x <= x
                && x < boxes[j].rect.x + boxes[j].rect.w),
        word_under(boxes, x, k) < boxes.len() ==> {
            let r = boxes[word_under(boxes, x, k)].rect;
            r.x <= x && x < r.x + r.w
        },
    decreases boxes.len() - k,
{
    if k < boxes.len() && !in_column(boxes[k].rect, x) {
        word_under_is_first(boxes, x, k + 1);
    }
}

/// Where the words of a line are its text, one behind another, a span starts at
/// the word under the pointer: its offset is the byte behind the words before,
/// and the text from there on starts with that word.
pub proof fn the_lookup_starts_at_the_word_under_the_pointer(
    line: Line,
    words: Vec<Word>,
    cursor: PhysPoint,
    region: PhysRect,
    scale: i32,
    span: TextSpan,
    k: int,
)
    requires
        line.words == Some(words),
        line.text@ == run_on(words@, words@.len() as int),
        span_of_line(line, cursor, region, scale, span),
        0 <= k < words@.len(),
        span.geom@[k].rect.x <= cursor.x,
        cursor.x < span.geom@[k].rect.x + span.geom@[k].rect.w,
        forall|j: int|
            0 <= j < k ==> !((#[trigger] span.geom@[j]).rect.x <= cursor.x && cursor.x
                < span.geom@[j].rect.x + span.geom@[j].rect.w),
    ensures
        ({
            let before = run_on(words@, k);
            let n = before.len() as int;
            let w = words@[k].text@;
            &&& span.cursor_byte_offset == byte_len(before)
            &&& at_byte(span.text@, 0, span.cursor_byte_offset as int) == Some(n)
            &&& n + w.len() <= span.text@.len()
            &&& span.text@.take(n) == before
            &&& span.text@.subrange(n, n + w.len()) == w
            &&& span.anchor == span.geom@[k].rect
        }),
{
    let all = words@.len() as int;
    let t = line.text@;
    word_under_is_first(span.geom@, cursor.x as int, 0);
    assert(word_under(span.geom@, cursor.x as int, 0) == k);
    word_bytes_run_on(words@, k);
    run_on_starts(words@, k, all);
    run_on_starts(words@, k + 1, all);
    let before = run_on(words@, k);
    let n = before.len() as int;
    let w = words@[k].text@;
    byte_len_of_part(t, n);
    part_is_found(t, 0, n);
    assert(t.subrange(0, n) =~= t.take(n));
    assert(t.subrange(n, n + w.len()) =~= w) by {
        let upto = t.take(n + w.len());
        assert(upto == before + w);
        assert forall|j: int| 0 <= j < w.len() implies t.subrange(n, n + w.len())[j] == w[j] by {
            assert(upto[n + j] == (before + w)[n + j]);
        }
    }
}

/// The boxes of a span stand where the words stand: each word has one, of as
/// many characters, shifted by the region and shrunk by the scale.
pub proof fn boxes_stand_on_their_words(
    line: Line,
    words: Vec<Word>,
    cursor: PhysPoint,
    region: PhysRect,
    scale: i32,
    span: TextSpan,
    k: int,
)
    requires
        line.words == Some(words),
        span_of_line(line, cursor, region, scale, span),
        0 <= k < words@.len(),
        mappable(words@[k].rect, region, scale),
    ensures
        span.geom@.len() == words@.len(),
        words@[k].text@.len() <= usize::MAX ==> span.geom@[k].char_count == words@[k].text@.len(),
        span.geom@[k].rect.w >= 1,
        span.geom@[k].rect.h >= 1,
        scale <= 1 && words@[k].rect.w >= 1 && words@[k].rect.h >= 1 ==> {
            let b = span.geom@[k].rect;
            let r = words@[k].rect;
            b.x == region.x + r.x && b.y == region.y + r.y && b.w == r.w && b.h == r.h
        },
        scale > 1 && words@[k].rect.x >= 0 && words@[k].rect.y >= 0 ==> {
            let b = span.geom@[k].rect;
            let r = words@[k].rect;
            &&& (b.x - region.x) * scale <= r.x < (b.x - region.x + 1) * scale
            &&& (b.y - region.y) * scale <= r.y < (b.y - region.y + 1) * scale
        },
{
    let r = words@[k].rect;
    let d = divisor(scale);
    assert(span.geom@[k] == word_boxes(words@, region, scale)[k]);
    if scale <= 1 {
        assert(r.x as int / 1 == r.x) by (nonlinear_arith);
    } else if r.x >= 0 && r.y >= 0 {
        let x = r.x as int;
        let y = r.y as int;
        assert((x / d) * d <= x < (x / d + 1) * d) by (nonlinear_arith)
            requires
                d > 1,
                x >= 0,
        ;
        assert((y / d) * d <= y < (y / d + 1) * d) by (nonlinear_arith)
            requires
                d > 1,
                y >= 0,
        ;
    }
}

/// The span of the first line that a plugin read, or nothing where it read
/// none, or one without text.
pub fn span_from_lines(
    r: &RecogniseResult,
    cursor: PhysPoint,
    region: PhysRect,
    scale: i32,
) -> (out: Option<TextSpan>)
    requires
        r.lines@.len() > 0 ==> (r.lines@[0].words matches Some(words) ==> forall|i: int|
            0 <= i < words@.len() ==> mappable((#[trigger] words@[i]).rect, region, scale)),
    ensures
        out is Some <==> r.lines@.len() > 0 && r.lines@[0].text@.len() > 0,
        out matches Some(span) ==> span_of_line(r.lines@[0], cursor, region, scale, span),
{
    if r.lines.len() == 0 {
        return None;
    }
    let line = &r.lines[0];
    if line.text.as_str().is_empty() {
        return None;
    }
    let words = match &line.words {
        None => {
            let off = estimate_offset(line.text.as_str(), cursor.x, region);
            let geom: Vec<TextGeom> = Vec::new();
            assert(geom@ =~= Seq::<TextGeom>::empty());
            return Some(
                TextSpan { text: line.text.clone(), cursor_byte_offset: off, anchor: region, geom },
            );
        },
        Some(words) => words,
    };
    let ghost boxes = word_boxes(words@, region, scale);
    let mut geom: Vec<TextGeom> = Vec::new();
    let mut i: usize = 0;
    while i < words.len()
        invariant
            i <= words@.len(),
            boxes == word_boxes(words@, region, scale),
            forall|j: int|
                0 <= j < words@.len() ==> mappable((#[trigger] words@[j]).rect, region, scale),
            geom@ == boxes.take(i as int),
        decreases words@.len() - i,
    {
        let w = &words[i];
        assert(mappable(words@[i as int].rect, region, scale));
        let g = TextGeom {
            char_count: chars_of(w.text.as_str()).len(),
            rect: to_screen(w.rect, region, scale),
        };
        assert(g == boxes[i as int]);
        geom.push(g);
        assert(boxes.take(i + 1) =~= boxes.take(i as int).push(g));
        i += 1;
    }
    assert(boxes.take(i as int) =~= boxes);
    let len = byte_length(line.text.as_str());
    let mut anchor = region;
    let mut off: usize = 0;
    let mut k: usize = 0;
    while k < words.len() && !(cursor.x >= geom[k].rect.x && (cursor.x as i64) < geom[k].rect.x as i64
        + geom[k].rect.w as i64)
        invariant
            k <= words@.len(),
            geom@ == boxes,
            boxes.len() == words@.len(),
            word_under(boxes, cursor.x as int, 0) == word_under(boxes, cursor.x as int, k as int),
            off == crate::geom::min(word_bytes(words@, k as int) as int, usize::MAX as int),
        decreases words@.len() - k,
    {
        off = off.saturating_add(byte_length(words[k].text.as_str()));
        k += 1;
    }
    if k < words.len() {
        anchor = geom[k].rect;
    }
    if off > len {
        off = len;
    }
    Some(TextSpan { text: line.text.clone(), cursor_byte_offset: off, anchor, geom })
}

/// How a plugin reads text, as its manifest says.
#[derive(Debug, PartialEq, Eq)]
pub struct TextProvider {
    pub provides_geometry: bool,
    pub languages: Vec<String>,
    pub timeout_ms: u64,
}

/// How many failures in a row switch a plugin off.
pub const STRIKES: u32 = 3;

/// The strikes of a plugin after one more recognition. A success takes them
/// back, unless the plugin is off already.
pub open spec fn struck(strikes: u32, read: bool) -> u32 {
    if strikes >= STRIKES {
        strikes
    } else if read {
        0
    } else {
        (strikes + 1) as u32
    }
}

/// The strikes of a new plugin after some recognitions.
pub open spec fn struck_by(outcomes: Seq<bool>) -> u32
    decreases outcomes.len(),
{
    if outcomes.len() == 0 {
        0
    } else {
        struck(struck_by(outcomes.drop_last()), outcomes.last())
    }
}

/// Do three failures in a row end at a recognition?
pub open spec fn third_failure(outcomes: Seq<bool>, i: int) -> bool {
    2 <= i < outcomes.len() && !outcomes[i] && !outcomes[i - 1] && !outcomes[i - 2]
}

/// A plugin is off exactly when three recognitions in a row have failed, at
/// some time since the start.
pub proof fn three_failures_in_a_row_switch_a_plugin_off(outcomes: Seq<bool>)
    ensures
        struck_by(outcomes) >= STRIKES <==> exists|i: int| third_failure(outcomes, i),
{
    strikes_count_the_last_failures(outcomes);
}

proof fn strikes_count_the_last_failures(outcomes: Seq<bool>)
    ensures
        struck_by(outcomes) >= STRIKES <==> exists|i: int| third_failure(outcomes, i),
        struck_by(outcomes) < STRIKES ==> ({
            let n = struck_by(outcomes) as int;
            &&& n <= outcomes.len()
            &&& forall|i: int| outcomes.len() - n <= i < outcomes.len() ==> !outcomes[i]
            &&& n < outcomes.len() ==> outcomes[outcomes.len() - n - 1]
        }),
    decreases outcomes.len(),
{
    if outcomes.len() > 0 {
        let before = outcomes.drop_last();
        strikes_count_the_last_failures(before);
        let last = outcomes.len() - 1;
        assert forall|i: int| third_failure(before, i) implies third_failure(outcomes, i) by {}
        assert forall|i: int| third_failure(outcomes, i) && i < last implies third_failure(
            before,
            i,
        ) by {}
        assert(forall|i: int| third_failure(outcomes, i) ==> i <= last);
        if struck_by(outcomes) >= STRIKES {
            if struck_by(before) < STRIKES {
                assert(!before[last - 1] && !before[last - 2]);
                assert(!outcomes[last - 1] && !outcomes[last - 2]);
                assert(third_failure(outcomes, last));
            }
        } else {
            assert(!third_failure(outcomes, last)) by {
                if third_failure(outcomes, last) {
                    assert(!before[last - 1] && !before[last - 2]);
                }
            }
        }
    }
}

/// A plugin that reads text, and how often it failed in a row.
#[derive(Debug, PartialEq, Eq)]
pub struct PluginText {
    pub name: String,
    pub geometry: bool,
    pub language: String,
    pub timeout_ms: u64,
    pub strikes: u32,
}

impl PluginText {
    pub fn new(name: &str, provider: &TextProvider) -> (r: Self)
        ensures
            r.name@ == name@,
            r.geometry == provider.provides_geometry,
            r.language@ == (if provider.languages@.len() > 0 {
                provider.languages@[0]@
            } else {
                seq![]
            }),
            r.timeout_ms == provider.timeout_ms,
            r.strikes == 0,
    {
        let language = if provider.languages.len() > 0 {
            provider.languages[0].clone()
        } else {
            let none = String::new();
            assert(none@ =~= seq![]);
            none
        };
        PluginText {
            name: name.to_owned(),
            geometry: provider.provides_geometry,
            language,
            timeout_ms: provider.timeout_ms,
            strikes: 0,
        }
    }

    /// Counts one recognition, which read something or failed.
    pub fn record(&mut self, read: bool)
        ensures
            final(self).strikes == struck(old(self).strikes, read),
            final(self).name == old(self).name,
            final(self).geometry == old(self).geometry,
            final(self).language == old(self).language,
            final(self).timeout_ms == old(self).timeout_ms,
    {
        if self.strikes < STRIKES {
            self.strikes = if read {
                0
            } else {
                self.strikes + 1
            };
        }
    }

    /// Is the plugin switched off?
    pub fn disabled(&self) -> (r: bool)
        ensures
            r == (self.strikes >= STRIKES),
    {
        self.strikes >= STRIKES
    }
}

/// A pointer in no word's column stands behind the words, and the whole region
/// is then its anchor; without words the region is the anchor too, and there are
/// no boxes.
pub proof fn a_pointer_beside_the_words_stands_behind_them(
    line: Line,
    cursor: PhysPoint,
    region: PhysRect,
    scale: i32,
    span: TextSpan,
)
    requires
        span_of_line(line, cursor, region, scale, span),
    ensures
        span.text@ == line.text@,
        line.words is None ==> span.anchor == region && span.geom@.len() == 0,
        line.words matches Some(words) ==> ((forall|j: int|
            0 <= j < span.geom@.len() ==> !((#[trigger] span.geom@[j]).rect.x <= cursor.x && cursor.x
                < span.geom@[j].rect.x + span.geom@[j].rect.w)) ==> span.anchor == region && (
        line.text@ == run_on(words@, words@.len() as int) ==> span.cursor_byte_offset == byte_len(
            line.text@,
        ))),
{
    if let Some(words) = line.words {
        let boxes = word_boxes(words@, region, scale);
        if forall|j: int|
            0 <= j < span.geom@.len() ==> !((#[trigger] span.geom@[j]).rect.x <= cursor.x && cursor.x
                < span.geom@[j].rect.x + span.geom@[j].rect.w) {
            none_under(boxes, cursor.x as int, 0);
            words_run_on(words@, words@.len() as int);
        }
    }
}

proof fn none_under(boxes: Seq<TextGeom>, x: int, k: int)
    requires
        0 <= k <= boxes.len(),
        forall|j: int| 0 <= j < boxes.len() ==> !in_column((#[trigger] boxes[j]).rect, x),
    ensures
        word_under(boxes, x, k) == boxes.len(),
    decreases boxes.len() - k,
{
    if k < boxes.len() {
        assert(!in_column(boxes[k].rect, x));
        none_under(boxes, x, k + 1);
    }
}

proof fn words_run_on(words: Seq<Word>, n: int)
    requires
        0 <= n <= words.len(),
    ensures
        word_bytes(words, n) == byte_len(run_on(words, n)),
    decreases n,
{
    if n > 0 {
        words_run_on(words, n - 1);
        byte_len_adds(run_on(words, n - 1), words[n - 1].text@);
    } else {
        assert(run_on(words, n) =~= seq![]);
    }
}

} // verus!
