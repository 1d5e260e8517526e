//! Text on the screen: a line, where the pointer stands in it, and the boxes
//! of its characters.
use crate::geom::{fits, max, min, PhysRect};
use vstd::prelude::*;
use vstd::utf8::{char_is_scalar, encode_scalar, encode_utf8};

verus! {

/// The number of bytes that a character takes.
pub open spec fn width(c: char) -> nat {
    if c as u32 <= 0x7f {
        1
    } else if c as u32 <= 0x7ff {
        2
    } else if c as u32 <= 0xffff {
        3
    } else {
        4
    }
}

pub fn width_of(c: char) -> (r: usize)
    ensures
        r == width(c),
{
    let u = c as u32;
    if u <= 0x7f {
        1
    } else if u <= 0x7ff {
        2
    } else if u <= 0xffff {
        3
    } else {
        4
    }
}

/// The number of bytes that a text takes.
pub open spec fn byte_len(s: Seq<char>) -> nat
    decreases s.len(),
{
    if s.len() == 0 {
        0
    } else {
        byte_len(s.drop_last()) + width(s.last())
    }
}

pub proof fn byte_len_front(s: Seq<char>)
    requires
        s.len() > 0,
    ensures
        byte_len(s) == width(s[0]) + byte_len(s.drop_first()),
    decreases s.len(),
{
    if s.len() == 1 {
        assert(s.drop_last() =~= seq![]);
        assert(s.drop_first() =~= seq![]);
    } else {
        byte_len_front(s.drop_last());
        assert(s.drop_last().drop_first() =~= s.drop_first().drop_last());
        assert(s.drop_first().last() == s.last());
    }
}

proof fn scalar_width(c: char)
    ensures
        encode_scalar(c as u32).len() == width(c),
{
    char_is_scalar(c);
}

proof fn byte_len_is_encoded(s: Seq<char>)
    ensures
        byte_len(s) == encode_utf8(s).len(),
    decreases s.len(),
{
    if s.len() > 0 {
        byte_len_front(s);
        byte_len_is_encoded(s.drop_first());
        scalar_width(s[0]);
    }
}

/// A text's parts take as many bytes as the text.
pub proof fn byte_len_adds(a: Seq<char>, b: Seq<char>)
    ensures
        byte_len(a + b) == byte_len(a) + byte_len(b),
    decreases b.len(),
{
    if b.len() == 0 {
        assert(a + b =~= a);
    } else {
        assert((a + b).drop_last() =~= a + b.drop_last());
        byte_len_adds(a, b.drop_last());
    }
}

pub proof fn byte_len_of_part(s: Seq<char>, k: int)
    requires
        0 <= k <= s.len(),
    ensures
        byte_len(s.take(k)) <= byte_len(s),
        byte_len(s) == byte_len(s.take(k)) + byte_len(s.skip(k)),
{
    byte_len_adds(s.take(k), s.skip(k));
    assert(s.take(k) + s.skip(k) =~= s);
}

/// How many bytes a string takes.
pub fn byte_length(s: &str) -> (r: usize)
    ensures
        r == byte_len(s@),
{
    proof {
        byte_len_is_encoded(s@);
    }
    s.as_bytes().len()
}

/// The character that starts at a byte, counted from character `k`: the
/// length at the end, and nothing within a character or behind the end.
pub open spec fn at_byte(s: Seq<char>, k: int, off: int) -> Option<int>
    decreases s.len() - k,
{
    if off == 0 {
        Some(k)
    } else if k >= s.len() || width(s[k]) > off {
        None
    } else {
        at_byte(s, k + 1, off - width(s[k]))
    }
}

/// Which character of a text starts at a byte.
pub fn char_index(s: &[char], off: usize) -> (r: Option<usize>)
    ensures
        at_byte(s@, 0, off as int) == (match r {
            Some(k) => Some(k as int),
            None => None,
        }),
        r matches Some(k) ==> k <= s@.len(),
{
    let mut k: usize = 0;
    let mut rest = off;
    while rest > 0
        invariant
            k <= s@.len(),
            at_byte(s@, 0, off as int) == at_byte(s@, k as int, rest as int),
        decreases s@.len() - k,
    {
        if k >= s.len() {
            return None;
        }
        let w = width_of(s[k]);
        if w > rest {
            return None;
        }
        rest = rest - w;
        k += 1;
    }
    Some(k)
}

/// The character that starts at a byte has that many bytes before it.
pub proof fn at_byte_counts(s: Seq<char>, k: int, off: int)
    requires
        0 <= k <= s.len(),
        off >= 0,
    ensures
        at_byte(s, k, off) matches Some(j) ==> k <= j <= s.len() && byte_len(s.take(j)) == byte_len(
            s.take(k),
        ) + off,
    decreases s.len() - k,
{
    if off > 0 && k < s.len() && width(s[k]) <= off {
        at_byte_counts(s, k + 1, off - width(s[k]));
        assert(s.take(k + 1).drop_last() =~= s.take(k));
        assert(s.take(k + 1).last() == s[k]);
    }
}

/// One box on the screen, and how many characters it holds.
#[derive(Debug, Clone, Copy, PartialEq, Eq, Structural)]
pub struct TextGeom {
    pub char_count: usize,
    pub rect: PhysRect,
}

/// A line of text under the pointer.
#[derive(Debug, PartialEq, Eq)]
pub struct TextSpan {
    pub text: String,
    /// The byte of `text` that the pointer stands on.
    pub cursor_byte_offset: usize,
    /// The box of the word under the pointer.
    pub anchor: PhysRect,
    /// The boxes of the line, in reading order.
    pub geom: Vec<TextGeom>,
}

/// How many characters the first `n` boxes hold.
pub open spec fn chars_before(geom: Seq<TextGeom>, n: int) -> int
    decreases n,
{
    if n <= 0 {
        0
    } else {
        chars_before(geom, n - 1) + geom[n - 1].char_count
    }
}

/// Does a box hold one of `len` characters from character `from` on?
pub open spec fn touched(geom: Seq<TextGeom>, i: int, from: int, len: int) -> bool {
    chars_before(geom, i) < from + len && from < chars_before(geom, i + 1) && geom[i].char_count > 0
}

/// The edges of a rect.
pub struct Edges {
    pub left: int,
    pub top: int,
    pub right: int,
    pub bottom: int,
}

pub open spec fn edges_of(r: PhysRect) -> Edges {
    Edges { left: r.x as int, top: r.y as int, right: r.x + r.w, bottom: r.y + r.h }
}

/// The edges around two rects.
pub open spec fn hull(a: Edges, b: Edges) -> Edges {
    Edges {
        left: min(a.left, b.left),
        top: min(a.top, b.top),
        right: max(a.right, b.right),
        bottom: max(a.bottom, b.bottom),
    }
}

/// The edges around the touched boxes among the first `n`.
pub open spec fn touched_hull(geom: Seq<TextGeom>, n: int, from: int, len: int) -> Option<Edges>
    decreases n,
{
    if n <= 0 {
        None
    } else if !touched(geom, n - 1, from, len) {
        touched_hull(geom, n - 1, from, len)
    } else {
        match touched_hull(geom, n - 1, from, len) {
            None => Some(edges_of(geom[n - 1].rect)),
            Some(e) => Some(hull(e, edges_of(geom[n - 1].rect))),
        }
    }
}

/// The rect within some edges, with a margin.
pub open spec fn padded(e: Edges, pad: int) -> PhysRect {
    PhysRect {
        x: (e.left - pad) as i32,
        y: (e.top - pad) as i32,
        w: (e.right - e.left + 2 * pad) as i32,
        h: (e.bottom - e.top + 2 * pad) as i32,
    }
}

/// Can the rect within some edges, with a margin, be held?
pub open spec fn holdable(e: Edges, pad: int) -> bool {
    &&& fits(e.left - pad)
    &&& fits(e.top - pad)
    &&& fits(e.right - e.left + 2 * pad)
    &&& fits(e.bottom - e.top + 2 * pad)
}

/// Can the rect around `len` characters from character `from` on be held?
pub open spec fn chars_holdable(geom: Seq<TextGeom>, from: int, len: int, pad: int) -> bool {
    match touched_hull(geom, geom.len() as int, from, len) {
        Some(e) => holdable(e, pad),
        None => true,
    }
}

fn can_hold(n: i64) -> (r: bool)
    ensures
        r == fits(n as int),
{
    i32::MIN as i64 <= n && n <= i32::MAX as i64
}

/// The edges around some boxes, as numbers.
struct Bounds {
    left: i64,
    top: i64,
    right: i64,
    bottom: i64,
}

impl Bounds {
    spec fn v(self) -> Edges {
        Edges {
            left: self.left as int,
            top: self.top as int,
            right: self.right as int,
            bottom: self.bottom as int,
        }
    }

    spec fn small(self) -> bool {
        &&& i32::MIN <= self.left <= i32::MAX
        &&& i32::MIN <= self.top <= i32::MAX
        &&& 2 * i32::MIN <= self.right <= 2 * i32::MAX
        &&& 2 * i32::MIN <= self.bottom <= 2 * i32::MAX
    }
}

/// The edges around `len` characters from character `from` on, or nothing
/// where no box holds one of them.
fn bounds_of(geom: &Vec<TextGeom>, from: usize, len: usize) -> (r: Option<Bounds>)
    ensures
        touched_hull(geom@, geom@.len() as int, from as int, len as int) == (match r {
            Some(b) => Some(b.v()),
            None => None,
        }),
        r matches Some(b) ==> b.small(),
{
    let mut best: Option<Bounds> = None;
    let mut seen: u128 = 0;
    let first: u128 = from as u128;
    let last: u128 = from as u128 + len as u128;
    let mut i: usize = 0;
    while i < geom.len()
        invariant
            i <= geom@.len(),
            first == from,
            last == from + len,
            seen == chars_before(geom@, i as int),
            seen <= i * usize::MAX,
            touched_hull(geom@, i as int, from as int, len as int) == (match best {
                Some(b) => Some(b.v()),
                None => None,
            }),
            best matches Some(b) ==> b.small(),
        decreases geom@.len() - i,
    {
        let g = geom[i];
        assert(i * usize::MAX + usize::MAX == (i + 1) * usize::MAX) by (nonlinear_arith);
        assert(i * usize::MAX <= 0xffff_ffff_ffff_ffff * 0xffff_ffff_ffff_ffff) by (nonlinear_arith)
            requires
                0 <= i <= 0xffff_ffff_ffff_ffff,
                0 <= usize::MAX <= 0xffff_ffff_ffff_ffff,
        ;
        let end: u128 = seen + g.char_count as u128;
        if seen < last && first < end && g.char_count > 0 {
            let x: i64 = g.rect.x as i64;
            let y: i64 = g.rect.y as i64;
            let own = Bounds {
                left: x,
                top: y,
                right: x + g.rect.w as i64,
                bottom: y + g.rect.h as i64,
            };
            best = match best {
                None => Some(own),
                Some(b) => Some(
                    Bounds {
                        left: if own.left < b.left {
                            own.left
                        } else {
                            b.left
                        },
                        top: if own.top < b.top {
                            own.top
                        } else {
                            b.top
                        },
                        right: if own.right > b.right {
                            own.right
                        } else {
                            b.right
                        },
                        bottom: if own.bottom > b.bottom {
                            own.bottom
                        } else {
                            b.bottom
                        },
                    },
                ),
            };
        }
        seen = end;
        i += 1;
    }
    best
}

/// Can the rect around `len` characters from character `from` on be held?
pub fn chars_join(geom: &Vec<TextGeom>, from: usize, len: usize, pad: i32) -> (r: bool)
    ensures
        r == chars_holdable(geom@, from as int, len as int, pad as int),
{
    let p: i64 = pad as i64;
    match bounds_of(geom, from, len) {
        None => true,
        Some(b) => can_hold(b.left - p) && can_hold(b.top - p) && can_hold(b.right - b.left + 2 * p)
            && can_hold(b.bottom - b.top + 2 * p),
    }
}

/// The rect around `len` characters from character `from` on, with a margin,
/// or nothing where no box holds one of them.
pub fn union_chars(geom: &Vec<TextGeom>, from: usize, len: usize, pad: i32) -> (r: Option<PhysRect>)
    requires
        chars_holdable(geom@, from as int, len as int, pad as int),
    ensures
        r == (match touched_hull(geom@, geom@.len() as int, from as int, len as int) {
            Some(e) => Some(padded(e, pad as int)),
            None => None,
        }),
{
    let p: i64 = pad as i64;
    match bounds_of(geom, from, len) {
        None => None,
        Some(b) => Some(
            PhysRect {
                x: (b.left - p) as i32,
                y: (b.top - p) as i32,
                w: (b.right - b.left + 2 * p) as i32,
                h: (b.bottom - b.top + 2 * p) as i32,
            },
        ),
    }
}

proof fn chars_grow(geom: Seq<TextGeom>, i: int, j: int)
    requires
        0 <= i <= j <= geom.len(),
    ensures
        chars_before(geom, i) <= chars_before(geom, j),
    decreases j - i,
{
    if i < j {
        chars_grow(geom, i, j - 1);
    }
}

/// A box is touched by a run of characters exactly where one of its own
/// characters is in the run.
pub proof fn a_box_is_touched_by_its_characters(geom: Seq<TextGeom>, i: int, from: int, len: int)
    requires
        0 <= i < geom.len(),
        len > 0,
    ensures
        touched(geom, i, from, len) <==> exists|c: int|
            #![trigger chars_before(geom, c)]
            chars_before(geom, i) <= c < chars_before(geom, i) + geom[i].char_count && from <= c < from
                + len,
{
    let a = chars_before(geom, i);
    let b = a + geom[i].char_count;
    assert(chars_before(geom, i + 1) == b);
    if touched(geom, i, from, len) {
        let c = max(a, from);
        let t = chars_before(geom, c);
        assert(a <= c < b && from <= c < from + len);
    }
}

/// The rect around a run of characters covers every box that holds one of
/// them, has a margin on every side, and no edge of it lies further out than
/// some such box does.
pub proof fn a_run_is_covered_tightly(geom: Seq<TextGeom>, n: int, from: int, len: int)
    requires
        0 <= n <= geom.len(),
    ensures
        match touched_hull(geom, n, from, len) {
            None => forall|i: int| 0 <= i < n ==> !(#[trigger] touched(geom, i, from, len)),
            Some(e) => {
                &&& forall|i: int|
                    0 <= i < n && #[trigger] touched(geom, i, from, len) ==> e.left <= geom[i].rect.x
                        && e.top <= geom[i].rect.y && geom[i].rect.x + geom[i].rect.w <= e.right
                        && geom[i].rect.y + geom[i].rect.h <= e.bottom
                &&& exists|i: int|
                    0 <= i < n && #[trigger] touched(geom, i, from, len) && geom[i].rect.x == e.left
                &&& exists|i: int|
                    0 <= i < n && #[trigger] touched(geom, i, from, len) && geom[i].rect.y == e.top
                &&& exists|i: int|
                    0 <= i < n && #[trigger] touched(geom, i, from, len) && geom[i].rect.x
                        + geom[i].rect.w == e.right
                &&& exists|i: int|
                    0 <= i < n && #[trigger] touched(geom, i, from, len) && geom[i].rect.y
                        + geom[i].rect.h == e.bottom
            },
        },
    decreases n,
{
    if n > 0 {
        a_run_is_covered_tightly(geom, n - 1, from, len);
        let t = touched(geom, n - 1, from, len);
        if t {
            match touched_hull(geom, n - 1, from, len) {
                None => {},
                Some(e) => {
                    let a = choose|i: int|
                        0 <= i < n - 1 && #[trigger] touched(geom, i, from, len) && geom[i].rect.x
                            == e.left;
                    let b = choose|i: int|
                        0 <= i < n - 1 && #[trigger] touched(geom, i, from, len) && geom[i].rect.y
                            == e.top;
                    let c = choose|i: int|
                        0 <= i < n - 1 && #[trigger] touched(geom, i, from, len) && geom[i].rect.x
                            + geom[i].rect.w == e.right;
                    let d = choose|i: int|
                        0 <= i < n - 1 && #[trigger] touched(geom, i, from, len) && geom[i].rect.y
                            + geom[i].rect.h == e.bottom;
                    assert(touched(geom, a, from, len) && touched(geom, b, from, len) && touched(
                        geom,
                        c,
                        from,
                        len,
                    ) && touched(geom, d, from, len));
                },
            }
        }
    }
}

/// The rect within some edges stands as far outside each of them as its margin
/// is wide.
pub proof fn a_margin_is_as_wide_on_every_side(e: Edges, pad: int)
    requires
        holdable(e, pad),
    ensures
        ({
            let r = padded(e, pad);
            &&& r.x == e.left - pad
            &&& r.y == e.top - pad
            &&& r.x + r.w == e.right + pad
            &&& r.y + r.h == e.bottom + pad
        }),
{
}

} // verus!
