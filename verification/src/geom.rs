//! Physical pixel geometry.
use vstd::prelude::*;

verus! {

#[derive(Debug, Clone, Copy, PartialEq, Eq, Structural)]
pub struct PhysPoint {
    pub x: i32,
    pub y: i32,
}

#[derive(Debug, Clone, Copy, PartialEq, Eq, Structural)]
pub struct PhysRect {
    pub x: i32,
    pub y: i32,
    pub w: i32,
    pub h: i32,
}

/// Can a coordinate be held?
pub open spec fn fits(n: int) -> bool {
    i32::MIN <= n <= i32::MAX
}

pub open spec fn min(a: int, b: int) -> int {
    if a < b {
        a
    } else {
        b
    }
}

pub open spec fn max(a: int, b: int) -> int {
    if a > b {
        a
    } else {
        b
    }
}

/// A quotient rounded toward zero.
pub open spec fn trunc_div(a: int, b: int) -> int {
    if a >= 0 && b > 0 {
        a / b
    } else if a < 0 && b > 0 {
        -((-a) / b)
    } else if a >= 0 {
        -(a / (-b))
    } else {
        (-a) / (-b)
    }
}

/// Divides, rounding toward zero.
pub fn div_i32(a: i32, b: i32) -> (r: i32)
    requires
        b != 0,
        !(a == i32::MIN && b == -1),
    ensures
        r == trunc_div(a as int, b as int),
{
    let x: i64 = if a < 0 {
        -(a as i64)
    } else {
        a as i64
    };
    let y: i64 = if b < 0 {
        -(b as i64)
    } else {
        b as i64
    };
    let q: i64 = x / y;
    assert(0 <= q <= x) by (nonlinear_arith)
        requires
            q == x / y,
            x >= 0,
            y >= 1,
    ;
    assert(y >= 2 ==> 2 * q <= x) by (nonlinear_arith)
        requires
            q == x / y,
            x >= 0,
            y >= 1,
    ;
    if (a < 0) == (b < 0) {
        q as i32
    } else {
        (-q) as i32
    }
}

impl PhysRect {
    /// Half-open: top-left in.
    pub open spec fn holds(self, p: PhysPoint) -> bool {
        self.x <= p.x < self.x + self.w && self.y <= p.y < self.y + self.h
    }

    /// Can the far corner be held?
    pub open spec fn bounded(self) -> bool {
        fits(self.x + self.w) && fits(self.y + self.h)
    }

    pub fn contains(&self, p: PhysPoint) -> (r: bool)
        requires
            self.bounded(),
        ensures
            r == self.holds(p),
    {
        p.x >= self.x && p.x < self.x + self.w && p.y >= self.y && p.y < self.y + self.h
    }

    /// How far a point stands outside, on each axis: (0, 0) inside.
    pub fn edge_offsets(&self, p: PhysPoint) -> (r: (i64, i64))
        ensures
            r.0 == max(max(self.x - p.x, 0), p.x - (self.x + self.w - 1)),
            r.1 == max(max(self.y - p.y, 0), p.y - (self.y + self.h - 1)),
    {
        let left = self.x as i64 - p.x as i64;
        let right = p.x as i64 - (self.x as i64 + self.w as i64 - 1);
        let above = self.y as i64 - p.y as i64;
        let below = p.y as i64 - (self.y as i64 + self.h as i64 - 1);
        let dx = if left > 0 {
            left
        } else {
            0
        };
        let dy = if above > 0 {
            above
        } else {
            0
        };
        (
            if dx > right {
                dx
            } else {
                right
            },
            if dy > below {
                dy
            } else {
                below
            },
        )
    }

    pub fn center(&self) -> (r: PhysPoint)
        requires
            fits(self.x + trunc_div(self.w as int, 2)),
            fits(self.y + trunc_div(self.h as int, 2)),
        ensures
            r.x == self.x + trunc_div(self.w as int, 2),
            r.y == self.y + trunc_div(self.h as int, 2),
    {
        PhysPoint { x: self.x + div_i32(self.w, 2), y: self.y + div_i32(self.h, 2) }
    }

    pub fn translated(&self, dx: i32, dy: i32) -> (r: PhysRect)
        requires
            fits(self.x + dx),
            fits(self.y + dy),
        ensures
            r == self.moved(dx as int, dy as int),
    {
        PhysRect { x: self.x + dx, y: self.y + dy, w: self.w, h: self.h }
    }

    /// The rect at another place.
    pub open spec fn moved(self, dx: int, dy: int) -> PhysRect {
        PhysRect { x: (self.x + dx) as i32, y: (self.y + dy) as i32, w: self.w, h: self.h }
    }

    /// Negative amounts shrink.
    pub fn inflated(&self, dx: i32, dy: i32) -> (r: PhysRect)
        requires
            fits(self.x - dx),
            fits(self.y - dy),
            fits(2 * dx),
            fits(2 * dy),
            fits(self.w + 2 * dx),
            fits(self.h + 2 * dy),
        ensures
            r == self.grown(dx as int, dy as int),
    {
        PhysRect {
            x: self.x - dx,
            y: self.y - dy,
            w: self.w + 2 * dx,
            h: self.h + 2 * dy,
        }
    }

    /// The rect with a margin on every side.
    pub open spec fn grown(self, dx: int, dy: int) -> PhysRect {
        PhysRect {
            x: (self.x - dx) as i32,
            y: (self.y - dy) as i32,
            w: (self.w + 2 * dx) as i32,
            h: (self.h + 2 * dy) as i32,
        }
    }

    /// Truncates toward zero.
    pub fn scaled_down(&self, factor: i32) -> (r: PhysRect)
        requires
            factor != 0,
            factor == -1 ==> self.x > i32::MIN && self.y > i32::MIN && self.w > i32::MIN && self.h
                > i32::MIN,
        ensures
            r.x == trunc_div(self.x as int, factor as int),
            r.y == trunc_div(self.y as int, factor as int),
            r.w == trunc_div(self.w as int, factor as int),
            r.h == trunc_div(self.h as int, factor as int),
    {
        PhysRect {
            x: div_i32(self.x, factor),
            y: div_i32(self.y, factor),
            w: div_i32(self.w, factor),
            h: div_i32(self.h, factor),
        }
    }
}

/// Origin of a drawn rect.
#[derive(Debug, Clone, Copy, PartialEq, Eq, Structural)]
pub enum ScanKind {
    /// Pass 1's capture box.
    Pass1,
    /// One forward tile.
    Tile,
    /// The resolved word's box.
    Anchor,
    /// The characters defined.
    Match,
}

/// A rect the overlay draws.
#[derive(Debug, Clone, Copy, PartialEq, Eq, Structural)]
pub struct ScanRect {
    pub rect: PhysRect,
    pub kind: ScanKind,
}

/// What one hover may show.
#[derive(Debug, Clone, Copy, PartialEq, Eq, Structural)]
pub struct ScanDisplay {
    /// Captures; inert when off.
    pub captures: bool,
    /// `Match`.
    pub highlight: bool,
}

impl ScanDisplay {
    /// Is any overlay needed?
    pub fn any(self) -> (r: bool)
        ensures
            r == (self.captures || self.highlight),
    {
        self.captures || self.highlight
    }
}

/// The upper of two rects, the first where they start on one row.
pub open spec fn upper(a: PhysRect, b: PhysRect) -> PhysRect {
    if a.y <= b.y {
        a
    } else {
        b
    }
}

/// The other one.
pub open spec fn lower(a: PhysRect, b: PhysRect) -> PhysRect {
    if a.y <= b.y {
        b
    } else {
        a
    }
}

/// The band between two rects: from the bottom of the upper to the top of the
/// lower, over both their widths.
pub open spec fn band(a: PhysRect, b: PhysRect) -> PhysRect {
    let top = upper(a, b).y + upper(a, b).h;
    let left = min(a.x as int, b.x as int);
    let right = max(a.x + a.w, b.x + b.w);
    PhysRect {
        x: left as i32,
        y: top as i32,
        w: (right - left) as i32,
        h: (lower(a, b).y - top) as i32,
    }
}

/// Can the band between two rects be held?
pub open spec fn bridgeable(a: PhysRect, b: PhysRect) -> bool {
    let top = upper(a, b).y + upper(a, b).h;
    let left = min(a.x as int, b.x as int);
    let right = max(a.x + a.w, b.x + b.w);
    a.bounded() && b.bounded() && fits(right - left) && fits(lower(a, b).y - top) && fits(right)
}

/// Anchor, popup, bridge.
pub fn sticky_region(anchor: PhysRect, popup: PhysRect) -> (r: [PhysRect; 3])
    requires
        bridgeable(anchor, popup),
    ensures
        r@ == seq![anchor, popup, band(anchor, popup)],
{
    let r = [anchor, popup, bridge_between(anchor, popup)];
    assert(r@ =~= seq![anchor, popup, band(anchor, popup)]);
    r
}

/// The gap band between two.
fn bridge_between(a: PhysRect, b: PhysRect) -> (r: PhysRect)
    requires
        bridgeable(a, b),
    ensures
        r == band(a, b),
{
    let (up, low) = if a.y <= b.y {
        (a, b)
    } else {
        (b, a)
    };
    let top = up.y + up.h;
    let left = if a.x < b.x {
        a.x
    } else {
        b.x
    };
    let ra = a.x + a.w;
    let rb = b.x + b.w;
    let right = if ra > rb {
        ra
    } else {
        rb
    };
    PhysRect { x: left, y: top, w: right - left, h: low.y - top }
}

/// Does a point stand on the anchor, the popup, or in the gap?
pub open spec fn sticky(p: PhysPoint, anchor: PhysRect, popup: PhysRect) -> bool {
    anchor.holds(p) || popup.holds(p) || band(anchor, popup).holds(p)
}

/// On anchor, popup, or gap.
pub fn in_sticky(p: PhysPoint, anchor: PhysRect, popup: PhysRect) -> (r: bool)
    requires
        bridgeable(anchor, popup),
    ensures
        r == sticky(p, anchor, popup),
{
    let bridge = bridge_between(anchor, popup);
    (anchor.w > 0 && anchor.h > 0 && anchor.contains(p)) || (popup.w > 0 && popup.h > 0
        && popup.contains(p)) || (bridge.w > 0 && bridge.h > 0 && bridge.contains(p))
}

/// A point that goes straight down or up over columns that both rects have
/// never leaves the sticky region between the top of the upper rect and the
/// bottom of the lower, where the two do not overlap.
pub proof fn a_straight_path_stays_sticky(p: PhysPoint, anchor: PhysRect, popup: PhysRect)
    requires
        bridgeable(anchor, popup),
        upper(anchor, popup).y + upper(anchor, popup).h <= lower(anchor, popup).y,
        anchor.x <= p.x < anchor.x + anchor.w,
        popup.x <= p.x < popup.x + popup.w,
        upper(anchor, popup).y <= p.y < lower(anchor, popup).y + lower(anchor, popup).h,
    ensures
        sticky(p, anchor, popup),
{
}

/// A point level with the anchor and outside it is not sticky, where the
/// popup stands clear of that row.
pub proof fn the_rest_of_the_line_is_not_sticky(p: PhysPoint, anchor: PhysRect, popup: PhysRect)
    requires
        bridgeable(anchor, popup),
        upper(anchor, popup).y + upper(anchor, popup).h <= lower(anchor, popup).y,
        anchor.y <= p.y < anchor.y + anchor.h,
        !(anchor.x <= p.x < anchor.x + anchor.w),
        !(popup.y <= p.y < popup.y + popup.h),
    ensures
        !sticky(p, anchor, popup),
{
}

/// The leftmost column of some rects.
pub open spec fn left_of(rects: Seq<ScanRect>) -> int
    decreases rects.len(),
{
    if rects.len() <= 1 {
        rects[0].rect.x as int
    } else {
        min(left_of(rects.drop_last()), rects.last().rect.x as int)
    }
}

/// The topmost row of some rects.
pub open spec fn top_of(rects: Seq<ScanRect>) -> int
    decreases rects.len(),
{
    if rects.len() <= 1 {
        rects[0].rect.y as int
    } else {
        min(top_of(rects.drop_last()), rects.last().rect.y as int)
    }
}

/// The column behind the rightmost one of some rects.
pub open spec fn right_of(rects: Seq<ScanRect>) -> int
    decreases rects.len(),
{
    if rects.len() <= 1 {
        rects[0].rect.x + rects[0].rect.w
    } else {
        max(right_of(rects.drop_last()), rects.last().rect.x + rects.last().rect.w)
    }
}

/// The row behind the lowest one of some rects.
pub open spec fn bottom_of(rects: Seq<ScanRect>) -> int
    decreases rects.len(),
{
    if rects.len() <= 1 {
        rects[0].rect.y + rects[0].rect.h
    } else {
        max(bottom_of(rects.drop_last()), rects.last().rect.y + rects.last().rect.h)
    }
}

/// Can some rects, their bounds and their places in it be held?
pub open spec fn layable(rects: Seq<ScanRect>) -> bool {
    &&& forall|i: int| 0 <= i < rects.len() ==> (#[trigger] rects[i]).rect.bounded()
    &&& rects.len() > 0 ==> {
        &&& fits(right_of(rects) - left_of(rects))
        &&& fits(bottom_of(rects) - top_of(rects))
        &&& fits(-left_of(rects))
        &&& fits(-top_of(rects))
        &&& forall|i: int|
            0 <= i < rects.len() ==> fits((#[trigger] rects[i]).rect.x - left_of(rects)) && fits(
                rects[i].rect.y - top_of(rects),
            )
    }
}

/// The bounds of some rects.
pub open spec fn bounds_of(rects: Seq<ScanRect>) -> PhysRect {
    PhysRect {
        x: left_of(rects) as i32,
        y: top_of(rects) as i32,
        w: (right_of(rects) - left_of(rects)) as i32,
        h: (bottom_of(rects) - top_of(rects)) as i32,
    }
}

proof fn sides_fit(rects: Seq<ScanRect>)
    requires
        rects.len() > 0,
        forall|i: int| 0 <= i < rects.len() ==> (#[trigger] rects[i]).rect.bounded(),
    ensures
        fits(left_of(rects)),
        fits(top_of(rects)),
        fits(right_of(rects)),
        fits(bottom_of(rects)),
    decreases rects.len(),
{
    assert(rects[0].rect.bounded());
    if rects.len() > 1 {
        assert(rects[rects.len() - 1].rect.bounded());
        assert forall|i: int| 0 <= i < rects.drop_last().len() implies (#[trigger] rects.drop_last()[i])
            .rect.bounded() by {
            assert(rects[i].rect.bounded());
        }
        sides_fit(rects.drop_last());
    }
}

/// Bounds plus local rects.
pub fn overlay_layout(rects: &[ScanRect]) -> (r: Option<(PhysRect, Vec<ScanRect>)>)
    requires
        layable(rects@),
    ensures
        match r {
            None => rects@.len() == 0,
            Some((bounds, local)) => {
                &&& rects@.len() > 0
                &&& bounds == bounds_of(rects@)
                &&& local@ == Seq::new(
                    rects@.len(),
                    |i: int|
                        ScanRect {
                            rect: rects@[i].rect.moved(-left_of(rects@), -top_of(rects@)),
                            kind: rects@[i].kind,
                        },
                )
            },
        },
{
    if rects.len() == 0 {
        return None;
    }
    let ghost all = rects@;
    assert(all[0].rect.bounded());
    let first = rects[0];
    let mut left = first.rect.x;
    let mut top = first.rect.y;
    let mut right = first.rect.x + first.rect.w;
    let mut bottom = first.rect.y + first.rect.h;
    let mut i: usize = 1;
    while i < rects.len()
        invariant
            1 <= i <= rects@.len(),
            all == rects@,
            forall|k: int| 0 <= k < all.len() ==> (#[trigger] all[k]).rect.bounded(),
            left == left_of(all.take(i as int)),
            top == top_of(all.take(i as int)),
            right == right_of(all.take(i as int)),
            bottom == bottom_of(all.take(i as int)),
        decreases rects@.len() - i,
    {
        let q = rects[i].rect;
        assert(all[i as int].rect.bounded());
        assert(all.take(i + 1).drop_last() =~= all.take(i as int));
        assert(all.take(i + 1).last() == all[i as int]);
        if q.x < left {
            left = q.x;
        }
        if q.y < top {
            top = q.y;
        }
        if q.x + q.w > right {
            right = q.x + q.w;
        }
        if q.y + q.h > bottom {
            bottom = q.y + q.h;
        }
        i += 1;
    }
    assert(all.take(i as int) =~= all);
    proof {
        sides_fit(all);
    }
    let bounds = PhysRect { x: left, y: top, w: right - left, h: bottom - top };
    let ghost want = Seq::new(
        all.len(),
        |k: int|
            ScanRect {
                rect: all[k].rect.moved(-left_of(all), -top_of(all)),
                kind: all[k].kind,
            },
    );
    let mut local: Vec<ScanRect> = Vec::new();
    let mut k: usize = 0;
    while k < rects.len()
        invariant
            k <= rects@.len(),
            rects@.len() > 0,
            all == rects@,
            layable(all),
            left == left_of(all),
            top == top_of(all),
            want == Seq::new(
                all.len(),
                |j: int|
                    ScanRect {
                        rect: all[j].rect.moved(-left_of(all), -top_of(all)),
                        kind: all[j].kind,
                    },
            ),
            local@ == want.take(k as int),
        decreases rects@.len() - k,
    {
        let q = rects[k];
        assert(all[k as int].rect.bounded());
        local.push(ScanRect { rect: q.rect.translated(-left, -top), kind: q.kind });
        assert(want.take(k + 1) =~= want.take(k as int).push(want[k as int]));
        k += 1;
    }
    assert(want.take(k as int) =~= want);
    Some((bounds, local))
}

proof fn sides_hold(rects: Seq<ScanRect>, i: int)
    requires
        0 <= i < rects.len(),
    ensures
        left_of(rects) <= rects[i].rect.x,
        top_of(rects) <= rects[i].rect.y,
        rects[i].rect.x + rects[i].rect.w <= right_of(rects),
        rects[i].rect.y + rects[i].rect.h <= bottom_of(rects),
    decreases rects.len(),
{
    if rects.len() > 1 && i < rects.len() - 1 {
        sides_hold(rects.drop_last(), i);
    }
}

/// The bounds of some rects hold every point of every one of them, and a
/// local rect moved back by the bounds' origin is the rect it came from.
pub proof fn bounds_cover_every_rect(rects: Seq<ScanRect>, i: int, p: PhysPoint)
    requires
        layable(rects),
        0 <= i < rects.len(),
    ensures
        rects[i].rect.holds(p) ==> bounds_of(rects).holds(p),
        rects[i].rect.moved(-left_of(rects), -top_of(rects)).moved(
            left_of(rects),
            top_of(rects),
        ) == rects[i].rect,
{
    sides_fit(rects);
    sides_hold(rects, i);
    assert(rects[i].rect.bounded());
}

/// `None` when nothing is left.
pub fn inset(rect: PhysRect, thickness: i32) -> (r: Option<PhysRect>)
    requires
        fits(2 * thickness),
        fits(rect.w - 2 * thickness),
        fits(rect.h - 2 * thickness),
        rect.w - 2 * thickness > 0 && rect.h - 2 * thickness > 0 ==> fits(rect.x + thickness)
            && fits(rect.y + thickness),
    ensures
        r == (if rect.w - 2 * thickness <= 0 || rect.h - 2 * thickness <= 0 {
            None
        } else {
            Some(rect.grown(-thickness, -thickness))
        }),
{
    let w = rect.w - 2 * thickness;
    let h = rect.h - 2 * thickness;
    if w <= 0 || h <= 0 {
        return None;
    }
    Some(PhysRect { x: rect.x + thickness, y: rect.y + thickness, w, h })
}

/// Where a popup of a size starts on one axis: `first` where it ends within
/// the monitor, else `other`, and then within the monitor.
pub open spec fn placed(first: int, other: int, size: int, start: int, extent: int) -> int {
    let at = if first + size > start + extent {
        other
    } else {
        first
    };
    min(max(at, start), start + extent - size)
}

/// Can every edge that is tried be held? The second place on an axis is tried
/// only where the first one passes the monitor's edge.
pub open spec fn placeable(anchor: PhysRect, size: (i32, i32), monitor: PhysRect, gap: i32) -> bool {
    &&& monitor.bounded()
    &&& fits(anchor.x + size.0)
    &&& anchor.x + size.0 > monitor.x + monitor.w ==> fits(anchor.x + anchor.w) && fits(
        anchor.x + anchor.w - size.0,
    )
    &&& fits(monitor.x + monitor.w - size.0)
    &&& fits(anchor.y + anchor.h)
    &&& fits(anchor.y + anchor.h + gap)
    &&& fits(anchor.y + anchor.h + gap + size.1)
    &&& anchor.y + anchor.h + gap + size.1 > monitor.y + monitor.h ==> fits(anchor.y - gap) && fits(
        anchor.y - gap - size.1,
    )
    &&& fits(monitor.y + monitor.h - size.1)
}

/// The popup's place: below the anchor, flush left, or else above it, flush
/// right, and always moved onto the monitor.
pub open spec fn popup_rect(anchor: PhysRect, size: (i32, i32), monitor: PhysRect, gap: i32) -> PhysRect {
    PhysRect {
        x: placed(
            anchor.x as int,
            anchor.x + anchor.w - size.0,
            size.0 as int,
            monitor.x as int,
            monitor.w as int,
        ) as i32,
        y: placed(
            anchor.y + anchor.h + gap,
            anchor.y - gap - size.1,
            size.1 as int,
            monitor.y as int,
            monitor.h as int,
        ) as i32,
        w: size.0,
        h: size.1,
    }
}

/// Below the anchor where there is room, else above it.
pub fn place_popup(anchor: PhysRect, size: (i32, i32), monitor: PhysRect, gap: i32) -> (r: PhysRect)
    requires
        placeable(anchor, size, monitor, gap),
    ensures
        r == popup_rect(anchor, size, monitor, gap),
{
    let (w, h) = size;
    let mut x = anchor.x;
    if x + w > monitor.x + monitor.w {
        x = anchor.x + anchor.w - w;
    }
    if x < monitor.x {
        x = monitor.x;
    }
    if x > monitor.x + monitor.w - w {
        x = monitor.x + monitor.w - w;
    }
    let mut y = anchor.y + anchor.h + gap;
    if y + h > monitor.y + monitor.h {
        y = anchor.y - gap - h;
    }
    if y < monitor.y {
        y = monitor.y;
    }
    if y > monitor.y + monitor.h - h {
        y = monitor.y + monitor.h - h;
    }
    PhysRect { x, y, w, h }
}

/// A popup no larger than its monitor stands on it.
pub proof fn a_popup_stands_on_its_monitor(
    anchor: PhysRect,
    size: (i32, i32),
    monitor: PhysRect,
    gap: i32,
)
    requires
        placeable(anchor, size, monitor, gap),
        size.0 <= monitor.w,
        size.1 <= monitor.h,
    ensures
        ({
            let r = popup_rect(anchor, size, monitor, gap);
            &&& monitor.x <= r.x
            &&& r.x + r.w <= monitor.x + monitor.w
            &&& monitor.y <= r.y
            &&& r.y + r.h <= monitor.y + monitor.h
        }),
{
}

/// Have two rects a point in common?
pub open spec fn overlap(a: PhysRect, b: PhysRect) -> bool {
    a.x < b.x + b.w && b.x < a.x + a.w && a.y < b.y + b.h && b.y < a.y + a.h
}

/// A popup never covers its anchor, where the anchor stands on the monitor
/// and the monitor has room for the popup below the anchor and its gap, or
/// above the anchor.
pub proof fn a_popup_never_covers_its_anchor(
    anchor: PhysRect,
    size: (i32, i32),
    monitor: PhysRect,
    gap: i32,
)
    requires
        placeable(anchor, size, monitor, gap),
        gap >= 0,
        size.1 >= 0,
        monitor.y <= anchor.y,
        anchor.h >= 0,
        anchor.y + anchor.h <= monitor.y + monitor.h,
        anchor.y + anchor.h + gap + size.1 <= monitor.y + monitor.h || size.1 <= anchor.y - monitor.y,
    ensures
        !overlap(popup_rect(anchor, size, monitor, gap), anchor),
{
}

/// A popup stands a gap below its anchor and flush with its left edge where it
/// fits there; where it does not fit below it ends a gap above the anchor, and
/// where it does not fit to the right it ends with the anchor.
pub proof fn a_popup_stands_below_or_above(
    anchor: PhysRect,
    size: (i32, i32),
    monitor: PhysRect,
    gap: i32,
)
    requires
        placeable(anchor, size, monitor, gap),
    ensures
        ({
            let r = popup_rect(anchor, size, monitor, gap);
            let below = anchor.y + anchor.h + gap;
            &&& r.w == size.0
            &&& r.h == size.1
            &&& monitor.y <= below && below + size.1 <= monitor.y + monitor.h ==> r.y - gap == anchor.y
                + anchor.h
            &&& below + size.1 > monitor.y + monitor.h && monitor.y <= anchor.y - gap - size.1
                && anchor.y - gap <= monitor.y + monitor.h ==> r.y + r.h + gap == anchor.y
            &&& monitor.x <= anchor.x && anchor.x + size.0 <= monitor.x + monitor.w ==> r.x == anchor.x
            &&& anchor.x + size.0 > monitor.x + monitor.w && monitor.x <= anchor.x + anchor.w - size.0
                && anchor.x + anchor.w <= monitor.x + monitor.w ==> r.x + r.w == anchor.x + anchor.w
        }),
{
}

/// A margin moves every edge outward by itself, and a margin taken off again
/// leaves the rect as it was.
pub proof fn a_margin_goes_round_the_rect(r: PhysRect, dx: int, dy: int, p: PhysPoint)
    requires
        fits(r.x - dx),
        fits(r.y - dy),
        fits(r.w + 2 * dx),
        fits(r.h + 2 * dy),
    ensures
        r.grown(dx, dy).holds(p) <==> r.x - dx <= p.x < r.x + r.w + dx && r.y - dy <= p.y < r.y + r.h
            + dy,
        r.grown(dx, dy).grown(-dx, -dy) == r,
{
}

/// A rect that moves takes its points with it and keeps its size.
pub proof fn a_moved_rect_holds_the_moved_points(r: PhysRect, dx: int, dy: int, p: PhysPoint, q: PhysPoint)
    requires
        fits(r.x + dx),
        fits(r.y + dy),
        q.x == p.x + dx,
        q.y == p.y + dy,
    ensures
        r.moved(dx, dy).holds(q) <==> r.holds(p),
        r.moved(dx, dy).w == r.w,
        r.moved(dx, dy).h == r.h,
        r.holds(p) <==> r.x <= p.x && p.x < r.x + r.w && r.y <= p.y && p.y < r.y + r.h,
{
}

/// The bounds of some rects are no larger than they must be: each edge is that
/// of one of the rects.
pub proof fn bounds_are_tight(rects: Seq<ScanRect>)
    requires
        rects.len() > 0,
    ensures
        exists|i: int| 0 <= i < rects.len() && (#[trigger] rects[i]).rect.x == left_of(rects),
        exists|i: int| 0 <= i < rects.len() && (#[trigger] rects[i]).rect.y == top_of(rects),
        exists|i: int|
            0 <= i < rects.len() && (#[trigger] rects[i]).rect.x + rects[i].rect.w == right_of(rects),
        exists|i: int|
            0 <= i < rects.len() && (#[trigger] rects[i]).rect.y + rects[i].rect.h == bottom_of(rects),
    decreases rects.len(),
{
    let n = rects.len() - 1;
    assert(rects[n] == rects.last());
    if rects.len() > 1 {
        let front = rects.drop_last();
        bounds_are_tight(front);
        let a = choose|i: int| 0 <= i < front.len() && (#[trigger] front[i]).rect.x == left_of(front);
        let b = choose|i: int| 0 <= i < front.len() && (#[trigger] front[i]).rect.y == top_of(front);
        let c = choose|i: int|
            0 <= i < front.len() && (#[trigger] front[i]).rect.x + front[i].rect.w == right_of(front);
        let d = choose|i: int|
            0 <= i < front.len() && (#[trigger] front[i]).rect.y + front[i].rect.h == bottom_of(front);
        assert(rects[a] == front[a] && rects[b] == front[b] && rects[c] == front[c] && rects[d]
            == front[d]);
    }
}

/// A quotient rounded toward zero is within one divisor of the number, on the
/// side of zero, and changes its sign with either number.
pub proof fn a_quotient_rounds_toward_zero(a: int, b: int)
    requires
        a >= 0,
        b > 0,
    ensures
        trunc_div(a, b) * b <= a < trunc_div(a, b) * b + b,
        trunc_div(a, b) >= 0,
        trunc_div(-a, b) == -trunc_div(a, b),
        trunc_div(a, -b) == -trunc_div(a, b),
        trunc_div(-a, -b) == trunc_div(a, b),
{
    vstd::arithmetic::div_mod::lemma_fundamental_div_mod(a, b);
    vstd::arithmetic::div_mod::lemma_mod_bound(a, b);
    vstd::arithmetic::div_mod::lemma_div_pos_is_pos(a, b);
    vstd::arithmetic::mul::lemma_mul_is_commutative(a / b, b);
    if a == 0 {
        assert(0int / b == 0) by (nonlinear_arith)
            requires
                b > 0,
        ;
    }
}

/// Every point of the gap between two rects lies between them: behind the
/// upper, before the lower, and within the columns of the two.
pub proof fn the_gap_lies_between(p: PhysPoint, a: PhysRect, b: PhysRect)
    requires
        bridgeable(a, b),
        band(a, b).holds(p),
    ensures
        a.y <= b.y ==> a.y + a.h <= p.y < b.y,
        b.y < a.y ==> b.y + b.h <= p.y < a.y,
        a.x <= p.x || b.x <= p.x,
        p.x < a.x + a.w || p.x < b.x + b.w,
{
}

} // verus!
