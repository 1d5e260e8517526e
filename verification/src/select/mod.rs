//! Both platform bins use one shared Card selection model.
//!
//! Selection state lives in core, so every platform uses the same
//! containment, clipping, and coverage rules.
//!
//! A `DocAddr` is a leaf path and byte offset. A `TextAddr` identifies one
//! position in a Card. It stores that address with its flattened row ordinal.
pub mod addr;
pub mod gesture;

use crate::present::{blocks_v, gloss_entries_v, BlockV, Card, GlossEntry, GlossEntryV};
use vstd::prelude::*;

use addr::{doc_end, doc_start};

pub use addr::{DocAddr, DocRange, NodePath, SelRange, TextAddr};

verus! {

/// How much of a row or Card a selection covers.
#[derive(Debug, Clone, Copy, PartialEq, Eq, Structural)]
pub enum Coverage {
    Empty,
    Partial,
    All,
}

/// Does every range hold a position, and are the ranges in start order?
pub open spec fn kept_in_order(items: Seq<SelRange>) -> bool {
    &&& forall|i: int| 0 <= i < items.len() ==> (#[trigger] items[i]).valid()
    &&& forall|i: int, j: int|
        0 <= i < j < items.len() ==> (#[trigger] items[i]).start.at() <= (
        #[trigger] items[j]).start.at()
}

/// Does no range hold another one?
pub open spec fn none_nested(items: Seq<SelRange>) -> bool {
    forall|i: int, j: int|
        0 <= i < items.len() && 0 <= j < items.len() && i != j ==> !(#[trigger] items[i]).contains(
            #[trigger] items[j],
        )
}

/// A range put among ordered ones, behind those that start no later.
pub open spec fn put_in(items: Seq<SelRange>, item: SelRange) -> Seq<SelRange>
    decreases items.len(),
{
    if items.len() > 0 && item.start.at() < items.last().start.at() {
        put_in(items.drop_last(), item).push(items.last())
    } else {
        items.push(item)
    }
}

proof fn put_in_has(items: Seq<SelRange>, item: SelRange)
    ensures
        put_in(items, item).len() == items.len() + 1,
        forall|i: int|
            0 <= i < put_in(items, item).len() ==> items.contains(#[trigger] put_in(items, item)[i])
                || put_in(items, item)[i] == item,
        put_in(items, item).contains(item),
        forall|x: SelRange| items.contains(x) ==> #[trigger] put_in(items, item).contains(x),
    decreases items.len(),
{
    let r = put_in(items, item);
    if items.len() > 0 && item.start.at() < items.last().start.at() {
        let front = items.drop_last();
        let p = put_in(front, item);
        put_in_has(front, item);
        assert forall|i: int| 0 <= i < r.len() implies items.contains(#[trigger] r[i]) || r[i] == item by {
            if i < p.len() {
                assert(r[i] == p[i]);
                if front.contains(p[i]) {
                    let k = choose|k: int| 0 <= k < front.len() && front[k] == p[i];
                    assert(items[k] == r[i]);
                }
            } else {
                assert(items[items.len() - 1] == r[i]);
            }
        }
        let k = choose|k: int| 0 <= k < p.len() && p[k] == item;
        assert(r[k] == item);
        assert forall|x: SelRange| items.contains(x) implies #[trigger] r.contains(x) by {
            let k = choose|k: int| 0 <= k < items.len() && items[k] == x;
            if k < front.len() {
                assert(front[k] == x);
                assert(p.contains(x));
                let j = choose|j: int| 0 <= j < p.len() && p[j] == x;
                assert(r[j] == x);
            } else {
                assert(r[p.len() as int] == x);
            }
        }
    } else {
        assert forall|i: int| 0 <= i < r.len() implies items.contains(#[trigger] r[i]) || r[i] == item by {
            if i < items.len() {
                assert(items[i] == r[i]);
            }
        }
        assert(r[items.len() as int] == item);
        assert forall|x: SelRange| items.contains(x) implies #[trigger] r.contains(x) by {
            let k = choose|k: int| 0 <= k < items.len() && items[k] == x;
            assert(r[k] == x);
        }
    }
}

proof fn put_in_ordered(items: Seq<SelRange>, item: SelRange)
    requires
        kept_in_order(items),
        item.valid(),
    ensures
        kept_in_order(put_in(items, item)),
    decreases items.len(),
{
    let r = put_in(items, item);
    put_in_has(items, item);
    assert forall|i: int| 0 <= i < r.len() implies (#[trigger] r[i]).valid() by {
        if items.contains(r[i]) {
            let k = choose|k: int| 0 <= k < items.len() && items[k] == r[i];
            assert(items[k].valid());
        }
    }
    if items.len() > 0 && item.start.at() < items.last().start.at() {
        let front = items.drop_last();
        assert(kept_in_order(front));
        put_in_ordered(front, item);
        put_in_has(front, item);
        let p = put_in(front, item);
        assert forall|i: int, j: int| 0 <= i < j < r.len() implies (#[trigger] r[i]).start.at() <= (
        #[trigger] r[j]).start.at() by {
            assert(r[i] == p[i]);
            if j < p.len() {
                assert(r[j] == p[j]);
            } else if front.contains(p[i]) {
                let k = choose|k: int| 0 <= k < front.len() && front[k] == p[i];
                assert(items[k].start.at() <= items[items.len() - 1].start.at());
            }
        }
    } else {
        assert forall|i: int, j: int| 0 <= i < j < r.len() implies (#[trigger] r[i]).start.at() <= (
        #[trigger] r[j]).start.at() by {
            if j == items.len() && i < items.len() - 1 {
                assert(items[i].start.at() <= items[items.len() - 1].start.at());
            }
        }
    }
}

proof fn put_in_beside(items: Seq<SelRange>, item: SelRange)
    requires
        none_nested(items),
        forall|i: int|
            0 <= i < items.len() ==> !(#[trigger] items[i]).contains(item) && !item.contains(items[i]),
    ensures
        none_nested(put_in(items, item)),
    decreases items.len(),
{
    let r = put_in(items, item);
    if items.len() > 0 && item.start.at() < items.last().start.at() {
        let front = items.drop_last();
        let last = items[items.len() - 1];
        assert(none_nested(front));
        put_in_beside(front, item);
        put_in_has(front, item);
        let p = put_in(front, item);
        assert forall|i: int| 0 <= i < p.len() implies !(#[trigger] p[i]).contains(last)
            && !last.contains(p[i]) by {
            if front.contains(p[i]) {
                let k = choose|k: int| 0 <= k < front.len() && front[k] == p[i];
                assert(items[k] == p[i]);
            }
        }
        assert forall|i: int, j: int| 0 <= i < r.len() && 0 <= j < r.len() && i != j implies !(
        #[trigger] r[i]).contains(#[trigger] r[j]) by {
            if i < p.len() {
                assert(r[i] == p[i]);
            }
            if j < p.len() {
                assert(r[j] == p[j]);
            }
        }
    }
}

proof fn filter_beside(items: Seq<SelRange>, keep: spec_fn(SelRange) -> bool)
    requires
        none_nested(items),
    ensures
        none_nested(items.filter(keep)),
        forall|i: int| 0 <= i < items.filter(keep).len() ==> keep(#[trigger] items.filter(keep)[i]),
        forall|i: int| 0 <= i < items.filter(keep).len() ==> items.contains(#[trigger] items.filter(keep)[i]),
    decreases items.len(),
{
    reveal(Seq::filter);
    if items.len() > 0 {
        let front = items.drop_last();
        let last = items[items.len() - 1];
        assert(none_nested(front));
        filter_beside(front, keep);
        let f = front.filter(keep);
        let r = items.filter(keep);
        assert forall|i: int| 0 <= i < f.len() implies items.contains(#[trigger] f[i])
            && !f[i].contains(last) && !last.contains(f[i]) by {
            let k = choose|k: int| 0 <= k < front.len() && front[k] == f[i];
            assert(items[k] == f[i]);
        }
        assert(items.contains(last));
        assert forall|i: int, j: int| 0 <= i < r.len() && 0 <= j < r.len() && i != j implies !(
        #[trigger] r[i]).contains(#[trigger] r[j]) by {
            if i < f.len() {
                assert(r[i] == f[i]);
            }
            if j < f.len() {
                assert(r[j] == f[j]);
            }
        }
        assert forall|i: int| 0 <= i < r.len() implies keep(#[trigger] r[i]) && items.contains(r[i]) by {
            if i < f.len() {
                assert(r[i] == f[i]);
            }
        }
    }
}

proof fn removed_beside(items: Seq<SelRange>, k: int)
    requires
        none_nested(items),
        0 <= k < items.len(),
    ensures
        none_nested(items.remove(k)),
{
    let r = items.remove(k);
    assert forall|i: int, j: int| 0 <= i < r.len() && 0 <= j < r.len() && i != j implies !(
    #[trigger] r[i]).contains(#[trigger] r[j]) by {
        let a = if i < k {
            i
        } else {
            i + 1
        };
        let b = if j < k {
            j
        } else {
            j + 1
        };
        assert(!items[a].contains(items[b]));
    }
}

proof fn filter_ordered(items: Seq<SelRange>, keep: spec_fn(SelRange) -> bool)
    requires
        kept_in_order(items),
    ensures
        kept_in_order(items.filter(keep)),
        forall|i: int| 0 <= i < items.filter(keep).len() ==> items.contains(#[trigger] items.filter(keep)[i]),
    decreases items.len(),
{
    reveal(Seq::filter);
    if items.len() > 0 {
        let front = items.drop_last();
        assert(kept_in_order(front));
        filter_ordered(front, keep);
        let f = front.filter(keep);
        let r = items.filter(keep);
        assert forall|i: int| 0 <= i < r.len() implies items.contains(#[trigger] r[i]) by {
            if i < f.len() {
                assert(r[i] == f[i]);
                let k = choose|k: int| 0 <= k < front.len() && front[k] == f[i];
                assert(items[k] == r[i]);
            } else {
                assert(items[items.len() - 1] == r[i]);
            }
        }
        assert forall|i: int| 0 <= i < r.len() implies (#[trigger] r[i]).valid() by {
            let k = choose|k: int| 0 <= k < items.len() && items[k] == r[i];
            assert(items.contains(r[i]));
            assert(items[k].valid());
        }
        assert forall|i: int, j: int| 0 <= i < j < r.len() implies (#[trigger] r[i]).start.at() <= (
        #[trigger] r[j]).start.at() by {
            assert(r[i] == f[i]);
            if j < f.len() {
                assert(r[j] == f[j]);
            } else {
                assert(front.contains(f[i]));
                let k = choose|k: int| 0 <= k < front.len() && front[k] == f[i];
                assert(items[k].start.at() <= items[items.len() - 1].start.at());
            }
        }
    }
}

/// Where a range stands, or how many ranges there are.
pub open spec fn item_at(items: Seq<SelRange>, item: SelRange) -> int
    decreases items.len(),
{
    if items.len() == 0 || items[0] == item {
        0
    } else {
        1 + item_at(items.skip(1), item)
    }
}

/// Does neither range hold the other?
pub open spec fn apart(item: SelRange) -> spec_fn(SelRange) -> bool {
    |s: SelRange| !item.contains(s) && !s.contains(item)
}

/// The ranges after an additive gesture: the very same range leaves; a new
/// range takes the place of those it holds and of those that hold it.
pub open spec fn toggled(items: Seq<SelRange>, item: SelRange) -> Seq<SelRange> {
    if !item.valid() {
        items
    } else if item_at(items, item) < items.len() {
        items.remove(item_at(items, item))
    } else {
        put_in(items.filter(apart(item)), item)
    }
}

/// The ranges after a replacing gesture.
pub open spec fn alone(item: SelRange) -> Seq<SelRange> {
    if item.valid() {
        seq![item]
    } else {
        seq![]
    }
}

/// The first `n` ordered ranges, those that overlap or touch merged.
pub open spec fn merged(items: Seq<SelRange>, n: int) -> Seq<SelRange>
    decreases n,
{
    if n <= 0 {
        seq![]
    } else {
        let before = merged(items, n - 1);
        let item = items[n - 1];
        if before.len() > 0 && item.start.at() <= before.last().end.at() {
            if item.end.at() > before.last().end.at() {
                before.update(
                    before.len() - 1,
                    SelRange { start: before.last().start, end: item.end },
                )
            } else {
                before
            }
        } else {
            before.push(item)
        }
    }
}

/// The first position of a row.
pub open spec fn row_start(entry: u32) -> TextAddr {
    TextAddr { entry, addr: doc_start() }
}

/// Behind the last position of a row.
pub open spec fn row_end(entry: u32) -> TextAddr {
    TextAddr { entry, addr: doc_end() }
}

/// Does a range touch a row?
pub open spec fn touches(item: SelRange, entry: u32) -> bool {
    item.end.at() > row_start(entry).at() && item.start.at() < row_end(entry).at()
}

/// The part of a range in one row.
pub open spec fn clipped(item: SelRange, entry: u32) -> DocRange {
    DocRange {
        start: if item.start.entry < entry {
            doc_start()
        } else {
            item.start.addr
        },
        end: if item.end.entry > entry {
            doc_end()
        } else {
            item.end.addr
        },
    }
}

/// The parts of the first `n` ranges in one row.
pub open spec fn row_ranges(ranges: Seq<SelRange>, entry: u32, n: int) -> Seq<DocRange>
    decreases n,
{
    if n <= 0 {
        seq![]
    } else {
        let before = row_ranges(ranges, entry, n - 1);
        let c = clipped(ranges[n - 1], entry);
        if touches(ranges[n - 1], entry) && c.start.at() < c.end.at() {
            before.push(c)
        } else {
            before
        }
    }
}

/// The selected parts of one row.
pub open spec fn selected(items: Seq<SelRange>, entry: u32) -> Seq<DocRange> {
    let u = merged(items, items.len() as int);
    row_ranges(u, entry, u.len() as int)
}

/// Does one of the ranges hold a position?
pub open spec fn any_holds(ranges: Seq<DocRange>, p: int) -> bool {
    exists|i: int| 0 <= i < ranges.len() && (#[trigger] ranges[i]).start.at() <= p < ranges[i].end.at()
}

/// Does one of the ranges have a position of an extent?
pub open spec fn any_meets(ranges: Seq<DocRange>, extent: DocRange) -> bool {
    exists|i: int|
        0 <= i < ranges.len() && (#[trigger] ranges[i]).end.at() > extent.start.at()
            && ranges[i].start.at() < extent.end.at()
}

/// How much of an extent the ranges cover: all of it where they hold each of
/// its positions.
pub open spec fn covering(ranges: Seq<DocRange>, extent: DocRange) -> Coverage {
    if extent.start.at() >= extent.end.at() {
        Coverage::Empty
    } else if forall|p: int| extent.start.at() <= p < extent.end.at() ==> any_holds(ranges, p) {
        Coverage::All
    } else if any_meets(ranges, extent) {
        Coverage::Partial
    } else {
        Coverage::Empty
    }
}

/// The ranges after a row was switched on or off.
pub open spec fn row_set(items: Seq<SelRange>, entry: u32, extent: DocRange, on: bool) -> Seq<SelRange> {
    let rest = items.filter(|i: SelRange| !touches(i, entry));
    if on && extent.start.at() < extent.end.at() {
        put_in(
            rest,
            SelRange {
                start: TextAddr { entry, addr: extent.start },
                end: TextAddr { entry, addr: extent.end },
            },
        )
    } else {
        rest
    }
}

/// Are ranges in order with a gap between each two?
pub open spec fn separate(ranges: Seq<SelRange>) -> bool {
    &&& forall|i: int| 0 <= i < ranges.len() ==> (#[trigger] ranges[i]).valid()
    &&& forall|i: int, j: int|
        0 <= i < j < ranges.len() ==> (#[trigger] ranges[i]).end.at() < (
        #[trigger] ranges[j]).start.at()
}

proof fn merged_separate(items: Seq<SelRange>, n: int)
    requires
        kept_in_order(items),
        0 <= n <= items.len(),
    ensures
        separate(merged(items, n)),
        n > 0 ==> merged(items, n).len() > 0 && merged(items, n).last().start.at() <= items[n
            - 1].start.at(),
    decreases n,
{
    if n > 0 {
        merged_separate(items, n - 1);
        let before = merged(items, n - 1);
        let item = items[n - 1];
        let r = merged(items, n);
        assert(item.valid());
        if n > 1 {
            assert(items[n - 2].start.at() <= item.start.at());
        }
        assert forall|i: int| 0 <= i < r.len() implies (#[trigger] r[i]).valid() by {
            if i < before.len() {
                assert(before[i].valid());
            }
        }
        assert forall|i: int, j: int| 0 <= i < j < r.len() implies (#[trigger] r[i]).end.at() < (
        #[trigger] r[j]).start.at() by {
            if j < before.len() {
                assert(before[i].end.at() < before[j].start.at());
            } else {
                assert(r[j] == item);
                if i < before.len() - 1 {
                    assert(before[i].end.at() < before[before.len() - 1].start.at());
                    assert(before[before.len() - 1].valid());
                }
            }
        }
    }
}

/// Does one of the ranges hold a position?
pub open spec fn some_holds(ranges: Seq<SelRange>, n: int, p: int) -> bool {
    exists|i: int| 0 <= i < n && (#[trigger] ranges[i]).holds(p)
}

proof fn merged_same(items: Seq<SelRange>, n: int, p: int)
    requires
        kept_in_order(items),
        0 <= n <= items.len(),
    ensures
        some_holds(merged(items, n), merged(items, n).len() as int, p) == some_holds(items, n, p),
    decreases n,
{
    if n > 0 {
        merged_same(items, n - 1, p);
        merged_separate(items, n - 1);
        let before = merged(items, n - 1);
        let item = items[n - 1];
        let r = merged(items, n);
        assert(item.valid());
        if n > 1 {
            assert(items[n - 2].start.at() <= item.start.at());
        }
        if some_holds(items, n, p) {
            let k = choose|k: int| 0 <= k < n && (#[trigger] items[k]).holds(p);
            if k == n - 1 {
                assert(r[r.len() - 1].start.at() <= item.start.at());
                assert(r[r.len() - 1].holds(p));
            } else {
                assert(some_holds(items, n - 1, p));
                let j = choose|j: int| 0 <= j < before.len() && (#[trigger] before[j]).holds(p);
                assert(r[j].holds(p));
            }
        }
        if some_holds(r, r.len() as int, p) {
            let j = choose|j: int| 0 <= j < r.len() && (#[trigger] r[j]).holds(p);
            if j < before.len() && before[j].holds(p) {
                assert(some_holds(before, before.len() as int, p));
                let k = choose|k: int| 0 <= k < n - 1 && (#[trigger] items[k]).holds(p);
                assert(items[k].holds(p));
            } else {
                assert(items[n - 1].holds(p));
            }
        }
    }
}

/// The union of ordered ranges is in order, with a gap between each two, and
/// holds exactly the positions that the ranges hold.
pub proof fn a_union_covers_the_same(items: Seq<SelRange>, p: int)
    requires
        kept_in_order(items),
    ensures
        ({
            let u = merged(items, items.len() as int);
            &&& separate(u)
            &&& some_holds(u, u.len() as int, p) == some_holds(items, items.len() as int, p)
        }),
{
    merged_separate(items, items.len() as int);
    merged_same(items, items.len() as int, p);
}

proof fn item_at_bounds(items: Seq<SelRange>, item: SelRange)
    ensures
        0 <= item_at(items, item) <= items.len(),
        item_at(items, item) < items.len() ==> items[item_at(items, item)] == item,
        item_at(items, item) == items.len() ==> !items.contains(item),
    decreases items.len(),
{
    if items.len() > 0 && items[0] != item {
        item_at_bounds(items.skip(1), item);
        if items.contains(item) {
            let k = choose|k: int| 0 <= k < items.len() && items[k] == item;
            assert(items.skip(1)[k - 1] == item);
        }
    }
}

/// A valid range that was toggled in leaves when it is toggled again, and
/// what is left is what the first gesture kept beside it.
pub proof fn toggling_twice_takes_a_range_out(items: Seq<SelRange>, item: SelRange)
    requires
        kept_in_order(items),
        item.valid(),
        !items.contains(item),
    ensures
        toggled(items, item).contains(item),
        toggled(toggled(items, item), item) == items.filter(apart(item)),
{
    item_at_bounds(items, item);
    let f = items.filter(apart(item));
    let r = put_in(f, item);
    put_in_has(f, item);
    assert(!f.contains(item)) by {
        broadcast use vstd::seq_lib::group_filter_ensures;

    }
    if item_at(items, item) < items.len() {
        assert(items.contains(items[item_at(items, item)]));
    }
    item_at_bounds(r, item);
    if item_at(r, item) == r.len() {
        assert(!r.contains(item));
    }
    taken_out(f, item);
}

proof fn taken_out(f: Seq<SelRange>, item: SelRange)
    requires
        !f.contains(item),
    ensures
        item_at(put_in(f, item), item) < put_in(f, item).len(),
        put_in(f, item).remove(item_at(put_in(f, item), item)) == f,
    decreases f.len(),
{
    let r = put_in(f, item);
    put_in_has(f, item);
    item_at_bounds(r, item);
    let k = item_at(r, item);
    assert(k < r.len());
    if f.len() > 0 && item.start.at() < f.last().start.at() {
        let front = f.drop_last();
        let p = put_in(front, item);
        assert(!front.contains(item)) by {
            if front.contains(item) {
                let j = choose|j: int| 0 <= j < front.len() && front[j] == item;
                assert(f[j] == item);
            }
        }
        taken_out(front, item);
        item_at_pushed(p, f.last(), item);
        assert(r.remove(k) =~= p.remove(k).push(f.last()));
        assert(front.push(f.last()) =~= f);
    } else {
        item_at_last(f, item);
        assert(r.remove(k) =~= f);
    }
}

proof fn item_at_pushed(p: Seq<SelRange>, x: SelRange, item: SelRange)
    requires
        item_at(p, item) < p.len(),
    ensures
        item_at(p.push(x), item) == item_at(p, item),
    decreases p.len(),
{
    if p.len() > 0 && p[0] != item {
        item_at_pushed(p.skip(1), x, item);
        assert(p.push(x).skip(1) =~= p.skip(1).push(x));
    }
}

proof fn item_at_last(f: Seq<SelRange>, item: SelRange)
    requires
        !f.contains(item),
    ensures
        item_at(f.push(item), item) == f.len(),
    decreases f.len(),
{
    if f.len() > 0 {
        assert(f[0] != item);
        assert(f.push(item).skip(1) =~= f.skip(1).push(item));
        assert(!f.skip(1).contains(item)) by {
            if f.skip(1).contains(item) {
                let j = choose|j: int| 0 <= j < f.skip(1).len() && f.skip(1)[j] == item;
                assert(f[j + 1] == item);
            }
        }
        item_at_last(f.skip(1), item);
    }
}

/// The selected ranges for one Card, kept in start order. No range holds
/// another one.
#[derive(Debug, PartialEq, Eq)]
pub struct CardSelection {
    items: Vec<SelRange>,
}

impl View for CardSelection {
    type V = Seq<SelRange>;

    closed spec fn view(&self) -> Seq<SelRange> {
        self.items@
    }
}

impl Default for CardSelection {
    fn default() -> (r: Self)
        ensures
            r@ == Seq::<SelRange>::empty(),
    {
        CardSelection { items: Vec::new() }
    }
}

fn copy_items(v: &Vec<SelRange>) -> (r: Vec<SelRange>)
    ensures
        r@ == v@,
{
    let mut r: Vec<SelRange> = Vec::new();
    let mut i: usize = 0;
    while i < v.len()
        invariant
            i <= v@.len(),
            r@ == v@.take(i as int),
        decreases v@.len() - i,
    {
        r.push(v[i]);
        i += 1;
    }
    assert(v@.take(i as int) =~= v@);
    r
}

impl Clone for CardSelection {
    fn clone(&self) -> (r: Self)
        ensures
            r@ == self@,
    {
        proof {
            use_type_invariant(self);
        }
        CardSelection { items: copy_items(&self.items) }
    }
}

fn insert_item(items: &mut Vec<SelRange>, item: SelRange)
    ensures
        final(items)@ == put_in(old(items)@, item),
{
    let ghost all = items@;
    let mut k: usize = items.len();
    assert(all.take(k as int) =~= all);
    assert(put_in(all, item) =~= put_in(all.take(k as int), item) + all.skip(k as int));
    while k > 0 && item.start.before(items[k - 1].start)
        invariant
            k <= items@.len(),
            items@ == old(items)@,
            all == items@,
            put_in(all, item) == put_in(all.take(k as int), item) + all.skip(k as int),
        decreases k,
    {
        assert(all.take(k as int).drop_last() =~= all.take(k - 1));
        assert(all.take(k as int).last() == items@[k - 1]);
        assert(put_in(all.take(k - 1), item).push(all[k - 1]) + all.skip(k as int) =~= put_in(
            all.take(k - 1),
            item,
        ) + all.skip(k - 1));
        k -= 1;
    }
    proof {
        if k > 0 {
            assert(all.take(k as int).last() == items@[k - 1]);
        }
    }
    items.insert(k, item);
    assert(items@ =~= all.take(k as int).push(item) + all.skip(k as int));
}

impl CardSelection {
    #[verifier::type_invariant]
    spec fn wf(self) -> bool {
        kept_in_order(self.items@) && none_nested(self.items@)
    }

    /// Reports whether this Card has no selected range.
    pub fn is_empty(&self) -> (r: bool)
        ensures
            r == (self@.len() == 0),
    {
        self.items.len() == 0
    }

    /// Returns the selected ranges in start order.
    pub fn items(&self) -> (r: &[SelRange])
        ensures
            r@ == self@,
            kept_in_order(r@),
            none_nested(r@),
    {
        proof {
            use_type_invariant(self);
        }
        self.items.as_slice()
    }

    /// Removes every selected range from this Card.
    pub fn clear(&mut self)
        ensures
            final(self)@ == Seq::<SelRange>::empty(),
    {
        self.items = Vec::new();
    }

    /// Applies an additive selection gesture.
    ///
    /// An identical range removes the existing range. A range that contains
    /// selected ranges absorbs them. A range inside one or more selected
    /// ranges replaces those ranges. The method adds a range that intersects
    /// the existing ranges but contains none of them.
    pub fn toggle(&mut self, item: SelRange)
        ensures
            final(self)@ == toggled(old(self)@, item),
            kept_in_order(final(self)@),
            none_nested(final(self)@),
    {
        proof {
            use_type_invariant(&*self);
            item_at_bounds(self.items@, item);
        }
        if !item.is_valid() {
            return;
        }
        let ghost all = self.items@;
        let mut items = copy_items(&self.items);
        let mut k: usize = 0;
        assert(all.skip(0) =~= all);
        while k < items.len() && items[k] != item
            invariant
                k <= items@.len(),
                items@ == all,
                item_at(all, item) == k + item_at(all.skip(k as int), item),
            decreases items@.len() - k,
        {
            assert(all.skip(k as int)[0] == all[k as int]);
            assert(all.skip(k as int).skip(1) =~= all.skip(k + 1));
            k += 1;
        }
        if k < items.len() {
            assert(all.skip(k as int)[0] == all[k as int]);
            let _old = items.remove(k);
            assert(items@ =~= all.remove(k as int));
            proof {
                removed_ordered(all, k as int);
                removed_beside(all, k as int);
            }
            self.items = items;
            return;
        }
        let ghost keep = apart(item);
        let mut kept: Vec<SelRange> = Vec::new();
        assert(kept@ =~= all.take(0).filter(keep)) by {
            reveal(Seq::filter);
        }
        let mut i: usize = 0;
        while i < items.len()
            invariant
                i <= items@.len(),
                items@ == all,
                keep == apart(item),
                kept@ == all.take(i as int).filter(keep),
            decreases items@.len() - i,
        {
            proof {
                reveal(Seq::filter);
                assert(all.take(i + 1).drop_last() =~= all.take(i as int));
                assert(all.take(i + 1).last() == all[i as int]);
            }
            let s = items[i];
            if !item.is_around(s) && !s.is_around(item) {
                kept.push(s);
            }
            i += 1;
        }
        assert(all.take(i as int) =~= all);
        proof {
            filter_ordered(all, keep);
            filter_beside(all, keep);
            put_in_ordered(kept@, item);
            put_in_beside(kept@, item);
        }
        insert_item(&mut kept, item);
        self.items = kept;
    }

    /// Replaces the Card selection with one range.
    pub fn replace(&mut self, item: SelRange)
        ensures
            final(self)@ == alone(item),
    {
        let mut items: Vec<SelRange> = Vec::new();
        if item.is_valid() {
            items.push(item);
        }
        assert(items@ =~= alone(item));
        self.items = items;
    }

    /// Returns the union clipped to one row.
    pub fn entry_ranges(&self, entry: u32) -> (r: Vec<DocRange>)
        ensures
            r@ == selected(self@, entry),
    {
        let ranges = self.union();
        let first = TextAddr { entry, addr: DocAddr::start() };
        let last = TextAddr { entry, addr: DocAddr::end() };
        let mut out: Vec<DocRange> = Vec::new();
        let mut i: usize = 0;
        while i < ranges.len()
            invariant
                i <= ranges@.len(),
                first == row_start(entry),
                last == row_end(entry),
                out@ == row_ranges(ranges@, entry, i as int),
            decreases ranges@.len() - i,
        {
            let item = ranges[i];
            if first.before(item.end) && item.start.before(last) {
                let start = if item.start.entry < entry {
                    DocAddr::start()
                } else {
                    item.start.addr
                };
                let end = if item.end.entry > entry {
                    DocAddr::end()
                } else {
                    item.end.addr
                };
                if start.before(end) {
                    out.push(DocRange { start, end });
                }
            }
            i += 1;
        }
        out
    }

    /// Reports coverage of `extent` in one row.
    pub fn coverage(&self, entry: u32, extent: DocRange) -> (r: Coverage)
        ensures
            r == covering(selected(self@, entry), extent),
    {
        proof {
            use_type_invariant(self);
        }
        if !extent.start.before(extent.end) {
            return Coverage::Empty;
        }
        let ranges = self.entry_ranges(entry);
        proof {
            selected_in_order(self@, entry);
        }
        cover(&ranges, extent)
    }

    /// Removes ranges that touch row `entry`. When `on` is true, selects its
    /// whole extent.
    pub fn set_entry(&mut self, entry: u32, extent: DocRange, on: bool)
        ensures
            final(self)@ == row_set(old(self)@, entry, extent, on),
            kept_in_order(final(self)@),
            none_nested(final(self)@),
    {
        proof {
            use_type_invariant(&*self);
        }
        let ghost all = self.items@;
        let items = copy_items(&self.items);
        let ghost keep = |i: SelRange| !touches(i, entry);
        let first = TextAddr { entry, addr: DocAddr::start() };
        let last = TextAddr { entry, addr: DocAddr::end() };
        let mut kept: Vec<SelRange> = Vec::new();
        assert(kept@ =~= all.take(0).filter(keep)) by {
            reveal(Seq::filter);
        }
        let mut i: usize = 0;
        while i < items.len()
            invariant
                i <= items@.len(),
                items@ == all,
                first == row_start(entry),
                last == row_end(entry),
                keep == (|s: SelRange| !touches(s, entry)),
                kept@ == all.take(i as int).filter(keep),
            decreases items@.len() - i,
        {
            proof {
                reveal(Seq::filter);
                assert(all.take(i + 1).drop_last() =~= all.take(i as int));
                assert(all.take(i + 1).last() == all[i as int]);
            }
            let s = items[i];
            if !(first.before(s.end) && s.start.before(last)) {
                kept.push(s);
            }
            i += 1;
        }
        assert(all.take(i as int) =~= all);
        proof {
            filter_ordered(all, keep);
            filter_beside(all, keep);
        }
        if on && extent.start.before(extent.end) {
            let item = SelRange {
                start: TextAddr { entry, addr: extent.start },
                end: TextAddr { entry, addr: extent.end },
            };
            proof {
                put_in_ordered(kept@, item);
                assert forall|k: int| 0 <= k < kept@.len() implies !(#[trigger] kept@[k]).contains(item)
                    && !item.contains(kept@[k]) by {
                    assert(!touches(kept@[k], entry));
                    assert(kept@[k].valid());
                }
                put_in_beside(kept@, item);
            }
            insert_item(&mut kept, item);
        }
        self.items = kept;
    }

    /// Returns the sorted, merged ranges with no overlap.
    pub fn union(&self) -> (r: Vec<SelRange>)
        ensures
            r@ == merged(self@, self@.len() as int),
            separate(r@),
    {
        proof {
            use_type_invariant(self);
            merged_separate(self.items@, self.items@.len() as int);
        }
        let mut out: Vec<SelRange> = Vec::new();
        let mut i: usize = 0;
        while i < self.items.len()
            invariant
                i <= self.items@.len(),
                out@ == merged(self.items@, i as int),
            decreases self.items@.len() - i,
        {
            let item = self.items[i];
            let n = out.len();
            if n > 0 && !out[n - 1].end.before(item.start) {
                if out[n - 1].end.before(item.end) {
                    let last = out[n - 1];
                    out.set(n - 1, SelRange { start: last.start, end: item.end });
                }
            } else {
                out.push(item);
            }
            i += 1;
        }
        out
    }
}

proof fn removed_ordered(items: Seq<SelRange>, k: int)
    requires
        kept_in_order(items),
        0 <= k < items.len(),
    ensures
        kept_in_order(items.remove(k)),
{
    let r = items.remove(k);
    assert forall|i: int| 0 <= i < r.len() implies (#[trigger] r[i]).valid() by {
        if i < k {
            assert(items[i].valid());
        } else {
            assert(items[i + 1].valid());
        }
    }
    assert forall|i: int, j: int| 0 <= i < j < r.len() implies (#[trigger] r[i]).start.at() <= (
    #[trigger] r[j]).start.at() by {
        let a = if i < k {
            i
        } else {
            i + 1
        };
        let b = if j < k {
            j
        } else {
            j + 1
        };
        assert(items[a].start.at() <= items[b].start.at());
    }
}

/// Are parts of one row in order, and apart?
spec fn parts_in_order(ranges: Seq<DocRange>) -> bool {
    &&& forall|i: int|
        0 <= i < ranges.len() ==> (#[trigger] ranges[i]).start.at() < ranges[i].end.at()
    &&& forall|i: int, j: int|
        0 <= i < j < ranges.len() ==> (#[trigger] ranges[i]).end.at() < (
        #[trigger] ranges[j]).start.at()
}

proof fn row_ranges_in_order(ranges: Seq<SelRange>, entry: u32, n: int)
    requires
        separate(ranges),
        0 <= n <= ranges.len(),
    ensures
        parts_in_order(row_ranges(ranges, entry, n)),
        forall|i: int|
            0 <= i < row_ranges(ranges, entry, n).len() ==> part_of_first(
                ranges,
                entry,
                n,
                #[trigger] row_ranges(ranges, entry, n)[i],
            ),
    decreases n,
{
    if n > 0 {
        row_ranges_in_order(ranges, entry, n - 1);
        let before = row_ranges(ranges, entry, n - 1);
        let item = ranges[n - 1];
        let c = clipped(item, entry);
        let r = row_ranges(ranges, entry, n);
        assert(item.valid());
        assert forall|i: int| 0 <= i < r.len() implies part_of_first(
            ranges,
            entry,
            n,
            #[trigger] r[i],
        ) by {
            if i < before.len() {
                assert(part_of_first(ranges, entry, n - 1, before[i]));
                let k = choose|k: int|
                    0 <= k < n - 1 && touches(#[trigger] ranges[k], entry) && before[i] == clipped(
                        ranges[k],
                        entry,
                    );
                assert(touches(ranges[k], entry));
            } else {
                assert(touches(ranges[n - 1], entry));
            }
        }
        assert forall|i: int, j: int| 0 <= i < j < r.len() implies (#[trigger] r[i]).end.at() < (
        #[trigger] r[j]).start.at() by {
            if j < before.len() {
                assert(before[i].end.at() < before[j].start.at());
            } else {
                assert(r[j] == c);
                assert(part_of_first(ranges, entry, n - 1, before[i]));
                let k = choose|k: int|
                    0 <= k < n - 1 && touches(#[trigger] ranges[k], entry) && before[i] == clipped(
                        ranges[k],
                        entry,
                    );
                assert(ranges[k].end.at() < item.start.at());
                clip_keeps_order(ranges[k], item, entry);
            }
        }
    }
}

/// Is a part that of one of the first `n` ranges?
spec fn part_of_first(ranges: Seq<SelRange>, entry: u32, n: int, part: DocRange) -> bool {
    exists|k: int|
        0 <= k < n && touches(#[trigger] ranges[k], entry) && part == clipped(ranges[k], entry)
}

proof fn clip_keeps_order(a: SelRange, b: SelRange, entry: u32)
    requires
        a.valid(),
        b.valid(),
        touches(a, entry),
        touches(b, entry),
        a.end.at() < b.start.at(),
    ensures
        clipped(a, entry).end.at() < clipped(b, entry).start.at(),
{
}

proof fn selected_in_order(items: Seq<SelRange>, entry: u32)
    requires
        kept_in_order(items),
    ensures
        parts_in_order(selected(items, entry)),
{
    merged_separate(items, items.len() as int);
    let u = merged(items, items.len() as int);
    row_ranges_in_order(u, entry, u.len() as int);
}

proof fn row_ranges_have(ranges: Seq<SelRange>, entry: u32, n: int, k: int)
    requires
        0 <= k < n <= ranges.len(),
        touches(ranges[k], entry),
        clipped(ranges[k], entry).start.at() < clipped(ranges[k], entry).end.at(),
    ensures
        row_ranges(ranges, entry, n).contains(clipped(ranges[k], entry)),
    decreases n,
{
    let before = row_ranges(ranges, entry, n - 1);
    let r = row_ranges(ranges, entry, n);
    let c = clipped(ranges[k], entry);
    if k == n - 1 {
        assert(r[before.len() as int] == c);
    } else {
        row_ranges_have(ranges, entry, n - 1, k);
        let j = choose|j: int| 0 <= j < before.len() && before[j] == c;
        assert(r[j] == c);
    }
}

proof fn clip_holds(item: SelRange, entry: u32, p: int)
    requires
        doc_start().at() <= p < doc_end().at(),
    ensures
        item.holds(row_start(entry).at() + p) ==> touches(item, entry) && clipped(
            item,
            entry,
        ).start.at() <= p < clipped(item, entry).end.at(),
        touches(item, entry) && clipped(item, entry).start.at() <= p < clipped(item, entry).end.at()
            ==> item.holds(row_start(entry).at() + p),
{
}

/// The selected parts of a row hold exactly the positions of the row that the
/// selection holds.
pub proof fn a_row_shows_what_is_selected(items: Seq<SelRange>, entry: u32, p: int)
    requires
        kept_in_order(items),
        doc_start().at() <= p < doc_end().at(),
    ensures
        any_holds(selected(items, entry), p) == some_holds(
            items,
            items.len() as int,
            row_start(entry).at() + p,
        ),
{
    let u = merged(items, items.len() as int);
    let parts = selected(items, entry);
    let at = row_start(entry).at() + p;
    a_union_covers_the_same(items, at);
    row_ranges_in_order(u, entry, u.len() as int);
    if any_holds(parts, p) {
        let i = choose|i: int|
            0 <= i < parts.len() && (#[trigger] parts[i]).start.at() <= p < parts[i].end.at();
        assert(part_of_first(u, entry, u.len() as int, parts[i]));
        let k = choose|k: int|
            0 <= k < u.len() && touches(#[trigger] u[k], entry) && parts[i] == clipped(u[k], entry);
        clip_holds(u[k], entry, p);
        assert(u[k].holds(at));
    }
    if some_holds(u, u.len() as int, at) {
        let k = choose|k: int| 0 <= k < u.len() && (#[trigger] u[k]).holds(at);
        clip_holds(u[k], entry, p);
        row_ranges_have(u, entry, u.len() as int, k);
        let i = choose|i: int| 0 <= i < parts.len() && parts[i] == clipped(u[k], entry);
        assert(parts[i].start.at() <= p < parts[i].end.at());
    }
}

/// A row that was switched on is selected as far as its extent goes.
pub proof fn a_row_switched_on_is_all_selected(items: Seq<SelRange>, entry: u32, extent: DocRange)
    requires
        kept_in_order(items),
        extent.start.at() < extent.end.at(),
    ensures
        covering(selected(row_set(items, entry, extent, true), entry), extent) == Coverage::All,
{
    let rest = items.filter(|i: SelRange| !touches(i, entry));
    let item = SelRange {
        start: TextAddr { entry, addr: extent.start },
        end: TextAddr { entry, addr: extent.end },
    };
    let set = row_set(items, entry, extent, true);
    filter_ordered(items, |i: SelRange| !touches(i, entry));
    put_in_ordered(rest, item);
    put_in_has(rest, item);
    let k = choose|k: int| 0 <= k < set.len() && set[k] == item;
    assert forall|p: int| extent.start.at() <= p < extent.end.at() implies any_holds(
        selected(set, entry),
        p,
    ) by {
        a_row_shows_what_is_selected(set, entry, p);
        assert(set[k].holds(row_start(entry).at() + p));
    }
}

/// A row that was switched off is not selected anywhere.
pub proof fn a_row_switched_off_is_not_selected(
    items: Seq<SelRange>,
    entry: u32,
    extent: DocRange,
    other: DocRange,
)
    requires
        kept_in_order(items),
    ensures
        covering(selected(row_set(items, entry, extent, false), entry), other) == Coverage::Empty,
{
    let keep = |i: SelRange| !touches(i, entry);
    let rest = items.filter(keep);
    filter_ordered(items, keep);
    let parts = selected(rest, entry);
    assert forall|p: int| doc_start().at() <= p < doc_end().at() implies !any_holds(parts, p) by {
        broadcast use vstd::seq_lib::group_filter_ensures;

        a_row_shows_what_is_selected(rest, entry, p);
        if some_holds(rest, rest.len() as int, row_start(entry).at() + p) {
            let k = choose|k: int|
                0 <= k < rest.len() && (#[trigger] rest[k]).holds(row_start(entry).at() + p);
            clip_holds(rest[k], entry, p);
            assert(keep(rest[k]));
        }
    }
    selected_in_order(rest, entry);
    if other.start.at() < other.end.at() {
        assert(!any_holds(parts, other.start.at()));
        if any_meets(parts, other) {
            let i = choose|i: int|
                0 <= i < parts.len() && (#[trigger] parts[i]).end.at() > other.start.at()
                    && parts[i].start.at() < other.end.at();
            assert(parts[i].start.at() <= parts[i].start.at() < parts[i].end.at());
            assert(any_holds(parts, parts[i].start.at()));
        }
    }
}

fn cover(ranges: &Vec<DocRange>, extent: DocRange) -> (r: Coverage)
    requires
        parts_in_order(ranges@),
        extent.start.at() < extent.end.at(),
    ensures
        r == covering(ranges@, extent),
{
    let mut covered_to = extent.start;
    let mut meets = false;
    let ghost lo = extent.start.at();
    let ghost hi = extent.end.at();
    let mut i: usize = 0;
    while i < ranges.len()
        invariant
            i <= ranges@.len(),
            parts_in_order(ranges@),
            lo == extent.start.at(),
            hi == extent.end.at(),
            lo <= covered_to.at() < hi,
            meets == (exists|k: int|
                0 <= k < i && (#[trigger] ranges@[k]).end.at() > lo && ranges@[k].start.at() < hi),
            forall|p: int| lo <= p < covered_to.at() ==> any_holds(ranges@, p),
            forall|k: int|
                0 <= k < i ==> !((#[trigger] ranges@[k]).start.at() <= covered_to.at()
                    < ranges@[k].end.at()),
        decreases ranges@.len() - i,
    {
        let range = ranges[i];
        let ghost was = covered_to.at();
        assert(ranges@[i as int] == range);
        assert(range.start.at() < range.end.at());
        if extent.start.before(range.end) && range.start.before(extent.end) {
            meets = true;
            if !covered_to.before(range.start) {
                if covered_to.before(range.end) {
                    covered_to = range.end;
                }
                proof {
                    assert forall|p: int| lo <= p < covered_to.at() implies any_holds(ranges@, p) by {
                        if p >= was {
                            assert(ranges@[i as int].start.at() <= p < ranges@[i as int].end.at());
                        }
                    }
                }
                if !covered_to.before(extent.end) {
                    assert(covering(ranges@, extent) == Coverage::All);
                    return Coverage::All;
                }
            }
        }
        proof {
            assert forall|k: int| 0 <= k < i + 1 implies !((#[trigger] ranges@[k]).start.at()
                <= covered_to.at() < ranges@[k].end.at()) by {
                if k < i {
                    assert(ranges@[k].end.at() < ranges@[i as int].start.at());
                }
            }
        }
        i += 1;
    }
    proof {
        assert(!any_holds(ranges@, covered_to.at()));
        assert(lo <= covered_to.at() < hi);
        assert(meets == any_meets(ranges@, extent));
    }
    if meets {
        Coverage::Partial
    } else {
        Coverage::Empty
    }
}

/// Selection state for every Card in the Presentation.
///
/// The vector index is the index in its list of cards.
#[derive(Debug, PartialEq, Eq)]
pub struct Selections {
    pub cards: Vec<CardSelection>,
}

pub open spec fn selections_v(s: Seq<CardSelection>) -> Seq<Seq<SelRange>> {
    s.map_values(|c: CardSelection| c@)
}

impl Default for Selections {
    fn default() -> (r: Self)
        ensures
            r.cards@.len() == 0,
    {
        Selections { cards: Vec::new() }
    }
}

/// Card selections up to a Card, the missing ones empty.
pub open spec fn extended(cards: Seq<Seq<SelRange>>, i: int) -> Seq<Seq<SelRange>> {
    if i < cards.len() {
        cards
    } else {
        Seq::new(
            (i + 1) as nat,
            |k: int|
                if k < cards.len() {
                    cards[k]
                } else {
                    seq![]
                },
        )
    }
}

/// Coverage of a Card's row extents, taken together.
pub open spec fn card_covering(cards: Seq<Seq<SelRange>>, i: int, extents: Seq<DocRange>) -> Coverage {
    if i >= cards.len() || cards[i].len() == 0 || extents.len() == 0 {
        Coverage::Empty
    } else if forall|e: int|
        0 <= e < extents.len() ==> covering(selected(cards[i], e as u32), #[trigger] extents[e])
            == Coverage::All {
        Coverage::All
    } else {
        Coverage::Partial
    }
}

impl Selections {
    pub open spec fn v(self) -> Seq<Seq<SelRange>> {
        selections_v(self.cards@)
    }

    /// Returns the selection for Card `i` when it exists.
    pub fn card(&self, i: usize) -> (r: Option<&CardSelection>)
        ensures
            match r {
                Some(c) => i < self.v().len() && c@ == self.v()[i as int],
                None => i >= self.v().len(),
            },
    {
        if i < self.cards.len() {
            Some(&self.cards[i])
        } else {
            None
        }
    }

    /// Returns the selection for Card `i`. Extends the vector with empty Card
    /// selections when needed.
    pub fn card_mut(&mut self, i: usize) -> (r: &mut CardSelection)
        requires
            i < usize::MAX,
        ensures
            r@ == extended(old(self).v(), i as int)[i as int],
            final(self).v() == extended(old(self).v(), i as int).update(i as int, final(r)@),
    {
        let ghost was = self.v();
        while self.cards.len() <= i
            invariant
                i < usize::MAX,
                was == old(self).v(),
                was.len() <= self.cards@.len(),
                self.cards@.len() > was.len() ==> self.cards@.len() <= i + 1,
                forall|k: int|
                    0 <= k < self.cards@.len() ==> (#[trigger] self.cards@[k])@ == if k < was.len() {
                        was[k]
                    } else {
                        seq![]
                    },
            decreases i + 1 - self.cards@.len(),
        {
            self.cards.push(CardSelection::default());
        }
        assert(self.v() =~= extended(was, i as int));
        let ghost full = self.cards@;
        let r = &mut self.cards[i];
        assert(selections_v(full.update(i as int, *final(r))) =~= selections_v(full).update(
            i as int,
            final(r)@,
        ));
        r
    }

    /// Swaps two Card selections when both indexes exist.
    pub fn swap(&mut self, a: usize, b: usize)
        ensures
            final(self).v() == (if a < old(self).v().len() && b < old(self).v().len() {
                old(self).v().update(a as int, old(self).v()[b as int]).update(
                    b as int,
                    old(self).v()[a as int],
                )
            } else {
                old(self).v()
            }),
    {
        if a < self.cards.len() && b < self.cards.len() {
            let ghost was = self.v();
            let x = self.cards[a].clone();
            let y = self.cards[b].clone();
            self.cards.set(a, y);
            self.cards.set(b, x);
            assert(self.v() =~= was.update(a as int, was[b as int]).update(b as int, was[a as int]));
        }
    }

    /// Reports aggregate coverage for a Card's row extents.
    pub fn coverage_of_card(&self, i: usize, extents: &[DocRange]) -> (r: Coverage)
        requires
            extents@.len() <= 0x1_0000_0000,
        ensures
            r == card_covering(self.v(), i as int, extents@),
    {
        if i >= self.cards.len() {
            return Coverage::Empty;
        }
        let card = &self.cards[i];
        assert(self.v()[i as int] == card@);
        if card.is_empty() || extents.len() == 0 {
            return Coverage::Empty;
        }
        let mut e: usize = 0;
        while e < extents.len()
            invariant
                e <= extents@.len(),
                extents@.len() <= 0x1_0000_0000,
                extents@.len() > 0,
                i < self.v().len(),
                card@ == self.v()[i as int],
                card@.len() > 0,
                forall|k: int|
                    0 <= k < e ==> covering(selected(card@, k as u32), #[trigger] extents@[k])
                        == Coverage::All,
            decreases extents@.len() - e,
        {
            let c = card.coverage(e as u32, extents[e]);
            if c != Coverage::All {
                assert(covering(selected(card@, e as u32), extents@[e as int]) != Coverage::All);
                return Coverage::Partial;
            }
            e += 1;
        }
        Coverage::All
    }
}

/// Swapping two Card selections twice restores them.
pub proof fn swapping_selections_twice_restores_them(cards: Seq<Seq<SelRange>>, a: int, b: int)
    requires
        0 <= a < cards.len(),
        0 <= b < cards.len(),
    ensures
        ({
            let once = cards.update(a, cards[b]).update(b, cards[a]);
            once.update(a, once[b]).update(b, once[a]) == cards
        }),
{
    let once = cards.update(a, cards[b]).update(b, cards[a]);
    assert(once.update(a, once[b]).update(b, once[a]) =~= cards);
}

/// The rows of the first `n` blocks, in display order.
pub open spec fn rows_upto(blocks: Seq<BlockV>, n: int) -> Seq<GlossEntryV>
    decreases n,
{
    if n <= 0 {
        seq![]
    } else {
        rows_upto(blocks, n - 1) + blocks[n - 1].entries
    }
}

/// The rows of a Card, in display order.
pub open spec fn rows_of(blocks: Seq<BlockV>) -> Seq<GlossEntryV> {
    rows_upto(blocks, blocks.len() as int)
}

pub open spec fn numbered_v(s: Seq<(u32, &GlossEntry)>) -> Seq<(u32, GlossEntryV)> {
    s.map_values(|p: (u32, &GlossEntry)| (p.0, p.1.v()))
}

/// Rows with their ordinals.
pub open spec fn numbered(rows: Seq<GlossEntryV>) -> Seq<(u32, GlossEntryV)> {
    Seq::new(rows.len(), |i: int| (i as u32, rows[i]))
}

proof fn rows_grow(blocks: Seq<BlockV>, m: int, n: int)
    requires
        0 <= m <= n <= blocks.len(),
    ensures
        rows_upto(blocks, m).len() <= rows_upto(blocks, n).len(),
    decreases n - m,
{
    if m < n {
        rows_grow(blocks, m, n - 1);
    }
}

/// Lists each row in the order of its block and its position in that block.
pub fn entries(card: &Card) -> (r: Vec<(u32, &GlossEntry)>)
    requires
        rows_of(card.v().blocks).len() <= 0x1_0000_0000,
    ensures
        numbered_v(r@) == numbered(rows_of(card.v().blocks)),
{
    let ghost bs = blocks_v(card.blocks@);
    let mut out: Vec<(u32, &GlossEntry)> = Vec::new();
    let mut n: u64 = 0;
    assert(numbered_v(out@) =~= numbered(rows_upto(bs, 0)));
    let mut b: usize = 0;
    while b < card.blocks.len()
        invariant
            b <= card.blocks@.len(),
            bs == blocks_v(card.blocks@),
            rows_upto(bs, bs.len() as int).len() <= 0x1_0000_0000,
            n == out@.len(),
            numbered_v(out@) == numbered(rows_upto(bs, b as int)),
        decreases card.blocks@.len() - b,
    {
        let block = &card.blocks[b];
        let ghost es = gloss_entries_v(block.entries@);
        let ghost base = rows_upto(bs, b as int);
        assert(bs[b as int].entries == es);
        proof {
            rows_grow(bs, b + 1, bs.len() as int);
            assert(base + es.take(0) =~= base);
            assert(numbered_v(out@).len() == out@.len());
        }
        let mut k: usize = 0;
        while k < block.entries.len()
            invariant
                k <= block.entries@.len(),
                es == gloss_entries_v(block.entries@),
                base.len() + es.len() <= 0x1_0000_0000,
                n == out@.len(),
                n == base.len() + k,
                numbered_v(out@) == numbered(base + es.take(k as int)),
            decreases block.entries@.len() - k,
        {
            let ghost before = numbered_v(out@);
            out.push((n as u32, &block.entries[k]));
            n = n + 1;
            proof {
                let rows = base + es.take(k + 1);
                assert(rows =~= (base + es.take(k as int)).push(es[k as int]));
                assert(numbered_v(out@) =~= before.push(((n - 1) as u32, es[k as int])));
                assert(numbered(rows) =~= numbered(base + es.take(k as int)).push(
                    ((n - 1) as u32, es[k as int]),
                ));
            }
            k += 1;
        }
        assert(es.take(k as int) =~= es);
        b += 1;
    }
    out
}

/// Switching a range takes every range out that holds it or that it holds, and
/// puts it in; a range that is there already is taken out alone.
pub proof fn a_toggle_leaves_what_it_does_not_nest_with(
    items: Seq<SelRange>,
    item: SelRange,
    x: SelRange,
)
    requires
        kept_in_order(items),
        none_nested(items),
        item.valid(),
    ensures
        !items.contains(item) ==> (toggled(items, item).contains(x) <==> x == item || (items.contains(
            x,
        ) && !(item.start.at() <= x.start.at() && x.end.at() <= item.end.at()) && !(x.start.at()
            <= item.start.at() && item.end.at() <= x.end.at()))),
        items.contains(item) ==> (toggled(items, item).contains(x) <==> x != item && items.contains(
            x,
        )),
{
    item_at_bounds(items, item);
    let k = item_at(items, item);
    if items.contains(item) {
        let r = toggled(items, item);
        assert(r == items.remove(k));
        if r.contains(x) {
            let j = choose|j: int| 0 <= j < r.len() && r[j] == x;
            let i = if j < k {
                j
            } else {
                j + 1
            };
            assert(items[i] == x);
            if x == item {
                assert(items[i].contains(items[k]));
            }
        }
        if x != item && items.contains(x) {
            let i = choose|i: int| 0 <= i < items.len() && items[i] == x;
            assert(i != k);
            if i < k {
                assert(r[i] == x);
            } else {
                assert(r[i - 1] == x);
            }
        }
    } else {
        if k < items.len() {
            assert(items.contains(items[k]));
        }
        let f = items.filter(apart(item));
        put_in_has(f, item);
        put_in_keeps(f, item, x);
        if f.contains(x) {
            items.lemma_filter_contains_rev(apart(item), x);
            broadcast use vstd::seq_lib::group_filter_ensures;

            let i = choose|i: int| 0 <= i < f.len() && f[i] == x;
            assert(apart(item)(f[i]));
        }
        if items.contains(x) && apart(item)(x) {
            let i = choose|i: int| 0 <= i < items.len() && items[i] == x;
            items.lemma_filter_contains(apart(item), i);
        }
    }
}

proof fn put_in_keeps(items: Seq<SelRange>, item: SelRange, x: SelRange)
    ensures
        put_in(items, item).contains(x) <==> x == item || items.contains(x),
    decreases items.len(),
{
    let r = put_in(items, item);
    if items.len() > 0 && item.start.at() < items.last().start.at() {
        let front = items.drop_last();
        let p = put_in(front, item);
        put_in_keeps(front, item, x);
        if r.contains(x) {
            let j = choose|j: int| 0 <= j < r.len() && r[j] == x;
            if j < p.len() {
                assert(p[j] == x);
                if front.contains(x) {
                    let i = choose|i: int| 0 <= i < front.len() && front[i] == x;
                    assert(items[i] == x);
                }
            } else {
                assert(items[items.len() - 1] == x);
            }
        }
        if x == item || items.contains(x) {
            if items.contains(x) {
                let i = choose|i: int| 0 <= i < items.len() && items[i] == x;
                if i < front.len() {
                    assert(front[i] == x);
                } else {
                    assert(r[p.len() as int] == x);
                }
            }
            if p.contains(x) {
                let j = choose|j: int| 0 <= j < p.len() && p[j] == x;
                assert(r[j] == x);
            }
        }
    } else {
        if r.contains(x) {
            let j = choose|j: int| 0 <= j < r.len() && r[j] == x;
            if j < items.len() {
                assert(items[j] == x);
            }
        }
        if x == item {
            assert(r[items.len() as int] == x);
        }
        if items.contains(x) {
            let i = choose|i: int| 0 <= i < items.len() && items[i] == x;
            assert(r[i] == x);
        }
    }
}

/// Setting a row leaves every range that does not reach into the row, takes
/// every other one out, and puts the row's extent in where it is switched on.
pub proof fn setting_a_row_leaves_the_others(
    items: Seq<SelRange>,
    entry: u32,
    extent: DocRange,
    on: bool,
    x: SelRange,
)
    ensures
        row_set(items, entry, extent, on).contains(x) <==> {
            ||| items.contains(x) && !(row_start(entry).at() < x.end.at() && x.start.at() < row_end(
                entry,
            ).at())
            ||| on && extent.start.at() < extent.end.at() && x.start.entry == entry && x.end.entry
                == entry && x.start.addr == extent.start && x.end.addr == extent.end
        },
{
    let keep = |i: SelRange| !touches(i, entry);
    let rest = items.filter(keep);
    let item = SelRange {
        start: TextAddr { entry, addr: extent.start },
        end: TextAddr { entry, addr: extent.end },
    };
    put_in_keeps(rest, item, x);
    if rest.contains(x) {
        items.lemma_filter_contains_rev(keep, x);
        broadcast use vstd::seq_lib::group_filter_ensures;

        let i = choose|i: int| 0 <= i < rest.len() && rest[i] == x;
        assert(keep(rest[i]));
    }
    if items.contains(x) && keep(x) {
        let i = choose|i: int| 0 <= i < items.len() && items[i] == x;
        items.lemma_filter_contains(keep, i);
    }
}

/// A row is partly selected where some of its positions are selected and some
/// are not, and not at all where none is.
pub proof fn a_part_is_some_and_not_all(ranges: Seq<DocRange>, extent: DocRange)
    requires
        extent.start.at() < extent.end.at(),
        forall|i: int| 0 <= i < ranges.len() ==> (#[trigger] ranges[i]).start.at() < ranges[i].end.at(),
    ensures
        covering(ranges, extent) == Coverage::Empty <==> forall|p: int|
            extent.start.at() <= p < extent.end.at() ==> !#[trigger] any_holds(ranges, p),
        covering(ranges, extent) == Coverage::All <==> forall|p: int|
            extent.start.at() <= p < extent.end.at() ==> #[trigger] any_holds(ranges, p),
{
    let s = extent.start.at();
    assert(s < extent.end.at());
    if any_meets(ranges, extent) {
        let i = choose|i: int|
            0 <= i < ranges.len() && (#[trigger] ranges[i]).end.at() > s && ranges[i].start.at()
                < extent.end.at();
        let p = if ranges[i].start.at() > s {
            ranges[i].start.at()
        } else {
            s
        };
        assert(ranges[i].start.at() <= p < ranges[i].end.at());
        assert(any_holds(ranges, p));
    }
    if exists|p: int| s <= p < extent.end.at() && #[trigger] any_holds(ranges, p) {
        let p = choose|p: int| s <= p < extent.end.at() && #[trigger] any_holds(ranges, p);
        let i = choose|i: int|
            0 <= i < ranges.len() && (#[trigger] ranges[i]).start.at() <= p < ranges[i].end.at();
        assert(ranges[i].end.at() > s && ranges[i].start.at() < extent.end.at());
        assert(any_meets(ranges, extent));
    }
    if forall|p: int| s <= p < extent.end.at() ==> #[trigger] any_holds(ranges, p) {
        assert(any_holds(ranges, s));
    }
}

/// The rows of a card are those of its blocks, one block behind the other, each
/// under the number of rows before it.
pub proof fn rows_are_numbered_through(blocks: Seq<BlockV>, b: int, e: int, n: int)
    requires
        0 <= b < n <= blocks.len(),
        0 <= e < blocks[b].entries.len(),
    ensures
        0 <= rows_upto(blocks, b).len() + e < rows_upto(blocks, n).len(),
        rows_upto(blocks, n)[rows_upto(blocks, b).len() + e] == blocks[b].entries[e],
    decreases n - b,
{
    if b < n - 1 {
        rows_are_numbered_through(blocks, b, e, n - 1);
    }
}

} // verus!
