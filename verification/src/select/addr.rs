//! Addresses in a card's text.
use vstd::prelude::*;

verus! {

/// The place of a node in its document.
///
/// A path is a number: a child's number is its parent's plus a multiple of
/// the parent's step, so the numbers stand in document order.
#[derive(Debug, Clone, Copy, PartialEq, Eq, PartialOrd, Ord, Hash, Structural)]
pub struct NodePath {
    pub code: u128,
    pub step: u128,
}

/// The number of children that a node can have.
pub const MAX_CHILDREN: u32 = 255;

/// The path of the document itself.
pub open spec fn root_path() -> NodePath {
    NodePath { code: 0, step: 0x0100_0000_0000_0000_0000_0000_0000_0000 }
}

/// Before every address of a document.
pub open spec fn doc_start() -> DocAddr {
    DocAddr { path: root_path(), byte: 0 }
}

/// Behind every address of a document.
pub open spec fn doc_end() -> DocAddr {
    DocAddr { path: NodePath { code: u128::MAX, step: 0 }, byte: u32::MAX }
}

impl NodePath {
    /// The path of the document itself.
    pub fn root() -> (r: NodePath)
        ensures
            r == root_path(),
    {
        NodePath { code: 0, step: 0x0100_0000_0000_0000_0000_0000_0000_0000 }
    }

    /// The number of a child.
    pub open spec fn child_code(self, index: int) -> int {
        self.code + (index + 1) * self.step
    }

    /// Behind the last number of the node's descendants.
    pub open spec fn reach(self) -> int {
        self.code + 256 * self.step
    }

    /// The path of a child, where it can be told apart from every other node.
    pub fn child(self, index: u32) -> (r: Option<NodePath>)
        ensures
            match r {
                None => self.step == 0 || index >= MAX_CHILDREN || self.child_code(index as int)
                    > u128::MAX,
                Some(c) => {
                    &&& self.step > 0
                    &&& index < MAX_CHILDREN
                    &&& c.code == self.child_code(index as int)
                    &&& c.step == self.step / 256
                },
            },
    {
        if self.step == 0 || index >= MAX_CHILDREN {
            return None;
        }
        let n: u128 = index as u128 + 1;
        match n.checked_mul(self.step) {
            None => {
                assert(self.child_code(index as int) > u128::MAX);
                None
            },
            Some(m) => match self.code.checked_add(m) {
                None => None,
                Some(code) => Some(NodePath { code, step: self.step / 256 }),
            },
        }
    }
}

/// A child stands behind its parent and before whatever follows the parent's
/// descendants, and its own descendants stand before its next sibling.
pub proof fn paths_stand_in_document_order(p: NodePath, index: int, c: NodePath)
    requires
        p.step > 0,
        0 <= index < MAX_CHILDREN,
        c.code == p.child_code(index),
        c.step == p.step / 256,
    ensures
        p.code < c.code < p.reach(),
        c.reach() <= p.child_code(index + 1) <= p.reach(),
{
    let s = p.step as int;
    assert((index + 1) * s >= s) by (nonlinear_arith)
        requires
            index >= 0,
            s > 0,
    ;
    assert((index + 1) * s < 256 * s) by (nonlinear_arith)
        requires
            index + 1 < 256,
            s > 0,
    ;
    assert((index + 2) * s == (index + 1) * s + s) by (nonlinear_arith);
    assert((index + 2) * s <= 256 * s) by (nonlinear_arith)
        requires
            index + 2 <= 256,
            s > 0,
    ;
    assert(256 * (s / 256) <= s);
}

/// A leaf and a byte of its text.
#[derive(Debug, Clone, Copy, PartialEq, Eq, PartialOrd, Ord, Structural)]
pub struct DocAddr {
    pub path: NodePath,
    pub byte: u32,
}

impl DocAddr {
    /// Before every address of a document.
    pub fn start() -> (r: DocAddr)
        ensures
            r == doc_start(),
    {
        DocAddr { path: NodePath::root(), byte: 0 }
    }

    /// Behind every address of a document.
    pub fn end() -> (r: DocAddr)
        ensures
            r == doc_end(),
    {
        DocAddr { path: NodePath { code: u128::MAX, step: 0 }, byte: u32::MAX }
    }

    /// Where the address stands in its document.
    pub open spec fn at(self) -> int {
        self.path.code * 0x1_0000_0000 + self.byte
    }

    pub fn before(self, other: DocAddr) -> (r: bool)
        ensures
            r == (self.at() < other.at()),
    {
        if self.path.code != other.path.code {
            self.path.code < other.path.code
        } else {
            self.byte < other.byte
        }
    }
}

/// A half-open range of one document.
#[derive(Debug, Clone, Copy, PartialEq, Eq, Structural)]
pub struct DocRange {
    pub start: DocAddr,
    pub end: DocAddr,
}

/// One position in the current Card.
///
/// `entry` is the row's ordinal in flattened display order. `addr` is a
/// document-order address within that row's tree.
#[derive(Debug, Clone, Copy, PartialEq, Eq, PartialOrd, Ord, Structural)]
pub struct TextAddr {
    pub entry: u32,
    pub addr: DocAddr,
}

impl TextAddr {
    /// Where the position stands in its Card.
    pub open spec fn at(self) -> int {
        self.entry * 0x1_0000_0000_0000_0000_0000_0000_0000_0000_0000_0000int + self.addr.at()
    }

    pub fn before(self, other: TextAddr) -> (r: bool)
        ensures
            r == (self.at() < other.at()),
    {
        if self.entry != other.entry {
            self.entry < other.entry
        } else {
            self.addr.before(other.addr)
        }
    }
}

/// A half-open selected range.
///
/// A CardSelection stores only ranges that hold a position.
#[derive(Debug, Clone, Copy, PartialEq, Eq, Structural)]
pub struct SelRange {
    pub start: TextAddr,
    pub end: TextAddr,
}

impl SelRange {
    /// Does the range hold a position at all?
    pub open spec fn valid(self) -> bool {
        self.start.at() < self.end.at()
    }

    pub open spec fn holds(self, p: int) -> bool {
        self.start.at() <= p < self.end.at()
    }

    /// Does the range hold another one?
    pub open spec fn contains(self, inner: SelRange) -> bool {
        self.start.at() <= inner.start.at() && inner.end.at() <= self.end.at()
    }

    pub fn is_valid(self) -> (r: bool)
        ensures
            r == self.valid(),
    {
        self.start.before(self.end)
    }

    pub fn is_around(self, inner: SelRange) -> (r: bool)
        ensures
            r == self.contains(inner),
    {
        !inner.start.before(self.start) && !self.end.before(inner.end)
    }
}

/// Positions stand in the order of their rows, within a row in the order of
/// their nodes, and within a node in the order of their bytes.
pub proof fn positions_stand_row_by_row(a: TextAddr, b: TextAddr)
    ensures
        a.at() < b.at() <==> {
            ||| a.entry < b.entry
            ||| a.entry == b.entry && a.addr.path.code < b.addr.path.code
            ||| a.entry == b.entry && a.addr.path.code == b.addr.path.code && a.addr.byte < b.addr.byte
        },
{
}

} // verus!
