//! Compiled selectors matched against a gloss tree.
use super::select::{
    compounds_v, simples_v, tests_v, Combinator, Compound, CompoundV, Nth, Pseudo,
    PseudoV, Simple, SimpleV, Test, TestV,
};
use crate::chars::{chars_of, is_ascii_upper, same_chars, to_lower_char, to_upper_char};
use crate::dict::gloss::{scalar_str, DocV, GlossDoc, Kind, Node, NodeV, ScalarV, Tag};
use vstd::prelude::*;

verus! {

// ---- attribute names ----

/// A text with a hyphen before each ASCII capital, which becomes small.
pub open spec fn dashed(s: Seq<char>) -> Seq<char>
    decreases s.len(),
{
    if s.len() == 0 {
        seq![]
    } else if crate::chars::ascii_upper(s.last()) {
        dashed(s.drop_last()) + seq!['-', crate::chars::lower_char(s.last())]
    } else {
        dashed(s.drop_last()).push(s.last())
    }
}

/// The attribute that derives from a `data` key: `data-sc`, then the key with
/// its first letter capital, dashed. `content` becomes `data-sc-content`,
/// `BM` becomes `data-sc-b-m`, and a CJK key has no separating hyphen.
pub open spec fn attr_of(key: Seq<char>) -> Seq<char> {
    if key.len() == 0 {
        "data-sc"@
    } else {
        "data-sc"@ + dashed(key.update(0, crate::chars::upper_char(key[0])))
    }
}

/// The attribute name of a `data` key.
pub fn dataset_attr(key: &str) -> (r: Vec<char>)
    ensures
        r@ == attr_of(key@),
{
    let k = chars_of(key);
    let prefix = chars_of("data-sc");
    let mut out = prefix;
    if k.len() == 0 {
        return out;
    }
    let ghost head = key@.update(0, crate::chars::upper_char(key@[0]));
    let mut i: usize = 0;
    assert("data-sc"@ + dashed(head.take(0)) =~= "data-sc"@);
    while i < k.len()
        invariant
            i <= k@.len(),
            k@ == key@,
            k@.len() > 0,
            head == key@.update(0, crate::chars::upper_char(key@[0])),
            out@ == "data-sc"@ + dashed(head.take(i as int)),
        decreases k@.len() - i,
    {
        let c = if i == 0 {
            to_upper_char(k[0])
        } else {
            k[i]
        };
        let ghost before = out@;
        assert(head.take(i + 1).drop_last() =~= head.take(i as int));
        assert(head.take(i + 1).last() == c);
        if is_ascii_upper(c) {
            out.push('-');
            out.push(to_lower_char(c));
            assert(out@ =~= "data-sc"@ + (dashed(head.take(i as int)) + seq![
                '-',
                crate::chars::lower_char(c),
            ]));
        } else {
            out.push(c);
            assert(out@ =~= "data-sc"@ + dashed(head.take(i as int)).push(c));
        }
        i += 1;
    }
    assert(head.take(i as int) =~= head);
    out
}

// ---- positions ----

/// A node's position among its siblings, 1-based as CSS counts, each number
/// held at the top of its type.
#[derive(Clone, Copy, Debug, PartialEq, Eq, Structural)]
pub struct Pos {
    pub child: u16,
    pub children: u16,
    /// Among siblings sharing this node's tag.
    pub of_type: u16,
    pub of_types: u16,
}

pub open spec fn held(n: nat) -> u16 {
    if n < 0xffff {
        n as u16
    } else {
        0xffff
    }
}

/// How many of the first `n` siblings have a tag.
pub open spec fn tagged(doc: DocV, sibs: Seq<usize>, tag: Tag, n: int) -> nat
    decreases n,
{
    if n <= 0 {
        0
    } else {
        tagged(doc, sibs, tag, n - 1) + (if doc.nodes[sibs[n - 1] as int].tag == tag {
            1nat
        } else {
            0nat
        })
    }
}

/// The position of one of a list of siblings.
pub open spec fn pos_of(doc: DocV, sibs: Seq<usize>, ix: int) -> Pos {
    let tag = doc.nodes[sibs[ix] as int].tag;
    Pos {
        child: held((ix + 1) as nat),
        children: held(sibs.len()),
        of_type: held(tagged(doc, sibs, tag, ix + 1)),
        of_types: held(tagged(doc, sibs, tag, sibs.len() as int)),
    }
}

fn count_tag(doc: &GlossDoc, sibs: &[usize], tag: Tag, n: usize) -> (r: u16)
    requires
        n <= sibs@.len(),
        forall|k: int| 0 <= k < sibs@.len() ==> #[trigger] sibs@[k] < doc@.nodes.len(),
    ensures
        r == held(tagged(doc@, sibs@, tag, n as int)),
{
    let mut c: u16 = 0;
    let mut i: usize = 0;
    while i < n
        invariant
            i <= n <= sibs@.len(),
            forall|k: int| 0 <= k < sibs@.len() ==> #[trigger] sibs@[k] < doc@.nodes.len(),
            c == held(tagged(doc@, sibs@, tag, i as int)),
        decreases n - i,
    {
        if doc.node(sibs[i]).tag == tag {
            c = c.saturating_add(1);
        }
        i += 1;
    }
    c
}

fn held_of(n: usize) -> (r: u16)
    ensures
        r == held(n as nat),
{
    if n < 0xffff {
        n as u16
    } else {
        0xffff
    }
}

/// The position of one of a list of siblings.
pub fn position(doc: &GlossDoc, sibs: &[usize], ix: usize) -> (r: Pos)
    requires
        ix < sibs@.len(),
        forall|k: int| 0 <= k < sibs@.len() ==> #[trigger] sibs@[k] < doc@.nodes.len(),
    ensures
        r == pos_of(doc@, sibs@, ix as int),
{
    let tag = doc.node(sibs[ix]).tag;
    Pos {
        child: held_of(ix + 1),
        children: held_of(sibs.len()),
        of_type: count_tag(doc, sibs, tag, ix + 1),
        of_types: count_tag(doc, sibs, tag, sibs.len()),
    }
}

/// Does a 1-based sibling position satisfy `An+B`: is it `A * k + B` for some
/// `k` that is not negative?
pub open spec fn nth_holds(n: Nth, pos: u16) -> bool {
    exists|k: int| k >= 0 && pos == #[trigger] (n.a * k) + n.b
}

impl Nth {
    fn holds(self, pos: u16) -> (r: bool)
        ensures
            r == nth_holds(self, pos),
    {
        let off: i64 = pos as i64 - self.b as i64;
        let a: i64 = self.a as i64;
        if a == 0 {
            proof {
                if off == 0 {
                    assert(pos == (self.a * 0) + self.b) by (nonlinear_arith)
                        requires
                            pos == self.b,
                    ;
                }
                assert forall|k: int| k >= 0 && pos == #[trigger] (self.a * k) + self.b implies off
                    == 0 by {
                    assert(self.a * k == 0) by (nonlinear_arith)
                        requires
                            self.a == 0,
                    ;
                }
            }
            off == 0
        } else if a > 0 {
            if off < 0 {
                assert forall|k: int| k >= 0 implies pos != #[trigger] (self.a * k) + self.b by {
                    assert(self.a * k >= 0) by (nonlinear_arith)
                        requires
                            self.a > 0,
                            k >= 0,
                    ;
                }
                return false;
            }
            let r = (off as u64) % (a as u64) == 0;
            proof {
                divides(off as int, a as int);
                if r {
                    let k = off as int / a as int;
                    assert(pos == (self.a * k) + self.b);
                }
                assert forall|k: int| k >= 0 && pos == #[trigger] (self.a * k) + self.b implies r by {
                    multiple(a as int, k);
                }
            }
            r
        } else {
            if off > 0 {
                assert forall|k: int| k >= 0 implies pos != #[trigger] (self.a * k) + self.b by {
                    assert(self.a * k <= 0) by (nonlinear_arith)
                        requires
                            self.a < 0,
                            k >= 0,
                    ;
                }
                return false;
            }
            let up: u64 = (-off) as u64;
            let step: u64 = (-a) as u64;
            let r = up % step == 0;
            proof {
                divides(up as int, step as int);
                if r {
                    let k = up as int / step as int;
                    assert(self.a * k == -(step * k)) by (nonlinear_arith)
                        requires
                            self.a == -(step as int),
                    ;
                    assert(pos == (self.a * k) + self.b);
                }
                assert forall|k: int| k >= 0 && pos == #[trigger] (self.a * k) + self.b implies r by {
                    assert(self.a * k == -(step * k)) by (nonlinear_arith)
                        requires
                            self.a == -(step as int),
                    ;
                    multiple(step as int, k);
                }
            }
            r
        }
    }
}

proof fn divides(x: int, a: int)
    requires
        x >= 0,
        a > 0,
    ensures
        x % a == 0 ==> x == a * (x / a) && x / a >= 0,
{
    vstd::arithmetic::div_mod::lemma_fundamental_div_mod(x, a);
    vstd::arithmetic::div_mod::lemma_div_pos_is_pos(x, a);
}

proof fn multiple(a: int, k: int)
    requires
        a > 0,
    ensures
        (a * k) % a == 0,
{
    vstd::arithmetic::div_mod::lemma_mod_multiples_basic(k, a);
    assert(a * k == k * a) by (nonlinear_arith);
}

// ---- matching ----

/// One link of the chain from an item down to a node.
#[derive(Clone, Copy, Debug, PartialEq, Eq, Structural)]
pub struct Step {
    pub id: usize,
    pub pos: Pos,
}

/// Does one `data` pair satisfy an attribute test?
pub open spec fn pair_matches(pair: (Seq<char>, ScalarV), t: TestV) -> bool {
    attr_of(pair.0) == t.attr && match t.value {
        Some(v) => pair.1 == ScalarV::Text(v),
        None => true,
    }
}

/// Does some `data` pair of the node satisfy an attribute test?
pub open spec fn test_matches(node: NodeV, t: TestV) -> bool {
    exists|j: int| 0 <= j < node.data.len() && pair_matches(#[trigger] node.data[j], t)
}

pub open spec fn all_match(node: NodeV, tests: Seq<TestV>) -> bool {
    forall|k: int| 0 <= k < tests.len() ==> test_matches(node, #[trigger] tests[k])
}

pub open spec fn simple_matches(node: NodeV, s: SimpleV) -> bool {
    (s.tag == Tag::Untagged || node.tag == s.tag) && all_match(node, s.tests)
}

pub open spec fn any_simple(node: NodeV, sims: Seq<SimpleV>) -> bool {
    exists|k: int| 0 <= k < sims.len() && simple_matches(node, #[trigger] sims[k])
}

/// Does some child of the node match?
pub open spec fn child_matches(doc: DocV, id: int, s: SimpleV) -> bool {
    exists|k: int|
        0 <= k < doc.nodes[id].children.len() && simple_matches(
            doc.nodes[#[trigger] doc.nodes[id].children[k] as int],
            s,
        )
}

/// Does any node under `id` match?
pub open spec fn descendant_matches(doc: DocV, id: int, s: SimpleV) -> bool
    decreases doc.nodes.len() - id,
{
    exists|k: int|
        #![trigger doc.nodes[id].children[k]]
        0 <= k < doc.nodes[id].children.len() && id < doc.nodes[id].children[k] < doc.nodes.len() && (
        simple_matches(doc.nodes[doc.nodes[id].children[k] as int], s) || descendant_matches(
            doc,
            doc.nodes[id].children[k] as int,
            s,
        ))
}

/// Does a `:has` argument match a child or a descendant, as it asks?
pub open spec fn reaches(doc: DocV, id: int, s: SimpleV) -> bool {
    match s.rel {
        Combinator::Child => child_matches(doc, id, s),
        Combinator::Descendant => descendant_matches(doc, id, s),
    }
}

pub open spec fn any_reaches(doc: DocV, id: int, sims: Seq<SimpleV>) -> bool {
    exists|k: int| 0 <= k < sims.len() && reaches(doc, id, #[trigger] sims[k])
}

/// The position counted from the end.
pub open spec fn from_end(pos: u16, of: u16) -> u16 {
    (of + 1 - (if pos < of {
        pos
    } else {
        of
    })) as u16
}

pub open spec fn pseudo_matches(doc: DocV, step: Step, p: PseudoV) -> bool {
    let pos = step.pos;
    let node = doc.nodes[step.id as int];
    match p {
        PseudoV::FirstChild => pos.child == 1,
        PseudoV::LastChild => pos.child == pos.children && pos.children > 0,
        PseudoV::FirstOfType => pos.of_type == 1,
        PseudoV::LastOfType => pos.of_type == pos.of_types && pos.of_types > 0,
        PseudoV::NthChild(n) => nth_holds(n, pos.child),
        PseudoV::NthLastChild(n) => nth_holds(n, from_end(pos.child, pos.children)),
        PseudoV::NthOfType(n) => nth_holds(n, pos.of_type),
        PseudoV::NthLastOfType(n) => nth_holds(n, from_end(pos.of_type, pos.of_types)),
        PseudoV::Is(sims) => any_simple(node, sims),
        PseudoV::Not(sims) => !any_simple(node, sims),
        PseudoV::Has(sims) => any_reaches(doc, step.id as int, sims),
    }
}

pub open spec fn compound_matches(doc: DocV, step: Step, c: CompoundV) -> bool {
    let node = doc.nodes[step.id as int];
    &&& c.tag == Tag::Untagged || node.tag == c.tag
    &&& all_match(node, c.tests)
    &&& forall|k: int| 0 <= k < c.pseudos.len() ==> pseudo_matches(doc, step, #[trigger] c.pseudos[k])
}

/// Do the first `n` compounds match the chain, the last of them at its link
/// `pi`?
pub open spec fn matches_at(doc: DocV, sel: Seq<CompoundV>, n: int, path: Seq<Step>, pi: int) -> bool
    decreases n, 0int,
{
    n > 0 && compound_matches(doc, path[pi], sel[n - 1]) && (n == 1 || match sel[n - 1].combinator {
        Combinator::Child => pi > 0 && matches_at(doc, sel, n - 1, path, pi - 1),
        Combinator::Descendant => matches_above(doc, sel, n - 1, path, pi),
    })
}

/// Do the first `n` compounds match the chain, the last of them at some link
/// above `pi`?
pub open spec fn matches_above(doc: DocV, sel: Seq<CompoundV>, n: int, path: Seq<Step>, pi: int) -> bool
    decreases n, pi,
{
    pi > 0 && (matches_at(doc, sel, n, path, pi - 1) || matches_above(doc, sel, n, path, pi - 1))
}

/// Does the selector match the node at the end of the chain?
pub open spec fn sel_matches(doc: DocV, sel: Seq<CompoundV>, path: Seq<Step>) -> bool {
    path.len() > 0 && matches_at(doc, sel, sel.len() as int, path, path.len() - 1)
}

pub fn test_holds(node: &Node, t: &Test) -> (r: bool)
    ensures
        r == test_matches(node.v(), t.v()),
{
    let mut j: usize = 0;
    while j < node.data.len()
        invariant
            j <= node.data@.len(),
            forall|k: int| 0 <= k < j ==> !pair_matches(#[trigger] node.v().data[k], t.v()),
        decreases node.data@.len() - j,
    {
        let attr = dataset_attr(node.data[j].0.as_str());
        if same_chars(attr.as_slice(), t.attr.as_slice()) {
            let ok = match &t.value {
                None => true,
                Some(want) => match scalar_str(&node.data[j].1) {
                    Some(text) => crate::chars::is_text(want.as_slice(), text),
                    None => false,
                },
            };
            if ok {
                assert(pair_matches(node.v().data[j as int], t.v()));
                return true;
            }
        }
        assert(!pair_matches(node.v().data[j as int], t.v()));
        j += 1;
    }
    false
}

fn tests_hold(node: &Node, tests: &Vec<Test>) -> (r: bool)
    ensures
        r == all_match(node.v(), tests_v(tests@)),
{
    let mut k: usize = 0;
    while k < tests.len()
        invariant
            k <= tests@.len(),
            forall|j: int| 0 <= j < k ==> test_matches(node.v(), #[trigger] tests_v(tests@)[j]),
        decreases tests@.len() - k,
    {
        if !test_holds(node, &tests[k]) {
            assert(!test_matches(node.v(), tests_v(tests@)[k as int]));
            return false;
        }
        k += 1;
    }
    true
}

fn simple_holds(node: &Node, s: &Simple) -> (r: bool)
    ensures
        r == simple_matches(node.v(), s.v()),
{
    (s.tag == Tag::Untagged || node.tag == s.tag) && tests_hold(node, &s.tests)
}

fn any_holds(node: &Node, sims: &Vec<Simple>) -> (r: bool)
    ensures
        r == any_simple(node.v(), simples_v(sims@)),
{
    let mut k: usize = 0;
    while k < sims.len()
        invariant
            k <= sims@.len(),
            forall|j: int| 0 <= j < k ==> !simple_matches(node.v(), #[trigger] simples_v(sims@)[j]),
        decreases sims@.len() - k,
    {
        if simple_holds(node, &sims[k]) {
            assert(simple_matches(node.v(), simples_v(sims@)[k as int]));
            return true;
        }
        assert(!simple_matches(node.v(), simples_v(sims@)[k as int]));
        k += 1;
    }
    false
}

fn child_holds(doc: &GlossDoc, id: usize, s: &Simple) -> (r: bool)
    requires
        id < doc@.nodes.len(),
    ensures
        r == child_matches(doc@, id as int, s.v()),
{
    let kids = doc.children(id);
    let mut k: usize = 0;
    while k < kids.len()
        invariant
            id < doc@.nodes.len(),
            doc@.wf(),
            kids@ == doc@.nodes[id as int].children,
            k <= kids@.len(),
            forall|j: int|
                0 <= j < k ==> !simple_matches(
                    doc@.nodes[#[trigger] doc@.nodes[id as int].children[j] as int],
                    s.v(),
                ),
        decreases kids@.len() - k,
    {
        assert(doc@.nodes[id as int].children[k as int] == kids@[k as int]);
        if simple_holds(doc.node(kids[k]), s) {
            return true;
        }
        k += 1;
    }
    false
}

fn descendant_holds(doc: &GlossDoc, id: usize, s: &Simple) -> (r: bool)
    requires
        id < doc@.nodes.len(),
    ensures
        r == descendant_matches(doc@, id as int, s.v()),
    decreases doc@.nodes.len() - id,
{
    let kids = doc.children(id);
    let mut k: usize = 0;
    while k < kids.len()
        invariant
            id < doc@.nodes.len(),
            doc@.wf(),
            kids@ == doc@.nodes[id as int].children,
            k <= kids@.len(),
            forall|j: int|
                0 <= j < k ==> !simple_matches(
                    doc@.nodes[#[trigger] doc@.nodes[id as int].children[j] as int],
                    s.v(),
                ) && !descendant_matches(doc@, doc@.nodes[id as int].children[j] as int, s.v()),
        decreases kids@.len() - k,
    {
        assert(doc@.nodes[id as int].children[k as int] == kids@[k as int]);
        if simple_holds(doc.node(kids[k]), s) || descendant_holds(doc, kids[k], s) {
            return true;
        }
        k += 1;
    }
    false
}

fn has_holds(doc: &GlossDoc, id: usize, sims: &Vec<Simple>) -> (r: bool)
    requires
        id < doc@.nodes.len(),
    ensures
        r == any_reaches(doc@, id as int, simples_v(sims@)),
{
    let mut k: usize = 0;
    while k < sims.len()
        invariant
            id < doc@.nodes.len(),
            k <= sims@.len(),
            forall|j: int|
                0 <= j < k ==> !reaches(doc@, id as int, #[trigger] simples_v(sims@)[j]),
        decreases sims@.len() - k,
    {
        let hit = match sims[k].rel {
            Combinator::Child => child_holds(doc, id, &sims[k]),
            Combinator::Descendant => descendant_holds(doc, id, &sims[k]),
        };
        assert(hit == reaches(doc@, id as int, simples_v(sims@)[k as int]));
        if hit {
            return true;
        }
        k += 1;
    }
    false
}

fn end_pos(pos: u16, of: u16) -> (r: u16)
    requires
        pos > 0,
    ensures
        r == from_end(pos, of),
{
    if pos < of {
        of - pos + 1
    } else {
        1
    }
}

fn pseudo_holds(doc: &GlossDoc, step: Step, p: &Pseudo) -> (r: bool)
    requires
        step.id < doc@.nodes.len(),
        step.pos.child > 0,
        step.pos.of_type > 0,
    ensures
        r == pseudo_matches(doc@, step, p.v()),
{
    let pos = step.pos;
    match p {
        Pseudo::FirstChild => pos.child == 1,
        Pseudo::LastChild => pos.child == pos.children && pos.children > 0,
        Pseudo::FirstOfType => pos.of_type == 1,
        Pseudo::LastOfType => pos.of_type == pos.of_types && pos.of_types > 0,
        Pseudo::NthChild(n) => n.holds(pos.child),
        Pseudo::NthLastChild(n) => n.holds(end_pos(pos.child, pos.children)),
        Pseudo::NthOfType(n) => n.holds(pos.of_type),
        Pseudo::NthLastOfType(n) => n.holds(end_pos(pos.of_type, pos.of_types)),
        Pseudo::Is(args) => any_holds(doc.node(step.id), args),
        Pseudo::Not(args) => !any_holds(doc.node(step.id), args),
        Pseudo::Has(args) => has_holds(doc, step.id, args),
    }
}

fn compound_holds(doc: &GlossDoc, step: Step, c: &Compound) -> (r: bool)
    requires
        step.id < doc@.nodes.len(),
        step.pos.child > 0,
        step.pos.of_type > 0,
    ensures
        r == compound_matches(doc@, step, c.v()),
{
    let node = doc.node(step.id);
    if c.tag != Tag::Untagged && node.tag != c.tag {
        return false;
    }
    if !tests_hold(node, &c.tests) {
        return false;
    }
    let mut k: usize = 0;
    while k < c.pseudos.len()
        invariant
            step.id < doc@.nodes.len(),
            step.pos.child > 0,
            step.pos.of_type > 0,
            k <= c.pseudos@.len(),
            forall|j: int|
                0 <= j < k ==> pseudo_matches(doc@, step, #[trigger] c.v().pseudos[j]),
        decreases c.pseudos@.len() - k,
    {
        if !pseudo_holds(doc, step, &c.pseudos[k]) {
            assert(!pseudo_matches(doc@, step, c.v().pseudos[k as int]));
            return false;
        }
        k += 1;
    }
    true
}

/// Every link names a node and has a position.
pub open spec fn path_ok(doc: DocV, path: Seq<Step>) -> bool {
    forall|k: int|
        0 <= k < path.len() ==> (#[trigger] path[k]).id < doc.nodes.len() && path[k].pos.child > 0
            && path[k].pos.of_type > 0
}

fn holds_at(doc: &GlossDoc, sel: &Vec<Compound>, n: usize, path: &Vec<Step>, pi: usize) -> (r: bool)
    requires
        0 < n <= sel@.len(),
        pi < path@.len(),
        path_ok(doc@, path@),
    ensures
        r == matches_at(doc@, compounds_v(sel@), n as int, path@, pi as int),
    decreases n, 0int,
{
    assert(compounds_v(sel@)[n - 1] == sel@[n - 1].v());
    if !compound_holds(doc, path[pi], &sel[n - 1]) {
        return false;
    }
    if n == 1 {
        return true;
    }
    match sel[n - 1].combinator {
        Combinator::Child => pi > 0 && holds_at(doc, sel, n - 1, path, pi - 1),
        Combinator::Descendant => holds_above(doc, sel, n - 1, path, pi),
    }
}

fn holds_above(doc: &GlossDoc, sel: &Vec<Compound>, n: usize, path: &Vec<Step>, pi: usize) -> (r: bool)
    requires
        0 < n <= sel@.len(),
        pi < path@.len(),
        path_ok(doc@, path@),
    ensures
        r == matches_above(doc@, compounds_v(sel@), n as int, path@, pi as int),
    decreases n, pi,
{
    pi > 0 && (holds_at(doc, sel, n, path, pi - 1) || holds_above(doc, sel, n, path, pi - 1))
}

/// Does the selector match the node at the end of the chain?
pub fn selects(doc: &GlossDoc, sel: &Vec<Compound>, path: &Vec<Step>) -> (r: bool)
    requires
        sel@.len() > 0,
        path_ok(doc@, path@),
    ensures
        r == sel_matches(doc@, compounds_v(sel@), path@),
{
    path.len() > 0 && holds_at(doc, sel, sel.len(), path, path.len() - 1)
}

/// Is this node one a selector can reach? Text and line breaks carry no tag
/// and no `data`.
pub open spec fn reachable(kind: Kind) -> bool {
    kind != Kind::Text && kind != Kind::Break
}

pub fn selectable(kind: Kind) -> (r: bool)
    ensures
        r == reachable(kind),
{
    kind != Kind::Text && kind != Kind::Break
}


// ---- laws ----

/// Does a node have an attribute, with a value where one is asked for?
pub open spec fn carries(node: NodeV, attr: Seq<char>, value: Option<Seq<char>>) -> bool {
    exists|j: int|
        0 <= j < node.data.len() && attr_of((#[trigger] node.data[j]).0) == attr && (value is None
            || node.data[j].1 == ScalarV::Text(value->0))
}

/// Is a node what a plain selector names: of its tag, where it names one, and
/// with each of its attributes?
pub open spec fn named_by(node: NodeV, s: SimpleV) -> bool {
    (s.tag != Tag::Untagged ==> node.tag == s.tag) && forall|k: int|
        0 <= k < s.tests.len() ==> carries(
            node,
            (#[trigger] s.tests[k]).attr,
            s.tests[k].value,
        )
}

proof fn simple_names(node: NodeV, s: SimpleV)
    ensures
        simple_matches(node, s) <==> named_by(node, s),
{
    assert forall|k: int| 0 <= k < s.tests.len() implies (test_matches(node, #[trigger] s.tests[k])
        <==> carries(node, s.tests[k].attr, s.tests[k].value)) by {
        let t = s.tests[k];
        if test_matches(node, t) {
            let j = choose|j: int| 0 <= j < node.data.len() && pair_matches(#[trigger] node.data[j], t);
            assert(attr_of(node.data[j].0) == t.attr);
        }
        if carries(node, t.attr, t.value) {
            let j = choose|j: int|
                0 <= j < node.data.len() && attr_of((#[trigger] node.data[j]).0) == t.attr && (
                t.value is None || node.data[j].1 == ScalarV::Text(t.value->0));
            assert(pair_matches(node.data[j], t));
        }
    }
}

/// `:is` holds of a node that one of its selectors names, and `:not` of a node
/// that none of them names. So no node answers to both, and every one to one of
/// the two.
pub proof fn a_node_is_or_is_not(doc: DocV, step: Step, sims: Seq<SimpleV>)
    ensures
        pseudo_matches(doc, step, PseudoV::Is(sims)) <==> exists|k: int|
            0 <= k < sims.len() && named_by(doc.nodes[step.id as int], #[trigger] sims[k]),
        pseudo_matches(doc, step, PseudoV::Not(sims)) <==> forall|k: int|
            0 <= k < sims.len() ==> !named_by(doc.nodes[step.id as int], #[trigger] sims[k]),
        pseudo_matches(doc, step, PseudoV::Is(sims)) != pseudo_matches(
            doc,
            step,
            PseudoV::Not(sims),
        ),
{
    let node = doc.nodes[step.id as int];
    assert forall|k: int| 0 <= k < sims.len() implies (simple_matches(node, #[trigger] sims[k])
        <==> named_by(node, sims[k])) by {
        simple_names(node, sims[k]);
    }
}

/// With `:not` added a selector keeps the nodes that none of the arguments
/// names, and with `:is` the others: each node that the selector had is kept by
/// one of the two.
pub proof fn not_takes_nodes_away(doc: DocV, step: Step, c: CompoundV, sims: Seq<SimpleV>)
    ensures
        compound_matches(
            doc,
            step,
            CompoundV { pseudos: c.pseudos.push(PseudoV::Not(sims)), ..c },
        ) <==> compound_matches(doc, step, c) && forall|k: int|
            0 <= k < sims.len() ==> !named_by(doc.nodes[step.id as int], #[trigger] sims[k]),
        compound_matches(
            doc,
            step,
            CompoundV { pseudos: c.pseudos.push(PseudoV::Is(sims)), ..c },
        ) <==> compound_matches(doc, step, c) && exists|k: int|
            0 <= k < sims.len() && named_by(doc.nodes[step.id as int], #[trigger] sims[k]),
{
    a_node_is_or_is_not(doc, step, sims);
    pseudos_add_up(doc, step, c, PseudoV::Not(sims));
    pseudos_add_up(doc, step, c, PseudoV::Is(sims));
}

proof fn pseudos_add_up(doc: DocV, step: Step, c: CompoundV, p: PseudoV)
    ensures
        compound_matches(doc, step, CompoundV { pseudos: c.pseudos.push(p), ..c })
            <==> compound_matches(doc, step, c) && pseudo_matches(doc, step, p),
{
    let more = CompoundV { pseudos: c.pseudos.push(p), ..c };
    if compound_matches(doc, step, more) {
        assert(pseudo_matches(doc, step, more.pseudos[c.pseudos.len() as int]));
        assert forall|k: int| 0 <= k < c.pseudos.len() implies pseudo_matches(
            doc,
            step,
            #[trigger] c.pseudos[k],
        ) by {
            assert(pseudo_matches(doc, step, more.pseudos[k]));
        }
    }
}

/// A compound holds of a node of its tag, where it names one, that has each of
/// its attributes and answers to each of its pseudo-classes.
pub proof fn a_compound_asks_for_all_it_names(doc: DocV, step: Step, c: CompoundV)
    ensures
        compound_matches(doc, step, c) <==> {
            &&& c.tag != Tag::Untagged ==> doc.nodes[step.id as int].tag == c.tag
            &&& forall|k: int|
                0 <= k < c.tests.len() ==> carries(
                    doc.nodes[step.id as int],
                    (#[trigger] c.tests[k]).attr,
                    c.tests[k].value,
                )
            &&& forall|k: int|
                0 <= k < c.pseudos.len() ==> pseudo_matches(doc, step, #[trigger] c.pseudos[k])
        },
{
    let node = doc.nodes[step.id as int];
    let s = SimpleV { rel: Combinator::Descendant, tag: c.tag, tests: c.tests };
    simple_names(node, s);
    assert(all_match(node, c.tests) == all_match(node, s.tests));
}

/// Is a chain of nodes one from parent to child?
pub open spec fn goes_down(doc: DocV, chain: Seq<int>) -> bool {
    forall|k: int|
        0 <= k < chain.len() - 1 ==> exists|c: int|
            0 <= c < doc.nodes[#[trigger] chain[k]].children.len()
                && #[trigger] doc.nodes[chain[k]].children[c] == chain[k + 1]
}

proof fn descendant_has_a_chain(doc: DocV, id: int, s: SimpleV)
    requires
        descendant_matches(doc, id, s),
        0 <= id < doc.nodes.len(),
    ensures
        exists|chain: Seq<int>| #[trigger]
            goes_down(doc, chain) && chain.len() >= 2 && chain[0] == id && named_by(
                doc.nodes[chain.last()],
                s,
            ),
    decreases doc.nodes.len() - id,
{
    let k = choose|k: int|
        #![trigger doc.nodes[id].children[k]]
        0 <= k < doc.nodes[id].children.len() && id < doc.nodes[id].children[k] < doc.nodes.len() && (
        simple_matches(doc.nodes[doc.nodes[id].children[k] as int], s) || descendant_matches(
            doc,
            doc.nodes[id].children[k] as int,
            s,
        ));
    let kid = doc.nodes[id].children[k] as int;
    if simple_matches(doc.nodes[kid], s) {
        simple_names(doc.nodes[kid], s);
        let chain = seq![id, kid];
        assert(doc.nodes[chain[0]].children[k] == chain[1]);
        assert(goes_down(doc, chain));
        assert(chain.last() == kid);
    } else {
        descendant_has_a_chain(doc, kid, s);
        let rest = choose|chain: Seq<int>| #[trigger]
            goes_down(doc, chain) && chain.len() >= 2 && chain[0] == kid && named_by(
                doc.nodes[chain.last()],
                s,
            );
        let chain = seq![id] + rest;
        assert forall|j: int| 0 <= j < chain.len() - 1 implies exists|c: int|
            0 <= c < doc.nodes[#[trigger] chain[j]].children.len()
                && #[trigger] doc.nodes[chain[j]].children[c] == chain[j + 1] by {
            if j == 0 {
                assert(doc.nodes[chain[0]].children[k] == chain[1]);
            } else {
                assert(rest[j - 1] == chain[j] && rest[j] == chain[j + 1]);
            }
        }
        assert(chain.last() == rest.last());
        assert(goes_down(doc, chain));
    }
}

proof fn a_chain_has_a_descendant(doc: DocV, chain: Seq<int>, s: SimpleV)
    requires
        doc.wf(),
        goes_down(doc, chain),
        chain.len() >= 2,
        0 <= chain[0] < doc.nodes.len(),
        named_by(doc.nodes[chain.last()], s),
    ensures
        descendant_matches(doc, chain[0], s),
    decreases chain.len(),
{
    let id = chain[0];
    let c = choose|c: int|
        0 <= c < doc.nodes[chain[0]].children.len() && #[trigger] doc.nodes[chain[0]].children[c]
            == chain[1];
    assert(doc.nodes[id].children[c] == chain[1]);
    assert(id < doc.nodes[id].children[c] < doc.nodes.len());
    if chain.len() == 2 {
        simple_names(doc.nodes[chain[1]], s);
    } else {
        let rest = chain.skip(1);
        assert forall|j: int| 0 <= j < rest.len() - 1 implies exists|c: int|
            0 <= c < doc.nodes[#[trigger] rest[j]].children.len()
                && #[trigger] doc.nodes[rest[j]].children[c] == rest[j + 1] by {
            assert(chain[j + 1] == rest[j] && chain[j + 2] == rest[j + 1]);
        }
        a_chain_has_a_descendant(doc, rest, s);
    }
}

/// `:has(> x)` holds of a node with a child that `x` names, and `:has(x)` of
/// one with such a node anywhere below it.
pub proof fn has_looks_below(doc: DocV, step: Step, s: SimpleV)
    requires
        doc.wf(),
        step.id < doc.nodes.len(),
    ensures
        s.rel == Combinator::Child ==> (pseudo_matches(doc, step, PseudoV::Has(seq![s])) <==> exists|
            k: int,
        |
            0 <= k < doc.nodes[step.id as int].children.len() && named_by(
                doc.nodes[#[trigger] doc.nodes[step.id as int].children[k] as int],
                s,
            )),
        s.rel == Combinator::Descendant ==> (pseudo_matches(doc, step, PseudoV::Has(seq![s]))
            <==> exists|chain: Seq<int>| #[trigger]
            goes_down(doc, chain) && chain.len() >= 2 && chain[0] == step.id && named_by(
                doc.nodes[chain.last()],
                s,
            )),
{
    let id = step.id as int;
    let sims = seq![s];
    assert(sims[0] == s);
    assert(pseudo_matches(doc, step, PseudoV::Has(sims)) <==> reaches(doc, id, s));
    assert forall|k: int| 0 <= k < doc.nodes[id].children.len() implies (simple_matches(
        doc.nodes[#[trigger] doc.nodes[id].children[k] as int],
        s,
    ) <==> named_by(doc.nodes[doc.nodes[id].children[k] as int], s)) by {
        simple_names(doc.nodes[doc.nodes[id].children[k] as int], s);
    }
    if s.rel == Combinator::Descendant {
        if descendant_matches(doc, id, s) {
            descendant_has_a_chain(doc, id, s);
        }
        if exists|chain: Seq<int>| #[trigger]
            goes_down(doc, chain) && chain.len() >= 2 && chain[0] == step.id && named_by(
                doc.nodes[chain.last()],
                s,
            ) {
            let chain = choose|chain: Seq<int>| #[trigger]
                goes_down(doc, chain) && chain.len() >= 2 && chain[0] == step.id && named_by(
                    doc.nodes[chain.last()],
                    s,
                );
            a_chain_has_a_descendant(doc, chain, s);
        }
    }
}

/// `:has` with several arguments holds where it holds with one of them.
pub proof fn has_takes_any_argument(doc: DocV, step: Step, sims: Seq<SimpleV>)
    ensures
        pseudo_matches(doc, step, PseudoV::Has(sims)) <==> exists|k: int|
            0 <= k < sims.len() && pseudo_matches(
                doc,
                step,
                PseudoV::Has(seq![#[trigger] sims[k]]),
            ),
{
    let id = step.id as int;
    assert forall|k: int| 0 <= k < sims.len() implies (reaches(doc, id, #[trigger] sims[k])
        <==> pseudo_matches(doc, step, PseudoV::Has(seq![sims[k]]))) by {
        let one = seq![sims[k]];
        assert(one[0] == sims[k]);
    }
}

proof fn tagged_bounds(doc: DocV, sibs: Seq<usize>, tag: Tag, n: int, m: int)
    requires
        0 <= n <= m,
    ensures
        tagged(doc, sibs, tag, n) <= tagged(doc, sibs, tag, m) <= m,
        tagged(doc, sibs, tag, n) == tagged(doc, sibs, tag, m) <==> forall|k: int|
            n <= k < m ==> doc.nodes[#[trigger] sibs[k] as int].tag != tag,
    decreases m,
{
    if n < m {
        tagged_bounds(doc, sibs, tag, n, m - 1);
        assert((forall|k: int| n <= k < m ==> doc.nodes[#[trigger] sibs[k] as int].tag != tag) <==> (
        forall|k: int| n <= k < m - 1 ==> doc.nodes[#[trigger] sibs[k] as int].tag != tag)
            && doc.nodes[sibs[m - 1] as int].tag != tag);
    } else if m > 0 {
        tagged_bounds(doc, sibs, tag, m - 1, m - 1);
    }
}

/// Where a node stands among its siblings decides the positional
/// pseudo-classes: the first and last of all, and the first and last of its
/// tag.
pub proof fn ends_are_first_and_last(doc: DocV, sibs: Seq<usize>, ix: int)
    requires
        0 <= ix < sibs.len() < 0xffff,
    ensures
        ({
            let step = Step { id: sibs[ix], pos: pos_of(doc, sibs, ix) };
            let tag = doc.nodes[sibs[ix] as int].tag;
            &&& pseudo_matches(doc, step, PseudoV::FirstChild) <==> ix == 0
            &&& pseudo_matches(doc, step, PseudoV::LastChild) <==> ix == sibs.len() - 1
            &&& pseudo_matches(doc, step, PseudoV::FirstOfType) <==> forall|k: int|
                0 <= k < ix ==> doc.nodes[#[trigger] sibs[k] as int].tag != tag
            &&& pseudo_matches(doc, step, PseudoV::LastOfType) <==> forall|k: int|
                ix < k < sibs.len() ==> doc.nodes[#[trigger] sibs[k] as int].tag != tag
        }),
{
    let tag = doc.nodes[sibs[ix] as int].tag;
    let n = sibs.len() as int;
    tagged_bounds(doc, sibs, tag, 0, ix);
    tagged_bounds(doc, sibs, tag, ix, ix + 1);
    tagged_bounds(doc, sibs, tag, ix + 1, n);
    tagged_bounds(doc, sibs, tag, 0, n);
    assert((forall|k: int| ix < k < n ==> doc.nodes[#[trigger] sibs[k] as int].tag != tag) <==> (forall|
        k: int,
    |
        ix + 1 <= k < n ==> doc.nodes[#[trigger] sibs[k] as int].tag != tag));
}

/// `An+B` counts siblings from one, from the start or from the end, all of them
/// or those of the node's tag.
pub proof fn nth_counts_from_one(doc: DocV, sibs: Seq<usize>, ix: int, n: Nth)
    requires
        0 <= ix < sibs.len() < 0xffff,
    ensures
        ({
            let step = Step { id: sibs[ix], pos: pos_of(doc, sibs, ix) };
            let tag = doc.nodes[sibs[ix] as int].tag;
            let upto = tagged(doc, sibs, tag, ix + 1);
            let all = tagged(doc, sibs, tag, sibs.len() as int);
            &&& pseudo_matches(doc, step, PseudoV::NthChild(n)) <==> exists|k: int|
                k >= 0 && ix + 1 == #[trigger] (n.a * k) + n.b
            &&& pseudo_matches(doc, step, PseudoV::NthLastChild(n)) <==> exists|k: int|
                k >= 0 && sibs.len() - ix == #[trigger] (n.a * k) + n.b
            &&& pseudo_matches(doc, step, PseudoV::NthOfType(n)) <==> exists|k: int|
                k >= 0 && upto == #[trigger] (n.a * k) + n.b
            &&& pseudo_matches(doc, step, PseudoV::NthLastOfType(n)) <==> exists|k: int|
                k >= 0 && all - upto + 1 == #[trigger] (n.a * k) + n.b
        }),
{
    let tag = doc.nodes[sibs[ix] as int].tag;
    let n = sibs.len() as int;
    tagged_bounds(doc, sibs, tag, ix + 1, n);
    tagged_bounds(doc, sibs, tag, 0, n);
}

/// The siblings of a tag up to one are as many as stand there.
pub proof fn of_type_counts_the_tag(doc: DocV, sibs: Seq<usize>, tag: Tag, n: int)
    requires
        0 <= n <= sibs.len(),
    ensures
        tagged(doc, sibs, tag, n) == sibs.take(n).filter(
            |id: usize| doc.nodes[id as int].tag == tag,
        ).len(),
    decreases n,
{
    reveal(Seq::filter);
    if n > 0 {
        of_type_counts_the_tag(doc, sibs, tag, n - 1);
        assert(sibs.take(n).drop_last() =~= sibs.take(n - 1));
    }
}

/// Does a compound match a link of a chain?
pub open spec fn on_link(doc: DocV, path: Seq<Step>, c: CompoundV, link: int) -> bool {
    0 <= link < path.len() && compound_matches(doc, path[link], c)
}

/// Does a link stand above another one, right above it where a `>` asks so?
pub open spec fn stands_above(upper: int, c: Combinator, lower: int) -> bool {
    match c {
        Combinator::Child => upper == lower - 1,
        Combinator::Descendant => upper < lower,
    }
}

/// Do compounds stand on links of a chain: each on one that it matches, and
/// each below the one before it?
pub open spec fn stands(doc: DocV, sel: Seq<CompoundV>, path: Seq<Step>, at: Seq<int>) -> bool {
    &&& at.len() == sel.len()
    &&& forall|k: int| 0 <= k < sel.len() ==> on_link(doc, path, #[trigger] sel[k], at[k])
    &&& forall|k: int|
        0 < k < sel.len() ==> stands_above(at[k - 1], (#[trigger] sel[k]).combinator, at[k])
}

proof fn placed_from_match(doc: DocV, sel: Seq<CompoundV>, n: int, path: Seq<Step>, pi: int)
    requires
        0 < n <= sel.len(),
        0 <= pi < path.len(),
        matches_at(doc, sel, n, path, pi),
    ensures
        exists|at: Seq<int>| #[trigger] stands(doc, sel.take(n), path, at) && at.last() == pi,
    decreases n,
{
    if n == 1 {
        let at = seq![pi];
        assert(stands(doc, sel.take(1), path, at));
        assert(at.last() == pi);
    } else {
        link_above(doc, sel, n - 1, path, pi);
        let up = if sel[n - 1].combinator == Combinator::Child {
            pi - 1
        } else {
            choose|u: int| 0 <= u < pi && #[trigger] matches_at(doc, sel, n - 1, path, u)
        };
        placed_from_match(doc, sel, n - 1, path, up);
        let before = choose|at: Seq<int>| #[trigger]
            stands(doc, sel.take(n - 1), path, at) && at.last() == up;
        let at = before.push(pi);
        let s = sel.take(n);
        assert forall|k: int| 0 <= k < s.len() implies on_link(doc, path, #[trigger] s[k], at[k]) by {
            if k < n - 1 {
                assert(sel.take(n - 1)[k] == s[k]);
            }
        }
        assert forall|k: int| 0 < k < s.len() implies stands_above(
            at[k - 1],
            (#[trigger] s[k]).combinator,
            at[k],
        ) by {
            if k < n - 1 {
                assert(sel.take(n - 1)[k] == s[k]);
            } else {
                assert(at[k - 1] == before.last());
            }
        }
        assert(at.len() == s.len());
        assert(stands(doc, s, path, at));
        assert(at.last() == pi);
    }
}

proof fn link_above(doc: DocV, sel: Seq<CompoundV>, n: int, path: Seq<Step>, pi: int)
    ensures
        matches_above(doc, sel, n, path, pi) <==> exists|u: int|
            0 <= u < pi && #[trigger] matches_at(doc, sel, n, path, u),
    decreases pi,
{
    if pi > 0 {
        link_above(doc, sel, n, path, pi - 1);
        if matches_at(doc, sel, n, path, pi - 1) {
            assert(0 <= pi - 1 < pi);
        } else if matches_above(doc, sel, n, path, pi - 1) {
            let u = choose|u: int| 0 <= u < pi - 1 && #[trigger] matches_at(doc, sel, n, path, u);
            assert(0 <= u < pi);
        }
        if exists|u: int| 0 <= u < pi && #[trigger] matches_at(doc, sel, n, path, u) {
            let u = choose|u: int| 0 <= u < pi && #[trigger] matches_at(doc, sel, n, path, u);
            if u < pi - 1 {
                assert(0 <= u < pi - 1 && matches_at(doc, sel, n, path, u));
            }
        }
    }
}

proof fn match_from_placed(doc: DocV, sel: Seq<CompoundV>, n: int, path: Seq<Step>, at: Seq<int>)
    requires
        0 < n <= sel.len(),
        stands(doc, sel.take(n), path, at),
    ensures
        matches_at(doc, sel, n, path, at.last()),
    decreases n,
{
    let s = sel.take(n);
    assert(s[n - 1] == sel[n - 1]);
    assert(at[n - 1] == at.last());
    assert(on_link(doc, path, s[n - 1], at[n - 1]));
    if n > 1 {
        let before = at.drop_last();
        let t = sel.take(n - 1);
        assert forall|k: int| 0 <= k < t.len() implies on_link(
            doc,
            path,
            #[trigger] t[k],
            before[k],
        ) by {
            assert(at[k] == before[k] && s[k] == t[k]);
        }
        assert forall|k: int| 0 < k < t.len() implies stands_above(
            before[k - 1],
            (#[trigger] t[k]).combinator,
            before[k],
        ) by {
            assert(at[k] == before[k] && at[k - 1] == before[k - 1] && s[k] == t[k]);
        }
        assert(before.len() == t.len());
        assert(stands(doc, t, path, before));
        match_from_placed(doc, sel, n - 1, path, before);
        assert(before.last() == at[n - 2]);
        assert(stands_above(at[n - 2], s[n - 1].combinator, at[n - 1]));
        assert(on_link(doc, path, t[n - 2], before[n - 2]));
        link_above(doc, sel, n - 1, path, at.last());
        assert(matches_at(doc, sel, n - 1, path, at[n - 2]));
    }
}

/// A selector matches the node at the end of a chain exactly where its
/// compounds can be put on links of the chain: the last on the node itself, each
/// other one above the next, and right above it where a `>` stands between.
pub proof fn a_selector_stands_on_its_chain(doc: DocV, sel: Seq<CompoundV>, path: Seq<Step>)
    requires
        sel.len() > 0,
        path.len() > 0,
    ensures
        sel_matches(doc, sel, path) <==> exists|at: Seq<int>| #[trigger]
            stands(doc, sel, path, at) && at.last() == path.len() - 1,
{
    assert(sel.take(sel.len() as int) =~= sel);
    if sel_matches(doc, sel, path) {
        placed_from_match(doc, sel, sel.len() as int, path, path.len() - 1);
    }
    if exists|at: Seq<int>| #[trigger] stands(doc, sel, path, at) && at.last() == path.len() - 1 {
        let at = choose|at: Seq<int>| #[trigger]
            stands(doc, sel, path, at) && at.last() == path.len() - 1;
        match_from_placed(doc, sel, sel.len() as int, path, at);
    }
}

/// The attribute of a `data` key of one character: `data-sc`, then `-` and the
/// small letter for a letter, and the bare character for any other.
pub proof fn a_key_starts_behind_the_prefix(c: char)
    ensures
        'a' <= c <= 'z' ==> attr_of(seq![c]) == "data-sc"@ + seq!['-', c],
        'A' <= c <= 'Z' ==> attr_of(seq![c]) == "data-sc"@ + seq![
            '-',
            (c as u32 + 32) as char,
        ],
        !('a' <= c <= 'z' || 'A' <= c <= 'Z') ==> attr_of(seq![c]) == "data-sc"@ + seq![c],
        attr_of(seq![]) == "data-sc"@,
{
    let k = seq![c];
    let u = k.update(0, crate::chars::upper_char(c));
    assert(u =~= seq![crate::chars::upper_char(c)]);
    assert(u.drop_last() =~= seq![]);
    assert(dashed(u.drop_last()) =~= seq![]);
    assert(seq!['-', crate::chars::lower_char(u.last())] =~= dashed(u.drop_last()) + seq![
        '-',
        crate::chars::lower_char(u.last()),
    ]);
    assert(dashed(u.drop_last()).push(u.last()) =~= seq![u.last()]);
}

/// Behind its first character a key goes on as it is, but for the ASCII
/// capitals: each is a hyphen and its small letter.
pub proof fn a_key_goes_on_in_small_letters(key: Seq<char>, c: char)
    requires
        key.len() > 0,
    ensures
        'A' <= c <= 'Z' ==> attr_of(key.push(c)) == attr_of(key) + seq![
            '-',
            (c as u32 + 32) as char,
        ],
        !('A' <= c <= 'Z') ==> attr_of(key.push(c)) == attr_of(key) + seq![c],
{
    let u = crate::chars::upper_char(key[0]);
    let head = key.update(0, u);
    let all = key.push(c).update(0, u);
    assert(all =~= head.push(c));
    assert(all.drop_last() =~= head);
    assert(attr_of(key.push(c)) =~= attr_of(key) + (if crate::chars::ascii_upper(c) {
        seq!['-', crate::chars::lower_char(c)]
    } else {
        seq![c]
    }));
}

/// Text and line breaks are out of a selector's reach, and nothing else is.
pub proof fn only_text_is_out_of_reach(kind: Kind)
    ensures
        reachable(kind) <==> !(kind is Text || kind is Break),
{
}

} // verus!
