//! The bounded selector grammar, compiled.
//!
//! Structured content has no `class` attribute, so a dictionary author can
//! reach content only through a tag name or through the `data-*` attributes
//! that derive from a node's `data` map. What is here is that surface:
//!
//! - a tag name, resolved to the schema's own [`Tag`]
//! - a `data-*` attribute, tested for presence or against one `=` value
//! - compound selectors, and the descendant and child combinators
//! - the structural pseudo-classes
//! - the selector-list forms `:is`, `:where`, `:not` and `:has`, whose
//!   arguments are compounds
//!
//! Everything else fails compilation, and the caller drops the whole rule and
//! counts it.
use super::scan::{selectors_of, split_selectors};
use crate::chars::{
    all_digits, ascii_alnum, ascii_digit, begins, begins_with, chars_of, copy_chars, find_char,
    first_at, first_at_is_least, is_ascii_alnum, is_text, lower, lower_of, numeral, parse_i32,
    parsed_i32, texts, trim, trim_of, white,
};
use crate::dict::gloss::{tag_for, tag_named, Tag};
use vstd::prelude::*;
use vstd::slice::slice_subrange;

verus! {

/// How a compound joins the compound to its left.
#[derive(Clone, Copy, PartialEq, Eq, Debug, Structural)]
pub enum Combinator {
    Descendant,
    Child,
}

/// An `An+B` argument.
#[derive(Clone, Copy, PartialEq, Eq, Debug, Structural)]
pub struct Nth {
    pub a: i32,
    pub b: i32,
}

/// What an attribute test holds.
#[verifier::ext_equal]
pub struct TestV {
    pub attr: Seq<char>,
    pub value: Option<Seq<char>>,
}

/// What a pseudo-class argument holds.
#[verifier::ext_equal]
pub struct SimpleV {
    pub rel: Combinator,
    pub tag: Tag,
    pub tests: Seq<TestV>,
}

/// What a pseudo-class holds.
#[verifier::ext_equal]
pub enum PseudoV {
    FirstChild,
    LastChild,
    FirstOfType,
    LastOfType,
    NthChild(Nth),
    NthLastChild(Nth),
    NthOfType(Nth),
    NthLastOfType(Nth),
    Is(Seq<SimpleV>),
    Not(Seq<SimpleV>),
    Has(Seq<SimpleV>),
}

/// What a compound selector holds.
#[verifier::ext_equal]
pub struct CompoundV {
    pub combinator: Combinator,
    pub tag: Tag,
    pub tests: Seq<TestV>,
    pub pseudos: Seq<PseudoV>,
}

/// Specificity: attribute tests and pseudo-classes, then tag names.
#[verifier::ext_equal]
pub struct SpecV {
    pub b: nat,
    pub c: nat,
}

impl SpecV {
    pub open spec fn zero() -> SpecV {
        SpecV { b: 0, c: 0 }
    }

    pub open spec fn plus(self, o: SpecV) -> SpecV {
        SpecV { b: self.b + o.b, c: self.c + o.c }
    }

    /// The greater of two, compared column by column.
    pub open spec fn max(self, o: SpecV) -> SpecV {
        if self.b < o.b || (self.b == o.b && self.c <= o.c) {
            o
        } else {
            self
        }
    }

    /// One number that orders two rules.
    pub open spec fn packed(self) -> nat {
        (if self.b < 0xffff {
            self.b
        } else {
            0xffff
        }) * 0x10000 + (if self.c < 0xffff {
            self.c
        } else {
            0xffff
        })
    }
}

// ---- characters ----

pub open spec fn space(c: char) -> bool {
    c == ' ' || c == '\t' || c == '\r' || c == '\n'
}

/// The first position from `i` on that is no CSS white space.
pub open spec fn skip_space(s: Seq<char>, i: int) -> int
    decreases s.len() - i,
{
    if i < s.len() && space(s[i]) {
        skip_space(s, i + 1)
    } else {
        i
    }
}

pub proof fn skip_space_bounds(s: Seq<char>, i: int)
    requires
        i <= s.len(),
    ensures
        i <= skip_space(s, i) <= s.len(),
    decreases s.len() - i,
{
    if i < s.len() && space(s[i]) {
        skip_space_bounds(s, i + 1);
    }
}

/// An identifier character. A non-ASCII character is one.
pub open spec fn ident_char(c: char) -> bool {
    ascii_alnum(c) || c == '-' || c == '_' || c as u32 >= 0x80
}

/// Just past the identifier at `i`. Equal to `i` when there is none.
pub open spec fn ident_end(s: Seq<char>, i: int) -> int
    decreases s.len() - i,
{
    if i >= s.len() {
        s.len() as int
    } else if s[i] == '\\' {
        if i + 2 <= s.len() {
            ident_end(s, i + 2)
        } else {
            s.len() as int
        }
    } else if ident_char(s[i]) {
        ident_end(s, i + 1)
    } else {
        i
    }
}

pub proof fn ident_end_bounds(s: Seq<char>, i: int)
    requires
        0 <= i <= s.len(),
    ensures
        i <= ident_end(s, i) <= s.len(),
    decreases s.len() - i,
{
    if i < s.len() {
        if s[i] == '\\' {
            if i + 2 <= s.len() {
                ident_end_bounds(s, i + 2);
            }
        } else if ident_char(s[i]) {
            ident_end_bounds(s, i + 1);
        }
    }
}

/// Just past the closing quote of a string whose body starts at `j`.
pub open spec fn quote_end(s: Seq<char>, j: int, quote: char) -> int
    decreases s.len() - j,
{
    if j >= s.len() {
        s.len() as int
    } else if s[j] == quote {
        j + 1
    } else if s[j] == '\\' {
        if j + 2 <= s.len() {
            quote_end(s, j + 2, quote)
        } else {
            s.len() as int
        }
    } else {
        quote_end(s, j + 1, quote)
    }
}

pub proof fn quote_end_bounds(s: Seq<char>, j: int, quote: char)
    requires
        0 <= j <= s.len(),
    ensures
        j <= quote_end(s, j, quote) <= s.len(),
    decreases s.len() - j,
{
    if j < s.len() && s[j] != quote {
        if s[j] == '\\' {
            if j + 2 <= s.len() {
                quote_end_bounds(s, j + 2, quote);
            }
        } else {
            quote_end_bounds(s, j + 1, quote);
        }
    }
}

/// Just past the closer that ends `depth` open levels, or none when the text
/// never closes them.
pub open spec fn closed_at(s: Seq<char>, i: int, opener: char, closer: char, depth: nat) -> Option<int>
    decreases s.len() - i,
    when 0 <= i <= s.len()
{
    if i >= s.len() {
        None
    } else if s[i] == '"' || s[i] == '\'' {
        proof {
            quote_end_bounds(s, i + 1, s[i]);
        }
        closed_at(s, quote_end(s, i + 1, s[i]), opener, closer, depth)
    } else if s[i] == opener {
        closed_at(s, i + 1, opener, closer, depth + 1)
    } else if s[i] == closer {
        if depth <= 1 {
            Some(i + 1)
        } else {
            closed_at(s, i + 1, opener, closer, (depth - 1) as nat)
        }
    } else {
        closed_at(s, i + 1, opener, closer, depth)
    }
}

pub proof fn closed_at_bounds(s: Seq<char>, i: int, opener: char, closer: char, depth: nat)
    requires
        0 <= i <= s.len(),
    ensures
        closed_at(s, i, opener, closer, depth) matches Some(e) ==> i < e <= s.len(),
    decreases s.len() - i,
{
    if i < s.len() {
        if s[i] == '"' || s[i] == '\'' {
            quote_end_bounds(s, i + 1, s[i]);
            closed_at_bounds(s, quote_end(s, i + 1, s[i]), opener, closer, depth);
        } else if s[i] == opener {
            closed_at_bounds(s, i + 1, opener, closer, depth + 1);
        } else if s[i] == closer {
            if depth > 1 {
                closed_at_bounds(s, i + 1, opener, closer, (depth - 1) as nat);
            }
        } else {
            closed_at_bounds(s, i + 1, opener, closer, depth);
        }
    }
}

// ---- attribute tests ----

/// A selector's attribute value, quotes removed.
pub open spec fn unquoted(text: Seq<char>) -> Option<Seq<char>> {
    if text.len() == 0 {
        None
    } else if text[0] == '"' || text[0] == '\'' {
        if text.len() >= 2 && text.last() == text[0] {
            Some(text.subrange(1, text.len() - 1))
        } else {
            None
        }
    } else {
        Some(text)
    }
}

/// An attribute operator that matches a family of values.
pub open spec fn family(c: char) -> bool {
    c == '~' || c == '^' || c == '$' || c == '*' || c == '|'
}

/// A `data-*` name in lower case, with its value.
pub open spec fn named_test(name: Seq<char>, value: Option<Seq<char>>) -> Option<TestV> {
    if name.len() > 0 && begins(lower(name), "data-"@) {
        Some(TestV { attr: lower(name), value })
    } else {
        None
    }
}

/// One attribute selector, its brackets already stripped.
pub open spec fn test_of(inner: Seq<char>) -> Option<TestV> {
    let k = first_at(inner, '=');
    if k >= inner.len() {
        named_test(trim(inner), None)
    } else if k > 0 && family(inner[k - 1]) {
        None
    } else {
        match unquoted(trim(inner.skip(k + 1))) {
            Some(value) => named_test(trim(inner.take(k)), Some(value)),
            None => None,
        }
    }
}

// ---- An+B ----

/// A text without its white space.
pub open spec fn unspaced(s: Seq<char>) -> Seq<char>
    decreases s.len(),
{
    if s.len() == 0 {
        seq![]
    } else if white(s.last()) {
        unspaced(s.drop_last())
    } else {
        unspaced(s.drop_last()).push(s.last())
    }
}

/// The step of `An+B`.
pub open spec fn nth_step(head: Seq<char>) -> Option<int> {
    if head.len() == 0 || head == seq!['+'] {
        Some(1)
    } else if head == seq!['-'] {
        Some(-1)
    } else {
        parsed_i32(head)
    }
}

/// The offset of `An+B`.
pub open spec fn nth_offset(tail: Seq<char>) -> Option<int> {
    if tail.len() == 0 {
        Some(0)
    } else if tail[0] == '+' {
        parsed_i32(tail.skip(1))
    } else {
        parsed_i32(tail)
    }
}

/// `even`, `odd`, an integer, or `An+B`.
pub open spec fn nth_of(arg: Seq<char>) -> Option<Nth> {
    let t = lower(unspaced(arg));
    let k = first_at(t, 'n');
    if t == "even"@ {
        Some(Nth { a: 2, b: 0 })
    } else if t == "odd"@ {
        Some(Nth { a: 2, b: 1 })
    } else if k >= t.len() {
        match parsed_i32(t) {
            Some(b) => Some(Nth { a: 0, b: b as i32 }),
            None => None,
        }
    } else {
        match (nth_step(t.take(k)), nth_offset(t.skip(k + 1))) {
            (Some(a), Some(b)) => Some(Nth { a: a as i32, b: b as i32 }),
            _ => None,
        }
    }
}

// ---- pseudo-class arguments ----

/// One pseudo-class argument from `i` on: a tag, tests, and nothing else.
pub open spec fn simple_from(s: Seq<char>, i: int, acc: SimpleV, spec: SpecV) -> Option<(SimpleV, SpecV)>
    decreases s.len() - i,
    when 0 <= i <= s.len()
{
    if i >= s.len() {
        if i > 0 {
            Some((acc, spec))
        } else {
            None
        }
    } else if s[i] == '[' {
        proof {
            closed_at_bounds(s, i + 1, '[', ']', 1);
        }
        match closed_at(s, i + 1, '[', ']', 1) {
            Some(close) => match test_of(s.subrange(i + 1, close - 1)) {
                Some(t) => simple_from(
                    s,
                    close,
                    SimpleV { tests: acc.tests.push(t), ..acc },
                    SpecV { b: spec.b + 1, ..spec },
                ),
                None => None,
            },
            None => None,
        }
    } else if i > 0 {
        None
    } else {
        proof {
            ident_end_bounds(s, i);
        }
        let end = ident_end(s, i);
        if end <= i {
            None
        } else {
            match tag_named(lower(s.subrange(i, end))) {
                Some(tag) => simple_from(
                    s,
                    end,
                    SimpleV { tag, ..acc },
                    SpecV { c: spec.c + 1, ..spec },
                ),
                None => None,
            }
        }
    }
}

/// One pseudo-class argument, with a leading `>` where the form allows it.
pub open spec fn argument(arg: Seq<char>, relative: bool) -> Option<(SimpleV, SpecV)> {
    let text = trim(arg);
    let child = text.len() > 0 && text[0] == '>';
    if child && !relative {
        None
    } else {
        let rest = if child {
            trim(text.skip(1))
        } else {
            text
        };
        let rel = if child {
            Combinator::Child
        } else {
            Combinator::Descendant
        };
        simple_from(rest, 0, SimpleV { rel, tag: Tag::Untagged, tests: seq![] }, SpecV::zero())
    }
}

/// Each of a list of arguments, with the specificity of the most specific.
pub open spec fn arguments(args: Seq<Seq<char>>, relative: bool) -> Option<(Seq<SimpleV>, SpecV)>
    decreases args.len(),
{
    if args.len() == 0 {
        Some((seq![], SpecV::zero()))
    } else {
        match (arguments(args.drop_last(), relative), argument(args.last(), relative)) {
            (Some((sims, best)), Some((sim, spec))) => Some((sims.push(sim), best.max(spec))),
            _ => None,
        }
    }
}

/// A selector-list pseudo-class's arguments; there is at least one.
pub open spec fn args_of(args: Seq<char>, relative: bool) -> Option<(Seq<SimpleV>, SpecV)> {
    match arguments(selectors_of(args), relative) {
        Some((sims, best)) => if sims.len() > 0 {
            Some((sims, best))
        } else {
            None
        },
        None => None,
    }
}

// ---- pseudo-classes ----

pub open spec fn one() -> SpecV {
    SpecV { b: 1, c: 0 }
}

/// A pseudo-class without an argument.
pub open spec fn plain_pseudo(name: Seq<char>) -> Option<(PseudoV, SpecV)> {
    if name == "first-child"@ {
        Some((PseudoV::FirstChild, one()))
    } else if name == "last-child"@ {
        Some((PseudoV::LastChild, one()))
    } else if name == "first-of-type"@ {
        Some((PseudoV::FirstOfType, one()))
    } else if name == "last-of-type"@ {
        Some((PseudoV::LastOfType, one()))
    } else {
        None
    }
}

/// A pseudo-class with an argument. `:where` matches as `:is` does and
/// contributes nothing to specificity.
pub open spec fn argued_pseudo(name: Seq<char>, arg: Seq<char>) -> Option<(PseudoV, SpecV)> {
    if name == "nth-child"@ {
        match nth_of(arg) {
            Some(n) => Some((PseudoV::NthChild(n), one())),
            None => None,
        }
    } else if name == "nth-last-child"@ {
        match nth_of(arg) {
            Some(n) => Some((PseudoV::NthLastChild(n), one())),
            None => None,
        }
    } else if name == "nth-of-type"@ {
        match nth_of(arg) {
            Some(n) => Some((PseudoV::NthOfType(n), one())),
            None => None,
        }
    } else if name == "nth-last-of-type"@ {
        match nth_of(arg) {
            Some(n) => Some((PseudoV::NthLastOfType(n), one())),
            None => None,
        }
    } else if name == "is"@ {
        match args_of(arg, false) {
            Some((sims, spec)) => Some((PseudoV::Is(sims), spec)),
            None => None,
        }
    } else if name == "where"@ {
        match args_of(arg, false) {
            Some((sims, spec)) => Some((PseudoV::Is(sims), SpecV::zero())),
            None => None,
        }
    } else if name == "not"@ {
        match args_of(arg, false) {
            Some((sims, spec)) => Some((PseudoV::Not(sims), spec)),
            None => None,
        }
    } else if name == "has"@ {
        match args_of(arg, true) {
            Some((sims, spec)) => Some((PseudoV::Has(sims), spec)),
            None => None,
        }
    } else {
        None
    }
}

/// The pseudo-class whose colon stands at `i`, and where it ends. A
/// pseudo-element is none.
pub open spec fn pseudo_at(s: Seq<char>, i: int) -> Option<(PseudoV, SpecV, int)> {
    if i + 1 < s.len() && s[i + 1] == ':' {
        None
    } else {
        let end = ident_end(s, i + 1);
        let name = lower(s.subrange(i + 1, end));
        if end < s.len() && s[end] == '(' {
            match closed_at(s, end + 1, '(', ')', 1) {
                Some(close) => match argued_pseudo(name, trim(s.subrange(end + 1, close - 1))) {
                    Some((p, spec)) => Some((p, spec, close)),
                    None => None,
                },
                None => None,
            }
        } else {
            match plain_pseudo(name) {
                Some((p, spec)) => Some((p, spec, end)),
                None => None,
            }
        }
    }
}

pub proof fn pseudo_at_bounds(s: Seq<char>, i: int)
    requires
        0 <= i < s.len(),
    ensures
        pseudo_at(s, i) matches Some((p, spec, next)) ==> i < next <= s.len(),
{
    ident_end_bounds(s, i + 1);
    let end = ident_end(s, i + 1);
    if end < s.len() {
        closed_at_bounds(s, end + 1, '(', ')', 1);
    }
}

// ---- compounds ----

/// A character that ends a compound.
pub open spec fn ends_compound(c: char) -> bool {
    space(c) || c == '>' || c == '+' || c == '~' || c == ','
}

/// A character that no compound of this grammar holds: a class, an id, a
/// universal, a namespace, an unresolved nesting marker.
pub open spec fn foreign(c: char) -> bool {
    c == '.' || c == '#' || c == '*' || c == '|' || c == '&'
}

/// One compound that starts at `at`, read from `i` up to the next combinator
/// or the end.
pub open spec fn compound_from(
    s: Seq<char>,
    at: int,
    i: int,
    acc: CompoundV,
    spec: SpecV,
) -> Option<(CompoundV, SpecV, int)>
    decreases s.len() - i,
    when 0 <= at <= i <= s.len()
{
    if i >= s.len() || ends_compound(s[i]) {
        if i > at {
            Some((acc, spec, i))
        } else {
            None
        }
    } else if s[i] == '[' {
        proof {
            closed_at_bounds(s, i + 1, '[', ']', 1);
        }
        match closed_at(s, i + 1, '[', ']', 1) {
            Some(close) => match test_of(s.subrange(i + 1, close - 1)) {
                Some(t) => compound_from(
                    s,
                    at,
                    close,
                    CompoundV { tests: acc.tests.push(t), ..acc },
                    SpecV { b: spec.b + 1, ..spec },
                ),
                None => None,
            },
            None => None,
        }
    } else if s[i] == ':' {
        proof {
            pseudo_at_bounds(s, i);
        }
        match pseudo_at(s, i) {
            Some((p, more, next)) => compound_from(
                s,
                at,
                next,
                CompoundV { pseudos: acc.pseudos.push(p), ..acc },
                spec.plus(more),
            ),
            None => None,
        }
    } else if foreign(s[i]) || i > at {
        None
    } else {
        proof {
            ident_end_bounds(s, i);
        }
        let end = ident_end(s, i);
        if end <= i {
            None
        } else {
            match tag_named(lower(s.subrange(i, end))) {
                Some(tag) => compound_from(
                    s,
                    at,
                    end,
                    CompoundV { tag, ..acc },
                    SpecV { c: spec.c + 1, ..spec },
                ),
                None => None,
            }
        }
    }
}

pub open spec fn empty_compound(combinator: Combinator) -> CompoundV {
    CompoundV { combinator, tag: Tag::Untagged, tests: seq![], pseudos: seq![] }
}

/// The compounds from `i` on, joined to those on their left by `combinator`.
pub open spec fn complex_from(
    s: Seq<char>,
    i: int,
    combinator: Combinator,
    acc: Seq<CompoundV>,
    spec: SpecV,
) -> Option<(Seq<CompoundV>, SpecV)>
    decreases s.len() - i,
{
    let from = skip_space(s, i);
    match compound_from(s, from, from, empty_compound(combinator), SpecV::zero()) {
        None => None,
        Some((compound, part, end)) => {
            let all = acc.push(compound);
            let sum = spec.plus(part);
            let after = skip_space(s, end);
            if after >= s.len() {
                Some((all, sum))
            } else {
                let child = s[after] == '>';
                let sibling = s[after] == '+' || s[after] == '~';
                let next = if child {
                    skip_space(s, after + 1)
                } else {
                    after
                };
                if sibling || (!child && after <= end) || next >= s.len() || next <= i {
                    None
                } else {
                    let c = if child {
                        Combinator::Child
                    } else {
                        Combinator::Descendant
                    };
                    complex_from(s, next, c, all, sum)
                }
            }
        },
    }
}

/// A whole selector compiled: its compounds, subject last, and its packed
/// specificity.
pub open spec fn compiled(sel: Seq<char>) -> Option<(Seq<CompoundV>, nat)> {
    match complex_from(sel, 0, Combinator::Descendant, seq![], SpecV::zero()) {
        Some((compounds, spec)) => Some((compounds, spec.packed())),
        None => None,
    }
}

pub proof fn complex_has_a_compound(
    s: Seq<char>,
    i: int,
    combinator: Combinator,
    acc: Seq<CompoundV>,
    spec: SpecV,
)
    ensures
        complex_from(s, i, combinator, acc, spec) matches Some((all, _)) ==> all.len() > acc.len(),
    decreases s.len() - i,
{
    let from = skip_space(s, i);
    match compound_from(s, from, from, empty_compound(combinator), SpecV::zero()) {
        None => {},
        Some((compound, part, end)) => {
            let after = skip_space(s, end);
            if after < s.len() {
                let child = s[after] == '>';
                let next = if child {
                    skip_space(s, after + 1)
                } else {
                    after
                };
                if i < next < s.len() {
                    let c = if child {
                        Combinator::Child
                    } else {
                        Combinator::Descendant
                    };
                    complex_has_a_compound(s, next, c, acc.push(compound), spec.plus(part));
                }
            }
        },
    }
}


// ---- the executable grammar ----

/// One `data-*` attribute test.
pub struct Test {
    pub attr: Vec<char>,
    /// `None` tests presence alone.
    pub value: Option<Vec<char>>,
}

impl Test {
    pub open spec fn v(self) -> TestV {
        TestV {
            attr: self.attr@,
            value: match self.value {
                Some(v) => Some(v@),
                None => None,
            },
        }
    }
}

pub open spec fn tests_v(s: Seq<Test>) -> Seq<TestV> {
    s.map_values(|t: Test| t.v())
}

/// A compound with no pseudo-classes: what a selector-list pseudo's argument
/// may be.
pub struct Simple {
    /// How the argument relates to the anchor. Only `:has` reads it.
    pub rel: Combinator,
    pub tag: Tag,
    pub tests: Vec<Test>,
}

impl Simple {
    pub open spec fn v(self) -> SimpleV {
        SimpleV { rel: self.rel, tag: self.tag, tests: tests_v(self.tests@) }
    }
}

pub open spec fn simples_v(s: Seq<Simple>) -> Seq<SimpleV> {
    s.map_values(|t: Simple| t.v())
}

pub enum Pseudo {
    FirstChild,
    LastChild,
    FirstOfType,
    LastOfType,
    NthChild(Nth),
    NthLastChild(Nth),
    NthOfType(Nth),
    NthLastOfType(Nth),
    /// `:is(...)` and `:where(...)`: some argument matches this node.
    Is(Vec<Simple>),
    /// `:not(...)`: no argument matches this node.
    Not(Vec<Simple>),
    /// `:has(...)`: some argument matches a descendant, or a child when the
    /// argument is written `> x`.
    Has(Vec<Simple>),
}

impl Pseudo {
    pub open spec fn v(self) -> PseudoV {
        match self {
            Pseudo::FirstChild => PseudoV::FirstChild,
            Pseudo::LastChild => PseudoV::LastChild,
            Pseudo::FirstOfType => PseudoV::FirstOfType,
            Pseudo::LastOfType => PseudoV::LastOfType,
            Pseudo::NthChild(n) => PseudoV::NthChild(n),
            Pseudo::NthLastChild(n) => PseudoV::NthLastChild(n),
            Pseudo::NthOfType(n) => PseudoV::NthOfType(n),
            Pseudo::NthLastOfType(n) => PseudoV::NthLastOfType(n),
            Pseudo::Is(s) => PseudoV::Is(simples_v(s@)),
            Pseudo::Not(s) => PseudoV::Not(simples_v(s@)),
            Pseudo::Has(s) => PseudoV::Has(simples_v(s@)),
        }
    }
}

pub open spec fn pseudos_v(s: Seq<Pseudo>) -> Seq<PseudoV> {
    s.map_values(|t: Pseudo| t.v())
}

/// One compound selector.
pub struct Compound {
    /// How it joins its left neighbour. Meaningless, and `Descendant`, on
    /// the leftmost compound of a selector.
    pub combinator: Combinator,
    /// [`Tag::Untagged`] when the compound names no tag.
    pub tag: Tag,
    pub tests: Vec<Test>,
    pub pseudos: Vec<Pseudo>,
}

impl Compound {
    pub open spec fn v(self) -> CompoundV {
        CompoundV {
            combinator: self.combinator,
            tag: self.tag,
            tests: tests_v(self.tests@),
            pseudos: pseudos_v(self.pseudos@),
        }
    }
}

pub open spec fn compounds_v(s: Seq<Compound>) -> Seq<CompoundV> {
    s.map_values(|t: Compound| t.v())
}

/// Specificity, accumulated.
#[derive(Clone, Copy)]
struct Spec {
    b: usize,
    c: usize,
}

impl Spec {
    spec fn v(self) -> SpecV {
        SpecV { b: self.b as nat, c: self.c as nat }
    }

    spec fn total(self) -> int {
        self.b + self.c
    }

    fn packed(self) -> (r: u32)
        ensures
            r == self.v().packed(),
    {
        let b: u32 = if self.b < 0xffff {
            self.b as u32
        } else {
            0xffff
        };
        let c: u32 = if self.c < 0xffff {
            self.c as u32
        } else {
            0xffff
        };
        b * 0x10000 + c
    }
}

fn skip_ws(s: &[char], at: usize) -> (r: usize)
    requires
        at <= s.len(),
    ensures
        r == skip_space(s@, at as int),
        at <= r <= s.len(),
{
    let mut i: usize = at;
    while i < s.len() && (s[i] == ' ' || s[i] == '\t' || s[i] == '\r' || s[i] == '\n')
        invariant
            at <= i <= s.len(),
            skip_space(s@, at as int) == skip_space(s@, i as int),
        decreases s.len() - i,
    {
        i += 1;
    }
    i
}

fn end_of_ident(s: &[char], at: usize) -> (r: usize)
    requires
        at <= s.len(),
    ensures
        r == ident_end(s@, at as int),
        at <= r <= s.len(),
{
    let mut i: usize = at;
    while i < s.len()
        invariant
            at <= i <= s.len(),
            ident_end(s@, at as int) == ident_end(s@, i as int),
        decreases s.len() - i,
    {
        let c = s[i];
        if c == '\\' {
            if s.len() - i < 2 {
                return s.len();
            }
            i += 2;
        } else if is_ascii_alnum(c) || c == '-' || c == '_' || c as u32 >= 0x80 {
            i += 1;
        } else {
            return i;
        }
    }
    s.len()
}

fn end_of_quote(s: &[char], at: usize, quote: char) -> (r: usize)
    requires
        at <= s.len(),
    ensures
        r == quote_end(s@, at as int, quote),
        at <= r <= s.len(),
{
    let mut j: usize = at;
    while j < s.len()
        invariant
            at <= j <= s.len(),
            quote_end(s@, at as int, quote) == quote_end(s@, j as int, quote),
        decreases s.len() - j,
    {
        let c = s[j];
        if c == quote {
            return j + 1;
        } else if c == '\\' {
            if s.len() - j < 2 {
                return s.len();
            }
            j += 2;
        } else {
            j += 1;
        }
    }
    s.len()
}

/// Just past the closer matching the opener at `at`, or `None` when the input
/// never closes it.
fn end_of(s: &[char], at: usize, opener: char, closer: char) -> (r: Option<usize>)
    requires
        at < s.len(),
    ensures
        match r {
            Some(e) => {
                &&& closed_at(s@, at + 1, opener, closer, 1) == Some(e as int)
                &&& at + 2 <= e <= s.len()
            },
            None => closed_at(s@, at + 1, opener, closer, 1) is None,
        },
{
    let mut i: usize = at + 1;
    let mut depth: usize = 1;
    while i < s.len()
        invariant
            at < i <= s.len(),
            1 <= depth <= i,
            closed_at(s@, at + 1, opener, closer, 1) == closed_at(
                s@,
                i as int,
                opener,
                closer,
                depth as nat,
            ),
        decreases s.len() - i,
    {
        let c = s[i];
        if c == '"' || c == '\'' {
            i = end_of_quote(s, i + 1, c);
        } else if c == opener {
            depth += 1;
            i += 1;
        } else if c == closer {
            if depth == 1 {
                return Some(i + 1);
            }
            depth -= 1;
            i += 1;
        } else {
            i += 1;
        }
    }
    None
}

fn unquote<'a>(text: &'a [char]) -> (r: Option<&'a [char]>)
    ensures
        match r {
            Some(t) => unquoted(text@) == Some(t@),
            None => unquoted(text@) is None,
        },
{
    if text.len() == 0 {
        None
    } else if text[0] == '"' || text[0] == '\'' {
        if text.len() >= 2 && text[text.len() - 1] == text[0] {
            Some(slice_subrange(text, 1, text.len() - 1))
        } else {
            None
        }
    } else {
        Some(text)
    }
}

fn data_test(name: &[char], value: Option<Vec<char>>) -> (r: Option<Test>)
    ensures
        match r {
            Some(t) => named_test(
                name@,
                match value {
                    Some(v) => Some(v@),
                    None => None,
                },
            ) == Some(t.v()),
            None => named_test(
                name@,
                match value {
                    Some(v) => Some(v@),
                    None => None,
                },
            ) is None,
        },
{
    let attr = lower_of(name);
    let prefix = chars_of("data-");
    if name.len() > 0 && begins_with(attr.as_slice(), prefix.as_slice()) {
        Some(Test { attr, value })
    } else {
        None
    }
}

/// One attribute selector, its brackets already stripped.
fn parse_test(inner: &[char]) -> (r: Option<Test>)
    ensures
        match r {
            Some(t) => test_of(inner@) == Some(t.v()),
            None => test_of(inner@) is None,
        },
{
    let k = find_char(inner, '=');
    if k >= inner.len() {
        return data_test(trim_of(inner), None);
    }
    if k > 0 {
        let c = inner[k - 1];
        if c == '~' || c == '^' || c == '$' || c == '*' || c == '|' {
            return None;
        }
    }
    assert(inner@.skip(k + 1) =~= inner@.subrange(k + 1, inner@.len() as int));
    assert(inner@.take(k as int) =~= inner@.subrange(0, k as int));
    match unquote(trim_of(slice_subrange(inner, k + 1, inner.len()))) {
        Some(v) => data_test(trim_of(slice_subrange(inner, 0, k)), Some(copy_chars(v))),
        None => None,
    }
}

fn without_space(s: &[char]) -> (r: Vec<char>)
    ensures
        r@ == unspaced(s@),
{
    let mut r: Vec<char> = Vec::new();
    let mut i: usize = 0;
    while i < s.len()
        invariant
            i <= s.len(),
            r@ == unspaced(s@.take(i as int)),
        decreases s.len() - i,
    {
        assert(s@.take(i + 1).drop_last() =~= s@.take(i as int));
        if !s[i].is_whitespace() {
            r.push(s[i]);
        }
        i += 1;
    }
    assert(s@.take(i as int) =~= s@);
    r
}

fn parse_step(head: &[char]) -> (r: Option<i32>)
    ensures
        match r {
            Some(v) => nth_step(head@) == Some(v as int),
            None => nth_step(head@) is None,
        },
{
    if head.len() == 0 {
        return Some(1);
    }
    if head.len() == 1 && head[0] == '+' {
        assert(head@ =~= seq!['+']);
        return Some(1);
    }
    if head.len() == 1 && head[0] == '-' {
        assert(head@ =~= seq!['-']);
        return Some(-1);
    }
    parse_i32(head)
}

fn parse_offset(tail: &[char]) -> (r: Option<i32>)
    ensures
        match r {
            Some(v) => nth_offset(tail@) == Some(v as int),
            None => nth_offset(tail@) is None,
        },
{
    if tail.len() == 0 {
        return Some(0);
    }
    if tail[0] == '+' {
        assert(tail@.skip(1) =~= tail@.subrange(1, tail@.len() as int));
        return parse_i32(slice_subrange(tail, 1, tail.len()));
    }
    parse_i32(tail)
}

/// `even`, `odd`, an integer, or `An+B`.
fn parse_nth(arg: &[char]) -> (r: Option<Nth>)
    ensures
        r == nth_of(arg@),
{
    let text = without_space(arg);
    let lowered = lower_of(text.as_slice());
    let t = lowered.as_slice();
    if is_text(t, "even") {
        return Some(Nth { a: 2, b: 0 });
    }
    if is_text(t, "odd") {
        return Some(Nth { a: 2, b: 1 });
    }
    let k = find_char(t, 'n');
    if k >= t.len() {
        return match parse_i32(t) {
            Some(b) => Some(Nth { a: 0, b }),
            None => None,
        };
    }
    assert(t@.take(k as int) =~= t@.subrange(0, k as int));
    assert(t@.skip(k + 1) =~= t@.subrange(k + 1, t@.len() as int));
    match (parse_step(slice_subrange(t, 0, k)), parse_offset(slice_subrange(t, k + 1, t.len()))) {
        (Some(a), Some(b)) => Some(Nth { a, b }),
        _ => None,
    }
}

/// One pseudo argument: a compound with a tag, tests, and nothing else.
fn parse_simple(text: &[char], rel: Combinator) -> (r: Option<(Simple, Spec)>)
    ensures
        match r {
            Some((s, p)) => {
                &&& simple_from(
                    text@,
                    0,
                    SimpleV { rel, tag: Tag::Untagged, tests: seq![] },
                    SpecV::zero(),
                ) == Some((s.v(), p.v()))
                &&& p.total() <= text@.len()
            },
            None => simple_from(
                text@,
                0,
                SimpleV { rel, tag: Tag::Untagged, tests: seq![] },
                SpecV::zero(),
            ) is None,
        },
{
    let mut spec = Spec { b: 0, c: 0 };
    let mut tag = Tag::Untagged;
    let mut tests: Vec<Test> = Vec::new();
    let mut i: usize = 0;
    assert(tests_v(tests@) =~= seq![]);
    while i < text.len()
        invariant
            i <= text.len(),
            spec.total() <= i,
            simple_from(
                text@,
                0,
                SimpleV { rel, tag: Tag::Untagged, tests: seq![] },
                SpecV::zero(),
            ) == simple_from(
                text@,
                i as int,
                SimpleV { rel, tag, tests: tests_v(tests@) },
                spec.v(),
            ),
        decreases text.len() - i,
    {
        if text[i] == '[' {
            match end_of(text, i, '[', ']') {
                Some(close) => match parse_test(slice_subrange(text, i + 1, close - 1)) {
                    Some(test) => {
                        let ghost before = tests_v(tests@);
                        tests.push(test);
                        assert(tests_v(tests@) =~= before.push(test.v()));
                        spec = Spec { b: spec.b + 1, c: spec.c };
                        i = close;
                    },
                    None => {
                        return None;
                    },
                },
                None => {
                    return None;
                },
            }
        } else {
            if i > 0 {
                return None;
            }
            let end = end_of_ident(text, i);
            if end == i {
                return None;
            }
            let name = lower_of(slice_subrange(text, i, end));
            match tag_for(name.as_slice()) {
                Some(t) => {
                    tag = t;
                    spec = Spec { b: spec.b, c: spec.c + 1 };
                    i = end;
                },
                None => {
                    return None;
                },
            }
        }
    }
    if i > 0 {
        Some((Simple { rel, tag, tests }, spec))
    } else {
        None
    }
}

fn parse_argument(arg: &[char], relative: bool) -> (r: Option<(Simple, Spec)>)
    ensures
        match r {
            Some((s, p)) => {
                &&& argument(arg@, relative) == Some((s.v(), p.v()))
                &&& p.total() <= arg@.len()
            },
            None => argument(arg@, relative) is None,
        },
{
    let text = trim_of(arg);
    if text.len() > 0 && text[0] == '>' {
        if !relative {
            return None;
        }
        assert(text@.skip(1) =~= text@.subrange(1, text@.len() as int));
        parse_simple(trim_of(slice_subrange(text, 1, text.len())), Combinator::Child)
    } else {
        parse_simple(text, Combinator::Descendant)
    }
}

/// A selector-list pseudo's arguments.
///
/// `relative` allows each argument a leading `>`, which is what a `:has()`
/// argument may carry. The specificity returned is the most specific
/// argument's.
fn parse_args(args: &[char], relative: bool) -> (r: Option<(Vec<Simple>, Spec)>)
    ensures
        match r {
            Some((s, p)) => {
                &&& args_of(args@, relative) == Some((simples_v(s@), p.v()))
                &&& p.total() <= args@.len()
            },
            None => args_of(args@, relative) is None,
        },
{
    let parts = split_selectors(args);
    let mut best = Spec { b: 0, c: 0 };
    let mut out: Vec<Simple> = Vec::new();
    let mut i: usize = 0;
    let ghost all = texts(parts@);
    assert(simples_v(out@) =~= seq![]);
    while i < parts.len()
        invariant
            i <= parts.len(),
            all == texts(parts@),
            all == selectors_of(args@),
            forall|k: int| 0 <= k < parts@.len() ==> (#[trigger] parts@[k])@.len() <= args@.len(),
            best.total() <= args@.len(),
            arguments(all.take(i as int), relative) == Some((simples_v(out@), best.v())),
        decreases parts.len() - i,
    {
        assert(all.take(i + 1).drop_last() =~= all.take(i as int));
        assert(all.take(i + 1).last() == parts@[i as int]@);
        match parse_argument(parts[i].as_slice(), relative) {
            Some((simple, spec)) => {
                let ghost before = simples_v(out@);
                out.push(simple);
                assert(simples_v(out@) =~= before.push(simple.v()));
                if best.b < spec.b || (best.b == spec.b && best.c <= spec.c) {
                    best = spec;
                }
            },
            None => {
                proof {
                    no_arguments(all, i + 1, relative);
                }
                return None;
            },
        }
        i += 1;
    }
    assert(all.take(i as int) =~= all);
    if out.len() > 0 {
        Some((out, best))
    } else {
        None
    }
}

/// An unreadable argument makes the whole list unreadable.
proof fn no_arguments(args: Seq<Seq<char>>, k: int, relative: bool)
    requires
        0 <= k <= args.len(),
        arguments(args.take(k), relative) is None,
    ensures
        arguments(args, relative) is None,
    decreases args.len() - k,
{
    if k < args.len() {
        assert(args.take(k + 1).drop_last() =~= args.take(k));
        no_arguments(args, k + 1, relative);
    } else {
        assert(args.take(k) =~= args);
    }
}

fn parse_plain(name: &[char]) -> (r: Option<(Pseudo, Spec)>)
    ensures
        match r {
            Some((s, p)) => plain_pseudo(name@) == Some((s.v(), p.v())) && p.total() == 1,
            None => plain_pseudo(name@) is None,
        },
{
    let one = Spec { b: 1, c: 0 };
    if is_text(name, "first-child") {
        Some((Pseudo::FirstChild, one))
    } else if is_text(name, "last-child") {
        Some((Pseudo::LastChild, one))
    } else if is_text(name, "first-of-type") {
        Some((Pseudo::FirstOfType, one))
    } else if is_text(name, "last-of-type") {
        Some((Pseudo::LastOfType, one))
    } else {
        None
    }
}

fn parse_argued(name: &[char], arg: &[char]) -> (r: Option<(Pseudo, Spec)>)
    ensures
        match r {
            Some((s, p)) => {
                &&& argued_pseudo(name@, arg@) == Some((s.v(), p.v()))
                &&& p.total() <= arg@.len() + 1
            },
            None => argued_pseudo(name@, arg@) is None,
        },
{
    let one = Spec { b: 1, c: 0 };
    if is_text(name, "nth-child") {
        match parse_nth(arg) {
            Some(n) => Some((Pseudo::NthChild(n), one)),
            None => None,
        }
    } else if is_text(name, "nth-last-child") {
        match parse_nth(arg) {
            Some(n) => Some((Pseudo::NthLastChild(n), one)),
            None => None,
        }
    } else if is_text(name, "nth-of-type") {
        match parse_nth(arg) {
            Some(n) => Some((Pseudo::NthOfType(n), one)),
            None => None,
        }
    } else if is_text(name, "nth-last-of-type") {
        match parse_nth(arg) {
            Some(n) => Some((Pseudo::NthLastOfType(n), one)),
            None => None,
        }
    } else if is_text(name, "is") {
        match parse_args(arg, false) {
            Some((s, p)) => Some((Pseudo::Is(s), p)),
            None => None,
        }
    } else if is_text(name, "where") {
        match parse_args(arg, false) {
            Some((s, _)) => Some((Pseudo::Is(s), Spec { b: 0, c: 0 })),
            None => None,
        }
    } else if is_text(name, "not") {
        match parse_args(arg, false) {
            Some((s, p)) => Some((Pseudo::Not(s), p)),
            None => None,
        }
    } else if is_text(name, "has") {
        match parse_args(arg, true) {
            Some((s, p)) => Some((Pseudo::Has(s), p)),
            None => None,
        }
    } else {
        None
    }
}

/// The pseudo-class at a colon, its specificity, and where it ends.
fn parse_pseudo(s: &[char], at: usize) -> (r: Option<(Pseudo, Spec, usize)>)
    requires
        at < s.len(),
    ensures
        match r {
            Some((p, spec, next)) => {
                &&& pseudo_at(s@, at as int) == Some((p.v(), spec.v(), next as int))
                &&& at < next <= s.len()
                &&& spec.total() <= next - at
            },
            None => pseudo_at(s@, at as int) is None,
        },
{
    if at + 1 < s.len() && s[at + 1] == ':' {
        return None;
    }
    let end = end_of_ident(s, at + 1);
    let name = lower_of(slice_subrange(s, at + 1, end));
    if end < s.len() && s[end] == '(' {
        match end_of(s, end, '(', ')') {
            Some(close) => {
                let arg = trim_of(slice_subrange(s, end + 1, close - 1));
                match parse_argued(name.as_slice(), arg) {
                    Some((p, spec)) => Some((p, spec, close)),
                    None => None,
                }
            },
            None => None,
        }
    } else {
        match parse_plain(name.as_slice()) {
            Some((p, spec)) => Some((p, spec, end)),
            None => None,
        }
    }
}

/// One compound, from `at` up to the next combinator or the end.
fn parse_compound(s: &[char], at: usize, combinator: Combinator) -> (r: Option<(Compound, Spec, usize)>)
    requires
        at <= s.len(),
    ensures
        match r {
            Some((c, spec, next)) => {
                &&& compound_from(
                    s@,
                    at as int,
                    at as int,
                    empty_compound(combinator),
                    SpecV::zero(),
                ) == Some((c.v(), spec.v(), next as int))
                &&& at < next <= s.len()
                &&& spec.total() <= next - at
            },
            None => compound_from(
                s@,
                at as int,
                at as int,
                empty_compound(combinator),
                SpecV::zero(),
            ) is None,
        },
{
    let mut spec = Spec { b: 0, c: 0 };
    let mut tag = Tag::Untagged;
    let mut tests: Vec<Test> = Vec::new();
    let mut pseudos: Vec<Pseudo> = Vec::new();
    let mut i: usize = at;
    assert(tests_v(tests@) =~= seq![]);
    assert(pseudos_v(pseudos@) =~= seq![]);
    while i < s.len() && !(s[i] == ' ' || s[i] == '\t' || s[i] == '\r' || s[i] == '\n' || s[i] == '>'
        || s[i] == '+' || s[i] == '~' || s[i] == ',')
        invariant
            at <= i <= s.len(),
            spec.total() <= i - at,
            compound_from(
                s@,
                at as int,
                at as int,
                empty_compound(combinator),
                SpecV::zero(),
            ) == compound_from(
                s@,
                at as int,
                i as int,
                CompoundV {
                    combinator,
                    tag,
                    tests: tests_v(tests@),
                    pseudos: pseudos_v(pseudos@),
                },
                spec.v(),
            ),
        decreases s.len() - i,
    {
        let c = s[i];
        if c == '[' {
            match end_of(s, i, '[', ']') {
                Some(close) => match parse_test(slice_subrange(s, i + 1, close - 1)) {
                    Some(test) => {
                        let ghost before = tests_v(tests@);
                        tests.push(test);
                        assert(tests_v(tests@) =~= before.push(test.v()));
                        spec = Spec { b: spec.b + 1, c: spec.c };
                        i = close;
                    },
                    None => {
                        return None;
                    },
                },
                None => {
                    return None;
                },
            }
        } else if c == ':' {
            match parse_pseudo(s, i) {
                Some((pseudo, more, next)) => {
                    let ghost before = pseudos_v(pseudos@);
                    pseudos.push(pseudo);
                    assert(pseudos_v(pseudos@) =~= before.push(pseudo.v()));
                    spec = Spec { b: spec.b + more.b, c: spec.c + more.c };
                    i = next;
                },
                None => {
                    return None;
                },
            }
        } else if c == '.' || c == '#' || c == '*' || c == '|' || c == '&' || i > at {
            return None;
        } else {
            let end = end_of_ident(s, i);
            if end == i {
                return None;
            }
            let name = lower_of(slice_subrange(s, i, end));
            match tag_for(name.as_slice()) {
                Some(t) => {
                    tag = t;
                    spec = Spec { b: spec.b, c: spec.c + 1 };
                    i = end;
                },
                None => {
                    return None;
                },
            }
        }
    }
    if i == at {
        return None;
    }
    Some((Compound { combinator, tag, tests, pseudos }, spec, i))
}

/// One compiled selector.
pub struct Compiled {
    /// Subject compound last.
    pub sel: Vec<Compound>,
    /// CSS specificity, packed so that one comparison orders two rules.
    pub spec: u32,
}

/// Compiles one complex selector, or fails.
pub fn compile(sel: &[char]) -> (r: Option<Compiled>)
    ensures
        match r {
            Some(c) => {
                &&& compiled(sel@) == Some((compounds_v(c.sel@), c.spec as nat))
                &&& c.sel@.len() > 0
            },
            None => compiled(sel@) is None,
        },
{
    let s = sel;
    let mut out: Vec<Compound> = Vec::new();
    let mut spec = Spec { b: 0, c: 0 };
    let mut i: usize = 0;
    let mut combinator = Combinator::Descendant;
    assert(compounds_v(out@) =~= seq![]);
    loop
        invariant
            s@ == sel@,
            i <= s.len(),
            spec.total() <= i,
            complex_from(sel@, 0, Combinator::Descendant, seq![], SpecV::zero()) == complex_from(
                s@,
                i as int,
                combinator,
                compounds_v(out@),
                spec.v(),
            ),
        decreases s.len() - i,
    {
        let from = skip_ws(s, i);
        match parse_compound(s, from, combinator) {
            None => {
                return None;
            },
            Some((compound, part, end)) => {
                let ghost before = compounds_v(out@);
                out.push(compound);
                assert(compounds_v(out@) =~= before.push(compound.v()));
                spec = Spec { b: spec.b + part.b, c: spec.c + part.c };
                let after = skip_ws(s, end);
                if after >= s.len() {
                    return Some(Compiled { sel: out, spec: spec.packed() });
                }
                if s[after] == '>' {
                    i = skip_ws(s, after + 1);
                    combinator = Combinator::Child;
                } else if s[after] == '+' || s[after] == '~' || after == end {
                    return None;
                } else {
                    i = after;
                    combinator = Combinator::Descendant;
                }
                if i >= s.len() {
                    return None;
                }
            },
        }
    }
}

// ---- what a selector weighs ----

/// One for a tag that is named, nothing for none.
pub open spec fn names_a_tag(tag: Tag) -> nat {
    if tag == Tag::Untagged {
        0
    } else {
        1
    }
}

/// Is a specificity that of a tag and so many tests?
pub open spec fn weighs(tag: Tag, tests: nat, spec: SpecV) -> bool {
    spec.b == tests && spec.c == names_a_tag(tag)
}

proof fn simple_weighs(s: Seq<char>, i: int, acc: SimpleV, spec: SpecV)
    requires
        0 <= i <= s.len(),
        weighs(acc.tag, acc.tests.len(), spec),
        i == 0 ==> acc.tag == Tag::Untagged,
    ensures
        simple_from(s, i, acc, spec) matches Some((sim, w)) ==> weighs(
            sim.tag,
            sim.tests.len(),
            w,
        ) && sim.rel == acc.rel,
    decreases s.len() - i,
{
    if i < s.len() {
        if s[i] == '[' {
            closed_at_bounds(s, i + 1, '[', ']', 1);
            if let Some(close) = closed_at(s, i + 1, '[', ']', 1) {
                if let Some(t) = test_of(s.subrange(i + 1, close - 1)) {
                    simple_weighs(
                        s,
                        close,
                        SimpleV { tests: acc.tests.push(t), ..acc },
                        SpecV { b: spec.b + 1, ..spec },
                    );
                }
            }
        } else if i == 0 {
            ident_end_bounds(s, i);
            let end = ident_end(s, i);
            if end > i {
                if let Some(tag) = tag_named(lower(s.subrange(i, end))) {
                    simple_weighs(s, end, SimpleV { tag, ..acc }, SpecV { c: spec.c + 1, ..spec });
                }
            }
        }
    }
}

/// A pseudo-class argument weighs one in the first column for each attribute
/// that it tests and one in the second for its tag. It asks for a child exactly
/// where `>` leads it, and only `:has` lets it.
pub proof fn an_argument_weighs_what_it_names(arg: Seq<char>, relative: bool)
    ensures
        argument(arg, relative) matches Some((sim, w)) ==> {
            &&& weighs(sim.tag, sim.tests.len(), w)
            &&& sim.rel == Combinator::Child <==> trim(arg).len() > 0 && trim(arg)[0] == '>'
            &&& sim.rel == Combinator::Child ==> relative
        },
        argument(arg, false) is Some ==> argument(arg, true) == argument(arg, false),
        !(trim(arg).len() > 0 && trim(arg)[0] == '>') ==> argument(arg, true) == argument(arg, false),
{
    let text = trim(arg);
    let child = text.len() > 0 && text[0] == '>';
    let rest = if child {
        trim(text.skip(1))
    } else {
        text
    };
    let rel = if child {
        Combinator::Child
    } else {
        Combinator::Descendant
    };
    simple_weighs(
        rest,
        0,
        SimpleV { rel, tag: Tag::Untagged, tests: seq![] },
        SpecV::zero(),
    );
}

/// A list of arguments is as long as the list written, holds each of them in
/// its place, and weighs as its weightiest: no argument weighs more, by the
/// first column and, where that ties, by the second.
pub proof fn a_list_weighs_as_its_weightiest(args: Seq<Seq<char>>, relative: bool)
    ensures
        arguments(args, relative) matches Some((sims, best)) ==> {
            &&& sims.len() == args.len()
            &&& forall|k: int|
                0 <= k < args.len() ==> (argument(#[trigger] args[k], relative) matches Some((sim, w))
                    && sim == sims[k] && (w.b < best.b || w.b == best.b && w.c <= best.c))
            &&& args.len() > 0 ==> exists|k: int|
                0 <= k < args.len() && (argument(#[trigger] args[k], relative) matches Some((_, w))
                    && w == best)
        },
        arguments(args, relative) is None ==> exists|k: int|
            0 <= k < args.len() && argument(#[trigger] args[k], relative) is None,
    decreases args.len(),
{
    if args.len() > 0 {
        let front = args.drop_last();
        a_list_weighs_as_its_weightiest(front, relative);
        let n = args.len() - 1;
        assert(args[n] == args.last());
        match (arguments(front, relative), argument(args.last(), relative)) {
            (Some((sims, b)), Some((sim, w))) => {
                let best = b.max(w);
                let all = sims.push(sim);
                assert forall|k: int| 0 <= k < args.len() implies (argument(
                    #[trigger] args[k],
                    relative,
                ) matches Some((sk, wk)) && sk == all[k] && (wk.b < best.b || wk.b == best.b && wk.c
                    <= best.c)) by {
                    if k < n {
                        assert(front[k] == args[k]);
                    }
                }
                if best == w {
                    assert(argument(args[n], relative) matches Some((_, x)) && x == best);
                } else if front.len() > 0 {
                    let k = choose|k: int|
                        0 <= k < front.len() && (argument(#[trigger] front[k], relative) matches Some((
                            _,
                            x,
                        )) && x == b);
                    assert(args[k] == front[k]);
                }
            },
            (None, _) => {
                let k = choose|k: int|
                    0 <= k < front.len() && argument(#[trigger] front[k], relative) is None;
                assert(args[k] == front[k]);
            },
            _ => {
                assert(argument(args[n], relative) is None);
            },
        }
    }
}

proof fn a_list_reads_as_relative(args: Seq<Seq<char>>)
    ensures
        arguments(args, false) is Some ==> arguments(args, true) == arguments(args, false),
    decreases args.len(),
{
    if args.len() > 0 {
        a_list_reads_as_relative(args.drop_last());
        an_argument_weighs_what_it_names(args.last(), false);
    }
}

/// `:is`, `:where`, `:not` and `:has` read one list alike. `:where` asks for
/// what `:is` asks for and weighs nothing; `:not` and `:has` weigh as `:is`
/// does. An empty list is none.
pub proof fn the_list_forms_read_one_list(arg: Seq<char>)
    ensures
        argued_pseudo("is"@, arg) matches Some((p, w)) ==> {
            &&& p matches PseudoV::Is(sims)
            &&& sims.len() > 0
            &&& sims.len() == selectors_of(arg).len()
            &&& argued_pseudo("where"@, arg) == Some((PseudoV::Is(sims), SpecV { b: 0, c: 0 }))
            &&& argued_pseudo("not"@, arg) == Some((PseudoV::Not(sims), w))
            &&& argued_pseudo("has"@, arg) == Some((PseudoV::Has(sims), w))
        },
        argued_pseudo("is"@, arg) is None <==> argued_pseudo("not"@, arg) is None,
        argued_pseudo("is"@, arg) is None <==> argued_pseudo("where"@, arg) is None,
        selectors_of(arg).len() == 0 ==> argued_pseudo("is"@, arg) is None && argued_pseudo(
            "has"@,
            arg,
        ) is None,
{
    names_differ();
    a_list_reads_as_relative(selectors_of(arg));
    a_list_weighs_as_its_weightiest(selectors_of(arg), false);
    a_list_weighs_as_its_weightiest(selectors_of(arg), true);
}

/// The four counting pseudo-classes read one argument alike, and each weighs
/// one attribute test.
pub proof fn the_counting_forms_read_one_argument(arg: Seq<char>)
    ensures
        match nth_of(arg) {
            Some(n) => {
                &&& argued_pseudo("nth-child"@, arg) == Some(
                    (PseudoV::NthChild(n), SpecV { b: 1, c: 0 }),
                )
                &&& argued_pseudo("nth-last-child"@, arg) == Some(
                    (PseudoV::NthLastChild(n), SpecV { b: 1, c: 0 }),
                )
                &&& argued_pseudo("nth-of-type"@, arg) == Some(
                    (PseudoV::NthOfType(n), SpecV { b: 1, c: 0 }),
                )
                &&& argued_pseudo("nth-last-of-type"@, arg) == Some(
                    (PseudoV::NthLastOfType(n), SpecV { b: 1, c: 0 }),
                )
            },
            None => {
                &&& argued_pseudo("nth-child"@, arg) is None
                &&& argued_pseudo("nth-last-child"@, arg) is None
                &&& argued_pseudo("nth-of-type"@, arg) is None
                &&& argued_pseudo("nth-last-of-type"@, arg) is None
            },
        },
{
    names_differ();
}

proof fn names_differ()
    ensures
        "nth-child"@.len() == 9,
        "nth-last-child"@.len() == 14,
        "nth-of-type"@.len() == 11,
        "nth-last-of-type"@.len() == 16,
        "is"@.len() == 2,
        "where"@.len() == 5,
        "not"@.len() == 3,
        "has"@.len() == 3,
        "not"@[0] == 'n',
        "has"@[0] == 'h',
{
    reveal_strlit("nth-child");
    reveal_strlit("nth-last-child");
    reveal_strlit("nth-of-type");
    reveal_strlit("nth-last-of-type");
    reveal_strlit("is");
    reveal_strlit("where");
    reveal_strlit("not");
    reveal_strlit("has");
}

/// `An+B` with its two numbers written out means those two numbers, `even` and
/// `odd` are every second from the second or the first on, and a number alone
/// is that one position. White space and capitals make no difference.
pub proof fn an_plus_b_means_its_numbers(arg: Seq<char>, a: Seq<char>, b: Seq<char>)
    requires
        a.len() > 0,
        all_digits(a),
        numeral(a) <= i32::MAX,
        b.len() > 0,
        all_digits(b),
        numeral(b) <= i32::MAX,
    ensures
        ({
            let t = lower(unspaced(arg));
            let x = numeral(a) as i32;
            let y = numeral(b) as i32;
            &&& t == a + seq!['n', '+'] + b ==> nth_of(arg) == Some(Nth { a: x, b: y })
            &&& t == a + seq!['n', '-'] + b ==> nth_of(arg) == Some(Nth { a: x, b: (-y) as i32 })
            &&& t == seq!['-'] + a + seq!['n', '+'] + b ==> nth_of(arg) == Some(
                Nth { a: (-x) as i32, b: y },
            )
            &&& t == a + seq!['n'] ==> nth_of(arg) == Some(Nth { a: x, b: 0 })
            &&& t == seq!['n', '+'] + b ==> nth_of(arg) == Some(Nth { a: 1, b: y })
            &&& t == seq!['-', 'n', '+'] + b ==> nth_of(arg) == Some(Nth { a: -1i32, b: y })
            &&& t == b ==> nth_of(arg) == Some(Nth { a: 0, b: y })
            &&& t == "even"@ ==> nth_of(arg) == Some(Nth { a: 2, b: 0 })
            &&& t == "odd"@ ==> nth_of(arg) == Some(Nth { a: 2, b: 1 })
        }),
{
    reveal_strlit("even");
    reveal_strlit("odd");
    let t = lower(unspaced(arg));
    first_at_is_least(t, 'n');
    let k = first_at(t, 'n');
    assert("even"@[0] == 'e' && "odd"@[0] == 'o');
    assert(ascii_digit(a[0]) && ascii_digit(b[0]));
    let n = a.len() as int;
    if t == a + seq!['n', '+'] + b {
        assert(t[n] == 'n');
        assert(t[0] == a[0]);
        before_the_n(t, a, n);
        assert(t.take(n) =~= a);
        assert(t.skip(n + 1)[0] == '+');
        assert(t.skip(n + 1).skip(1) =~= b);
    }
    if t == a + seq!['n', '-'] + b {
        assert(t[n] == 'n');
        assert(t[0] == a[0]);
        before_the_n(t, a, n);
        assert(t.take(n) =~= a);
        assert(t.skip(n + 1)[0] == '-');
        assert(t.skip(n + 1).skip(1) =~= b);
    }
    if t == seq!['-'] + a + seq!['n', '+'] + b {
        let d = seq!['-'] + a;
        assert(t[n + 1] == 'n');
        assert(t[0] == '-');
        assert forall|j: int| 0 <= j < n + 1 implies t[j] != 'n' by {
            if j > 0 {
                assert(t[j] == a[j - 1]);
            }
        }
        assert(k == n + 1);
        assert(t.take(n + 1) =~= d);
        assert(d.skip(1) =~= a);
        assert(d != seq!['-']) by {
            assert(d.len() > 1);
        }
        assert(t.skip(n + 2)[0] == '+');
        assert(t.skip(n + 2).skip(1) =~= b);
    }
    if t == a + seq!['n'] {
        assert(t[n] == 'n');
        assert(t[0] == a[0]);
        before_the_n(t, a, n);
        assert(t.take(n) =~= a);
        assert(t.skip(n + 1).len() == 0);
    }
    if t == seq!['n', '+'] + b {
        assert(t[0] == 'n');
        assert(t.take(0).len() == 0);
        assert(t.skip(1)[0] == '+');
        assert(t.skip(1).skip(1) =~= b);
    }
    if t == seq!['-', 'n', '+'] + b {
        assert(t[0] == '-' && t[1] == 'n');
        assert(k == 1);
        assert(t.take(1) =~= seq!['-']);
        assert(t.skip(2)[0] == '+');
        assert(t.skip(2).skip(1) =~= b);
    }
    if t == b {
        before_the_n(t, b, b.len() as int);
        assert(k == b.len());
    }
}

/// No digit is an `n`.
proof fn before_the_n(t: Seq<char>, a: Seq<char>, n: int)
    requires
        0 <= n <= a.len(),
        n <= t.len(),
        all_digits(a),
        forall|j: int| 0 <= j < n ==> t[j] == a[j],
    ensures
        forall|j: int| 0 <= j < n ==> t[j] != 'n',
        n < t.len() && t[n] == 'n' ==> first_at(t, 'n') == n,
        n == t.len() ==> first_at(t, 'n') == n,
{
    first_at_is_least(t, 'n');
    assert forall|j: int| 0 <= j < n implies t[j] != 'n' by {
        assert(ascii_digit(a[j]));
    }
}

/// One packed number orders two specificities as their columns do, the first
/// column first, while neither column runs over.
pub proof fn packing_keeps_the_order(x: SpecV, y: SpecV)
    requires
        x.b <= 0xffff,
        x.c <= 0xffff,
        y.b <= 0xffff,
        y.c <= 0xffff,
    ensures
        x.packed() < y.packed() <==> x.b < y.b || (x.b == y.b && x.c < y.c),
        x.packed() == y.packed() <==> x == y,
        x.max(y) == x || x.max(y) == y,
        x.max(y).packed() >= x.packed(),
        x.max(y).packed() >= y.packed(),
{
}

/// Is a pseudo-class one that looks at a node's place?
pub open spec fn structural(p: PseudoV) -> bool {
    !(p is Is) && !(p is Not) && !(p is Has)
}

proof fn plain_weighs_one(s: Seq<char>, i: int)
    ensures
        pseudo_at(s, i) matches Some((p, w, _)) ==> structural(p) ==> w == (SpecV { b: 1, c: 0 }),
{
}

proof fn compound_weighs(s: Seq<char>, at: int, i: int, acc: CompoundV, spec: SpecV)
    requires
        0 <= at <= i <= s.len(),
        i == at ==> acc.tag == Tag::Untagged,
        forall|k: int| 0 <= k < acc.pseudos.len() ==> structural(#[trigger] acc.pseudos[k]),
        weighs(acc.tag, acc.tests.len() + acc.pseudos.len(), spec),
    ensures
        compound_from(s, at, i, acc, spec) matches Some((c, w, end)) ==> {
            &&& c.combinator == acc.combinator
            &&& i <= end <= s.len()
            &&& c.pseudos.len() >= acc.pseudos.len()
            &&& c.pseudos.take(acc.pseudos.len() as int) == acc.pseudos
            &&& (forall|k: int| 0 <= k < c.pseudos.len() ==> structural(#[trigger] c.pseudos[k]))
                ==> weighs(c.tag, c.tests.len() + c.pseudos.len(), w)
        },
    decreases s.len() - i,
{
    assert(acc.pseudos.take(acc.pseudos.len() as int) =~= acc.pseudos);
    if i < s.len() && !ends_compound(s[i]) {
        if s[i] == '[' {
            closed_at_bounds(s, i + 1, '[', ']', 1);
            if let Some(close) = closed_at(s, i + 1, '[', ']', 1) {
                if let Some(t) = test_of(s.subrange(i + 1, close - 1)) {
                    compound_weighs(
                        s,
                        at,
                        close,
                        CompoundV { tests: acc.tests.push(t), ..acc },
                        SpecV { b: spec.b + 1, ..spec },
                    );
                }
            }
        } else if s[i] == ':' {
            pseudo_at_bounds(s, i);
            plain_weighs_one(s, i);
            if let Some((p, more, next)) = pseudo_at(s, i) {
                let acc2 = CompoundV { pseudos: acc.pseudos.push(p), ..acc };
                if structural(p) {
                    compound_weighs(s, at, next, acc2, spec.plus(more));
                } else {
                    pseudos_are_kept(s, at, next, acc2, spec.plus(more));
                }
                if let Some((c, w, end)) = compound_from(s, at, next, acc2, spec.plus(more)) {
                    let n = acc.pseudos.len() as int;
                    assert(c.pseudos.take(n) =~= c.pseudos.take(n + 1).take(n));
                    assert(acc2.pseudos.take(n) =~= acc.pseudos);
                    assert(c.pseudos[n] == c.pseudos.take(n + 1)[n]);
                }
            }
        } else if !foreign(s[i]) && i == at {
            ident_end_bounds(s, i);
            let end = ident_end(s, i);
            if end > i {
                if let Some(tag) = tag_named(lower(s.subrange(i, end))) {
                    compound_weighs(
                        s,
                        at,
                        end,
                        CompoundV { tag, ..acc },
                        SpecV { c: spec.c + 1, ..spec },
                    );
                }
            }
        }
    }
}

proof fn pseudos_are_kept(s: Seq<char>, at: int, i: int, acc: CompoundV, spec: SpecV)
    requires
        0 <= at <= i <= s.len(),
    ensures
        compound_from(s, at, i, acc, spec) matches Some((c, w, end)) ==> {
            &&& c.combinator == acc.combinator
            &&& i <= end <= s.len()
            &&& c.pseudos.len() >= acc.pseudos.len()
            &&& c.pseudos.take(acc.pseudos.len() as int) == acc.pseudos
        },
    decreases s.len() - i,
{
    assert(acc.pseudos.take(acc.pseudos.len() as int) =~= acc.pseudos);
    if i < s.len() && !ends_compound(s[i]) {
        if s[i] == '[' {
            closed_at_bounds(s, i + 1, '[', ']', 1);
            if let Some(close) = closed_at(s, i + 1, '[', ']', 1) {
                if let Some(t) = test_of(s.subrange(i + 1, close - 1)) {
                    pseudos_are_kept(
                        s,
                        at,
                        close,
                        CompoundV { tests: acc.tests.push(t), ..acc },
                        SpecV { b: spec.b + 1, ..spec },
                    );
                }
            }
        } else if s[i] == ':' {
            pseudo_at_bounds(s, i);
            if let Some((p, more, next)) = pseudo_at(s, i) {
                let acc2 = CompoundV { pseudos: acc.pseudos.push(p), ..acc };
                pseudos_are_kept(s, at, next, acc2, spec.plus(more));
                if let Some((c, w, end)) = compound_from(s, at, next, acc2, spec.plus(more)) {
                    let n = acc.pseudos.len() as int;
                    assert(c.pseudos.take(n) =~= c.pseudos.take(n + 1).take(n));
                    assert(acc2.pseudos.take(n) =~= acc.pseudos);
                }
            }
        } else if !foreign(s[i]) && i == at {
            ident_end_bounds(s, i);
            let end = ident_end(s, i);
            if end > i {
                if let Some(tag) = tag_named(lower(s.subrange(i, end))) {
                    pseudos_are_kept(
                        s,
                        at,
                        end,
                        CompoundV { tag, ..acc },
                        SpecV { c: spec.c + 1, ..spec },
                    );
                }
            }
        }
    }
}

/// A compound weighs one in the first column for each attribute that it tests
/// and each place that it asks for, and one in the second for its tag. A
/// selector list weighs what its list does, and is left out here.
pub proof fn a_compound_weighs_what_it_names(s: Seq<char>, at: int, combinator: Combinator)
    requires
        0 <= at <= s.len(),
    ensures
        compound_from(s, at, at, empty_compound(combinator), SpecV::zero()) matches Some((
            c,
            w,
            end,
        )) ==> {
            &&& c.combinator == combinator
            &&& at < end <= s.len()
            &&& (forall|k: int| 0 <= k < c.pseudos.len() ==> structural(#[trigger] c.pseudos[k]))
                ==> w.b == c.tests.len() + c.pseudos.len() && w.c == names_a_tag(c.tag)
        },
{
    compound_weighs(s, at, at, empty_compound(combinator), SpecV::zero());
    compound_moves(s, at, at, empty_compound(combinator), SpecV::zero());
}

proof fn compound_moves(s: Seq<char>, at: int, i: int, acc: CompoundV, spec: SpecV)
    requires
        0 <= at <= i <= s.len(),
    ensures
        compound_from(s, at, i, acc, spec) matches Some((c, w, end)) ==> at < end,
{
    if i < s.len() && !ends_compound(s[i]) {
        pseudos_are_kept(s, at, i, acc, spec);
        if s[i] == '[' {
            closed_at_bounds(s, i + 1, '[', ']', 1);
            if let Some(close) = closed_at(s, i + 1, '[', ']', 1) {
                if let Some(t) = test_of(s.subrange(i + 1, close - 1)) {
                    pseudos_are_kept(
                        s,
                        at,
                        close,
                        CompoundV { tests: acc.tests.push(t), ..acc },
                        SpecV { b: spec.b + 1, ..spec },
                    );
                }
            }
        } else if s[i] == ':' {
            pseudo_at_bounds(s, i);
            if let Some((p, more, next)) = pseudo_at(s, i) {
                let acc2 = CompoundV { pseudos: acc.pseudos.push(p), ..acc };
                pseudos_are_kept(s, at, next, acc2, spec.plus(more));
            }
        } else if !foreign(s[i]) && i == at {
            ident_end_bounds(s, i);
            let end = ident_end(s, i);
            if end > i {
                if let Some(tag) = tag_named(lower(s.subrange(i, end))) {
                    pseudos_are_kept(
                        s,
                        at,
                        end,
                        CompoundV { tag, ..acc },
                        SpecV { c: spec.c + 1, ..spec },
                    );
                }
            }
        }
    }
}

// ---- what joins two compounds ----

/// Does a compound stand from `a` to `e`?
pub open spec fn read_at(s: Seq<char>, c: CompoundV, a: int, e: int) -> bool {
    &&& 0 <= a < e <= s.len()
    &&& compound_from(s, a, a, empty_compound(c.combinator), SpecV::zero()) matches Some((
        x,
        _,
        end,
    )) && x == c && end == e
}

/// Is there only CSS white space from `e` to `a`?
pub open spec fn blank(s: Seq<char>, e: int, a: int) -> bool {
    &&& e <= a
    &&& forall|i: int| e <= i < a ==> (#[trigger] s[i]) == ' ' || s[i] == '\t' || s[i] == '\r' || s[i]
        == '\n'
}

/// Does nothing but white space, or white space around one `>`, stand from `e`
/// to `a`?
pub open spec fn joined_by(s: Seq<char>, e: int, a: int, c: Combinator) -> bool {
    match c {
        Combinator::Descendant => e < a && blank(s, e, a),
        Combinator::Child => exists|m: int|
            e <= m < a && (#[trigger] s[m]) == '>' && blank(s, e, m) && blank(s, m + 1, a),
    }
}

proof fn skipped_is_blank(s: Seq<char>, i: int)
    requires
        0 <= i <= s.len(),
    ensures
        i <= skip_space(s, i) <= s.len(),
        blank(s, i, skip_space(s, i)),
    decreases s.len() - i,
{
    if i < s.len() && space(s[i]) {
        skipped_is_blank(s, i + 1);
    }
}

proof fn compounds_stand(
    s: Seq<char>,
    i: int,
    combinator: Combinator,
    acc: Seq<CompoundV>,
    spec: SpecV,
) -> (at: (Seq<int>, Seq<int>))
    requires
        0 <= i <= s.len(),
        complex_from(s, i, combinator, acc, spec) is Some,
    ensures
        ({
            let all = (complex_from(s, i, combinator, acc, spec)->0).0;
            let n = all.len() - acc.len();
            &&& n > 0
            &&& at.0.len() == n
            &&& at.1.len() == n
            &&& all.take(acc.len() as int) == acc
            &&& all[acc.len() as int].combinator == combinator
            &&& blank(s, i, at.0[0])
            &&& blank(s, at.1.last(), s.len() as int)
            &&& forall|k: int|
                0 <= k < n ==> read_at(s, all[acc.len() + k], #[trigger] at.0[k], at.1[k])
            &&& forall|k: int|
                1 <= k < n ==> joined_by(
                    s,
                    at.1[k - 1],
                    #[trigger] at.0[k],
                    all[acc.len() + k].combinator,
                )
        }),
    decreases s.len() - i,
{
    skipped_is_blank(s, i);
    let from = skip_space(s, i);
    a_compound_weighs_what_it_names(s, from, combinator);
    let (compound, part, end) = compound_from(
        s,
        from,
        from,
        empty_compound(combinator),
        SpecV::zero(),
    )->0;
    let more = acc.push(compound);
    skipped_is_blank(s, end);
    let after = skip_space(s, end);
    assert(more.take(acc.len() as int) =~= acc);
    if after >= s.len() {
        (seq![from], seq![end])
    } else {
        let child = s[after] == '>';
        if child {
            skipped_is_blank(s, after + 1);
        }
        let next = if child {
            skip_space(s, after + 1)
        } else {
            after
        };
        let c = if child {
            Combinator::Child
        } else {
            Combinator::Descendant
        };
        let rest = compounds_stand(s, next, c, more, spec.plus(part));
        let all = (complex_from(s, next, c, more, spec.plus(part))->0).0;
        let starts = seq![from] + rest.0;
        let ends = seq![end] + rest.1;
        assert(all.take(acc.len() as int) =~= all.take(more.len() as int).take(acc.len() as int));
        assert(all[acc.len() as int] == all.take(more.len() as int)[acc.len() as int]);
        assert(ends.last() == rest.1.last());
        let n = all.len() - acc.len();
        assert forall|k: int| 0 <= k < n implies read_at(
            s,
            all[acc.len() + k],
            #[trigger] starts[k],
            ends[k],
        ) by {
            if k > 0 {
                assert(starts[k] == rest.0[k - 1]);
                assert(ends[k] == rest.1[k - 1]);
                assert(all[acc.len() + k] == all[more.len() + (k - 1)]);
            }
        }
        assert forall|k: int| 1 <= k < n implies joined_by(
            s,
            ends[k - 1],
            #[trigger] starts[k],
            all[acc.len() + k].combinator,
        ) by {
            assert(starts[k] == rest.0[k - 1]);
            assert(all[acc.len() + k] == all[more.len() + (k - 1)]);
            if k > 1 {
                assert(ends[k - 1] == rest.1[k - 2]);
            } else {
                assert(ends[0] == end);
                // White space may stand before the compound that follows too.
                let a = rest.0[0];
                assert(blank(s, next, a));
                if child {
                    assert(s[after] == '>' && blank(s, end, after) && blank(s, after + 1, a));
                } else {
                    assert(blank(s, end, a));
                }
            }
        }
        (starts, ends)
    }
}

/// A compiled selector is its compounds in the order written. A compound is a
/// child of the one before it where a `>` stands between the two, and a
/// descendant where only white space does; nothing else stands between two, nor
/// around them all.
pub proof fn a_child_is_joined_by_an_arrow(sel: Seq<char>) -> (at: (Seq<int>, Seq<int>))
    requires
        compiled(sel) is Some,
    ensures
        ({
            let all = (compiled(sel)->0).0;
            &&& all.len() > 0
            &&& at.0.len() == all.len()
            &&& at.1.len() == all.len()
            &&& blank(sel, 0, at.0[0])
            &&& blank(sel, at.1.last(), sel.len() as int)
            &&& forall|k: int|
                0 <= k < all.len() ==> read_at(sel, all[k], #[trigger] at.0[k], at.1[k])
            &&& forall|k: int|
                1 <= k < all.len() ==> joined_by(
                    sel,
                    at.1[k - 1],
                    #[trigger] at.0[k],
                    all[k].combinator,
                )
        }),
{
    compounds_stand(sel, 0, Combinator::Descendant, seq![], SpecV::zero())
}

/// A selector weighs no less for another compound: what it weighs is the sum
/// of what its compounds weigh.
pub proof fn a_selector_weighs_its_compounds(
    s: Seq<char>,
    i: int,
    combinator: Combinator,
    acc: Seq<CompoundV>,
    spec: SpecV,
)
    ensures
        match (
            complex_from(s, i, combinator, acc, spec),
            complex_from(s, i, combinator, acc, SpecV::zero()),
        ) {
            (Some((all, w)), Some((all0, w0))) => all0 == all && w.b == spec.b + w0.b && w.c == spec.c
                + w0.c,
            (None, None) => true,
            _ => false,
        },
    decreases s.len() - i,
{
    let from = skip_space(s, i);
    match compound_from(s, from, from, empty_compound(combinator), SpecV::zero()) {
        None => {},
        Some((compound, part, end)) => {
            let after = skip_space(s, end);
            if after < s.len() {
                let child = s[after] == '>';
                let next = if child {
                    skip_space(s, after + 1)
                } else {
                    after
                };
                if i < next < s.len() {
                    let c = if child {
                        Combinator::Child
                    } else {
                        Combinator::Descendant
                    };
                    a_selector_weighs_its_compounds(s, next, c, acc.push(compound), spec.plus(part));
                    a_selector_weighs_its_compounds(
                        s,
                        next,
                        c,
                        acc.push(compound),
                        SpecV::zero().plus(part),
                    );
                }
            }
        },
    }
}

// ---- what an attribute test asks ----

/// A test asks for a `data-` attribute in small letters. `[name]` asks whether
/// the attribute is there; `[name=value]` asks for the value, and quotes around
/// it change nothing.
pub proof fn quotes_change_no_test(name: Seq<char>, value: Seq<char>, quote: char)
    requires
        !name.contains('='),
        name.len() > 0,
        !white(name[0]),
        !white(name.last()),
        !family(name.last()),
        quote == '"' || quote == '\'',
        value.len() > 0,
        !white(value[0]),
        !white(value.last()),
        value[0] != '"' && value[0] != '\'',
    ensures
        test_of(name) matches Some(t) ==> t.attr == lower(name) && t.value is None && begins(
            t.attr,
            "data-"@,
        ),
        test_of(name) is Some <==> test_of(name + seq!['='] + value) is Some,
        test_of(name + seq!['='] + value) matches Some(t) ==> t.attr == lower(name) && t.value == Some(
            value,
        ),
        test_of(name + seq!['=', quote] + value + seq![quote]) == test_of(
            name + seq!['='] + value,
        ),
{
    let n = name.len() as int;
    tight_text_is_trimmed(name);
    tight_text_is_trimmed(value);
    first_at_is_least(name, '=');
    let plain = name + seq!['='] + value;
    first_at_is_least(plain, '=');
    assert(plain[n] == '=');
    assert forall|j: int| 0 <= j < n implies plain[j] != '=' by {
        assert(plain[j] == name[j]);
    }
    assert(first_at(plain, '=') == n);
    assert(plain.skip(n + 1) =~= value);
    assert(plain.take(n) =~= name);
    assert(plain[n - 1] == name.last());
    let quoted = name + seq!['=', quote] + value + seq![quote];
    let q = seq![quote] + value + seq![quote];
    first_at_is_least(quoted, '=');
    assert(quoted[n] == '=');
    assert forall|j: int| 0 <= j < n implies quoted[j] != '=' by {
        assert(quoted[j] == name[j]);
    }
    assert(first_at(quoted, '=') == n);
    assert(quoted.skip(n + 1) =~= q);
    assert(quoted.take(n) =~= name);
    assert(quoted[n - 1] == name.last());
    tight_text_is_trimmed(q);
    assert(q.subrange(1, q.len() - 1) =~= value);
}

/// A text with no white space at its ends is trimmed already.
pub proof fn tight_text_is_trimmed(s: Seq<char>)
    requires
        s.len() > 0,
        !white(s[0]),
        !white(s.last()),
    ensures
        trim(s) == s,
{
}

/// A bracket ends at its own closer: with no quote and no further opener on the
/// way, at the first one.
pub proof fn a_bracket_ends_at_its_closer(s: Seq<char>, i: int, opener: char, closer: char, e: int)
    requires
        0 <= i <= s.len(),
        opener != closer,
        !(closer == '"' || closer == '\''),
        closed_at(s, i, opener, closer, 1) == Some(e),
    ensures
        i < e <= s.len(),
        s[e - 1] == closer,
        (forall|j: int| i <= j < e ==> (#[trigger] s[j]) != opener && s[j] != '"' && s[j] != '\'')
            ==> forall|j: int| i <= j < e - 1 ==> (#[trigger] s[j]) != closer,
    decreases s.len() - i,
{
    closed_at_bounds(s, i, opener, closer, 1);
    closes_on_a_closer(s, i, opener, closer, 1);
    if forall|j: int| i <= j < e ==> (#[trigger] s[j]) != opener && s[j] != '"' && s[j] != '\'' {
        assert(s[i] != opener && s[i] != '"' && s[i] != '\'');
        if s[i] != closer {
            a_bracket_ends_at_its_closer(s, i + 1, opener, closer, e);
        }
    }
}

proof fn closes_on_a_closer(s: Seq<char>, i: int, opener: char, closer: char, depth: nat)
    requires
        0 <= i <= s.len(),
    ensures
        closed_at(s, i, opener, closer, depth) matches Some(e) ==> 0 < e <= s.len() && s[e - 1]
            == closer,
    decreases s.len() - i,
{
    if i < s.len() {
        if s[i] == '"' || s[i] == '\'' {
            quote_end_bounds(s, i + 1, s[i]);
            closes_on_a_closer(s, quote_end(s, i + 1, s[i]), opener, closer, depth);
        } else if s[i] == opener {
            closes_on_a_closer(s, i + 1, opener, closer, depth + 1);
        } else if s[i] == closer {
            if depth > 1 {
                closes_on_a_closer(s, i + 1, opener, closer, (depth - 1) as nat);
            }
        } else {
            closes_on_a_closer(s, i + 1, opener, closer, depth);
        }
    }
}

/// A level that opens inside a bracket closes inside it: one more level takes
/// one more closer.
pub proof fn a_level_inside_closes_inside(s: Seq<char>, i: int, opener: char, closer: char, depth: nat)
    requires
        0 <= i <= s.len(),
        depth >= 1,
    ensures
        closed_at(s, i, opener, closer, depth + 1) == (match closed_at(s, i, opener, closer, 1) {
            Some(e) => if 0 <= e <= s.len() {
                closed_at(s, e, opener, closer, depth)
            } else {
                None
            },
            None => None,
        }),
    decreases s.len() - i,
{
    levels_add_up(s, i, opener, closer, 1, depth);
}

proof fn levels_add_up(s: Seq<char>, i: int, opener: char, closer: char, d: nat, depth: nat)
    requires
        0 <= i <= s.len(),
        depth >= 1,
        d >= 1,
    ensures
        closed_at(s, i, opener, closer, depth + d) == (match closed_at(s, i, opener, closer, d) {
            Some(e) => if 0 <= e <= s.len() {
                closed_at(s, e, opener, closer, depth)
            } else {
                None
            },
            None => None,
        }),
    decreases s.len() - i,
{
    closed_at_bounds(s, i, opener, closer, d);
    if i < s.len() {
        if s[i] == '"' || s[i] == '\'' {
            quote_end_bounds(s, i + 1, s[i]);
            levels_add_up(s, quote_end(s, i + 1, s[i]), opener, closer, d, depth);
        } else if s[i] == opener {
            levels_add_up(s, i + 1, opener, closer, d + 1, depth);
        } else if s[i] == closer {
            if d > 1 {
                levels_add_up(s, i + 1, opener, closer, (d - 1) as nat, depth);
            }
        } else {
            levels_add_up(s, i + 1, opener, closer, d, depth);
        }
    }
}

/// A class, an id, a universal, a namespace or a nesting marker is no compound
/// of this grammar, and a pseudo-element no pseudo-class of it.
pub proof fn what_content_cannot_have_is_refused(
    s: Seq<char>,
    at: int,
    acc: CompoundV,
    spec: SpecV,
)
    requires
        0 <= at < s.len(),
    ensures
        s[at] == '.' || s[at] == '#' || s[at] == '*' || s[at] == '|' || s[at] == '&' ==> compound_from(
            s,
            at,
            at,
            acc,
            spec,
        ) is None,
        s[at] == ':' && at + 1 < s.len() && s[at + 1] == ':' ==> compound_from(
            s,
            at,
            at,
            acc,
            spec,
        ) is None,
        s[at] == '+' || s[at] == '~' || s[at] == ',' || s[at] == '>' ==> compound_from(
            s,
            at,
            at,
            acc,
            spec,
        ) is None,
{
}

/// A test that compares more loosely than for equality is none, and neither is
/// one of an attribute that content cannot have.
pub proof fn only_data_attributes_are_tested(inner: Seq<char>, k: int)
    requires
        first_at(inner, '=') == k,
        0 < k < inner.len(),
    ensures
        inner[k - 1] == '~' || inner[k - 1] == '^' || inner[k - 1] == '$' || inner[k - 1] == '*'
            || inner[k - 1] == '|' ==> test_of(inner) is None,
        test_of(inner) matches Some(t) ==> begins(t.attr, "data-"@) && t.value is Some,
{
}

} // verus!
