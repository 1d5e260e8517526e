//! A `styles.css` file from one Dictionary, compiled as a bounded matcher.
//!
//! A Dictionary may carry a stylesheet, which applies only to its own entries.
//! Structured content has no `class` attribute, so a stylesheet can name only
//! a tag or a `data-*` attribute from a node's `data` map. The [`select`]
//! module holds that grammar. A selector outside it drops its whole rule, and
//! each drop is counted.
//!
//! [`apply`] merges the declarations that win into the resolved style record
//! of each node, ahead of the inline `style` attribute, which then wins. The
//! renderer reads one style record for each node and does not know about CSS.
pub mod matching;
pub mod scan;
pub mod select;

use crate::chars::{copy_chars, is_text, same_chars, string_of, texts, words, words_of};
use crate::dict::gloss::{
    folded, style_v, wins_for, wins_v, DocV, GlossDoc, NodeV, Scalar, ScalarV,
    StyleKey, Tag, Win, WinV, MAX_DEPTH,
};
use matching::{
    compound_matches, path_ok, pos_of, position,
    reachable, sel_matches, selectable, selects, tagged, test_matches, Step,
};
use scan::{decls_v, error_v, rules_v, scan, scanned, RuleV};
use select::{compile, compiled, compounds_v, Compiled, Compound, CompoundV, Test, TestV};
use vstd::prelude::*;

verus! {

/// Selector kinds that this grammar compiles.
pub const SUPPORTED_SELECTOR_KINDS: [&'static str; 3] = ["tag", "data-attr", "pseudo-class"];

/// Pseudo-classes that this grammar compiles. Those that report pointer or
/// history state are not among them: gloss content in a popup has neither.
pub const SUPPORTED_PSEUDO_CLASSES: [&'static str; 12] = [
    "first-child",
    "last-child",
    "first-of-type",
    "last-of-type",
    "nth-child",
    "nth-last-child",
    "nth-of-type",
    "nth-last-of-type",
    "is",
    "where",
    "not",
    "has",
];


// ---- properties ----

/// The property that a stylesheet names, where this build maps it.
pub open spec fn css_named(prop: Seq<char>) -> Option<StyleKey> {
    if prop == "font-style"@ {
        Some(StyleKey::FontStyle)
    } else if prop == "font-weight"@ {
        Some(StyleKey::FontWeight)
    } else if prop == "font-size"@ {
        Some(StyleKey::FontSize)
    } else if prop == "text-decoration-line"@ {
        Some(StyleKey::TextDecorationLine)
    } else if prop == "text-decoration-style"@ {
        Some(StyleKey::TextDecorationStyle)
    } else if prop == "text-decoration-color"@ {
        Some(StyleKey::TextDecorationColor)
    } else if prop == "vertical-align"@ {
        Some(StyleKey::VerticalAlign)
    } else if prop == "text-align"@ {
        Some(StyleKey::TextAlign)
    } else if prop == "white-space"@ {
        Some(StyleKey::WhiteSpace)
    } else if prop == "word-break"@ {
        Some(StyleKey::WordBreak)
    } else if prop == "cursor"@ {
        Some(StyleKey::Cursor)
    } else if prop == "list-style-type"@ {
        Some(StyleKey::ListStyleType)
    } else if prop == "color"@ {
        Some(StyleKey::Color)
    } else if prop == "background-color"@ {
        Some(StyleKey::BackgroundColor)
    } else if prop == "border-color"@ {
        Some(StyleKey::BorderColor)
    } else if prop == "border-style"@ {
        Some(StyleKey::BorderStyle)
    } else if prop == "border-radius"@ {
        Some(StyleKey::BorderRadius)
    } else if prop == "border-width"@ {
        Some(StyleKey::BorderWidth)
    } else if prop == "margin"@ {
        Some(StyleKey::Margin)
    } else if prop == "margin-top"@ {
        Some(StyleKey::MarginTop)
    } else if prop == "margin-right"@ {
        Some(StyleKey::MarginRight)
    } else if prop == "margin-bottom"@ {
        Some(StyleKey::MarginBottom)
    } else if prop == "margin-left"@ {
        Some(StyleKey::MarginLeft)
    } else if prop == "padding"@ {
        Some(StyleKey::Padding)
    } else if prop == "padding-top"@ {
        Some(StyleKey::PaddingTop)
    } else if prop == "padding-right"@ {
        Some(StyleKey::PaddingRight)
    } else if prop == "padding-bottom"@ {
        Some(StyleKey::PaddingBottom)
    } else if prop == "padding-left"@ {
        Some(StyleKey::PaddingLeft)
    } else {
        None
    }
}

/// The CSS spelling of each property that this build maps.
pub fn css_key(prop: &[char]) -> (r: Option<StyleKey>)
    ensures
        r == css_named(prop@),
{
    if is_text(prop, "font-style") {
        Some(StyleKey::FontStyle)
    } else if is_text(prop, "font-weight") {
        Some(StyleKey::FontWeight)
    } else if is_text(prop, "font-size") {
        Some(StyleKey::FontSize)
    } else if is_text(prop, "text-decoration-line") {
        Some(StyleKey::TextDecorationLine)
    } else if is_text(prop, "text-decoration-style") {
        Some(StyleKey::TextDecorationStyle)
    } else if is_text(prop, "text-decoration-color") {
        Some(StyleKey::TextDecorationColor)
    } else if is_text(prop, "vertical-align") {
        Some(StyleKey::VerticalAlign)
    } else if is_text(prop, "text-align") {
        Some(StyleKey::TextAlign)
    } else if is_text(prop, "white-space") {
        Some(StyleKey::WhiteSpace)
    } else if is_text(prop, "word-break") {
        Some(StyleKey::WordBreak)
    } else if is_text(prop, "cursor") {
        Some(StyleKey::Cursor)
    } else if is_text(prop, "list-style-type") {
        Some(StyleKey::ListStyleType)
    } else if is_text(prop, "color") {
        Some(StyleKey::Color)
    } else if is_text(prop, "background-color") {
        Some(StyleKey::BackgroundColor)
    } else if is_text(prop, "border-color") {
        Some(StyleKey::BorderColor)
    } else if is_text(prop, "border-style") {
        Some(StyleKey::BorderStyle)
    } else if is_text(prop, "border-radius") {
        Some(StyleKey::BorderRadius)
    } else if is_text(prop, "border-width") {
        Some(StyleKey::BorderWidth)
    } else if is_text(prop, "margin") {
        Some(StyleKey::Margin)
    } else if is_text(prop, "margin-top") {
        Some(StyleKey::MarginTop)
    } else if is_text(prop, "margin-right") {
        Some(StyleKey::MarginRight)
    } else if is_text(prop, "margin-bottom") {
        Some(StyleKey::MarginBottom)
    } else if is_text(prop, "margin-left") {
        Some(StyleKey::MarginLeft)
    } else if is_text(prop, "padding") {
        Some(StyleKey::Padding)
    } else if is_text(prop, "padding-top") {
        Some(StyleKey::PaddingTop)
    } else if is_text(prop, "padding-right") {
        Some(StyleKey::PaddingRight)
    } else if is_text(prop, "padding-bottom") {
        Some(StyleKey::PaddingBottom)
    } else if is_text(prop, "padding-left") {
        Some(StyleKey::PaddingLeft)
    } else {
        None
    }
}

/// The four longhands that a shorthand sets, in top-right-bottom-left order.
pub open spec fn edges(key: StyleKey) -> Option<Seq<StyleKey>> {
    match key {
        StyleKey::Margin => Some(
            seq![
                StyleKey::MarginTop,
                StyleKey::MarginRight,
                StyleKey::MarginBottom,
                StyleKey::MarginLeft,
            ],
        ),
        StyleKey::Padding => Some(
            seq![
                StyleKey::PaddingTop,
                StyleKey::PaddingRight,
                StyleKey::PaddingBottom,
                StyleKey::PaddingLeft,
            ],
        ),
        _ => None,
    }
}

fn edges_of(key: StyleKey) -> (r: Option<[StyleKey; 4]>)
    ensures
        match r {
            Some(e) => edges(key) == Some(e@),
            None => edges(key) is None,
        },
{
    match key {
        StyleKey::Margin => {
            let e = [
                StyleKey::MarginTop,
                StyleKey::MarginRight,
                StyleKey::MarginBottom,
                StyleKey::MarginLeft,
            ];
            assert(e@ =~= edges(key).unwrap());
            Some(e)
        },
        StyleKey::Padding => {
            let e = [
                StyleKey::PaddingTop,
                StyleKey::PaddingRight,
                StyleKey::PaddingBottom,
                StyleKey::PaddingLeft,
            ];
            assert(e@ =~= edges(key).unwrap());
            Some(e)
        },
        _ => None,
    }
}

/// Does an inline property already set this one, by name or as its shorthand?
pub open spec fn shadows(inline: StyleKey, css: StyleKey) -> bool {
    inline == css || match edges(inline) {
        Some(e) => e.contains(css),
        None => false,
    }
}

fn shadowed_by(inline: StyleKey, css: StyleKey) -> (r: bool)
    ensures
        r == shadows(inline, css),
{
    if inline == css {
        return true;
    }
    match edges_of(inline) {
        Some(e) => {
            let r = e[0] == css || e[1] == css || e[2] == css || e[3] == css;
            proof {
                if r {
                    assert(e@[0] == css || e@[1] == css || e@[2] == css || e@[3] == css);
                } else {
                    assert forall|k: int| 0 <= k < e@.len() implies e@[k] != css by {
                        assert(k == 0 || k == 1 || k == 2 || k == 3);
                    }
                }
            }
            r
        },
        None => false,
    }
}

// ---- declarations ----

/// Does a text hold `var(`?
pub open spec fn has_var(s: Seq<char>) -> bool {
    exists|k: int|
        0 <= k && k + 4 <= s.len() && #[trigger] s[k] == 'v' && s[k + 1] == 'a' && s[k + 2] == 'r'
            && s[k + 3] == '('
}

fn holds_var(s: &[char]) -> (r: bool)
    ensures
        r == has_var(s@),
{
    let mut k: usize = 0;
    while s.len() - k >= 4
        invariant
            k <= s@.len(),
            forall|j: int|
                0 <= j < k && j + 4 <= s@.len() ==> !(#[trigger] s@[j] == 'v' && s@[j + 1] == 'a' && s@[j
                    + 2] == 'r' && s@[j + 3] == '('),
        decreases s@.len() - k,
    {
        if s[k] == 'v' && s[k + 1] == 'a' && s[k + 2] == 'r' && s[k + 3] == '(' {
            return true;
        }
        k += 1;
    }
    false
}

/// A declaration that this build maps to a [`StyleKey`].
pub struct Decl {
    pub key: StyleKey,
    /// The value text stays verbatim. The layout pass parses it.
    pub value: Vec<char>,
    pub important: bool,
}

/// What a mapped declaration holds.
#[verifier::ext_equal]
pub struct MappedV {
    pub key: StyleKey,
    pub value: Seq<char>,
    pub important: bool,
}

impl Decl {
    pub open spec fn v(self) -> MappedV {
        MappedV { key: self.key, value: self.value@, important: self.important }
    }
}

pub open spec fn mapped_v(s: Seq<Decl>) -> Seq<MappedV> {
    s.map_values(|d: Decl| d.v())
}

/// Which word of a shorthand's value sets its edge `i`, if the value has one
/// to four words.
pub open spec fn edge_word(n: nat, i: int) -> Option<int> {
    if n == 1 {
        Some(0)
    } else if n == 2 {
        Some(i % 2)
    } else if n == 3 {
        Some(
            if i == 3 {
                1
            } else {
                i
            },
        )
    } else if n == 4 {
        Some(i)
    } else {
        None
    }
}

/// What one declaration maps to, and how many properties it loses. A `var()`
/// value and an unmapped property are lost; a `margin` or `padding` shorthand
/// expands into the four longhands that it sets.
pub open spec fn mapped(d: scan::DeclV) -> (Seq<MappedV>, nat) {
    if has_var(d.value) {
        (seq![], 1)
    } else {
        match css_named(d.prop) {
            None => (seq![], 1),
            Some(key) => match edges(key) {
                None => (seq![MappedV { key, value: d.value, important: d.important }], 0),
                Some(e) => {
                    let parts = words(d.value);
                    if 1 <= parts.len() <= 4 {
                        (
                            Seq::new(
                                4,
                                |i: int|
                                    MappedV {
                                        key: e[i],
                                        value: parts[edge_word(parts.len(), i).unwrap()],
                                        important: d.important,
                                    },
                            ),
                            0,
                        )
                    } else {
                        (seq![], 4)
                    }
                },
            },
        }
    }
}

/// What a rule's declarations map to, and how many properties they lose.
pub open spec fn mapped_all(ds: Seq<scan::DeclV>) -> (Seq<MappedV>, nat)
    decreases ds.len(),
{
    if ds.len() == 0 {
        (seq![], 0)
    } else {
        let (head, lost) = mapped_all(ds.drop_last());
        let (tail, more) = mapped(ds.last());
        (head + tail, lost + more)
    }
}

// ---- the sheet ----

/// Counts what the compile step of one `styles.css` file keeps and drops.
///
/// `kept + dropped_selector + dropped_at_rule + no_decls` always equals
/// `rules`.
#[derive(Clone, Debug, Default, PartialEq, Eq)]
pub struct SheetCounts {
    /// Style rules that the scanner recovered, at-rule bodies included.
    pub rules: usize,
    /// Rules compiled into the table.
    pub kept: usize,
    /// Rules dropped because a selector leaves the supported grammar.
    pub dropped_selector: usize,
    /// Rules inside an at-rule body, which are dropped.
    pub dropped_at_rule: usize,
    /// Rules whose selectors compile but whose declarations contain no
    /// property that this build maps.
    pub no_decls: usize,
    /// Compiled selectors, after selector lists and nesting expand.
    pub selectors: usize,
    /// Compiled declarations, after `margin` and `padding` expand. Only kept
    /// rules contribute.
    pub declarations: usize,
    /// Declarations without a property map, or with a `var()` value.
    pub dropped_declarations: usize,
    /// The first scanner complaint when the text is malformed.
    pub error: Option<&'static str>,
}

/// What a compiled rule holds.
#[verifier::ext_equal]
pub struct StyleRuleV {
    /// Subject compound last.
    pub sel: Seq<CompoundV>,
    /// Packed CSS specificity.
    pub spec: nat,
    pub decls: Seq<MappedV>,
}

/// What a sheet holds. A rule's position is its source order.
#[verifier::ext_equal]
pub struct SheetV {
    pub rules: Seq<StyleRuleV>,
    pub kept: nat,
    pub dropped_selector: nat,
    pub dropped_at_rule: nat,
    pub no_decls: nat,
    pub declarations: nat,
    pub lost: nat,
}

/// Every selector of a list compiled, or none when one of them leaves the
/// grammar.
pub open spec fn compiled_all(sels: Seq<Seq<char>>) -> Option<Seq<(Seq<CompoundV>, nat)>>
    decreases sels.len(),
{
    if sels.len() == 0 {
        Some(seq![])
    } else {
        match (compiled_all(sels.drop_last()), compiled(sels.last())) {
            (Some(head), Some(c)) => Some(head.push(c)),
            _ => None,
        }
    }
}

impl SheetV {
    pub open spec fn start() -> SheetV {
        SheetV {
            rules: seq![],
            kept: 0,
            dropped_selector: 0,
            dropped_at_rule: 0,
            no_decls: 0,
            declarations: 0,
            lost: 0,
        }
    }

    /// The sheet with one more scanned rule. One unreadable selector drops
    /// the rule whole.
    pub open spec fn add(self, r: RuleV) -> SheetV {
        if r.in_at_rule {
            SheetV { dropped_at_rule: self.dropped_at_rule + 1, ..self }
        } else {
            match compiled_all(r.selectors) {
                None => SheetV { dropped_selector: self.dropped_selector + 1, ..self },
                Some(sels) => {
                    let (decls, lost) = mapped_all(r.decls);
                    if decls.len() == 0 {
                        SheetV { no_decls: self.no_decls + 1, lost: self.lost + lost, ..self }
                    } else {
                        SheetV {
                            rules: self.rules + sels.map_values(
                                |c: (Seq<CompoundV>, nat)|
                                    StyleRuleV { sel: c.0, spec: c.1, decls },
                            ),
                            kept: self.kept + 1,
                            declarations: self.declarations + decls.len(),
                            lost: self.lost + lost,
                            ..self
                        }
                    }
                },
            }
        }
    }
}

/// The sheet of a list of scanned rules.
pub open spec fn sheet_of(rules: Seq<RuleV>) -> SheetV
    decreases rules.len(),
{
    if rules.len() == 0 {
        SheetV::start()
    } else {
        sheet_of(rules.drop_last()).add(rules.last())
    }
}

/// The sheet that a stylesheet's text compiles to.
pub open spec fn sheet_for(css: Seq<char>) -> SheetV {
    sheet_of(scanned(css).rules)
}

/// A count held at the top of its type.
pub open spec fn counted(n: nat) -> usize {
    if n < usize::MAX {
        n as usize
    } else {
        usize::MAX
    }
}

impl SheetCounts {
    /// Do these counts say what a sheet compiled from `css` kept and dropped?
    pub open spec fn of(self, css: Seq<char>) -> bool {
        let v = sheet_for(css);
        &&& self.rules == scanned(css).rules.len()
        &&& self.kept == v.kept
        &&& self.dropped_selector == v.dropped_selector
        &&& self.dropped_at_rule == v.dropped_at_rule
        &&& self.no_decls == v.no_decls
        &&& self.selectors == v.rules.len()
        &&& self.declarations == v.declarations
        &&& self.dropped_declarations == counted(v.lost)
        &&& error_v(self.error) == scanned(css).error
    }

    /// Returns the total number of rules that the build drops.
    pub fn dropped(&self) -> (r: usize)
        requires
            self.dropped_selector + self.dropped_at_rule <= usize::MAX,
        ensures
            r == self.dropped_selector + self.dropped_at_rule,
    {
        self.dropped_selector + self.dropped_at_rule
    }
}

/// Each scanned rule lands in exactly one count.
pub proof fn every_rule_is_counted_once(rules: Seq<RuleV>)
    ensures
        sheet_of(rules).kept + sheet_of(rules).dropped_selector + sheet_of(rules).dropped_at_rule
            + sheet_of(rules).no_decls == rules.len(),
    decreases rules.len(),
{
    if rules.len() > 0 {
        every_rule_is_counted_once(rules.drop_last());
    }
}

proof fn compiled_selectors(sels: Seq<Seq<char>>)
    ensures
        compiled_all(sels) matches Some(all) ==> all.len() == sels.len() && forall|i: int|
            0 <= i < all.len() ==> (#[trigger] all[i]).0.len() > 0,
    decreases sels.len(),
{
    if sels.len() > 0 {
        compiled_selectors(sels.drop_last());
        select::complex_has_a_compound(
            sels.last(),
            0,
            select::Combinator::Descendant,
            seq![],
            select::SpecV::zero(),
        );
    }
}

/// Every rule of a sheet has a selector and a declaration.
pub proof fn a_kept_rule_selects_and_declares(rules: Seq<RuleV>)
    ensures
        forall|i: int|
            0 <= i < sheet_of(rules).rules.len() ==> (#[trigger] sheet_of(rules).rules[i]).sel.len()
                > 0 && sheet_of(rules).rules[i].decls.len() > 0,
    decreases rules.len(),
{
    if rules.len() > 0 {
        a_kept_rule_selects_and_declares(rules.drop_last());
        compiled_selectors(rules.last().selectors);
        let before = sheet_of(rules.drop_last()).rules;
        let all = sheet_of(rules).rules;
        assert forall|i: int| 0 <= i < all.len() implies (#[trigger] all[i]).sel.len() > 0
            && all[i].decls.len() > 0 by {
            if i < before.len() {
                assert(all[i] == before[i]);
            }
        }
    }
}

proof fn kept_rules_are_rules(rules: Seq<RuleV>)
    requires
        scan::selecting(rules),
    ensures
        (sheet_of(rules).rules.len() == 0) == (sheet_of(rules).kept == 0),
    decreases rules.len(),
{
    if rules.len() > 0 {
        kept_rules_are_rules(rules.drop_last());
        compiled_selectors(rules.last().selectors);
        assert(rules[rules.len() - 1].selectors.len() > 0);
    }
}

/// A stylesheet compiles to a sheet without rules exactly where no rule of it
/// was kept.
pub proof fn a_sheet_is_empty_when_nothing_was_kept(css: Seq<char>)
    ensures
        (sheet_for(css).rules.len() == 0) == (sheet_for(css).kept == 0),
{
    scan::scan_keeps_order(css, 0, scan::StateV::start());
    kept_rules_are_rules(scanned(css).rules);
}


// ---- the compiled sheet ----

/// One compiled selector and the declarations it carries.
struct Rule {
    sel: Vec<Compound>,
    spec: u32,
    /// Where its declarations start in the pool, and how many they are.
    at: usize,
    len: usize,
}

spec fn rule_v(r: Rule, decls: Seq<Decl>) -> StyleRuleV {
    StyleRuleV {
        sel: compounds_v(r.sel@),
        spec: r.spec as nat,
        decls: mapped_v(decls.subrange(r.at as int, r.at + r.len)),
    }
}

spec fn styles_v(rules: Seq<Rule>, decls: Seq<Decl>) -> Seq<StyleRuleV> {
    rules.map_values(|r: Rule| rule_v(r, decls))
}

spec fn rules_ok(rules: Seq<Rule>, decls: Seq<Decl>) -> bool {
    forall|i: int|
        0 <= i < rules.len() ==> (#[trigger] rules[i]).sel@.len() > 0 && rules[i].at + rules[i].len
            <= decls.len()
}

/// The most selective thing that a rule's subject names: an attribute test,
/// one with a value first; a tag; nothing.
enum Subject {
    Test(Test),
    Tag(Tag),
    Any,
}

#[verifier::ext_equal]
enum SubjectV {
    Test(TestV),
    Tag(Tag),
    Any,
}

impl Subject {
    spec fn v(self) -> SubjectV {
        match self {
            Subject::Test(t) => SubjectV::Test(t.v()),
            Subject::Tag(t) => SubjectV::Tag(t),
            Subject::Any => SubjectV::Any,
        }
    }
}

/// The first test from `k` on with a value, or the first of all.
spec fn chosen(tests: Seq<TestV>, k: int) -> TestV
    decreases tests.len() - k,
{
    if k >= tests.len() {
        tests[0]
    } else if tests[k].value is Some {
        tests[k]
    } else {
        chosen(tests, k + 1)
    }
}

proof fn chosen_is_one(tests: Seq<TestV>, k: int)
    requires
        0 <= k <= tests.len(),
        tests.len() > 0,
    ensures
        exists|j: int| 0 <= j < tests.len() && #[trigger] tests[j] == chosen(tests, k),
    decreases tests.len() - k,
{
    if k < tests.len() {
        if tests[k].value is Some {
            assert(tests[k] == chosen(tests, k));
        } else {
            chosen_is_one(tests, k + 1);
        }
    } else {
        assert(tests[0] == chosen(tests, k));
    }
}

spec fn subject_of(c: CompoundV) -> SubjectV {
    if c.tests.len() > 0 {
        SubjectV::Test(chosen(c.tests, 0))
    } else if c.tag != Tag::Untagged {
        SubjectV::Tag(c.tag)
    } else {
        SubjectV::Any
    }
}

/// Could a rule with this subject match the node?
spec fn fits(node: NodeV, s: SubjectV) -> bool {
    match s {
        SubjectV::Test(t) => test_matches(node, t),
        SubjectV::Tag(t) => node.tag == t,
        SubjectV::Any => true,
    }
}

/// Rules that share a subject.
struct Bucket {
    subject: Subject,
    rules: Vec<usize>,
}

spec fn in_bucket(b: Bucket, s: SubjectV, i: int) -> bool {
    b.subject.v() == s && exists|k: int| 0 <= k < b.rules@.len() && #[trigger] b.rules@[k] == i
}

/// Rule `i` stands in the bucket of its subject.
spec fn bucketed(buckets: Seq<Bucket>, rules: Seq<StyleRuleV>, i: int) -> bool {
    exists|k: int|
        0 <= k < buckets.len() && in_bucket(
            #[trigger] buckets[k],
            subject_of(rules[i].sel.last()),
            i,
        )
}

/// Do buckets hold rules below `n` by their subjects: one bucket for a
/// subject, and the rules of a bucket in source order?
spec fn buckets_ok(buckets: Seq<Bucket>, rules: Seq<StyleRuleV>, n: int) -> bool {
    &&& forall|b: int, w: int|
        0 <= b < buckets.len() && 0 <= w < buckets[b].rules@.len()
            ==> (#[trigger] buckets[b].rules@[w]) < n && buckets[b].subject.v() == subject_of(
            rules[buckets[b].rules@[w] as int].sel.last(),
        )
    &&& forall|a: int, b: int|
        0 <= a < b < buckets.len() ==> (#[trigger] buckets[a]).subject.v() != (
        #[trigger] buckets[b]).subject.v()
    &&& forall|b: int, v: int, w: int|
        0 <= b < buckets.len() && 0 <= v < w < buckets[b].rules@.len()
            ==> #[trigger] buckets[b].rules@[v] < #[trigger] buckets[b].rules@[w]
}

/// No rule stands in two places of the buckets.
spec fn entered_once(buckets: Seq<Bucket>) -> bool {
    forall|a: int, v: int, b: int, w: int|
        0 <= a < buckets.len() && 0 <= v < buckets[a].rules@.len() && 0 <= b < buckets.len() && 0
            <= w < buckets[b].rules@.len() && #[trigger] buckets[a].rules@[v]
            == #[trigger] buckets[b].rules@[w] ==> a == b && v == w
}

proof fn ordered_buckets_enter_once(buckets: Seq<Bucket>, rules: Seq<StyleRuleV>, n: int)
    requires
        buckets_ok(buckets, rules, n),
    ensures
        entered_once(buckets),
{
    assert forall|a: int, v: int, b: int, w: int|
        0 <= a < buckets.len() && 0 <= v < buckets[a].rules@.len() && 0 <= b < buckets.len() && 0
            <= w < buckets[b].rules@.len() && #[trigger] buckets[a].rules@[v]
            == #[trigger] buckets[b].rules@[w] implies a == b && v == w by {
        if a < b {
            assert(buckets[a].subject.v() != buckets[b].subject.v());
        } else if b < a {
            assert(buckets[b].subject.v() != buckets[a].subject.v());
        } else if v < w {
            assert(buckets[a].rules@[v] < buckets[a].rules@[w]);
        } else if w < v {
            assert(buckets[a].rules@[w] < buckets[a].rules@[v]);
        }
    }
}

/// The compiled stylesheet for one dictionary.
pub struct Sheet {
    /// One entry for each kept selector, not for each source rule.
    rules: Vec<Rule>,
    /// Declarations, which several rules can share.
    decls: Vec<Decl>,
    /// Candidate rules by their subject. Each rule enters exactly one bucket.
    buckets: Vec<Bucket>,
    counts: SheetCounts,
    css: Ghost<Seq<char>>,
}

impl Sheet {
    #[verifier::type_invariant]
    spec fn inv(self) -> bool {
        &&& rules_ok(self.rules@, self.decls@)
        &&& styles_v(self.rules@, self.decls@) == sheet_for(self.css@).rules
        &&& buckets_ok(self.buckets@, sheet_for(self.css@).rules, self.rules@.len() as int)
        &&& entered_once(self.buckets@)
        &&& forall|i: int|
            0 <= i < self.rules@.len() ==> #[trigger] bucketed(
                self.buckets@,
                sheet_for(self.css@).rules,
                i,
            )
        &&& self.counts.of(self.css@)
    }

    /// The text that this sheet was compiled from.
    pub closed spec fn text(self) -> Seq<char> {
        self.css@
    }
}

impl View for Sheet {
    type V = SheetV;

    /// What the text compiles to.
    closed spec fn view(&self) -> SheetV {
        sheet_for(self.css@)
    }
}

fn push_mapped(out: &mut Vec<Decl>, key: StyleKey, value: &[char], important: bool)
    ensures
        mapped_v(final(out)@) == mapped_v(old(out)@).push(
            MappedV { key, value: value@, important },
        ),
        final(out)@.len() == old(out)@.len() + 1,
        forall|i: int| 0 <= i < old(out)@.len() ==> final(out)@[i] == old(out)@[i],
{
    out.push(Decl { key, value: copy_chars(value), important });
    assert(mapped_v(out@) =~= mapped_v(old(out)@).push(MappedV { key, value: value@, important }));
}

/// Maps one declaration to a [`StyleKey`] or counts it as dropped.
fn push_decl(d: &scan::Decl, out: &mut Vec<Decl>) -> (lost: usize)
    ensures
        mapped_v(final(out)@) == mapped_v(old(out)@) + mapped(d.v()).0,
        lost == mapped(d.v()).1,
        final(out)@.len() >= old(out)@.len(),
        forall|i: int| 0 <= i < old(out)@.len() ==> final(out)@[i] == old(out)@[i],
{
    let ghost before = mapped_v(out@);
    if holds_var(d.value.as_slice()) {
        assert(before + mapped(d.v()).0 =~= before);
        return 1;
    }
    match css_key(d.prop.as_slice()) {
        None => {
            assert(before + mapped(d.v()).0 =~= before);
            1
        },
        Some(key) => match edges_of(key) {
            None => {
                push_mapped(out, key, d.value.as_slice(), d.important);
                assert(mapped_v(out@) =~= before + mapped(d.v()).0);
                0
            },
            Some(e) => {
                let parts = words_of(d.value.as_slice());
                assert(parts@.len() == words(d.value@).len());
                if parts.len() < 1 || parts.len() > 4 {
                    assert(before + mapped(d.v()).0 =~= before);
                    return 4;
                }
                let mut i: usize = 0;
                let ghost four = mapped(d.v()).0;
                let ghost old_out = out@;
                assert(before + four.take(0) =~= before);
                while i < 4
                    invariant
                        i <= 4,
                        texts(parts@) == words(d.value@),
                        1 <= parts@.len() <= 4,
                        edges(key) == Some(e@),
                        css_named(d.prop@) == Some(key),
                        !has_var(d.value@),
                        four == mapped(d.v()).0,
                        four.len() == 4,
                        mapped_v(out@) == before + four.take(i as int),
                        out@.len() >= old_out.len(),
                        forall|j: int| 0 <= j < old_out.len() ==> out@[j] == old_out[j],
                    decreases 4 - i,
                {
                    let n = parts.len();
                    let w: usize = if n == 1 {
                        0
                    } else if n == 2 {
                        i % 2
                    } else if n == 3 {
                        if i == 3 {
                            1
                        } else {
                            i
                        }
                    } else {
                        i
                    };
                    assert(edge_word(parts@.len(), i as int) == Some(w as int));
                    assert(words(d.value@)[w as int] == parts@[w as int]@);
                    let ghost pre = mapped_v(out@);
                    push_mapped(out, e[i], parts[w].as_slice(), d.important);
                    assert(four[i as int] == MappedV {
                        key: e@[i as int],
                        value: parts@[w as int]@,
                        important: d.important,
                    });
                    assert(before + four.take(i + 1) =~= pre.push(four[i as int]));
                    i += 1;
                }
                assert(four.take(4) =~= four);
                0
            },
        },
    }
}

proof fn no_compiled(sels: Seq<Seq<char>>, k: int)
    requires
        0 <= k <= sels.len(),
        compiled_all(sels.take(k)) is None,
    ensures
        compiled_all(sels) is None,
    decreases sels.len() - k,
{
    if k < sels.len() {
        assert(sels.take(k + 1).drop_last() =~= sels.take(k));
        no_compiled(sels, k + 1);
    } else {
        assert(sels.take(k) =~= sels);
    }
}

spec fn compiled_v(s: Seq<Compiled>) -> Seq<(Seq<CompoundV>, nat)> {
    s.map_values(|c: Compiled| (compounds_v(c.sel@), c.spec as nat))
}

fn compile_list(sels: &Vec<Vec<char>>) -> (r: Option<Vec<Compiled>>)
    ensures
        match r {
            Some(c) => {
                &&& compiled_all(texts(sels@)) == Some(compiled_v(c@))
                &&& forall|i: int| 0 <= i < c@.len() ==> (#[trigger] c@[i]).sel@.len() > 0
            },
            None => compiled_all(texts(sels@)) is None,
        },
{
    let mut out: Vec<Compiled> = Vec::new();
    let mut i: usize = 0;
    let ghost all = texts(sels@);
    assert(compiled_v(out@) =~= seq![]);
    while i < sels.len()
        invariant
            i <= sels@.len(),
            all == texts(sels@),
            compiled_all(all.take(i as int)) == Some(compiled_v(out@)),
            forall|k: int| 0 <= k < out@.len() ==> (#[trigger] out@[k]).sel@.len() > 0,
        decreases sels@.len() - i,
    {
        assert(all.take(i + 1).drop_last() =~= all.take(i as int));
        assert(all.take(i + 1).last() == sels@[i as int]@);
        match compile(sels[i].as_slice()) {
            Some(c) => {
                let ghost before = compiled_v(out@);
                out.push(c);
                assert(compiled_v(out@) =~= before.push((compounds_v(c.sel@), c.spec as nat)));
            },
            None => {
                proof {
                    no_compiled(all, i + 1);
                }
                return None;
            },
        }
        i += 1;
    }
    assert(all.take(i as int) =~= all);
    Some(out)
}

/// A sheet under construction.
struct Draft {
    rules: Vec<Rule>,
    decls: Vec<Decl>,
    kept: usize,
    dropped_selector: usize,
    dropped_at_rule: usize,
    no_decls: usize,
    lost: usize,
}

impl Draft {
    spec fn is(self, v: SheetV) -> bool {
        &&& rules_ok(self.rules@, self.decls@)
        &&& styles_v(self.rules@, self.decls@) == v.rules
        &&& self.decls@.len() == v.declarations
        &&& self.kept == v.kept
        &&& self.dropped_selector == v.dropped_selector
        &&& self.dropped_at_rule == v.dropped_at_rule
        &&& self.no_decls == v.no_decls
        &&& self.lost == counted(v.lost)
    }

    /// Compiles one scanned rule and updates its drop counts.
    fn add(&mut self, rule: &scan::Rule, v: Ghost<SheetV>)
        requires
            old(self).is(v@),
            v@.kept + v@.dropped_selector + v@.dropped_at_rule + v@.no_decls < usize::MAX,
        ensures
            final(self).is(v@.add(rule.v())),
    {
        if rule.in_at_rule {
            self.dropped_at_rule += 1;
            return;
        }
        match compile_list(&rule.selectors) {
            None => {
                self.dropped_selector += 1;
            },
            Some(list) => {
                let at = self.decls.len();
                let ghost ds = decls_v(rule.decls@);
                let ghost decls0 = self.decls@;
                let ghost rules0 = self.rules@;
                let ghost lost0 = v@.lost;
                let mut i: usize = 0;
                assert(mapped_all(ds.take(0)).0 =~= seq![]);
                assert(mapped_v(decls0) + mapped_all(ds.take(0)).0 =~= mapped_v(decls0));
                while i < rule.decls.len()
                    invariant
                        i <= rule.decls@.len(),
                        ds == decls_v(rule.decls@),
                        at == decls0.len(),
                        self.decls@.len() >= at,
                        forall|k: int| 0 <= k < at ==> self.decls@[k] == decls0[k],
                        mapped_v(self.decls@) == mapped_v(decls0) + mapped_all(ds.take(i as int)).0,
                        self.lost == counted(lost0 + mapped_all(ds.take(i as int)).1),
                        self.rules@ == rules0,
                        self.kept == old(self).kept,
                        self.dropped_selector == old(self).dropped_selector,
                        self.dropped_at_rule == old(self).dropped_at_rule,
                        self.no_decls == old(self).no_decls,
                    decreases rule.decls@.len() - i,
                {
                    assert(ds.take(i + 1).drop_last() =~= ds.take(i as int));
                    assert(ds.take(i + 1).last() == rule.decls@[i as int].v());
                    let ghost pre = mapped_v(self.decls@);
                    let lost = push_decl(&rule.decls[i], &mut self.decls);
                    self.lost = self.lost.saturating_add(lost);
                    assert(mapped_v(self.decls@) =~= mapped_v(decls0) + (mapped_all(
                        ds.take(i as int),
                    ).0 + mapped(rule.decls@[i as int].v()).0));
                    i += 1;
                }
                assert(ds.take(i as int) =~= ds);
                let len = self.decls.len() - at;
                assert(mapped_v(self.decls@).len() == self.decls@.len());
                assert(mapped_v(decls0).len() == decls0.len());
                let ghost decls = mapped_all(ds).0;
                assert(decls.len() == len);
                assert(mapped_v(self.decls@.subrange(at as int, at + len)) =~= decls) by {
                    assert forall|k: int| 0 <= k < len implies mapped_v(
                        self.decls@.subrange(at as int, at + len),
                    )[k] == decls[k] by {
                        assert(mapped_v(self.decls@)[at + k] == decls[k]);
                    }
                }
                assert forall|k: int| 0 <= k < rules0.len() implies rule_v(
                    #[trigger] rules0[k],
                    self.decls@,
                ) == rule_v(rules0[k], decls0) by {
                    assert(self.decls@.subrange(rules0[k].at as int, rules0[k].at + rules0[k].len)
                        =~= decls0.subrange(rules0[k].at as int, rules0[k].at + rules0[k].len));
                }
                if len == 0 {
                    assert(styles_v(self.rules@, self.decls@) =~= styles_v(rules0, decls0));
                    self.no_decls += 1;
                    return;
                }
                self.kept += 1;
                let ghost sels = compiled_v(list@);
                let ghost more = sels.map_values(
                    |c: (Seq<CompoundV>, nat)| StyleRuleV { sel: c.0, spec: c.1, decls },
                );
                let mut rest = list;
                let ghost mut n: int = 0;
                let ghost pool = self.decls@;
                assert(rest@ =~= list@.skip(0));
                assert(styles_v(self.rules@, pool) =~= v@.rules + more.take(0));
                while rest.len() > 0
                    invariant
                        0 <= n <= list@.len(),
                        rest@ == list@.skip(n as int),
                        pool == self.decls@,
                        at + len == pool.len(),
                        sels == compiled_v(list@),
                        more == sels.map_values(
                            |c: (Seq<CompoundV>, nat)| StyleRuleV { sel: c.0, spec: c.1, decls },
                        ),
                        mapped_v(pool.subrange(at as int, at + len)) == decls,
                        forall|k: int| 0 <= k < list@.len() ==> (#[trigger] list@[k]).sel@.len() > 0,
                        rules_ok(self.rules@, pool),
                        styles_v(self.rules@, pool) == v@.rules + more.take(n as int),
                        self.kept == old(self).kept + 1,
                        self.dropped_selector == old(self).dropped_selector,
                        self.dropped_at_rule == old(self).dropped_at_rule,
                        self.no_decls == old(self).no_decls,
                        self.lost == counted(lost0 + mapped_all(ds).1),
                    decreases rest@.len(),
                {
                    let c = rest.remove(0);
                    assert(c == list@[n as int]);
                    assert(rest@ =~= list@.skip(n + 1));
                    let rule = Rule { sel: c.sel, spec: c.spec, at, len };
                    let ghost pre = styles_v(self.rules@, pool);
                    self.rules.push(rule);
                    assert(styles_v(self.rules@, pool) =~= pre.push(rule_v(rule, pool)));
                    assert(more[n as int] == rule_v(rule, pool));
                    assert(v@.rules + more.take(n + 1) =~= pre.push(more[n as int]));
                    proof {
                        n = n + 1;
                    }
                }
                assert(more.take(n as int) =~= more);
            },
        }
    }
}


// ---- the index ----

fn copy_test(t: &Test) -> (r: Test)
    ensures
        r.v() == t.v(),
{
    Test {
        attr: copy_chars(t.attr.as_slice()),
        value: match &t.value {
            Some(v) => Some(copy_chars(v.as_slice())),
            None => None,
        },
    }
}

fn same_test(a: &Test, b: &Test) -> (r: bool)
    ensures
        r == (a.v() == b.v()),
{
    same_chars(a.attr.as_slice(), b.attr.as_slice()) && match (&a.value, &b.value) {
        (Some(x), Some(y)) => same_chars(x.as_slice(), y.as_slice()),
        (None, None) => true,
        _ => false,
    }
}

fn same_subject(a: &Subject, b: &Subject) -> (r: bool)
    ensures
        r == (a.v() == b.v()),
{
    match (a, b) {
        (Subject::Test(x), Subject::Test(y)) => same_test(x, y),
        (Subject::Tag(x), Subject::Tag(y)) => *x == *y,
        (Subject::Any, Subject::Any) => true,
        _ => false,
    }
}

fn subject(c: &Compound) -> (r: Subject)
    ensures
        r.v() == subject_of(c.v()),
{
    if c.tests.len() > 0 {
        let mut k: usize = 0;
        while k < c.tests.len()
            invariant
                k <= c.tests@.len(),
                c.tests@.len() > 0,
                chosen(c.v().tests, 0) == chosen(c.v().tests, k as int),
            decreases c.tests@.len() - k,
        {
            assert(c.v().tests[k as int] == c.tests@[k as int].v());
            if c.tests[k].value.is_some() {
                return Subject::Test(copy_test(&c.tests[k]));
            }
            k += 1;
        }
        assert(c.v().tests[0] == c.tests@[0].v());
        Subject::Test(copy_test(&c.tests[0]))
    } else if c.tag != Tag::Untagged {
        Subject::Tag(c.tag)
    } else {
        Subject::Any
    }
}

/// Puts rule `i` in the bucket of its subject, behind the rules before it.
fn drop_in(buckets: &mut Vec<Bucket>, subject: Subject, i: usize, all: Ghost<Seq<StyleRuleV>>)
    requires
        buckets_ok(old(buckets)@, all@, i as int),
        subject.v() == subject_of(all@[i as int].sel.last()),
    ensures
        buckets_ok(final(buckets)@, all@, i + 1),
        bucketed(final(buckets)@, all@, i as int),
        forall|r: int|
            #[trigger] bucketed(old(buckets)@, all@, r) ==> bucketed(final(buckets)@, all@, r),
{
    let ghost before = buckets@;
    let mut k: usize = 0;
    while k < buckets.len()
        invariant
            k <= buckets@.len(),
            buckets@ == before,
            before == old(buckets)@,
            buckets_ok(before, all@, i as int),
            subject.v() == subject_of(all@[i as int].sel.last()),
            forall|j: int| 0 <= j < k ==> (#[trigger] before[j]).subject.v() != subject.v(),
        decreases buckets@.len() - k,
    {
        if same_subject(&buckets[k].subject, &subject) {
            let mut b = buckets.remove(k);
            let ghost was = b;
            b.rules.push(i);
            buckets.insert(k, b);
            proof {
                assert(was == before[k as int]);
                assert(buckets@ =~= before.update(k as int, b));
                assert forall|c: int, w: int|
                    0 <= c < buckets@.len() && 0 <= w < buckets@[c].rules@.len() implies (
                #[trigger] buckets@[c].rules@[w]) < i + 1 && buckets@[c].subject.v() == subject_of(
                    all@[buckets@[c].rules@[w] as int].sel.last(),
                ) by {
                    if w < before[c].rules@.len() {
                        assert(buckets@[c].rules@[w] == before[c].rules@[w]);
                    }
                }
                assert forall|c: int, v: int, w: int|
                    0 <= c < buckets@.len() && 0 <= v < w < buckets@[c].rules@.len()
                    implies #[trigger] buckets@[c].rules@[v] < #[trigger] buckets@[c].rules@[w] by {
                    assert(buckets@[c].rules@[v] == before[c].rules@[v]);
                    if w < before[c].rules@.len() {
                        assert(before[c].rules@[v] < before[c].rules@[w]);
                    }
                }
                assert(b.rules@[was.rules@.len() as int] == i);
                assert(in_bucket(buckets@[k as int], subject.v(), i as int));
                assert forall|r: int| #[trigger] bucketed(before, all@, r) implies bucketed(
                    buckets@,
                    all@,
                    r,
                ) by {
                    kept_in_bucket(before, buckets@, all@, r);
                }
            }
            return;
        }
        k += 1;
    }
    let mut rules: Vec<usize> = Vec::new();
    rules.push(i);
    let b = Bucket { subject, rules };
    buckets.push(b);
    proof {
        assert(buckets@ =~= before.push(b));
        assert(b.rules@[0] == i);
        assert(in_bucket(buckets@[before.len() as int], subject.v(), i as int));
        assert forall|c: int, w: int|
            0 <= c < buckets@.len() && 0 <= w < buckets@[c].rules@.len() implies (
        #[trigger] buckets@[c].rules@[w]) < i + 1 && buckets@[c].subject.v() == subject_of(
            all@[buckets@[c].rules@[w] as int].sel.last(),
        ) by {
            if c < before.len() {
                assert(before[c].rules@[w] < i);
            }
        }
        assert forall|c: int, v: int, w: int|
            0 <= c < buckets@.len() && 0 <= v < w < buckets@[c].rules@.len()
            implies #[trigger] buckets@[c].rules@[v] < #[trigger] buckets@[c].rules@[w] by {
            assert(before[c].rules@[v] < before[c].rules@[w]);
        }
        assert forall|r: int| #[trigger] bucketed(before, all@, r) implies bucketed(
            buckets@,
            all@,
            r,
        ) by {
            kept_in_bucket(before, buckets@, all@, r);
        }
    }
}

/// A rule stays in its bucket while buckets only grow.
proof fn kept_in_bucket(before: Seq<Bucket>, after: Seq<Bucket>, all: Seq<StyleRuleV>, r: int)
    requires
        before.len() <= after.len(),
        forall|k: int|
            0 <= k < before.len() ==> (#[trigger] after[k]).subject.v() == before[k].subject.v()
                && before[k].rules@.is_prefix_of(after[k].rules@),
        bucketed(before, all, r),
    ensures
        bucketed(after, all, r),
{
    let s = subject_of(all[r].sel.last());
    let k = choose|k: int| 0 <= k < before.len() && in_bucket(#[trigger] before[k], s, r);
    let w = choose|w: int| 0 <= w < before[k].rules@.len() && #[trigger] before[k].rules@[w] == r;
    assert(after[k].rules@[w] == r);
    assert(in_bucket(after[k], s, r));
}

/// Groups each rule by its subject: the rightmost compound, which is the node
/// that the rule styles.
fn index(rules: &Vec<Rule>, decls: &Vec<Decl>) -> (r: Vec<Bucket>)
    requires
        rules_ok(rules@, decls@),
    ensures
        buckets_ok(r@, styles_v(rules@, decls@), rules@.len() as int),
        entered_once(r@),
        forall|i: int|
            0 <= i < rules@.len() ==> #[trigger] bucketed(r@, styles_v(rules@, decls@), i),
{
    let mut out: Vec<Bucket> = Vec::new();
    let ghost all = styles_v(rules@, decls@);
    let mut i: usize = 0;
    while i < rules.len()
        invariant
            i <= rules@.len(),
            rules_ok(rules@, decls@),
            all == styles_v(rules@, decls@),
            buckets_ok(out@, all, i as int),
            forall|k: int| 0 <= k < i ==> #[trigger] bucketed(out@, all, k),
        decreases rules@.len() - i,
    {
        let sel = &rules[i].sel;
        assert(rules@[i as int].sel@.len() > 0);
        let s = subject(&sel[sel.len() - 1]);
        assert(all[i as int].sel.last() == sel@[sel@.len() - 1].v());
        let ghost before = out@;
        drop_in(&mut out, s, i, Ghost(all));
        assert forall|k: int| 0 <= k < i + 1 implies #[trigger] bucketed(out@, all, k) by {
            if k < i {
                assert(bucketed(before, all, k));
            }
        }
        i += 1;
    }
    proof {
        ordered_buckets_enter_once(out@, all, i as int);
    }
    out
}

/// A rule that matches a node has a subject that fits it.
proof fn matching_subject_fits(doc: DocV, sel: Seq<CompoundV>, path: Seq<Step>)
    requires
        sel.len() > 0,
        sel_matches(doc, sel, path),
    ensures
        fits(doc.nodes[path.last().id as int], subject_of(sel.last())),
{
    let c = sel.last();
    let node = doc.nodes[path.last().id as int];
    assert(compound_matches(doc, path.last(), c));
    if c.tests.len() > 0 {
        chosen_is_one(c.tests, 0);
        let j = choose|j: int| 0 <= j < c.tests.len() && #[trigger] c.tests[j] == chosen(c.tests, 0);
        assert(test_matches(node, c.tests[j]));
    }
}

impl Sheet {
    /// Compiles the stylesheet text for one dictionary.
    ///
    /// Accepts malformed stylesheets: each fault drops the rule that contains
    /// it and is counted. There is no error, because a broken stylesheet must
    /// not keep dictionary entries from rendering.
    pub fn compile(css: &str) -> (sheet: Sheet)
        ensures
            sheet@ == sheet_for(css@),
            sheet.text() == css@,
    {
        let found = scan(css);
        let mut draft = Draft {
            rules: Vec::new(),
            decls: Vec::new(),
            kept: 0,
            dropped_selector: 0,
            dropped_at_rule: 0,
            no_decls: 0,
            lost: 0,
        };
        let ghost all = rules_v(found.rules@);
        assert(styles_v(draft.rules@, draft.decls@) =~= seq![]);
        let mut i: usize = 0;
        while i < found.rules.len()
            invariant
                i <= found.rules@.len(),
                all == rules_v(found.rules@),
                draft.is(sheet_of(all.take(i as int))),
            decreases found.rules@.len() - i,
        {
            proof {
                every_rule_is_counted_once(all.take(i as int));
                assert(all.take(i + 1).drop_last() =~= all.take(i as int));
                assert(all.take(i + 1).last() == found.rules@[i as int].v());
            }
            draft.add(&found.rules[i], Ghost(sheet_of(all.take(i as int))));
            i += 1;
        }
        assert(all.take(i as int) =~= all);
        let buckets = index(&draft.rules, &draft.decls);
        let counts = SheetCounts {
            rules: found.rules.len(),
            kept: draft.kept,
            dropped_selector: draft.dropped_selector,
            dropped_at_rule: draft.dropped_at_rule,
            no_decls: draft.no_decls,
            selectors: draft.rules.len(),
            declarations: draft.decls.len(),
            dropped_declarations: draft.lost,
            error: found.error,
        };
        Sheet { rules: draft.rules, decls: draft.decls, buckets, counts, css: Ghost(css@) }
    }

    /// Reports whether the sheet holds no rules: whether none was kept.
    pub fn is_empty(&self) -> (r: bool)
        ensures
            r == (self@.rules.len() == 0),
            r == (self@.kept == 0),
    {
        proof {
            use_type_invariant(self);
            a_sheet_is_empty_when_nothing_was_kept(self.css@);
        }
        self.rules.len() == 0
    }

    /// What the compile step kept and dropped.
    pub fn counts(&self) -> (r: &SheetCounts)
        ensures
            r.of(self.text()),
            r.rules == r.kept + r.dropped_selector + r.dropped_at_rule + r.no_decls,
            r.dropped_selector + r.dropped_at_rule <= usize::MAX,
    {
        proof {
            use_type_invariant(self);
            every_rule_is_counted_once(scanned(self.css@).rules);
        }
        &self.counts
    }
}


// ---- the cascade ----

/// Does rule `a` come before rule `b`: by specificity, then source order, the
/// later first? Importance is no part of it: it belongs to each declaration,
/// not to its rule.
pub open spec fn outranks(rules: Seq<StyleRuleV>, a: int, b: int) -> bool {
    if rules[a].spec != rules[b].spec {
        rules[a].spec > rules[b].spec
    } else {
        a > b
    }
}

/// A rule put among ranked rules.
pub open spec fn ranked(rules: Seq<StyleRuleV>, hits: Seq<int>, r: int) -> Seq<int>
    decreases hits.len(),
{
    if hits.len() > 0 && outranks(rules, r, hits.last()) {
        ranked(rules, hits.drop_last(), r).push(hits.last())
    } else {
        hits.push(r)
    }
}

/// The rules among the first `n` that match the node at the end of the chain,
/// in descending cascade order.
pub open spec fn hits(rules: Seq<StyleRuleV>, doc: DocV, path: Seq<Step>, n: int) -> Seq<int>
    decreases n,
{
    if n <= 0 {
        seq![]
    } else {
        let before = hits(rules, doc, path, n - 1);
        if sel_matches(doc, rules[n - 1].sel, path) {
            ranked(rules, before, n - 1)
        } else {
            before
        }
    }
}

/// Does a later declaration of the same rule and importance set the same
/// property?
pub open spec fn overwritten(ds: Seq<MappedV>, j: int) -> bool {
    exists|k: int|
        j < k < ds.len() && (#[trigger] ds[k]).key == ds[j].key && ds[k].important == ds[j].important
}

/// The declarations of one importance that stand after the first `n` of a
/// rule: within one rule the later declaration of a property wins.
pub open spec fn standing(ds: Seq<MappedV>, important: bool, n: int) -> Seq<MappedV>
    decreases n,
{
    if n <= 0 {
        seq![]
    } else if ds[n - 1].important == important && !overwritten(ds, n - 1) {
        standing(ds, important, n - 1).push(ds[n - 1])
    } else {
        standing(ds, important, n - 1)
    }
}

/// The declarations of one importance of the first `n` hits, in cascade order.
pub open spec fn offered(rules: Seq<StyleRuleV>, hits: Seq<int>, important: bool, n: int) -> Seq<MappedV>
    decreases n,
{
    if n <= 0 {
        seq![]
    } else {
        let ds = rules[hits[n - 1]].decls;
        offered(rules, hits, important, n - 1) + standing(ds, important, ds.len() as int)
    }
}

/// Does the inline record set a property, by name or through a shorthand?
pub open spec fn inline_sets(inline: Seq<(StyleKey, ScalarV)>, key: StyleKey) -> bool {
    exists|k: int| 0 <= k < inline.len() && shadows((#[trigger] inline[k]).0, key)
}

pub open spec fn names(taken: Seq<MappedV>, key: StyleKey) -> bool {
    exists|k: int| 0 <= k < taken.len() && (#[trigger] taken[k]).key == key
}

/// The declarations that win: the first offered for each property that the
/// inline record leaves open.
pub open spec fn taken(offers: Seq<MappedV>, inline: Seq<(StyleKey, ScalarV)>) -> Seq<MappedV>
    decreases offers.len(),
{
    if offers.len() == 0 {
        seq![]
    } else {
        let before = taken(offers.drop_last(), inline);
        let d = offers.last();
        if inline_sets(inline, d.key) || names(before, d.key) {
            before
        } else {
            before.push(d)
        }
    }
}

/// What a sheet's rules give the node at the end of the chain.
pub open spec fn node_wins(rules: Seq<StyleRuleV>, doc: DocV, path: Seq<Step>) -> Seq<MappedV> {
    let found = hits(rules, doc, path, rules.len() as int);
    let n = found.len() as int;
    taken(
        offered(rules, found, true, n) + offered(rules, found, false, n),
        doc.nodes[path.last().id as int].style,
    )
}

pub open spec fn as_wins(id: usize, ds: Seq<MappedV>) -> Seq<WinV> {
    ds.map_values(|d: MappedV| WinV { id, key: d.key, value: d.value })
}

/// The wins of one node and of its subtree, in node order.
pub open spec fn walk(rules: Seq<StyleRuleV>, doc: DocV, path: Seq<Step>, step: Step, depth: int) -> Seq<WinV>
    decreases MAX_DEPTH + 1 - depth, 0int,
    when 0 <= depth <= MAX_DEPTH + 1
{
    if depth > MAX_DEPTH {
        seq![]
    } else {
        let here = path.push(step);
        let node = doc.nodes[step.id as int];
        (if reachable(node.kind) {
            as_wins(step.id, node_wins(rules, doc, here))
        } else {
            seq![]
        }) + walk_list(rules, doc, here, node.children, node.children.len() as int, depth + 1)
    }
}

/// The wins of the first `n` siblings and of their subtrees.
pub open spec fn walk_list(
    rules: Seq<StyleRuleV>,
    doc: DocV,
    path: Seq<Step>,
    sibs: Seq<usize>,
    n: int,
    depth: int,
) -> Seq<WinV>
    decreases MAX_DEPTH + 1 - depth, n,
    when 0 <= depth <= MAX_DEPTH + 1
{
    if n <= 0 {
        seq![]
    } else {
        walk_list(rules, doc, path, sibs, n - 1, depth) + walk(
            rules,
            doc,
            path,
            Step { id: sibs[n - 1], pos: pos_of(doc, sibs, n - 1) },
            depth,
        )
    }
}

/// Every declaration of a sheet that wins on a node of a document.
pub open spec fn resolved(sheet: SheetV, doc: DocV) -> Seq<WinV> {
    walk_list(sheet.rules, doc, seq![], doc.items, doc.items.len() as int, 0)
}

/// A document with a sheet applied to it.
pub open spec fn applied(doc: DocV, sheet: SheetV) -> DocV {
    folded(doc, resolved(sheet, doc))
}


spec fn ints(s: Seq<usize>) -> Seq<int> {
    s.map_values(|x: usize| x as int)
}

fn subject_fits(doc: &GlossDoc, id: usize, s: &Subject) -> (r: bool)
    requires
        id < doc@.nodes.len(),
    ensures
        r == fits(doc@.nodes[id as int], s.v()),
{
    match s {
        Subject::Test(t) => matching::test_holds(doc.node(id), t),
        Subject::Tag(t) => doc.node(id).tag == *t,
        Subject::Any => true,
    }
}

impl Sheet {
    /// The declaration `j` of rule `i`.
    fn decl(&self, i: usize, j: usize) -> (r: &Decl)
        requires
            i < self@.rules.len(),
            j < self@.rules[i as int].decls.len(),
        ensures
            r.v() == self@.rules[i as int].decls[j as int],
    {
        proof {
            use_type_invariant(self);
            assert(styles_v(self.rules@, self.decls@)[i as int] == rule_v(
                self.rules@[i as int],
                self.decls@,
            ));
        }
        let r = &self.rules[i];
        assert(r.at + r.len <= self.decls@.len());
        let ghost own = self.decls@.subrange(r.at as int, r.at + r.len);
        assert(mapped_v(own).len() == r.len);
        assert(mapped_v(own)[j as int] == self.decls@[r.at + j].v());
        assert(r.at + j < self.decls.len());
        &self.decls[r.at + j]
    }

    /// How many declarations rule `i` carries.
    fn decl_count(&self, i: usize) -> (r: usize)
        requires
            i < self@.rules.len(),
        ensures
            r == self@.rules[i as int].decls.len(),
    {
        proof {
            use_type_invariant(self);
            assert(styles_v(self.rules@, self.decls@)[i as int] == rule_v(
                self.rules@[i as int],
                self.decls@,
            ));
        }
        assert(self.rules@[i as int].at + self.rules@[i as int].len <= self.decls@.len());
        self.rules[i].len
    }

    fn spec_of(&self, i: usize) -> (r: u32)
        requires
            i < self@.rules.len(),
        ensures
            r == self@.rules[i as int].spec,
    {
        proof {
            use_type_invariant(self);
            assert(styles_v(self.rules@, self.decls@)[i as int] == rule_v(
                self.rules@[i as int],
                self.decls@,
            ));
        }
        self.rules[i].spec
    }

    fn before(&self, a: usize, b: usize) -> (r: bool)
        requires
            a < self@.rules.len(),
            b < self@.rules.len(),
        ensures
            r == outranks(self@.rules, a as int, b as int),
    {
        let sa = self.spec_of(a);
        let sb = self.spec_of(b);
        if sa != sb {
            return sa > sb;
        }
        a > b
    }

    /// Marks the rules whose subject fits the node.
    fn candidates(&self, doc: &GlossDoc, id: usize) -> (r: Vec<bool>)
        requires
            id < doc@.nodes.len(),
        ensures
            r@.len() == self@.rules.len(),
            forall|i: int|
                0 <= i < self@.rules.len() ==> (r@[i] <==> fits(
                    doc@.nodes[id as int],
                    subject_of((#[trigger] self@.rules[i]).sel.last()),
                )),
    {
        proof {
            use_type_invariant(self);
        }
        let mut marks: Vec<bool> = Vec::new();
        let mut n: usize = 0;
        while n < self.rules.len()
            invariant
                n <= self.rules@.len(),
                marks@.len() == n,
                forall|i: int| 0 <= i < n ==> !#[trigger] marks@[i],
            decreases self.rules@.len() - n,
        {
            marks.push(false);
            n += 1;
        }
        let ghost node = doc@.nodes[id as int];
        let ghost rules = self@.rules;
        let mut k: usize = 0;
        while k < self.buckets.len()
            invariant
                id < doc@.nodes.len(),
                node == doc@.nodes[id as int],
                k <= self.buckets@.len(),
                marks@.len() == self.rules@.len(),
                buckets_ok(self.buckets@, rules, self.rules@.len() as int),
                forall|i: int|
                    0 <= i < marks@.len() && #[trigger] marks@[i] ==> fits(
                        node,
                        subject_of(rules[i].sel.last()),
                    ),
                forall|b: int, s: SubjectV, i: int|
                    0 <= b < k && #[trigger] in_bucket(self.buckets@[b], s, i) && fits(node, s)
                        ==> marks@[i],
            decreases self.buckets@.len() - k,
        {
            let b = &self.buckets[k];
            let fit = subject_fits(doc, id, &b.subject);
            let ghost prior = marks@;
            if fit {
                let mut j: usize = 0;
                while j < b.rules.len()
                    invariant
                        k < self.buckets@.len(),
                        b == self.buckets@[k as int],
                        buckets_ok(self.buckets@, rules, self.rules@.len() as int),
                        fits(node, b.subject.v()),
                        forall|i: int|
                            0 <= i < marks@.len() && #[trigger] marks@[i] ==> fits(
                                node,
                                subject_of(rules[i].sel.last()),
                            ),
                        j <= b.rules@.len(),
                        marks@.len() == self.rules@.len(),
                        prior.len() == marks@.len(),
                        forall|i: int| 0 <= i < marks@.len() && prior[i] ==> #[trigger] marks@[i],
                        forall|w: int| 0 <= w < j ==> marks@[#[trigger] b.rules@[w] as int],
                    decreases b.rules@.len() - j,
                {
                    assert(self.buckets@[k as int].rules@[j as int] < self.rules@.len());
                    marks.set(b.rules[j], true);
                    j += 1;
                }
            }
            proof {
                assert forall|c: int, s: SubjectV, i: int|
                    0 <= c < k + 1 && #[trigger] in_bucket(self.buckets@[c], s, i) && fits(node, s)
                    implies marks@[i] by {
                    let w = choose|w: int|
                        0 <= w < self.buckets@[c].rules@.len() && #[trigger] self.buckets@[c].rules@[w]
                            == i;
                    assert(self.buckets@[c].rules@[w] < self.rules@.len());
                    if c < k {
                        assert(prior[i]);
                        assert(marks@[i]);
                    }
                }
            }
            k += 1;
        }
        proof {
            assert forall|i: int|
                0 <= i < self@.rules.len() && fits(
                    node,
                    subject_of((#[trigger] self@.rules[i]).sel.last()),
                ) implies marks@[i] by {
                assert(bucketed(self.buckets@, self@.rules, i));
                let s = subject_of(self@.rules[i].sel.last());
                let c = choose|c: int|
                    0 <= c < self.buckets@.len() && in_bucket(#[trigger] self.buckets@[c], s, i);
                assert(in_bucket(self.buckets@[c], s, i));
            }
        }
        marks
    }

    /// The rules that match the node at the end of the chain, in cascade
    /// order.
    fn hits_on(&self, doc: &GlossDoc, path: &Vec<Step>) -> (r: Vec<usize>)
        requires
            path@.len() > 0,
            path_ok(doc@, path@),
        ensures
            ints(r@) == hits(self@.rules, doc@, path@, self@.rules.len() as int),
            forall|k: int| 0 <= k < r@.len() ==> #[trigger] r@[k] < self@.rules.len(),
    {
        assert(path@.last().id < doc@.nodes.len());
        let marks = self.candidates(doc, path[path.len() - 1].id);
        proof {
            use_type_invariant(self);
        }
        let ghost rules = self@.rules;
        let mut out: Vec<usize> = Vec::new();
        let mut n: usize = 0;
        assert(ints(out@) =~= seq![]);
        while n < self.rules.len()
            invariant
                n <= self.rules@.len(),
                self.inv(),
                rules == self@.rules,
                rules.len() == self.rules@.len(),
                path@.len() > 0,
                path_ok(doc@, path@),
                marks@.len() == rules.len(),
                forall|i: int|
                    0 <= i < rules.len() && fits(
                        doc@.nodes[path@.last().id as int],
                        subject_of((#[trigger] rules[i]).sel.last()),
                    ) ==> marks@[i],
                ints(out@) == hits(rules, doc@, path@, n as int),
                forall|k: int| 0 <= k < out@.len() ==> #[trigger] out@[k] < n,
            decreases self.rules@.len() - n,
        {
            proof {
                assert(styles_v(self.rules@, self.decls@)[n as int] == rule_v(
                    self.rules@[n as int],
                    self.decls@,
                ));
                assert(self.rules@[n as int].sel@.len() > 0);
                if sel_matches(doc@, rules[n as int].sel, path@) {
                    matching_subject_fits(doc@, rules[n as int].sel, path@);
                }
            }
            if marks[n] && selects(doc, &self.rules[n].sel, path) {
                let mut k: usize = out.len();
                let ghost all = ints(out@);
                assert(all.take(k as int) =~= all);
                assert(ranked(rules, all, n as int) =~= ranked(rules, all.take(k as int), n as int)
                    + all.skip(k as int));
                while k > 0 && self.before(n, out[k - 1])
                    invariant
                        k <= out@.len(),
                        n < rules.len(),
                        rules == self@.rules,
                        all == ints(out@),
                        forall|j: int| 0 <= j < out@.len() ==> #[trigger] out@[j] < n,
                        ranked(rules, all, n as int) == ranked(rules, all.take(k as int), n as int)
                            + all.skip(k as int),
                    decreases k,
                {
                    assert(all.take(k as int).drop_last() =~= all.take(k - 1));
                    assert(all.take(k as int).last() == out@[k - 1]);
                    assert(ranked(rules, all.take(k - 1), n as int).push(all[k - 1]) + all.skip(
                        k as int,
                    ) =~= ranked(rules, all.take(k - 1), n as int) + all.skip(k - 1));
                    k -= 1;
                }
                proof {
                    if k > 0 {
                        assert(all.take(k as int).last() == out@[k - 1]);
                    }
                }
                let ghost before = out@;
                out.insert(k, n);
                assert(ints(out@) =~= all.take(k as int).push(n as int) + all.skip(k as int));
            }
            n += 1;
        }
        out
    }
}

fn later_sets(sheet: &Sheet, i: usize, j: usize) -> (r: bool)
    requires
        i < sheet@.rules.len(),
        j < sheet@.rules[i as int].decls.len(),
    ensures
        r == overwritten(sheet@.rules[i as int].decls, j as int),
{
    let n = sheet.decl_count(i);
    let key = sheet.decl(i, j).key;
    let important = sheet.decl(i, j).important;
    let mut k: usize = j + 1;
    while k < n
        invariant
            i < sheet@.rules.len(),
            n == sheet@.rules[i as int].decls.len(),
            j < k <= n,
            key == sheet@.rules[i as int].decls[j as int].key,
            important == sheet@.rules[i as int].decls[j as int].important,
            forall|w: int|
                j < w < k ==> !((#[trigger] sheet@.rules[i as int].decls[w]).key == key
                    && sheet@.rules[i as int].decls[w].important == important),
        decreases n - k,
    {
        let d = sheet.decl(i, k);
        if d.key == key && d.important == important {
            return true;
        }
        k += 1;
    }
    false
}

fn inline_has(inline: &[(StyleKey, Scalar)], key: StyleKey) -> (r: bool)
    ensures
        r == inline_sets(style_v(inline@), key),
{
    let mut k: usize = 0;
    while k < inline.len()
        invariant
            k <= inline@.len(),
            forall|j: int| 0 <= j < k ==> !shadows((#[trigger] style_v(inline@)[j]).0, key),
        decreases inline@.len() - k,
    {
        let hit = shadowed_by(inline[k].0, key);
        assert(hit == shadows(style_v(inline@)[k as int].0, key));
        if hit {
            return true;
        }
        k += 1;
    }
    false
}

/// Adds the declarations of one importance to the wins of one node.
fn pass(
    sheet: &Sheet,
    found: &Vec<usize>,
    important: bool,
    id: usize,
    inline: &[(StyleKey, Scalar)],
    out: &mut Vec<Win>,
    at: usize,
    offers: Ghost<Seq<MappedV>>,
)
    requires
        at <= old(out)@.len(),
        forall|k: int| 0 <= k < found@.len() ==> #[trigger] found@[k] < sheet@.rules.len(),
        wins_v(old(out)@.skip(at as int)) == as_wins(id, taken(offers@, style_v(inline@))),
    ensures
        at <= final(out)@.len(),
        final(out)@.take(at as int) == old(out)@.take(at as int),
        wins_v(final(out)@.skip(at as int)) == as_wins(
            id,
            taken(
                offers@ + offered(sheet@.rules, ints(found@), important, found@.len() as int),
                style_v(inline@),
            ),
        ),
{
    let ghost rules = sheet@.rules;
    let ghost hs = ints(found@);
    let mut h: usize = 0;
    assert(offers@ + offered(rules, hs, important, 0) =~= offers@);
    while h < found.len()
        invariant
            h <= found@.len(),
            rules == sheet@.rules,
            hs == ints(found@),
            at <= out@.len(),
            out@.take(at as int) == old(out)@.take(at as int),
            forall|k: int| 0 <= k < found@.len() ==> #[trigger] found@[k] < sheet@.rules.len(),
            wins_v(out@.skip(at as int)) == as_wins(
                id,
                taken(offers@ + offered(rules, hs, important, h as int), style_v(inline@)),
            ),
        decreases found@.len() - h,
    {
        let i = found[h];
        let n = sheet.decl_count(i);
        let ghost ds = rules[i as int].decls;
        let ghost base = offers@ + offered(rules, hs, important, h as int);
        let mut j: usize = 0;
        assert(base + standing(ds, important, 0) =~= base);
        while j < n
            invariant
                i < sheet@.rules.len(),
                ds == sheet@.rules[i as int].decls,
                n == ds.len(),
                j <= n,
                at <= out@.len(),
                out@.take(at as int) == old(out)@.take(at as int),
                wins_v(out@.skip(at as int)) == as_wins(
                    id,
                    taken(base + standing(ds, important, j as int), style_v(inline@)),
                ),
            decreases n - j,
        {
            let d = sheet.decl(i, j);
            let ghost prior = base + standing(ds, important, j as int);
            let ghost won = taken(prior, style_v(inline@));
            if d.important == important && !later_sets(sheet, i, j) {
                let ghost next = base + standing(ds, important, j + 1);
                assert(next =~= prior.push(d.v()));
                assert(next.drop_last() =~= prior);
                let mut known = inline_has(inline, d.key);
                let mut k: usize = at;
                while k < out.len() && !known
                    invariant
                        at <= k <= out@.len(),
                        wins_v(out@.skip(at as int)) == as_wins(id, won),
                        known == (inline_sets(style_v(inline@), d.key) || exists|w: int|
                            0 <= w < k - at && w < won.len() && (#[trigger] won[w]).key == d.key),
                    decreases out@.len() - k,
                {
                    let ghost w = k - at;
                    assert(wins_v(out@.skip(at as int)).len() == out@.len() - at);
                    assert(as_wins(id, won).len() == won.len());
                    assert(wins_v(out@.skip(at as int))[w] == out@[k as int].v());
                    assert(as_wins(id, won)[w].key == won[w].key);
                    if out[k].key == d.key {
                        known = true;
                    }
                    k += 1;
                }
                proof {
                    assert(wins_v(out@.skip(at as int)).len() == out@.len() - at);
                    assert(as_wins(id, won).len() == won.len());
                    if !known {
                        assert(!names(won, d.key));
                    } else {
                        assert(inline_sets(style_v(inline@), d.key) || names(won, d.key));
                    }
                }
                if !known {
                    let ghost pre = out@;
                    let w = Win { id, key: d.key, value: string_of(d.value.as_slice()) };
                    out.push(w);
                    assert(out@.skip(at as int) =~= pre.skip(at as int).push(w));
                    assert(wins_v(out@.skip(at as int)) =~= wins_v(pre.skip(at as int)).push(w.v()));
                    assert(as_wins(id, won.push(d.v())) =~= as_wins(id, won).push(w.v()));
                    assert(out@.take(at as int) =~= pre.take(at as int));
                }
            }
            j += 1;
        }
        assert(base + standing(ds, important, n as int) =~= offers@ + (offered(
            rules,
            hs,
            important,
            h as int,
        ) + standing(ds, important, ds.len() as int)));
        h += 1;
    }
}

/// Finds the declarations that win for the node at the end of the chain.
fn probe(sheet: &Sheet, doc: &GlossDoc, path: &Vec<Step>, out: &mut Vec<Win>)
    requires
        path@.len() > 0,
        path_ok(doc@, path@),
    ensures
        wins_v(final(out)@) == wins_v(old(out)@) + as_wins(
            path@.last().id,
            node_wins(sheet@.rules, doc@, path@),
        ),
{
    assert(path@.last().id < doc@.nodes.len());
    let id = path[path.len() - 1].id;
    let found = sheet.hits_on(doc, path);
    let inline = doc.style(id);
    let at = out.len();
    let ghost none: Seq<MappedV> = seq![];
    let ghost n = found@.len() as int;
    let ghost first = offered(sheet@.rules, ints(found@), true, n);
    assert(taken(none, style_v(inline@)) =~= seq![]);
    assert(wins_v(out@.skip(at as int)) =~= as_wins(id, taken(none, style_v(inline@))));
    pass(sheet, &found, true, id, inline, out, at, Ghost(none));
    assert(none + first =~= first);
    pass(sheet, &found, false, id, inline, out, at, Ghost(first));
    assert(out@.take(at as int) =~= old(out)@);
    assert(wins_v(out@) =~= wins_v(out@.take(at as int)) + wins_v(out@.skip(at as int)));
}

/// A sibling counts itself.
proof fn pos_is_positive(doc: DocV, sibs: Seq<usize>, ix: int)
    requires
        0 <= ix < sibs.len(),
    ensures
        pos_of(doc, sibs, ix).child > 0,
        pos_of(doc, sibs, ix).of_type > 0,
{
    let tag = doc.nodes[sibs[ix] as int].tag;
    assert(tagged(doc, sibs, tag, ix + 1) >= 1);
}

/// Visits one node and its subtree.
fn descend(sheet: &Sheet, doc: &GlossDoc, path: &mut Vec<Step>, step: Step, depth: u32, out: &mut Vec<Win>)
    requires
        depth <= MAX_DEPTH + 1,
        path_ok(doc@, old(path)@.push(step)),
    ensures
        final(path)@ == old(path)@,
        wins_v(final(out)@) == wins_v(old(out)@) + walk(
            sheet@.rules,
            doc@,
            old(path)@,
            step,
            depth as int,
        ),
    decreases MAX_DEPTH + 1 - depth, 0int,
{
    if depth > MAX_DEPTH {
        assert(wins_v(out@) + seq![] =~= wins_v(out@));
        return;
    }
    let ghost outer = path@;
    path.push(step);
    let ghost here = path@;
    assert(here[here.len() - 1].id < doc@.nodes.len());
    let ghost node = doc@.nodes[step.id as int];
    let ghost before = wins_v(out@);
    let ghost own = if reachable(node.kind) {
        as_wins(step.id, node_wins(sheet@.rules, doc@, here))
    } else {
        seq![]
    };
    if selectable(doc.node(step.id).kind) {
        probe(sheet, doc, path, out);
    }
    assert(wins_v(out@) =~= before + own);
    descend_list(sheet, doc, path, doc.children(step.id), depth + 1, out);
    let ghost kids = walk_list(
        sheet@.rules,
        doc@,
        here,
        node.children,
        node.children.len() as int,
        depth + 1,
    );
    assert((before + own) + kids =~= before + (own + kids));
    path.pop();
    assert(path@ =~= outer);
}

/// Visits each of a list of siblings.
fn descend_list(sheet: &Sheet, doc: &GlossDoc, path: &mut Vec<Step>, sibs: &[usize], depth: u32, out: &mut Vec<Win>)
    requires
        depth <= MAX_DEPTH + 1,
        path_ok(doc@, old(path)@),
        forall|k: int| 0 <= k < sibs@.len() ==> #[trigger] sibs@[k] < doc@.nodes.len(),
    ensures
        final(path)@ == old(path)@,
        wins_v(final(out)@) == wins_v(old(out)@) + walk_list(
            sheet@.rules,
            doc@,
            old(path)@,
            sibs@,
            sibs@.len() as int,
            depth as int,
        ),
    decreases MAX_DEPTH + 1 - depth, 1int,
{
    let mut k: usize = 0;
    let ghost before = wins_v(out@);
    assert(before + walk_list(sheet@.rules, doc@, path@, sibs@, 0, depth as int) =~= before);
    while k < sibs.len()
        invariant
            k <= sibs@.len(),
            depth <= MAX_DEPTH + 1,
            path@ == old(path)@,
            path_ok(doc@, path@),
            forall|j: int| 0 <= j < sibs@.len() ==> #[trigger] sibs@[j] < doc@.nodes.len(),
            wins_v(out@) == before + walk_list(
                sheet@.rules,
                doc@,
                path@,
                sibs@,
                k as int,
                depth as int,
            ),
        decreases sibs@.len() - k,
    {
        let step = Step { id: sibs[k], pos: position(doc, sibs, k) };
        proof {
            pos_is_positive(doc@, sibs@, k as int);
        }
        let ghost prior = walk_list(sheet@.rules, doc@, path@, sibs@, k as int, depth as int);
        descend(sheet, doc, path, step, depth, out);
        let ghost own = walk(sheet@.rules, doc@, path@, step, depth as int);
        assert((before + prior) + own =~= before + (prior + own));
        k += 1;
    }
}

/// What a sheet gives a node: no property twice, and none that the inline
/// record sets.
pub open spec fn settled(given: Seq<(StyleKey, ScalarV)>, inline: Seq<(StyleKey, ScalarV)>) -> bool {
    &&& forall|a: int, b: int|
        0 <= a < b < given.len() ==> (#[trigger] given[a]).0 != (#[trigger] given[b]).0
    &&& forall|a: int| 0 <= a < given.len() ==> !inline_sets(inline, (#[trigger] given[a]).0)
}

/// No node from `from` on and before `to` has a child at `to` or behind it.
spec fn closed_at(doc: DocV, from: int, to: int) -> bool {
    forall|b: int, j: int|
        #![trigger doc.nodes[b].children[j]]
        from <= b < to && 0 <= j < doc.nodes[b].children.len() ==> doc.nodes[b].children[j] < to
}

/// Every win names a node from `from` on and before `to`.
spec fn wins_within(wins: Seq<WinV>, from: int, to: int) -> bool {
    forall|k: int| 0 <= k < wins.len() ==> from <= (#[trigger] wins[k]).id < to
}

proof fn wins_for_both(a: Seq<WinV>, b: Seq<WinV>, id: int)
    ensures
        wins_for(a + b, id) == wins_for(a, id) + wins_for(b, id),
    decreases a.len(),
{
    if a.len() == 0 {
        assert(a + b =~= b);
        assert(wins_for(a, id) + wins_for(b, id) =~= wins_for(b, id));
    } else {
        wins_for_both(a.skip(1), b, id);
        assert((a + b).skip(1) =~= a.skip(1) + b);
        assert(wins_for(a + b, id) =~= wins_for(a, id) + wins_for(b, id));
    }
}

proof fn no_win_outside(wins: Seq<WinV>, from: int, to: int, id: int)
    requires
        wins_within(wins, from, to),
        !(from <= id < to),
    ensures
        wins_for(wins, id) == Seq::<(StyleKey, ScalarV)>::empty(),
    decreases wins.len(),
{
    if wins.len() > 0 {
        assert forall|k: int| 0 <= k < wins.skip(1).len() implies from <= (#[trigger] wins.skip(1)[k]).id
            < to by {
            assert(wins.skip(1)[k] == wins[k + 1]);
        }
        no_win_outside(wins.skip(1), from, to, id);
        assert(from <= wins[0].id < to);
    }
}

proof fn own_wins(id: usize, ds: Seq<MappedV>)
    ensures
        wins_for(as_wins(id, ds), id as int) == ds.map_values(
            |d: MappedV| (d.key, ScalarV::Text(d.value)),
        ),
    decreases ds.len(),
{
    let all = as_wins(id, ds);
    let given = ds.map_values(|d: MappedV| (d.key, ScalarV::Text(d.value)));
    if ds.len() > 0 {
        own_wins(id, ds.skip(1));
        assert(all.skip(1) =~= as_wins(id, ds.skip(1)));
        assert(wins_for(all, id as int) =~= given);
    } else {
        assert(wins_for(all, id as int) =~= given);
    }
}

/// The wins of a subtree name its nodes, and settle each of them.
proof fn a_subtree_is_settled(
    rules: Seq<StyleRuleV>,
    doc: DocV,
    path: Seq<Step>,
    step: Step,
    depth: int,
    to: int,
)
    requires
        doc.wf(),
        0 <= depth <= MAX_DEPTH + 1,
        step.id < to <= doc.nodes.len(),
        closed_at(doc, step.id as int, to),
    ensures
        wins_within(walk(rules, doc, path, step, depth), step.id as int, to),
        forall|i: int|
            0 <= i < doc.nodes.len() ==> settled(
                #[trigger] wins_for(walk(rules, doc, path, step, depth), i),
                doc.nodes[i].style,
            ),
    decreases MAX_DEPTH + 1 - depth, 0int,
{
    let wins = walk(rules, doc, path, step, depth);
    if depth <= MAX_DEPTH {
        let id = step.id as int;
        let here = path.push(step);
        let kids = doc.nodes[id].children;
        let n = kids.len() as int;
        let own = if reachable(doc.nodes[id].kind) {
            as_wins(step.id, node_wins(rules, doc, here))
        } else {
            seq![]
        };
        assert forall|k: int| 0 <= k < n implies id + 1 <= #[trigger] kids[k] < to && closed_at(
            doc,
            id + 1,
            kids[k] as int,
        ) by {
            assert(doc.nodes[id].children[k] < to);
            assert forall|b: int, j: int|
                #![trigger doc.nodes[b].children[j]]
                id + 1 <= b < kids[k] && 0 <= j < doc.nodes[b].children.len() implies
                doc.nodes[b].children[j] < kids[k] by {
                assert(doc.nodes[b].children[j] < doc.nodes[id].children[k]);
            }
        }
        assert forall|j: int, k: int| 0 <= j < k < n implies #[trigger] kids[j] < #[trigger] kids[k] by {
            assert(doc.nodes[id].children[j] < doc.nodes[id].children[k]);
        }
        a_row_is_settled(rules, doc, here, kids, n, depth + 1, id + 1, to);
        let below = walk_list(rules, doc, here, kids, n, depth + 1);
        assert(wins == own + below);
        assert(wins_within(own, id, id + 1));
        assert forall|k: int| 0 <= k < wins.len() implies id <= (#[trigger] wins[k]).id < to by {
            if k >= own.len() {
                assert(id + 1 <= below[k - own.len()].id < to);
            }
        }
        assert forall|i: int| 0 <= i < doc.nodes.len() implies settled(
            #[trigger] wins_for(wins, i),
            doc.nodes[i].style,
        ) by {
            wins_for_both(own, below, i);
            if i == id {
                no_win_outside(below, id + 1, to, i);
                if reachable(doc.nodes[id].kind) {
                    let ds = node_wins(rules, doc, here);
                    own_wins(step.id, ds);
                    let found = hits(rules, doc, here, rules.len() as int);
                    let count = found.len() as int;
                    wins_name_a_property_once(
                        offered(rules, found, true, count) + offered(rules, found, false, count),
                        doc.nodes[id].style,
                    );
                    let given = wins_for(wins, i);
                    assert(given =~= ds.map_values(|d: MappedV| (d.key, ScalarV::Text(d.value))));
                    assert forall|a: int, b: int| 0 <= a < b < given.len() implies (#[trigger] given[a]).0
                        != (#[trigger] given[b]).0 by {
                        assert(ds[a].key != ds[b].key);
                    }
                    assert forall|a: int| 0 <= a < given.len() implies !inline_sets(
                        doc.nodes[i].style,
                        (#[trigger] given[a]).0,
                    ) by {
                        assert(!inline_sets(doc.nodes[id].style, ds[a].key));
                    }
                } else {
                    assert(wins_for(wins, i) =~= seq![]);
                }
            } else {
                no_win_outside(own, id, id + 1, i);
                assert(wins_for(wins, i) =~= wins_for(below, i));
            }
        }
    }
}

/// The wins of the first `n` siblings name their subtrees, and settle every
/// node of them.
proof fn a_row_is_settled(
    rules: Seq<StyleRuleV>,
    doc: DocV,
    path: Seq<Step>,
    sibs: Seq<usize>,
    n: int,
    depth: int,
    from: int,
    to: int,
)
    requires
        doc.wf(),
        0 <= depth <= MAX_DEPTH + 1,
        0 <= n <= sibs.len(),
        0 <= from,
        to <= doc.nodes.len(),
        forall|k: int|
            0 <= k < n ==> from <= #[trigger] sibs[k] < to && closed_at(doc, from, sibs[k] as int),
        forall|j: int, k: int| 0 <= j < k < n ==> #[trigger] sibs[j] < #[trigger] sibs[k],
        closed_at(doc, from, to),
    ensures
        wins_within(walk_list(rules, doc, path, sibs, n, depth), from, to),
        forall|i: int|
            0 <= i < doc.nodes.len() ==> settled(
                #[trigger] wins_for(walk_list(rules, doc, path, sibs, n, depth), i),
                doc.nodes[i].style,
            ),
    decreases MAX_DEPTH + 1 - depth, n,
{
    if n > 0 {
        let last = sibs[n - 1] as int;
        let step = Step { id: sibs[n - 1], pos: pos_of(doc, sibs, n - 1) };
        a_row_is_settled(rules, doc, path, sibs, n - 1, depth, from, last);
        a_subtree_is_settled(rules, doc, path, step, depth, to);
        let before = walk_list(rules, doc, path, sibs, n - 1, depth);
        let own = walk(rules, doc, path, step, depth);
        let wins = walk_list(rules, doc, path, sibs, n, depth);
        assert(wins == before + own);
        assert forall|k: int| 0 <= k < wins.len() implies from <= (#[trigger] wins[k]).id < to by {
            if k < before.len() {
                assert(from <= before[k].id < last);
            } else {
                assert(last <= own[k - before.len()].id < to);
            }
        }
        assert forall|i: int| 0 <= i < doc.nodes.len() implies settled(
            #[trigger] wins_for(wins, i),
            doc.nodes[i].style,
        ) by {
            wins_for_both(before, own, i);
            if i < last {
                no_win_outside(own, last, to, i);
                assert(wins_for(wins, i) =~= wins_for(before, i));
            } else {
                no_win_outside(before, from, last, i);
                assert(wins_for(wins, i) =~= wins_for(own, i));
            }
        }
    }
}

/// The wins of a sheet on a document name its nodes, and settle each of them.
proof fn a_document_is_settled(doc: DocV, sheet: SheetV)
    requires
        doc.wf(),
    ensures
        wins_within(resolved(sheet, doc), 0, doc.nodes.len() as int),
        forall|i: int|
            0 <= i < doc.nodes.len() ==> settled(
                #[trigger] wins_for(resolved(sheet, doc), i),
                doc.nodes[i].style,
            ),
{
    a_row_is_settled(
        sheet.rules,
        doc,
        seq![],
        doc.items,
        doc.items.len() as int,
        0,
        0,
        doc.nodes.len() as int,
    );
}

/// Applies one dictionary stylesheet to one parsed tree.
///
/// A node's tag, `data` map, ancestor chain, and sibling position select the
/// rules that match. The cascade takes `!important` declarations first, and
/// within each kind goes by specificity and by source order. What wins enters
/// the node's resolved style record ahead of the inline `style` declarations
/// that already exist.
pub fn apply(doc: &mut GlossDoc, sheet: &Sheet)
    ensures
        final(doc)@ == applied(old(doc)@, sheet@),
        forall|i: int|
            0 <= i < old(doc)@.nodes.len() ==> settled(
                #[trigger] wins_for(resolved(sheet@, old(doc)@), i),
                old(doc)@.nodes[i].style,
            ),
{
    let mut wins: Vec<Win> = Vec::new();
    let mut path: Vec<Step> = Vec::new();
    assert(wins_v(wins@) =~= seq![]);
    {
        let items = doc.items();
        descend_list(sheet, doc, &mut path, items, 0, &mut wins);
        proof {
            a_document_is_settled(doc@, sheet@);
            assert(wins_v(wins@) =~= resolved(sheet@, doc@));
            assert forall|k: int| 0 <= k < wins@.len() implies (#[trigger] wins@[k]).id
                < doc@.nodes.len() by {
                assert(wins_v(wins@)[k].id == wins@[k].id);
            }
        }
    }
    doc.fold_declarations(&wins);
}


// ---- laws ----

/// What a stylesheet gives a node names no property twice, and none that the
/// inline record sets. The two halves of a style record never name one
/// property, so a reader that takes the first occurrence of a property and
/// one that takes the last get the same answer.
pub proof fn wins_name_a_property_once(offers: Seq<MappedV>, inline: Seq<(StyleKey, ScalarV)>)
    ensures
        forall|i: int, j: int|
            0 <= i < j < taken(offers, inline).len() ==> (#[trigger] taken(offers, inline)[i]).key != (
            #[trigger] taken(offers, inline)[j]).key,
        forall|i: int|
            0 <= i < taken(offers, inline).len() ==> !inline_sets(
                inline,
                (#[trigger] taken(offers, inline)[i]).key,
            ),
    decreases offers.len(),
{
    if offers.len() > 0 {
        wins_name_a_property_once(offers.drop_last(), inline);
        let before = taken(offers.drop_last(), inline);
        let all = taken(offers, inline);
        let d = offers.last();
        if !(inline_sets(inline, d.key) || names(before, d.key)) {
            assert forall|i: int, j: int| 0 <= i < j < all.len() implies (#[trigger] all[i]).key != (
            #[trigger] all[j]).key by {
                if j == before.len() {
                    assert(before[i].key != d.key);
                }
            }
        }
    }
}

proof fn taken_from(offers: Seq<MappedV>, inline: Seq<(StyleKey, ScalarV)>)
    ensures
        forall|i: int|
            0 <= i < taken(offers, inline).len() ==> offers.contains(
                #[trigger] taken(offers, inline)[i],
            ),
    decreases offers.len(),
{
    if offers.len() > 0 {
        taken_from(offers.drop_last(), inline);
        let before = taken(offers.drop_last(), inline);
        let all = taken(offers, inline);
        assert forall|i: int| 0 <= i < all.len() implies offers.contains(#[trigger] all[i]) by {
            if i < before.len() {
                assert(all[i] == before[i]);
                let k = choose|k: int|
                    0 <= k < offers.drop_last().len() && offers.drop_last()[k] == before[i];
                assert(offers[k] == all[i]);
            } else {
                assert(offers[offers.len() - 1] == all[i]);
            }
        }
    }
}

/// Of the declarations offered for a property, the first one wins, where the
/// inline record leaves the property open.
pub proof fn the_first_offer_wins(
    offers: Seq<MappedV>,
    inline: Seq<(StyleKey, ScalarV)>,
    i: int,
)
    requires
        0 <= i < offers.len(),
        !inline_sets(inline, offers[i].key),
        forall|j: int| 0 <= j < i ==> (#[trigger] offers[j]).key != offers[i].key,
    ensures
        taken(offers, inline).contains(offers[i]),
    decreases offers.len(),
{
    let front = offers.drop_last();
    let before = taken(front, inline);
    let all = taken(offers, inline);
    if i == offers.len() - 1 {
        taken_from(front, inline);
        assert(!names(before, offers[i].key)) by {
            if names(before, offers[i].key) {
                let k = choose|k: int|
                    0 <= k < before.len() && (#[trigger] before[k]).key == offers[i].key;
                assert(front.contains(before[k]));
                let j = choose|j: int| 0 <= j < front.len() && front[j] == before[k];
                assert(offers[j].key == offers[i].key);
            }
        }
        assert(all[before.len() as int] == offers[i]);
    } else {
        the_first_offer_wins(front, inline, i);
        let k = choose|k: int| 0 <= k < before.len() && before[k] == offers[i];
        assert(all[k] == offers[i]);
    }
}

proof fn standing_is_of(ds: Seq<MappedV>, important: bool, n: int)
    requires
        n <= ds.len(),
    ensures
        forall|i: int|
            0 <= i < standing(ds, important, n).len() ==> (#[trigger] standing(
                ds,
                important,
                n,
            )[i]).important == important,
    decreases n,
{
    if n > 0 {
        standing_is_of(ds, important, n - 1);
    }
}

proof fn offered_is_of(rules: Seq<StyleRuleV>, found: Seq<int>, important: bool, n: int)
    ensures
        forall|i: int|
            0 <= i < offered(rules, found, important, n).len() ==> (#[trigger] offered(
                rules,
                found,
                important,
                n,
            )[i]).important == important,
    decreases n,
{
    if n > 0 {
        offered_is_of(rules, found, important, n - 1);
        let ds = rules[found[n - 1]].decls;
        standing_is_of(ds, important, ds.len() as int);
    }
}

proof fn least_named(offers: Seq<MappedV>, key: StyleKey) -> (i: int)
    requires
        names(offers, key),
    ensures
        0 <= i < offers.len(),
        offers[i].key == key,
        forall|j: int| 0 <= j < i ==> (#[trigger] offers[j]).key != key,
    decreases offers.len(),
{
    let k = choose|k: int| 0 <= k < offers.len() && (#[trigger] offers[k]).key == key;
    let front = offers.drop_last();
    if names(front, key) {
        let i = least_named(front, key);
        assert forall|j: int| 0 <= j < i implies (#[trigger] offers[j]).key != key by {
            assert(front[j].key != key);
        }
        i
    } else {
        assert forall|j: int| 0 <= j < offers.len() - 1 implies (#[trigger] offers[j]).key != key by {
            assert(front[j].key == offers[j].key);
        }
        k
    }
}

/// An `!important` declaration beats every normal one, whatever their rules
/// are: a property that one is offered for goes to an important declaration,
/// where the inline record leaves it open.
pub proof fn an_important_declaration_wins(
    rules: Seq<StyleRuleV>,
    doc: DocV,
    path: Seq<Step>,
    key: StyleKey,
)
    requires
        names(
            offered(
                rules,
                hits(rules, doc, path, rules.len() as int),
                true,
                hits(rules, doc, path, rules.len() as int).len() as int,
            ),
            key,
        ),
        !inline_sets(doc.nodes[path.last().id as int].style, key),
    ensures
        exists|w: int|
            0 <= w < node_wins(rules, doc, path).len() && (#[trigger] node_wins(
                rules,
                doc,
                path,
            )[w]).key == key && node_wins(rules, doc, path)[w].important,
{
    let found = hits(rules, doc, path, rules.len() as int);
    let n = found.len() as int;
    let first = offered(rules, found, true, n);
    let all = first + offered(rules, found, false, n);
    let inline = doc.nodes[path.last().id as int].style;
    offered_is_of(rules, found, true, n);
    let i = least_named(first, key);
    assert(all[i] == first[i]);
    assert forall|j: int| 0 <= j < i implies (#[trigger] all[j]).key != all[i].key by {
        assert(all[j] == first[j]);
    }
    the_first_offer_wins(all, inline, i);
    let won = taken(all, inline);
    let w = choose|w: int| 0 <= w < won.len() && won[w] == all[i];
    assert(node_wins(rules, doc, path)[w].key == key);
}

proof fn offered_before(rules: Seq<StyleRuleV>, found: Seq<int>, important: bool, n: int, key: StyleKey)
    requires
        forall|h: int|
            0 <= h < n ==> !names(
                standing(
                    rules[#[trigger] found[h]].decls,
                    important,
                    rules[found[h]].decls.len() as int,
                ),
                key,
            ),
    ensures
        !names(offered(rules, found, important, n), key),
    decreases n,
{
    if n > 0 {
        offered_before(rules, found, important, n - 1, key);
        let before = offered(rules, found, important, n - 1);
        let own = standing(
            rules[found[n - 1]].decls,
            important,
            rules[found[n - 1]].decls.len() as int,
        );
        let all = before + own;
        if names(all, key) {
            let k = choose|k: int| 0 <= k < all.len() && (#[trigger] all[k]).key == key;
            if k < before.len() {
                assert(before[k].key == key);
            } else {
                assert(own[k - before.len()].key == key);
            }
        }
    }
}

proof fn offered_starts(rules: Seq<StyleRuleV>, found: Seq<int>, important: bool, m: int, n: int)
    requires
        0 <= m <= n,
    ensures
        offered(rules, found, important, m).len() <= offered(rules, found, important, n).len(),
        offered(rules, found, important, m) == offered(rules, found, important, n).take(
            offered(rules, found, important, m).len() as int,
        ),
    decreases n,
{
    if m < n {
        offered_starts(rules, found, important, m, n - 1);
        let part = offered(rules, found, important, m);
        assert(part =~= offered(rules, found, important, n).take(part.len() as int));
    } else {
        let part = offered(rules, found, important, m);
        assert(part =~= part.take(part.len() as int));
    }
}

/// Of the rules that match a node and set a property with one importance, the
/// first in cascade order gives the property its value: among the important
/// declarations always, among the normal ones where no important one sets the
/// property.
pub proof fn the_first_rule_of_the_cascade_wins(
    rules: Seq<StyleRuleV>,
    doc: DocV,
    path: Seq<Step>,
    key: StyleKey,
    important: bool,
    i: int,
)
    requires
        ({
            let found = hits(rules, doc, path, rules.len() as int);
            &&& 0 <= i < found.len()
            &&& names(
                standing(rules[found[i]].decls, important, rules[found[i]].decls.len() as int),
                key,
            )
            &&& forall|h: int|
                0 <= h < i ==> !names(
                    standing(
                        rules[#[trigger] found[h]].decls,
                        important,
                        rules[found[h]].decls.len() as int,
                    ),
                    key,
                )
            &&& !important ==> !names(offered(rules, found, true, found.len() as int), key)
        }),
        !inline_sets(doc.nodes[path.last().id as int].style, key),
    ensures
        ({
            let found = hits(rules, doc, path, rules.len() as int);
            let own = standing(
                rules[found[i]].decls,
                important,
                rules[found[i]].decls.len() as int,
            );
            exists|w: int|
                0 <= w < node_wins(rules, doc, path).len() && own.contains(
                    #[trigger] node_wins(rules, doc, path)[w],
                ) && node_wins(rules, doc, path)[w].key == key
        }),
{
    let found = hits(rules, doc, path, rules.len() as int);
    let n = found.len() as int;
    let ds = rules[found[i]].decls;
    let own = standing(ds, important, ds.len() as int);
    let first = offered(rules, found, true, n);
    let rest = offered(rules, found, false, n);
    let class = if important {
        first
    } else {
        rest
    };
    let all = first + rest;
    let off: int = if important {
        0
    } else {
        first.len() as int
    };
    let before = offered(rules, found, important, i);
    offered_before(rules, found, important, i, key);
    offered_starts(rules, found, important, i + 1, n);
    let upto = offered(rules, found, important, i + 1);
    assert(upto == before + own);
    let k = least_named(own, key);
    let at = off + before.len() + k;
    assert(all[at] == class[before.len() + k]);
    assert(class[before.len() + k] == upto[before.len() + k]);
    assert(all[at] == own[k]);
    assert forall|j: int| 0 <= j < at implies (#[trigger] all[j]).key != all[at].key by {
        if j < off {
            assert(all[j] == first[j]);
        } else if j - off < before.len() {
            assert(all[j] == class[j - off]);
            assert(class[j - off] == upto[j - off]);
            assert(all[j] == before[j - off]);
        } else {
            assert(all[j] == class[j - off]);
            assert(class[j - off] == upto[j - off]);
            assert(all[j] == own[j - off - before.len()]);
        }
    }
    let inline = doc.nodes[path.last().id as int].style;
    the_first_offer_wins(all, inline, at);
    let won = taken(all, inline);
    let w = choose|w: int| 0 <= w < won.len() && won[w] == all[at];
    assert(own.contains(node_wins(rules, doc, path)[w]));
}

/// Do rules stand in descending cascade order?
pub open spec fn in_cascade(rules: Seq<StyleRuleV>, found: Seq<int>) -> bool {
    forall|i: int, j: int|
        0 <= i < j < found.len() ==> outranks(rules, #[trigger] found[i], #[trigger] found[j])
}

proof fn ranked_in_cascade(rules: Seq<StyleRuleV>, found: Seq<int>, r: int)
    requires
        in_cascade(rules, found),
        forall|i: int| 0 <= i < found.len() ==> (#[trigger] found[i]) < r,
    ensures
        in_cascade(rules, ranked(rules, found, r)),
        forall|i: int|
            0 <= i < ranked(rules, found, r).len() ==> found.contains(
                #[trigger] ranked(rules, found, r)[i],
            ) || ranked(rules, found, r)[i] == r,
    decreases found.len(),
{
    let all = ranked(rules, found, r);
    if found.len() > 0 && outranks(rules, r, found.last()) {
        let front = found.drop_last();
        assert(in_cascade(rules, front));
        ranked_in_cascade(rules, front, r);
        let p = ranked(rules, front, r);
        assert forall|i: int| 0 <= i < all.len() implies found.contains(#[trigger] all[i]) || all[i]
            == r by {
            if i < p.len() {
                assert(all[i] == p[i]);
                if front.contains(p[i]) {
                    let k = choose|k: int| 0 <= k < front.len() && front[k] == p[i];
                    assert(found[k] == p[i]);
                }
            } else {
                assert(found[found.len() - 1] == all[i]);
            }
        }
        assert forall|i: int, j: int| 0 <= i < j < all.len() implies outranks(
            rules,
            #[trigger] all[i],
            #[trigger] all[j],
        ) by {
            assert(all[i] == p[i]);
            if j < p.len() {
                assert(all[j] == p[j]);
            } else if front.contains(p[i]) {
                let k = choose|k: int| 0 <= k < front.len() && front[k] == p[i];
                assert(outranks(rules, found[k], found[found.len() - 1]));
            }
        }
    } else {
        assert forall|i: int| 0 <= i < all.len() implies found.contains(#[trigger] all[i]) || all[i]
            == r by {
            if i < found.len() {
                assert(found[i] == all[i]);
            }
        }
        assert forall|i: int, j: int| 0 <= i < j < all.len() implies outranks(
            rules,
            #[trigger] all[i],
            #[trigger] all[j],
        ) by {
            if j == found.len() {
                let last = found[found.len() - 1];
                assert(outranks(rules, last, r));
                if i < found.len() - 1 {
                    assert(outranks(rules, found[i], last));
                }
            }
        }
    }
}

/// The rules that match a node stand in cascade order: by specificity, then
/// source order, the later first.
pub proof fn matches_stand_in_cascade_order(
    rules: Seq<StyleRuleV>,
    doc: DocV,
    path: Seq<Step>,
    n: int,
)
    requires
        n <= rules.len(),
    ensures
        in_cascade(rules, hits(rules, doc, path, n)),
        forall|i: int|
            0 <= i < hits(rules, doc, path, n).len() ==> 0 <= (#[trigger] hits(
                rules,
                doc,
                path,
                n,
            )[i]) < n,
    decreases n,
{
    if n > 0 {
        matches_stand_in_cascade_order(rules, doc, path, n - 1);
        let before = hits(rules, doc, path, n - 1);
        if sel_matches(doc, rules[n - 1].sel, path) {
            ranked_in_cascade(rules, before, n - 1);
            let all = hits(rules, doc, path, n);
            assert forall|i: int| 0 <= i < all.len() implies 0 <= (#[trigger] all[i]) < n by {
                if before.contains(all[i]) {
                    let k = choose|k: int| 0 <= k < before.len() && before[k] == all[i];
                    assert(before[k] < n - 1);
                }
            }
        }
    }
}

/// The inline `style` attribute always wins: a sheet leaves each node its
/// inline record, whole and last, and only puts declarations ahead of it.
pub proof fn inline_style_stays(doc: DocV, sheet: SheetV, i: int)
    requires
        0 <= i < doc.nodes.len(),
    ensures
        applied(doc, sheet).nodes[i].style == wins_for(resolved(sheet, doc), i)
            + doc.nodes[i].style,
        applied(doc, sheet).nodes[i].kind == doc.nodes[i].kind,
        applied(doc, sheet).nodes[i].tag == doc.nodes[i].tag,
        applied(doc, sheet).nodes[i].path == doc.nodes[i].path,
        applied(doc, sheet).nodes[i].data == doc.nodes[i].data,
        applied(doc, sheet).nodes[i].text == doc.nodes[i].text,
        applied(doc, sheet).nodes[i].children == doc.nodes[i].children,
        applied(doc, sheet).nodes.len() == doc.nodes.len(),
        applied(doc, sheet).items == doc.items,
{
}

/// Of each node of a document that a sheet was applied to, the part of its
/// style that the sheet gave names a property once, and none that the inline
/// part sets, by its own name or by the shorthand of its box.
pub proof fn a_styled_node_names_a_property_once(doc: DocV, sheet: SheetV, i: int)
    requires
        doc.wf(),
        0 <= i < doc.nodes.len(),
    ensures
        applied(doc, sheet).nodes[i].style == wins_for(resolved(sheet, doc), i)
            + doc.nodes[i].style,
        settled(wins_for(resolved(sheet, doc), i), doc.nodes[i].style),
{
    a_document_is_settled(doc, sheet);
}

/// A sheet that wins nothing leaves the document as it was.
pub proof fn no_win_changes_nothing(doc: DocV, sheet: SheetV)
    requires
        resolved(sheet, doc).len() == 0,
    ensures
        applied(doc, sheet) == doc,
{
    let out = applied(doc, sheet);
    assert forall|i: int| 0 <= i < doc.nodes.len() implies out.nodes[i] == doc.nodes[i] by {
        assert(wins_for(resolved(sheet, doc), i) + doc.nodes[i].style =~= doc.nodes[i].style);
    }
    assert(out.nodes =~= doc.nodes);
}

proof fn no_hits_without_rules(doc: DocV, path: Seq<Step>, step: Step, depth: int)
    requires
        0 <= depth <= MAX_DEPTH + 1,
    ensures
        walk(seq![], doc, path, step, depth).len() == 0,
    decreases MAX_DEPTH + 1 - depth, 0int,
{
    if depth <= MAX_DEPTH {
        let node = doc.nodes[step.id as int];
        let here = path.push(step);
        let none: Seq<StyleRuleV> = seq![];
        let found = hits(none, doc, here, 0);
        assert(offered(none, found, true, 0) + offered(none, found, false, 0) =~= seq![]);
        assert(node_wins(none, doc, here).len() == 0);
        no_list_hits_without_rules(doc, here, node.children, node.children.len() as int, depth + 1);
    }
}

proof fn no_list_hits_without_rules(doc: DocV, path: Seq<Step>, sibs: Seq<usize>, n: int, depth: int)
    requires
        0 <= depth <= MAX_DEPTH + 1,
    ensures
        walk_list(seq![], doc, path, sibs, n, depth).len() == 0,
    decreases MAX_DEPTH + 1 - depth, n,
{
    if n > 0 {
        no_list_hits_without_rules(doc, path, sibs, n - 1, depth);
        no_hits_without_rules(
            doc,
            path,
            Step { id: sibs[n - 1], pos: pos_of(doc, sibs, n - 1) },
            depth,
        );
    }
}

/// A sheet without rules changes nothing.
pub proof fn an_empty_sheet_changes_nothing(doc: DocV, sheet: SheetV)
    requires
        sheet.rules.len() == 0,
    ensures
        applied(doc, sheet) == doc,
{
    assert(sheet.rules =~= seq![]);
    no_list_hits_without_rules(doc, seq![], doc.items, doc.items.len() as int, 0);
    no_win_changes_nothing(doc, sheet);
}

/// The rules of every scan stand in source order: the order in which their
/// blocks opened.
pub proof fn scanned_rules_stand_in_source_order(css: Seq<char>)
    ensures
        forall|i: int, j: int|
            0 <= i < j < scanned(css).rules.len() ==> (#[trigger] scanned(css).rules[i]).order <= (
            #[trigger] scanned(css).rules[j]).order,
{
    scan::scan_keeps_order(css, 0, scan::StateV::start());
}


proof fn ranked_holds(rules: Seq<StyleRuleV>, found: Seq<int>, r: int)
    ensures
        forall|x: int| #[trigger] ranked(rules, found, r).contains(x) <==> found.contains(x) || x == r,
    decreases found.len(),
{
    let all = ranked(rules, found, r);
    if found.len() > 0 && outranks(rules, r, found.last()) {
        let front = found.drop_last();
        ranked_holds(rules, front, r);
        let p = ranked(rules, front, r);
        assert forall|x: int| #[trigger] all.contains(x) <==> found.contains(x) || x == r by {
            if all.contains(x) {
                let k = choose|k: int| 0 <= k < all.len() && all[k] == x;
                if k < p.len() {
                    assert(p[k] == x);
                    assert(p.contains(x));
                    if front.contains(x) {
                        let j = choose|j: int| 0 <= j < front.len() && front[j] == x;
                        assert(found[j] == x);
                    }
                } else {
                    assert(found[found.len() - 1] == x);
                }
            }
            if found.contains(x) || x == r {
                if x == r || front.contains(x) {
                    assert(p.contains(x));
                    let k = choose|k: int| 0 <= k < p.len() && p[k] == x;
                    assert(all[k] == x);
                } else {
                    let j = choose|j: int| 0 <= j < found.len() && found[j] == x;
                    if j < front.len() {
                        assert(front[j] == x);
                    }
                    assert(all[p.len() as int] == x);
                }
            }
        }
    } else {
        assert forall|x: int| #[trigger] all.contains(x) <==> found.contains(x) || x == r by {
            if all.contains(x) {
                let k = choose|k: int| 0 <= k < all.len() && all[k] == x;
                if k < found.len() {
                    assert(found[k] == x);
                }
            }
            if found.contains(x) {
                let k = choose|k: int| 0 <= k < found.len() && found[k] == x;
                assert(all[k] == x);
            }
            assert(all[found.len() as int] == r);
        }
    }
}

/// The rules that are found for a node are those whose selector matches it, and
/// no others.
pub proof fn every_matching_rule_is_found(
    rules: Seq<StyleRuleV>,
    doc: DocV,
    path: Seq<Step>,
    n: int,
    r: int,
)
    requires
        0 <= n <= rules.len(),
    ensures
        hits(rules, doc, path, n).contains(r) <==> 0 <= r < n && sel_matches(
            doc,
            rules[r].sel,
            path,
        ),
    decreases n,
{
    if n > 0 {
        every_matching_rule_is_found(rules, doc, path, n - 1, r);
        ranked_holds(rules, hits(rules, doc, path, n - 1), n - 1);
    }
}

proof fn standing_holds(ds: Seq<MappedV>, important: bool, n: int)
    requires
        0 <= n <= ds.len(),
    ensures
        forall|i: int|
            0 <= i < standing(ds, important, n).len() ==> exists|j: int|
                0 <= j < n && ds[j] == #[trigger] standing(ds, important, n)[i] && ds[j].important
                    == important && #[trigger] is_last_of(ds, j),
        forall|j: int|
            0 <= j < n && ds[j].important == important && #[trigger] is_last_of(ds, j) ==> standing(
                ds,
                important,
                n,
            ).contains(ds[j]),
    decreases n,
{
    let all = standing(ds, important, n);
    if n > 0 {
        standing_holds(ds, important, n - 1);
        let before = standing(ds, important, n - 1);
        assert(is_last_of(ds, n - 1) <==> !overwritten(ds, n - 1));
        assert forall|i: int| 0 <= i < all.len() implies exists|j: int|
            0 <= j < n && ds[j] == #[trigger] all[i] && ds[j].important == important
                && #[trigger] is_last_of(ds, j) by {
            if i < before.len() {
                assert(all[i] == before[i]);
            } else {
                assert(is_last_of(ds, n - 1));
            }
        }
        assert forall|j: int|
            0 <= j < n && ds[j].important == important && #[trigger] is_last_of(
                ds,
                j,
            ) implies all.contains(ds[j]) by {
            if j < n - 1 {
                assert(before.contains(ds[j]));
                let k = choose|k: int| 0 <= k < before.len() && before[k] == ds[j];
                assert(all[k] == ds[j]);
            } else {
                assert(all[all.len() - 1] == ds[j]);
            }
        }
    }
}

/// Does no later declaration of a rule set the same property with the same
/// importance?
pub open spec fn is_last_of(ds: Seq<MappedV>, j: int) -> bool {
    forall|k: int|
        j < k < ds.len() ==> !((#[trigger] ds[k]).key == ds[j].key && ds[k].important
            == ds[j].important)
}

/// Is declaration `j` of rule `a` at least as strong as declaration `k` of rule
/// `b`: it is important and the other is not, or as important and of a more
/// specific rule, or of as specific a rule that comes later, or it comes later
/// in the rule?
pub open spec fn as_strong(rules: Seq<StyleRuleV>, a: int, j: int, b: int, k: int) -> bool {
    let d = rules[a].decls[j];
    let e = rules[b].decls[k];
    ||| d.important && !e.important
    ||| d.important == e.important && rules[a].spec > rules[b].spec
    ||| d.important == e.important && rules[a].spec == rules[b].spec && a > b
    ||| d.important == e.important && a == b && j >= k
}

/// Of all the declarations of a property that match a node the strongest gives
/// it its value: an important one before a normal one, then the more specific
/// rule, then the later rule, then the later declaration. The inline record
/// alone can keep it out.
pub proof fn the_strongest_declaration_wins(
    rules: Seq<StyleRuleV>,
    doc: DocV,
    path: Seq<Step>,
    a: int,
    j: int,
)
    requires
        0 <= a < rules.len(),
        sel_matches(doc, rules[a].sel, path),
        0 <= j < rules[a].decls.len(),
        !inline_sets(doc.nodes[path.last().id as int].style, rules[a].decls[j].key),
        forall|b: int, k: int|
            0 <= b < rules.len() && sel_matches(doc, rules[b].sel, path) && 0 <= k
                < rules[b].decls.len() && (#[trigger] rules[b].decls[k]).key == rules[a].decls[j].key
                ==> as_strong(rules, a, j, b, k),
    ensures
        node_wins(rules, doc, path).contains(rules[a].decls[j]),
{
    let n = rules.len() as int;
    let found = hits(rules, doc, path, n);
    let d = rules[a].decls[j];
    let key = d.key;
    let ds = rules[a].decls;
    every_matching_rule_is_found(rules, doc, path, n, a);
    matches_stand_in_cascade_order(rules, doc, path, n);
    let i = choose|i: int| 0 <= i < found.len() && found[i] == a;
    assert(is_last_of(ds, j)) by {
        assert forall|k: int| j < k < ds.len() implies !((#[trigger] ds[k]).key == ds[j].key
            && ds[k].important == ds[j].important) by {
            if ds[k].key == key {
                assert(as_strong(rules, a, j, a, k));
            }
        }
    }
    let own = standing(ds, d.important, ds.len() as int);
    standing_holds(ds, d.important, ds.len() as int);
    assert(own.contains(d));
    let o = choose|o: int| 0 <= o < own.len() && own[o] == d;
    assert(own[o].key == key);
    assert forall|h: int| 0 <= h < i implies !names(
        standing(
            rules[#[trigger] found[h]].decls,
            d.important,
            rules[found[h]].decls.len() as int,
        ),
        key,
    ) by {
        let b = found[h];
        every_matching_rule_is_found(rules, doc, path, n, b);
        assert(found.contains(b));
        let es = rules[b].decls;
        let st = standing(es, d.important, es.len() as int);
        standing_holds(es, d.important, es.len() as int);
        if names(st, key) {
            let x = choose|x: int| 0 <= x < st.len() && (#[trigger] st[x]).key == key;
            let k = choose|k: int|
                0 <= k < es.len() && es[k] == st[x] && es[k].important == d.important
                    && #[trigger] is_last_of(es, k);
            assert(rules[b].decls[k].key == key);
            assert(as_strong(rules, a, j, b, k));
            assert(outranks(rules, found[h], found[i]));
        }
    }
    if !d.important {
        assert forall|h: int| 0 <= h < found.len() implies !names(
            standing(rules[#[trigger] found[h]].decls, true, rules[found[h]].decls.len() as int),
            key,
        ) by {
            let b = found[h];
            every_matching_rule_is_found(rules, doc, path, n, b);
            assert(found.contains(b));
            let es = rules[b].decls;
            let st = standing(es, true, es.len() as int);
            standing_holds(es, true, es.len() as int);
            if names(st, key) {
                let x = choose|x: int| 0 <= x < st.len() && (#[trigger] st[x]).key == key;
                let k = choose|k: int|
                    0 <= k < es.len() && es[k] == st[x] && es[k].important && #[trigger] is_last_of(
                        es,
                        k,
                    );
                assert(rules[b].decls[k].key == key);
                assert(as_strong(rules, a, j, b, k));
            }
        }
        offered_before(rules, found, true, found.len() as int, key);
    }
    the_first_rule_of_the_cascade_wins(rules, doc, path, key, d.important, i);
    let won = node_wins(rules, doc, path);
    let w = choose|w: int| 0 <= w < won.len() && own.contains(#[trigger] won[w]) && won[w].key == key;
    let y = choose|y: int| 0 <= y < own.len() && own[y] == won[w];
    let k = choose|k: int|
        0 <= k < ds.len() && ds[k] == own[y] && ds[k].important == d.important
            && #[trigger] is_last_of(ds, k);
    assert(rules[a].decls[k].key == key);
    assert(as_strong(rules, a, j, a, k));
    if k < j {
        assert(ds[j].key == ds[k].key && ds[j].important == ds[k].important);
    }
    assert(won[w] == d);
}

/// Is a declaration one of the first `n` rules found?
spec fn declared_by(rules: Seq<StyleRuleV>, found: Seq<int>, n: int, d: MappedV) -> bool {
    exists|h: int, j: int|
        0 <= h < n && 0 <= j < rules[found[h]].decls.len() && #[trigger] rules[found[h]].decls[j] == d
}

proof fn offered_from(rules: Seq<StyleRuleV>, found: Seq<int>, important: bool, n: int)
    requires
        0 <= n <= found.len(),
    ensures
        forall|x: int|
            0 <= x < offered(rules, found, important, n).len() ==> declared_by(
                rules,
                found,
                n,
                #[trigger] offered(rules, found, important, n)[x],
            ),
    decreases n,
{
    if n > 0 {
        offered_from(rules, found, important, n - 1);
        let before = offered(rules, found, important, n - 1);
        let ds = rules[found[n - 1]].decls;
        let own = standing(ds, important, ds.len() as int);
        standing_holds(ds, important, ds.len() as int);
        let all = offered(rules, found, important, n);
        assert forall|x: int| 0 <= x < all.len() implies declared_by(
            rules,
            found,
            n,
            #[trigger] all[x],
        ) by {
            if x < before.len() {
                assert(declared_by(rules, found, n - 1, before[x]));
                let (h, j) = choose|h: int, j: int|
                    0 <= h < n - 1 && 0 <= j < rules[found[h]].decls.len()
                        && #[trigger] rules[found[h]].decls[j] == before[x];
                assert(rules[found[h]].decls[j] == all[x]);
            } else {
                let y = x - before.len();
                assert(all[x] == own[y]);
                let j = choose|j: int|
                    0 <= j < ds.len() && ds[j] == own[y] && ds[j].important == important
                        && #[trigger] is_last_of(ds, j);
                assert(rules[found[n - 1]].decls[j] == all[x]);
            }
        }
    }
}

/// Whatever a sheet gives a node is a declaration of a rule that matches it.
pub proof fn every_win_is_of_a_matching_rule(
    rules: Seq<StyleRuleV>,
    doc: DocV,
    path: Seq<Step>,
    w: int,
)
    requires
        0 <= w < node_wins(rules, doc, path).len(),
    ensures
        exists|a: int, j: int|
            0 <= a < rules.len() && sel_matches(doc, rules[a].sel, path) && 0 <= j
                < rules[a].decls.len() && #[trigger] rules[a].decls[j] == node_wins(
                rules,
                doc,
                path,
            )[w],
{
    let n = rules.len() as int;
    let found = hits(rules, doc, path, n);
    let m = found.len() as int;
    let first = offered(rules, found, true, m);
    let rest = offered(rules, found, false, m);
    let offers = first + rest;
    let inline = doc.nodes[path.last().id as int].style;
    let won = node_wins(rules, doc, path);
    taken_from(offers, inline);
    assert(offers.contains(won[w]));
    let x = choose|x: int| 0 <= x < offers.len() && offers[x] == won[w];
    offered_from(rules, found, true, m);
    offered_from(rules, found, false, m);
    if x < first.len() {
        assert(first[x] == won[w]);
    } else {
        assert(rest[x - first.len()] == won[w]);
    }
    assert(declared_by(rules, found, m, won[w]));
    let (h, j) = choose|h: int, j: int|
        0 <= h < m && 0 <= j < rules[found[h]].decls.len() && #[trigger] rules[found[h]].decls[j]
            == won[w];
    every_matching_rule_is_found(rules, doc, path, n, found[h]);
    assert(found.contains(found[h]));
    assert(rules[found[h]].decls[j] == won[w]);
}

/// A box shorthand sets its four edges as CSS does: one word sets all, two set
/// top and bottom, then left and right, three set top, left and right, bottom,
/// and four go round from the top.
pub proof fn a_shorthand_goes_round_the_box(d: scan::DeclV, key: StyleKey)
    requires
        css_named(d.prop) == Some(key),
        key == StyleKey::Margin || key == StyleKey::Padding,
        !has_var(d.value),
        1 <= words(d.value).len() <= 4,
    ensures
        ({
            let w = words(d.value);
            let out = mapped(d).0;
            let margin = key == StyleKey::Margin;
            &&& out.len() == 4
            &&& out[0].key == (if margin { StyleKey::MarginTop } else { StyleKey::PaddingTop })
            &&& out[1].key == (if margin { StyleKey::MarginRight } else { StyleKey::PaddingRight })
            &&& out[2].key == (if margin { StyleKey::MarginBottom } else { StyleKey::PaddingBottom })
            &&& out[3].key == (if margin { StyleKey::MarginLeft } else { StyleKey::PaddingLeft })
            &&& out[0].value == w[0]
            &&& w.len() == 1 ==> out[1].value == w[0] && out[2].value == w[0] && out[3].value == w[0]
            &&& w.len() == 2 ==> out[1].value == w[1] && out[2].value == w[0] && out[3].value == w[1]
            &&& w.len() == 3 ==> out[1].value == w[1] && out[2].value == w[2] && out[3].value == w[1]
            &&& w.len() == 4 ==> out[1].value == w[1] && out[2].value == w[2] && out[3].value == w[3]
            &&& forall|i: int| 0 <= i < 4 ==> (#[trigger] out[i]).important == d.important
        }),
{
}

/// Any other property is kept with its value and its importance, unless the
/// value holds a `var()`.
pub proof fn a_plain_declaration_is_kept(d: scan::DeclV, key: StyleKey)
    requires
        css_named(d.prop) == Some(key),
        key != StyleKey::Margin,
        key != StyleKey::Padding,
    ensures
        !has_var(d.value) ==> mapped(d).0 == seq![
            MappedV { key, value: d.value, important: d.important },
        ],
        has_var(d.value) ==> mapped(d).0.len() == 0,
{
}

/// An inline shorthand sets each edge of its box, and an inline property sets
/// itself, and nothing else.
pub proof fn an_inline_property_sets_its_box(inline: StyleKey, css: StyleKey)
    ensures
        shadows(inline, css) <==> {
            ||| inline == css
            ||| inline == StyleKey::Margin && (css == StyleKey::MarginTop || css
                == StyleKey::MarginRight || css == StyleKey::MarginBottom || css
                == StyleKey::MarginLeft)
            ||| inline == StyleKey::Padding && (css == StyleKey::PaddingTop || css
                == StyleKey::PaddingRight || css == StyleKey::PaddingBottom || css
                == StyleKey::PaddingLeft)
        },
{
    if let Some(e) = edges(inline) {
        assert(e.contains(e[0]) && e.contains(e[1]) && e.contains(e[2]) && e.contains(e[3]));
        if e.contains(css) {
            let k = choose|k: int| 0 <= k < e.len() && e[k] == css;
            assert(k == 0 || k == 1 || k == 2 || k == 3);
        }
    }
}

/// A rule that is kept has each of its selectors in the sheet, in order, with
/// all its declarations, and a rule in an at-rule or with an unreadable selector
/// has none.
pub proof fn a_rule_enters_whole_or_not_at_all(rules: Seq<RuleV>, r: RuleV)
    ensures
        ({
            let before = sheet_of(rules).rules;
            let after = sheet_of(rules.push(r)).rules;
            let dropped = r.in_at_rule || compiled_all(r.selectors) is None || mapped_all(
                r.decls,
            ).0.len() == 0;
            &&& before.len() <= after.len()
            &&& forall|i: int| 0 <= i < before.len() ==> #[trigger] after[i] == before[i]
            &&& dropped ==> after == before
            &&& !dropped ==> after.len() == before.len() + r.selectors.len() && forall|i: int|
                0 <= i < r.selectors.len() ==> {
                    let now = #[trigger] after[before.len() + i];
                    &&& Some((now.sel, now.spec)) == select::compiled(r.selectors[i])
                    &&& now.decls == mapped_all(r.decls).0
                }
        }),
{
    assert(rules.push(r).drop_last() =~= rules);
    compiled_selectors(r.selectors);
    compiled_in_order(r.selectors);
}

proof fn compiled_in_order(sels: Seq<Seq<char>>)
    ensures
        compiled_all(sels) matches Some(all) ==> all.len() == sels.len() && forall|i: int|
            0 <= i < all.len() ==> Some(#[trigger] all[i]) == select::compiled(sels[i]),
    decreases sels.len(),
{
    if sels.len() > 0 {
        compiled_in_order(sels.drop_last());
    }
}

/// Is a step that of one of a list of siblings?
pub open spec fn step_of(doc: DocV, sibs: Seq<usize>, step: Step) -> bool {
    exists|ix: int|
        0 <= ix < sibs.len() && step == (Step { id: #[trigger] sibs[ix], pos: pos_of(doc, sibs, ix) })
}

/// Does a chain go down from an item of a document, from each node to a child
/// of it?
pub open spec fn chain_of(doc: DocV, path: Seq<Step>) -> bool {
    &&& path.len() > 0
    &&& step_of(doc, doc.items, path[0])
    &&& forall|k: int|
        0 < k < path.len() ==> step_of(
            doc,
            doc.nodes[path[k - 1].id as int].children,
            #[trigger] path[k],
        )
}

/// Does a chain go on down from a node?
spec fn goes_on(doc: DocV, from: Step, rest: Seq<Step>) -> bool
    decreases rest.len(),
{
    rest.len() > 0 ==> step_of(doc, doc.nodes[from.id as int].children, rest[0]) && goes_on(
        doc,
        rest[0],
        rest.skip(1),
    )
}

spec fn end_of(from: Step, rest: Seq<Step>) -> Step {
    if rest.len() == 0 {
        from
    } else {
        rest.last()
    }
}

/// What is given to a node, as its style has it.
pub open spec fn given(ds: Seq<MappedV>) -> Seq<(StyleKey, ScalarV)> {
    ds.map_values(|d: MappedV| (d.key, ScalarV::Text(d.value)))
}

proof fn a_chain_stays_below(doc: DocV, from: Step, rest: Seq<Step>, to: int)
    requires
        doc.wf(),
        goes_on(doc, from, rest),
        from.id < to <= doc.nodes.len(),
        closed_at(doc, from.id as int, to),
    ensures
        from.id <= end_of(from, rest).id < to,
        rest.len() > 0 ==> from.id < end_of(from, rest).id,
    decreases rest.len(),
{
    if rest.len() > 0 {
        let kids = doc.nodes[from.id as int].children;
        let ix = choose|ix: int|
            0 <= ix < kids.len() && rest[0] == (Step {
                id: #[trigger] kids[ix],
                pos: pos_of(doc, kids, ix),
            });
        assert(from.id < doc.nodes[from.id as int].children[ix] < to);
        assert(closed_at(doc, rest[0].id as int, to));
        a_chain_stays_below(doc, rest[0], rest.skip(1), to);
        if rest.len() > 1 {
            assert(rest.skip(1).last() == rest.last());
        }
    }
}

proof fn a_subtree_gives_its_own(
    rules: Seq<StyleRuleV>,
    doc: DocV,
    path: Seq<Step>,
    step: Step,
    depth: int,
    to: int,
    rest: Seq<Step>,
)
    requires
        doc.wf(),
        0 <= depth,
        depth + rest.len() <= MAX_DEPTH,
        step.id < to <= doc.nodes.len(),
        closed_at(doc, step.id as int, to),
        goes_on(doc, step, rest),
        reachable(doc.nodes[end_of(step, rest).id as int].kind),
    ensures
        wins_for(walk(rules, doc, path, step, depth), end_of(step, rest).id as int) == given(
            node_wins(rules, doc, path.push(step) + rest),
        ),
    decreases rest.len(), 1int, 0int,
{
    let id = step.id as int;
    let last = end_of(step, rest).id as int;
    let here = path.push(step);
    let kids = doc.nodes[id].children;
    let n = kids.len() as int;
    let own = if reachable(doc.nodes[id].kind) {
        as_wins(step.id, node_wins(rules, doc, here))
    } else {
        seq![]
    };
    assert forall|k: int| 0 <= k < n implies id + 1 <= #[trigger] kids[k] < to && closed_at(
        doc,
        id + 1,
        kids[k] as int,
    ) by {
        assert(doc.nodes[id].children[k] < to);
        assert forall|b: int, j: int|
            #![trigger doc.nodes[b].children[j]]
            id + 1 <= b < kids[k] && 0 <= j < doc.nodes[b].children.len() implies
            doc.nodes[b].children[j] < kids[k] by {
            assert(doc.nodes[b].children[j] < doc.nodes[id].children[k]);
        }
    }
    assert forall|j: int, k: int| 0 <= j < k < n implies #[trigger] kids[j] < #[trigger] kids[k] by {
        assert(doc.nodes[id].children[j] < doc.nodes[id].children[k]);
    }
    let below = walk_list(rules, doc, here, kids, n, depth + 1);
    assert(walk(rules, doc, path, step, depth) == own + below);
    wins_for_both(own, below, last);
    a_chain_stays_below(doc, step, rest, to);
    if rest.len() == 0 {
        a_row_is_settled(rules, doc, here, kids, n, depth + 1, id + 1, to);
        no_win_outside(below, id + 1, to, id);
        own_wins(step.id, node_wins(rules, doc, here));
        assert(here + rest =~= here);
        assert(wins_for(own, id) + wins_for(below, id) =~= wins_for(own, id));
    } else {
        assert(wins_within(own, id, id + 1));
        no_win_outside(own, id, id + 1, last);
        let ix = choose|ix: int|
            0 <= ix < kids.len() && rest[0] == (Step {
                id: #[trigger] kids[ix],
                pos: pos_of(doc, kids, ix),
            });
        a_row_gives_its_own(rules, doc, here, kids, n, depth + 1, id + 1, to, ix, rest);
        assert(wins_for(own, last) + wins_for(below, last) =~= wins_for(below, last));
        assert(here + rest =~= here.push(rest[0]) + rest.skip(1));
    }
}

proof fn a_row_gives_its_own(
    rules: Seq<StyleRuleV>,
    doc: DocV,
    path: Seq<Step>,
    sibs: Seq<usize>,
    n: int,
    depth: int,
    from: int,
    to: int,
    ix: int,
    rest: Seq<Step>,
)
    requires
        doc.wf(),
        0 <= depth,
        rest.len() > 0,
        depth + rest.len() - 1 <= MAX_DEPTH,
        0 <= ix < n <= sibs.len(),
        rest[0] == (Step { id: sibs[ix], pos: pos_of(doc, sibs, ix) }),
        goes_on(doc, rest[0], rest.skip(1)),
        reachable(doc.nodes[rest.last().id as int].kind),
        0 <= from,
        to <= doc.nodes.len(),
        forall|k: int|
            0 <= k < n ==> from <= #[trigger] sibs[k] < to && closed_at(doc, from, sibs[k] as int),
        forall|j: int, k: int| 0 <= j < k < n ==> #[trigger] sibs[j] < #[trigger] sibs[k],
        closed_at(doc, from, to),
    ensures
        wins_for(walk_list(rules, doc, path, sibs, n, depth), rest.last().id as int) == given(
            node_wins(rules, doc, path.push(rest[0]) + rest.skip(1)),
        ),
    decreases rest.len(), 0int, n,
{
    let last = sibs[n - 1] as int;
    let step = Step { id: sibs[n - 1], pos: pos_of(doc, sibs, n - 1) };
    let before = walk_list(rules, doc, path, sibs, n - 1, depth);
    let own = walk(rules, doc, path, step, depth);
    let goal = rest.last().id as int;
    assert(walk_list(rules, doc, path, sibs, n, depth) == before + own);
    wins_for_both(before, own, goal);
    assert(closed_at(doc, last, to));
    let tail = rest.skip(1);
    assert(end_of(rest[0], tail) == rest.last()) by {
        if tail.len() > 0 {
            assert(tail.last() == rest.last());
        }
    }
    if ix == n - 1 {
        a_row_is_settled(rules, doc, path, sibs, n - 1, depth, from, last);
        a_chain_stays_below(doc, step, tail, to);
        no_win_outside(before, from, last, goal);
        a_subtree_gives_its_own(rules, doc, path, step, depth, to, tail);
        assert(wins_for(before, goal) + wins_for(own, goal) =~= wins_for(own, goal));
    } else {
        assert(closed_at(doc, sibs[ix] as int, last));
        assert(sibs[ix] < sibs[n - 1]);
        a_chain_stays_below(doc, rest[0], tail, last);
        a_row_gives_its_own(rules, doc, path, sibs, n - 1, depth, from, last, ix, rest);
        a_subtree_is_settled(rules, doc, path, step, depth, to);
        no_win_outside(own, last, to, goal);
        assert(wins_for(before, goal) + wins_for(own, goal) =~= wins_for(before, goal));
    }
}

proof fn chain_goes_on(doc: DocV, path: Seq<Step>, k: int)
    requires
        chain_of(doc, path),
        0 <= k < path.len(),
    ensures
        goes_on(doc, path[k], path.skip(k + 1)),
    decreases path.len() - k,
{
    let rest = path.skip(k + 1);
    if rest.len() > 0 {
        chain_goes_on(doc, path, k + 1);
        assert(rest[0] == path[k + 1]);
        assert(rest.skip(1) =~= path.skip(k + 2));
        assert(step_of(doc, doc.nodes[path[k + 1 - 1].id as int].children, path[k + 1]));
    }
}

/// A sheet gives each node what the cascade gives it on the chain of its
/// ancestors: the node's style starts with the declarations that win there.
pub proof fn a_node_gets_what_its_chain_wins(doc: DocV, sheet: SheetV, path: Seq<Step>)
    requires
        doc.wf(),
        chain_of(doc, path),
        path.len() <= MAX_DEPTH + 1,
        !(doc.nodes[path.last().id as int].kind is Text),
        !(doc.nodes[path.last().id as int].kind is Break),
    ensures
        applied(doc, sheet).nodes[path.last().id as int].style == given(
            node_wins(sheet.rules, doc, path),
        ) + doc.nodes[path.last().id as int].style,
{
    let n = doc.items.len() as int;
    let ix = choose|ix: int|
        0 <= ix < n && path[0] == (Step {
            id: #[trigger] doc.items[ix],
            pos: pos_of(doc, doc.items, ix),
        });
    chain_goes_on(doc, path, 0);
    let none: Seq<Step> = seq![];
    a_row_gives_its_own(
        sheet.rules,
        doc,
        none,
        doc.items,
        n,
        0,
        0,
        doc.nodes.len() as int,
        ix,
        path,
    );
    assert(none.push(path[0]) + path.skip(1) =~= path);
    a_chain_stays_below(doc, path[0], path.skip(1), doc.nodes.len() as int);
    if path.len() > 1 {
        assert(path.skip(1).last() == path.last());
    }
}

/// How a stylesheet writes a property.
pub open spec fn css_spelling(key: StyleKey) -> Seq<char> {
    match key {
        StyleKey::FontStyle => "font-style"@,
        StyleKey::FontWeight => "font-weight"@,
        StyleKey::FontSize => "font-size"@,
        StyleKey::TextDecorationLine => "text-decoration-line"@,
        StyleKey::TextDecorationStyle => "text-decoration-style"@,
        StyleKey::TextDecorationColor => "text-decoration-color"@,
        StyleKey::VerticalAlign => "vertical-align"@,
        StyleKey::TextAlign => "text-align"@,
        StyleKey::WhiteSpace => "white-space"@,
        StyleKey::WordBreak => "word-break"@,
        StyleKey::Cursor => "cursor"@,
        StyleKey::ListStyleType => "list-style-type"@,
        StyleKey::Color => "color"@,
        StyleKey::BackgroundColor => "background-color"@,
        StyleKey::BorderColor => "border-color"@,
        StyleKey::BorderStyle => "border-style"@,
        StyleKey::BorderRadius => "border-radius"@,
        StyleKey::BorderWidth => "border-width"@,
        StyleKey::Margin => "margin"@,
        StyleKey::MarginTop => "margin-top"@,
        StyleKey::MarginRight => "margin-right"@,
        StyleKey::MarginBottom => "margin-bottom"@,
        StyleKey::MarginLeft => "margin-left"@,
        StyleKey::Padding => "padding"@,
        StyleKey::PaddingTop => "padding-top"@,
        StyleKey::PaddingRight => "padding-right"@,
        StyleKey::PaddingBottom => "padding-bottom"@,
        StyleKey::PaddingLeft => "padding-left"@,
    }
}

proof fn css_spelling_names_apart()
    ensures
        "font-style"@.len() == 10,
        "font-weight"@.len() == 11,
        "font-size"@.len() == 9,
        "text-decoration-line"@.len() == 20,
        "text-decoration-style"@.len() == 21,
        "text-decoration-color"@.len() == 21,
        "vertical-align"@.len() == 14,
        "text-align"@.len() == 10,
        "white-space"@.len() == 11,
        "word-break"@.len() == 10,
        "cursor"@.len() == 6,
        "list-style-type"@.len() == 15,
        "color"@.len() == 5,
        "background-color"@.len() == 16,
        "border-color"@.len() == 12,
        "border-style"@.len() == 12,
        "border-radius"@.len() == 13,
        "border-width"@.len() == 12,
        "margin"@.len() == 6,
        "margin-top"@.len() == 10,
        "margin-right"@.len() == 12,
        "margin-bottom"@.len() == 13,
        "margin-left"@.len() == 11,
        "padding"@.len() == 7,
        "padding-top"@.len() == 11,
        "padding-right"@.len() == 13,
        "padding-bottom"@.len() == 14,
        "padding-left"@.len() == 12,
        "border-color"@[0] == 'b',
        "border-color"@[7] == 'c',
        "border-radius"@[0] == 'b',
        "border-style"@[0] == 'b',
        "border-style"@[7] == 's',
        "border-width"@[0] == 'b',
        "border-width"@[7] == 'w',
        "cursor"@[0] == 'c',
        "font-style"@[0] == 'f',
        "font-weight"@[0] == 'f',
        "margin"@[0] == 'm',
        "margin-bottom"@[0] == 'm',
        "margin-left"@[0] == 'm',
        "margin-right"@[0] == 'm',
        "margin-top"@[0] == 'm',
        "padding-bottom"@[0] == 'p',
        "padding-left"@[0] == 'p',
        "padding-right"@[0] == 'p',
        "padding-top"@[0] == 'p',
        "text-align"@[0] == 't',
        "text-decoration-color"@[16] == 'c',
        "text-decoration-style"@[16] == 's',
        "vertical-align"@[0] == 'v',
        "white-space"@[0] == 'w',
        "word-break"@[0] == 'w',
{
    reveal_strlit("font-style");
    reveal_strlit("font-weight");
    reveal_strlit("font-size");
    reveal_strlit("text-decoration-line");
    reveal_strlit("text-decoration-style");
    reveal_strlit("text-decoration-color");
    reveal_strlit("vertical-align");
    reveal_strlit("text-align");
    reveal_strlit("white-space");
    reveal_strlit("word-break");
    reveal_strlit("cursor");
    reveal_strlit("list-style-type");
    reveal_strlit("color");
    reveal_strlit("background-color");
    reveal_strlit("border-color");
    reveal_strlit("border-style");
    reveal_strlit("border-radius");
    reveal_strlit("border-width");
    reveal_strlit("margin");
    reveal_strlit("margin-top");
    reveal_strlit("margin-right");
    reveal_strlit("margin-bottom");
    reveal_strlit("margin-left");
    reveal_strlit("padding");
    reveal_strlit("padding-top");
    reveal_strlit("padding-right");
    reveal_strlit("padding-bottom");
    reveal_strlit("padding-left");
}

/// Every property is read from the way a stylesheet writes it.
pub proof fn every_css_property_reads_back(key: StyleKey)
    ensures
        css_named(css_spelling(key)) == Some(key),
{
    css_spelling_names_apart();
}

} // verus!
