//! A dictionary's `styles.css`, scanned into flat style rules.
//!
//! Hand-rolled and character-level, because no regex sees block structure:
//! nested at-rules, native `&` nesting, and a brace inside a string or a
//! `url(...)` all defeat a pattern that counts braces.
//!
//! Total: malformed input records its first complaint, drops the rule it was
//! inside, and returns everything already scanned. A dictionary that ships a
//! broken stylesheet must still render.
use crate::chars::{
    begins, chars_of, copy_chars, ends, ends_with, find_char, first_at, has_char,
    is_ascii_digit, is_ascii_lower, lower, lower_of, push_chars, replace_char, replaced, texts,
    trim, trim_end, trim_end_of, trim_of, trim_start, trim_start_of,
};
use vstd::prelude::*;
use vstd::slice::slice_subrange;

verus! {

/// Block levels the scanner will descend.
pub const MAX_NESTING: usize = 16;

/// Resolved selectors one sheet may carry.
pub const MAX_SELECTORS: usize = 32_768;

/// What a declaration holds.
#[verifier::ext_equal]
pub struct DeclV {
    pub prop: Seq<char>,
    pub value: Seq<char>,
    pub important: bool,
}

/// What a scanned rule holds.
#[verifier::ext_equal]
pub struct RuleV {
    pub selectors: Seq<Seq<char>>,
    pub decls: Seq<DeclV>,
    pub in_at_rule: bool,
    pub order: nat,
}

/// What an open block holds.
#[verifier::ext_equal]
pub struct FrameV {
    pub selectors: Seq<Seq<char>>,
    pub at_rule: bool,
    pub decls: Seq<DeclV>,
    pub order: nat,
    pub in_at_rule: bool,
}

/// The scanner between two characters.
#[verifier::ext_equal]
pub struct StateV {
    pub rules: Seq<RuleV>,
    pub stack: Seq<FrameV>,
    pub buf: Seq<char>,
    pub parens: nat,
    pub made: nat,
    pub opened: nat,
    pub error: Option<Seq<char>>,
}

/// One declaration.
pub struct Decl {
    /// Lowercased property name.
    pub prop: Vec<char>,
    pub value: Vec<char>,
    /// Was the value marked `!important`?
    pub important: bool,
}

impl Decl {
    pub open spec fn v(self) -> DeclV {
        DeclV { prop: self.prop@, value: self.value@, important: self.important }
    }
}

pub open spec fn decls_v(s: Seq<Decl>) -> Seq<DeclV> {
    s.map_values(|d: Decl| d.v())
}

/// One style rule, its `&` nesting already resolved into flat selectors.
pub struct Rule {
    /// The rule's selector list, one entry per top-level comma.
    pub selectors: Vec<Vec<char>>,
    /// In source order. Order is load-bearing: within one rule a shorthand
    /// that comes after a longhand overwrites it.
    pub decls: Vec<Decl>,
    /// Did this rule sit inside an at-rule body?
    pub in_at_rule: bool,
    /// Source order, assigned where the block opens: a nested block closes
    /// before its parent and cascades after it.
    pub order: usize,
}

impl Rule {
    pub open spec fn v(self) -> RuleV {
        RuleV {
            selectors: texts(self.selectors@),
            decls: decls_v(self.decls@),
            in_at_rule: self.in_at_rule,
            order: self.order as nat,
        }
    }
}

pub open spec fn rules_v(s: Seq<Rule>) -> Seq<RuleV> {
    s.map_values(|r: Rule| r.v())
}

/// What one scan recovered.
pub struct Scan {
    pub rules: Vec<Rule>,
    /// The first thing that did not parse.
    pub error: Option<&'static str>,
}

pub open spec fn error_v(e: Option<&'static str>) -> Option<Seq<char>> {
    match e {
        Some(s) => Some(s@),
        None => None,
    }
}

/// One open block.
struct Frame {
    /// Resolved selector list. Empty for an at-rule body.
    selectors: Vec<Vec<char>>,
    at_rule: bool,
    decls: Vec<Decl>,
    order: usize,
    /// Was this frame, or anything above it, an at-rule body?
    in_at_rule: bool,
}

impl Frame {
    spec fn v(self) -> FrameV {
        FrameV {
            selectors: texts(self.selectors@),
            at_rule: self.at_rule,
            decls: decls_v(self.decls@),
            order: self.order as nat,
            in_at_rule: self.in_at_rule,
        }
    }
}

spec fn frames_v(s: Seq<Frame>) -> Seq<FrameV> {
    s.map_values(|f: Frame| f.v())
}

// ---- strings and nesting ----

pub open spec fn is_quote(c: char) -> bool {
    c == '"' || c == '\''
}

/// Just past the closing quote of a string whose body starts at `i`, and
/// whether there is one. A CSS string never spans a raw newline, so an
/// unterminated one ends at the line break.
pub open spec fn string_end(s: Seq<char>, i: int, quote: char) -> (int, bool)
    decreases s.len() - i,
{
    if i >= s.len() {
        (s.len() as int, false)
    } else if s[i] == '\\' {
        if i + 2 <= s.len() {
            string_end(s, i + 2, quote)
        } else {
            (s.len() as int, false)
        }
    } else if s[i] == quote {
        (i + 1, true)
    } else if s[i] == '\n' {
        (i, false)
    } else {
        string_end(s, i + 1, quote)
    }
}

pub proof fn string_end_bounds(s: Seq<char>, i: int, quote: char)
    requires
        0 <= i <= s.len(),
    ensures
        i <= string_end(s, i, quote).0 <= s.len(),
    decreases s.len() - i,
{
    if i < s.len() && s[i] == '\\' {
        if i + 2 <= s.len() {
            string_end_bounds(s, i + 2, quote);
        }
    } else if i < s.len() && s[i] != quote && s[i] != '\n' {
        string_end_bounds(s, i + 1, quote);
    }
}

/// Where the `*/` that ends a comment leaves the scan, or none.
pub open spec fn comment_end(s: Seq<char>, i: int) -> Option<int>
    decreases s.len() - i,
{
    if i + 1 >= s.len() {
        None
    } else if s[i] == '*' && s[i + 1] == '/' {
        Some(i + 2)
    } else {
        comment_end(s, i + 1)
    }
}

pub proof fn comment_end_bounds(s: Seq<char>, i: int)
    ensures
        comment_end(s, i) matches Some(e) ==> i + 2 <= e <= s.len(),
    decreases s.len() - i,
{
    if i + 1 < s.len() && !(s[i] == '*' && s[i + 1] == '/') {
        comment_end_bounds(s, i + 1);
    }
}

/// Just past the closer that ends `depth` open levels, honouring strings and
/// nesting. Runs to the end on unbalanced input.
pub open spec fn nested_end(s: Seq<char>, i: int, opener: char, closer: char, depth: nat) -> int
    decreases s.len() - i,
    when 0 <= i <= s.len()
{
    if i >= s.len() {
        s.len() as int
    } else if is_quote(s[i]) {
        proof {
            string_end_bounds(s, i + 1, s[i]);
        }
        nested_end(s, string_end(s, i + 1, s[i]).0, opener, closer, depth)
    } else if s[i] == opener {
        nested_end(s, i + 1, opener, closer, depth + 1)
    } else if s[i] == closer {
        if depth <= 1 {
            i + 1
        } else {
            nested_end(s, i + 1, opener, closer, (depth - 1) as nat)
        }
    } else {
        nested_end(s, i + 1, opener, closer, depth)
    }
}

pub proof fn nested_end_bounds(s: Seq<char>, i: int, opener: char, closer: char, depth: nat)
    requires
        0 <= i <= s.len(),
    ensures
        i <= nested_end(s, i, opener, closer, depth) <= s.len(),
    decreases s.len() - i,
{
    if i < s.len() {
        if is_quote(s[i]) {
            string_end_bounds(s, i + 1, s[i]);
            nested_end_bounds(s, string_end(s, i + 1, s[i]).0, opener, closer, depth);
        } else if s[i] == opener {
            nested_end_bounds(s, i + 1, opener, closer, depth + 1);
        } else if s[i] == closer {
            if depth > 1 {
                nested_end_bounds(s, i + 1, opener, closer, (depth - 1) as nat);
            }
        } else {
            nested_end_bounds(s, i + 1, opener, closer, depth);
        }
    }
}

/// The text trimmed, unless nothing is left of it.
pub open spec fn part(s: Seq<char>) -> Seq<Seq<char>> {
    if trim(s).len() > 0 {
        seq![trim(s)]
    } else {
        seq![]
    }
}

/// The parts from `start` on, scanned from `i` on.
pub open spec fn split_from(s: Seq<char>, start: int, i: int) -> Seq<Seq<char>>
    decreases s.len() - i,
    when 0 <= start <= i <= s.len()
{
    if i >= s.len() {
        part(s.subrange(start, s.len() as int))
    } else if is_quote(s[i]) {
        proof {
            string_end_bounds(s, i + 1, s[i]);
        }
        split_from(s, start, string_end(s, i + 1, s[i]).0)
    } else if s[i] == '(' {
        proof {
            nested_end_bounds(s, i + 1, '(', ')', 1);
        }
        split_from(s, start, nested_end(s, i + 1, '(', ')', 1))
    } else if s[i] == '[' {
        proof {
            nested_end_bounds(s, i + 1, '[', ']', 1);
        }
        split_from(s, start, nested_end(s, i + 1, '[', ']', 1))
    } else if s[i] == ',' {
        part(s.subrange(start, i)) + split_from(s, i + 1, i + 1)
    } else {
        split_from(s, start, i + 1)
    }
}

/// A prelude split on its top-level commas: a comma inside `:has(a, b)`,
/// inside `[data-x="a,b"]` or inside a string is part of one selector.
pub open spec fn selectors_of(prelude: Seq<char>) -> Seq<Seq<char>> {
    split_from(prelude, 0, 0)
}

/// One nested selector flattened against one selector of its parent.
pub open spec fn nest(p: Seq<char>, s: Seq<char>) -> Seq<char> {
    if s.contains('&') {
        replaced(s, '&', p)
    } else {
        p + seq![' '] + s
    }
}

/// One flat selector per parent and nested selector.
pub open spec fn nest_all(parent: Seq<Seq<char>>, own: Seq<Seq<char>>) -> Seq<Seq<char>>
    decreases parent.len(),
{
    if parent.len() == 0 {
        seq![]
    } else {
        nest_all(parent.drop_last(), own) + own.map_values(|s: Seq<char>| nest(parent.last(), s))
    }
}

/// A prelude's selectors, flattened against the enclosing rule's where there
/// is one.
pub open spec fn resolve(prelude: Seq<char>, parent: Option<Seq<Seq<char>>>) -> Seq<Seq<char>> {
    match parent {
        Some(p) => nest_all(p, selectors_of(prelude)),
        None => selectors_of(prelude),
    }
}

/// The nearest enclosing style rule's selectors, skipping at-rule bodies.
pub open spec fn parent_of(stack: Seq<FrameV>) -> Option<Seq<Seq<char>>>
    decreases stack.len(),
{
    if stack.len() == 0 {
        None
    } else if stack.last().at_rule {
        parent_of(stack.drop_last())
    } else {
        Some(stack.last().selectors)
    }
}

// ---- declarations ----

/// Is this a CSS property name: `-{0,2}[a-z][-a-z0-9]*`?
pub open spec fn is_property(name: Seq<char>) -> bool {
    let from: int = if name.len() >= 2 && name[0] == '-' && name[1] == '-' {
        2
    } else if name.len() >= 1 && name[0] == '-' {
        1
    } else {
        0
    };
    &&& from < name.len()
    &&& crate::chars::ascii_lower(name[from])
    &&& forall|j: int|
        from < j < name.len() ==> {
            ||| crate::chars::ascii_lower(#[trigger] name[j])
            ||| crate::chars::ascii_digit(name[j])
            ||| name[j] == '-'
        }
}

/// `4px !important` as `("4px", true)`.
pub open spec fn strip_important(value: Seq<char>) -> (Seq<char>, bool) {
    let word = seq!['i', 'm', 'p', 'o', 'r', 't', 'a', 'n', 't'];
    if ends(value, word) {
        let head = trim_end(value.take(value.len() - 9));
        if head.len() > 0 && head.last() == '!' {
            (trim_end(head.drop_last()), true)
        } else {
            (value, false)
        }
    } else {
        (value, false)
    }
}

/// The declaration that a text up to its `;` holds, if it holds one.
pub open spec fn declaration(text: Seq<char>) -> Option<DeclV> {
    let t = trim(text);
    let k = first_at(t, ':');
    if k >= t.len() {
        None
    } else {
        let prop = lower(trim(t.take(k)));
        let (value, important) = strip_important(trim(t.skip(k + 1)));
        if is_property(prop) && value.len() > 0 {
            Some(DeclV { prop, value, important })
        } else {
            None
        }
    }
}

/// Declarations with the one that a text holds behind them.
pub open spec fn with_decl(decls: Seq<DeclV>, text: Seq<char>) -> Seq<DeclV> {
    match declaration(text) {
        Some(d) => decls.push(d),
        None => decls,
    }
}

// ---- the scan ----

/// A rule put among rules by where its block opened.
pub open spec fn insert_rule(rules: Seq<RuleV>, r: RuleV) -> Seq<RuleV>
    decreases rules.len(),
{
    if rules.len() > 0 && rules.last().order > r.order {
        insert_rule(rules.drop_last(), r).push(rules.last())
    } else {
        rules.push(r)
    }
}

/// Selectors made, counted to one past the cap.
pub open spec fn counted(made: nat, more: nat) -> nat {
    if made + more > MAX_SELECTORS {
        MAX_SELECTORS as nat + 1
    } else {
        made + more
    }
}

impl StateV {
    /// Nothing scanned yet.
    pub open spec fn start() -> StateV {
        StateV {
            rules: seq![],
            stack: seq![],
            buf: seq![],
            parens: 0,
            made: 0,
            opened: 0,
            error: None,
        }
    }

    /// The first complaint stays.
    pub open spec fn complain(self, e: Seq<char>) -> StateV {
        if self.error is None {
            StateV { error: Some(e), ..self }
        } else {
            self
        }
    }

    /// One more character of text.
    pub open spec fn text(self, s: Seq<char>) -> StateV {
        StateV { buf: self.buf + s, ..self }
    }

    /// The block that an opening brace starts.
    pub open spec fn block(self) -> FrameV {
        let prelude = trim(self.buf);
        if begins(prelude, seq!['@']) {
            FrameV {
                selectors: seq![],
                at_rule: true,
                decls: seq![],
                order: self.opened,
                in_at_rule: true,
            }
        } else {
            FrameV {
                selectors: resolve(prelude, parent_of(self.stack)),
                at_rule: false,
                decls: seq![],
                order: self.opened,
                in_at_rule: self.stack.len() > 0 && self.stack.last().in_at_rule,
            }
        }
    }

    /// `{`: a block opens. Over a cap it opens empty, because the braces still
    /// have to balance.
    pub open spec fn open(self) -> StateV {
        let frame = self.block();
        let made = counted(self.made, frame.selectors.len());
        let over = self.stack.len() >= MAX_NESTING || made > MAX_SELECTORS;
        let kept = if over {
            FrameV { selectors: seq![], ..frame }
        } else {
            frame
        };
        let next = StateV {
            stack: self.stack.push(kept),
            buf: seq![],
            made,
            opened: self.opened + 1,
            ..self
        };
        if over {
            next.complain("nesting or selector count over the cap"@)
        } else {
            next
        }
    }

    /// `}`: the innermost block closes, and is a rule unless it is an at-rule
    /// body or has no selector.
    pub open spec fn close(self) -> StateV {
        if self.stack.len() == 0 {
            StateV { buf: seq![], ..self.complain("unbalanced '}'"@) }
        } else {
            let frame = self.stack.last();
            let rules = if !frame.at_rule && frame.selectors.len() > 0 {
                insert_rule(
                    self.rules,
                    RuleV {
                        selectors: frame.selectors,
                        decls: with_decl(frame.decls, self.buf),
                        in_at_rule: frame.in_at_rule,
                        order: frame.order,
                    },
                )
            } else {
                self.rules
            };
            StateV { rules, stack: self.stack.drop_last(), buf: seq![], ..self }
        }
    }

    /// `;`: a declaration ends, unless it is an at-statement or stands
    /// outside every block.
    pub open spec fn semicolon(self) -> StateV {
        if self.stack.len() > 0 && !begins(trim_start(self.buf), seq!['@']) {
            let frame = self.stack.last();
            let told = FrameV { decls: with_decl(frame.decls, self.buf), ..frame };
            StateV { stack: self.stack.drop_last().push(told), buf: seq![], ..self }
        } else {
            StateV { buf: seq![], ..self }
        }
    }
}

/// The scanner after the rest of a text from `i` on.
pub open spec fn scan_from(s: Seq<char>, i: int, st: StateV) -> StateV
    decreases s.len() - i,
    when 0 <= i <= s.len()
{
    if i >= s.len() {
        st
    } else if s[i] == '/' && i + 1 < s.len() && s[i + 1] == '*' {
        proof {
            comment_end_bounds(s, i + 2);
        }
        match comment_end(s, i + 2) {
            Some(end) => scan_from(s, end, st.text(seq![' '])),
            None => st.complain("unterminated comment"@),
        }
    } else if is_quote(s[i]) {
        proof {
            string_end_bounds(s, i + 1, s[i]);
        }
        let (end, ok) = string_end(s, i + 1, s[i]);
        let told = if ok {
            st
        } else {
            st.complain("unterminated string"@)
        };
        scan_from(s, end, told.text(s.subrange(i, end)))
    } else if s[i] == '(' {
        scan_from(s, i + 1, (StateV { parens: st.parens + 1, ..st }).text(seq!['(']))
    } else if s[i] == ')' {
        let parens: nat = if st.parens > 0 {
            (st.parens - 1) as nat
        } else {
            0
        };
        scan_from(s, i + 1, (StateV { parens, ..st }).text(seq![')']))
    } else if st.parens > 0 {
        scan_from(s, i + 1, st.text(seq![s[i]]))
    } else if s[i] == '{' {
        scan_from(s, i + 1, st.open())
    } else if s[i] == '}' {
        scan_from(s, i + 1, st.close())
    } else if s[i] == ';' {
        scan_from(s, i + 1, st.semicolon())
    } else {
        scan_from(s, i + 1, st.text(seq![s[i]]))
    }
}

/// The whole scan: its rules in source order, and its first complaint. A
/// block that never ends is one.
pub open spec fn scanned(css: Seq<char>) -> StateV {
    let st = scan_from(css, 0, StateV::start());
    if st.stack.len() > 0 {
        st.complain("unclosed block"@)
    } else {
        st
    }
}


/// Just past the string that opens at `at`, and whether it is closed.
fn skip_string(s: &[char], at: usize, quote: char) -> (r: (usize, bool))
    requires
        at < s.len(),
    ensures
        r.0 == string_end(s@, at + 1, quote).0,
        r.1 == string_end(s@, at + 1, quote).1,
        at < r.0 <= s.len(),
{
    let mut i: usize = at + 1;
    while i < s.len()
        invariant
            at < i <= s.len(),
            string_end(s@, at + 1, quote) == string_end(s@, i as int, quote),
        decreases s.len() - i,
    {
        let c = s[i];
        if c == '\\' {
            if s.len() - i < 2 {
                return (s.len(), false);
            }
            i += 2;
        } else if c == quote {
            return (i + 1, true);
        } else if c == '\n' {
            return (i, false);
        } else {
            i += 1;
        }
    }
    (s.len(), false)
}

/// Just past the closer that matches the opener at `at`.
fn skip_nested(s: &[char], at: usize, opener: char, closer: char) -> (r: usize)
    requires
        at < s.len(),
    ensures
        r == nested_end(s@, at + 1, opener, closer, 1),
        at < r <= s.len(),
{
    let mut i: usize = at + 1;
    let mut depth: usize = 1;
    while i < s.len()
        invariant
            at < i <= s.len(),
            1 <= depth <= i,
            nested_end(s@, at + 1, opener, closer, 1) == nested_end(
                s@,
                i as int,
                opener,
                closer,
                depth as nat,
            ),
        decreases s.len() - i,
    {
        let c = s[i];
        if c == '"' || c == '\'' {
            i = skip_string(s, i, c).0;
        } else if c == opener {
            depth += 1;
            i += 1;
        } else if c == closer {
            if depth == 1 {
                return i + 1;
            }
            depth -= 1;
            i += 1;
        } else {
            i += 1;
        }
    }
    s.len()
}

fn push_part(out: &mut Vec<Vec<char>>, s: &[char])
    ensures
        texts(final(out)@) == texts(old(out)@) + part(s@),
        final(out)@.len() >= old(out)@.len(),
        forall|k: int| 0 <= k < old(out)@.len() ==> final(out)@[k] == old(out)@[k],
        forall|k: int|
            old(out)@.len() <= k < final(out)@.len() ==> (#[trigger] final(out)@[k])@.len() <= s@.len(),
{
    let t = trim_of(s);
    if t.len() > 0 {
        out.push(copy_chars(t));
    }
}

/// A prelude split on its top-level commas.
pub fn split_selectors(prelude: &[char]) -> (r: Vec<Vec<char>>)
    ensures
        texts(r@) == selectors_of(prelude@),
        forall|k: int| 0 <= k < r@.len() ==> (#[trigger] r@[k])@.len() <= prelude@.len(),
{
    let mut out: Vec<Vec<char>> = Vec::new();
    let mut start: usize = 0;
    let mut i: usize = 0;
    while i < prelude.len()
        invariant
            start <= i <= prelude.len(),
            forall|k: int| 0 <= k < out@.len() ==> (#[trigger] out@[k])@.len() <= prelude@.len(),
            selectors_of(prelude@) == texts(out@) + split_from(prelude@, start as int, i as int),
        decreases prelude.len() - i,
    {
        let c = prelude[i];
        if c == '"' || c == '\'' {
            i = skip_string(prelude, i, c).0;
        } else if c == '(' {
            i = skip_nested(prelude, i, '(', ')');
        } else if c == '[' {
            i = skip_nested(prelude, i, '[', ']');
        } else if c == ',' {
            let ghost before = texts(out@);
            push_part(&mut out, slice_subrange(prelude, start, i));
            assert(texts(out@) + split_from(prelude@, i + 1, i + 1) =~= before + (part(
                prelude@.subrange(start as int, i as int),
            ) + split_from(prelude@, i + 1, i + 1)));
            i += 1;
            start = i;
        } else {
            i += 1;
        }
    }
    push_part(&mut out, slice_subrange(prelude, start, prelude.len()));
    out
}

fn nested(p: &[char], s: &[char]) -> (r: Vec<char>)
    ensures
        r@ == nest(p@, s@),
{
    if has_char(s, '&') {
        replace_char(s, '&', p)
    } else {
        let mut r = copy_chars(p);
        r.push(' ');
        push_chars(&mut r, s);
        assert(r@ =~= nest(p@, s@));
        r
    }
}

fn flatten(parent: &Vec<Vec<char>>, own: &Vec<Vec<char>>) -> (r: Vec<Vec<char>>)
    ensures
        texts(r@) == nest_all(texts(parent@), texts(own@)),
{
    let mut out: Vec<Vec<char>> = Vec::new();
    let mut i: usize = 0;
    while i < parent.len()
        invariant
            i <= parent.len(),
            texts(out@) == nest_all(texts(parent@).take(i as int), texts(own@)),
        decreases parent.len() - i,
    {
        let ghost before = texts(out@);
        let ghost all = texts(own@).map_values(|s: Seq<char>| nest(parent@[i as int]@, s));
        let mut j: usize = 0;
        while j < own.len()
            invariant
                i < parent.len(),
                j <= own.len(),
                all == texts(own@).map_values(|s: Seq<char>| nest(parent@[i as int]@, s)),
                texts(out@) == before + all.take(j as int),
            decreases own.len() - j,
        {
            let ghost pre = texts(out@);
            out.push(nested(parent[i].as_slice(), own[j].as_slice()));
            assert(texts(out@) =~= pre.push(nest(parent@[i as int]@, own@[j as int]@)));
            assert(all.take(j + 1) =~= all.take(j as int).push(nest(parent@[i as int]@, own@[j as int]@)));
            assert(texts(out@) =~= before + all.take(j + 1));
            j += 1;
        }
        proof {
            let p = texts(parent@);
            assert(all.take(j as int) =~= all);
            assert(p.take(i + 1).drop_last() =~= p.take(i as int));
            assert(p.take(i + 1).last() == parent@[i as int]@);
        }
        i += 1;
    }
    assert(texts(parent@).take(i as int) =~= texts(parent@));
    out
}

fn property(name: &[char]) -> (r: bool)
    ensures
        r == is_property(name@),
{
    let from: usize = if name.len() >= 2 && name[0] == '-' && name[1] == '-' {
        2
    } else if name.len() >= 1 && name[0] == '-' {
        1
    } else {
        0
    };
    if from >= name.len() || !is_ascii_lower(name[from]) {
        return false;
    }
    let mut j: usize = from + 1;
    while j < name.len()
        invariant
            from < j <= name.len(),
            forall|k: int|
                from < k < j ==> {
                    ||| crate::chars::ascii_lower(#[trigger] name@[k])
                    ||| crate::chars::ascii_digit(name@[k])
                    ||| name@[k] == '-'
                },
        decreases name.len() - j,
    {
        if !(is_ascii_lower(name[j]) || is_ascii_digit(name[j]) || name[j] == '-') {
            return false;
        }
        j += 1;
    }
    true
}

fn without_important<'a>(value: &'a [char]) -> (r: (&'a [char], bool))
    ensures
        r.0@ == strip_important(value@).0,
        r.1 == strip_important(value@).1,
{
    let word: [char; 9] = ['i', 'm', 'p', 'o', 'r', 't', 'a', 'n', 't'];
    assert(word@ =~= seq!['i', 'm', 'p', 'o', 'r', 't', 'a', 'n', 't']);
    if !ends_with(value, word.as_slice()) {
        return (value, false);
    }
    assert(value@.take(value@.len() - 9) =~= value@.subrange(0, value@.len() - 9));
    let head = trim_end_of(slice_subrange(value, 0, value.len() - 9));
    if head.len() > 0 && head[head.len() - 1] == '!' {
        assert(head@.drop_last() =~= head@.subrange(0, head@.len() - 1));
        (trim_end_of(slice_subrange(head, 0, head.len() - 1)), true)
    } else {
        (value, false)
    }
}

/// One declaration out of the text up to its `;`.
fn flush(text: &[char], out: &mut Vec<Decl>)
    ensures
        decls_v(final(out)@) == with_decl(decls_v(old(out)@), text@),
{
    let t = trim_of(text);
    let k = find_char(t, ':');
    if k < t.len() {
        assert(t@.take(k as int) =~= t@.subrange(0, k as int));
        assert(t@.skip(k + 1) =~= t@.subrange(k + 1, t@.len() as int));
        let prop = lower_of(trim_of(slice_subrange(t, 0, k)));
        let (value, important) = without_important(trim_of(slice_subrange(t, k + 1, t.len())));
        if property(prop.as_slice()) && value.len() > 0 {
            let d = Decl { prop, value: copy_chars(value), important };
            out.push(d);
            assert(decls_v(out@) =~= decls_v(old(out)@).push(d.v()));
        }
    }
}


struct State {
    rules: Vec<Rule>,
    stack: Vec<Frame>,
    buf: Vec<char>,
    parens: usize,
    made: usize,
    opened: usize,
    error: Option<&'static str>,
}

impl State {
    spec fn v(self) -> StateV {
        StateV {
            rules: rules_v(self.rules@),
            stack: frames_v(self.stack@),
            buf: self.buf@,
            parens: self.parens as nat,
            made: self.made as nat,
            opened: self.opened as nat,
            error: error_v(self.error),
        }
    }

    fn complain(&mut self, e: &'static str)
        ensures
            final(self).v() == old(self).v().complain(e@),
            final(self).parens == old(self).parens,
            final(self).made == old(self).made,
            final(self).opened == old(self).opened,
    {
        if self.error.is_none() {
            self.error = Some(e);
        }
    }

    /// The nearest enclosing style rule, as a position in the stack.
    fn parent(&self) -> (r: Option<usize>)
        ensures
            match r {
                Some(k) => {
                    &&& k < self.stack@.len()
                    &&& parent_of(frames_v(self.stack@)) == Some(texts(self.stack@[k as int].selectors@))
                },
                None => parent_of(frames_v(self.stack@)) is None,
            },
    {
        let mut k: usize = self.stack.len();
        assert(frames_v(self.stack@).take(k as int) =~= frames_v(self.stack@));
        while k > 0
            invariant
                k <= self.stack@.len(),
                parent_of(frames_v(self.stack@)) == parent_of(frames_v(self.stack@).take(k as int)),
            decreases k,
        {
            let ghost all = frames_v(self.stack@);
            assert(all.take(k as int).drop_last() =~= all.take(k - 1));
            assert(all.take(k as int).last() == self.stack@[k - 1].v());
            if !self.stack[k - 1].at_rule {
                return Some(k - 1);
            }
            k -= 1;
        }
        None
    }

    fn open(&mut self)
        requires
            old(self).opened < usize::MAX,
            old(self).made <= MAX_SELECTORS + 1,
        ensures
            final(self).v() == old(self).v().open(),
            final(self).parens == old(self).parens,
            final(self).made <= MAX_SELECTORS + 1,
            final(self).opened == old(self).opened + 1,
    {
        let at_rule: bool;
        let selectors: Vec<Vec<char>>;
        let in_at_rule: bool;
        {
            let prelude = trim_of(self.buf.as_slice());
            let sign: [char; 1] = ['@'];
            assert(sign@ =~= seq!['@']);
            if crate::chars::begins_with(prelude, sign.as_slice()) {
                at_rule = true;
                selectors = Vec::new();
                in_at_rule = true;
            } else {
                at_rule = false;
                let own = split_selectors(prelude);
                selectors = match self.parent() {
                    Some(k) => flatten(&self.stack[k].selectors, &own),
                    None => own,
                };
                in_at_rule = self.stack.len() > 0 && self.stack[self.stack.len() - 1].in_at_rule;
            }
        }
        let room: usize = MAX_SELECTORS + 1 - self.made;
        self.made = if selectors.len() >= room {
            MAX_SELECTORS + 1
        } else {
            self.made + selectors.len()
        };
        let over = self.stack.len() >= MAX_NESTING || self.made > MAX_SELECTORS;
        let mut frame = Frame {
            selectors,
            at_rule,
            decls: Vec::new(),
            order: self.opened,
            in_at_rule,
        };
        assert(decls_v(frame.decls@) =~= seq![]);
        assert(at_rule ==> texts(frame.selectors@) =~= seq![]);
        assert(frame.v() == old(self).v().block());
        if over {
            frame.selectors = Vec::new();
            assert(texts(frame.selectors@) =~= seq![]);
        }
        let ghost stack = frames_v(self.stack@);
        self.stack.push(frame);
        assert(frames_v(self.stack@) =~= stack.push(frame.v()));
        self.opened += 1;
        self.buf = Vec::new();
        if over {
            self.complain("nesting or selector count over the cap");
        }
    }

    /// Puts a rule among the rules by where its block opened.
    fn place(rules: &mut Vec<Rule>, rule: Rule)
        ensures
            rules_v(final(rules)@) == insert_rule(rules_v(old(rules)@), rule.v()),
    {
        let mut k: usize = rules.len();
        let ghost all = rules_v(rules@);
        let ghost r = rule.v();
        assert(all.take(k as int) =~= all);
        assert(insert_rule(all, r) =~= insert_rule(all.take(k as int), r) + all.skip(k as int));
        while k > 0 && rules[k - 1].order > rule.order
            invariant
                k <= rules@.len(),
                all == rules_v(rules@),
                r == rule.v(),
                insert_rule(all, r) == insert_rule(all.take(k as int), r) + all.skip(k as int),
            decreases k,
        {
            assert(all.take(k as int).drop_last() =~= all.take(k - 1));
            assert(all.take(k as int).last() == rules@[k - 1].v());
            assert(insert_rule(all.take(k - 1), r).push(all[k - 1]) + all.skip(k as int)
                =~= insert_rule(all.take(k - 1), r) + all.skip(k - 1));
            k -= 1;
        }
        proof {
            if k > 0 {
                assert(all.take(k as int).last() == rules@[k - 1].v());
            }
        }
        let ghost before = rules@;
        rules.insert(k, rule);
        assert(rules_v(rules@) =~= all.take(k as int).push(r) + all.skip(k as int));
    }

    fn close(&mut self)
        ensures
            final(self).v() == old(self).v().close(),
            final(self).parens == old(self).parens,
            final(self).made == old(self).made,
            final(self).opened == old(self).opened,
    {
        let ghost stack = frames_v(self.stack@);
        match self.stack.pop() {
            Some(mut frame) => {
                assert(frame.v() == stack.last());
                assert(frames_v(self.stack@) =~= stack.drop_last());
                flush(self.buf.as_slice(), &mut frame.decls);
                if !frame.at_rule && frame.selectors.len() > 0 {
                    let rule = Rule {
                        selectors: frame.selectors,
                        decls: frame.decls,
                        in_at_rule: frame.in_at_rule,
                        order: frame.order,
                    };
                    Self::place(&mut self.rules, rule);
                }
            },
            None => {
                self.complain("unbalanced '}'");
            },
        }
        self.buf = Vec::new();
    }

    fn semicolon(&mut self)
        ensures
            final(self).v() == old(self).v().semicolon(),
            final(self).parens == old(self).parens,
            final(self).made == old(self).made,
            final(self).opened == old(self).opened,
    {
        let sign: [char; 1] = ['@'];
        assert(sign@ =~= seq!['@']);
        let statement = crate::chars::begins_with(trim_start_of(self.buf.as_slice()), sign.as_slice());
        if self.stack.len() > 0 && !statement {
            let ghost stack = frames_v(self.stack@);
            let mut frame = self.stack.pop().unwrap();
            assert(frame.v() == stack.last());
            flush(self.buf.as_slice(), &mut frame.decls);
            self.stack.push(frame);
            assert(frames_v(self.stack@) =~= stack.drop_last().push(frame.v()));
        }
        self.buf = Vec::new();
    }
}

fn find_comment_end(s: &[char], from: usize) -> (r: Option<usize>)
    requires
        from <= s.len(),
    ensures
        match r {
            Some(e) => comment_end(s@, from as int) == Some(e as int) && from < e <= s.len(),
            None => comment_end(s@, from as int) is None,
        },
{
    let mut i: usize = from;
    while s.len() - i >= 2
        invariant
            from <= i <= s.len(),
            comment_end(s@, from as int) == comment_end(s@, i as int),
        decreases s.len() - i,
    {
        if s[i] == '*' && s[i + 1] == '/' {
            return Some(i + 2);
        }
        i += 1;
    }
    None
}

/// Scans a whole stylesheet.
pub fn scan(css: &str) -> (out: Scan)
    ensures
        rules_v(out.rules@) == scanned(css@).rules,
        error_v(out.error) == scanned(css@).error,
{
    let chars = chars_of(css);
    let s = chars.as_slice();
    let mut st = State {
        rules: Vec::new(),
        stack: Vec::new(),
        buf: Vec::new(),
        parens: 0,
        made: 0,
        opened: 0,
        error: None,
    };
    assert(st.v() =~= StateV::start());
    let mut i: usize = 0;
    let mut ended = false;
    while i < s.len() && !ended
        invariant
            s@ == css@,
            i <= s.len(),
            st.parens <= i,
            st.opened <= i,
            st.made <= MAX_SELECTORS + 1,
            ended ==> scan_from(css@, 0, StateV::start()) == st.v(),
            !ended ==> scan_from(css@, 0, StateV::start()) == scan_from(s@, i as int, st.v()),
        decreases
            s.len() - i,
            (if ended {
                0int
            } else {
                1int
            }),
    {
        let c = s[i];
        let ghost pre = st.v();
        if c == '/' && i + 1 < s.len() && s[i + 1] == '*' {
            match find_comment_end(s, i + 2) {
                Some(end) => {
                    st.buf.push(' ');
                    assert(st.v() =~= pre.text(seq![' ']));
                    i = end;
                },
                None => {
                    st.complain("unterminated comment");
                    ended = true;
                },
            }
        } else if c == '"' || c == '\'' {
            let (end, ok) = skip_string(s, i, c);
            if !ok {
                st.complain("unterminated string");
            }
            push_chars(&mut st.buf, slice_subrange(s, i, end));
            i = end;
        } else if c == '(' {
            st.parens += 1;
            st.buf.push(c);
            assert(st.buf@ =~= pre.buf + seq![c]);
            i += 1;
        } else if c == ')' {
            if st.parens > 0 {
                st.parens -= 1;
            }
            st.buf.push(c);
            assert(st.buf@ =~= pre.buf + seq![c]);
            i += 1;
        } else if st.parens > 0 {
            st.buf.push(c);
            assert(st.buf@ =~= pre.buf + seq![c]);
            i += 1;
        } else if c == '{' {
            st.open();
            i += 1;
        } else if c == '}' {
            st.close();
            i += 1;
        } else if c == ';' {
            st.semicolon();
            i += 1;
        } else {
            st.buf.push(c);
            assert(st.buf@ =~= pre.buf + seq![c]);
            i += 1;
        }
    }
    if st.stack.len() > 0 {
        st.complain("unclosed block");
    }
    Scan { rules: st.rules, error: st.error }
}


pub open spec fn in_order(rules: Seq<RuleV>) -> bool {
    forall|i: int, j: int|
        0 <= i < j < rules.len() ==> (#[trigger] rules[i]).order <= (#[trigger] rules[j]).order
}

/// Every rule has a selector.
pub open spec fn selecting(rules: Seq<RuleV>) -> bool {
    forall|i: int| 0 <= i < rules.len() ==> (#[trigger] rules[i]).selectors.len() > 0
}

proof fn insert_keeps_selecting(rules: Seq<RuleV>, r: RuleV)
    requires
        selecting(rules),
        r.selectors.len() > 0,
    ensures
        selecting(insert_rule(rules, r)),
    decreases rules.len(),
{
    if rules.len() > 0 && rules.last().order > r.order {
        insert_keeps_selecting(rules.drop_last(), r);
        assert(rules[rules.len() - 1].selectors.len() > 0);
    }
}

pub proof fn insert_keeps_order(rules: Seq<RuleV>, r: RuleV)
    requires
        in_order(rules),
    ensures
        in_order(insert_rule(rules, r)),
        forall|i: int|
            0 <= i < insert_rule(rules, r).len() ==> (#[trigger] insert_rule(rules, r)[i]).order
                <= r.order || exists|k: int|
                0 <= k < rules.len() && (#[trigger] rules[k]).order == insert_rule(rules, r)[i].order,
    decreases rules.len(),
{
    let out = insert_rule(rules, r);
    if rules.len() > 0 && rules.last().order > r.order {
        let head = rules.drop_last();
        insert_keeps_order(head, r);
        let inner = insert_rule(head, r);
        assert(out == inner.push(rules.last()));
        assert forall|i: int| 0 <= i < inner.len() implies (#[trigger] inner[i]).order
            <= rules.last().order by {
            if inner[i].order > r.order {
                let k = choose|k: int|
                    0 <= k < head.len() && (#[trigger] head[k]).order == inner[i].order;
                assert(rules[k].order <= rules[rules.len() - 1].order);
            }
        }
        assert forall|i: int| 0 <= i < out.len() implies (#[trigger] out[i]).order <= r.order || exists|
            k: int,
        |
            0 <= k < rules.len() && (#[trigger] rules[k]).order == out[i].order by {
            if i < inner.len() {
                assert(out[i] == inner[i]);
                if inner[i].order > r.order {
                    let k = choose|k: int|
                        0 <= k < head.len() && (#[trigger] head[k]).order == inner[i].order;
                    assert(rules[k].order == out[i].order);
                }
            } else {
                assert(rules[rules.len() - 1].order == out[i].order);
            }
        }
    } else {
        assert(out == rules.push(r));
        assert forall|i: int| 0 <= i < out.len() implies (#[trigger] out[i]).order <= r.order || exists|
            k: int,
        |
            0 <= k < rules.len() && (#[trigger] rules[k]).order == out[i].order by {
            if i < rules.len() {
                assert(rules[i].order == out[i].order);
            }
        }
        assert forall|i: int, j: int| 0 <= i < j < out.len() implies (#[trigger] out[i]).order <= (
        #[trigger] out[j]).order by {
            if j == rules.len() {
                assert(rules[i].order <= rules[rules.len() - 1].order);
            }
        }
    }
}

/// Scanning on keeps the rules in the order in which their blocks opened, and
/// adds none without a selector.
pub proof fn scan_keeps_order(s: Seq<char>, i: int, st: StateV)
    requires
        0 <= i <= s.len(),
        in_order(st.rules),
        selecting(st.rules),
    ensures
        in_order(scan_from(s, i, st).rules),
        selecting(scan_from(s, i, st).rules),
    decreases s.len() - i,
{
    if i < s.len() {
        if s[i] == '/' && i + 1 < s.len() && s[i + 1] == '*' {
            comment_end_bounds(s, i + 2);
            match comment_end(s, i + 2) {
                Some(end) => scan_keeps_order(s, end, st.text(seq![' '])),
                None => {},
            }
        } else if is_quote(s[i]) {
            string_end_bounds(s, i + 1, s[i]);
            let (end, ok) = string_end(s, i + 1, s[i]);
            let told = if ok {
                st
            } else {
                st.complain("unterminated string"@)
            };
            scan_keeps_order(s, end, told.text(s.subrange(i, end)));
        } else if s[i] == '(' {
            scan_keeps_order(s, i + 1, (StateV { parens: st.parens + 1, ..st }).text(seq!['(']));
        } else if s[i] == ')' {
            let parens: nat = if st.parens > 0 {
                (st.parens - 1) as nat
            } else {
                0
            };
            scan_keeps_order(s, i + 1, (StateV { parens, ..st }).text(seq![')']));
        } else if st.parens > 0 {
            scan_keeps_order(s, i + 1, st.text(seq![s[i]]));
        } else if s[i] == '{' {
            scan_keeps_order(s, i + 1, st.open());
        } else if s[i] == '}' {
            if st.stack.len() > 0 {
                let frame = st.stack.last();
                let rule = RuleV {
                    selectors: frame.selectors,
                    decls: with_decl(frame.decls, st.buf),
                    in_at_rule: frame.in_at_rule,
                    order: frame.order,
                };
                insert_keeps_order(st.rules, rule);
                if !frame.at_rule && frame.selectors.len() > 0 {
                    insert_keeps_selecting(st.rules, rule);
                }
            }
            scan_keeps_order(s, i + 1, st.close());
        } else if s[i] == ';' {
            scan_keeps_order(s, i + 1, st.semicolon());
        } else {
            scan_keeps_order(s, i + 1, st.text(seq![s[i]]));
        }
    }
}

// ---- what a sheet says ----

/// Is every character one that stands for itself in a sheet: no comment, no
/// quote, no bracket, no brace, no comma and no semicolon?
pub open spec fn plain(s: Seq<char>) -> bool {
    forall|j: int|
        0 <= j < s.len() ==> (#[trigger] s[j]) != '/' && s[j] != '"' && s[j] != '\'' && s[j] != '('
            && s[j] != ')' && s[j] != '[' && s[j] != '{' && s[j] != '}' && s[j] != ';' && s[j] != ','
}

/// Does a text start and end with something that is no white space?
pub open spec fn tight(s: Seq<char>) -> bool {
    s.len() > 0 && !crate::chars::white(s[0]) && !crate::chars::white(s.last())
}

proof fn plain_text_is_kept(s: Seq<char>, i: int, j: int, st: StateV)
    requires
        0 <= i <= j <= s.len(),
        plain(s.subrange(i, j)),
        st.parens == 0,
    ensures
        scan_from(s, i, st) == scan_from(s, j, st.text(s.subrange(i, j))),
    decreases j - i,
{
    let run = s.subrange(i, j);
    if i < j {
        assert(run[0] == s[i]);
        let next = st.text(seq![s[i]]);
        assert forall|k: int| 0 <= k < j - i - 1 implies (#[trigger] s.subrange(i + 1, j)[k]) == run[k
            + 1] by {}
        plain_text_is_kept(s, i + 1, j, next);
        assert(next.buf + s.subrange(i + 1, j) =~= st.buf + run);
    } else {
        assert(st.buf + run =~= st.buf);
    }
}

proof fn plain_text_is_one_part(s: Seq<char>, i: int)
    requires
        plain(s),
        0 <= i <= s.len(),
    ensures
        split_from(s, 0, i) == part(s),
    decreases s.len() - i,
{
    if i < s.len() {
        plain_text_is_one_part(s, i + 1);
    } else {
        assert(s.subrange(0, s.len() as int) =~= s);
    }
}

proof fn plain_parts(s: Seq<char>, a: int, b: int)
    requires
        0 <= a <= b <= s.len(),
        plain(s),
    ensures
        plain(s.subrange(a, b)),
{
}

/// A prelude with commas between plain selectors is those selectors in turn.
pub proof fn a_comma_parts_two_selectors(a: Seq<char>, b: Seq<char>)
    requires
        plain(a),
        plain(b),
        tight(a),
        tight(b),
    ensures
        selectors_of(a) == seq![a],
        selectors_of(a + seq![','] + b) == seq![a, b],
{
    plain_text_is_one_part(a, 0);
    let s = a + seq![','] + b;
    comma_splits(a, b, s, 0);
    assert(selectors_of(s) =~= seq![a, b]);
    assert(selectors_of(a) =~= seq![a]);
}

proof fn comma_splits(a: Seq<char>, b: Seq<char>, s: Seq<char>, i: int)
    requires
        plain(a),
        plain(b),
        s == a + seq![','] + b,
        0 <= i <= a.len(),
    ensures
        split_from(s, 0, i) == part(a) + part(b),
    decreases a.len() - i,
{
    let n = a.len() as int;
    if i < n {
        assert(s[i] == a[i]);
        comma_splits(a, b, s, i + 1);
    } else {
        assert(s[i] == ',');
        assert(s.subrange(0, n) =~= a);
        assert(s.subrange(n + 1, s.len() as int) =~= b);
        behind_the_comma(b, s, n + 1, n + 1);
    }
}

proof fn behind_the_comma(b: Seq<char>, s: Seq<char>, from: int, i: int)
    requires
        plain(b),
        0 <= from <= i <= s.len(),
        s.subrange(from, s.len() as int) == b,
    ensures
        split_from(s, from, i) == part(b),
    decreases s.len() - i,
{
    if i < s.len() {
        assert(s[i] == s.subrange(from, s.len() as int)[i - from]);
        behind_the_comma(b, s, from, i + 1);
    }
}

/// The mark of an important declaration.
pub open spec fn mark() -> Seq<char> {
    seq!['!', 'i', 'm', 'p', 'o', 'r', 't', 'a', 'n', 't']
}

/// A declaration is its property and its value, with or without a blank behind
/// the colon, and is not important.
pub proof fn a_declaration_says_its_value(prop: Seq<char>, value: Seq<char>)
    requires
        is_property(prop),
        tight(value),
        !ends(value, seq!['i', 'm', 'p', 'o', 'r', 't', 'a', 'n', 't']),
    ensures
        declaration(prop + seq![':'] + value) == Some(DeclV { prop, value, important: false }),
        declaration(prop + seq![':'] + (seq![' '] + value)) == Some(
            DeclV { prop, value, important: false },
        ),
        declaration(prop + value) is Some ==> value.contains(':'),
{
    tight_is_trimmed(value);
    declaration_of(prop, value);
    let spaced = seq![' '] + value;
    declaration_of(prop, spaced);
    assert(spaced.skip(1) =~= value);
    assert(crate::chars::white(spaced[0]));
    assert(trim(spaced) == value);
    no_colon_no_declaration(prop, value);
}

/// `!important` behind a value, with or without a blank before it, makes the
/// declaration important and is no part of the value.
pub proof fn a_mark_makes_a_declaration_important(
    prop: Seq<char>,
    value: Seq<char>,
    gap: Seq<char>,
)
    requires
        is_property(prop),
        tight(value),
        gap == seq![' '] || gap.len() == 0,
    ensures
        declaration(prop + seq![':'] + (value + gap + mark())) == Some(
            DeclV { prop, value, important: true },
        ),
{
    let word = seq!['i', 'm', 'p', 'o', 'r', 't', 'a', 'n', 't'];
    let marked = value + gap + mark();
    declaration_of(prop, marked);
    assert(marked[0] == value[0]);
    tight_is_trimmed(marked);
    mark_is_taken_off(value, gap);
    assert(value + gap + seq!['!'] + word =~= marked);
}

/// A colon behind a property starts what it says.
proof fn declaration_of(prop: Seq<char>, rest: Seq<char>)
    requires
        is_property(prop),
        rest.len() > 0,
        !crate::chars::white(rest.last()),
    ensures
        ({
            let (value, important) = strip_important(trim(rest));
            declaration(prop + seq![':'] + rest) == (if value.len() > 0 {
                Some(DeclV { prop, value, important })
            } else {
                None
            })
        }),
{
    let n = prop.len() as int;
    let a = prop + seq![':'] + rest;
    property_is_lower(prop);
    tight_is_trimmed(prop);
    assert(a[0] == prop[0]);
    assert(a.last() == rest.last());
    tight_is_trimmed(a);
    assert(a.take(n) =~= prop);
    colon_behind(prop, a);
    assert(a.skip(n + 1) =~= rest);
}

/// `!important` and the blanks before it come off.
proof fn mark_is_taken_off(value: Seq<char>, gap: Seq<char>)
    requires
        tight(value),
        gap == seq![' '] || gap.len() == 0,
    ensures
        strip_important(
            value + gap + seq!['!'] + seq!['i', 'm', 'p', 'o', 'r', 't', 'a', 'n', 't'],
        ) == (value, true),
{
    let word = seq!['i', 'm', 'p', 'o', 'r', 't', 'a', 'n', 't'];
    let head = value + gap + seq!['!'];
    let all = head + word;
    assert(word.len() == 9);
    assert(all.skip(all.len() - 9) =~= word);
    assert(all.subrange(all.len() - 9, all.len() as int) =~= word);
    assert(all.take(all.len() - 9) =~= head);
    assert(head.last() == '!');
    tight_is_trimmed(head);
    assert(head.drop_last() =~= value + gap);
    tight_is_trimmed(value);
    if gap.len() > 0 {
        assert((value + gap).last() == ' ');
        assert((value + gap).drop_last() =~= value);
    } else {
        assert(value + gap =~= value);
    }
}

proof fn no_colon_no_declaration(prop: Seq<char>, value: Seq<char>)
    requires
        is_property(prop),
        tight(value),
    ensures
        declaration(prop + value) is Some ==> value.contains(':'),
{
    property_is_lower(prop);
    let e = prop + value;
    let n = prop.len() as int;
    assert(e[0] == prop[0]);
    assert(e.last() == value.last());
    tight_is_trimmed(e);
    crate::chars::first_at_is_least(e, ':');
    if declaration(e) is Some {
        let k = first_at(e, ':');
        assert(e[k] == ':');
        if k < n {
            assert(prop[k] == ':');
        }
        assert(value[k - n] == ':');
    }
}

/// A text that starts otherwise begins no at-rule.
proof fn no_at_rule(s: Seq<char>)
    requires
        tight(s),
        s[0] != '@',
    ensures
        !begins(trim(s), seq!['@']),
        part(s) == seq![s],
{
    tight_is_trimmed(s);
    if begins(s, seq!['@']) {
        assert(s.take(1)[0] == seq!['@'][0]);
    }
}

proof fn tight_is_trimmed(s: Seq<char>)
    requires
        tight(s),
    ensures
        trim(s) == s,
        trim_start(s) == s,
        trim_end(s) == s,
{
}

proof fn property_is_lower(prop: Seq<char>)
    requires
        is_property(prop),
    ensures
        tight(prop),
        lower(prop) == prop,
        forall|j: int| 0 <= j < prop.len() ==> (#[trigger] prop[j]) != ':',
{
    let from: int = if prop.len() >= 2 && prop[0] == '-' && prop[1] == '-' {
        2
    } else if prop.len() >= 1 && prop[0] == '-' {
        1
    } else {
        0
    };
    assert forall|j: int| 0 <= j < prop.len() implies crate::chars::ascii_lower(#[trigger] prop[j])
        || crate::chars::ascii_digit(prop[j]) || prop[j] == '-' by {
        if j < from {
            assert(prop[j] == '-');
        }
    }
    assert(lower(prop) =~= prop);
}

proof fn colon_behind(prop: Seq<char>, s: Seq<char>)
    requires
        s.len() > prop.len(),
        s.take(prop.len() as int) == prop,
        s[prop.len() as int] == ':',
        forall|j: int| 0 <= j < prop.len() ==> (#[trigger] prop[j]) != ':',
    ensures
        first_at(s, ':') == prop.len(),
{
    crate::chars::first_at_is_least(s, ':');
    assert forall|j: int| 0 <= j < prop.len() implies s[j] != ':' by {
        assert(s.take(prop.len() as int)[j] == prop[j]);
    }
}

/// A plain block is one rule: its selectors are the prelude's, its
/// declarations are those in its body, and it stands in no at-rule.
pub proof fn a_block_is_a_rule(sel: Seq<char>, body: Seq<char>)
    requires
        plain(sel),
        tight(sel),
        sel[0] != '@',
        plain(body),
    ensures
        ({
            let st = scanned(sel + seq!['{'] + body + seq!['}']);
            &&& st.error is None
            &&& st.rules.len() == 1
            &&& st.rules[0].selectors == seq![sel]
            &&& !st.rules[0].in_at_rule
            &&& st.rules[0].decls == (match declaration(body) {
                Some(d) => seq![d],
                None => seq![],
            })
        }),
{
    let s = sel + seq!['{'] + body + seq!['}'];
    let n = sel.len() as int;
    let m = n + 1 + body.len();
    let start = StateV::start();
    assert(s.subrange(0, n) =~= sel);
    plain_text_is_kept(s, 0, n, start);
    let named = start.text(sel);
    assert(named.buf =~= sel);
    tight_is_trimmed(sel);
    assert(s[n] == '{');
    plain_text_is_one_part(sel, 0);
    no_at_rule(sel);
    let opened = named.open();
    assert(opened.stack.last().selectors =~= seq![sel]);
    assert(s.subrange(n + 1, m) =~= body);
    plain_text_is_kept(s, n + 1, m, opened);
    let told = opened.text(body);
    assert(told.buf =~= body);
    assert(s[m] == '}');
    let closed = told.close();
    assert(scan_from(s, m + 1, closed) == closed);
    assert(closed.rules =~= seq![closed.rules[0]]);
    assert(with_decl(seq![], body) =~= (match declaration(body) {
        Some(d) => seq![d],
        None => seq![],
    }));
}

/// A block inside a block cascades behind it and selects below it: by the two
/// selectors with a blank between them, or by its own with the outer selector
/// where it has an `&`.
pub proof fn a_nested_block_selects_below(outer: Seq<char>, inner: Seq<char>, body: Seq<char>)
    requires
        plain(outer),
        tight(outer),
        outer[0] != '@',
        plain(inner),
        tight(inner),
        inner[0] != '@',
        plain(body),
    ensures
        ({
            let st = scanned(outer + seq!['{'] + inner + seq!['{'] + body + seq!['}', '}']);
            let below = if inner.contains('&') {
                replaced(inner, '&', outer)
            } else {
                outer + seq![' '] + inner
            };
            &&& st.error is None
            &&& st.rules.len() == 2
            &&& st.rules[0].selectors == seq![outer]
            &&& st.rules[0].decls.len() == 0
            &&& st.rules[1].selectors == seq![below]
            &&& st.rules[1].decls == (match declaration(body) {
                Some(d) => seq![d],
                None => seq![],
            })
            &&& !st.rules[1].in_at_rule
        }),
{
    let s = outer + seq!['{'] + inner + seq!['{'] + body + seq!['}', '}'];
    let n = outer.len() as int;
    let m = n + 1 + inner.len();
    let e = m + 1 + body.len();
    let start = StateV::start();
    assert(s.subrange(0, n) =~= outer);
    plain_text_is_kept(s, 0, n, start);
    let named = start.text(outer);
    assert(named.buf =~= outer);
    tight_is_trimmed(outer);
    tight_is_trimmed(inner);
    assert(s[n] == '{');
    plain_text_is_one_part(outer, 0);
    plain_text_is_one_part(inner, 0);
    no_at_rule(outer);
    no_at_rule(inner);
    let opened = named.open();
    assert(opened.stack.last().selectors =~= seq![outer]);
    assert(s.subrange(n + 1, m) =~= inner);
    plain_text_is_kept(s, n + 1, m, opened);
    let again = opened.text(inner);
    assert(again.buf =~= inner);
    assert(s[m] == '{');
    let deep = again.open();
    let below = nest(outer, inner);
    assert(selectors_of(inner) =~= seq![inner]);
    reveal_with_fuel(nest_all, 2);
    assert(seq![outer].drop_last() =~= seq![]);
    assert(nest_all(seq![outer], seq![inner]) =~= seq![below]);
    assert(parent_of(again.stack) == Some(seq![outer]));
    assert(deep.stack.last().selectors =~= seq![below]);
    assert(s.subrange(m + 1, e) =~= body);
    plain_text_is_kept(s, m + 1, e, deep);
    let told = deep.text(body);
    assert(told.buf =~= body);
    assert(s[e] == '}');
    let shut = told.close();
    assert(told.stack.drop_last() =~= opened.stack);
    assert(shut.rules.len() == 1);
    assert(s[e + 1] == '}');
    let closed = shut.close();
    assert(scan_from(s, m, again) == scan_from(s, m + 1, deep));
    assert(scan_from(s, e, told) == scan_from(s, e + 1, shut));
    assert(scan_from(s, e + 1, shut) == scan_from(s, e + 2, closed));
    assert(scan_from(s, e + 2, closed) == closed);
    let first = RuleV {
        selectors: seq![outer],
        decls: with_decl(seq![], seq![]),
        in_at_rule: false,
        order: 0,
    };
    reveal_with_fuel(insert_rule, 2);
    assert(shut.rules.drop_last() =~= seq![]);
    assert(shut.stack.last() == opened.stack.last());
    assert(shut.buf =~= seq![]);
    assert(closed.rules == insert_rule(shut.rules, first));
    assert(closed.rules =~= seq![first, shut.rules[0]]);
    assert(trim(Seq::<char>::empty()) =~= seq![]);
    assert(with_decl(seq![], body) =~= (match declaration(body) {
        Some(d) => seq![d],
        None => seq![],
    }));
}

/// A rule inside an at-rule body is scanned as it stands and marked: the
/// at-rule itself is none.
pub proof fn a_rule_in_an_at_rule_is_marked(at: Seq<char>, sel: Seq<char>, body: Seq<char>)
    requires
        plain(at),
        tight(at),
        at[0] == '@',
        plain(sel),
        tight(sel),
        sel[0] != '@',
        plain(body),
    ensures
        ({
            let st = scanned(at + seq!['{'] + sel + seq!['{'] + body + seq!['}', '}']);
            &&& st.error is None
            &&& st.rules.len() == 1
            &&& st.rules[0].selectors == seq![sel]
            &&& st.rules[0].in_at_rule
            &&& st.rules[0].decls == (match declaration(body) {
                Some(d) => seq![d],
                None => seq![],
            })
        }),
{
    let s = at + seq!['{'] + sel + seq!['{'] + body + seq!['}', '}'];
    let n = at.len() as int;
    let m = n + 1 + sel.len();
    let e = m + 1 + body.len();
    let start = StateV::start();
    assert(s.subrange(0, n) =~= at);
    plain_text_is_kept(s, 0, n, start);
    let named = start.text(at);
    assert(named.buf =~= at);
    tight_is_trimmed(at);
    tight_is_trimmed(sel);
    assert(s[n] == '{');
    assert(at.take(1) =~= seq!['@']);
    let opened = named.open();
    assert(opened.stack.last().at_rule);
    assert(opened.stack.drop_last() =~= seq![]);
    plain_text_is_one_part(sel, 0);
    no_at_rule(sel);
    assert(s.subrange(n + 1, m) =~= sel);
    plain_text_is_kept(s, n + 1, m, opened);
    let again = opened.text(sel);
    assert(again.buf =~= sel);
    assert(s[m] == '{');
    let deep = again.open();
    assert(selectors_of(sel) =~= seq![sel]);
    reveal_with_fuel(parent_of, 2);
    assert(parent_of(again.stack) is None);
    assert(deep.stack.last().selectors =~= seq![sel]);
    assert(s.subrange(m + 1, e) =~= body);
    plain_text_is_kept(s, m + 1, e, deep);
    let told = deep.text(body);
    assert(told.buf =~= body);
    assert(s[e] == '}');
    let shut = told.close();
    assert(told.stack.drop_last() =~= opened.stack);
    assert(s[e + 1] == '}');
    let closed = shut.close();
    assert(scan_from(s, m, again) == scan_from(s, m + 1, deep));
    assert(scan_from(s, e, told) == scan_from(s, e + 1, shut));
    assert(scan_from(s, e + 1, shut) == scan_from(s, e + 2, closed));
    assert(scan_from(s, e + 2, closed) == closed);
    assert(closed.rules =~= seq![closed.rules[0]]);
    assert(with_decl(seq![], body) =~= (match declaration(body) {
        Some(d) => seq![d],
        None => seq![],
    }));
}

/// A comment between two pieces of plain text reads as a blank.
pub proof fn a_comment_reads_as_a_blank(a: Seq<char>, note: Seq<char>, b: Seq<char>, st: StateV)
    requires
        plain(a),
        plain(b),
        !note.contains('*'),
        st.parens == 0,
    ensures
        ({
            let with = a + seq!['/', '*'] + note + seq!['*', '/'] + b;
            let without = a + seq![' '] + b;
            scan_from(with, 0, st) == scan_from(without, 0, st)
        }),
{
    let with = a + seq!['/', '*'] + note + seq!['*', '/'] + b;
    let without = a + seq![' '] + b;
    let n = a.len() as int;
    let e = n + 2 + note.len() + 2;
    assert(with.subrange(0, n) =~= a);
    plain_text_is_kept(with, 0, n, st);
    let mid = st.text(a);
    assert(with[n] == '/' && with[n + 1] == '*');
    note_ends(with, n + 2, e, note);
    let after = mid.text(seq![' ']);
    assert(with.subrange(e, with.len() as int) =~= b);
    plain_text_is_kept(with, e, with.len() as int, after);
    assert(without.subrange(0, n) =~= a);
    plain_text_is_kept(without, 0, n, st);
    assert(without[n] == ' ');
    assert(without.subrange(n + 1, without.len() as int) =~= b);
    plain_text_is_kept(without, n + 1, without.len() as int, after);
}

proof fn note_ends(s: Seq<char>, i: int, e: int, note: Seq<char>)
    requires
        0 <= i <= e - 2,
        e <= s.len(),
        s[e - 2] == '*',
        s[e - 1] == '/',
        forall|j: int| i <= j < e - 2 ==> s[j] == note[j - (e - 2 - note.len())],
        !note.contains('*'),
        e - 2 - i <= note.len(),
    ensures
        comment_end(s, i) == Some(e),
    decreases e - i,
{
    if i < e - 2 {
        let k = i - (e - 2 - note.len());
        assert(s[i] == note[k]);
        assert(note.contains(note[k]));
        note_ends(s, i + 1, e, note);
    }
}

/// A brace or a semicolon inside a string is text, and so is one inside
/// brackets: neither opens, closes nor ends anything.
pub proof fn a_string_is_text(body: Seq<char>, quote: char, rest: Seq<char>, st: StateV)
    requires
        quote == '"' || quote == '\'',
        forall|j: int|
            0 <= j < body.len() ==> (#[trigger] body[j]) != quote && body[j] != '\\' && body[j] != '\n',
    ensures
        ({
            let text = seq![quote] + body + seq![quote];
            scan_from(text + rest, 0, st) == scan_from(
                text + rest,
                text.len() as int,
                st.text(text),
            )
        }),
{
    let text = seq![quote] + body + seq![quote];
    let s = text + rest;
    let n = text.len() as int;
    string_runs_to(s, 1, n - 1, quote);
    assert(s.subrange(0, n) =~= text);
    assert(s[0] == quote);
}

proof fn string_runs_to(s: Seq<char>, i: int, e: int, quote: char)
    requires
        0 <= i <= e < s.len(),
        s[e] == quote,
        quote != '\\',
        forall|j: int| i <= j < e ==> (#[trigger] s[j]) != quote && s[j] != '\\' && s[j] != '\n',
    ensures
        string_end(s, i, quote) == (e + 1, true),
    decreases e - i,
{
    if i < e {
        assert(s[i] != quote);
        string_runs_to(s, i + 1, e, quote);
    }
}

/// A block that never closes is a complaint and no rule, and so is a brace that
/// closes none.
pub proof fn an_open_end_is_a_complaint(sel: Seq<char>, body: Seq<char>)
    requires
        plain(sel),
        tight(sel),
        sel[0] != '@',
        plain(body),
    ensures
        scanned(sel + seq!['{'] + body).rules.len() == 0,
        scanned(sel + seq!['{'] + body).error == Some("unclosed block"@),
        scanned(body + seq!['}']).rules.len() == 0,
        scanned(body + seq!['}']).error == Some("unbalanced '}'"@),
        scanned(body).error is None,
        scanned(body).rules.len() == 0,
{
    let s = sel + seq!['{'] + body;
    let n = sel.len() as int;
    let m = n + 1 + body.len();
    let start = StateV::start();
    assert(s.subrange(0, n) =~= sel);
    plain_text_is_kept(s, 0, n, start);
    let named = start.text(sel);
    assert(named.buf =~= sel);
    tight_is_trimmed(sel);
    plain_text_is_one_part(sel, 0);
    no_at_rule(sel);
    assert(s[n] == '{');
    let opened = named.open();
    assert(opened.stack.last().selectors =~= seq![sel]);
    assert(s.subrange(n + 1, m) =~= body);
    plain_text_is_kept(s, n + 1, m, opened);
    let told = opened.text(body);
    assert(scan_from(s, n, named) == scan_from(s, n + 1, opened));
    assert(scan_from(s, m, told) == told);
    let t = body + seq!['}'];
    let k = body.len() as int;
    assert(t.subrange(0, k) =~= body);
    plain_text_is_kept(t, 0, k, start);
    assert(t[k] == '}');
    let left = start.text(body);
    assert(scan_from(t, k, left) == scan_from(t, k + 1, left.close()));
    assert(scan_from(t, k + 1, left.close()) == left.close());
    assert(body.subrange(0, k) =~= body);
    plain_text_is_kept(body, 0, k, start);
    assert(scan_from(body, k, left) == left);
}

/// Two declarations of a block are both kept, in their order.
pub proof fn a_semicolon_parts_two_declarations(sel: Seq<char>, a: Seq<char>, b: Seq<char>)
    requires
        plain(sel),
        tight(sel),
        sel[0] != '@',
        plain(a),
        plain(b),
        declaration(a) is Some,
        declaration(b) is Some,
        tight(a),
        a[0] != '@',
    ensures
        ({
            let st = scanned(sel + seq!['{'] + a + seq![';'] + b + seq!['}']);
            &&& st.error is None
            &&& st.rules.len() == 1
            &&& st.rules[0].selectors == seq![sel]
            &&& st.rules[0].decls == seq![declaration(a)->0, declaration(b)->0]
        }),
{
    let s = sel + seq!['{'] + a + seq![';'] + b + seq!['}'];
    let n = sel.len() as int;
    let m = n + 1 + a.len();
    let e = m + 1 + b.len();
    let start = StateV::start();
    assert(s.subrange(0, n) =~= sel);
    plain_text_is_kept(s, 0, n, start);
    let named = start.text(sel);
    assert(named.buf =~= sel);
    tight_is_trimmed(sel);
    tight_is_trimmed(a);
    plain_text_is_one_part(sel, 0);
    no_at_rule(sel);
    no_at_rule(a);
    assert(s[n] == '{');
    let opened = named.open();
    assert(opened.stack.last().selectors =~= seq![sel]);
    assert(s.subrange(n + 1, m) =~= a);
    plain_text_is_kept(s, n + 1, m, opened);
    let first = opened.text(a);
    assert(first.buf =~= a);
    assert(s[m] == ';');
    let parted = first.semicolon();
    assert(scan_from(s, n, named) == scan_from(s, n + 1, opened));
    assert(scan_from(s, m, first) == scan_from(s, m + 1, parted));
    assert(parted.stack.last().decls =~= seq![declaration(a)->0]);
    assert(parted.stack.last().selectors =~= seq![sel]);
    assert(s.subrange(m + 1, e) =~= b);
    plain_text_is_kept(s, m + 1, e, parted);
    let second = parted.text(b);
    assert(second.buf =~= b);
    assert(s[e] == '}');
    let closed = second.close();
    assert(scan_from(s, e, second) == scan_from(s, e + 1, closed));
    assert(scan_from(s, e + 1, closed) == closed);
    assert(closed.rules =~= seq![closed.rules[0]]);
    assert(closed.rules[0].decls =~= seq![declaration(a)->0, declaration(b)->0]);
}

} // verus!
