//! Rule-based deconjugation: a breadth-first fixpoint over the rule set.
//!
//! Two behaviours are deliberate:
//!
//! 1. The number of alternatives of a rule is driven by `dec_end` alone, so a
//!    longer `dec_tag` list has unreachable entries.
//! 2. `contextrule` predicates are ignored, so those rules over-match.
use super::rules::{rules_v, Rule, RuleV, StrOrList};
use crate::chars::{
    chars_of, copy_of, ends, ends_with, push_chars, same_list, same_str, string_of, strs, trim, trim_of,
};
use vstd::prelude::*;
use vstd::slice::slice_subrange;

verus! {

pub const MAX_DECONJ_ITERATIONS: usize = 10;

#[derive(Debug, Clone, PartialEq, Eq, Hash)]
pub struct Form {
    pub text: String,
    pub process: Vec<String>,
    pub tags: Vec<String>,
}

/// What a form holds.
#[verifier::ext_equal]
pub struct FormV {
    pub text: Seq<char>,
    pub process: Seq<Seq<char>>,
    pub tags: Seq<Seq<char>>,
}

impl Form {
    pub open spec fn v(self) -> FormV {
        FormV { text: self.text@, process: strs(self.process@), tags: strs(self.tags@) }
    }

    /// The form that a search starts from.
    pub fn seed(text: &str) -> (r: Self)
        ensures
            r.v() == seed_of(text@),
    {
        let r = Form { text: text.to_owned(), process: Vec::new(), tags: Vec::new() };
        assert(r.v() =~= seed_of(text@));
        r
    }
}

pub open spec fn seed_of(text: Seq<char>) -> FormV {
    FormV { text, process: seq![], tags: seq![] }
}

pub open spec fn forms_v(s: Seq<Form>) -> Seq<FormV> {
    s.map_values(|f: Form| f.v())
}

/// A rule that may apply to a form without tags.
pub open spec fn starter(rule_type: Seq<char>) -> bool {
    rule_type == "stdrule"@ || rule_type == "rewriterule"@ || rule_type == "onlyfinalrule"@
        || rule_type == "contextrule"@
}

/// Entry `i` of a list that repeats, or nothing where the list is empty.
pub open spec fn cycled(list: Seq<Seq<char>>, i: int) -> Option<Seq<char>> {
    if list.len() == 0 {
        None
    } else {
        Some(list[i % list.len() as int])
    }
}

pub open spec fn or_empty(s: Option<Seq<char>>) -> Seq<char> {
    match s {
        Some(t) => t,
        None => seq![],
    }
}

/// Does alternative `i` of a rule apply to a form?
pub open spec fn applies(form: FormV, rule: RuleV, i: int) -> bool {
    let con_end = or_empty(cycled(rule.con_end, i));
    &&& ends(form.text, con_end)
    &&& if form.tags.len() == 0 {
        starter(rule.rule_type)
    } else {
        cycled(rule.con_tag, i) == Some(form.tags.last())
    }
    &&& rule.rule_type == "rewriterule"@ ==> form.text == con_end
}

/// What alternative `i` of a rule makes of a form: the conjugated ending gives
/// way to the deconjugated one, and the last tag to the rule's.
pub open spec fn undone(form: FormV, rule: RuleV, i: int) -> FormV {
    let con_end = or_empty(cycled(rule.con_end, i));
    let kept = if form.tags.len() == 0 {
        seq![]
    } else {
        form.tags.drop_last()
    };
    FormV {
        text: form.text.take(form.text.len() - con_end.len()) + or_empty(cycled(rule.dec_end, i)),
        process: form.process.push(rule.detail),
        tags: match cycled(rule.dec_tag, i) {
            Some(t) => kept.push(t),
            None => kept,
        },
    }
}

/// What the first `n` alternatives of a rule make of a form.
pub open spec fn rule_forms(form: FormV, rule: RuleV, n: int) -> Seq<FormV>
    decreases n,
{
    if n <= 0 {
        seq![]
    } else if applies(form, rule, n - 1) {
        rule_forms(form, rule, n - 1).push(undone(form, rule, n - 1))
    } else {
        rule_forms(form, rule, n - 1)
    }
}

/// How many alternatives a rule has.
pub open spec fn alternatives(rule: RuleV) -> int {
    if rule.dec_end.len() == 0 {
        1
    } else {
        rule.dec_end.len() as int
    }
}

/// Is a rule held back from a form: a final-only rule from a tagged one, a
/// never-final rule from an untagged one?
pub open spec fn held_back(form: FormV, rule: RuleV) -> bool {
    ||| rule.rule_type == "onlyfinalrule"@ && form.tags.len() > 0
    ||| rule.rule_type == "neverfinalrule"@ && form.tags.len() == 0
}

/// The forms among `fs` that are new, behind those already collected.
pub open spec fn collect(seen: Seq<FormV>, acc: Seq<FormV>, fs: Seq<FormV>) -> Seq<FormV>
    decreases fs.len(),
{
    if fs.len() == 0 {
        acc
    } else {
        let before = collect(seen, acc, fs.drop_last());
        if seen.contains(fs.last()) || before.contains(fs.last()) {
            before
        } else {
            before.push(fs.last())
        }
    }
}

/// The new forms that the first `n` rules make of one form.
pub open spec fn by_rules(
    rules: Seq<RuleV>,
    form: FormV,
    n: int,
    seen: Seq<FormV>,
    acc: Seq<FormV>,
) -> Seq<FormV>
    decreases n,
{
    if n <= 0 {
        acc
    } else {
        let before = by_rules(rules, form, n - 1, seen, acc);
        let rule = rules[n - 1];
        if held_back(form, rule) {
            before
        } else {
            collect(seen, before, rule_forms(form, rule, alternatives(rule)))
        }
    }
}

/// The new forms that the rules make of the first `n` forms of a level.
pub open spec fn next_level(
    rules: Seq<RuleV>,
    novel: Seq<FormV>,
    n: int,
    seen: Seq<FormV>,
) -> Seq<FormV>
    decreases n,
{
    if n <= 0 {
        seq![]
    } else {
        by_rules(
            rules,
            novel[n - 1],
            rules.len() as int,
            seen,
            next_level(rules, novel, n - 1, seen),
        )
    }
}

/// The forms of the levels searched, at most `left` more of them. The level
/// behind the last one searched is discarded.
pub open spec fn levels(rules: Seq<RuleV>, done: Seq<FormV>, novel: Seq<FormV>, left: nat) -> Seq<FormV>
    decreases left,
{
    if novel.len() == 0 || left == 0 {
        done
    } else {
        let seen = done + novel;
        levels(
            rules,
            seen,
            next_level(rules, novel, novel.len() as int, seen),
            (left - 1) as nat,
        )
    }
}

/// Every form that a text deconjugates to.
pub open spec fn deconjugated(rules: Seq<RuleV>, text: Seq<char>) -> Seq<FormV> {
    let clean = trim(text);
    if clean.len() == 0 {
        seq![]
    } else {
        levels(rules, seq![], seq![seed_of(clean)], MAX_DECONJ_ITERATIONS as nat)
    }
}

pub struct Deconjugator {
    rules: Vec<Rule>,
}

fn same_form(a: &Form, b: &Form) -> (r: bool)
    ensures
        r == (a.v() == b.v()),
{
    a.text == b.text && same_list(&a.process, &b.process) && same_list(&a.tags, &b.tags)
}

fn has_form(list: &Vec<Form>, f: &Form) -> (r: bool)
    ensures
        r == forms_v(list@).contains(f.v()),
{
    let mut i: usize = 0;
    while i < list.len()
        invariant
            i <= list@.len(),
            forall|j: int| 0 <= j < i ==> (#[trigger] list@[j]).v() != f.v(),
        decreases list@.len() - i,
    {
        if same_form(&list[i], f) {
            assert(forms_v(list@)[i as int] == f.v());
            return true;
        }
        i += 1;
    }
    assert forall|j: int| 0 <= j < forms_v(list@).len() implies forms_v(list@)[j] != f.v() by {
        assert(forms_v(list@)[j] == list@[j].v());
    }
    false
}

fn copy_strs(v: &Vec<String>, n: usize) -> (r: Vec<String>)
    requires
        n <= v@.len(),
    ensures
        strs(r@) == strs(v@).take(n as int),
{
    let mut r: Vec<String> = Vec::new();
    let mut i: usize = 0;
    while i < n
        invariant
            i <= n <= v@.len(),
            strs(r@) == strs(v@).take(i as int),
        decreases n - i,
    {
        let ghost before = strs(r@);
        r.push(v[i].clone());
        assert(strs(r@) =~= before.push(v@[i as int]@));
        assert(strs(v@).take(i + 1) =~= strs(v@).take(i as int).push(v@[i as int]@));
        i += 1;
    }
    r
}

/// Is a string one of four?
fn is_starter(t: &str) -> (r: bool)
    ensures
        r == starter(t@),
{
    same_str(t, "stdrule") || same_str(t, "rewriterule") || same_str(t, "onlyfinalrule") || same_str(
        t,
        "contextrule",
    )
}

fn tag_entry<'a>(t: &'a Option<StrOrList>, i: usize) -> (r: Option<&'a String>)
    ensures
        match r {
            Some(s) => cycled(super::rules::tag_list(*t), i as int) == Some(s@),
            None => cycled(super::rules::tag_list(*t), i as int) is None,
        },
{
    match t {
        Some(l) => end_entry(l, i),
        None => None,
    }
}

fn end_entry<'a>(l: &'a StrOrList, i: usize) -> (r: Option<&'a String>)
    ensures
        match r {
            Some(s) => cycled(l.list(), i as int) == Some(s@),
            None => cycled(l.list(), i as int) is None,
        },
{
    let s = l.as_slice();
    assert(strs(s@).len() == s@.len());
    if s.len() == 0 {
        None
    } else {
        let k = i % s.len();
        assert(strs(s@)[k as int] == s@[k as int]@);
        Some(&s[k])
    }
}

impl Deconjugator {
    pub closed spec fn rules(self) -> Seq<RuleV> {
        rules_v(self.rules@)
    }

    pub fn new(rules: Vec<Rule>) -> (r: Self)
        ensures
            r.rules() == rules_v(rules@),
    {
        Deconjugator { rules }
    }

    /// What a rule makes of a form.
    fn apply_rule(form: &Form, rule: &Rule) -> (r: Vec<Form>)
        ensures
            forms_v(r@) == rule_forms(form.v(), rule.v(), alternatives(rule.v())),
    {
        let ends_list = rule.dec_end.as_slice();
        assert(strs(ends_list@).len() == ends_list@.len());
        let max_len: usize = if ends_list.len() == 0 {
            1
        } else {
            ends_list.len()
        };
        let starts = is_starter(rule.rule_type.as_str());
        let rewrites = same_str(rule.rule_type.as_str(), "rewriterule");
        let text = chars_of(form.text.as_str());
        let ghost fv = form.v();
        let ghost rv = rule.v();
        assert(strs(form.tags@).len() == form.tags@.len());
        let mut results: Vec<Form> = Vec::new();
        assert(forms_v(results@) =~= seq![]);
        let mut i: usize = 0;
        while i < max_len
            invariant
                i <= max_len,
                text@ == form.text@,
                fv == form.v(),
                rv == rule.v(),
                starts == starter(rv.rule_type),
                rewrites == (rv.rule_type == "rewriterule"@),
                strs(form.tags@).len() == form.tags@.len(),
                forms_v(results@) == rule_forms(fv, rv, i as int),
            decreases max_len - i,
        {
            let con_end = match end_entry(&rule.con_end, i) {
                Some(s) => chars_of(s.as_str()),
                None => Vec::new(),
            };
            assert(con_end@ =~= or_empty(cycled(rv.con_end, i as int)));
            let tag_match = if form.tags.len() == 0 {
                starts
            } else {
                let last = &form.tags[form.tags.len() - 1];
                assert(fv.tags.last() == last@);
                match tag_entry(&rule.con_tag, i) {
                    Some(t) => *t == *last,
                    None => false,
                }
            };
            let fit = ends_with(text.as_slice(), con_end.as_slice());
            if fit && tag_match && (!rewrites || text.len() == con_end.len()) {
                proof {
                    if rewrites {
                        assert(text@.skip(0) =~= text@);
                    }
                }
                assert(applies(fv, rv, i as int));
                let keep = text.len() - con_end.len();
                let mut out = crate::chars::copy_chars(slice_subrange(text.as_slice(), 0, keep));
                assert(out@ =~= fv.text.take(keep as int));
                match end_entry(&rule.dec_end, i) {
                    Some(s) => {
                        let tail = chars_of(s.as_str());
                        push_chars(&mut out, tail.as_slice());
                    },
                    None => {
                        assert(out@ + seq![] =~= out@);
                    },
                }
                let mut process = copy_strs(&form.process, form.process.len());
                let ghost steps = strs(process@);
                assert(steps =~= fv.process);
                process.push(copy_of(&rule.detail));
                assert(strs(process@) =~= steps.push(rv.detail));
                let mut tags = if form.tags.len() == 0 {
                    Vec::new()
                } else {
                    copy_strs(&form.tags, form.tags.len() - 1)
                };
                let ghost kept = if fv.tags.len() == 0 {
                    seq![]
                } else {
                    fv.tags.drop_last()
                };
                assert(strs(tags@) =~= kept);
                match tag_entry(&rule.dec_tag, i) {
                    Some(t) => {
                        tags.push(copy_of(t));
                        assert(strs(tags@) =~= kept.push(t@));
                    },
                    None => {},
                }
                let f = Form { text: string_of(out.as_slice()), process, tags };
                assert(f.v() =~= undone(fv, rv, i as int));
                let ghost before = forms_v(results@);
                results.push(f);
                assert(forms_v(results@) =~= before.push(f.v()));
            } else {
                proof {
                    if applies(fv, rv, i as int) {
                        if rewrites {
                            assert(text@.len() == con_end@.len());
                        }
                    }
                }
            }
            i += 1;
        }
        results
    }

    /// Every form that a text deconjugates to, the seed among them.
    pub fn deconjugate(&self, text: &str) -> (r: Vec<Form>)
        ensures
            forms_v(r@) == deconjugated(self.rules(), text@),
    {
        let all = chars_of(text);
        let clean = trim_of(all.as_slice());
        if clean.len() == 0 {
            let r: Vec<Form> = Vec::new();
            assert(forms_v(r@) =~= seq![]);
            return r;
        }
        let ghost rules = self.rules();
        let mut processed: Vec<Form> = Vec::new();
        let mut novel: Vec<Form> = Vec::new();
        let first = string_of(clean);
        novel.push(Form::seed(first.as_str()));
        assert(forms_v(processed@) =~= seq![]);
        assert(forms_v(novel@) =~= seq![seed_of(clean@)]);
        let mut left: usize = MAX_DECONJ_ITERATIONS;
        while novel.len() > 0 && left > 0
            invariant
                left <= MAX_DECONJ_ITERATIONS,
                rules == self.rules(),
                deconjugated(rules, text@) == levels(
                    rules,
                    forms_v(processed@),
                    forms_v(novel@),
                    left as nat,
                ),
            decreases left,
        {
            let ghost fresh = forms_v(novel@);
            let ghost done = forms_v(processed@);
            let fresh_len = novel.len();
            processed.append(&mut novel);
            assert(forms_v(processed@) =~= done + fresh);
            let next = self.next(&processed, processed.len() - fresh_len);
            assert(forms_v(processed@).skip(done.len() as int) =~= fresh);
            novel = next;
            left -= 1;
        }
        processed
    }

    /// The new forms that the rules make of the forms from `from` on.
    fn next(&self, seen: &Vec<Form>, from: usize) -> (r: Vec<Form>)
        requires
            from <= seen@.len(),
        ensures
            forms_v(r@) == next_level(
                self.rules(),
                forms_v(seen@).skip(from as int),
                seen@.len() - from,
                forms_v(seen@),
            ),
    {
        let ghost rules = self.rules();
        let ghost known = forms_v(seen@);
        let ghost novel = known.skip(from as int);
        let mut out: Vec<Form> = Vec::new();
        assert(forms_v(out@) =~= seq![]);
        let mut i: usize = from;
        while i < seen.len()
            invariant
                from <= i <= seen@.len(),
                rules == self.rules(),
                known == forms_v(seen@),
                novel == known.skip(from as int),
                forms_v(out@) == next_level(rules, novel, i - from, known),
            decreases seen@.len() - i,
        {
            let form = &seen[i];
            assert(novel[i - from] == form.v());
            let ghost base = forms_v(out@);
            let mut k: usize = 0;
            while k < self.rules.len()
                invariant
                    k <= self.rules@.len(),
                    rules == self.rules(),
                    rules == rules_v(self.rules@),
                    known == forms_v(seen@),
                    forms_v(out@) == by_rules(rules, form.v(), k as int, known, base),
                decreases self.rules@.len() - k,
            {
                let rule = &self.rules[k];
                assert(rules[k as int] == rule.v());
                assert(form.v().tags.len() == form.tags@.len());
                let tagged = form.tags.len() > 0;
                let held = (same_str(rule.rule_type.as_str(), "onlyfinalrule") && tagged) || (same_str(
                    rule.rule_type.as_str(),
                    "neverfinalrule",
                ) && !tagged);
                if !held {
                    let fs = Self::apply_rule(form, rule);
                    let ghost made = forms_v(fs@);
                    let ghost before = forms_v(out@);
                    let mut rest = fs;
                    let ghost mut n: int = 0;
                    assert(rest@ =~= fs@.skip(0));
                    assert(made.take(0) =~= seq![]);
                    while rest.len() > 0
                        invariant
                            0 <= n <= fs@.len(),
                            rest@ == fs@.skip(n),
                            made == forms_v(fs@),
                            known == forms_v(seen@),
                            forms_v(out@) == collect(known, before, made.take(n)),
                        decreases rest@.len(),
                    {
                        let f = rest.remove(0);
                        assert(f == fs@[n]);
                        assert(rest@ =~= fs@.skip(n + 1));
                        assert(made.take(n + 1).drop_last() =~= made.take(n));
                        assert(made.take(n + 1).last() == f.v());
                        if !has_form(seen, &f) && !has_form(&out, &f) {
                            let ghost prior = forms_v(out@);
                            out.push(f);
                            assert(forms_v(out@) =~= prior.push(f.v()));
                        }
                        proof {
                            n = n + 1;
                        }
                    }
                    assert(made.take(n) =~= made);
                }
                k += 1;
            }
            i += 1;
        }
        out
    }
}


// ---- laws ----

/// Does some rule, let at a form of the list, make this form of it in one
/// step?
pub open spec fn one_step(rules: Seq<RuleV>, from: Seq<FormV>, f: FormV) -> bool {
    exists|g: int, r: int, i: int|
        #![trigger undone(from[g], rules[r], i)]
        0 <= g < from.len() && 0 <= r < rules.len() && 0 <= i < alternatives(rules[r]) && !held_back(
            from[g],
            rules[r],
        ) && applies(from[g], rules[r], i) && f == undone(from[g], rules[r], i)
}

spec fn made_by(form: FormV, rule: RuleV, n: int, f: FormV) -> bool {
    exists|i: int| 0 <= i < n && applies(form, rule, i) && f == #[trigger] undone(form, rule, i)
}

proof fn rule_forms_apply(form: FormV, rule: RuleV, n: int)
    ensures
        forall|k: int|
            0 <= k < rule_forms(form, rule, n).len() ==> made_by(
                form,
                rule,
                n,
                #[trigger] rule_forms(form, rule, n)[k],
            ),
    decreases n,
{
    if n > 0 {
        rule_forms_apply(form, rule, n - 1);
        let before = rule_forms(form, rule, n - 1);
        let all = rule_forms(form, rule, n);
        assert forall|k: int| 0 <= k < all.len() implies made_by(form, rule, n, #[trigger] all[k]) by {
            if k < before.len() {
                assert(all[k] == before[k]);
                assert(made_by(form, rule, n - 1, before[k]));
            } else {
                assert(all[k] == undone(form, rule, n - 1));
            }
        }
    }
}

proof fn collect_is_new(seen: Seq<FormV>, acc: Seq<FormV>, fs: Seq<FormV>)
    requires
        acc.no_duplicates(),
        forall|k: int| 0 <= k < acc.len() ==> !seen.contains(#[trigger] acc[k]),
    ensures
        collect(seen, acc, fs).no_duplicates(),
        forall|k: int|
            0 <= k < collect(seen, acc, fs).len() ==> !seen.contains(
                #[trigger] collect(seen, acc, fs)[k],
            ),
        forall|k: int|
            0 <= k < collect(seen, acc, fs).len() ==> acc.contains(
                #[trigger] collect(seen, acc, fs)[k],
            ) || fs.contains(collect(seen, acc, fs)[k]),
    decreases fs.len(),
{
    let out = collect(seen, acc, fs);
    if fs.len() == 0 {
        assert forall|k: int| 0 <= k < out.len() implies acc.contains(#[trigger] out[k]) by {
            assert(acc[k] == out[k]);
        }
    } else {
        let head = fs.drop_last();
        collect_is_new(seen, acc, head);
        let before = collect(seen, acc, head);
        assert forall|k: int| 0 <= k < out.len() implies acc.contains(#[trigger] out[k])
            || fs.contains(out[k]) by {
            if k < before.len() {
                assert(out[k] == before[k]);
                if !acc.contains(before[k]) {
                    let j = choose|j: int| 0 <= j < head.len() && head[j] == before[k];
                    assert(fs[j] == out[k]);
                }
            } else {
                assert(fs[fs.len() - 1] == out[k]);
            }
        }
        if !(seen.contains(fs.last()) || before.contains(fs.last())) {
            assert forall|i: int, j: int| 0 <= i < out.len() && 0 <= j < out.len() && i != j implies out[i]
                != out[j] by {
                if i == before.len() {
                    assert(before.contains(before[j]));
                } else if j == before.len() {
                    assert(before.contains(before[i]));
                }
            }
        }
    }
}

proof fn by_rules_is_new(rules: Seq<RuleV>, form: FormV, n: int, seen: Seq<FormV>, acc: Seq<FormV>)
    requires
        n <= rules.len(),
        seen.contains(form),
        acc.no_duplicates(),
        forall|k: int| 0 <= k < acc.len() ==> !seen.contains(#[trigger] acc[k]),
        forall|k: int| 0 <= k < acc.len() ==> one_step(rules, seen, #[trigger] acc[k]),
    ensures
        by_rules(rules, form, n, seen, acc).no_duplicates(),
        forall|k: int|
            0 <= k < by_rules(rules, form, n, seen, acc).len() ==> !seen.contains(
                #[trigger] by_rules(rules, form, n, seen, acc)[k],
            ),
        forall|k: int|
            0 <= k < by_rules(rules, form, n, seen, acc).len() ==> one_step(
                rules,
                seen,
                #[trigger] by_rules(rules, form, n, seen, acc)[k],
            ),
    decreases n,
{
    if n > 0 {
        by_rules_is_new(rules, form, n - 1, seen, acc);
        let before = by_rules(rules, form, n - 1, seen, acc);
        let rule = rules[n - 1];
        if !held_back(form, rule) {
            let fs = rule_forms(form, rule, alternatives(rule));
            collect_is_new(seen, before, fs);
            rule_forms_apply(form, rule, alternatives(rule));
            let out = collect(seen, before, fs);
            let g = choose|g: int| 0 <= g < seen.len() && seen[g] == form;
            assert forall|k: int| 0 <= k < out.len() implies one_step(rules, seen, #[trigger] out[k]) by {
                if before.contains(out[k]) {
                    let j = choose|j: int| 0 <= j < before.len() && before[j] == out[k];
                    assert(one_step(rules, seen, before[j]));
                } else {
                    let j = choose|j: int| 0 <= j < fs.len() && fs[j] == out[k];
                    assert(made_by(form, rule, alternatives(rule), fs[j]));
                    let i = choose|i: int|
                        0 <= i < alternatives(rule) && applies(form, rule, i) && fs[j]
                            == #[trigger] undone(form, rule, i);
                    assert(out[k] == undone(seen[g], rules[n - 1], i));
                }
            }
        }
    }
}

proof fn next_level_is_new(rules: Seq<RuleV>, novel: Seq<FormV>, n: int, seen: Seq<FormV>)
    requires
        0 <= n <= novel.len(),
        forall|k: int| 0 <= k < novel.len() ==> seen.contains(#[trigger] novel[k]),
    ensures
        next_level(rules, novel, n, seen).no_duplicates(),
        forall|k: int|
            0 <= k < next_level(rules, novel, n, seen).len() ==> !seen.contains(
                #[trigger] next_level(rules, novel, n, seen)[k],
            ),
        forall|k: int|
            0 <= k < next_level(rules, novel, n, seen).len() ==> one_step(
                rules,
                seen,
                #[trigger] next_level(rules, novel, n, seen)[k],
            ),
    decreases n,
{
    if n > 0 {
        next_level_is_new(rules, novel, n - 1, seen);
        by_rules_is_new(
            rules,
            novel[n - 1],
            rules.len() as int,
            seen,
            next_level(rules, novel, n - 1, seen),
        );
    }
}

/// One form reached, and from what.
pub open spec fn reached(rules: Seq<RuleV>, all: Seq<FormV>, seed: FormV, f: FormV) -> bool {
    f == seed || one_step(rules, all, f)
}

proof fn one_step_grows(rules: Seq<RuleV>, a: Seq<FormV>, b: Seq<FormV>, f: FormV)
    requires
        a.len() <= b.len(),
        forall|k: int| 0 <= k < a.len() ==> a[k] == b[k],
        one_step(rules, a, f),
    ensures
        one_step(rules, b, f),
{
    let (g, r, i) = choose|g: int, r: int, i: int|
        #![trigger undone(a[g], rules[r], i)]
        0 <= g < a.len() && 0 <= r < rules.len() && 0 <= i < alternatives(rules[r]) && !held_back(
            a[g],
            rules[r],
        ) && applies(a[g], rules[r], i) && f == undone(a[g], rules[r], i);
    assert(f == undone(b[g], rules[r], i));
}

proof fn levels_keep(rules: Seq<RuleV>, done: Seq<FormV>, novel: Seq<FormV>, left: nat, seed: FormV)
    requires
        (done + novel).no_duplicates(),
        forall|k: int|
            0 <= k < (done + novel).len() ==> reached(
                rules,
                done + novel,
                seed,
                #[trigger] (done + novel)[k],
            ),
    ensures
        levels(rules, done, novel, left).no_duplicates(),
        done.len() <= levels(rules, done, novel, left).len(),
        forall|k: int| 0 <= k < done.len() ==> levels(rules, done, novel, left)[k] == done[k],
        left > 0 ==> done.len() + novel.len() <= levels(rules, done, novel, left).len(),
        left > 0 ==> forall|k: int|
            0 <= k < novel.len() ==> levels(rules, done, novel, left)[done.len() + k] == novel[k],
        novel.len() > 0 && left == 0 || forall|k: int|
            0 <= k < levels(rules, done, novel, left).len() ==> reached(
                rules,
                levels(rules, done, novel, left),
                seed,
                #[trigger] levels(rules, done, novel, left)[k],
            ),
    decreases left,
{
    let seen = done + novel;
    if novel.len() == 0 {
        assert(seen =~= done);
    } else if left == 0 {
        assert forall|i: int, j: int| 0 <= i < done.len() && 0 <= j < done.len() && i != j implies done[i]
            != done[j] by {
            assert(seen[i] == done[i]);
            assert(seen[j] == done[j]);
        }
    } else {
        assert forall|k: int| 0 <= k < novel.len() implies seen.contains(#[trigger] novel[k]) by {
            assert(seen[done.len() + k] == novel[k]);
        }
        next_level_is_new(rules, novel, novel.len() as int, seen);
        let next = next_level(rules, novel, novel.len() as int, seen);
        let both = seen + next;
        assert forall|i: int, j: int| 0 <= i < both.len() && 0 <= j < both.len() && i != j implies both[i]
            != both[j] by {
            if i < seen.len() && j >= seen.len() {
                assert(seen.contains(both[i]));
                assert(!seen.contains(next[j - seen.len()]));
            } else if j < seen.len() && i >= seen.len() {
                assert(seen.contains(both[j]));
                assert(!seen.contains(next[i - seen.len()]));
            }
        }
        assert forall|k: int| 0 <= k < both.len() implies reached(
            rules,
            both,
            seed,
            #[trigger] both[k],
        ) by {
            if k < seen.len() {
                assert(reached(rules, seen, seed, seen[k]));
                if seen[k] != seed {
                    one_step_grows(rules, seen, both, both[k]);
                }
            } else {
                assert(one_step(rules, seen, next[k - seen.len()]));
                one_step_grows(rules, seen, both, both[k]);
            }
        }
        levels_keep(rules, seen, next, (left - 1) as nat, seed);
        let all = levels(rules, seen, next, (left - 1) as nat);
        if next.len() > 0 && left == 1 {
            // The next level is discarded.
            assert(all == seen);
        }
        assert forall|k: int| 0 <= k < done.len() implies all[k] == done[k] by {
            assert(seen[k] == done[k]);
        }
        assert forall|k: int| 0 <= k < novel.len() implies all[done.len() + k] == novel[k] by {
            assert(seen[done.len() + k] == novel[k]);
        }
    }
}

proof fn rule_forms_cover(form: FormV, rule: RuleV, n: int, i: int)
    requires
        0 <= i < n,
        applies(form, rule, i),
    ensures
        rule_forms(form, rule, n).contains(undone(form, rule, i)),
    decreases n,
{
    let all = rule_forms(form, rule, n);
    if i == n - 1 {
        assert(all[all.len() - 1] == undone(form, rule, i));
    } else {
        rule_forms_cover(form, rule, n - 1, i);
        let before = rule_forms(form, rule, n - 1);
        let k = choose|k: int| 0 <= k < before.len() && before[k] == undone(form, rule, i);
        assert(all[k] == before[k]);
    }
}

proof fn collect_covers(seen: Seq<FormV>, acc: Seq<FormV>, fs: Seq<FormV>)
    ensures
        forall|f: FormV| acc.contains(f) ==> #[trigger] collect(seen, acc, fs).contains(f),
        forall|k: int|
            0 <= k < fs.len() ==> seen.contains(#[trigger] fs[k]) || collect(seen, acc, fs).contains(
                fs[k],
            ),
    decreases fs.len(),
{
    if fs.len() > 0 {
        let head = fs.drop_last();
        collect_covers(seen, acc, head);
        let before = collect(seen, acc, head);
        let out = collect(seen, acc, fs);
        assert forall|f: FormV| acc.contains(f) || before.contains(f) implies #[trigger] out.contains(
            f,
        ) by {
            assert(before.contains(f));
            let k = choose|k: int| 0 <= k < before.len() && before[k] == f;
            assert(out[k] == f);
        }
        assert forall|k: int| 0 <= k < fs.len() implies seen.contains(#[trigger] fs[k]) || out.contains(
            fs[k],
        ) by {
            if k < head.len() {
                assert(head[k] == fs[k]);
            } else if !seen.contains(fs[k]) && !before.contains(fs[k]) {
                assert(out[out.len() - 1] == fs[k]);
            }
        }
    }
}

/// What rule `r` makes of a form by alternative `i` is in one of two lists.
spec fn step_found(
    rules: Seq<RuleV>,
    form: FormV,
    seen: Seq<FormV>,
    out: Seq<FormV>,
    r: int,
    i: int,
) -> bool {
    0 <= i < alternatives(rules[r]) && !held_back(form, rules[r]) && applies(form, rules[r], i) ==> {
        ||| seen.contains(undone(form, rules[r], i))
        ||| out.contains(undone(form, rules[r], i))
    }
}

proof fn by_rules_cover(rules: Seq<RuleV>, form: FormV, n: int, seen: Seq<FormV>, acc: Seq<FormV>)
    requires
        n <= rules.len(),
    ensures
        forall|f: FormV|
            acc.contains(f) ==> #[trigger] by_rules(rules, form, n, seen, acc).contains(f),
        forall|r: int, i: int|
            0 <= r < n ==> #[trigger] step_found(
                rules,
                form,
                seen,
                by_rules(rules, form, n, seen, acc),
                r,
                i,
            ),
    decreases n,
{
    if n > 0 {
        by_rules_cover(rules, form, n - 1, seen, acc);
        let before = by_rules(rules, form, n - 1, seen, acc);
        let out = by_rules(rules, form, n, seen, acc);
        let rule = rules[n - 1];
        let fs = rule_forms(form, rule, alternatives(rule));
        collect_covers(seen, before, fs);
        assert forall|r: int, i: int| 0 <= r < n implies #[trigger] step_found(
            rules,
            form,
            seen,
            out,
            r,
            i,
        ) by {
            if r < n - 1 {
                assert(step_found(rules, form, seen, before, r, i));
            } else if 0 <= i < alternatives(rule) && !held_back(form, rule) && applies(form, rule, i) {
                rule_forms_cover(form, rule, alternatives(rule), i);
                let k = choose|k: int| 0 <= k < fs.len() && fs[k] == undone(form, rule, i);
                assert(seen.contains(fs[k]) || out.contains(fs[k]));
            }
        }
    }
}

proof fn next_level_covers(rules: Seq<RuleV>, novel: Seq<FormV>, n: int, seen: Seq<FormV>)
    requires
        0 <= n <= novel.len(),
    ensures
        forall|k: int, r: int, i: int|
            0 <= k < n && 0 <= r < rules.len() ==> #[trigger] step_found(
                rules,
                novel[k],
                seen,
                next_level(rules, novel, n, seen),
                r,
                i,
            ),
    decreases n,
{
    if n > 0 {
        next_level_covers(rules, novel, n - 1, seen);
        let before = next_level(rules, novel, n - 1, seen);
        let out = next_level(rules, novel, n, seen);
        by_rules_cover(rules, novel[n - 1], rules.len() as int, seen, before);
        assert forall|k: int, r: int, i: int| 0 <= k < n && 0 <= r < rules.len() implies #[trigger] step_found(
            rules,
            novel[k],
            seen,
            out,
            r,
            i,
        ) by {
            if k < n - 1 {
                assert(step_found(rules, novel[k], seen, before, r, i));
            }
        }
    }
}

proof fn by_rules_steps(
    rules: Seq<RuleV>,
    form: FormV,
    n: int,
    seen: Seq<FormV>,
    acc: Seq<FormV>,
    steps: nat,
)
    requires
        form.process.len() == steps,
        acc.no_duplicates(),
        forall|k: int| 0 <= k < acc.len() ==> !seen.contains(#[trigger] acc[k]),
        forall|k: int| 0 <= k < acc.len() ==> (#[trigger] acc[k]).process.len() == steps + 1,
    ensures
        by_rules(rules, form, n, seen, acc).no_duplicates(),
        forall|k: int|
            0 <= k < by_rules(rules, form, n, seen, acc).len() ==> !seen.contains(
                #[trigger] by_rules(rules, form, n, seen, acc)[k],
            ),
        forall|k: int|
            0 <= k < by_rules(rules, form, n, seen, acc).len() ==> (#[trigger] by_rules(
                rules,
                form,
                n,
                seen,
                acc,
            )[k]).process.len() == steps + 1,
    decreases n,
{
    if n > 0 {
        by_rules_steps(rules, form, n - 1, seen, acc, steps);
        let before = by_rules(rules, form, n - 1, seen, acc);
        let rule = rules[n - 1];
        if !held_back(form, rule) {
            let fs = rule_forms(form, rule, alternatives(rule));
            collect_is_new(seen, before, fs);
            rule_forms_apply(form, rule, alternatives(rule));
            let out = collect(seen, before, fs);
            assert forall|k: int| 0 <= k < out.len() implies (#[trigger] out[k]).process.len() == steps
                + 1 by {
                if before.contains(out[k]) {
                    let j = choose|j: int| 0 <= j < before.len() && before[j] == out[k];
                    assert(before[j].process.len() == steps + 1);
                } else {
                    let j = choose|j: int| 0 <= j < fs.len() && fs[j] == out[k];
                    assert(made_by(form, rule, alternatives(rule), fs[j]));
                }
            }
        }
    }
}

proof fn next_level_steps(rules: Seq<RuleV>, novel: Seq<FormV>, n: int, seen: Seq<FormV>, steps: nat)
    requires
        0 <= n <= novel.len(),
        forall|k: int| 0 <= k < novel.len() ==> (#[trigger] novel[k]).process.len() == steps,
    ensures
        next_level(rules, novel, n, seen).no_duplicates(),
        forall|k: int|
            0 <= k < next_level(rules, novel, n, seen).len() ==> !seen.contains(
                #[trigger] next_level(rules, novel, n, seen)[k],
            ),
        forall|k: int|
            0 <= k < next_level(rules, novel, n, seen).len() ==> (#[trigger] next_level(
                rules,
                novel,
                n,
                seen,
            )[k]).process.len() == steps + 1,
    decreases n,
{
    if n > 0 {
        next_level_steps(rules, novel, n - 1, seen, steps);
        by_rules_steps(
            rules,
            novel[n - 1],
            rules.len() as int,
            seen,
            next_level(rules, novel, n - 1, seen),
            steps,
        );
    }
}

/// All that the rules make of the form `k` of a list is in another list.
spec fn steps_in(rules: Seq<RuleV>, from: Seq<FormV>, k: int, all: Seq<FormV>) -> bool {
    forall|r: int, i: int|
        #![trigger undone(from[k], rules[r], i)]
        0 <= r < rules.len() && 0 <= i < alternatives(rules[r]) && !held_back(from[k], rules[r])
            && applies(from[k], rules[r], i) ==> all.contains(undone(from[k], rules[r], i))
}

proof fn levels_are_whole(
    rules: Seq<RuleV>,
    done: Seq<FormV>,
    novel: Seq<FormV>,
    left: nat,
    steps: nat,
)
    requires
        forall|k: int| 0 <= k < done.len() ==> (#[trigger] done[k]).process.len() < steps,
        forall|k: int| 0 <= k < novel.len() ==> (#[trigger] novel[k]).process.len() == steps,
        forall|k: int| 0 <= k < done.len() ==> #[trigger] steps_in(rules, done, k, done + novel),
    ensures
        forall|k: int|
            0 <= k < levels(rules, done, novel, left).len() ==> (#[trigger] levels(
                rules,
                done,
                novel,
                left,
            )[k]).process.len() < steps + left,
        forall|k: int|
            0 <= k < levels(rules, done, novel, left).len() && levels(
                rules,
                done,
                novel,
                left,
            )[k].process.len() + 1 < steps + left ==> #[trigger] steps_in(
                rules,
                levels(rules, done, novel, left),
                k,
                levels(rules, done, novel, left),
            ),
    decreases left,
{
    let seen = done + novel;
    if novel.len() == 0 {
        assert(seen =~= done);
        assert(levels(rules, done, novel, left) == done);
    } else if left == 0 {
        assert(levels(rules, done, novel, left) == done);
        assert forall|k: int| 0 <= k < done.len() && done[k].process.len() + 1 < steps implies #[trigger] steps_in(
            rules,
            done,
            k,
            done,
        ) by {
            assert(steps_in(rules, done, k, seen));
            assert forall|r: int, i: int|
                #![trigger undone(done[k], rules[r], i)]
                0 <= r < rules.len() && 0 <= i < alternatives(rules[r]) && !held_back(done[k], rules[r])
                    && applies(done[k], rules[r], i) implies done.contains(
                undone(done[k], rules[r], i),
            ) by {
                let f = undone(done[k], rules[r], i);
                assert(seen.contains(f));
                let j = choose|j: int| 0 <= j < seen.len() && seen[j] == f;
                if j >= done.len() {
                    assert(novel[j - done.len()].process.len() == steps);
                }
                assert(done[j] == f);
            }
        }
    } else {
        let next = next_level(rules, novel, novel.len() as int, seen);
        next_level_steps(rules, novel, novel.len() as int, seen, steps);
        next_level_covers(rules, novel, novel.len() as int, seen);
        let both = seen + next;
        assert forall|k: int| 0 <= k < seen.len() implies (#[trigger] seen[k]).process.len() < steps + 1 by {
            if k < done.len() {
                assert(seen[k] == done[k]);
            } else {
                assert(seen[k] == novel[k - done.len()]);
            }
        }
        assert forall|k: int| 0 <= k < seen.len() implies #[trigger] steps_in(rules, seen, k, both) by {
            assert forall|r: int, i: int|
                #![trigger undone(seen[k], rules[r], i)]
                0 <= r < rules.len() && 0 <= i < alternatives(rules[r]) && !held_back(seen[k], rules[r])
                    && applies(seen[k], rules[r], i) implies both.contains(
                undone(seen[k], rules[r], i),
            ) by {
                let f = undone(seen[k], rules[r], i);
                if k < done.len() {
                    assert(steps_in(rules, done, k, seen));
                    assert(f == undone(done[k], rules[r], i));
                    assert(seen.contains(f));
                } else {
                    assert(step_found(rules, novel[k - done.len()], seen, next, r, i));
                }
                if seen.contains(f) {
                    let j = choose|j: int| 0 <= j < seen.len() && seen[j] == f;
                    assert(both[j] == f);
                } else {
                    let j = choose|j: int| 0 <= j < next.len() && next[j] == f;
                    assert(both[seen.len() + j] == f);
                }
            }
        }
        levels_are_whole(rules, seen, next, (left - 1) as nat, steps + 1);
        assert(levels(rules, done, novel, left) == levels(rules, seen, next, (left - 1) as nat));
        assert(steps + 1 + (left - 1) as nat == steps + left);
    }
}

proof fn the_search_is_whole(rules: Seq<RuleV>, text: Seq<char>)
    ensures
        forall|k: int|
            0 <= k < deconjugated(rules, text).len() ==> (#[trigger] deconjugated(
                rules,
                text,
            )[k]).process.len() < MAX_DECONJ_ITERATIONS,
        forall|k: int|
            0 <= k < deconjugated(rules, text).len() && deconjugated(rules, text)[k].process.len() + 1
                < MAX_DECONJ_ITERATIONS ==> #[trigger] steps_in(
                rules,
                deconjugated(rules, text),
                k,
                deconjugated(rules, text),
            ),
{
    if trim(text).len() > 0 {
        let novel = seq![seed_of(trim(text))];
        levels_are_whole(rules, seq![], novel, MAX_DECONJ_ITERATIONS as nat, 0);
    }
}

/// No form is more than one step short of the cap away from the text: its
/// process names each step, and the cap is on the levels, the text's own
/// among them.
pub proof fn no_form_passes_the_cap(rules: Seq<RuleV>, text: Seq<char>, k: int)
    requires
        0 <= k < deconjugated(rules, text).len(),
    ensures
        deconjugated(rules, text)[k].process.len() <= MAX_DECONJ_ITERATIONS - 1,
{
    the_search_is_whole(rules, text);
}

/// Below the last level nothing is left out: whatever a rule makes of a form
/// found there in one step is found too.
pub proof fn every_step_below_the_cap_is_found(
    rules: Seq<RuleV>,
    text: Seq<char>,
    k: int,
    r: int,
    i: int,
)
    requires
        0 <= k < deconjugated(rules, text).len(),
        deconjugated(rules, text)[k].process.len() < MAX_DECONJ_ITERATIONS - 1,
        0 <= r < rules.len(),
        0 <= i < alternatives(rules[r]),
        !held_back(deconjugated(rules, text)[k], rules[r]),
        applies(deconjugated(rules, text)[k], rules[r], i),
    ensures
        deconjugated(rules, text).contains(undone(deconjugated(rules, text)[k], rules[r], i)),
{
    the_search_is_whole(rules, text);
    let all = deconjugated(rules, text);
    assert(steps_in(rules, all, k, all));
}

/// White space around a text changes nothing.
pub proof fn white_space_around_a_text_is_nothing(rules: Seq<RuleV>, text: Seq<char>)
    ensures
        deconjugated(rules, text) == deconjugated(rules, trim(text)),
{
    crate::chars::trimming_twice_is_trimming_once(text);
}

/// A text's own form is always among the forms it deconjugates to, and no
/// form comes twice.
pub proof fn the_seed_is_always_found(rules: Seq<RuleV>, text: Seq<char>)
    requires
        trim(text).len() > 0,
    ensures
        deconjugated(rules, text).len() > 0,
        deconjugated(rules, text)[0] == seed_of(trim(text)),
        deconjugated(rules, text).no_duplicates(),
{
    let seed = seed_of(trim(text));
    let none: Seq<FormV> = seq![];
    assert(none + seq![seed] =~= seq![seed]);
    levels_keep(rules, none, seq![seed], MAX_DECONJ_ITERATIONS as nat, seed);
}

/// Every other form is one rule away from a form that is also found.
pub proof fn every_form_is_a_rule_away(rules: Seq<RuleV>, text: Seq<char>, k: int)
    requires
        0 < k < deconjugated(rules, text).len(),
    ensures
        one_step(rules, deconjugated(rules, text), deconjugated(rules, text)[k]),
{
    let seed = seed_of(trim(text));
    let none: Seq<FormV> = seq![];
    assert(none + seq![seed] =~= seq![seed]);
    levels_keep(rules, none, seq![seed], MAX_DECONJ_ITERATIONS as nat, seed);
    the_seed_is_always_found(rules, text);
    let all = deconjugated(rules, text);
    assert(reached(rules, all, seed, all[k]));
    assert(all[0] != all[k]);
}

/// Text that is all white space deconjugates to nothing.
pub proof fn blank_text_has_no_form(rules: Seq<RuleV>, text: Seq<char>)
    requires
        trim(text).len() == 0,
    ensures
        deconjugated(rules, text).len() == 0,
{
}

/// Entry `i` of a list that is gone through over and over, or no text where
/// the list is empty.
pub open spec fn turn(list: Seq<Seq<char>>, i: int) -> Seq<char> {
    if list.len() > 0 {
        list[i % list.len() as int]
    } else {
        seq![]
    }
}

/// Does a rule lead from one form to another by its alternative `i`?
///
/// It takes its inflected ending off and puts its plain one on, notes itself,
/// and changes the last tag for its own. An untagged form is open to the rules
/// that may come last in a word and to no never-final rule, a tagged one to the
/// rules for its last tag and to no final-only rule. A rewrite takes whole
/// words.
pub open spec fn leads(rule: RuleV, i: int, from: FormV, to: FormV) -> bool {
    let off = turn(rule.con_end, i);
    let n = from.text.len() - off.len();
    &&& n >= 0 && from.text.skip(n) == off
    &&& to.text == from.text.take(n) + turn(rule.dec_end, i)
    &&& to.process == from.process + seq![rule.detail]
    &&& rule.dec_tag.len() > 0 ==> to.tags.len() > 0 && to.tags.last() == turn(rule.dec_tag, i)
    &&& to.tags.len() == from.tags.len() - (if from.tags.len() > 0 {
        1int
    } else {
        0
    }) + (if rule.dec_tag.len() > 0 {
        1int
    } else {
        0
    })
    &&& forall|t: int| 0 <= t < from.tags.len() - 1 ==> #[trigger] to.tags[t] == from.tags[t]
    &&& from.tags.len() == 0 ==> rule.rule_type == "stdrule"@ || rule.rule_type == "rewriterule"@
        || rule.rule_type == "onlyfinalrule"@ || rule.rule_type == "contextrule"@
    &&& from.tags.len() > 0 ==> rule.con_tag.len() > 0 && turn(rule.con_tag, i) == from.tags.last()
    &&& rule.rule_type == "onlyfinalrule"@ ==> from.tags.len() == 0
    &&& rule.rule_type == "neverfinalrule"@ ==> from.tags.len() > 0
    &&& rule.rule_type == "rewriterule"@ ==> n == 0
}

/// How many alternatives a rule has: one for each plain ending, and at least
/// one.
pub open spec fn ways(rule: RuleV) -> int {
    if rule.dec_end.len() > 1 {
        rule.dec_end.len() as int
    } else {
        1
    }
}

proof fn undone_leads(form: FormV, rule: RuleV, i: int)
    requires
        0 <= i,
        !held_back(form, rule),
        applies(form, rule, i),
    ensures
        leads(rule, i, form, undone(form, rule, i)),
{
    let off = turn(rule.con_end, i);
    let n = form.text.len() - off.len();
    assert(form.text.skip(n) =~= off);
    let to = undone(form, rule, i);
    assert(form.process.push(rule.detail) =~= form.process + seq![rule.detail]);
    if rule.rule_type == "rewriterule"@ {
        assert(form.text.len() == off.len());
    }
    if rule.con_tag.len() > 0 {
        assert(cycled(rule.con_tag, i) == Some(turn(rule.con_tag, i)));
    }
}

proof fn what_leads_is_undone(form: FormV, rule: RuleV, i: int, to: FormV)
    requires
        0 <= i,
        leads(rule, i, form, to),
    ensures
        !held_back(form, rule),
        applies(form, rule, i),
        to == undone(form, rule, i),
{
    reveal_strlit("onlyfinalrule");
    reveal_strlit("neverfinalrule");
    let off = turn(rule.con_end, i);
    let n = form.text.len() - off.len();
    assert(ends(form.text, off));
    if rule.rule_type == "rewriterule"@ {
        assert(form.text.skip(0) =~= form.text);
    }
    let out = undone(form, rule, i);
    assert(to.text =~= out.text);
    assert(to.process =~= out.process);
    assert(to.tags =~= out.tags);
}

/// Every form that is found but the text's own is led to by a rule, from a form
/// that is found and has one step less. So a never-final rule is never the
/// first step, and a final-only rule never follows a step that left a tag.
pub proof fn every_step_is_allowed(rules: Seq<RuleV>, text: Seq<char>, k: int)
    requires
        0 <= k < deconjugated(rules, text).len(),
    ensures
        deconjugated(rules, text)[k].process.len() == 0 ==> deconjugated(rules, text)[k].text == trim(
            text,
        ) && deconjugated(rules, text)[k].tags.len() == 0,
        deconjugated(rules, text)[k].process.len() > 0 ==> exists|g: int, r: int, i: int|
            0 <= g < deconjugated(rules, text).len() && 0 <= r < rules.len() && 0 <= i < ways(
                rules[r],
            ) && #[trigger] leads(
                rules[r],
                i,
                deconjugated(rules, text)[g],
                deconjugated(rules, text)[k],
            ),
{
    let all = deconjugated(rules, text);
    assert(trim(text).len() > 0);
    the_seed_is_always_found(rules, text);
    if k > 0 {
        every_form_is_a_rule_away(rules, text, k);
        let (g, r, i) = choose|g: int, r: int, i: int|
            #![trigger undone(all[g], rules[r], i)]
            0 <= g < all.len() && 0 <= r < rules.len() && 0 <= i < alternatives(rules[r]) && !held_back(
                all[g],
                rules[r],
            ) && applies(all[g], rules[r], i) && all[k] == undone(all[g], rules[r], i);
        undone_leads(all[g], rules[r], i);
        assert(leads(rules[r], i, all[g], all[k]));
    }
}

/// Whatever a rule leads to from a form that is found is found too, as long as
/// it is within the cap. So a final-only rule is used on the text itself, and a
/// never-final rule on every form with its tag.
pub proof fn every_allowed_step_is_taken(
    rules: Seq<RuleV>,
    text: Seq<char>,
    k: int,
    r: int,
    i: int,
    to: FormV,
)
    requires
        0 <= k < deconjugated(rules, text).len(),
        deconjugated(rules, text)[k].process.len() < MAX_DECONJ_ITERATIONS - 1,
        0 <= r < rules.len(),
        0 <= i < ways(rules[r]),
        leads(rules[r], i, deconjugated(rules, text)[k], to),
    ensures
        deconjugated(rules, text).contains(to),
{
    what_leads_is_undone(deconjugated(rules, text)[k], rules[r], i, to);
    every_step_below_the_cap_is_found(rules, text, k, r, i);
}

proof fn tags_follow_steps(rules: Seq<RuleV>, text: Seq<char>, k: int)
    requires
        0 <= k < deconjugated(rules, text).len(),
        forall|r: int| 0 <= r < rules.len() ==> (#[trigger] rules[r]).dec_tag.len() > 0,
    ensures
        (deconjugated(rules, text)[k].tags.len() == 0) == (deconjugated(rules, text)[k].process.len()
            == 0),
{
    every_step_is_allowed(rules, text, k);
    let all = deconjugated(rules, text);
    if all[k].process.len() > 0 {
        let (g, r, i) = choose|g: int, r: int, i: int|
            0 <= g < all.len() && 0 <= r < rules.len() && 0 <= i < ways(rules[r]) && #[trigger] leads(
                rules[r],
                i,
                all[g],
                all[k],
            );
        assert(rules[r].dec_tag.len() > 0);
    }
}

/// Where every rule leaves a tag, a final-only rule is a form's first step and
/// no later one, and a never-final rule any step but the first: of a form with
/// so many steps, the last was by a rule that its number allows.
pub proof fn the_number_of_steps_tells_which_rules_came(rules: Seq<RuleV>, text: Seq<char>, k: int)
    requires
        0 <= k < deconjugated(rules, text).len(),
        deconjugated(rules, text)[k].process.len() > 0,
        forall|r: int| 0 <= r < rules.len() ==> (#[trigger] rules[r]).dec_tag.len() > 0,
    ensures
        exists|r: int|
            {
                &&& 0 <= r < rules.len()
                &&& (#[trigger] rules[r]).detail == deconjugated(rules, text)[k].process.last()
                &&& rules[r].rule_type == "onlyfinalrule"@ ==> deconjugated(
                    rules,
                    text,
                )[k].process.len() == 1
                &&& rules[r].rule_type == "neverfinalrule"@ ==> deconjugated(
                    rules,
                    text,
                )[k].process.len() > 1
            },
{
    every_step_is_allowed(rules, text, k);
    let all = deconjugated(rules, text);
    let (g, r, i) = choose|g: int, r: int, i: int|
        0 <= g < all.len() && 0 <= r < rules.len() && 0 <= i < ways(rules[r]) && #[trigger] leads(
            rules[r],
            i,
            all[g],
            all[k],
        );
    tags_follow_steps(rules, text, g);
    assert(rules[r].detail == all[k].process.last());
}

} // verus!
