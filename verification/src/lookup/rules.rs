//! Deconjugation rule types.
//!
//! The rule file is a list that mixes comment strings with rule objects. Any
//! of `dec_end`, `con_end`, `dec_tag` and `con_tag` may be a single string or a
//! list of strings.
use crate::chars::{same_str, strs};
use vstd::prelude::*;

verus! {

#[derive(Debug, Clone)]
pub enum StrOrList {
    One(String),
    Many(Vec<String>),
}

impl StrOrList {
    /// The strings that the field lists.
    pub open spec fn list(self) -> Seq<Seq<char>> {
        match self {
            StrOrList::One(s) => seq![s@],
            StrOrList::Many(v) => strs(v@),
        }
    }

    /// The field as a list, whichever way it was written.
    pub fn as_slice(&self) -> (r: &[String])
        ensures
            strs(r@) == self.list(),
    {
        match self {
            StrOrList::One(s) => {
                let r = slice_of_one(s);
                assert(strs(r@) =~= seq![s@]);
                r
            },
            StrOrList::Many(v) => v.as_slice(),
        }
    }
}

/// `std::slice::from_ref` gives a slice of length one that holds the value.
#[verifier::external_body]
fn slice_of_one(s: &String) -> (r: &[String])
    ensures
        r@ == seq![*s],
{
    std::slice::from_ref(s)
}

#[derive(Debug, Clone)]
pub struct Rule {
    pub rule_type: String,
    pub dec_end: StrOrList,
    pub con_end: StrOrList,
    pub dec_tag: Option<StrOrList>,
    pub con_tag: Option<StrOrList>,
    pub detail: String,
}

/// What a rule holds.
#[verifier::ext_equal]
pub struct RuleV {
    pub rule_type: Seq<char>,
    pub dec_end: Seq<Seq<char>>,
    pub con_end: Seq<Seq<char>>,
    pub dec_tag: Seq<Seq<char>>,
    pub con_tag: Seq<Seq<char>>,
    pub detail: Seq<char>,
}

/// An absent tag field lists nothing.
pub open spec fn tag_list(t: Option<StrOrList>) -> Seq<Seq<char>> {
    match t {
        Some(l) => l.list(),
        None => seq![],
    }
}

impl Rule {
    pub open spec fn v(self) -> RuleV {
        RuleV {
            rule_type: self.rule_type@,
            dec_end: self.dec_end.list(),
            con_end: self.con_end.list(),
            dec_tag: tag_list(self.dec_tag),
            con_tag: tag_list(self.con_tag),
            detail: self.detail@,
        }
    }
}

pub open spec fn rules_v(s: Seq<Rule>) -> Seq<RuleV> {
    s.map_values(|r: Rule| r.v())
}

/// One element of the rule file.
#[derive(Debug, Clone)]
pub enum Element {
    Rule(Rule),
    Comment(String),
}

/// Is this element a rule that the deconjugator uses?
pub open spec fn usable(e: Element) -> bool {
    match e {
        Element::Rule(r) => r.rule_type@ != "substitution"@,
        Element::Comment(_) => false,
    }
}

/// The rules among a file's elements, comments and `substitution` rules left
/// out.
pub open spec fn usable_rules(es: Seq<Element>) -> Seq<Rule>
    decreases es.len(),
{
    if es.len() == 0 {
        seq![]
    } else if usable(es.last()) {
        usable_rules(es.drop_last()).push(es.last()->Rule_0)
    } else {
        usable_rules(es.drop_last())
    }
}

/// Keeps the rules of a file, discarding comment strings and `substitution`
/// rules.
pub fn keep_rules(elements: Vec<Element>) -> (r: Vec<Rule>)
    ensures
        r@ == usable_rules(elements@),
{
    let ghost all = elements@;
    let mut rest = elements;
    let mut out: Vec<Rule> = Vec::new();
    let ghost mut n: int = 0;
    assert(rest@ =~= all.skip(0));
    while rest.len() > 0
        invariant
            0 <= n <= all.len(),
            rest@ == all.skip(n),
            out@ == usable_rules(all.take(n)),
        decreases rest@.len(),
    {
        let e = rest.remove(0);
        assert(e == all[n]);
        assert(rest@ =~= all.skip(n + 1));
        assert(all.take(n + 1).drop_last() =~= all.take(n));
        match e {
            Element::Rule(r) => {
                if !same_str(r.rule_type.as_str(), "substitution") {
                    out.push(r);
                }
            },
            Element::Comment(_) => {},
        }
        proof {
            n = n + 1;
        }
    }
    assert(all.take(n) =~= all);
    out
}

/// Every rule of a file is kept but those of type `substitution`, and nothing
/// else is.
pub proof fn every_rule_but_a_substitution_is_kept(es: Seq<Element>, rule: Rule)
    ensures
        usable_rules(es).contains(rule) <==> exists|i: int|
            0 <= i < es.len() && (#[trigger] es[i]) == Element::Rule(rule) && rule.rule_type@
                != "substitution"@,
    decreases es.len(),
{
    if es.len() > 0 {
        let front = es.drop_last();
        let n = es.len() - 1;
        every_rule_but_a_substitution_is_kept(front, rule);
        let before = usable_rules(front);
        let all = usable_rules(es);
        assert(es[n] == es.last());
        if all.contains(rule) {
            let j = choose|j: int| 0 <= j < all.len() && all[j] == rule;
            if j < before.len() {
                assert(before[j] == rule);
                let i = choose|i: int|
                    0 <= i < front.len() && (#[trigger] front[i]) == Element::Rule(rule)
                        && rule.rule_type@ != "substitution"@;
                assert(es[i] == front[i]);
            } else {
                assert(es[n] == Element::Rule(rule));
            }
        }
        if exists|i: int|
            0 <= i < es.len() && (#[trigger] es[i]) == Element::Rule(rule) && rule.rule_type@
                != "substitution"@ {
            let i = choose|i: int|
                0 <= i < es.len() && (#[trigger] es[i]) == Element::Rule(rule) && rule.rule_type@
                    != "substitution"@;
            if i < n {
                assert(front[i] == es[i]);
                let j = choose|j: int| 0 <= j < before.len() && before[j] == rule;
                assert(all[j] == rule);
            } else {
                assert(all[before.len() as int] == rule);
            }
        }
    }
}

} // verus!
