//! The grammar engine, as far as the library deals with it: a set of rules
//! and a tokenizer of the `nlprule` crate, both opaque to the verifier.

use crate::validator::Suggestion;
use vstd::prelude::*;

verus! {

#[verifier::external_type_specification]
#[verifier::external_body]
pub struct ExRules(nlprule::Rules);

#[verifier::external_type_specification]
#[verifier::external_body]
pub struct ExTokenizer(nlprule::Tokenizer);

/// What the library reads of a rule.
pub struct RuleInfo {
    pub id: String,
    pub name: String,
    pub category_name: String,
    pub category_type: Option<String>,
    pub enabled: bool,
}

/// A `RuleInfo` as a plain value.
pub struct RuleView {
    pub id: Seq<char>,
    pub name: Seq<char>,
    pub category_name: Seq<char>,
    pub category_type: Option<Seq<char>>,
    pub enabled: bool,
}

impl View for RuleInfo {
    type V = RuleView;

    open spec fn view(&self) -> RuleView {
        RuleView {
            id: self.id@,
            name: self.name@,
            category_name: self.category_name@,
            category_type: match self.category_type {
                Some(text) => Some(text@),
                None => None,
            },
            enabled: self.enabled,
        }
    }
}

/// The rules of a set, in the order of their priority.
pub uninterp spec fn rule_list(rules: nlprule::Rules) -> Seq<RuleView>;

/// `Rules::rules` and the length of the slice: the number of rules.
#[verifier::external_body]
pub(crate) fn rules_len(rules: &nlprule::Rules) -> (n: usize)
    ensures
        n == rule_list(*rules).len(),
{
    rules.rules().len()
}

/// `Rules::rules` and the getters of `Rule`: the rule at `index`, as plain
/// values.
#[verifier::external_body]
pub(crate) fn rule_at(rules: &nlprule::Rules, index: usize) -> (info: RuleInfo)
    requires
        index < rule_list(*rules).len(),
    ensures
        info@ == rule_list(*rules)[index as int],
{
    let rule = &rules.rules()[index];
    RuleInfo {
        id: rule.id().to_string(),
        name: rule.name().to_string(),
        category_name: rule.category_name().to_string(),
        category_type: rule.category_type().map(|kind| kind.to_string()),
        enabled: rule.enabled(),
    }
}

/// `Rule::disable` on the rule at `index`: that rule is no longer enabled,
/// and nothing else changes.
#[verifier::external_body]
pub(crate) fn rule_disable(rules: &mut nlprule::Rules, index: usize)
    requires
        index < rule_list(*old(rules)).len(),
    ensures
        rule_list(*final(rules)) == rule_list(*old(rules)).update(
            index as int,
            RuleView { enabled: false, ..rule_list(*old(rules))[index as int] },
        ),
{
    rules.rules_mut()[index].disable()
}

/// `Rules::suggest`: what the enabled rules say of `text`, as plain values.
/// A span is given by its byte offsets in `text`. Nothing is stated of the
/// result: it is what the rules make of the text.
#[verifier::external_body]
pub(crate) fn engine_suggest(
    rules: &nlprule::Rules,
    tokenizer: &nlprule::Tokenizer,
    text: &str,
) -> Vec<Suggestion> {
    rules.suggest(text, tokenizer).into_iter().map(
        |found| Suggestion {
            source: found.source().to_string(),
            message: found.message().to_string(),
            start: found.span().byte().start,
            end: found.span().byte().end,
            replacements: found.replacements().to_vec(),
        },
    ).collect()
}

} // verus!
