//! Rules as a configuration states them, before validation.
use vstd::prelude::*;
use crate::matcher::{Action, Matcher};
use crate::table::{
    all_reachable, dup_at, end_label, end_tag, label_set, on_reachable_cycle, sound_graph, tags_distinct,
    undefined_ref, unreachable_tags, Branch, Rule, Table, TableError,
};

verus! {

/// One element of a branch as written: an action, or the tag of the next rule.
pub enum BranchItem {
    Action(Action),
    Tag(String),
}

/// Why a written branch was refused.
#[derive(Clone, Copy, Debug, PartialEq, Eq)]
pub enum BranchError {
    /// No element names the next rule.
    MissingTag,
    /// Elements follow the tag of the next rule.
    ExtraElement,
}

/// A branch as written: its actions, then the tag of the rule to go on to.
pub struct ParBranch {
    pub seq: Vec<Action>,
    pub next: String,
}

impl ParBranch {
    /// Reads a branch from its elements: the actions up to the first tag, and
    /// that tag, which must be the last element.
    pub fn from_items(items: Vec<BranchItem>) -> (r: Result<ParBranch, BranchError>)
        ensures
            (forall|k: int| 0 <= k < items@.len() ==> !(#[trigger] items@[k] is Tag)) ==> r
                == Err::<ParBranch, BranchError>(BranchError::MissingTag),
            forall|k: int|
                0 <= k < items@.len() && (#[trigger] items@[k]) is Tag && (forall|j: int|
                    0 <= j < k ==> !(#[trigger] items@[j] is Tag)) ==> {
                    &&& k < items@.len() - 1 ==> r == Err::<ParBranch, BranchError>(
                        BranchError::ExtraElement,
                    )
                    &&& k == items@.len() - 1 ==> (r matches Ok(b) && b.next == items@[k]->Tag_0
                        && b.seq@.len() == k && forall|j: int|
                        0 <= j < k ==> items@[j] == BranchItem::Action(#[trigger] b.seq@[j]))
                },
    {
        let ghost orig = items@;
        let mut seq: Vec<Action> = Vec::new();
        let total = items.len();
        let mut rest = items;
        let mut taken: usize = 0;
        while rest.len() > 0
            invariant
                orig == items@,
                total == orig.len(),
                taken + rest@.len() == orig.len(),
                forall|j: int| 0 <= j < taken ==> !(#[trigger] orig[j] is Tag),
                rest@ == orig.subrange(taken as int, orig.len() as int),
                seq@.len() == taken,
                forall|j: int| 0 <= j < taken ==> orig[j] == BranchItem::Action(#[trigger] seq@[j]),
            decreases rest@.len(),
        {
            let item = rest.remove(0);
            assert(item == orig[taken as int]);
            match item {
                BranchItem::Action(a) => {
                    seq.push(a);
                    taken = total - rest.len();
                    assert(rest@ =~= orig.subrange(taken as int, orig.len() as int));
                },
                BranchItem::Tag(t) => {
                    assert(orig[taken as int] is Tag);
                    if rest.len() > 0 {
                        return Err(BranchError::ExtraElement);
                    }
                    return Ok(ParBranch { seq, next: t });
                },
            }
        }
        assert forall|k: int| 0 <= k < orig.len() implies !(#[trigger] orig[k] is Tag) by {}
        Err(BranchError::MissingTag)
    }

    /// The actions and the next tag, as a rule takes them.
    pub fn build(self) -> (r: (Vec<Action>, String))
        ensures
            r.0 == self.seq,
            r.1 == self.next,
    {
        (self.seq, self.next)
    }
}

impl Default for ParBranch {
    /// No actions, and on to `end`.
    fn default() -> (r: Self)
        ensures
            r.seq@.len() == 0,
            r.next@ == end_tag(),
    {
        ParBranch { seq: Vec::new(), next: end_label() }
    }
}

/// A rule as written.
pub struct ParRule {
    pub tag: String,
    pub matcher: Matcher,
    pub on_match: ParBranch,
    pub no_match: ParBranch,
}

/// The rule that a written rule stands for.
pub open spec fn rule_of(p: ParRule) -> Rule {
    Rule {
        tag: p.tag,
        matcher: p.matcher,
        on_match: Branch { actions: p.on_match.seq, next: p.on_match.next },
        no_match: Branch { actions: p.no_match.seq, next: p.no_match.next },
    }
}

/// The rules that written rules stand for.
pub open spec fn rules_of(ps: Seq<ParRule>) -> Seq<Rule> {
    ps.map_values(|p: ParRule| rule_of(p))
}

impl Table {
    /// Builds a table from rules as written; it succeeds or fails as
    /// `Table::new` does on the rules they stand for.
    pub fn parse(parsed_rules: Vec<ParRule>) -> (r: Result<Table, TableError>)
        requires
            forall|i: int| 0 <= i < parsed_rules@.len() ==> (#[trigger] parsed_rules@[i]).matcher.wf(),
        ensures
            ({
                let rs = rules_of(parsed_rules@);
                &&& (r matches Err(TableError::MultipleDef(_))) <==> !tags_distinct(rs)
                &&& r matches Err(TableError::MultipleDef(t)) ==> exists|i: int|
                    0 <= i < rs.len() && #[trigger] dup_at(rs, i) && rs[i].tag@ == t@ && forall|h: int|
                        0 <= h < i ==> !dup_at(rs, h)
                &&& tags_distinct(rs) ==> ((r is Ok) <==> (sound_graph(rs) && all_reachable(rs)))
                &&& r matches Ok(tb) ==> tb.wf() && tb@ == rs
                &&& r matches Err(TableError::UndefinedTag(u)) ==> undefined_ref(rs, u@)
                &&& r matches Err(TableError::RuleRecursion(u)) ==> on_reachable_cycle(rs, u@)
                &&& (r matches Err(TableError::UnusedRules(_))) <==> (tags_distinct(rs) && sound_graph(
                    rs,
                ) && !all_reachable(rs))
                &&& r matches Err(TableError::UnusedRules(v)) ==> label_set(v@) == unreachable_tags(rs)
            }),
    {
        let ghost orig = parsed_rules@;
        let mut rest = parsed_rules;
        let mut rules: Vec<Rule> = Vec::new();
        while rest.len() > 0
            invariant
                rules@.len() + rest@.len() == orig.len(),
                rest@ == orig.subrange(rules@.len() as int, orig.len() as int),
                forall|i: int| 0 <= i < orig.len() ==> (#[trigger] orig[i]).matcher.wf(),
                forall|i: int| 0 <= i < rules@.len() ==> #[trigger] rules@[i] == rule_of(orig[i]),
            decreases rest@.len(),
        {
            let r = rest.remove(0);
            assert(r == orig[rules@.len() as int]);
            let rule = Rule::new(r.tag, r.matcher, r.on_match.build(), r.no_match.build());
            rules.push(rule);
            assert(rest@ =~= orig.subrange(rules@.len() as int, orig.len() as int));
        }
        assert forall|i: int| 0 <= i < rules@.len() implies (#[trigger] rules@[i]).matcher.wf() by {
            assert(orig[i].matcher.wf());
        }
        assert(rules@ =~= rules_of(orig));
        Table::new(rules)
    }
}

} // verus!
