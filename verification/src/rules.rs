//! Rename rules for enumerated properties, and the fixed normalization that
//! renames a property literally called `"type"` to `"kind"`.
//!
//! A rule maps an exact ordered value list to a canonical property name. A
//! property whose enumeration matches a rule is renamed to that rule's name;
//! the `"type"` normalization applies first and independently of any rule.

use vstd::prelude::*;
use crate::property::{EnumProperty, PropertyKind, PropertyKindView};

verus! {

/// The mathematical image of a rule table: ordered value list to canonical
/// name.
pub type RulesView = Seq<(Seq<Seq<char>>, Seq<char>)>;

/// A rename-rule table, supplied externally.
#[derive(Debug)]
pub struct ModernPropertyRules {
    rule_data: Vec<(EnumProperty, String)>,
}

impl View for ModernPropertyRules {
    type V = RulesView;

    closed spec fn view(&self) -> RulesView {
        Seq::new(self.rule_data@.len(), |i: int| (self.rule_data@[i].0@, self.rule_data@[i].1@))
    }
}

/// The canonical name a rule table assigns to an exact ordered value list:
/// the name of the last matching rule, if any.
pub open spec fn rule_name(rules: RulesView, values: Seq<Seq<char>>) -> Option<Seq<char>>
    decreases rules.len(),
{
    if rules.len() == 0 {
        None
    } else if rules.last().0 == values {
        Some(rules.last().1)
    } else {
        rule_name(rules.drop_last(), values)
    }
}

/// Any name a rule table hands out is the name of one of its rules.
pub proof fn lemma_rule_name_member(rules: RulesView, values: Seq<Seq<char>>)
    requires
        rule_name(rules, values) is Some,
    ensures
        exists|i: int| 0 <= i < rules.len() && #[trigger] rules[i].1 == rule_name(
            rules,
            values,
        )->Some_0,
    decreases rules.len(),
{
    if rules.len() > 0 && rules.last().0 != values {
        lemma_rule_name_member(rules.drop_last(), values);
        let i = choose|i: int|
            0 <= i < rules.drop_last().len() && #[trigger] rules.drop_last()[i].1 == rule_name(
                rules.drop_last(),
                values,
            )->Some_0;
        assert(rules[i].1 == rule_name(rules, values)->Some_0);
    }
}

/// The name a property keeps after rule substitution: for an enumeration
/// that matches a rule, the rule's canonical name; otherwise its own.
pub open spec fn rules_applied(rules: RulesView, name: Seq<char>, kind: PropertyKindView) -> Seq<
    char,
> {
    match kind {
        PropertyKindView::Enum(vals) => match rule_name(rules, vals) {
            Some(n) => n,
            None => name,
        },
        _ => name,
    }
}

/// The view of an optional rule table.
pub open spec fn rules_view(rules: Option<&ModernPropertyRules>) -> Option<RulesView> {
    match rules {
        Some(r) => Some(r@),
        None => None,
    }
}

/// The name a property surfaces under in output: `"type"` is first
/// normalized to `"kind"`, then the rule table, if present, may substitute a
/// canonical name for a matching enumeration.
pub open spec fn final_name_spec(
    rules: Option<RulesView>,
    name: Seq<char>,
    kind: PropertyKindView,
) -> Seq<char> {
    let base = if name == "type"@ {
        "kind"@
    } else {
        name
    };
    match rules {
        Some(rv) => rules_applied(rv, base, kind),
        None => base,
    }
}

/// No rule of the table renames the property: either there is no table, or
/// the property is not an enumeration, or no rule matches its values.
pub open spec fn no_rule_applies(rules: Option<RulesView>, kind: PropertyKindView) -> bool {
    match rules {
        None => true,
        Some(rv) => match kind {
            PropertyKindView::Enum(vals) => rule_name(rv, vals) is None,
            _ => true,
        },
    }
}

/// A property literally named `"type"` always surfaces as `"kind"` whenever
/// no rule renames it, with or without a rule table; and as long as no rule
/// assigns the name `"type"`, no property ever surfaces as `"type"`.
pub proof fn lemma_type_normalized(
    rules: Option<RulesView>,
    name: Seq<char>,
    kind: PropertyKindView,
)
    requires
        rules matches Some(rv) ==> forall|i: int| 0 <= i < rv.len() ==> #[trigger] rv[i].1
            != "type"@,
    ensures
        name == "type"@ && no_rule_applies(rules, kind) ==> final_name_spec(rules, name, kind)
            == "kind"@,
        final_name_spec(rules, name, kind) != "type"@,
{
    reveal_strlit("type");
    reveal_strlit("kind");
    assert("type"@[0] == 't');
    assert("kind"@[0] == 'k');
    assert("type"@ != "kind"@);
    match rules {
        Some(rv) => match kind {
            PropertyKindView::Enum(vals) => {
                if rule_name(rv, vals) is Some {
                    lemma_rule_name_member(rv, vals);
                }
            },
            _ => {},
        },
        None => {},
    }
}

impl ModernPropertyRules {
    /// Builds the rule table from `(canonical name, value list)` pairs as the
    /// rule file lists them; a later rule with the same value list wins.
    pub fn from_pairs(pairs: &Vec<(String, EnumProperty)>) -> (r: ModernPropertyRules)
        ensures
            r@.len() == pairs@.len(),
            forall|i: int| 0 <= i < pairs@.len() ==> #[trigger] r@[i] == (
                pairs@[i].1@,
                pairs@[i].0@,
            ),
    {
        let mut rule_data: Vec<(EnumProperty, String)> = Vec::new();
        let n = pairs.len();
        let mut i: usize = 0;
        while i < n
            invariant
                0 <= i <= n,
                n == pairs.len(),
                rule_data@.len() == i,
                forall|j: int| 0 <= j < i ==> #[trigger] rule_data@[j].0@ == pairs@[j].1@
                    && rule_data@[j].1@ == pairs@[j].0@,
            decreases n - i,
        {
            rule_data.push((pairs[i].1.duplicate(), pairs[i].0.clone()));
            i = i + 1;
        }
        ModernPropertyRules { rule_data }
    }

    /// The canonical name for an exact ordered value list, as `rule_name`
    /// states.
    pub fn lookup(&self, values: &EnumProperty) -> (r: Option<&String>)
        ensures
            r matches Some(n) ==> rule_name(self@, values@) == Some(n@),
            r is None ==> rule_name(self@, values@) is None,
    {
        let ghost rv = self@;
        let n = self.rule_data.len();
        assert(rv.len() == n);
        assert(rv.take(n as int) =~= rv);
        let mut i: usize = n;
        while i > 0
            invariant
                0 <= i <= n,
                n == self.rule_data.len(),
                rv == self@,
                rv.len() == n,
                rule_name(rv, values@) == rule_name(rv.take(i as int), values@),
            decreases i,
        {
            i = i - 1;
            proof {
                assert(rv.take(i as int + 1).drop_last() =~= rv.take(i as int));
                assert(rv.take(i as int + 1).last() == rv[i as int]);
            }
            if self.rule_data[i].0.same_values(values) {
                assert(rv[i as int].0 == values@);
                return Some(&self.rule_data[i].1);
            }
        }
        proof {
            assert(rv.take(0) =~= Seq::empty());
        }
        None
    }

    /// Applies rule substitution to one property, as `rules_applied` states:
    /// an enumeration matching a rule takes the rule's canonical name.
    pub fn transform(&self, name: &String, property: PropertyKind) -> (r: (String, PropertyKind))
        ensures
            r.0@ == rules_applied(self@, name@, property@),
            r.1@ == property@,
    {
        match &property {
            PropertyKind::Enum(values) => {
                match self.lookup(values) {
                    Some(n) => {
                        let renamed = n.clone();
                        (renamed, property)
                    },
                    None => (name.clone(), property),
                }
            },
            _ => (name.clone(), property),
        }
    }
}

/// Applies the full renaming to one property, as `final_name_spec` states:
/// first the fixed `"type"` to `"kind"` normalization, then the rule table,
/// if one is supplied.
pub fn transform_entry(
    rules: Option<&ModernPropertyRules>,
    name: &String,
    property: PropertyKind,
) -> (r: (String, PropertyKind))
    ensures
        r.0@ == final_name_spec(rules_view(rules), name@, property@),
        r.1@ == property@,
{
    let base: String = if name.eq(&String::from_str("type")) {
        String::from_str("kind")
    } else {
        name.clone()
    };
    match rules {
        Some(table) => table.transform(&base, property),
        None => (base, property),
    }
}

} // verus!
