//! The table that assigns a technology to a file extension. It is filled
//! rule by rule, or from a `phf` map; the lookup goes over the rules.

use crate::paths::same_text;
use vstd::prelude::*;

verus! {

/// One line of the table: files with this extension belong to this category.
pub struct Rule {
    pub extension: String,
    pub category: String,
}

/// A map of the `phf` crate, built when the program is compiled.
#[verifier::external_type_specification]
#[verifier::external_body]
#[verifier::reject_recursive_types(K)]
#[verifier::reject_recursive_types(V)]
pub struct ExPhfMap<K: 'static, V: 'static>(phf::Map<K, V>);

/// The pairs of extension and category that a `phf` map holds, in the order
/// in which it hands them out.
pub uninterp spec fn phf_entries(map: phf::Map<&'static str, &'static str>) -> Seq<
    (Seq<char>, Seq<char>),
>;

/// The pairs of extension and category of a sequence of rules, in the same
/// order.
pub open spec fn pairs(rules: Seq<Rule>) -> Seq<(Seq<char>, Seq<char>)> {
    Seq::new(rules.len(), |i: int| (rules[i].extension@, rules[i].category@))
}

/// The mapping that a sequence of pairs stands for.
pub open spec fn pairs_map(list: Seq<(Seq<char>, Seq<char>)>) -> Map<Seq<char>, Seq<char>>
    decreases list.len(),
{
    if list.len() == 0 {
        Map::empty()
    } else {
        pairs_map(list.drop_last()).insert(list.last().0, list.last().1)
    }
}

/// Walks the map with `phf::Map::entries` and hands each pair out as a rule.
/// The contract names what the map holds.
#[verifier::external_body]
fn entries_of(map: &phf::Map<&'static str, &'static str>) -> (rules: Vec<Rule>)
    ensures
        pairs(rules@) == phf_entries(*map),
{
    map.entries()
        .map(|(key, value)| Rule { extension: key.to_string(), category: value.to_string() })
        .collect()
}

/// The lookup table from extension to category. A later rule for an
/// extension replaces an earlier one.
pub struct CategoryTable {
    rules: Vec<Rule>,
}

/// The category of the extensions that the table does not know, and of those
/// that it lists as belonging to none: the empty text.
pub open spec fn uncategorized() -> Seq<char> {
    Seq::empty()
}

/// The mapping that a sequence of rules stands for.
pub open spec fn rules_map(rules: Seq<Rule>) -> Map<Seq<char>, Seq<char>>
    decreases rules.len(),
{
    if rules.len() == 0 {
        Map::empty()
    } else {
        rules_map(rules.drop_last()).insert(rules.last().extension@, rules.last().category@)
    }
}

/// The category that a mapping gives to an extension.
pub open spec fn category_of(
    table: Map<Seq<char>, Seq<char>>,
    extension: Seq<char>,
) -> Seq<char> {
    if table.contains_key(extension) {
        table[extension]
    } else {
        uncategorized()
    }
}

impl View for CategoryTable {
    type V = Map<Seq<char>, Seq<char>>;

    closed spec fn view(&self) -> Map<Seq<char>, Seq<char>> {
        rules_map(self.rules@)
    }
}

/// Rules stand for the mapping of their pairs.
pub proof fn lemma_rules_pairs(rules: Seq<Rule>)
    ensures
        rules_map(rules) == pairs_map(pairs(rules)),
    decreases rules.len(),
{
    if rules.len() > 0 {
        lemma_rules_pairs(rules.drop_last());
        assert(pairs(rules).drop_last() == pairs(rules.drop_last()));
    }
}

impl CategoryTable {
    /// The table of the pairs that a `phf` map holds.
    pub fn from_map(map: &phf::Map<&'static str, &'static str>) -> (table: CategoryTable)
        ensures
            table@ == pairs_map(phf_entries(*map)),
    {
        let rules = entries_of(map);
        proof {
            lemma_rules_pairs(rules@);
        }
        CategoryTable { rules }
    }

    /// A table without rules: every extension is uncategorized.
    pub fn new() -> (table: CategoryTable)
        ensures
            table@ == Map::<Seq<char>, Seq<char>>::empty(),
    {
        CategoryTable { rules: Vec::new() }
    }

    /// Adds the rule that `extension` belongs to `category`.
    pub fn insert(&mut self, extension: &str, category: &str)
        ensures
            final(self)@ == old(self)@.insert(extension@, category@),
    {
        let ghost before = self.rules@;
        let rule = Rule { extension: extension.to_owned(), category: category.to_owned() };
        self.rules.push(rule);
        assert(self.rules@.drop_last() == before);
    }

    /// The category of an extension: that of the last rule added for it, and
    /// the uncategorized one where there is no such rule.
    pub fn category(&self, extension: &str) -> (label: String)
        ensures
            label@ == category_of(self@, extension@),
    {
        let mut label = String::new();
        let mut i: usize = 0;
        while i < self.rules.len()
            invariant
                i <= self.rules.len(),
                label@ == category_of(rules_map(self.rules@.take(i as int)), extension@),
            decreases self.rules.len() - i,
        {
            proof {
                assert(self.rules@.take(i + 1).drop_last() == self.rules@.take(i as int));
                assert(self.rules@.take(i + 1).last() == self.rules@[i as int]);
            }
            if same_text(self.rules[i].extension.as_str(), extension) {
                label = self.rules[i].category.clone();
            }
            i += 1;
        }
        proof {
            assert(self.rules@.take(i as int) == self.rules@);
        }
        label
    }
}

} // verus!
