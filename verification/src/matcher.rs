//! Rule matching: one rule's input cells against a fact mapping, with
//! wildcard unification.

use vstd::prelude::*;

use crate::facts::FactEnv;

verus! {

/// The cell literal that matches any fact value.
pub open spec fn wildcard() -> Seq<char> {
    seq!['-']
}

/// One rule cell matches a fact value if it is the wildcard or equal to it.
pub open spec fn cell_matches(cell: Seq<char>, value: Seq<char>) -> bool {
    cell == wildcard() || cell == value
}

/// A rule matches a fact mapping when, at every input column position, the
/// rule's cell matches the fact bound to that column.
pub open spec fn rule_matches(
    rule: Seq<Seq<char>>,
    input_columns: Seq<Seq<char>>,
    facts: Map<Seq<char>, Seq<char>>,
) -> bool {
    forall|i: int|
        0 <= i < input_columns.len() ==> cell_matches(#[trigger] rule[i], facts[input_columns[i]])
}

/// Wildcard absorption: a rule whose every input cell is the wildcard matches
/// any fact mapping.
pub proof fn lemma_wildcard_absorption(
    rule: Seq<Seq<char>>,
    input_columns: Seq<Seq<char>>,
    facts: Map<Seq<char>, Seq<char>>,
)
    requires
        forall|i: int| 0 <= i < input_columns.len() ==> #[trigger] rule[i] == wildcard(),
    ensures
        rule_matches(rule, input_columns, facts),
{
}

/// String equality, reflected as equality of the character sequences.
pub fn string_eq(a: &String, b: &String) -> (r: bool)
    ensures
        r == (a@ == b@),
{
    a.eq(b)
}

/// Whether a cell is the wildcard literal.
pub fn is_wildcard(cell: &String) -> (r: bool)
    ensures
        r == (cell@ == wildcard()),
{
    proof {
        reveal_strlit("-");
    }
    let w: String = "-".to_owned();
    proof {
        assert(w@ =~= wildcard());
    }
    string_eq(cell, &w)
}

/// Matches one rule against the facts. On a match, returns the rule's output
/// cells (the cells past the input columns) unmodified.
pub fn match_rule(rule: &Vec<String>, input_columns: &Vec<String>, facts: &FactEnv) -> (r: Option<
    Vec<String>,
>)
    requires
        facts.wf(),
        input_columns.deep_view().len() <= rule.deep_view().len(),
        forall|i: int|
            0 <= i < input_columns.deep_view().len() ==> facts@.contains_key(
                #[trigger] input_columns.deep_view()[i],
            ),
    ensures
        match r {
            Some(outs) => rule_matches(rule.deep_view(), input_columns.deep_view(), facts@)
                && outs.deep_view() == rule.deep_view().skip(
                input_columns.deep_view().len() as int,
            ),
            None => !rule_matches(rule.deep_view(), input_columns.deep_view(), facts@),
        },
{
    let ghost rv = rule.deep_view();
    let ghost cv = input_columns.deep_view();
    let mut i: usize = 0;
    while i < input_columns.len()
        invariant
            facts.wf(),
            rv == rule.deep_view(),
            cv == input_columns.deep_view(),
            cv.len() <= rv.len(),
            i <= input_columns.len(),
            forall|k: int|
                0 <= k < cv.len() ==> facts@.contains_key(
                    #[trigger] input_columns.deep_view()[k],
                ),
            forall|j: int| 0 <= j < i ==> cell_matches(#[trigger] rv[j], facts@[cv[j]]),
        decreases input_columns.len() - i,
    {
        proof {
            assert(input_columns@[i as int]@ == cv[i as int]);
            assert(rule@[i as int]@ == rv[i as int]);
        }
        let cell = &rule[i];
        let value = facts.lookup(&input_columns[i]);
        let hit = is_wildcard(cell) || string_eq(cell, value);
        if !hit {
            proof {
                assert(!cell_matches(rv[i as int], facts@[cv[i as int]]));
            }
            return None;
        }
        i += 1;
    }
    let mut outs: Vec<String> = Vec::new();
    let mut j: usize = input_columns.len();
    while j < rule.len()
        invariant
            rv == rule.deep_view(),
            cv == input_columns.deep_view(),
            cv.len() <= j <= rule.len(),
            outs.deep_view() == rv.subrange(cv.len() as int, j as int),
        decreases rule.len() - j,
    {
        let ghost outs0 = outs.deep_view();
        outs.push(rule[j].clone());
        proof {
            assert(outs.deep_view() =~= outs0.push(rv[j as int]));
            assert(outs.deep_view() =~= rv.subrange(cv.len() as int, j as int + 1));
        }
        j += 1;
    }
    proof {
        assert(outs.deep_view() =~= rv.skip(cv.len() as int));
    }
    Some(outs)
}

} // verus!
