//! Decision tables: an ordered list of rules over declared input and output
//! columns, resolved with first-match-wins semantics.

use vstd::prelude::*;

use crate::errors::{EvalError, EvalErrorV};
use crate::facts::FactEnv;
use crate::matcher::{match_rule, rule_matches};

verus! {

/// What the evaluator does when this decision's table reports an error.
#[derive(Debug, Clone, Copy, PartialEq, Eq)]
pub enum ErrorPolicy {
    /// A table-level error aborts the whole run.
    Propagate,
    /// A table-level error is answered with the table's default outputs, if it
    /// has any, and the run continues.
    DefaultAndContinue,
}

/// One named decision table.
pub struct DecisionTable {
    /// The decision's identifier, unique within a model.
    pub id: String,
    /// The columns the rules' leading cells are compared against.
    pub input_columns: Vec<String>,
    /// The columns the rules' trailing cells produce values for.
    pub output_columns: Vec<String>,
    /// Each rule holds one cell per input column followed by one cell per
    /// output column.
    pub rules: Vec<Vec<String>>,
    /// Output values used when no rule matches, or (under
    /// `DefaultAndContinue`) when the table reports an error.
    pub default_outputs: Option<Vec<String>>,
    /// The evaluator's reaction to a table-level error.
    pub on_error: ErrorPolicy,
}

/// The position of the first column not bound in the facts, or -1.
pub open spec fn first_missing(cols: Seq<Seq<char>>, facts: Map<Seq<char>, Seq<char>>) -> int
    decreases cols.len(),
{
    if cols.len() == 0 {
        -1
    } else if !facts.contains_key(cols[0]) {
        0
    } else {
        let r = first_missing(cols.drop_first(), facts);
        if r < 0 {
            -1
        } else {
            r + 1
        }
    }
}

proof fn lemma_first_missing_at(cols: Seq<Seq<char>>, facts: Map<Seq<char>, Seq<char>>, k: int)
    requires
        0 <= k < cols.len(),
        !facts.contains_key(cols[k]),
        forall|j: int| 0 <= j < k ==> facts.contains_key(#[trigger] cols[j]),
    ensures
        first_missing(cols, facts) == k,
    decreases k,
{
    if k > 0 {
        assert(facts.contains_key(cols[0]));
        assert(cols.drop_first()[k - 1] == cols[k]);
        assert forall|j: int| 0 <= j < k - 1 implies facts.contains_key(
            #[trigger] cols.drop_first()[j],
        ) by {
            assert(cols.drop_first()[j] == cols[j + 1]);
        }
        lemma_first_missing_at(cols.drop_first(), facts, k - 1);
    }
}

proof fn lemma_first_missing_none(cols: Seq<Seq<char>>, facts: Map<Seq<char>, Seq<char>>)
    requires
        forall|j: int| 0 <= j < cols.len() ==> facts.contains_key(#[trigger] cols[j]),
    ensures
        first_missing(cols, facts) == -1,
    decreases cols.len(),
{
    if cols.len() > 0 {
        assert(facts.contains_key(cols[0]));
        assert forall|j: int| 0 <= j < cols.drop_first().len() implies facts.contains_key(
            #[trigger] cols.drop_first()[j],
        ) by {
            assert(cols.drop_first()[j] == cols[j + 1]);
        }
        lemma_first_missing_none(cols.drop_first(), facts);
    }
}

/// The position of the first rule that matches the facts, or -1.
pub open spec fn first_match_index(
    rules: Seq<Seq<Seq<char>>>,
    input_columns: Seq<Seq<char>>,
    facts: Map<Seq<char>, Seq<char>>,
) -> int
    decreases rules.len(),
{
    if rules.len() == 0 {
        -1
    } else if rule_matches(rules[0], input_columns, facts) {
        0
    } else {
        let r = first_match_index(rules.drop_first(), input_columns, facts);
        if r < 0 {
            -1
        } else {
            r + 1
        }
    }
}

proof fn lemma_first_match_at(
    rules: Seq<Seq<Seq<char>>>,
    input_columns: Seq<Seq<char>>,
    facts: Map<Seq<char>, Seq<char>>,
    k: int,
)
    requires
        0 <= k < rules.len(),
        rule_matches(rules[k], input_columns, facts),
        forall|j: int| 0 <= j < k ==> !rule_matches(#[trigger] rules[j], input_columns, facts),
    ensures
        first_match_index(rules, input_columns, facts) == k,
    decreases k,
{
    if k > 0 {
        assert(!rule_matches(rules[0], input_columns, facts));
        assert(rules.drop_first()[k - 1] == rules[k]);
        assert forall|j: int| 0 <= j < k - 1 implies !rule_matches(
            #[trigger] rules.drop_first()[j],
            input_columns,
            facts,
        ) by {
            assert(rules.drop_first()[j] == rules[j + 1]);
        }
        lemma_first_match_at(rules.drop_first(), input_columns, facts, k - 1);
    }
}

proof fn lemma_first_match_none(
    rules: Seq<Seq<Seq<char>>>,
    input_columns: Seq<Seq<char>>,
    facts: Map<Seq<char>, Seq<char>>,
)
    requires
        forall|j: int|
            0 <= j < rules.len() ==> !rule_matches(#[trigger] rules[j], input_columns, facts),
    ensures
        first_match_index(rules, input_columns, facts) == -1,
    decreases rules.len(),
{
    if rules.len() > 0 {
        assert(!rule_matches(rules[0], input_columns, facts));
        assert forall|j: int| 0 <= j < rules.drop_first().len() implies !rule_matches(
            #[trigger] rules.drop_first()[j],
            input_columns,
            facts,
        ) by {
            assert(rules.drop_first()[j] == rules[j + 1]);
        }
        lemma_first_match_none(rules.drop_first(), input_columns, facts);
    }
}

/// First-match wins: if a rule at position `i` matches, the selected rule is
/// at a position no later than `i` and itself matches. In particular, of two
/// matching rules the earlier-declared one's outputs are used.
pub proof fn lemma_first_match_wins(
    rules: Seq<Seq<Seq<char>>>,
    input_columns: Seq<Seq<char>>,
    facts: Map<Seq<char>, Seq<char>>,
    i: int,
)
    requires
        0 <= i < rules.len(),
        rule_matches(rules[i], input_columns, facts),
    ensures
        0 <= first_match_index(rules, input_columns, facts) <= i,
        rule_matches(rules[first_match_index(rules, input_columns, facts)], input_columns, facts),
        forall|j: int|
            0 <= j < first_match_index(rules, input_columns, facts) ==> !rule_matches(
                #[trigger] rules[j],
                input_columns,
                facts,
            ),
    decreases i,
{
    if rule_matches(rules[0], input_columns, facts) {
    } else {
        assert(i > 0);
        assert(rules.drop_first()[i - 1] == rules[i]);
        lemma_first_match_wins(rules.drop_first(), input_columns, facts, i - 1);
        let m = first_match_index(rules.drop_first(), input_columns, facts);
        assert(rules.drop_first()[m] == rules[m + 1]);
        assert forall|j: int|
            0 <= j < first_match_index(rules, input_columns, facts) implies !rule_matches(
            #[trigger] rules[j],
            input_columns,
            facts,
        ) by {
            if j > 0 {
                assert(rules.drop_first()[j - 1] == rules[j]);
            }
        }
    }
}

/// Assigns the produced values to the output column names, in order.
pub open spec fn zip_outputs(names: Seq<Seq<char>>, values: Seq<Seq<char>>) -> Seq<
    (Seq<char>, Seq<char>),
> {
    Seq::new(names.len(), |i: int| (names[i], values[i]))
}

/// The table's answer on given facts: the first missing input column as
/// `MissingFact`; else the first matching rule's output cells; else the
/// default outputs; else `NoMatchingRule`.
pub open spec fn spec_eval_table(t: DecisionTable, facts: Map<Seq<char>, Seq<char>>) -> Result<
    Seq<(Seq<char>, Seq<char>)>,
    EvalErrorV,
> {
    let inputs = t.input_columns.deep_view();
    let outputs = t.output_columns.deep_view();
    let miss = first_missing(inputs, facts);
    if miss >= 0 {
        Err(EvalErrorV::MissingFact { decision_id: t.id@, column: inputs[miss] })
    } else {
        let m = first_match_index(t.rules.deep_view(), inputs, facts);
        if m >= 0 {
            Ok(zip_outputs(outputs, t.rules.deep_view()[m].skip(inputs.len() as int)))
        } else {
            match t.default_outputs {
                Some(d) => Ok(zip_outputs(outputs, d.deep_view())),
                None => Err(EvalErrorV::NoMatchingRule { decision_id: t.id@ }),
            }
        }
    }
}

/// A missing required input always surfaces as `MissingFact`, never as
/// `NoMatchingRule` or a silent non-match.
pub proof fn lemma_missing_fact_surfaces(
    t: DecisionTable,
    facts: Map<Seq<char>, Seq<char>>,
    k: int,
)
    requires
        0 <= k < t.input_columns.deep_view().len(),
        !facts.contains_key(t.input_columns.deep_view()[k]),
    ensures
        spec_eval_table(t, facts) matches Err(e) && e is MissingFact && e->MissingFact_decision_id
            == t.id@,
{
    let inputs = t.input_columns.deep_view();
    let miss = first_missing(inputs, facts);
    lemma_first_missing_bounds(inputs, facts);
    if miss < 0 {
        assert(facts.contains_key(inputs[k]));
    }
}

/// `first_missing` is -1 only when every column is bound.
proof fn lemma_first_missing_bounds(cols: Seq<Seq<char>>, facts: Map<Seq<char>, Seq<char>>)
    ensures
        first_missing(cols, facts) == -1 ==> forall|j: int|
            0 <= j < cols.len() ==> facts.contains_key(#[trigger] cols[j]),
        first_missing(cols, facts) >= 0 ==> first_missing(cols, facts) < cols.len()
            && !facts.contains_key(cols[first_missing(cols, facts)]),
    decreases cols.len(),
{
    if cols.len() > 0 && facts.contains_key(cols[0]) {
        lemma_first_missing_bounds(cols.drop_first(), facts);
        let r = first_missing(cols.drop_first(), facts);
        if r < 0 {
            assert forall|j: int| 0 <= j < cols.len() implies facts.contains_key(
                #[trigger] cols[j],
            ) by {
                if j > 0 {
                    assert(cols.drop_first()[j - 1] == cols[j]);
                }
            }
        } else {
            assert(cols.drop_first()[r] == cols[r + 1]);
        }
    }
}

/// Builds the (output column, value) pairs.
pub(crate) fn zip_pairs(names: &Vec<String>, values: &Vec<String>) -> (r: Vec<(String, String)>)
    requires
        names.deep_view().len() == values.deep_view().len(),
    ensures
        r.deep_view() == zip_outputs(names.deep_view(), values.deep_view()),
{
    let mut r: Vec<(String, String)> = Vec::new();
    let mut i: usize = 0;
    while i < names.len()
        invariant
            names.deep_view().len() == values.deep_view().len(),
            i <= names.len(),
            r.deep_view() == zip_outputs(names.deep_view(), values.deep_view()).take(i as int),
        decreases names.len() - i,
    {
        let ghost r0 = r.deep_view();
        r.push((names[i].clone(), values[i].clone()));
        proof {
            assert(r.deep_view() =~= r0.push(
                (names.deep_view()[i as int], values.deep_view()[i as int]),
            ));
            assert(r.deep_view() =~= zip_outputs(names.deep_view(), values.deep_view()).take(
                i as int + 1,
            ));
        }
        i += 1;
    }
    proof {
        assert(r.deep_view() =~= zip_outputs(names.deep_view(), values.deep_view()));
    }
    r
}

impl DecisionTable {
    /// Structural well-formedness: every rule has one cell per declared
    /// column, and the default outputs (if any) cover the output columns.
    pub open spec fn wf(&self) -> bool {
        &&& forall|i: int|
            0 <= i < self.rules.deep_view().len() ==> (#[trigger] self.rules.deep_view()[i]).len()
                == self.input_columns.deep_view().len() + self.output_columns.deep_view().len()
        &&& match self.default_outputs {
            Some(d) => d.deep_view().len() == self.output_columns.deep_view().len(),
            None => true,
        }
    }

    /// Evaluates the table against the facts; the result is exactly
    /// `spec_eval_table`.
    pub fn evaluate(&self, facts: &FactEnv) -> (r: Result<Vec<(String, String)>, EvalError>)
        requires
            self.wf(),
            facts.wf(),
        ensures
            match (r, spec_eval_table(*self, facts@)) {
                (Ok(v), Ok(sv)) => v.deep_view() == sv,
                (Err(e), Err(se)) => e@ == se,
                _ => false,
            },
    {
        let ghost inputs = self.input_columns.deep_view();
        let ghost rules_dv = self.rules.deep_view();
        let mut k: usize = 0;
        while k < self.input_columns.len()
            invariant
                self.wf(),
                facts.wf(),
                inputs == self.input_columns.deep_view(),
                k <= self.input_columns.len(),
                forall|j: int| 0 <= j < k ==> facts@.contains_key(#[trigger] inputs[j]),
            decreases self.input_columns.len() - k,
        {
            let col = &self.input_columns[k];
            if facts.get(col).is_none() {
                proof {
                    lemma_first_missing_at(inputs, facts@, k as int);
                }
                return Err(
                    EvalError::MissingFact {
                        decision_id: self.id.clone(),
                        column: col.clone(),
                    },
                );
            }
            k += 1;
        }
        proof {
            lemma_first_missing_none(inputs, facts@);
        }
        let nin = self.input_columns.len();
        let mut ri: usize = 0;
        while ri < self.rules.len()
            invariant
                self.wf(),
                facts.wf(),
                inputs == self.input_columns.deep_view(),
                rules_dv == self.rules.deep_view(),
                nin == self.input_columns.len(),
                ri <= self.rules.len(),
                forall|j: int| 0 <= j < inputs.len() ==> facts@.contains_key(#[trigger] inputs[j]),
                forall|j: int|
                    0 <= j < ri ==> !rule_matches(#[trigger] rules_dv[j], inputs, facts@),
            decreases self.rules.len() - ri,
        {
            proof {
                assert(self.rules@[ri as int].deep_view() == rules_dv[ri as int]);
            }
            let matched = match_rule(&self.rules[ri], &self.input_columns, facts);
            if let Some(outs) = matched {
                proof {
                    lemma_first_missing_none(inputs, facts@);
                    lemma_first_match_at(rules_dv, inputs, facts@, ri as int);
                    assert(outs.deep_view() == rules_dv[ri as int].skip(inputs.len() as int));
                    assert(outs.deep_view().len() == self.output_columns.deep_view().len());
                }
                return Ok(zip_pairs(&self.output_columns, &outs));
            }
            ri += 1;
        }
        proof {
            lemma_first_match_none(rules_dv, inputs, facts@);
        }
        match &self.default_outputs {
            Some(d) => Ok(zip_pairs(&self.output_columns, d)),
            None => Err(EvalError::NoMatchingRule { decision_id: self.id.clone() }),
        }
    }
}

} // verus!
