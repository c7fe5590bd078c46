//! Validation of the externally supplied model and input record. Parsing
//! here means checking the structural shape — cell counts, identifier
//! uniqueness, size bounds — that the evaluator's contracts rely on.

use vstd::prelude::*;

use crate::engine::DecisionModel;
use crate::errors::{EvalError, EvalErrorV};
use crate::facts::{lemma_pairs_to_map_contains, pairs_to_map, unique_keys, FactEnv};
use crate::matcher::string_eq;
use crate::table::{DecisionTable, ErrorPolicy};

verus! {

/// The largest accepted rule count per table: a defensive bound on the work
/// one evaluation can take.
pub const MAX_RULES_PER_TABLE: usize = 65536;

/// One decision definition as it arrives from outside, before validation.
pub struct RawDecision {
    pub id: String,
    pub input_columns: Vec<String>,
    pub output_columns: Vec<String>,
    pub rules: Vec<Vec<String>>,
    pub default_outputs: Option<Vec<String>>,
    pub on_error: ErrorPolicy,
}

/// The structural shape a single decision must have.
pub open spec fn raw_decision_ok(d: RawDecision) -> bool {
    &&& forall|i: int|
        0 <= i < d.rules.deep_view().len() ==> (#[trigger] d.rules.deep_view()[i]).len()
            == d.input_columns.deep_view().len() + d.output_columns.deep_view().len()
    &&& match d.default_outputs {
        Some(x) => x.deep_view().len() == d.output_columns.deep_view().len(),
        None => true,
    }
    &&& d.rules.deep_view().len() <= MAX_RULES_PER_TABLE as int
}

/// Decision identifiers are unique.
pub open spec fn raw_ids_unique(ds: Seq<RawDecision>) -> bool {
    forall|i: int, j: int|
        0 <= i < j < ds.len() ==> (#[trigger] ds[i]).id@ != (#[trigger] ds[j]).id@
}

/// The structural shape a whole model must have.
pub open spec fn raw_model_ok(ds: Seq<RawDecision>) -> bool {
    (forall|i: int| 0 <= i < ds.len() ==> raw_decision_ok(#[trigger] ds[i])) && raw_ids_unique(ds)
}

/// The parsed table carries exactly the raw decision's content.
pub open spec fn table_matches_raw(t: DecisionTable, d: RawDecision) -> bool {
    &&& t.id@ == d.id@
    &&& t.input_columns.deep_view() == d.input_columns.deep_view()
    &&& t.output_columns.deep_view() == d.output_columns.deep_view()
    &&& t.rules.deep_view() == d.rules.deep_view()
    &&& match (t.default_outputs, d.default_outputs) {
        (Some(a), Some(b)) => a.deep_view() == b.deep_view(),
        (None, None) => true,
        _ => false,
    }
    &&& t.on_error == d.on_error
}

fn malformed(msg: &str) -> (e: EvalError)
    ensures
        e@ is MalformedModel,
{
    EvalError::MalformedModel { detail: msg.to_owned() }
}

fn clone_strings(v: &Vec<String>) -> (r: Vec<String>)
    ensures
        r.deep_view() == v.deep_view(),
{
    let mut r: Vec<String> = Vec::new();
    let mut i: usize = 0;
    while i < v.len()
        invariant
            i <= v@.len(),
            r.deep_view() == v.deep_view().take(i as int),
        decreases v@.len() - i,
    {
        let ghost r0 = r.deep_view();
        r.push(v[i].clone());
        proof {
            assert(r.deep_view() =~= r0.push(v.deep_view()[i as int]));
            assert(r.deep_view() =~= v.deep_view().take(i as int + 1));
        }
        i += 1;
    }
    proof {
        assert(r.deep_view() =~= v.deep_view());
    }
    r
}

fn clone_rules(v: &Vec<Vec<String>>) -> (r: Vec<Vec<String>>)
    ensures
        r.deep_view() == v.deep_view(),
{
    let mut r: Vec<Vec<String>> = Vec::new();
    let mut i: usize = 0;
    while i < v.len()
        invariant
            i <= v@.len(),
            r.deep_view() == v.deep_view().take(i as int),
        decreases v@.len() - i,
    {
        let ghost r0 = r.deep_view();
        r.push(clone_strings(&v[i]));
        proof {
            assert(v@[i as int].deep_view() == v.deep_view()[i as int]);
            assert(r.deep_view() =~= r0.push(v.deep_view()[i as int]));
            assert(r.deep_view() =~= v.deep_view().take(i as int + 1));
        }
        i += 1;
    }
    proof {
        assert(r.deep_view() =~= v.deep_view());
    }
    r
}

/// Validates the raw decisions and builds the model. Succeeds exactly on a
/// well-shaped model; any shape violation is `MalformedModel`, found before
/// any evaluation.
pub fn parse_model(raw: &Vec<RawDecision>) -> (r: Result<DecisionModel, EvalError>)
    ensures
        match r {
            Ok(m) => raw_model_ok(raw@) && m.wf() && m.decisions@.len() == raw@.len() && (forall|
                i: int,
            |
                0 <= i < raw@.len() ==> table_matches_raw(
                    #[trigger] m.decisions@[i],
                    raw@[i],
                )),
            Err(e) => !raw_model_ok(raw@) && e@ is MalformedModel,
        },
{
    let mut tables: Vec<DecisionTable> = Vec::new();
    let mut i: usize = 0;
    while i < raw.len()
        invariant
            i <= raw@.len(),
            tables@.len() == i,
            forall|k: int| 0 <= k < i ==> raw_decision_ok(#[trigger] raw@[k]),
            forall|k1: int, k2: int| 0 <= k1 < k2 < i ==> raw@[k1].id@ != raw@[k2].id@,
            forall|k: int|
                0 <= k < i ==> table_matches_raw(#[trigger] tables@[k], raw@[k]),
            forall|k: int| 0 <= k < i ==> (#[trigger] tables@[k]).wf(),
        decreases raw@.len() - i,
    {
        let d = &raw[i];
        let mut j: usize = 0;
        while j < tables.len()
            invariant
                i < raw@.len(),
                tables@.len() == i,
                d == &raw@[i as int],
                forall|k: int|
                    0 <= k < i ==> table_matches_raw(#[trigger] tables@[k], raw@[k]),
                j <= i,
                forall|k: int| 0 <= k < j ==> raw@[k].id@ != raw@[i as int].id@,
            decreases i - j,
        {
            if string_eq(&tables[j].id, &d.id) {
                proof {
                    assert(raw@[j as int].id@ == raw@[i as int].id@);
                    assert(!raw_ids_unique(raw@));
                }
                return Err(malformed("duplicate decision identifier"));
            }
            j += 1;
        }
        if d.rules.len() > MAX_RULES_PER_TABLE {
            proof {
                assert(!raw_decision_ok(raw@[i as int]));
            }
            return Err(malformed("more rules than the accepted bound"));
        }
        let nin = d.input_columns.len();
        let nout = d.output_columns.len();
        let mut ri: usize = 0;
        while ri < d.rules.len()
            invariant
                i < raw@.len(),
                d == &raw@[i as int],
                nin == d.input_columns@.len(),
                nout == d.output_columns@.len(),
                ri <= d.rules@.len(),
                forall|k: int|
                    0 <= k < ri ==> (#[trigger] d.rules.deep_view()[k]).len() == nin + nout,
            decreases d.rules@.len() - ri,
        {
            let rl = d.rules[ri].len();
            if !(rl >= nin && rl - nin == nout) {
                proof {
                    assert(d.rules.deep_view()[ri as int].len() == d.rules@[ri as int]@.len());
                    assert(!raw_decision_ok(raw@[i as int]));
                }
                return Err(malformed("rule cell count does not match the declared columns"));
            }
            proof {
                assert(d.rules.deep_view()[ri as int].len() == d.rules@[ri as int]@.len());
            }
            ri += 1;
        }
        let defaults_ok = match &d.default_outputs {
            Some(x) => x.len() == nout,
            None => true,
        };
        if !defaults_ok {
            proof {
                assert(!raw_decision_ok(raw@[i as int]));
            }
            return Err(malformed("default outputs do not cover the output columns"));
        }
        let t = DecisionTable {
            id: d.id.clone(),
            input_columns: clone_strings(&d.input_columns),
            output_columns: clone_strings(&d.output_columns),
            rules: clone_rules(&d.rules),
            default_outputs: match &d.default_outputs {
                Some(x) => Some(clone_strings(x)),
                None => None,
            },
            on_error: d.on_error,
        };
        proof {
            assert(table_matches_raw(t, raw@[i as int]));
            assert(raw_decision_ok(raw@[i as int]));
            assert(t.wf());
        }
        tables.push(t);
        i += 1;
    }
    let m = DecisionModel { decisions: tables };
    proof {
        assert forall|k1: int, k2: int| 0 <= k1 < k2 < m.decisions@.len() implies (
        #[trigger] m.decisions@[k1]).id@ != (#[trigger] m.decisions@[k2]).id@ by {
            assert(table_matches_raw(m.decisions@[k1], raw@[k1]));
            assert(table_matches_raw(m.decisions@[k2], raw@[k2]));
        }
        assert(m.wf());
    }
    Ok(m)
}

/// Builds the initial fact environment from the caller's flat input record.
/// Succeeds exactly when the record's names are unique.
pub fn parse_input(pairs: &Vec<(String, String)>) -> (r: Result<FactEnv, EvalError>)
    ensures
        match r {
            Ok(env) => env.wf() && unique_keys(pairs.deep_view()) && env@ == pairs_to_map(
                pairs.deep_view(),
            ),
            Err(e) => !unique_keys(pairs.deep_view()) && e@ is MalformedModel,
        },
{
    let ghost dv = pairs.deep_view();
    let mut env = FactEnv::new();
    proof {
        assert(dv.take(0) =~= Seq::<(Seq<char>, Seq<char>)>::empty());
    }
    let mut i: usize = 0;
    while i < pairs.len()
        invariant
            dv == pairs.deep_view(),
            i <= pairs@.len(),
            env.wf(),
            unique_keys(dv.take(i as int)),
            env@ == pairs_to_map(dv.take(i as int)),
        decreases pairs@.len() - i,
    {
        proof {
            assert(pairs@[i as int].0@ == dv[i as int].0);
            assert(pairs@[i as int].1@ == dv[i as int].1);
        }
        let name = pairs[i].0.clone();
        let value = pairs[i].1.clone();
        match env.insert_once(name, value) {
            Ok(()) => {
                proof {
                    assert(dv.take(i as int + 1).drop_last() =~= dv.take(i as int));
                    assert(dv.take(i as int + 1).last() == dv[i as int]);
                    lemma_pairs_to_map_contains(dv.take(i as int), dv[i as int].0);
                    assert forall|k1: int, k2: int|
                        0 <= k1 < k2 < i as int + 1 implies (#[trigger] dv.take(i as int + 1)[k1]).0
                        != (#[trigger] dv.take(i as int + 1)[k2]).0 by {
                        if k2 < i as int {
                            assert(dv.take(i as int)[k1] == dv.take(i as int + 1)[k1]);
                            assert(dv.take(i as int)[k2] == dv.take(i as int + 1)[k2]);
                        } else {
                            assert(dv.take(i as int + 1)[k2] == dv[i as int]);
                            assert(dv.take(i as int)[k1] == dv.take(i as int + 1)[k1]);
                        }
                    }
                }
            },
            Err(_) => {
                proof {
                    lemma_pairs_to_map_contains(dv.take(i as int), dv[i as int].0);
                    let k = choose|k: int|
                        0 <= k < dv.take(i as int).len() && (#[trigger] dv.take(i as int)[k]).0
                            == dv[i as int].0;
                    assert(dv[k].0 == dv[i as int].0);
                    assert(!unique_keys(dv));
                }
                return Err(malformed("duplicate name in the input record"));
            },
        }
        i += 1;
    }
    proof {
        assert(dv.take(pairs@.len() as int) =~= dv);
    }
    Ok(env)
}

} // verus!
