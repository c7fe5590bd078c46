use dmn_engine::adapter::{parse_input, parse_model, RawDecision};
use dmn_engine::engine::run;
use dmn_engine::errors::EvalError;
use dmn_engine::facts::FactEnv;
use dmn_engine::table::ErrorPolicy;

fn s(x: &str) -> String {
    x.to_string()
}

fn ss(xs: &[&str]) -> Vec<String> {
    xs.iter().map(|x| x.to_string()).collect()
}

fn rows(rs: &[&[&str]]) -> Vec<Vec<String>> {
    rs.iter().map(|r| ss(r)).collect()
}

fn facts(pairs: &[(&str, &str)]) -> FactEnv {
    let v: Vec<(String, String)> = pairs.iter().map(|(k, v)| (s(k), s(v))).collect();
    parse_input(&v).expect("input record should parse")
}

fn routing_decision() -> RawDecision {
    RawDecision {
        id: s("dec-requestRouting"),
        input_columns: ss(&["systemStatus", "requestType"]),
        output_columns: ss(&["route"]),
        rules: rows(&[
            &["active", "query", "route-fast"],
            &["-", "-", "route-default"],
        ]),
        default_outputs: None,
        on_error: ErrorPolicy::Propagate,
    }
}

#[test]
fn route_fast_on_active_query() {
    let model = parse_model(&vec![routing_decision()]).unwrap();
    let env = facts(&[("systemStatus", "active"), ("requestType", "query")]);
    let r = run(&model, env, &ss(&["route"]), &facts(&[])).unwrap();
    assert_eq!(r, vec![(s("route"), s("route-fast"))]);
}

#[test]
fn wildcard_row_catches_unmatched_facts() {
    let model = parse_model(&vec![routing_decision()]).unwrap();
    let env = facts(&[("systemStatus", "down"), ("requestType", "query")]);
    let r = run(&model, env, &ss(&["route"]), &facts(&[])).unwrap();
    assert_eq!(r, vec![(s("route"), s("route-default"))]);
}

#[test]
fn evaluation_is_deterministic() {
    let model = parse_model(&vec![routing_decision()]).unwrap();
    let env1 = facts(&[("systemStatus", "active"), ("requestType", "batch")]);
    let env2 = facts(&[("systemStatus", "active"), ("requestType", "batch")]);
    let r1 = run(&model, env1, &ss(&["route"]), &facts(&[]));
    let r2 = run(&model, env2, &ss(&["route"]), &facts(&[]));
    assert_eq!(r1, r2);
}

#[test]
fn earlier_matching_rule_wins() {
    let dec = RawDecision {
        id: s("dec-requestRouting"),
        input_columns: ss(&["systemStatus", "requestType"]),
        output_columns: ss(&["route"]),
        rules: rows(&[
            &["active", "-", "route-first"],
            &["active", "query", "route-second"],
        ]),
        default_outputs: None,
        on_error: ErrorPolicy::Propagate,
    };
    let model = parse_model(&vec![dec]).unwrap();
    let env = facts(&[("systemStatus", "active"), ("requestType", "query")]);
    let r = run(&model, env, &ss(&["route"]), &facts(&[])).unwrap();
    assert_eq!(r, vec![(s("route"), s("route-first"))]);
}

#[test]
fn all_wildcard_rule_matches_any_facts() {
    let dec = RawDecision {
        id: s("dec-anything"),
        input_columns: ss(&["a", "b", "c"]),
        output_columns: ss(&["out"]),
        rules: rows(&[&["-", "-", "-", "matched"]]),
        default_outputs: None,
        on_error: ErrorPolicy::Propagate,
    };
    let model = parse_model(&vec![dec]).unwrap();
    let env = facts(&[("a", "zebra"), ("b", ""), ("c", "-")]);
    let r = run(&model, env, &ss(&["out"]), &facts(&[])).unwrap();
    assert_eq!(r, vec![(s("out"), s("matched"))]);
}

#[test]
fn no_matching_rule_names_the_decision() {
    let dec = RawDecision {
        id: s("dec-requestRouting"),
        input_columns: ss(&["systemStatus"]),
        output_columns: ss(&["route"]),
        rules: rows(&[&["active", "route-fast"]]),
        default_outputs: None,
        on_error: ErrorPolicy::Propagate,
    };
    let model = parse_model(&vec![dec]).unwrap();
    let env = facts(&[("systemStatus", "down")]);
    let r = run(&model, env, &ss(&["route"]), &facts(&[]));
    assert_eq!(
        r,
        Err(EvalError::NoMatchingRule { decision_id: s("dec-requestRouting") })
    );
}

#[test]
fn missing_fact_is_not_a_non_match() {
    let dec = RawDecision {
        id: s("dec-skillPolicy"),
        input_columns: ss(&["skillCategory"]),
        output_columns: ss(&["policy"]),
        rules: rows(&[&["-", "allow"]]),
        default_outputs: None,
        on_error: ErrorPolicy::Propagate,
    };
    let model = parse_model(&vec![dec]).unwrap();
    let env = facts(&[("somethingElse", "x")]);
    let r = run(&model, env, &ss(&["policy"]), &facts(&[]));
    assert_eq!(
        r,
        Err(EvalError::MissingFact {
            decision_id: s("dec-skillPolicy"),
            column: s("skillCategory"),
        })
    );
}

#[test]
fn later_producer_is_reordered_before_consumer() {
    let orchestration = RawDecision {
        id: s("dec-orchestrationPlan"),
        input_columns: ss(&["route", "policy"]),
        output_columns: ss(&["plan", "action"]),
        rules: rows(&[
            &["route-fast", "allow", "plan-direct", "go"],
            &["-", "-", "plan-careful", "hold"],
        ]),
        default_outputs: None,
        on_error: ErrorPolicy::Propagate,
    };
    let policy = RawDecision {
        id: s("dec-skillPolicy"),
        input_columns: ss(&["skillCategory"]),
        output_columns: ss(&["policy"]),
        rules: rows(&[&["-", "allow"]]),
        default_outputs: None,
        on_error: ErrorPolicy::Propagate,
    };
    // The consumer is declared first; the producers must still run first.
    let model = parse_model(&vec![orchestration, routing_decision(), policy]).unwrap();
    let env = facts(&[
        ("systemStatus", "active"),
        ("requestType", "query"),
        ("skillCategory", "general"),
    ]);
    let r = run(&model, env, &ss(&["plan", "action"]), &facts(&[])).unwrap();
    assert_eq!(r, vec![(s("plan"), s("plan-direct")), (s("action"), s("go"))]);
}

#[test]
fn two_producers_of_one_name_always_clash() {
    let mut second = routing_decision();
    second.id = s("dec-secondRouting");
    let model = parse_model(&vec![routing_decision(), second]).unwrap();
    let env = facts(&[("systemStatus", "active"), ("requestType", "query")]);
    let r = run(&model, env, &ss(&["route"]), &facts(&[]));
    assert_eq!(r, Err(EvalError::DuplicateOutput { name: s("route") }));
}

#[test]
fn producing_an_initial_fact_clashes() {
    let model = parse_model(&vec![routing_decision()]).unwrap();
    let env = facts(&[
        ("systemStatus", "active"),
        ("requestType", "query"),
        ("route", "preset"),
    ]);
    let r = run(&model, env, &ss(&["route"]), &facts(&[]));
    assert_eq!(r, Err(EvalError::DuplicateOutput { name: s("route") }));
}

#[test]
fn cyclic_dependency_reports_the_members() {
    let a = RawDecision {
        id: s("dec-alpha"),
        input_columns: ss(&["beta"]),
        output_columns: ss(&["alpha"]),
        rules: rows(&[&["-", "x"]]),
        default_outputs: None,
        on_error: ErrorPolicy::Propagate,
    };
    let b = RawDecision {
        id: s("dec-beta"),
        input_columns: ss(&["alpha"]),
        output_columns: ss(&["beta"]),
        rules: rows(&[&["-", "y"]]),
        default_outputs: None,
        on_error: ErrorPolicy::Propagate,
    };
    let model = parse_model(&vec![a, b]).unwrap();
    let r = run(&model, facts(&[]), &ss(&["alpha"]), &facts(&[]));
    assert_eq!(
        r,
        Err(EvalError::CyclicDependency { ids: ss(&["dec-alpha", "dec-beta"]) })
    );
}

#[test]
fn table_defaults_cover_a_no_match() {
    let dec = RawDecision {
        id: s("dec-agentCapacity"),
        input_columns: ss(&["agentLoad"]),
        output_columns: ss(&["capacity"]),
        rules: rows(&[&["low", "light"]]),
        default_outputs: Some(ss(&["heavy"])),
        on_error: ErrorPolicy::Propagate,
    };
    let model = parse_model(&vec![dec]).unwrap();
    let env = facts(&[("agentLoad", "high")]);
    let r = run(&model, env, &ss(&["capacity"]), &facts(&[])).unwrap();
    assert_eq!(r, vec![(s("capacity"), s("heavy"))]);
}

#[test]
fn default_and_continue_covers_a_missing_fact() {
    let dec = RawDecision {
        id: s("dec-agentCapacity"),
        input_columns: ss(&["agentLoad"]),
        output_columns: ss(&["capacity"]),
        rules: rows(&[&["low", "light"]]),
        default_outputs: Some(ss(&["heavy"])),
        on_error: ErrorPolicy::DefaultAndContinue,
    };
    let model = parse_model(&vec![dec]).unwrap();
    let env = facts(&[("unrelated", "x")]);
    let r = run(&model, env, &ss(&["capacity"]), &facts(&[])).unwrap();
    assert_eq!(r, vec![(s("capacity"), s("heavy"))]);
}

#[test]
fn registry_supplies_an_unproduced_export() {
    let model = parse_model(&vec![routing_decision()]).unwrap();
    let env = facts(&[("systemStatus", "active"), ("requestType", "query")]);
    let registry = facts(&[("policy", "deny")]);
    let r = run(&model, env, &ss(&["route", "policy"]), &registry).unwrap();
    assert_eq!(r, vec![(s("route"), s("route-fast")), (s("policy"), s("deny"))]);
}

#[test]
fn export_with_no_value_anywhere_is_missing() {
    let model = parse_model(&vec![routing_decision()]).unwrap();
    let env = facts(&[("systemStatus", "active"), ("requestType", "query")]);
    let r = run(&model, env, &ss(&["route", "policy"]), &facts(&[]));
    assert_eq!(
        r,
        Err(EvalError::MissingFact { decision_id: s(""), column: s("policy") })
    );
}

#[test]
fn four_stage_pipeline_resolves_all_exports() {
    let routing = routing_decision();
    let policy = RawDecision {
        id: s("dec-skillPolicy"),
        input_columns: ss(&["skillCategory", "securityLevel"]),
        output_columns: ss(&["policy"]),
        rules: rows(&[
            &["technical", "high", "policy-strict"],
            &["-", "-", "policy-open"],
        ]),
        default_outputs: Some(ss(&["deny"])),
        on_error: ErrorPolicy::DefaultAndContinue,
    };
    let capacity = RawDecision {
        id: s("dec-agentCapacity"),
        input_columns: ss(&["agentLoad", "contextComplexity"]),
        output_columns: ss(&["capacity"]),
        rules: rows(&[
            &["low", "simple", "light"],
            &["-", "-", "heavy"],
        ]),
        default_outputs: Some(ss(&["heavy"])),
        on_error: ErrorPolicy::DefaultAndContinue,
    };
    let orchestration = RawDecision {
        id: s("dec-orchestrationPlan"),
        input_columns: ss(&["route", "policy", "capacity"]),
        output_columns: ss(&["plan", "action"]),
        rules: rows(&[
            &["route-fast", "policy-open", "light", "plan-direct", "execute"],
            &["-", "-", "-", "plan-review", "queue"],
        ]),
        default_outputs: Some(ss(&["deny", "stop"])),
        on_error: ErrorPolicy::DefaultAndContinue,
    };
    let model = parse_model(&vec![routing, policy, capacity, orchestration]).unwrap();
    let env = facts(&[
        ("systemStatus", "active"),
        ("requestType", "query"),
        ("skillCategory", "general"),
        ("securityLevel", "low"),
        ("agentLoad", "low"),
        ("contextComplexity", "simple"),
    ]);
    let registry = facts(&[
        ("route", "reject"),
        ("policy", "deny"),
        ("capacity", "heavy"),
        ("plan", "deny"),
        ("action", "stop"),
    ]);
    let exports = ss(&["route", "policy", "capacity", "plan", "action"]);
    let r = run(&model, env, &exports, &registry).unwrap();
    assert_eq!(
        r,
        vec![
            (s("route"), s("route-fast")),
            (s("policy"), s("policy-open")),
            (s("capacity"), s("light")),
            (s("plan"), s("plan-direct")),
            (s("action"), s("execute")),
        ]
    );
}
