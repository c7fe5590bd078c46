use dmn_engine::adapter::{parse_input, parse_model, RawDecision};
use dmn_engine::errors::EvalError;
use dmn_engine::table::ErrorPolicy;

fn s(x: &str) -> String {
    x.to_string()
}

fn ss(xs: &[&str]) -> Vec<String> {
    xs.iter().map(|x| x.to_string()).collect()
}

fn rows(rs: &[&[&str]]) -> Vec<Vec<String>> {
    rs.iter().map(|r| ss(r)).collect()
}

fn decision(id: &str, rules: Vec<Vec<String>>) -> RawDecision {
    RawDecision {
        id: s(id),
        input_columns: ss(&["systemStatus", "requestType"]),
        output_columns: ss(&["route"]),
        rules,
        default_outputs: None,
        on_error: ErrorPolicy::Propagate,
    }
}

#[test]
fn well_shaped_model_parses() {
    let raw = vec![decision(
        "dec-requestRouting",
        rows(&[&["active", "query", "route-fast"], &["-", "-", "route-default"]]),
    )];
    let m = parse_model(&raw).unwrap();
    assert_eq!(m.decisions.len(), 1);
    assert_eq!(m.decisions[0].id, s("dec-requestRouting"));
    assert_eq!(m.decisions[0].rules.len(), 2);
}

#[test]
fn short_rule_row_is_malformed() {
    let raw = vec![decision(
        "dec-requestRouting",
        rows(&[&["active", "query"]]),
    )];
    let r = parse_model(&raw);
    assert!(matches!(r, Err(EvalError::MalformedModel { .. })));
}

#[test]
fn long_rule_row_is_malformed() {
    let raw = vec![decision(
        "dec-requestRouting",
        rows(&[&["active", "query", "route-fast", "extra"]]),
    )];
    let r = parse_model(&raw);
    assert!(matches!(r, Err(EvalError::MalformedModel { .. })));
}

#[test]
fn duplicate_decision_id_is_malformed() {
    let raw = vec![
        decision("dec-requestRouting", rows(&[&["-", "-", "a"]])),
        decision("dec-requestRouting", rows(&[&["-", "-", "b"]])),
    ];
    let r = parse_model(&raw);
    assert!(matches!(r, Err(EvalError::MalformedModel { .. })));
}

#[test]
fn default_outputs_must_cover_output_columns() {
    let mut d = decision("dec-requestRouting", rows(&[&["-", "-", "a"]]));
    d.default_outputs = Some(ss(&["x", "y"]));
    let r = parse_model(&vec![d]);
    assert!(matches!(r, Err(EvalError::MalformedModel { .. })));
}

#[test]
fn empty_model_parses() {
    let m = parse_model(&Vec::new()).unwrap();
    assert_eq!(m.decisions.len(), 0);
}

#[test]
fn input_record_parses_to_its_facts() {
    let pairs = vec![(s("systemStatus"), s("active")), (s("requestType"), s("query"))];
    let env = parse_input(&pairs).unwrap();
    assert_eq!(env.get(&s("systemStatus")), Some(&s("active")));
    assert_eq!(env.get(&s("requestType")), Some(&s("query")));
    assert_eq!(env.get(&s("absent")), None);
}

#[test]
fn duplicate_input_name_is_malformed() {
    let pairs = vec![(s("systemStatus"), s("active")), (s("systemStatus"), s("down"))];
    let r = parse_input(&pairs);
    assert!(matches!(r, Err(EvalError::MalformedModel { .. })));
}
