use gol::rules::Rule;
use gol::script::{ScriptCall, ScriptResult};

#[test]
fn no_calls_no_requests() {
    let r = ScriptResult::from_calls(vec![]);
    assert!(r.rule.is_none() && r.palette.is_none());
    let d = ScriptResult::default();
    assert!(d.rule.is_none() && d.palette.is_none());
}

#[test]
fn last_request_wins() {
    let r = ScriptResult::from_calls(vec![
        ScriptCall::SetRule("B36/S23".to_string()),
        ScriptCall::SetPalette("Fire".to_string()),
        ScriptCall::SetRuleEx(8, 12),
        ScriptCall::SetPalette("Neon".to_string()),
    ]);
    assert_eq!(r.rule, Some(Rule::conway()));
    assert_eq!(r.palette.as_deref(), Some("Neon"));
}

#[test]
fn bad_rule_text_is_ignored() {
    let mut r = ScriptResult::default();
    r.record(ScriptCall::SetRule("B3/S23".to_string()));
    r.record(ScriptCall::SetRule("nonsense".to_string()));
    assert_eq!(r.rule, Some(Rule::conway()));
    assert!(r.palette.is_none());
}
