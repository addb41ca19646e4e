use herdr_spreader::env::EnvMap;
use herdr_spreader::plugin::plugin_context_id;

#[test]
fn should_read_non_empty_plugin_context_id() {
    let mut env = EnvMap::new();
    env.insert("HERDR_WORKSPACE_ID".into(), "w7".into());

    assert_eq!(plugin_context_id(&env, "HERDR_WORKSPACE_ID").unwrap(), "w7");
}

#[test]
fn should_reject_missing_or_empty_plugin_context_id() {
    assert!(plugin_context_id(&EnvMap::new(), "HERDR_WORKSPACE_ID").is_err());

    let mut env = EnvMap::new();
    env.insert("HERDR_WORKSPACE_ID".into(), String::new());
    assert!(plugin_context_id(&env, "HERDR_WORKSPACE_ID").is_err());
}
