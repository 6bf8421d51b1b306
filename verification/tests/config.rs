use kimi_agent::config::{
    config_document, get_default_config, load_config_from_string, save_format, Config, ConfigFormat, LoopControl,
    MCPConfig,
    Services,
};
use kimi_agent::json::{JsonNumber, JsonValue};

fn to_serde(v: &JsonValue) -> serde_json::Value {
    match v {
        JsonValue::Null => serde_json::Value::Null,
        JsonValue::Bool(b) => serde_json::Value::Bool(*b),
        JsonValue::Number(JsonNumber::PosInt(u)) => serde_json::Value::from(*u),
        JsonValue::Number(JsonNumber::NegInt(i)) => serde_json::Value::from(*i),
        JsonValue::Number(JsonNumber::Float(bits)) => serde_json::Value::from(f64::from_bits(*bits)),
        JsonValue::String(s) => serde_json::Value::String(s.clone()),
        JsonValue::Array(items) => serde_json::Value::Array(items.iter().map(to_serde).collect()),
        JsonValue::Object(entries) => {
            let mut map = serde_json::Map::new();
            for (k, v) in entries {
                map.insert(k.clone(), to_serde(v));
            }
            serde_json::Value::Object(map)
        }
    }
}

#[test]
fn test_default_config() {
    let config = get_default_config();
    let expected = Config {
        is_from_default_location: false,
        source_file: None,
        default_model: String::new(),
        default_thinking: false,
        models: Vec::new(),
        providers: Vec::new(),
        loop_control: LoopControl::default(),
        services: Services::default(),
        mcp: MCPConfig::default(),
    };
    assert_eq!(config, expected);
}

#[test]
fn test_load_config_text_toml() {
    let config = load_config_from_string("default_model = \"\"").expect("load toml");
    assert_eq!(config, get_default_config());
}

#[test]
fn test_load_config_text_json() {
    let config = load_config_from_string("{\"default_model\": \"\"}").expect("load json");
    assert_eq!(config, get_default_config());
}

#[test]
fn test_load_config_text_invalid() {
    let err = load_config_from_string("not valid {").expect_err("invalid config");
    assert!(err.to_string().contains("Invalid configuration text"));
}

#[test]
fn test_load_config_text_invalid_compound_error_literal() {
    let err = load_config_from_string("not valid {").expect_err("invalid config");
    let err_msg = err.to_string();
    assert!(
        err_msg.starts_with("Invalid configuration text: "),
        "unexpected error format: {err_msg}"
    );
    assert!(
        err_msg.contains("(char "),
        "unexpected error format: {err_msg}"
    );
    assert!(
        err_msg.contains("; TOML parse error"),
        "unexpected error format: {err_msg}"
    );
}

#[test]
fn test_load_config_invalid_ralph_iterations() {
    let err = load_config_from_string("{\"loop_control\": {\"max_ralph_iterations\": -2}}")
        .expect_err("invalid ralph iterations");
    assert!(err.to_string().contains("max_ralph_iterations"));
}

#[test]
fn test_load_config_reserved_context_size() {
    let config = load_config_from_string("{\"loop_control\": {\"reserved_context_size\": 30000}}")
        .expect("load config");
    assert_eq!(config.loop_control.reserved_context_size, 30000);
}

#[test]
fn test_load_config_reserved_context_size_too_low() {
    let err = load_config_from_string("{\"loop_control\": {\"reserved_context_size\": 500}}")
        .expect_err("reserved_context_size too low");
    assert!(err.to_string().contains("reserved_context_size"));
}

#[test]
fn config_defaults_are_the_documented_values() {
    let config = get_default_config();
    assert_eq!(config.loop_control.max_steps_per_turn, 1000);
    assert_eq!(config.loop_control.max_retries_per_step, 3);
    assert_eq!(config.loop_control.max_ralph_iterations, 0);
    assert_eq!(config.loop_control.reserved_context_size, 50000);
    assert_eq!(config.mcp.client.tool_call_timeout_ms, 60000);
}

#[test]
fn config_toml_sections_are_read() {
    let text = "default_thinking = true\n[loop_control]\nmax_steps_per_turn = 7\nmax_ralph_iterations = -1\n";
    let config = load_config_from_string(text).expect("load toml");
    assert!(config.default_thinking);
    assert_eq!(config.loop_control.max_steps_per_turn, 7);
    assert_eq!(config.loop_control.max_ralph_iterations, -1);
    assert_eq!(config.loop_control.max_retries_per_step, 3);
}

#[test]
fn config_error_offset_counts_characters() {
    let err = load_config_from_string("{\n  \"a\": }").expect_err("invalid");
    let msg = err.to_string();
    assert!(msg.starts_with("Invalid configuration text: expected value at line 2 column 8 (char 9); "), "{msg}");
}

#[test]
fn config_rejects_wrong_types() {
    let err = load_config_from_string("{\"default_model\": 5}").expect_err("wrong type");
    assert_eq!(err.to_string(), "Invalid configuration text: default_model: expected a string");
    let err = load_config_from_string("[1, 2]").expect_err("not a table");
    assert_eq!(err.to_string(), "Invalid configuration text: expected a table of settings");
    let err = load_config_from_string("{\"loop_control\": {\"max_steps_per_turn\": 1.5}}").expect_err("float");
    assert_eq!(err.to_string(), "Invalid configuration text: loop_control.max_steps_per_turn: expected an integer");
}

#[test]
fn config_checks_default_model_and_providers() {
    let err = load_config_from_string("{\"default_model\": \"m\"}").expect_err("unknown model");
    assert_eq!(err.to_string(), "Invalid configuration text: Default model m not found in models");
    let err = load_config_from_string("{\"models\": {\"m\": {\"provider\": \"p\"}}}").expect_err("unknown provider");
    assert_eq!(err.to_string(), "Invalid configuration text: Provider p not found in providers");
    let config = load_config_from_string(
        "{\"default_model\": \"m\", \"models\": {\"m\": {\"provider\": \"p\", \"model\": \"x\"}}, \"providers\": {\"p\": {\"type\": \"kimi\"}}}",
    )
    .expect("valid");
    assert_eq!(config.default_model, "m");
    assert_eq!(config.models.len(), 1);
    assert_eq!(config.providers[0].0, "p");
}

#[test]
fn config_minimum_values_are_accepted() {
    let config = load_config_from_string(
        "{\"loop_control\": {\"max_steps_per_turn\": 1, \"max_retries_per_step\": 1, \"reserved_context_size\": 1000}}",
    )
    .expect("bounds are inclusive");
    assert_eq!(config.loop_control.reserved_context_size, 1000);
    let err = load_config_from_string("{\"loop_control\": {\"max_retries_per_step\": 0}}").expect_err("zero");
    assert_eq!(err.to_string(), "Invalid configuration text: loop_control.max_retries_per_step: must be at least 1");
}

#[test]
fn test_default_config_dump() {
    let config = get_default_config();
    let value = to_serde(&config_document(&config));
    let expected: serde_json::Value = serde_json::from_str(
        r#"{
            "default_model": "",
            "default_thinking": false,
            "models": {},
            "providers": {},
            "loop_control": {
                "max_steps_per_turn": 1000,
                "max_retries_per_step": 3,
                "max_ralph_iterations": 0,
                "reserved_context_size": 50000
            },
            "services": {
            },
            "mcp": {
                "client": {
                    "tool_call_timeout_ms": 60000
                }
            }
        }"#,
    )
    .expect("valid json");
    assert_eq!(value, expected);
}

#[test]
fn saved_config_reads_back() {
    let text = "{\"default_model\": \"m\", \"models\": {\"m\": {\"provider\": \"p\"}}, \"providers\": {\"p\": {}}, \"loop_control\": {\"max_ralph_iterations\": -1}, \"services\": {\"moonshot_search\": {\"base_url\": \"u\"}}}";
    let config = load_config_from_string(text).expect("valid");
    let saved = to_serde(&config_document(&config)).to_string();
    let again = load_config_from_string(&saved).expect("reads back");
    assert_eq!(again, config);
}

#[test]
fn save_format_follows_the_suffix() {
    assert_eq!(save_format("/home/u/.kimi/config.toml"), ConfigFormat::Toml);
    assert_eq!(save_format(".toml"), ConfigFormat::Toml);
    assert_eq!(save_format("config.json"), ConfigFormat::Json);
    assert_eq!(save_format("toml"), ConfigFormat::Json);
    assert_eq!(save_format("config.tomlx"), ConfigFormat::Json);
}
