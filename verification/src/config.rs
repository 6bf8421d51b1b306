//! The agent's configuration: its defaults, and how a configuration text (JSON,
//! else TOML) is read and checked.
use vstd::prelude::*;
use crate::json::{
    Json, JsonNumber, JsonValue, contains_key, entries_view, get_value, has_key, is_first_key,
    lemma_first_key_unique, lemma_object_view, obj_get,
};
use crate::json_text::{JsonSyntaxError, json_parse, parse_json_text, parse_toml_text, toml_parse};
use crate::text::{append_str, decimal, decimal_string, str_chars, string_of};

verus! {

/// Limits on how the agent's loop runs.
#[derive(Debug, Clone, Copy, PartialEq, Eq, Structural)]
pub struct LoopControl {
    pub max_steps_per_turn: i64,
    pub max_retries_per_step: i64,
    /// How many extra iterations the loop may run on its own; -1 for no
    /// limit.
    pub max_ralph_iterations: i64,
    /// The room kept free in the model's context, in tokens.
    pub reserved_context_size: i64,
}

/// The default loop limits.
pub open spec fn default_loop_control() -> LoopControl {
    LoopControl {
        max_steps_per_turn: 1000,
        max_retries_per_step: 3,
        max_ralph_iterations: 0,
        reserved_context_size: 50000,
    }
}

impl Default for LoopControl {
    fn default() -> (r: Self)
        ensures
            r == default_loop_control(),
    {
        LoopControl {
            max_steps_per_turn: 1000,
            max_retries_per_step: 3,
            max_ralph_iterations: 0,
            reserved_context_size: 50000,
        }
    }
}

/// How the MCP client calls tools.
#[derive(Debug, Clone, Copy, PartialEq, Eq, Structural)]
pub struct MCPClientConfig {
    pub tool_call_timeout_ms: i64,
}

/// The MCP settings.
#[derive(Debug, Clone, Copy, PartialEq, Eq, Structural)]
pub struct MCPConfig {
    pub client: MCPClientConfig,
}

impl Default for MCPConfig {
    fn default() -> (r: Self)
        ensures
            r.client.tool_call_timeout_ms == 60000,
    {
        MCPConfig { client: MCPClientConfig { tool_call_timeout_ms: 60000 } }
    }
}

/// The settings of the services the agent may call, each kept as given.
#[derive(Debug, PartialEq)]
pub struct Services {
    pub moonshot_search: Option<JsonValue>,
    pub moonshot_fetch: Option<JsonValue>,
}

impl Default for Services {
    fn default() -> (r: Self)
        ensures
            r.moonshot_search is None,
            r.moonshot_fetch is None,
    {
        Services { moonshot_search: None, moonshot_fetch: None }
    }
}

/// The agent's configuration.
#[derive(Debug, PartialEq)]
pub struct Config {
    /// Whether it was read from the default place.
    pub is_from_default_location: bool,
    /// The file it was read from, if any.
    pub source_file: Option<String>,
    /// The model used when none is named; empty for none.
    pub default_model: String,
    pub default_thinking: bool,
    /// The models by name, each kept as given.
    pub models: Vec<(String, JsonValue)>,
    /// The providers by name, each kept as given.
    pub providers: Vec<(String, JsonValue)>,
    pub loop_control: LoopControl,
    pub services: Services,
    pub mcp: MCPConfig,
}

/// Why a configuration cannot be used.
#[derive(Debug)]
pub struct ConfigError {
    pub message: String,
}

impl ConfigError {
    /// The message of the error.
    pub fn to_string(&self) -> (r: String)
        ensures
            r@ == self.message@,
    {
        self.message.clone()
    }
}

/// What a configuration holds, as mathematical values.
pub struct ConfigView {
    pub default_model: Seq<char>,
    pub default_thinking: bool,
    pub models: Seq<(Seq<char>, Json)>,
    pub providers: Seq<(Seq<char>, Json)>,
    pub loop_control: LoopControl,
    pub moonshot_search: Option<Json>,
    pub moonshot_fetch: Option<Json>,
    pub tool_call_timeout_ms: i64,
}

/// The view of an optional JSON value.
pub open spec fn opt_view(o: Option<JsonValue>) -> Option<Json> {
    match o {
        Some(v) => Some(v@),
        None => None,
    }
}

/// What the configuration `c` holds.
pub open spec fn config_view(c: Config) -> ConfigView {
    ConfigView {
        default_model: c.default_model@,
        default_thinking: c.default_thinking,
        models: entries_view(c.models@),
        providers: entries_view(c.providers@),
        loop_control: c.loop_control,
        moonshot_search: opt_view(c.services.moonshot_search),
        moonshot_fetch: opt_view(c.services.moonshot_fetch),
        tool_call_timeout_ms: c.mcp.client.tool_call_timeout_ms,
    }
}

/// The configuration used when none is given.
pub open spec fn default_config_view() -> ConfigView {
    ConfigView {
        default_model: Seq::empty(),
        default_thinking: false,
        models: Seq::empty(),
        providers: Seq::empty(),
        loop_control: default_loop_control(),
        moonshot_search: None,
        moonshot_fetch: None,
        tool_call_timeout_ms: 60000,
    }
}

/// The configuration used when none is given.
pub fn get_default_config() -> (r: Config)
    ensures
        config_view(r) == default_config_view(),
        !r.is_from_default_location,
        r.source_file is None,
{
    let c = Config {
        is_from_default_location: false,
        source_file: None,
        default_model: String::new(),
        default_thinking: false,
        models: Vec::new(),
        providers: Vec::new(),
        loop_control: LoopControl::default(),
        services: Services::default(),
        mcp: MCPConfig::default(),
    };
    assert(entries_view(c.models@) =~= Seq::empty());
    assert(entries_view(c.providers@) =~= Seq::empty());
    assert(c.default_model@ =~= Seq::<char>::empty());
    c
}

/// The value under `key` of `doc`, when `doc` is an object that holds it.
pub open spec fn field(doc: Json, key: Seq<char>) -> Option<Json> {
    match doc {
        Json::Object(m) => obj_get(m, key),
        _ => None,
    }
}

/// The value under `key` of `doc` (see `field`).
fn field_of<'a>(doc: &'a JsonValue, key: &str) -> (r: Option<&'a JsonValue>)
    ensures
        match r {
            Some(v) => field(doc@, key@) == Some(v@),
            None => field(doc@, key@) is None,
        },
{
    match doc {
        JsonValue::Object(m) => {
            proof {
                lemma_object_view(*m);
            }
            get_value(m, key)
        },
        _ => None,
    }
}

/// A text setting under `key`: absent gives `default`.
pub open spec fn text_setting(doc: Json, key: Seq<char>, path: Seq<char>, default: Seq<char>) -> Result<Seq<char>, Seq<char>> {
    match field(doc, key) {
        None => Ok(default),
        Some(Json::Str(s)) => Ok(s),
        Some(_) => Err(path + ": expected a string"@),
    }
}

/// A yes-or-no setting under `key`: absent gives `default`.
pub open spec fn flag_setting(doc: Json, key: Seq<char>, path: Seq<char>, default: bool) -> Result<bool, Seq<char>> {
    match field(doc, key) {
        None => Ok(default),
        Some(Json::Bool(b)) => Ok(b),
        Some(_) => Err(path + ": expected true or false"@),
    }
}

/// An integer setting under `key`, at least `min` (written `min_text`):
/// absent gives `default`.
pub open spec fn int_setting(doc: Json, key: Seq<char>, path: Seq<char>, default: i64, min: i64, min_text: Seq<char>) -> Result<i64, Seq<char>> {
    match field(doc, key) {
        None => Ok(default),
        Some(Json::Number(JsonNumber::PosInt(u))) => if u > i64::MAX {
            Err(path + ": is too large"@)
        } else if u < min {
            Err(path + ": must be at least "@ + min_text)
        } else {
            Ok(u as i64)
        },
        Some(Json::Number(JsonNumber::NegInt(i))) => if i < min {
            Err(path + ": must be at least "@ + min_text)
        } else {
            Ok(i)
        },
        Some(_) => Err(path + ": expected an integer"@),
    }
}

/// A table of named entries under `key`: absent gives none.
pub open spec fn table_setting(doc: Json, key: Seq<char>, path: Seq<char>) -> Result<Seq<(Seq<char>, Json)>, Seq<char>> {
    match field(doc, key) {
        None => Ok(Seq::empty()),
        Some(Json::Object(m)) => Ok(m),
        Some(_) => Err(path + ": expected a table"@),
    }
}

/// A section under `key`: absent (or null) gives an empty one.
pub open spec fn section(doc: Json, key: Seq<char>, path: Seq<char>) -> Result<Json, Seq<char>> {
    match field(doc, key) {
        None => Ok(Json::Object(Seq::empty())),
        Some(Json::Null) => Ok(Json::Object(Seq::empty())),
        Some(Json::Object(m)) => Ok(Json::Object(m)),
        Some(_) => Err(path + ": expected a table"@),
    }
}

/// An optional section under `key`: absent or null gives none.
pub open spec fn optional_section(doc: Json, key: Seq<char>, path: Seq<char>) -> Result<Option<Json>, Seq<char>> {
    match field(doc, key) {
        None => Ok(None),
        Some(Json::Null) => Ok(None),
        Some(Json::Object(m)) => Ok(Some(Json::Object(m))),
        Some(_) => Err(path + ": expected a table"@),
    }
}

/// The loop limits of the section `lc`.
pub open spec fn loop_control_of(lc: Json) -> Result<LoopControl, Seq<char>> {
    match int_setting(lc, "max_steps_per_turn"@, "loop_control.max_steps_per_turn"@, 1000, 1, "1"@) {
        Err(e) => Err(e),
        Ok(steps) => match int_setting(lc, "max_retries_per_step"@, "loop_control.max_retries_per_step"@, 3, 1, "1"@) {
            Err(e) => Err(e),
            Ok(retries) => match int_setting(
                lc,
                "max_ralph_iterations"@,
                "loop_control.max_ralph_iterations"@,
                0,
                -1i64,
                "-1"@,
            ) {
                Err(e) => Err(e),
                Ok(ralph) => match int_setting(
                    lc,
                    "reserved_context_size"@,
                    "loop_control.reserved_context_size"@,
                    50000,
                    1000,
                    "1000"@,
                ) {
                    Err(e) => Err(e),
                    Ok(reserved) => Ok(
                        LoopControl {
                            max_steps_per_turn: steps,
                            max_retries_per_step: retries,
                            max_ralph_iterations: ralph,
                            reserved_context_size: reserved,
                        },
                    ),
                },
            },
        },
    }
}

/// The first model whose provider is not a string naming one of
/// `providers`, as the error it gives.
pub open spec fn model_provider_error(models: Seq<(Seq<char>, Json)>, providers: Seq<(Seq<char>, Json)>) -> Option<Seq<char>>
    decreases models.len(),
{
    if models.len() == 0 {
        None
    } else {
        match field(models[0].1, "provider"@) {
            Some(Json::Str(p)) => if has_key(providers, p) {
                model_provider_error(models.drop_first(), providers)
            } else {
                Some("Provider "@ + p + " not found in providers"@)
            },
            _ => Some("models."@ + models[0].0 + ".provider: expected a string"@),
        }
    }
}

/// The settings besides the loop limits, services and MCP, read from `doc`.
pub open spec fn head_settings(doc: Json) -> Result<(Seq<char>, bool, Seq<(Seq<char>, Json)>, Seq<(Seq<char>, Json)>), Seq<char>> {
    match doc {
        Json::Object(_) => match text_setting(doc, "default_model"@, "default_model"@, Seq::empty()) {
            Err(e) => Err(e),
            Ok(dm) => match flag_setting(doc, "default_thinking"@, "default_thinking"@, false) {
                Err(e) => Err(e),
                Ok(dt) => match table_setting(doc, "models"@, "models"@) {
                    Err(e) => Err(e),
                    Ok(models) => match table_setting(doc, "providers"@, "providers"@) {
                        Err(e) => Err(e),
                        Ok(providers) => Ok((dm, dt, models, providers)),
                    },
                },
            },
        },
        _ => Err("expected a table of settings"@),
    }
}

/// The services and MCP settings read from `doc`: the two services and the
/// tool-call timeout.
pub open spec fn tail_settings(doc: Json) -> Result<(Option<Json>, Option<Json>, i64), Seq<char>> {
    match section(doc, "services"@, "services"@) {
        Err(e) => Err(e),
        Ok(services) => match optional_section(services, "moonshot_search"@, "services.moonshot_search"@) {
            Err(e) => Err(e),
            Ok(search) => match optional_section(services, "moonshot_fetch"@, "services.moonshot_fetch"@) {
                Err(e) => Err(e),
                Ok(fetch) => match section(doc, "mcp"@, "mcp"@) {
                    Err(e) => Err(e),
                    Ok(mcp) => match section(mcp, "client"@, "mcp.client"@) {
                        Err(e) => Err(e),
                        Ok(client) => match int_setting(
                            client,
                            "tool_call_timeout_ms"@,
                            "mcp.client.tool_call_timeout_ms"@,
                            60000,
                            i64::MIN,
                            Seq::empty(),
                        ) {
                            Err(e) => Err(e),
                            Ok(t) => Ok((search, fetch, t)),
                        },
                    },
                },
            },
        },
    }
}

/// The configuration that the document `doc` describes, or what is wrong
/// with it: settings absent take their defaults, and unknown ones are
/// ignored; the default model, if named, must be among the models, and each
/// model's provider among the providers.
pub open spec fn decoded_config(doc: Json) -> Result<ConfigView, Seq<char>> {
    match head_settings(doc) {
        Err(e) => Err(e),
        Ok((dm, dt, models, providers)) => match section(doc, "loop_control"@, "loop_control"@) {
            Err(e) => Err(e),
            Ok(lc) => match loop_control_of(lc) {
                Err(e) => Err(e),
                Ok(loop_control) => match tail_settings(doc) {
                    Err(e) => Err(e),
                    Ok((search, fetch, timeout)) => if dm.len() > 0 && !has_key(models, dm) {
                        Err("Default model "@ + dm + " not found in models"@)
                    } else {
                        match model_provider_error(models, providers) {
                            Some(e) => Err(e),
                            None => Ok(
                                ConfigView {
                                    default_model: dm,
                                    default_thinking: dt,
                                    models,
                                    providers,
                                    loop_control,
                                    moonshot_search: search,
                                    moonshot_fetch: fetch,
                                    tool_call_timeout_ms: timeout,
                                },
                            ),
                        }
                    },
                },
            },
        },
    }
}

/// `path` followed by `tail`.
fn suffixed(path: &str, tail: &str) -> (r: String)
    ensures
        r@ == path@ + tail@,
{
    let mut r = string_of(path);
    append_str(&mut r, tail);
    r
}

/// The text setting under `key`, empty when absent (see `text_setting`).
fn text_setting_of(doc: &JsonValue, key: &str, path: &str) -> (r: Result<String, String>)
    ensures
        match r {
            Ok(v) => text_setting(doc@, key@, path@, Seq::empty()) == Ok::<Seq<char>, Seq<char>>(v@),
            Err(e) => text_setting(doc@, key@, path@, Seq::empty()) == Err::<Seq<char>, Seq<char>>(e@),
        },
{
    match field_of(doc, key) {
        None => {
            let v = String::new();
            assert(v@ =~= Seq::<char>::empty());
            Ok(v)
        },
        Some(JsonValue::String(v)) => Ok(v.clone()),
        Some(_) => Err(suffixed(path, ": expected a string")),
    }
}

/// The yes-or-no setting under `key` (see `flag_setting`).
fn flag_setting_of(doc: &JsonValue, key: &str, path: &str, default: bool) -> (r: Result<bool, String>)
    ensures
        match r {
            Ok(v) => flag_setting(doc@, key@, path@, default) == Ok::<bool, Seq<char>>(v),
            Err(e) => flag_setting(doc@, key@, path@, default) == Err::<bool, Seq<char>>(e@),
        },
{
    match field_of(doc, key) {
        None => Ok(default),
        Some(JsonValue::Bool(b)) => Ok(*b),
        Some(_) => Err(suffixed(path, ": expected true or false")),
    }
}

/// The integer setting under `key` (see `int_setting`).
fn int_setting_of(doc: &JsonValue, key: &str, path: &str, default: i64, min: i64, min_text: &str) -> (r: Result<i64, String>)
    ensures
        match r {
            Ok(v) => int_setting(doc@, key@, path@, default, min, min_text@) == Ok::<i64, Seq<char>>(v),
            Err(e) => int_setting(doc@, key@, path@, default, min, min_text@) == Err::<i64, Seq<char>>(e@),
        },
{
    match field_of(doc, key) {
        None => Ok(default),
        Some(JsonValue::Number(JsonNumber::PosInt(u))) => {
            let u = *u;
            if u > 9223372036854775807u64 {
                Err(suffixed(path, ": is too large"))
            } else if min > 0 && u < min as u64 {
                let mut e = suffixed(path, ": must be at least ");
                append_str(&mut e, min_text);
                Err(e)
            } else {
                Ok(u as i64)
            }
        },
        Some(JsonValue::Number(JsonNumber::NegInt(i))) => {
            if *i < min {
                let mut e = suffixed(path, ": must be at least ");
                append_str(&mut e, min_text);
                Err(e)
            } else {
                Ok(*i)
            }
        },
        Some(_) => Err(suffixed(path, ": expected an integer")),
    }
}

/// The table of named entries under `key` (see `table_setting`).
fn table_setting_of(doc: &JsonValue, key: &str, path: &str) -> (r: Result<Vec<(String, JsonValue)>, String>)
    ensures
        match r {
            Ok(v) => table_setting(doc@, key@, path@) == Ok::<Seq<(Seq<char>, Json)>, Seq<char>>(entries_view(v@)),
            Err(e) => table_setting(doc@, key@, path@) == Err::<Seq<(Seq<char>, Json)>, Seq<char>>(e@),
        },
{
    match field_of(doc, key) {
        None => {
            let v: Vec<(String, JsonValue)> = Vec::new();
            assert(entries_view(v@) =~= Seq::empty());
            Ok(v)
        },
        Some(JsonValue::Object(m)) => {
            proof {
                lemma_object_view(*m);
            }
            Ok(crate::json::duplicate_entries(m))
        },
        Some(_) => Err(suffixed(path, ": expected a table")),
    }
}

/// The section under `key` (see `section`).
fn section_of(doc: &JsonValue, key: &str, path: &str) -> (r: Result<JsonValue, String>)
    ensures
        match r {
            Ok(v) => section(doc@, key@, path@) == Ok::<Json, Seq<char>>(v@),
            Err(e) => section(doc@, key@, path@) == Err::<Json, Seq<char>>(e@),
        },
{
    match field_of(doc, key) {
        None | Some(JsonValue::Null) => {
            let v: Vec<(String, JsonValue)> = Vec::new();
            proof {
                lemma_object_view(v);
                assert(entries_view(v@) =~= Seq::empty());
            }
            Ok(JsonValue::Object(v))
        },
        Some(JsonValue::Object(m)) => {
            proof {
                lemma_object_view(*m);
            }
            let c = crate::json::duplicate_entries(m);
            proof {
                lemma_object_view(c);
            }
            Ok(JsonValue::Object(c))
        },
        Some(_) => Err(suffixed(path, ": expected a table")),
    }
}

/// The optional section under `key` (see `optional_section`).
fn optional_section_of(doc: &JsonValue, key: &str, path: &str) -> (r: Result<Option<JsonValue>, String>)
    ensures
        match r {
            Ok(v) => optional_section(doc@, key@, path@) == Ok::<Option<Json>, Seq<char>>(opt_view(v)),
            Err(e) => optional_section(doc@, key@, path@) == Err::<Option<Json>, Seq<char>>(e@),
        },
{
    match field_of(doc, key) {
        None | Some(JsonValue::Null) => Ok(None),
        Some(JsonValue::Object(m)) => {
            proof {
                lemma_object_view(*m);
            }
            let c = crate::json::duplicate_entries(m);
            proof {
                lemma_object_view(c);
            }
            Ok(Some(JsonValue::Object(c)))
        },
        Some(_) => Err(suffixed(path, ": expected a table")),
    }
}

/// The loop limits of the section `lc` (see `loop_control_of`).
fn loop_control_from(lc: &JsonValue) -> (r: Result<LoopControl, String>)
    ensures
        match r {
            Ok(v) => loop_control_of(lc@) == Ok::<LoopControl, Seq<char>>(v),
            Err(e) => loop_control_of(lc@) == Err::<LoopControl, Seq<char>>(e@),
        },
{
    let steps = match int_setting_of(lc, "max_steps_per_turn", "loop_control.max_steps_per_turn", 1000, 1, "1") {
        Ok(v) => v,
        Err(e) => return Err(e),
    };
    let retries = match int_setting_of(lc, "max_retries_per_step", "loop_control.max_retries_per_step", 3, 1, "1") {
        Ok(v) => v,
        Err(e) => return Err(e),
    };
    let ralph = match int_setting_of(lc, "max_ralph_iterations", "loop_control.max_ralph_iterations", 0, -1, "-1") {
        Ok(v) => v,
        Err(e) => return Err(e),
    };
    let reserved = match int_setting_of(
        lc,
        "reserved_context_size",
        "loop_control.reserved_context_size",
        50000,
        1000,
        "1000",
    ) {
        Ok(v) => v,
        Err(e) => return Err(e),
    };
    Ok(
        LoopControl {
            max_steps_per_turn: steps,
            max_retries_per_step: retries,
            max_ralph_iterations: ralph,
            reserved_context_size: reserved,
        },
    )
}

/// The first model whose provider is missing (see `model_provider_error`).
fn model_provider_error_of(models: &Vec<(String, JsonValue)>, providers: &Vec<(String, JsonValue)>) -> (r: Option<String>)
    ensures
        match r {
            Some(e) => model_provider_error(entries_view(models@), entries_view(providers@)) == Some(e@),
            None => model_provider_error(entries_view(models@), entries_view(providers@)) is None,
        },
{
    let ghost mv = entries_view(models@);
    let ghost pv = entries_view(providers@);
    let mut i: usize = 0;
    assert(mv.skip(0) =~= mv);
    while i < models.len()
        invariant
            i <= models.len(),
            mv == entries_view(models@),
            pv == entries_view(providers@),
            model_provider_error(mv, pv) == model_provider_error(mv.skip(i as int), pv),
        decreases models.len() - i,
    {
        assert(mv.skip(i as int)[0] == mv[i as int]);
        assert(mv.skip(i as int).drop_first() =~= mv.skip(i + 1));
        match field_of(&models[i].1, "provider") {
            Some(JsonValue::String(p)) => {
                if !contains_key(providers, p.as_str()) {
                    let mut e = string_of("Provider ");
                    append_str(&mut e, p.as_str());
                    append_str(&mut e, " not found in providers");
                    return Some(e);
                }
            },
            _ => {
                let mut e = string_of("models.");
                append_str(&mut e, models[i].0.as_str());
                append_str(&mut e, ".provider: expected a string");
                return Some(e);
            },
        }
        i = i + 1;
    }
    None
}

/// The settings besides the loop limits, services and MCP (see
/// `head_settings`).
fn head_settings_of(doc: &JsonValue) -> (r: Result<(String, bool, Vec<(String, JsonValue)>, Vec<(String, JsonValue)>), String>)
    ensures
        match r {
            Ok((dm, dt, models, providers)) => head_settings(doc@) == Ok::<
                (Seq<char>, bool, Seq<(Seq<char>, Json)>, Seq<(Seq<char>, Json)>),
                Seq<char>,
            >((dm@, dt, entries_view(models@), entries_view(providers@))),
            Err(e) => head_settings(doc@) == Err::<
                (Seq<char>, bool, Seq<(Seq<char>, Json)>, Seq<(Seq<char>, Json)>),
                Seq<char>,
            >(e@),
        },
{
    match doc {
        JsonValue::Object(_) => {},
        _ => return Err(string_of("expected a table of settings")),
    }
    let dm = match text_setting_of(doc, "default_model", "default_model") {
        Ok(v) => v,
        Err(e) => return Err(e),
    };
    let dt = match flag_setting_of(doc, "default_thinking", "default_thinking", false) {
        Ok(v) => v,
        Err(e) => return Err(e),
    };
    let models = match table_setting_of(doc, "models", "models") {
        Ok(v) => v,
        Err(e) => return Err(e),
    };
    let providers = match table_setting_of(doc, "providers", "providers") {
        Ok(v) => v,
        Err(e) => return Err(e),
    };
    Ok((dm, dt, models, providers))
}

/// The services and MCP settings (see `tail_settings`).
fn tail_settings_of(doc: &JsonValue) -> (r: Result<(Option<JsonValue>, Option<JsonValue>, i64), String>)
    ensures
        match r {
            Ok((search, fetch, t)) => tail_settings(doc@) == Ok::<(Option<Json>, Option<Json>, i64), Seq<char>>(
                (opt_view(search), opt_view(fetch), t),
            ),
            Err(e) => tail_settings(doc@) == Err::<(Option<Json>, Option<Json>, i64), Seq<char>>(e@),
        },
{
    let services = match section_of(doc, "services", "services") {
        Ok(v) => v,
        Err(e) => return Err(e),
    };
    let search = match optional_section_of(&services, "moonshot_search", "services.moonshot_search") {
        Ok(v) => v,
        Err(e) => return Err(e),
    };
    let fetch = match optional_section_of(&services, "moonshot_fetch", "services.moonshot_fetch") {
        Ok(v) => v,
        Err(e) => return Err(e),
    };
    let mcp = match section_of(doc, "mcp", "mcp") {
        Ok(v) => v,
        Err(e) => return Err(e),
    };
    let client = match section_of(&mcp, "client", "mcp.client") {
        Ok(v) => v,
        Err(e) => return Err(e),
    };
    let empty = String::new();
    assert(empty@ =~= Seq::<char>::empty());
    let t = match int_setting_of(
        &client,
        "tool_call_timeout_ms",
        "mcp.client.tool_call_timeout_ms",
        60000,
        i64::MIN,
        empty.as_str(),
    ) {
        Ok(v) => v,
        Err(e) => return Err(e),
    };
    Ok((search, fetch, t))
}

/// The message of an unusable configuration whose fault is `detail`.
pub open spec fn config_error_message(detail: Seq<char>) -> Seq<char> {
    "Invalid configuration text: "@ + detail
}

/// The configuration that the document `doc` describes (see
/// `decoded_config`), or the error that says what is wrong with it.
pub fn config_from_document(doc: &JsonValue) -> (r: Result<Config, ConfigError>)
    ensures
        match r {
            Ok(c) => decoded_config(doc@) == Ok::<ConfigView, Seq<char>>(config_view(c))
                && !c.is_from_default_location && c.source_file is None,
            Err(e) => decoded_config(doc@) matches Err(d) && e.message@ == config_error_message(d),
        },
{
    let fail = string_of("Invalid configuration text: ");
    let (dm, dt, models, providers) = match head_settings_of(doc) {
        Ok(v) => v,
        Err(e) => {
            let mut m = fail;
            append_str(&mut m, e.as_str());
            return Err(ConfigError { message: m });
        },
    };
    let lc = match section_of(doc, "loop_control", "loop_control") {
        Ok(v) => v,
        Err(e) => {
            let mut m = fail;
            append_str(&mut m, e.as_str());
            return Err(ConfigError { message: m });
        },
    };
    let loop_control = match loop_control_from(&lc) {
        Ok(v) => v,
        Err(e) => {
            let mut m = fail;
            append_str(&mut m, e.as_str());
            return Err(ConfigError { message: m });
        },
    };
    let (search, fetch, timeout) = match tail_settings_of(doc) {
        Ok(v) => v,
        Err(e) => {
            let mut m = fail;
            append_str(&mut m, e.as_str());
            return Err(ConfigError { message: m });
        },
    };
    if !dm.as_str().is_empty() && !contains_key(&models, dm.as_str()) {
        let mut m = fail;
        append_str(&mut m, "Default model ");
        append_str(&mut m, dm.as_str());
        append_str(&mut m, " not found in models");
        return Err(ConfigError { message: m });
    }
    match model_provider_error_of(&models, &providers) {
        Some(e) => {
            let mut m = fail;
            append_str(&mut m, e.as_str());
            return Err(ConfigError { message: m });
        },
        None => {},
    }
    Ok(
        Config {
            is_from_default_location: false,
            source_file: None,
            default_model: dm,
            default_thinking: dt,
            models,
            providers,
            loop_control,
            services: Services { moonshot_search: search, moonshot_fetch: fetch },
            mcp: MCPConfig { client: MCPClientConfig { tool_call_timeout_ms: timeout } },
        },
    )
}

/// The number of characters of `text` before the place at `line` and
/// `column`, both counted from one.
pub open spec fn char_offset(text: Seq<char>, line: nat, column: nat) -> nat
    decreases text.len(),
{
    if line <= 1 || text.len() == 0 {
        if column == 0 {
            0
        } else {
            (column - 1) as nat
        }
    } else if text[0] == '\n' {
        1 + char_offset(text.drop_first(), (line - 1) as nat, column)
    } else {
        1 + char_offset(text.drop_first(), line, column)
    }
}

/// The number of characters of `text` before `line` and `column` (see
/// `char_offset`).
fn char_offset_of(text: &str, line: usize, column: usize) -> (r: u128)
    ensures
        r == char_offset(text@, line as nat, column as nat),
{
    let cs = str_chars(text);
    let mut i: usize = 0;
    let mut l: usize = line;
    assert(text@.skip(0) =~= text@);
    while l > 1 && i < cs.len()
        invariant
            i <= cs.len(),
            cs@ == text@,
            char_offset(text@, line as nat, column as nat) == i + char_offset(text@.skip(i as int), l as nat, column as nat),
        decreases cs.len() - i,
    {
        assert(text@.skip(i as int)[0] == text@[i as int]);
        assert(text@.skip(i as int).drop_first() =~= text@.skip(i + 1));
        if cs[i] == '\n' {
            l = l - 1;
        }
        i = i + 1;
    }
    let base: u128 = if column == 0 {
        0
    } else {
        (column - 1) as u128
    };
    i as u128 + base
}

/// What is said of a text that is neither JSON nor TOML: serde_json's
/// message, where it stopped as a count of characters, and the toml crate's
/// message.
pub open spec fn unparsable_message(text: Seq<char>, json_message: Seq<char>, line: usize, column: usize, toml_message: Seq<char>) -> Seq<char> {
    config_error_message(
        json_message + " (char "@ + decimal(char_offset(text, line as nat, column as nat)) + "); "@ + toml_message,
    )
}

/// The error for a text that is neither JSON nor TOML (see
/// `unparsable_message`).
pub fn unparsable_config_error(text: &str, json_error: &JsonSyntaxError, toml_error: &str) -> (r: ConfigError)
    ensures
        r.message@ == unparsable_message(text@, json_error.message@, json_error.line, json_error.column, toml_error@),
{
    let mut m = string_of("Invalid configuration text: ");
    append_str(&mut m, json_error.message.as_str());
    append_str(&mut m, " (char ");
    let offset = decimal_string(char_offset_of(text, json_error.line, json_error.column));
    append_str(&mut m, offset.as_str());
    append_str(&mut m, "); ");
    append_str(&mut m, toml_error);
    ConfigError { message: m }
}

/// The configuration that the text `text` describes: read as JSON, or as
/// TOML where it is not JSON, then checked (see `decoded_config`).
pub open spec fn loaded_config(text: Seq<char>) -> Result<ConfigView, Seq<char>> {
    match json_parse(text) {
        Ok(doc) => match decoded_config(doc) {
            Ok(c) => Ok(c),
            Err(d) => Err(config_error_message(d)),
        },
        Err((jm, line, column)) => match toml_parse(text) {
            Ok(doc) => match decoded_config(doc) {
                Ok(c) => Ok(c),
                Err(d) => Err(config_error_message(d)),
            },
            Err(tm) => Err(unparsable_message(text, jm, line, column, tm)),
        },
    }
}

/// The configuration that the text `text` describes (see `loaded_config`).
pub fn load_config_from_string(text: &str) -> (r: Result<Config, ConfigError>)
    ensures
        match r {
            Ok(c) => loaded_config(text@) == Ok::<ConfigView, Seq<char>>(config_view(c))
                && !c.is_from_default_location && c.source_file is None,
            Err(e) => loaded_config(text@) == Err::<ConfigView, Seq<char>>(e.message@),
        },
{
    match parse_json_text(text) {
        Ok(doc) => config_from_document(&doc),
        Err(json_error) => match parse_toml_text(text) {
            Ok(doc) => config_from_document(&doc),
            Err(toml_error) => Err(unparsable_config_error(text, &json_error, toml_error.as_str())),
        },
    }
}

/// Every configuration that a document describes keeps the loop within its
/// bounds, names a known default model if it names one, and gives each model
/// a known provider.
pub proof fn law_decoded_config_valid(doc: Json)
    ensures
        decoded_config(doc) matches Ok(c) ==> {
            &&& c.loop_control.max_steps_per_turn >= 1
            &&& c.loop_control.max_retries_per_step >= 1
            &&& c.loop_control.max_ralph_iterations >= -1
            &&& c.loop_control.reserved_context_size >= 1000
            &&& (c.default_model.len() > 0 ==> has_key(c.models, c.default_model))
            &&& model_provider_error(c.models, c.providers) is None
        },
{
}

/// A document without settings describes the default configuration.
pub proof fn law_empty_document_is_default()
    ensures
        decoded_config(Json::Object(Seq::empty())) == Ok::<ConfigView, Seq<char>>(default_config_view()),
{
    let doc = Json::Object(Seq::<(Seq<char>, Json)>::empty());
    assert forall|k: Seq<char>| field(doc, k) is None by {
        assert(!has_key(Seq::<(Seq<char>, Json)>::empty(), k));
    }
    assert(model_provider_error(Seq::empty(), Seq::empty()) is None);
}

/// The JSON number of the integer `i`.
pub open spec fn int_number(i: i64) -> JsonNumber {
    if i >= 0 {
        JsonNumber::PosInt(i as u64)
    } else {
        JsonNumber::NegInt(i)
    }
}

/// The JSON number of `i` (see `int_number`).
fn int_number_of(i: i64) -> (r: JsonNumber)
    ensures
        r == int_number(i),
{
    if i >= 0 {
        JsonNumber::PosInt(i as u64)
    } else {
        JsonNumber::NegInt(i)
    }
}

/// The services a configuration saves: each that is set.
pub open spec fn services_entries(search: Option<Json>, fetch: Option<Json>) -> Seq<(Seq<char>, Json)> {
    (match search {
        Some(v) => seq![("moonshot_search"@, v)],
        None => Seq::empty(),
    }) + (match fetch {
        Some(v) => seq![("moonshot_fetch"@, v)],
        None => Seq::empty(),
    })
}

/// The document a configuration is saved as: its settings in order,
/// without where it was read from, and with only the services that are set.
pub open spec fn config_document_of(c: ConfigView) -> Json {
    Json::Object(
        seq![
            ("default_model"@, Json::Str(c.default_model)),
            ("default_thinking"@, Json::Bool(c.default_thinking)),
            ("models"@, Json::Object(c.models)),
            ("providers"@, Json::Object(c.providers)),
            ("loop_control"@, Json::Object(seq![
                ("max_steps_per_turn"@, Json::Number(int_number(c.loop_control.max_steps_per_turn))),
                ("max_retries_per_step"@, Json::Number(int_number(c.loop_control.max_retries_per_step))),
                ("max_ralph_iterations"@, Json::Number(int_number(c.loop_control.max_ralph_iterations))),
                ("reserved_context_size"@, Json::Number(int_number(c.loop_control.reserved_context_size))),
            ])),
            ("services"@, Json::Object(services_entries(c.moonshot_search, c.moonshot_fetch))),
            ("mcp"@, Json::Object(seq![
                ("client"@, Json::Object(seq![
                    ("tool_call_timeout_ms"@, Json::Number(int_number(c.tool_call_timeout_ms))),
                ])),
            ])),
        ],
    )
}

/// The entry `(key, value)`.
fn entry(key: &str, value: JsonValue) -> (r: (String, JsonValue))
    ensures
        r.0@ == key@,
        r.1 == value,
{
    (string_of(key), value)
}

/// The object with the entries `entries`.
fn object_of(entries: Vec<(String, JsonValue)>) -> (r: JsonValue)
    ensures
        r@ == Json::Object(entries_view(entries@)),
{
    proof {
        lemma_object_view(entries);
    }
    JsonValue::Object(entries)
}

/// The document the configuration `c` is saved as (see
/// `config_document_of`).
pub fn config_document(c: &Config) -> (r: JsonValue)
    ensures
        r@ == config_document_of(config_view(*c)),
{
    let lc = c.loop_control;
    let mut loop_entries: Vec<(String, JsonValue)> = Vec::new();
    loop_entries.push(entry("max_steps_per_turn", JsonValue::Number(int_number_of(lc.max_steps_per_turn))));
    loop_entries.push(entry("max_retries_per_step", JsonValue::Number(int_number_of(lc.max_retries_per_step))));
    loop_entries.push(entry("max_ralph_iterations", JsonValue::Number(int_number_of(lc.max_ralph_iterations))));
    loop_entries.push(entry("reserved_context_size", JsonValue::Number(int_number_of(lc.reserved_context_size))));
    let mut service_entries: Vec<(String, JsonValue)> = Vec::new();
    match &c.services.moonshot_search {
        Some(v) => service_entries.push(entry("moonshot_search", v.duplicate())),
        None => {},
    }
    match &c.services.moonshot_fetch {
        Some(v) => service_entries.push(entry("moonshot_fetch", v.duplicate())),
        None => {},
    }
    let mut client_entries: Vec<(String, JsonValue)> = Vec::new();
    client_entries.push(entry("tool_call_timeout_ms", JsonValue::Number(int_number_of(c.mcp.client.tool_call_timeout_ms))));
    let mut mcp_entries: Vec<(String, JsonValue)> = Vec::new();
    let ghost cev = entries_view(client_entries@);
    assert(cev =~= seq![("tool_call_timeout_ms"@, Json::Number(int_number(c.mcp.client.tool_call_timeout_ms)))]);
    let client = object_of(client_entries);
    mcp_entries.push(entry("client", client));
    let mut top: Vec<(String, JsonValue)> = Vec::new();
    top.push(entry("default_model", JsonValue::String(c.default_model.clone())));
    top.push(entry("default_thinking", JsonValue::Bool(c.default_thinking)));
    top.push(entry("models", object_of(crate::json::duplicate_entries(&c.models))));
    top.push(entry("providers", object_of(crate::json::duplicate_entries(&c.providers))));
    let ghost lv = entries_view(loop_entries@);
    let ghost sv = entries_view(service_entries@);
    let ghost mv = entries_view(mcp_entries@);
    top.push(entry("loop_control", object_of(loop_entries)));
    top.push(entry("services", object_of(service_entries)));
    top.push(entry("mcp", object_of(mcp_entries)));
    proof {
        let cv = config_view(*c);
        assert(lv =~= seq![
            ("max_steps_per_turn"@, Json::Number(int_number(cv.loop_control.max_steps_per_turn))),
            ("max_retries_per_step"@, Json::Number(int_number(cv.loop_control.max_retries_per_step))),
            ("max_ralph_iterations"@, Json::Number(int_number(cv.loop_control.max_ralph_iterations))),
            ("reserved_context_size"@, Json::Number(int_number(cv.loop_control.reserved_context_size))),
        ]);
        assert(sv =~= services_entries(cv.moonshot_search, cv.moonshot_fetch));
        assert(mv =~= seq![("client"@, Json::Object(cev))]);
        let d = config_document_of(cv)->Object_0;
        assert(entries_view(top@).len() == d.len());
        assert forall|k: int| 0 <= k < d.len() implies entries_view(top@)[k] == d[k] by {
            if k == 4 {
                assert(entries_view(top@)[k].1 == Json::Object(lv));
            } else if k == 5 {
                assert(entries_view(top@)[k].1 == Json::Object(sv));
            } else if k == 6 {
                assert(entries_view(top@)[k].1 == Json::Object(mv));
            }
        }
        assert(entries_view(top@) =~= d);
    }
    object_of(top)
}

/// A lookup of `k` finds entry `i` when it is the first with that key.
proof fn lemma_lookup_at(m: Seq<(Seq<char>, Json)>, k: Seq<char>, i: int)
    requires
        0 <= i < m.len(),
        m[i].0 == k,
        forall|j: int| 0 <= j < i ==> m[j].0 != k,
    ensures
        obj_get(m, k) == Some(m[i].1),
{
    lemma_first_key_unique(m, k, i);
}

/// A lookup of a key that no entry carries finds nothing.
proof fn lemma_lookup_absent(m: Seq<(Seq<char>, Json)>, k: Seq<char>)
    requires
        forall|j: int| 0 <= j < m.len() ==> m[j].0 != k,
    ensures
        obj_get(m, k) is None,
{
    if has_key(m, k) {
        let i = choose|i: int| is_first_key(m, k, i);
        assert(m[i].0 == k);
    }
}

/// A configuration that can be saved and read back: it keeps the bounds
/// that reading checks, and its services are tables.
pub open spec fn saved_config_valid(c: ConfigView) -> bool {
    &&& c.loop_control.max_steps_per_turn >= 1
    &&& c.loop_control.max_retries_per_step >= 1
    &&& c.loop_control.max_ralph_iterations >= -1
    &&& c.loop_control.reserved_context_size >= 1000
    &&& (c.default_model.len() > 0 ==> has_key(c.models, c.default_model))
    &&& model_provider_error(c.models, c.providers) is None
    &&& (c.moonshot_search matches Some(v) ==> v is Object)
    &&& (c.moonshot_fetch matches Some(v) ==> v is Object)
}

/// Reading back the document a configuration is saved as gives that
/// configuration, for every configuration that reading accepts.
pub proof fn law_saved_config_reads_back(c: ConfigView)
    requires
        saved_config_valid(c),
    ensures
        decoded_config(config_document_of(c)) == Ok::<ConfigView, Seq<char>>(c),
{
    reveal_strlit("default_model");
    reveal_strlit("default_thinking");
    reveal_strlit("models");
    reveal_strlit("providers");
    reveal_strlit("loop_control");
    reveal_strlit("services");
    reveal_strlit("mcp");
    reveal_strlit("client");
    reveal_strlit("tool_call_timeout_ms");
    reveal_strlit("max_steps_per_turn");
    reveal_strlit("max_retries_per_step");
    reveal_strlit("max_ralph_iterations");
    reveal_strlit("reserved_context_size");
    reveal_strlit("moonshot_search");
    reveal_strlit("moonshot_fetch");
    let doc = config_document_of(c);
    let top = doc->Object_0;
    assert("default_model"@.len() == 13 && "default_thinking"@.len() == 16 && "models"@.len() == 6);
    assert("providers"@.len() == 9 && "loop_control"@.len() == 12 && "services"@.len() == 8);
    assert("mcp"@.len() == 3 && "max_steps_per_turn"@.len() == 18 && "reserved_context_size"@.len() == 21);
    assert("moonshot_search"@.len() == 15 && "moonshot_fetch"@.len() == 14);
    assert("default_thinking"@[8] != "default_model"@[8]);
    assert("max_retries_per_step"@[5] != "max_ralph_iterations"@[5]);
    lemma_lookup_at(top, "default_model"@, 0);
    lemma_lookup_at(top, "default_thinking"@, 1);
    lemma_lookup_at(top, "models"@, 2);
    lemma_lookup_at(top, "providers"@, 3);
    lemma_lookup_at(top, "loop_control"@, 4);
    lemma_lookup_at(top, "services"@, 5);
    lemma_lookup_at(top, "mcp"@, 6);
    let lc = top[4].1->Object_0;
    lemma_lookup_at(lc, "max_steps_per_turn"@, 0);
    lemma_lookup_at(lc, "max_retries_per_step"@, 1);
    lemma_lookup_at(lc, "max_ralph_iterations"@, 2);
    lemma_lookup_at(lc, "reserved_context_size"@, 3);
    assert(loop_control_of(top[4].1) == Ok::<LoopControl, Seq<char>>(c.loop_control));
    let se = services_entries(c.moonshot_search, c.moonshot_fetch);
    match c.moonshot_search {
        Some(v) => {
            lemma_lookup_at(se, "moonshot_search"@, 0);
            match c.moonshot_fetch {
                Some(w) => lemma_lookup_at(se, "moonshot_fetch"@, 1),
                None => lemma_lookup_absent(se, "moonshot_fetch"@),
            }
        },
        None => {
            lemma_lookup_absent(se, "moonshot_search"@);
            match c.moonshot_fetch {
                Some(w) => lemma_lookup_at(se, "moonshot_fetch"@, 0),
                None => lemma_lookup_absent(se, "moonshot_fetch"@),
            }
        },
    }
    let mcp = top[6].1->Object_0;
    lemma_lookup_at(mcp, "client"@, 0);
    let client = mcp[0].1->Object_0;
    lemma_lookup_at(client, "tool_call_timeout_ms"@, 0);
    assert(head_settings(doc) == Ok::<
        (Seq<char>, bool, Seq<(Seq<char>, Json)>, Seq<(Seq<char>, Json)>),
        Seq<char>,
    >((c.default_model, c.default_thinking, c.models, c.providers)));
    assert(tail_settings(doc) == Ok::<(Option<Json>, Option<Json>, i64), Seq<char>>(
        (c.moonshot_search, c.moonshot_fetch, c.tool_call_timeout_ms),
    ));
}

/// A configuration is saved with each service under its own name: the
/// `services` table of the saved document holds the search service under
/// `moonshot_search` and the fetch service under `moonshot_fetch`, each
/// only when it is set.
pub proof fn law_services_saved_by_name(c: ConfigView)
    ensures
        field(config_document_of(c), "services"@) is Some,
        field(field(config_document_of(c), "services"@)->Some_0, "moonshot_search"@) == c.moonshot_search,
        field(field(config_document_of(c), "services"@)->Some_0, "moonshot_fetch"@) == c.moonshot_fetch,
{
    reveal_strlit("default_model");
    reveal_strlit("default_thinking");
    reveal_strlit("models");
    reveal_strlit("providers");
    reveal_strlit("loop_control");
    reveal_strlit("services");
    reveal_strlit("moonshot_search");
    reveal_strlit("moonshot_fetch");
    let top = config_document_of(c)->Object_0;
    assert("default_model"@.len() == 13 && "default_thinking"@.len() == 16 && "models"@.len() == 6);
    assert("providers"@.len() == 9 && "loop_control"@.len() == 12 && "services"@.len() == 8);
    assert("moonshot_search"@.len() == 15 && "moonshot_fetch"@.len() == 14);
    lemma_lookup_at(top, "services"@, 5);
    let se = services_entries(c.moonshot_search, c.moonshot_fetch);
    match c.moonshot_search {
        Some(v) => {
            lemma_lookup_at(se, "moonshot_search"@, 0);
            match c.moonshot_fetch {
                Some(w) => lemma_lookup_at(se, "moonshot_fetch"@, 1),
                None => lemma_lookup_absent(se, "moonshot_fetch"@),
            }
        },
        None => {
            lemma_lookup_absent(se, "moonshot_search"@);
            match c.moonshot_fetch {
                Some(w) => lemma_lookup_at(se, "moonshot_fetch"@, 0),
                None => lemma_lookup_absent(se, "moonshot_fetch"@),
            }
        },
    }
}

/// Each service is read from the table under its own name: when a document
/// reads as a configuration, a table under `services.moonshot_search` is
/// the search service and one under `services.moonshot_fetch` the fetch
/// service; a service with no table under its name is not set.
pub proof fn law_services_read_by_name(doc: Json)
    requires
        decoded_config(doc) is Ok,
    ensures
        match field(doc, "services"@) {
            Some(s) => match field(s, "moonshot_search"@) {
                Some(Json::Object(x)) => decoded_config(doc)->Ok_0.moonshot_search == Some(Json::Object(x)),
                _ => decoded_config(doc)->Ok_0.moonshot_search is None,
            },
            None => decoded_config(doc)->Ok_0.moonshot_search is None,
        },
        match field(doc, "services"@) {
            Some(s) => match field(s, "moonshot_fetch"@) {
                Some(Json::Object(x)) => decoded_config(doc)->Ok_0.moonshot_fetch == Some(Json::Object(x)),
                _ => decoded_config(doc)->Ok_0.moonshot_fetch is None,
            },
            None => decoded_config(doc)->Ok_0.moonshot_fetch is None,
        },
{
    let t = tail_settings(doc);
    assert(t is Ok);
    assert(decoded_config(doc)->Ok_0.moonshot_search == t->Ok_0.0);
    assert(decoded_config(doc)->Ok_0.moonshot_fetch == t->Ok_0.1);
}

/// The integer that a JSON value holds, if it is one.
pub open spec fn json_int(j: Option<Json>) -> Option<int> {
    match j {
        Some(Json::Number(JsonNumber::PosInt(u))) => Some(u as int),
        Some(Json::Number(JsonNumber::NegInt(i))) => Some(i as int),
        _ => None,
    }
}

/// An integer setting that reads is the integer given under its key.
proof fn lemma_int_setting_value(sec: Json, key: Seq<char>, path: Seq<char>, default: i64, min: i64, min_text: Seq<char>)
    requires
        int_setting(sec, key, path, default, min, min_text) is Ok,
        json_int(field(sec, key)) is Some,
    ensures
        int_setting(sec, key, path, default, min, min_text)->Ok_0 == json_int(field(sec, key))->Some_0,
{
}

/// The head settings are read from the entries under their own names: when
/// a document reads as a configuration, the default model, the thinking flag,
/// the models and the providers given in it are the ones it holds.
pub proof fn law_settings_read_by_name(doc: Json)
    requires
        decoded_config(doc) is Ok,
    ensures
        field(doc, "default_model"@) matches Some(Json::Str(s)) ==> decoded_config(doc)->Ok_0.default_model == s,
        field(doc, "default_thinking"@) matches Some(Json::Bool(b)) ==> decoded_config(doc)->Ok_0.default_thinking
            == b,
        field(doc, "models"@) matches Some(Json::Object(x)) ==> decoded_config(doc)->Ok_0.models == x,
        field(doc, "providers"@) matches Some(Json::Object(x)) ==> decoded_config(doc)->Ok_0.providers == x,
{
    let h = head_settings(doc);
    assert(h is Ok);
}

/// Each loop limit is read from the entry under its own name in the
/// `loop_control` table, and the tool-call timeout from
/// `mcp.client.tool_call_timeout_ms`: when a document reads as a
/// configuration, an integer given there is the one it holds.
pub proof fn law_limits_read_by_name(doc: Json)
    requires
        decoded_config(doc) is Ok,
    ensures
        field(doc, "loop_control"@) matches Some(l) ==> (json_int(field(l, "max_steps_per_turn"@)) matches Some(v)
            ==> decoded_config(doc)->Ok_0.loop_control.max_steps_per_turn == v),
        field(doc, "loop_control"@) matches Some(l) ==> (json_int(field(l, "max_retries_per_step"@)) matches Some(v)
            ==> decoded_config(doc)->Ok_0.loop_control.max_retries_per_step == v),
        field(doc, "loop_control"@) matches Some(l) ==> (json_int(field(l, "max_ralph_iterations"@)) matches Some(v)
            ==> decoded_config(doc)->Ok_0.loop_control.max_ralph_iterations == v),
        field(doc, "loop_control"@) matches Some(l) ==> (json_int(field(l, "reserved_context_size"@)) matches Some(v)
            ==> decoded_config(doc)->Ok_0.loop_control.reserved_context_size == v),
        field(doc, "mcp"@) matches Some(mc) ==> (field(mc, "client"@) matches Some(cl) ==> (json_int(
            field(cl, "tool_call_timeout_ms"@),
        ) matches Some(v) ==> decoded_config(doc)->Ok_0.tool_call_timeout_ms == v)),
{
    let lcs = section(doc, "loop_control"@, "loop_control"@);
    assert(lcs is Ok);
    let l0 = lcs->Ok_0;
    let lc = loop_control_of(l0);
    assert(lc is Ok);
    let c = decoded_config(doc)->Ok_0;
    assert(c.loop_control == lc->Ok_0);
    match field(doc, "loop_control"@) {
        Some(Json::Object(lm)) => {
            assert(l0 == Json::Object(lm));
        },
        _ => {},
    }
    let steps = int_setting(l0, "max_steps_per_turn"@, "loop_control.max_steps_per_turn"@, 1000, 1, "1"@);
    let retries = int_setting(l0, "max_retries_per_step"@, "loop_control.max_retries_per_step"@, 3, 1, "1"@);
    let ralph = int_setting(l0, "max_ralph_iterations"@, "loop_control.max_ralph_iterations"@, 0, -1i64, "-1"@);
    let reserved = int_setting(l0, "reserved_context_size"@, "loop_control.reserved_context_size"@, 50000, 1000, "1000"@);
    assert(steps is Ok && c.loop_control.max_steps_per_turn == steps->Ok_0);
    assert(retries is Ok && c.loop_control.max_retries_per_step == retries->Ok_0);
    assert(ralph is Ok && c.loop_control.max_ralph_iterations == ralph->Ok_0);
    assert(reserved is Ok && c.loop_control.reserved_context_size == reserved->Ok_0);
    if json_int(field(l0, "max_steps_per_turn"@)) is Some {
        lemma_int_setting_value(l0, "max_steps_per_turn"@, "loop_control.max_steps_per_turn"@, 1000, 1, "1"@);
    }
    if json_int(field(l0, "max_retries_per_step"@)) is Some {
        lemma_int_setting_value(l0, "max_retries_per_step"@, "loop_control.max_retries_per_step"@, 3, 1, "1"@);
    }
    if json_int(field(l0, "max_ralph_iterations"@)) is Some {
        lemma_int_setting_value(l0, "max_ralph_iterations"@, "loop_control.max_ralph_iterations"@, 0, -1i64, "-1"@);
    }
    if json_int(field(l0, "reserved_context_size"@)) is Some {
        lemma_int_setting_value(
            l0,
            "reserved_context_size"@,
            "loop_control.reserved_context_size"@,
            50000,
            1000,
            "1000"@,
        );
    }
    let t = tail_settings(doc);
    assert(t is Ok);
    assert(c.tool_call_timeout_ms == t->Ok_0.2);
    let mcs = section(doc, "mcp"@, "mcp"@);
    assert(mcs is Ok);
    let m0 = mcs->Ok_0;
    let cls = section(m0, "client"@, "mcp.client"@);
    assert(cls is Ok);
    let c0 = cls->Ok_0;
    let to = int_setting(c0, "tool_call_timeout_ms"@, "mcp.client.tool_call_timeout_ms"@, 60000, i64::MIN, Seq::empty());
    assert(to is Ok && t->Ok_0.2 == to->Ok_0);
    match field(doc, "mcp"@) {
        Some(Json::Object(mm)) => {
            assert(m0 == Json::Object(mm));
            match field(m0, "client"@) {
                Some(Json::Object(cm)) => {
                    assert(c0 == Json::Object(cm));
                },
                _ => {},
            }
        },
        _ => {},
    }
    if json_int(field(c0, "tool_call_timeout_ms"@)) is Some {
        lemma_int_setting_value(c0, "tool_call_timeout_ms"@, "mcp.client.tool_call_timeout_ms"@, 60000, i64::MIN, Seq::empty());
    }
}

/// The formats a configuration is saved in.
#[derive(Debug, Clone, Copy, PartialEq, Eq, Structural)]
pub enum ConfigFormat {
    Toml,
    Json,
}

/// `path` names a TOML file: it ends in `.toml`.
pub open spec fn names_toml_file(path: Seq<char>) -> bool {
    path.len() >= 5 && path.subrange(path.len() - 5, path.len() as int) == ".toml"@
}

/// The format a configuration is saved in at `path`: TOML when the name ends
/// in `.toml`, JSON otherwise.
pub fn save_format(path: &str) -> (r: ConfigFormat)
    ensures
        r == (if names_toml_file(path@) {
            ConfigFormat::Toml
        } else {
            ConfigFormat::Json
        }),
{
    let cs = str_chars(path);
    let suffix = str_chars(".toml");
    proof {
        reveal_strlit(".toml");
    }
    let n = cs.len();
    if n < 5 {
        return ConfigFormat::Json;
    }
    let mut i: usize = 0;
    while i < 5
        invariant
            i <= 5,
            n == cs.len(),
            n >= 5,
            suffix@ == ".toml"@,
            suffix@.len() == 5,
            cs@ == path@,
            forall|j: int| 0 <= j < i ==> cs@[n - 5 + j] == suffix@[j],
        decreases 5 - i,
    {
        if cs[n - 5 + i] != suffix[i] {
            assert(path@.subrange(n - 5, n as int)[i as int] == cs@[n - 5 + i]);
            return ConfigFormat::Json;
        }
        i = i + 1;
    }
    assert(path@.subrange(n - 5, n as int) =~= ".toml"@);
    ConfigFormat::Toml
}

} // verus!
