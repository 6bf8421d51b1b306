pub mod agent;
pub mod agents_md;
pub mod config;
pub mod export;
pub mod json;
pub mod json_text;
pub mod jsonschema;
pub mod labor_market;
pub mod paths;
pub mod session;
pub mod template;
pub mod text;
