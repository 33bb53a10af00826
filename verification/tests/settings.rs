//! Resolving a configuration from gathered raw values.

use aragog_cli::config::Config;
use aragog_cli::error::ConfigError;

fn all_given() -> Result<Config, ConfigError> {
    Config::assemble(
        Some("Ledger".to_string()),
        Some("./db".to_string()),
        Some("http://localhost:8529".to_string()),
        Some("prod".to_string()),
        Some("root".to_string()),
        Some("secret".to_string()),
    )
}

#[test]
fn given_values_pass_through() {
    let c = all_given().unwrap();
    assert_eq!(c.schema_collection_name, "Ledger".to_string());
    assert_eq!(c.schema_path, "./db".to_string());
    assert_eq!(c.db_host, "http://localhost:8529".to_string());
    assert_eq!(c.db_name, "prod".to_string());
    assert_eq!(c.db_user, "root".to_string());
    assert_eq!(c.db_pwd, "secret".to_string());
}

#[test]
fn optional_values_take_their_defaults() {
    let c = Config::assemble(
        None,
        None,
        Some("h".to_string()),
        Some("n".to_string()),
        Some("u".to_string()),
        Some("p".to_string()),
    )
    .unwrap();
    assert_eq!(c.schema_collection_name, "AragogConfiguration".to_string());
    assert_eq!(c.schema_path, "./src/config/db".to_string());
}

#[test]
fn the_first_missing_required_value_is_reported() {
    let missing_host = Config::assemble(None, None, None, None, None, None);
    assert_eq!(missing_host, Err(ConfigError::Missing { item: "db_host".to_string() }));
    let missing_pwd = Config::assemble(
        None,
        None,
        Some("h".to_string()),
        Some("n".to_string()),
        Some("u".to_string()),
        None,
    );
    assert_eq!(missing_pwd, Err(ConfigError::Missing { item: "db_pwd".to_string() }));
}
