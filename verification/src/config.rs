//! The resolved configuration the engine is driven with.
//!
//! The process around the library gathers raw option and environment values;
//! [`Config::assemble`] turns them into a resolved configuration, applying
//! the documented defaults and rejecting a configuration that leaves a
//! required value unset. The library performs no environment lookup itself.

use vstd::prelude::*;
use crate::error::ConfigError;

verus! {

/// A resolved configuration: where the database lives, how to authenticate,
/// where migration definitions are found, and which collection holds the
/// ledger.
#[derive(Debug, PartialEq, Eq)]
pub struct Config {
    pub schema_collection_name: String,
    pub schema_path: String,
    pub db_host: String,
    pub db_name: String,
    pub db_user: String,
    pub db_pwd: String,
}

/// The value of an optional setting once its default is applied.
pub open spec fn or_default(v: Option<String>, d: Seq<char>) -> Seq<char> {
    match v {
        Some(s) => s@,
        None => d,
    }
}

/// Relies on `aragog::schema::SCHEMA_DEFAULT_PATH`, the driver's default
/// schema directory, whose value is `"./src/config/db"`.
#[verifier::external_body]
fn default_schema_path() -> (r: String)
    ensures
        r@ == "./src/config/db"@,
{
    String::from(aragog::schema::SCHEMA_DEFAULT_PATH)
}

impl Config {
    /// Resolves a configuration from gathered raw values. The ledger
    /// collection name defaults to `AragogConfiguration` and the schema path
    /// to the driver's default; the four database values are required, and
    /// the first one missing (host, then name, user, password) is reported.
    pub fn assemble(
        schema_collection_name: Option<String>,
        schema_path: Option<String>,
        db_host: Option<String>,
        db_name: Option<String>,
        db_user: Option<String>,
        db_pwd: Option<String>,
    ) -> (r: Result<Config, ConfigError>)
        ensures
            (db_host is Some && db_name is Some && db_user is Some && db_pwd is Some) <==> r is Ok,
            r matches Ok(c) ==> {
                &&& c.db_host@ == or_default(db_host, Seq::empty())
                &&& c.db_name@ == or_default(db_name, Seq::empty())
                &&& c.db_user@ == or_default(db_user, Seq::empty())
                &&& c.db_pwd@ == or_default(db_pwd, Seq::empty())
                &&& c.schema_collection_name@ == or_default(
                    schema_collection_name,
                    "AragogConfiguration"@,
                )
                &&& c.schema_path@ == or_default(schema_path, "./src/config/db"@)
            },
            r matches Err(ConfigError::Missing { item }) ==> {
                ||| db_host is None && item@ == "db_host"@
                ||| db_host is Some && db_name is None && item@ == "db_name"@
                ||| db_host is Some && db_name is Some && db_user is None && item@ == "db_user"@
                ||| db_host is Some && db_name is Some && db_user is Some && db_pwd is None
                    && item@ == "db_pwd"@
            },
    {
        let db_host = match db_host {
            Some(v) => v,
            None => {
                return Err(ConfigError::Missing { item: String::from_str("db_host") });
            },
        };
        let db_name = match db_name {
            Some(v) => v,
            None => {
                return Err(ConfigError::Missing { item: String::from_str("db_name") });
            },
        };
        let db_user = match db_user {
            Some(v) => v,
            None => {
                return Err(ConfigError::Missing { item: String::from_str("db_user") });
            },
        };
        let db_pwd = match db_pwd {
            Some(v) => v,
            None => {
                return Err(ConfigError::Missing { item: String::from_str("db_pwd") });
            },
        };
        let schema_collection_name = match schema_collection_name {
            Some(v) => v,
            None => String::from_str("AragogConfiguration"),
        };
        let schema_path = match schema_path {
            Some(v) => v,
            None => default_schema_path(),
        };
        Ok(Config { schema_collection_name, schema_path, db_host, db_name, db_user, db_pwd })
    }
}

} // verus!
