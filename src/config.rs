use vstd::prelude::*;
use vstd::string::StringExecFns;

verus! {

/// Settings of the service: where it listens and where it stores records.
pub struct Config {
    pub server_address: String,
    pub database_url: String,
}

impl Config {
    /// Builds the settings from the configured values, if any, falling back
    /// for each one that is absent to its default: listening on
    /// `0.0.0.0:8080`, storing in `sqlite:///data/telemetry.db`.
    pub fn from_values(server_address: Option<String>, database_url: Option<String>) -> (r: Config)
        ensures
            r.server_address@ == (match server_address {
                Some(s) => s@,
                None => "0.0.0.0:8080"@,
            }),
            r.database_url@ == (match database_url {
                Some(s) => s@,
                None => "sqlite:///data/telemetry.db"@,
            }),
    {
        let server_address = match server_address {
            Some(s) => s,
            None => String::from_str("0.0.0.0:8080"),
        };
        let database_url = match database_url {
            Some(s) => s,
            None => String::from_str("sqlite:///data/telemetry.db"),
        };
        Config { server_address, database_url }
    }
}

} // verus!
