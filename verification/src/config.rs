//! The application configuration, assembled from plain optional values;
//! reading the process environment stays outside the library.

use vstd::prelude::*;
use vstd::string::StringExecFns;

verus! {

/// The settings the application runs with.
#[derive(Debug)]
pub struct AppConfig {
    pub database_name: String,
    pub database_username: String,
    pub database_password: String,
    pub database_conn_url: String,
}

impl Clone for AppConfig {
    fn clone(&self) -> (r: AppConfig)
        ensures
            r == *self,
    {
        AppConfig {
            database_name: self.database_name.clone(),
            database_username: self.database_username.clone(),
            database_password: self.database_password.clone(),
            database_conn_url: self.database_conn_url.clone(),
        }
    }
}

/// The connection address that stands when none is configured and either
/// credential is missing, and the tail of the one built from credentials.
pub open spec fn spec_default_conn_url() -> Seq<char> {
    "mongodb://localhost:27017"@
}

/// The connection address built from credentials.
pub open spec fn spec_conn_url_with(username: Seq<char>, password: Seq<char>) -> Seq<char> {
    "mongodb://"@ + username + ":"@ + password + "@localhost:27017"@
}

impl AppConfig {
    /// Assembles the configuration from the optional environment values:
    /// absent values fall back to their defaults, and an absent connection
    /// address is built from the credentials when both are present.
    pub fn from_parts(
        name: Option<String>,
        username: Option<String>,
        password: Option<String>,
        conn_url: Option<String>,
    ) -> (r: AppConfig)
        ensures
            r.database_name@ == (match name {
                Some(n) => n@,
                None => "test"@,
            }),
            r.database_username@ == (match username {
                Some(u) => u@,
                None => Seq::<char>::empty(),
            }),
            r.database_password@ == (match password {
                Some(p) => p@,
                None => Seq::<char>::empty(),
            }),
            r.database_conn_url@ == (match conn_url {
                Some(u) => u@,
                None => if r.database_username@.len() == 0 || r.database_password@.len() == 0 {
                    spec_default_conn_url()
                } else {
                    spec_conn_url_with(r.database_username@, r.database_password@)
                },
            }),
    {
        let database_name = match name {
            Some(n) => n,
            None => "test".to_owned(),
        };
        let database_username = match username {
            Some(u) => u,
            None => String::new(),
        };
        let database_password = match password {
            Some(p) => p,
            None => String::new(),
        };
        let database_conn_url = match conn_url {
            Some(u) => u,
            None => {
                if database_username.as_str().is_empty() || database_password.as_str().is_empty() {
                    "mongodb://localhost:27017".to_owned()
                } else {
                    "mongodb://".to_owned().concat(database_username.as_str()).concat(
                        ":",
                    ).concat(database_password.as_str()).concat("@localhost:27017")
                }
            },
        };
        AppConfig { database_name, database_username, database_password, database_conn_url }
    }
}

} // verus!
