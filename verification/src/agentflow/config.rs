use vstd::prelude::*;

use crate::agentflow::error::{Error, Result};

verus! {

/// The service's configuration.
#[allow(non_snake_case)]
pub struct Config {
    pub WEB_FOLDER: String,
}

/// The environment variable that names the folder of static web files.
pub const WEB_FOLDER_VAR: &'static str = "SERVICE_WEB_FOLDER";

impl Config {
    /// Builds the configuration from the value of `SERVICE_WEB_FOLDER`, which must be set.
    pub fn load_from(web_folder: Option<String>) -> (r: Result<Config>)
        ensures
            match web_folder {
                Some(f) => r matches Ok(c) && c.WEB_FOLDER@ == f@,
                None => r == Err::<Config, Error>(Error::ConfigMissingEnv(WEB_FOLDER_VAR)),
            },
    {
        match web_folder {
            Some(f) => Ok(Config { WEB_FOLDER: f }),
            None => Err(Error::ConfigMissingEnv(WEB_FOLDER_VAR)),
        }
    }
}

} // verus!
