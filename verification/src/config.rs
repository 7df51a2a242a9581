//! Configuration as consumed by the core: opaque service parameters plus
//! the cache directory name. Loading from the environment happens outside;
//! this module only validates and derives paths.

use vstd::prelude::*;
use crate::error::DocTreeError;
use crate::strutil::{starts_with_seq, starts_with_sub, concat_str};

verus! {

/// Service endpoint, credentials, model name and cache location.
#[derive(Debug)]
pub struct Config {
    pub openai_api_base: String,
    pub openai_api_key: String,
    pub openai_model_name: String,
    pub cache_dir_name: String,
    pub log_level: String,
}

impl Config {
    /// A configuration is usable when the endpoint, model and cache
    /// directory are set and the endpoint is an HTTP or HTTPS URL.
    pub open spec fn valid_spec(&self) -> bool {
        &&& self.openai_api_base@.len() > 0
        &&& self.openai_model_name@.len() > 0
        &&& self.cache_dir_name@.len() > 0
        &&& (starts_with_seq(self.openai_api_base@, "http://"@) || starts_with_seq(
            self.openai_api_base@,
            "https://"@,
        ))
    }

    /// Accept exactly the usable configurations; reject the rest with a
    /// configuration error.
    pub fn validate(&self) -> (r: Result<(), DocTreeError>)
        ensures
            r is Ok <==> self.valid_spec(),
            r matches Err(e) ==> e is Config,
    {
        if self.openai_api_base.as_str().unicode_len() == 0 {
            return Err(
                DocTreeError::config("OPENAI_API_BASE cannot be empty".to_owned()),
            );
        }
        if self.openai_model_name.as_str().unicode_len() == 0 {
            return Err(
                DocTreeError::config("OPENAI_MODEL_NAME cannot be empty".to_owned()),
            );
        }
        if self.cache_dir_name.as_str().unicode_len() == 0 {
            return Err(
                DocTreeError::config("Cache directory name cannot be empty".to_owned()),
            );
        }
        if !starts_with_sub(self.openai_api_base.as_str(), "http://")
            && !starts_with_sub(self.openai_api_base.as_str(), "https://") {
            return Err(
                DocTreeError::config(
                    "OPENAI_API_BASE must be a valid HTTP/HTTPS URL".to_owned(),
                ),
            );
        }
        Ok(())
    }

    /// The cache directory under `base_path`.
    pub fn get_cache_dir_path(&self, base_path: &str) -> (r: String)
        ensures
            r@ == base_path@ + "/"@ + self.cache_dir_name@,
    {
        let joined = concat_str(base_path, "/");
        concat_str(joined.as_str(), self.cache_dir_name.as_str())
    }
}

} // verus!
