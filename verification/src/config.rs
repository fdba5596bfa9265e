//! The configuration of an application.

use vstd::prelude::*;
use vstd::string::StringExecFns;

verus! {

/// The configuration of an application.
#[derive(Debug, PartialEq, Eq)]
pub struct FerrumConfig {
    pub app_name: String,
    pub debug: bool,
    pub hot_reload: bool,
}

impl FerrumConfig {
    /// The configuration of the application `Ferrum App`, with the two switches as given.
    pub fn with_switches(debug: bool, hot_reload: bool) -> (r: Self)
        ensures
            r.app_name@ == "Ferrum App"@,
            r.debug == debug,
            r.hot_reload == hot_reload,
    {
        FerrumConfig { app_name: String::from_str("Ferrum App"), debug, hot_reload }
    }

    /// The level at which this configuration logs: `debug` where debugging is on,
    /// `info` otherwise.
    pub fn log_level(&self) -> (r: &'static str)
        ensures
            r@ == if self.debug {
                "debug"@
            } else {
                "info"@
            },
    {
        if self.debug {
            "debug"
        } else {
            "info"
        }
    }
}

impl Clone for FerrumConfig {
    fn clone(&self) -> (r: Self)
        ensures
            r.app_name@ == self.app_name@,
            r.debug == self.debug,
            r.hot_reload == self.hot_reload,
    {
        FerrumConfig {
            app_name: self.app_name.clone(),
            debug: self.debug,
            hot_reload: self.hot_reload,
        }
    }
}

} // verus!
