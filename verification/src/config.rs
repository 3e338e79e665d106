//! Application configuration: the values the host persists between runs.
//! Loading and saving the file is the host's concern; this is the data and
//! its defaults.

use vstd::prelude::*;

verus! {

/// Persisted settings: the miss penalty, the theme name, the application
/// name, the stage size, and the session mode.
#[derive(Clone, Debug)]
pub struct AppConfig {
    pub loss_ms_per_miss: u64,
    pub theme: String,
    pub app_name: String,
    pub stage_w: u16,
    pub stage_h: u16,
    pub fixed_chars: bool,
    pub target_chars: u32,
}

pub fn default_stage_w() -> (r: u16)
    ensures
        r == 88,
{
    88
}

pub fn default_stage_h() -> (r: u16)
    ensures
        r == 28,
{
    28
}

pub fn default_fixed_chars() -> (r: bool)
    ensures
        r,
{
    true
}

pub fn default_target_chars() -> (r: u32)
    ensures
        r == 400,
{
    400
}

pub fn default_app_name() -> (r: String)
    ensures
        r@ == "IrohaType"@,
{
    String::from_str("IrohaType")
}

impl AppConfig {
    /// Where the host keeps the configuration file.
    pub fn path() -> (r: String)
        ensures
            r@ == "data/config.json"@,
    {
        String::from_str("data/config.json")
    }
}

impl Default for AppConfig {
    /// A 200 ms miss penalty, the default theme, and a 400-keystroke
    /// character-count session on an 88x28 stage.
    fn default() -> (r: Self)
        ensures
            r.loss_ms_per_miss == 200,
            r.theme@ == "default"@,
            r.app_name@ == "IrohaType"@,
            r.stage_w == 88,
            r.stage_h == 28,
            r.fixed_chars,
            r.target_chars == 400,
    {
        AppConfig {
            loss_ms_per_miss: 200,
            theme: String::from_str("default"),
            app_name: default_app_name(),
            stage_w: default_stage_w(),
            stage_h: default_stage_h(),
            fixed_chars: default_fixed_chars(),
            target_chars: default_target_chars(),
        }
    }
}

} // verus!
