use vstd::prelude::*;

verus! {

/// Tunables of the compression engine.
#[derive(Debug, Clone, Copy)]
pub struct EngineConfig {
    pub max_symbol_len: usize,
    pub min_gain_bytes: isize,
    pub allow_user_dict: bool,
    pub allow_global_dict: bool,
}

impl Default for EngineConfig {
    fn default() -> (c: Self)
        ensures
            c.max_symbol_len == 64,
            c.min_gain_bytes == 2,
            c.allow_user_dict,
            c.allow_global_dict,
    {
        Self { max_symbol_len: 64, min_gain_bytes: 2, allow_user_dict: true, allow_global_dict: true }
    }
}

} // verus!
