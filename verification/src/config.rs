//! What the user asks for.
use vstd::prelude::*;

verus! {

/// How texts are to be translated.
pub struct TranslationConfig {
    /// The language to translate into.
    pub target_lang: String,
    /// The name of the provider to ask first.
    pub provider: String,
    /// Whether to do without the cache on disk.
    pub no_cache: bool,
}

impl TranslationConfig {
    pub fn new(target_lang: &str, provider: &str, no_cache: bool) -> (config: Self)
        ensures
            config.target_lang@ == target_lang@,
            config.provider@ == provider@,
            config.no_cache == no_cache,
    {
        TranslationConfig {
            target_lang: target_lang.to_owned(),
            provider: provider.to_owned(),
            no_cache,
        }
    }
}

} // verus!
