//! Configuration values and the `${path}` token expansion engine that runs
//! over them.

mod config;
mod config_loader;
mod error;
mod laws;
mod text;
mod token_expander;
mod value;

use vstd::prelude::*;

pub use config::GraftonConfig;
pub use config_loader::{config_file_names, config_files, env_key, map_env_var, section_key};
pub use error::{outcome, Error, Fault};
pub use laws::{
    law_direct_self_reference_fails, law_double_backslash_expands,
    law_expand_without_placeholders_is_identity, law_expansion_independent_of_position,
    law_expansion_keeps_shape, law_expansion_keeps_unique_keys, law_reference_chain_resolves,
    law_reference_cycle_fails, law_single_backslash_escapes, member_key, nests_within,
    placeholder_free, plain_key, same_shape,
};
pub use token_expander::{
    child_index_path, child_key_path, child_of, convert_value_to_string, expand, expand_array,
    expand_entries, expand_items, expand_object, expand_string, expand_token, expand_token_text,
    expand_tokens, expand_tokens_helper, expand_value, finalize_expansion, format_new_array_path,
    format_new_path, get_value_from_path, kept_backslashes, parse_index, placeholder,
    process_backslashes, resolve, resolve_path, scan, split_dots, text_of, token_at, Scan, Token,
    TOKEN_RESOLVE_DEPTH_LIMIT,
};
pub use text::{backslash_run, decimal, digit_char};
pub use value::{entries_view, items_view, value_view, Tree, Value};

verus! {

/// A typed configuration that is loaded through a tree and has its
/// placeholders expanded on the way. The loader asks in addition that it can
/// be serialized and deserialized.
pub trait TokenExpandingConfig: 'static + Send + Sync + core::fmt::Debug {

}

/// A configuration that carries the library's own settings.
pub trait GraftonConfigProvider: TokenExpandingConfig {
    fn get_grafton_config(&self) -> &GraftonConfig;
}

} // verus!
