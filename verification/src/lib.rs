//! An encrypted key-value store for environment-variable-style configuration.
//!
//! The store keeps a map from string names to string values. `save_bytes`
//! serializes the map to a small JSON object, checks it against the size
//! bound, and encrypts it with AES-128 in CBC mode with PKCS#7 padding under
//! a fixed key and initialization vector; `load_bytes` inverts the pipeline.
//! File I/O and command-line handling live outside the library, which works
//! on plain byte vectors.

use vstd::prelude::*;

mod cli;
mod crypto;
mod errors;
mod json;
mod store;
mod text;

pub use cli::{apply_exprs, eq_pos, exprs_ok, parse_set_env_expr, strings_view, Command};

pub use json::{
    entries_text, entry_text, escape_char, escape_string, hex_digit, hex_val, json_of,
    lemma_parse_json_of,
    parse_entries, parse_json_text, parse_string_body, quoted, unescape,
};

pub use crypto::{enc_of, padded_len, BLOCK_SIZE};
pub use errors::EnvError;
pub use store::{
    export_twice, lemma_map_of_contains, lemma_map_of_index, map_of, wf_entries, State,
    MAX_PLAINTEXT_LEN,
};

verus! {

} // verus!
