//! Localized string catalogs for the freemkv toolchain: locale-tag handling,
//! the choice of language and catalog, lookup by dotted path with a per-key
//! English fallback, placeholder substitution and error-code messages.
//!
//! English and the other bundled languages are compiled in. The process-wide
//! state, the environment and the on-disk search live with the caller; this
//! crate decides, from the values it is handed, which locale tags to try,
//! which catalog codes and file paths to try for them and in what order, and
//! what a lookup returns.

pub mod json;
pub mod text;
pub mod catalog;
pub mod message;
pub mod lang;
pub mod resolve;
pub mod locale_code;

pub use catalog::{
    Catalog, LOCALE_EN, parse_catalog, english_catalog, lookup, get, fmt, placeholders,
    bundled_locale, bundled_locale_json, SHIPPED_CODES,
};
pub use message::{error_message, error_message_with};
pub use lang::{two_letter_code, locale_from_env, locale_candidates, LocaleState};
pub use resolve::{Resolver, ResolveStep, locale_candidate_paths};
pub use locale_code::{normalize_code, fold_language, fallback_chain, locale_filenames};
