# freemkv-i18n (verified)

String catalogs for the freemkv toolchain, written in Verus.

* `src/` — the verified library.
  * `catalog.rs`: the bundled catalogs, parsing (through `serde_json`),
    lookup by dotted path with the per-key English fallback (a missing or
    blank value is served in English), single-pass placeholder substitution,
    the table of bundled languages (`SHIPPED_CODES`).
  * `message.rs`: error-code messages; placeholders a bare code cannot fill
    are dropped and the gaps tidied, `{detail}` filled when the caller has it.
  * `lang.rs`: the candidate locale tags (`--language`, GNU `LANGUAGE`,
    `LC_ALL`/`LC_MESSAGES`/`LANG`), the locale state, and the two-letter
    language of a locale name.
  * `resolve.rs`: the resolution of a catalog (each candidate's fallback
    chain, bundled or on disk, then English) and the on-disk search paths
    (next to the binary, the user's configuration, `/usr/share` or
    `%PROGRAMDATA%` on Windows, then the working directory).
  * `locale_code.rs`: canonical `lang[-script][-region]` codes, folding of
    ISO 639-2/639-3 codes, the catalog fallback chain and on-disk file names.
  * `text.rs`: character-level helpers over `&str` and `String`.
  * `json.rs`: the trusted boundary with `serde_json`.
* `app/` — the process-wide API (`set_language`, `init`, `set_locale`, `get`,
  `fmt`, `error_message`, `error_message_with`, `bundled_locale_json`) over
  process statics, the environment and the file system, delegating every
  decision to the library.
* `tests/` — tests of the library on concrete values.

The full translation catalogs of the freemkv project are not part of this
repository. The bundled catalogs (`de`, `en`, `es`, `fr`, `it`, `nl`, `pt`,
`pt-br`, `zh-hans`, `zh-hant`) hold the same small set of keys each, enough
for the library's behaviour and its tests; more keys or languages are added
as catalog text, with no change to the code.
